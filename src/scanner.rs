//! Choice of the binary market to trade and tracking of earlier markets
//! until they settle.
use vstd::prelude::*;
use crate::engine::ActiveMarket;

verus! {

broadcast use vstd::string::group_string_axioms;

/// A market of the venue's catalog as the scanner reads it. Prices are in
/// millionths, the strike in millionths of a dollar.
#[derive(Debug)]
pub struct Market {
    pub ticker: Option<String>,
    pub event_ticker: Option<String>,
    pub market_type: Option<String>,
    pub status: Option<String>,
    pub yes_bid: Option<i64>,
    pub yes_ask: Option<i64>,
    pub no_bid: Option<i64>,
    pub no_ask: Option<i64>,
    pub last_price: Option<i64>,
    pub close_time: Option<String>,
    pub expiration_time: Option<String>,
    pub result: Option<String>,
    pub strike: Option<i64>,
}

/// Two markets whose close times differ by less than this many seconds
/// close together.
pub const CLOSE_GROUP_SECONDS: i64 = 60;

/// Most earlier markets tracked for settlement.
pub const MAX_TRACKED: usize = 20;

pub open spec fn opt_is(s: Option<String>, lit: Seq<char>) -> bool {
    match s {
        Some(x) => x@ == lit,
        None => false,
    }
}

fn opt_eq(s: &Option<String>, lit: &str) -> (r: bool)
    ensures
        r == opt_is(*s, lit@),
{
    match s {
        Some(x) => *x == lit.to_string(),
        None => false,
    }
}

pub open spec fn spec_is_active(m: Market) -> bool {
    opt_is(m.status, "active"@) || opt_is(m.status, "open"@)
}

pub open spec fn spec_is_settled(m: Market) -> bool {
    ||| opt_is(m.status, "determined"@)
    ||| opt_is(m.status, "finalized"@)
    ||| opt_is(m.status, "settled"@)
    ||| opt_is(m.status, "closed"@)
    ||| (m.result matches Some(r) && r@.len() > 0)
}

impl Market {
    /// Open for trading: status `active` or `open`.
    pub fn is_active(&self) -> (r: bool)
        ensures
            r == spec_is_active(*self),
    {
        opt_eq(&self.status, "active") || opt_eq(&self.status, "open")
    }

    /// Resolved: a settled status, or a non-empty result.
    pub fn is_settled(&self) -> (r: bool)
        ensures
            r == spec_is_settled(*self),
    {
        let by_status = opt_eq(&self.status, "determined") || opt_eq(&self.status, "finalized")
            || opt_eq(&self.status, "settled") || opt_eq(&self.status, "closed");
        let has_result = match &self.result {
            Some(r) => {
                let empty = String::new();
                let non_empty = !(*r == empty);
                proof {
                    if r@.len() == 0 {
                        assert(r@ =~= empty@);
                    }
                }
                non_empty
            },
            None => false,
        };
        by_status || has_result
    }
}

/// Instant named by an RFC 3339 text, in milliseconds since the epoch.
pub uninterp spec fn rfc3339_millis(s: Seq<char>) -> Option<i64>;

/// Instant named by a UTC text in the given `strftime` format, in
/// milliseconds since the epoch.
pub uninterp spec fn utc_format_millis(s: Seq<char>, fmt: Seq<char>) -> Option<i64>;

/// Relies on chrono's `DateTime::parse_from_rfc3339` and
/// `DateTime::timestamp_millis`: a pure function of the text.
#[verifier::external_body]
fn parse_rfc3339_millis(s: &str) -> (r: Option<i64>)
    ensures
        r == rfc3339_millis(s@),
{
    match chrono::DateTime::parse_from_rfc3339(s) {
        Ok(dt) => Some(dt.timestamp_millis()),
        Err(_) => None,
    }
}

/// Relies on chrono's `NaiveDateTime::parse_from_str`, `and_utc` and
/// `timestamp_millis`: a pure function of the text and the format.
#[verifier::external_body]
fn parse_utc_millis(s: &str, fmt: &str) -> (r: Option<i64>)
    ensures
        r == utc_format_millis(s@, fmt@),
{
    match chrono::NaiveDateTime::parse_from_str(s, fmt) {
        Ok(dt) => Some(dt.and_utc().timestamp_millis()),
        Err(_) => None,
    }
}

/// Fallback format of close times: `2024-01-01T12:00:00Z`.
pub open spec fn utc_fallback_format() -> Seq<char> {
    "%Y-%m-%dT%H:%M:%SZ"@
}

/// A close time: RFC 3339 first, else the plain UTC format.
pub open spec fn datetime_millis(s: Seq<char>) -> Option<i64> {
    match rfc3339_millis(s) {
        Some(t) => Some(t),
        None => utc_format_millis(s, utc_fallback_format()),
    }
}

/// Parses a close time to milliseconds since the epoch.
pub fn parse_datetime(s: &str) -> (r: Option<i64>)
    ensures
        r == datetime_millis(s@),
{
    match parse_rfc3339_millis(s) {
        Some(t) => Some(t),
        None => {
            let fmt = "%Y-%m-%dT%H:%M:%SZ";
            proof {
                reveal_strlit("%Y-%m-%dT%H:%M:%SZ");
            }
            parse_utc_millis(s, fmt)
        },
    }
}

pub open spec fn close_millis(m: Market) -> Option<i64> {
    match m.close_time {
        Some(s) => datetime_millis(s@),
        None => None,
    }
}

/// Whole seconds of an instant in milliseconds, rounded down.
pub open spec fn secs_of(ms: i64) -> int {
    ms as int / 1000
}

/// An active binary market that closes after `now_ms`.
pub open spec fn is_candidate(m: Market, now_ms: int) -> bool {
    &&& spec_is_active(m)
    &&& opt_is(m.market_type, "binary"@)
    &&& close_millis(m) matches Some(t)
    &&& t > now_ms
}

/// Distance of the YES ask from 0.50, in hundredths of a cent (a missing
/// ask counts as zero).
pub open spec fn ask_key(m: Market) -> int {
    let a = match m.yes_ask { Some(a) => a as int, None => 0 };
    let d = if a >= 500_000 { a - 500_000 } else { 500_000 - a };
    d / 100
}

pub open spec fn in_group(m: Market, earliest: int) -> bool {
    close_millis(m) matches Some(t) && secs_of(t) - earliest < CLOSE_GROUP_SECONDS
}

/// Index of the market to trade: among the candidates whose close falls
/// within 60 s of the earliest candidate close (in whole seconds), the first
/// with the YES ask nearest 0.50.
pub open spec fn is_best(ms: Seq<Market>, now_ms: int, i: int) -> bool {
    exists|e: int| {
        &&& (exists|j: int| 0 <= j < ms.len() && is_candidate(#[trigger] ms[j], now_ms) && secs_of(close_millis(ms[j])->Some_0) == e)
        &&& (forall|j: int| 0 <= j < ms.len() && is_candidate(#[trigger] ms[j], now_ms) ==> secs_of(close_millis(ms[j])->Some_0) >= e)
        &&& 0 <= i < ms.len()
        &&& is_candidate(ms[i], now_ms)
        &&& in_group(ms[i], e)
        &&& (forall|j: int| 0 <= j < ms.len() && is_candidate(#[trigger] ms[j], now_ms) && in_group(ms[j], e) ==> ask_key(ms[i]) <= ask_key(ms[j]))
        &&& (forall|j: int| 0 <= j < i && is_candidate(#[trigger] ms[j], now_ms) && in_group(ms[j], e) ==> ask_key(ms[i]) < ask_key(ms[j]))
    }
}

fn candidate_close(m: &Market, now_ms: i64) -> (r: Option<i64>)
    ensures
        is_candidate(*m, now_ms as int) ==> r == close_millis(*m),
        !is_candidate(*m, now_ms as int) ==> r is None,
{
    if !m.is_active() || !opt_eq(&m.market_type, "binary") {
        return None;
    }
    match &m.close_time {
        Some(s) => {
            let t = parse_datetime(s.as_str());
            match t {
                Some(v) => if v > now_ms { Some(v) } else { None },
                None => None,
            }
        },
        None => None,
    }
}

fn secs(ms: i64) -> (r: i64)
    ensures
        r == secs_of(ms),
{
    crate::fixed::div_floor(ms as i128, 1000) as i64
}

fn key_of(m: &Market) -> (r: i64)
    ensures
        r == ask_key(*m),
{
    let a: i64 = match m.yes_ask { Some(a) => a, None => 0 };
    let d: i128 = if a >= 500_000 { a as i128 - 500_000 } else { 500_000 - a as i128 };
    (d / 100) as i64
}

/// Picks the market to trade, if any candidate exists.
pub fn best_market_index(markets: &Vec<Market>, now_ms: i64) -> (r: Option<usize>)
    ensures
        r is None <==> forall|j: int| 0 <= j < markets.len() ==> !is_candidate(#[trigger] markets[j], now_ms as int),
        r matches Some(i) ==> is_best(markets@, now_ms as int, i as int),
{
    let ghost ms = markets@;
    let n = markets.len();
    let mut earliest: Option<i64> = None;
    let mut witness: usize = 0;
    let mut i: usize = 0;
    while i < n
        invariant
            n == ms.len(),
            ms == markets@,
            i <= n,
            earliest is None <==> forall|j: int| 0 <= j < i ==> !is_candidate(#[trigger] ms[j], now_ms as int),
            earliest matches Some(e) ==> witness < i && is_candidate(ms[witness as int], now_ms as int)
                && secs_of(close_millis(ms[witness as int])->Some_0) == e,
            earliest matches Some(e) ==> forall|j: int| 0 <= j < i && is_candidate(#[trigger] ms[j], now_ms as int)
                ==> secs_of(close_millis(ms[j])->Some_0) >= e,
        decreases n - i,
    {
        match candidate_close(&markets[i], now_ms) {
            Some(t) => {
                let s = secs(t);
                match earliest {
                    Some(e) => {
                        if s < e {
                            earliest = Some(s);
                            witness = i;
                        }
                    },
                    None => {
                        earliest = Some(s);
                        witness = i;
                    },
                }
            },
            None => {},
        }
        i = i + 1;
    }
    let e: i64 = match earliest {
        None => {
            return None;
        },
        Some(e) => e,
    };
    let mut best: Option<usize> = None;
    let mut best_key: i64 = 0;
    let mut j: usize = 0;
    while j < n
        invariant
            n == ms.len(),
            ms == markets@,
            j <= n,
            witness < n && is_candidate(ms[witness as int], now_ms as int)
                && secs_of(close_millis(ms[witness as int])->Some_0) == e,
            forall|k: int| 0 <= k < n && is_candidate(#[trigger] ms[k], now_ms as int) ==> secs_of(close_millis(ms[k])->Some_0) >= e,
            best is None ==> forall|k: int| 0 <= k < j ==> !(is_candidate(#[trigger] ms[k], now_ms as int) && in_group(ms[k], e as int)),
            best matches Some(b) ==> b < j && is_candidate(ms[b as int], now_ms as int) && in_group(ms[b as int], e as int)
                && best_key == ask_key(ms[b as int])
                && (forall|k: int| 0 <= k < j && is_candidate(#[trigger] ms[k], now_ms as int) && in_group(ms[k], e as int)
                    ==> best_key <= ask_key(ms[k]))
                && (forall|k: int| 0 <= k < b && is_candidate(#[trigger] ms[k], now_ms as int) && in_group(ms[k], e as int)
                    ==> best_key < ask_key(ms[k])),
        decreases n - j,
    {
        match candidate_close(&markets[j], now_ms) {
            Some(t) => {
                let s = secs(t);
                if s - e < CLOSE_GROUP_SECONDS {
                    let k = key_of(&markets[j]);
                    match best {
                        Some(_) => {
                            if k < best_key {
                                best = Some(j);
                                best_key = k;
                            }
                        },
                        None => {
                            best = Some(j);
                            best_key = k;
                        },
                    }
                }
            },
            None => {},
        }
        j = j + 1;
    }
    proof {
        let w = witness as int;
        assert(in_group(ms[w], e as int));
    }
    match best {
        Some(b) => {
            proof {
                assert(is_best(ms, now_ms as int, b as int));
            }
            Some(b)
        },
        None => {
            proof {
                assert(is_candidate(ms[witness as int], now_ms as int) && in_group(ms[witness as int], e as int));
            }
            None
        },
    }
}

/// Takes the market to trade out of a catalog page.
pub fn find_best_market(markets: Vec<Market>, now_ms: i64) -> (r: Option<Market>)
    ensures
        r is None <==> forall|j: int| 0 <= j < markets.len() ==> !is_candidate(#[trigger] markets[j], now_ms as int),
        r matches Some(m) ==> exists|i: int| is_best(markets@, now_ms as int, i) && markets[i] == m,
{
    let mut markets = markets;
    let ghost ms = markets@;
    match best_market_index(&markets, now_ms) {
        Some(i) => {
            let m = markets.remove(i);
            proof {
                assert(is_best(ms, now_ms as int, i as int));
            }
            Some(m)
        },
        None => None,
    }
}

fn take_or_empty(s: Option<String>) -> (r: String)
    ensures
        s matches Some(x) ==> r == x,
        s is None ==> r@.len() == 0,
{
    match s {
        Some(x) => x,
        None => String::new(),
    }
}

/// The tracked form of a catalog market, in `series_ticker`.
pub fn market_to_active(series_ticker: &String, m: Market) -> (r: ActiveMarket)
    ensures
        m.ticker matches Some(t) ==> r.ticker == t,
        m.ticker is None ==> r.ticker@.len() == 0,
        r.series_ticker == *series_ticker,
        r.strike == m.strike,
        r.yes_bid == m.yes_bid,
        r.yes_ask == m.yes_ask,
        r.no_bid == m.no_bid,
        r.no_ask == m.no_ask,
        r.last_price == m.last_price,
        r.result == m.result,
{
    ActiveMarket {
        ticker: take_or_empty(m.ticker),
        event_ticker: take_or_empty(m.event_ticker),
        series_ticker: series_ticker.clone(),
        strike: m.strike,
        yes_bid: m.yes_bid,
        yes_ask: m.yes_ask,
        no_bid: m.no_bid,
        no_ask: m.no_ask,
        last_price: m.last_price,
        close_time: take_or_empty(m.close_time),
        expiration_time: take_or_empty(m.expiration_time),
        status: take_or_empty(m.status),
        result: m.result,
    }
}

pub open spec fn views(s: Seq<String>) -> Seq<Seq<char>> {
    s.map_values(|x: String| x@)
}

/// The tickers not flagged as settled, in order.
pub open spec fn unsettled(ps: Seq<String>, flags: Seq<bool>) -> Seq<String>
    decreases ps.len(),
{
    if ps.len() == 0 {
        Seq::empty()
    } else {
        let rest = unsettled(ps.drop_last(), flags.take(ps.len() - 1));
        if flags[ps.len() - 1] { rest } else { rest.push(ps.last()) }
    }
}

/// The newest `MAX_TRACKED` entries of a list, oldest first.
pub open spec fn newest<A>(s: Seq<A>) -> Seq<A> {
    if s.len() > MAX_TRACKED { s.skip(s.len() - MAX_TRACKED) } else { s }
}

/// Drops the oldest entries beyond `MAX_TRACKED`.
fn trim_oldest(v: &mut Vec<String>)
    ensures
        final(v)@ == newest(old(v)@),
{
    let ghost s = v@;
    assert(s.skip(0) =~= s);
    while v.len() > MAX_TRACKED
        invariant
            v.len() <= s.len(),
            s.len() > MAX_TRACKED ==> v.len() >= MAX_TRACKED,
            s.len() <= MAX_TRACKED ==> v.len() == s.len(),
            v@ == s.skip(s.len() - v.len()),
        decreases v.len(),
    {
        let ghost before = v@;
        v.remove(0);
        proof {
            assert(v@ =~= s.skip(s.len() - v.len()));
        }
    }
    proof {
        if s.len() > MAX_TRACKED {
            assert(v.len() == MAX_TRACKED);
            assert(v@ == newest(s));
        } else {
            assert(v.len() == s.len());
            assert(v@ == newest(s));
        }
    }
}


proof fn lemma_views_newest(s: Seq<String>)
    ensures
        views(newest(s)) == newest(views(s)),
{
    if s.len() > MAX_TRACKED {
        assert(views(s.skip(s.len() - MAX_TRACKED)) =~= views(s).skip(s.len() - MAX_TRACKED));
    }
}

/// What the scanner remembers between polls: the market it last chose
/// and earlier markets awaiting settlement, oldest first.
pub struct ScannerState {
    pub current_ticker: Option<String>,
    pub pending_settlement: Vec<String>,
}

/// The settlement list after an earlier market is handed over: appended
/// unless already there.
pub open spec fn tracked_after(p: Seq<Seq<char>>, old_ticker: Option<String>) -> Seq<Seq<char>> {
    match old_ticker {
        Some(t) => if p.contains(t@) { p } else { p.push(t@) },
        None => p,
    }
}

impl ScannerState {
    pub fn new() -> (r: ScannerState)
        ensures
            r.current_ticker is None,
            r.pending_settlement@.len() == 0,
    {
        ScannerState { current_ticker: None, pending_settlement: Vec::new() }
    }

    fn track(&mut self, t: String)
        ensures
            views(final(self).pending_settlement@) == tracked_after(views(old(self).pending_settlement@), Some(t)),
            final(self).current_ticker == old(self).current_ticker,
    {
        let ghost p0 = views(self.pending_settlement@);
        let mut found = false;
        let mut i: usize = 0;
        while i < self.pending_settlement.len()
            invariant
                p0 == views(self.pending_settlement@),
                i <= self.pending_settlement.len(),
                found <==> exists|k: int| 0 <= k < i && #[trigger] p0[k] == t@,
            decreases self.pending_settlement.len() - i,
        {
            if self.pending_settlement[i] == t {
                found = true;
                proof {
                    assert(p0[i as int] == t@);
                }
            }
            i = i + 1;
        }
        proof {
            if p0.contains(t@) {
                let k = choose|k: int| 0 <= k < p0.len() && p0[k] == t@;
                assert(p0[k] == t@);
            }
        }
        if !found {
            self.pending_settlement.push(t);
            proof {
                assert(views(self.pending_settlement@) =~= p0.push(t@));
            }
        }
    }

    /// The poll chose `best` (or nothing). A different choice hands the
    /// previous market over to settlement tracking; returns whether the
    /// choice is new.
    pub fn on_scan(&mut self, best: Option<String>) -> (is_new: bool)
        ensures
            is_new == (match best {
                Some(t) => match old(self).current_ticker {
                    Some(c) => c@ != t@,
                    None => true,
                },
                None => false,
            }),
            (is_new || best is None) ==> views(final(self).pending_settlement@)
                == newest(tracked_after(views(old(self).pending_settlement@), old(self).current_ticker)),
            (is_new || best is None) ==> final(self).current_ticker == best,
            !(is_new || best is None) ==> final(self).pending_settlement@ == old(self).pending_settlement@
                && final(self).current_ticker == old(self).current_ticker,
    {
        match best {
            Some(t) => {
                let is_new = match &self.current_ticker {
                    Some(c) => !(*c == t),
                    None => true,
                };
                if is_new {
                    let prev = self.current_ticker.take();
                    match prev {
                        Some(p) => self.track(p),
                        None => {},
                    }
                    let ghost before = self.pending_settlement@;
                    trim_oldest(&mut self.pending_settlement);
                    proof {
                        lemma_views_newest(before);
                    }
                    self.current_ticker = Some(t);
                }
                is_new
            },
            None => {
                let prev = self.current_ticker.take();
                match prev {
                    Some(p) => self.track(p),
                    None => {},
                }
                let ghost before = self.pending_settlement@;
                trim_oldest(&mut self.pending_settlement);
                proof {
                    lemma_views_newest(before);
                }
                false
            },
        }
    }

    /// Drops the tracked markets flagged as settled, then the oldest ones
    /// beyond `MAX_TRACKED`.
    pub fn remove_settled(&mut self, settled: &Vec<bool>)
        requires
            settled.len() == old(self).pending_settlement.len(),
        ensures
            final(self).pending_settlement@ == newest(unsettled(old(self).pending_settlement@, settled@)),
            final(self).current_ticker == old(self).current_ticker,
    {
        let ghost ps = self.pending_settlement@;
        let n = self.pending_settlement.len();
        let mut kept: Vec<String> = Vec::new();
        let mut i: usize = 0;
        while i < n
            invariant
                n == self.pending_settlement.len(),
                ps == self.pending_settlement@,
                settled.len() == n,
                i <= n,
                kept@ == unsettled(ps.take(i as int), settled@.take(i as int)),
            decreases n - i,
        {
            proof {
                assert(ps.take(i as int + 1).drop_last() =~= ps.take(i as int));
                assert(settled@.take(i as int + 1).take(i as int) =~= settled@.take(i as int));
            }
            if !settled[i] {
                kept.push(self.pending_settlement[i].clone());
            }
            i = i + 1;
        }
        proof {
            assert(ps.take(n as int) =~= ps);
            assert(settled@.take(n as int) =~= settled@);
        }
        trim_oldest(&mut kept);
        self.pending_settlement = kept;
    }
}

} // verus!
