use paper_engine::scanner::{find_best_market, market_to_active, parse_datetime, Market, ScannerState};

fn market(ticker: &str, status: &str, close: &str, yes_ask: Option<i64>) -> Market {
    Market {
        ticker: Some(ticker.to_string()),
        event_ticker: Some("KXBTCD-EVT".to_string()),
        market_type: Some("binary".to_string()),
        status: Some(status.to_string()),
        yes_bid: None,
        yes_ask,
        no_bid: None,
        no_ask: None,
        last_price: None,
        close_time: Some(close.to_string()),
        expiration_time: None,
        result: None,
        strike: Some(100_000_000_000),
    }
}

// 2025-01-01T00:00:00Z
const NOW_MS: i64 = 1_735_689_600_000;

#[test]
fn parses_both_close_time_formats() {
    assert_eq!(parse_datetime("2025-01-01T00:15:00Z"), Some(NOW_MS + 900_000));
    assert_eq!(parse_datetime("2025-01-01T01:15:00+01:00"), Some(NOW_MS + 900_000));
    assert_eq!(parse_datetime("2025-01-01T00:15:00.500Z"), Some(NOW_MS + 900_500));
    assert_eq!(parse_datetime("not a time"), None);
}

#[test]
fn picks_soonest_group_nearest_half() {
    let markets = vec![
        market("LATER", "open", "2025-01-01T01:00:00Z", Some(500_000)),
        market("SOON-FAR", "active", "2025-01-01T00:15:00Z", Some(800_000)),
        market("SOON-NEAR", "open", "2025-01-01T00:15:30Z", Some(450_000)),
        market("SOON-NEAR-2", "open", "2025-01-01T00:15:10Z", Some(550_000)),
        market("PAST", "open", "2024-12-31T23:59:00Z", Some(500_000)),
        market("CLOSED", "closed", "2025-01-01T00:10:00Z", Some(500_000)),
    ];
    let best = find_best_market(markets, NOW_MS).unwrap();
    // Equal distance from 0.50: the first in catalog order wins.
    assert_eq!(best.ticker.as_deref(), Some("SOON-NEAR"));
}

#[test]
fn no_candidate_gives_none() {
    let mut m = market("A", "open", "2025-01-01T00:15:00Z", Some(500_000));
    m.market_type = Some("scalar".to_string());
    let markets = vec![m, market("B", "settled", "2025-01-01T00:15:00Z", Some(500_000))];
    assert!(find_best_market(markets, NOW_MS).is_none());
}

#[test]
fn missing_ask_counts_as_zero() {
    let markets = vec![
        market("NO-ASK", "open", "2025-01-01T00:15:00Z", None),
        market("ASK-90", "open", "2025-01-01T00:15:00Z", Some(900_000)),
    ];
    let best = find_best_market(markets, NOW_MS).unwrap();
    assert_eq!(best.ticker.as_deref(), Some("ASK-90"));
}

#[test]
fn settled_status_or_result() {
    let mut m = market("A", "determined", "2025-01-01T00:15:00Z", None);
    assert!(m.is_settled());
    assert!(!m.is_active());
    m.status = Some("open".to_string());
    assert!(!m.is_settled());
    assert!(m.is_active());
    m.result = Some("yes".to_string());
    assert!(m.is_settled());
    m.result = Some(String::new());
    assert!(!m.is_settled());
}

#[test]
fn active_market_from_listing() {
    let m = market("KXBTC-1", "open", "2025-01-01T00:15:00Z", Some(450_000));
    let a = market_to_active(&"KXBTCD".to_string(), m);
    assert_eq!(a.ticker, "KXBTC-1");
    assert_eq!(a.series_ticker, "KXBTCD");
    assert_eq!(a.yes_ask, Some(450_000));
    assert_eq!(a.close_time, "2025-01-01T00:15:00Z");
    assert_eq!(a.expiration_time, "");
}

#[test]
fn scanner_hands_old_market_to_settlement() {
    let mut s = ScannerState::new();
    assert!(s.on_scan(Some("A".to_string())));
    assert!(!s.on_scan(Some("A".to_string())));
    assert!(s.pending_settlement.is_empty());
    assert!(s.on_scan(Some("B".to_string())));
    assert_eq!(s.pending_settlement, vec!["A".to_string()]);
    assert!(!s.on_scan(None));
    assert_eq!(s.pending_settlement, vec!["A".to_string(), "B".to_string()]);
    assert!(s.current_ticker.is_none());
    s.remove_settled(&vec![true, false]);
    assert_eq!(s.pending_settlement, vec!["B".to_string()]);
}

#[test]
fn settlement_list_keeps_newest_twenty() {
    let mut s = ScannerState::new();
    for i in 0..25 {
        s.on_scan(Some(format!("M{i}")));
    }
    // 24 earlier markets were handed over; only the newest 20 are kept.
    assert_eq!(s.pending_settlement.len(), 20);
    let flags = vec![false; 20];
    s.remove_settled(&flags);
    assert_eq!(s.pending_settlement.len(), 20);
    assert_eq!(s.pending_settlement[0], "M4");
    assert_eq!(s.pending_settlement[19], "M23");
}
