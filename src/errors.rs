//! Error kinds of the engine.
use vstd::prelude::*;

verus! {

/// What went wrong. Every kind but `StateCorruption` is recoverable.
#[derive(Debug)]
pub enum EngineError {
    Network(String),
    Parse(String),
    KalshiApi { status: u16, body: String },
    CryptoFeed(String),
    Model(String),
    Database(String),
    Auth(String),
    Config(String),
    ChannelClosed(String),
    RiskLimit(String),
    StateCorruption(String),
}

impl EngineError {
    /// Whether the engine must halt on this error.
    pub fn is_fatal(&self) -> (r: bool)
        ensures
            r == (self is StateCorruption),
    {
        match self {
            EngineError::StateCorruption(_) => true,
            _ => false,
        }
    }
}

} // verus!
