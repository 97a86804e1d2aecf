//! The engine: its settings, search limits, the position it plays, and the
//! pool that shares engines between sessions.

pub mod interface;
pub mod options;
pub mod pool;

pub use interface::{Engine, EngineError, SearchLimits, SearchResult, StaticEvaluation, parse_uci_move};
pub use options::{EngineOptions, OptionError, UciOption};
pub use pool::{EnginePool, PoolConfig, PoolError};
