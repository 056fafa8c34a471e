//! A round-based wagering game with verified core logic: time bucketing,
//! pari-mutuel settlement, a signed randomness draw gate, and a log-replay
//! indexer that rebuilds derived state from ordered event logs.

pub mod crypto;
pub mod draw;
pub mod events;
pub mod game;
pub mod indexer;
pub mod numstr;
pub mod oracle;
pub mod settle;
pub mod time_bucket;
