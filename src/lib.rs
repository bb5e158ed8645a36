//! Composite ranking of issuers: each factor ranks the issuers and scores them by
//! position, and the per-factor scores are summed into one ordered ranking.
pub mod aggregate;
pub mod order;
pub mod pipeline;
pub mod ranker;
pub mod record;
