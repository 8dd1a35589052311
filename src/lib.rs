//! Chart (Earley) recognition of token sequences under a context-free grammar.
//!
//! Two recognizers build the same chart: `earley1` predicts over every rule and
//! completes over whole buckets; `earley2` reads a left-corner index and
//! buckets split by the symbol an edge waits for. Both are proved to publish,
//! in bucket `k`, exactly the passive edges ending at `k` that scan, predict
//! and complete derive (`model::chart_of`).
pub mod baseline;
pub mod bound;
pub mod closure;
pub mod laws;
pub mod leftcorner;
pub mod model;
pub mod optimized;
pub mod query;
pub mod types;

pub use baseline::earley1;
pub use leftcorner::{leftcorners_dict, LeftCorner};
pub use optimized::earley2;
pub use query::{bucket_selected, chartsize, example, success};
pub use types::{Chart, Edge, Grammar, Rule};
