//! RibbonGuard: a blocked approximate-membership filter with a skew-adaptive
//! false-positive suppressor, with every layer's behaviour stated as a contract.

pub mod adaptive;
pub mod baseline;
pub mod blocked;
pub mod generators;
pub mod mixing;

pub use adaptive::AdaptiveFilter;
pub use blocked::{BlockedFilter, SLOTS};
pub use mixing::SplitMix64;
