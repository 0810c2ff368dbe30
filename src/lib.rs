//! Training-side logic of a hashed-feature linear language classifier:
//! the feature hasher, the per-language dataset balancer and the
//! integer bookkeeping of the training loop.
pub mod balance;
pub mod features;
pub mod training;
