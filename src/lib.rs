//! A keyed cache of shared, lock-guarded resource slots.
//!
//! Callers ask a [`resource::ResourceStorage`] for a location; the storage hands
//! back the handle it already holds for that location, or has its acquisition
//! method create one. A periodic `update` pass lets the provider progress every
//! cached slot and then evicts the slots that nobody outside the storage holds.
mod external;
pub mod resource;

pub use resource::AsyncMethod;
pub use resource::PoolError;
pub use resource::Resource;
pub use resource::ResourceMethod;
pub use resource::ResourceProvider;
pub use resource::ResourceStorage;
pub use resource::StreamMethod;
