//! A keyed concurrency-limiter registry.
//!
//! The registry maps string keys to reference-counted counting semaphores,
//! so that work sharing a key is throttled to a fixed number of concurrent
//! holders while work on distinct keys proceeds independently. The registry
//! itself is a plain value; callers that share it across tasks wrap it in
//! their runtime's reader/writer lock and perform acquire/release against
//! the handles it returns, never while holding that lock.

mod handle;
mod laws;
mod registry;

pub use handle::HandleInfo;
pub use handle::SemaphoreHandle;
pub use handle::MAX_SEMAPHORE_PERMITS;
pub use laws::lemma_get_or_create_preserves_inv;
pub use laws::lemma_isolation_across_keys;
pub use laws::lemma_noop_removal;
pub use laws::lemma_removal_independence;
pub use laws::lemma_remove_preserves_inv;
pub use laws::lemma_single_creation;
pub use registry::model_inv;
pub use registry::spec_get_or_create;
pub use registry::spec_remove;
pub use registry::RegistryModel;
pub use registry::SemaphoreKey;
