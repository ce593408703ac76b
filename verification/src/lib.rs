//! In-memory containers built around separate chaining: a hash map with
//! configurable capacity and growth policy, a mutable stack-like linked
//! list, and an immutable, structurally shared persistent list.
pub mod hashmap;
pub mod linked_list;
pub mod persistent_list;
