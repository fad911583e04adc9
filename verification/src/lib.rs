//! A nested-map abstraction over a flat (key, field) transactional state
//! store: composite keys of fixed depth are validated, turned into a
//! storage key for prefix iteration and a chained-hash field identifier for
//! point lookups, and map metadata is established once by get-or-create.

pub mod address;
pub mod codec;
pub mod hash;
pub mod map;
pub mod store;
