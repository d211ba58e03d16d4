//! The use cases: each operation composes the bridge table and the host
//! registry and states exactly how both stores change.

pub mod add;
pub mod list;
pub mod remove;
pub mod test;
