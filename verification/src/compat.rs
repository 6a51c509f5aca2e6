//! Alternative namespaces.

pub mod quspin;
