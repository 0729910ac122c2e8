//! Pipelines: the chain (`link`), its stages that return at once (`connect`),
//! its stages that park (`async_connect`), and what whole runs come to
//! (`run`).
//!
//! A stage is a closure, and a chain says of it what the closure's own
//! contract says (`call_requires`, `call_ensures`). Code that proves
//! something of a chain of closures of its own takes the closures as
//! parameters of generic type, or links them through an `EntryBase`, whose
//! builders state what the new chain does.
pub mod async_connect;
pub mod connect;
pub mod link;
pub mod run;
