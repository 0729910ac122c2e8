//! Typed request pipelines and a first-match router over them.
//!
//! A pipeline is a chain of stages, each a plain closure. A stage is total or
//! fallible, and it either returns its value at once or hands back pending
//! work (a future) whose outcome the caller supplies later. The library never
//! waits: where a pipeline reaches pending work it parks, and the caller
//! resumes it with the outcome. The first error ends a run.
//!
//! A handler is a pipeline from a path and a request to a reply, behind a
//! filter on method and path. A router holds handlers by method, in the order
//! in which they were registered, and hands a request to the first one whose
//! filter takes the path.
//!
//! To serve a request, call `Router::process`, and for as long as the step
//! that comes back is `Step::Pending`, complete the work that it holds and
//! call `Router::resume` with the outcome.
pub mod http;
pub mod pipeline;
