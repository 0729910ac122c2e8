//! Requests and replies as the library sees them (`message`), JSON payloads
//! (`json`), handlers over pipelines (`handler`), and the router that picks
//! one handler for a request (`router`).
pub mod handler;
pub mod json;
pub mod message;
pub mod router;
