//! Chain of responsibility: an ordered sequence of handlers, each of which
//! rewrites a request and decides whether to pass it on to its successor.
pub mod chain;
pub mod handler;
pub mod laws;

pub use chain::{Chain, LinkError};
pub use handler::{GateHandler, Handler, ReqHandler, Request};
