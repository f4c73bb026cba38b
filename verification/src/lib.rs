//! A message-oriented task-distribution core.
//!
//! The crate decouples requesters ("clients") from a pool of interchangeable
//! workers. Its heart is the load-balancing router: a reactive state machine
//! that receives requests from a frontend endpoint, forwards each to exactly
//! one idle worker on a backend endpoint, and routes the eventual reply back
//! to the originating requester, preserving multi-part message framing and
//! connection identity across the hop.
//!
//! All socket, timer and console work lives outside this crate; the library
//! holds the protocol logic on plain values (byte frames and address tokens)
//! and proves its bookkeeping correct.

pub mod digits;
pub mod envelope;
pub mod hello;
pub mod pipeline;
pub mod router;
pub mod weather;
