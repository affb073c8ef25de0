//! Streaming decode of a framed speech container into linear PCM: header and
//! packet framing, the lookahead window used for loss recovery, the loss
//! policy, and the session state machine that schedules the codec's work.

pub mod container;
pub mod error;
pub mod limits;
pub mod policy;
pub mod progress;
pub mod session;
pub mod window;
