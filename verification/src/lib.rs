//! Session orchestration for a multi-stream video viewer.
//!
//! The library owns the logic that can be stated and proved: the
//! length-prefixed framing protocol each connection speaks, the window
//! model a session carries, the session table the coordinator mutates,
//! and the layout algorithm that tiles the visible windows. Network
//! I/O, video decoding and native rendering live outside, in the
//! application that drives this library.

pub mod framing;
pub mod layout;
pub mod session;
pub mod window;
