//! A codec for a line-delimited, length-prefixed wire protocol of nested
//! frames, and the buffered reading state that turns a byte stream into
//! a sequence of frames.
pub mod cmd;
pub mod connection;
pub mod decimal;
pub mod frame;
pub mod laws;
pub mod model;
pub mod parse;

pub use cmd::{Config, Select};
pub use connection::{ConnectionError, FrameReader};
pub use frame::{Frame, FrameArray, FrameError};
pub use parse::{Parse, ParseError};
