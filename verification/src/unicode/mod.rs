//! Unicode text handling: decoding UTF-8 with error recovery, and sanitizing text for
//! display.

pub mod decode;
pub mod sanitize;
