//! Serial-link protocol logic for a screen controller: a byte ring buffer that
//! extracts `0xAA ... 0xBB` frames, a byte-wise frame parser, a line reader,
//! number formatting, screen commands and the four-stage protocol state machine.

pub mod command;
pub mod frame;
pub mod input;
pub mod matcher;
pub mod protocol;
pub mod screen;
mod text;
