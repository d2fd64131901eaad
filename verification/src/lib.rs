//! A PROFIBUS-DP telegram toolkit: building SD1, SD2 and SD4 telegrams with
//! their frame check sequence, turning lists of telegrams into (timed) byte
//! streams, and recovering telegrams from a raw byte stream.

pub mod telegram;
pub mod parser;
pub mod byte_stream;
