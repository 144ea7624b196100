//! Statistics of a file's contents: bytes, lines, words, characters and the
//! length of the longest line, with the rules that decide which of them a run
//! reports and how each result is written out.

pub mod decode;
pub mod kind;
pub mod report;
pub mod request;
pub mod stats;
pub mod text;
