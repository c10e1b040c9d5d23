//! LitePhoton: a fast scanner that prints the lines of a text that contain a keyword.
pub mod argument_parser;
pub mod environment;
pub mod file_util;
pub mod input;
pub mod lines;
pub mod read_util;
pub mod search;
