//! Colors log-like text line by line: a rule set says which spans of a line get
//! which terminal color, and a reader assembles lines from a source that may
//! time out.

pub mod color;
pub mod pattern;
pub mod colorize;
pub mod read_timeout;
pub mod driver;
pub mod balance;
