//! Usage snapshots of the Antigravity command line tool (`agy`), read from the
//! server that the tool runs on the loopback interface.
//!
//! The crate holds the rules and the formats: which log files to look at, what a
//! log line announces, how a reply is framed, what a status document says, and
//! what the report prints. It performs no input or output: a caller hands it the
//! bytes and answers it got, and does what the returned step asks for. Of the system
//! it asks only where the home directory is.

pub mod text;
pub mod number;
pub mod stream;
pub mod body;
pub mod chunked;
pub mod http;
pub mod reply;
pub mod head;
pub mod logs;
pub mod scan;
pub mod json;
pub mod usage;
pub mod fetch;
pub mod report;
pub mod process;
pub mod paths;
