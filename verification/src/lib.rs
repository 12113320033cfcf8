//! Parsing of the POSIX services database format, `services(5)`.
//!
//! A line of the database names a network service, its port, its transport
//! protocol and any aliases. The line parser turns one line into a
//! [`ServiceEntry`] or a classified [`ServiceError`]; the aggregator applies it
//! to the lines of a [`Source`] under an error-tolerance policy.
//!
//! The library reads no file itself: a caller looks at the place that holds
//! the database and hands over what it found there as a [`Source`].

pub mod chars;
pub mod tokens;
pub mod field;
pub mod entry;
pub mod source;
pub mod grammar;

pub use crate::entry::{parse_line, ServiceEntry, ServiceError};
pub use crate::source::{parse_file, parse_servicefile, services_path, Source};
