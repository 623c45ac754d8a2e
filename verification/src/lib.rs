//! A verified command-line token parser.
//!
//! A [`Parser`] holds an ordered list of argument definitions ([`Arg`]):
//! value-expecting options, flags, and positional parameters, each with an
//! optional single-character alias. Its [`Parser::parse`] method walks a
//! token sequence once, left to right, matching option tokens against the
//! registered names, pairing each value-expecting option with the token
//! that follows it, and filling positional slots in registration order.
//! It returns a mapping from argument name to optional value, or the first
//! violation it meets: an unexpected token, a duplicated argument, or a
//! missing value or parameter.

pub mod arg;
pub mod error;
pub mod output;
pub mod laws;
pub mod parser;

pub use arg::Arg;
pub use arg::ArgKind;
pub use error::InvalidCommandError;
pub use error::InvalidCommandReasons;
pub use output::ParseOutput;
pub use parser::Parser;
