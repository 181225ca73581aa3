//! A command-line argument binder: a schema of options, positional slots
//! and sub-commands, and a parse that binds a list of tokens to it.
use vstd::prelude::*;

pub mod error;
pub mod token;
pub mod schema;
pub mod distribute;
pub mod command;
pub mod app;
pub mod laws;

pub use error::ParseError;
pub use schema::{Opt, OptValue, Args};
pub use command::Cmd;
pub use app::{App, Helper, Outcome};

verus! {

} // verus!
