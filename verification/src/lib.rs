//! A template-expression engine.
//!
//! A template is text with positional placeholders such as `$0`, `$-1`,
//! `$1:3` or `$2?`. [`arg::Expression::parse`] finds the placeholders, and
//! [`arg::Expression::replace`] writes the arguments they name in their place.
//!
//! The token grammar is stated over the UTF-8 bytes of the template in
//! [`grammar`] and read by [`scan`]. Which arguments a token names is stated
//! in [`select`], how they are joined in [`join`], how spans of a text give
//! way to other bytes in [`splice`], and what `replace` gives in [`render`].
//! [`written`] says how a token is written, and [`laws`] holds what follows
//! for every template and every list of arguments.

pub mod arg;
pub mod boundary;
pub mod grammar;
pub mod join;
pub mod laws;
pub mod render;
pub mod scan;
pub mod select;
pub mod splice;
pub mod written;

pub use arg::{Argument, ArgumentToken, Expression};
pub use select::ResolutionError;
