//! What holds of every routing tree.
//!
//! - `shape`: no two literal continuations of a node begin with the same
//!   character, and registration keeps it so.
//! - `literal`: a pattern without parameters resolves to the value that it
//!   was registered with, whatever else is registered and in whatever order.
//! - `matching`: what a pattern makes of a path; a tree with a single route
//!   makes the same of it, and so does any tree that the pattern fits.
//! - `order`: where the patterns of a route table agree with each other,
//!   every route resolves with the parameters of its pattern, in whatever
//!   order the routes were registered.
//! - `conflict`: a pattern that names a parameter otherwise than a
//!   registered one does at the same position is refused.
//! - `capture`: lookups bind parameters to text without delimiters.
//! - `case`: lookups that compare the lower-case form of a path ignore the
//!   case of its letters.

pub mod capture;
pub mod case;
pub mod conflict;
pub mod literal;
pub mod matching;
pub mod order;
pub mod shape;
