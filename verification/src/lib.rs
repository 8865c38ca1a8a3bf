//! A router for HTTP request paths: a compressed-prefix tree of route
//! patterns with named parameters, and a route table with one such tree per
//! request method.
//!
//! A route pattern is text in which a `:` directly after a `/` starts a
//! parameter token, as in `/user/:id`. The token's name runs up to the next
//! `/` or `.`, and so does the text that the parameter captures from a
//! request path: `/files/:id.json` captures `42` from `/files/42.json`.
//!
//! Routes are registered first and looked up afterwards. A lookup walks the
//! tree once: at each node it takes the literal continuation that begins
//! with the next character of the path if there is one, and the parameter
//! edge otherwise, and it never goes back on a choice. A pattern that names
//! a parameter otherwise than an earlier one does at the same position
//! cannot be registered. A pattern that is registered again replaces the
//! value that it had.
//!
//! The route table compares the lower-case form of a path with the literal
//! text of its routes, so that routes are to be registered in lower case,
//! and captures parameters from the path as it stands.
//!
//! - `segment`: where parameter tokens and delimiters stand in a text.
//! - `model`: the tree as a mathematical value, with registration and lookup
//!   as functions on it.
//! - `tree`: the tree itself, and its nodes and parameter edges.
//! - `params`: the parameters that a lookup captured.
//! - `verb`, `router`: the request methods, and the route table.
//! - `dispatch`: what to do with a request, for the middleware around the
//!   router.
//! - `laws`: what holds of every tree.
//! - `text`: strings with their characters.

pub mod dispatch;
pub mod laws;
pub mod model;
pub mod params;
pub mod router;
pub mod segment;
pub mod text;
pub mod tree;
pub mod verb;
