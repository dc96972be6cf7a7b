//! Lexical path forms: normalisation, home folding, working-directory
//! stripping and display truncation over a component model of paths.
//!
//! A [`path::Path`] is a sequence of components. Every function of this crate
//! states its result over that sequence, and the laws that relate the
//! functions to each other are proved alongside them.

pub mod component;
pub mod path;
pub mod text;
pub mod normalize;
pub mod home;
pub mod truncate;
pub mod resolve;
pub mod walk;
