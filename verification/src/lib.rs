//! Content engine for a text-based courtroom game.
//!
//! - [`markup`] splits a statement at its emphasis markup, `![inner]`;
//! - [`render`] turns the segments into coloured terminal text;
//! - [`evidence`] holds the court record: lookup, display order, selection;
//! - [`dialogue`] holds testimony and decides whether an objection is valid;
//! - [`playback`] steps a session through a testimony;
//! - [`courtcase`] describes the cases on offer;
//! - [`text`] compares names.
//!
//! The library reads no file and prints nothing: it is handed records and
//! gives back values.

pub mod courtcase;
pub mod dialogue;
pub mod evidence;
pub mod markup;
pub mod playback;
pub mod render;
pub mod text;
