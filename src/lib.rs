//! Turns a rich-text document package into reusable templates and back.
//!
//! - `word`: reads the body XML out of a package's members and writes a new body back.
//! - `repair`: joins placeholders that an editor split over formatting runs.
//! - `templater`: splits the body's children into named fragments by their markers.
//! - `schemas`: infers the shape of the data each fragment's template expects.
//! - `rendered`: puts rendered fragments back in place of the document body.
//! - `xml`, `text`: the parsed XML nodes and character helpers the others share.
pub mod rendered;
pub mod repair;
pub mod schemas;
pub mod templater;
pub mod text;
pub mod word;
pub mod xml;
