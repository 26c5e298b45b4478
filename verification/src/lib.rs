//! Batch preparation of text files for a text-to-speech converter: which files
//! to convert, how to name what comes out, and where to cut large texts.
pub mod path;
pub mod files;
pub mod args;
pub mod split;
pub mod names;

pub mod plan;
