//! Extraction pipeline for fixed-format laboratory instrument text files.
//!
//! The library turns one raw instrument text file into a record of ordered
//! (label, numeric value) pairs, checks that a batch of such records shares a
//! single column layout, and lays the batch out as a formatted worksheet
//! model ready to be serialized as a spreadsheet.

/// Character and line utilities: splitting raw text into lines,
/// trimming, and searching.
pub mod text;

/// Exact decimal measurement values and their textual form.
pub mod number;

/// The persisted parsing parameters and their textual form.
pub mod configstore;

/// Records parsed from raw instrument files.
pub mod data;

/// Batch alignment and the worksheet model an export produces.
pub mod process;

/// Messages of the interface layer around the pipeline.
pub mod gui;
