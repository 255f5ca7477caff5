//! Core logic for a DICOM data-set viewer: path-addressed traversal of a
//! nested data set with per-path expand/collapse state, a chunked streaming
//! byte sink for export, and an aspect-ratio-preserving frame-fit scaler.

pub mod chunk;
pub mod expansion;
pub mod model;
pub mod numfmt;
pub mod path;
pub mod pixels;
pub mod rows;
pub mod scale;
pub mod visibility;
