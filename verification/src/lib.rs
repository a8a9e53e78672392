//! Recursive text splitter: cuts arbitrary text into bounded-size chunks,
//! trying a caller-supplied list of separator strings from coarsest to
//! finest, re-merging small pieces up to a target size, and optionally
//! carrying an overlapping tail from one chunk into the next.

pub mod length;
pub mod model;
pub mod splitter;
pub mod text;
