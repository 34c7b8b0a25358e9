//! Batch construction and wire encoding for a label-indexed log sink.
//!
//! Records carrying a label list are grouped into streams keyed by a
//! canonical form of their labels, each stream's entries are ordered by
//! timestamp, and the grouped batch is rendered as JSON text or as the
//! plain structure handed to the binary log protocol.

use vstd::prelude::*;

pub mod batch;
pub mod encode;
pub mod event;
pub mod labels;

verus! {

} // verus!
