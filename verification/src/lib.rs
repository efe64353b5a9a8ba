//! Verified core of a bounding-box labeling tool: label configurations,
//! datasets of images with their label files, navigation through a dataset,
//! comparison of two labelings and the decisions the tools take on input.

pub mod check;
pub mod conflicts;
pub mod dataset;
pub mod file_loader;
pub mod labeling;
pub mod paths;
pub mod relabeling;
pub mod shady;
pub mod tagging;

use vstd::prelude::*;

verus! {

/// The position that several tools share when the active tool changes.
pub struct SyncDatasets {
    pub current_pos: usize,
}

} // verus!
