//! A set of patch rules with its version.
use crate::patcher::PatchRule;
use vstd::prelude::*;

verus! {

/// A versioned set of patch rules, and the oldest application version
/// that can apply it.
#[derive(Debug)]
pub struct PatchSet {
    pub version: String,
    pub min_app_version: String,
    pub patches: Vec<PatchRule>,
}

} // verus!
