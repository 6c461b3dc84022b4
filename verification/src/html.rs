//! The read-only view handed to the presentation layer.

use vstd::prelude::*;
use crate::directory::Fellows;

verus! {

/// A borrowed, read-only view of the directory for rendering.  The
/// presentation layer receives no mutation path.
pub struct Members<'a> {
    pub members: &'a Fellows,
}

impl<'a> Members<'a> {
    /// Wraps the published directory for rendering.
    pub fn from_members(members: &'a Fellows) -> (r: Self)
        ensures
            r.members == members,
    {
        Self { members }
    }
}

} // verus!
