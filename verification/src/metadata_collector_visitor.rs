//! The observer that keeps what it is handed, in order.

use vstd::prelude::*;
use crate::metadata_state::MetadataState;

verus! {

/// Keeps every state it is handed, first come first.
#[derive(Debug)]
pub struct MetadataCollectorVisitor {
    pub files: Vec<MetadataState>,
}

impl MetadataCollectorVisitor {
    /// A collector that holds nothing.
    pub fn new() -> (collector: Self)
        ensures
            collector.files@ == Seq::<MetadataState>::empty(),
    {
        MetadataCollectorVisitor { files: Vec::new() }
    }

    /// Keeps `metadata_state` behind everything kept before.
    pub fn add_metadata_state(&mut self, metadata_state: MetadataState)
        ensures
            final(self).files@ == old(self).files@.push(metadata_state),
    {
        self.files.push(metadata_state);
    }

    /// Everything kept so far, in the order in which it came.
    pub fn get_files(&self) -> (files: &Vec<MetadataState>)
        ensures
            files@ == self.files@,
    {
        &self.files
    }
}

} // verus!
