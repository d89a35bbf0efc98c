//! What a collecting observer keeps of one filesystem entry.

use vstd::prelude::*;

verus! {

/// `std::time::SystemTime`, which is carried through as it is and never
/// looked into.
#[verifier::external_type_specification]
#[verifier::external_body]
pub struct ExSystemTime(std::time::SystemTime);

/// The path of an entry, whether it is a directory, and when it last changed.
#[derive(Debug, PartialEq)]
pub struct MetadataState {
    path: String,
    is_dir: bool,
    modified_time: std::time::SystemTime,
}

impl MetadataState {
    pub closed spec fn path(&self) -> Seq<char> {
        self.path@
    }

    pub closed spec fn dir(&self) -> bool {
        self.is_dir
    }

    pub closed spec fn modified(&self) -> std::time::SystemTime {
        self.modified_time
    }

    pub fn new(path: String, is_dir: bool, modified_time: std::time::SystemTime) -> (state: Self)
        ensures
            state.path() == path@,
            state.dir() == is_dir,
            state.modified() == modified_time,
    {
        MetadataState { path, is_dir, modified_time }
    }

    pub fn get_path(&self) -> (path: &String)
        ensures
            path@ == self.path(),
    {
        &self.path
    }

    pub fn is_dir(&self) -> (answer: bool)
        ensures
            answer == self.dir(),
    {
        self.is_dir
    }

    pub fn get_modified_time(&self) -> (time: &std::time::SystemTime)
        ensures
            *time == self.modified(),
    {
        &self.modified_time
    }
}

} // verus!
