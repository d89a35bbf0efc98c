//! The record that describes one filesystem entry.

use vstd::prelude::*;

verus! {

/// What a [`ResourceMetadata`] holds, as plain mathematical values.
pub ghost struct ResourceView {
    pub path: Seq<char>,
    pub is_dir: bool,
    pub is_symlink: bool,
    pub inode: u64,
    pub size_bytes: u64,
    pub is_hidden: bool,
    pub modified_time: Option<u64>,
}

/// What a vector of records holds, record by record.
pub open spec fn views(records: Seq<ResourceMetadata>) -> Seq<ResourceView> {
    Seq::new(records.len(), |i: int| records[i]@)
}

/// One filesystem entry as the walk found it. Nothing changes it after it is made.
pub struct ResourceMetadata {
    path: String,
    is_dir: bool,
    is_symlink: bool,
    inode: u64,
    size_bytes: u64,
    is_hidden: bool,
    modified_time: Option<u64>,
}

impl View for ResourceMetadata {
    type V = ResourceView;

    closed spec fn view(&self) -> ResourceView {
        ResourceView {
            path: self.path@,
            is_dir: self.is_dir,
            is_symlink: self.is_symlink,
            inode: self.inode,
            size_bytes: self.size_bytes,
            is_hidden: self.is_hidden,
            modified_time: self.modified_time,
        }
    }
}

impl ResourceMetadata {
    /// Describes the entry at `path`. The time of its last change is unknown
    /// until [`ResourceMetadata::with_modified_time`] supplies it.
    pub fn new(
        path: &String,
        is_dir: bool,
        is_symlink: bool,
        inode: u64,
        size_bytes: u64,
        is_hidden: bool,
    ) -> (metadata: ResourceMetadata)
        ensures
            metadata@ == (ResourceView {
                path: path@,
                is_dir,
                is_symlink,
                inode,
                size_bytes,
                is_hidden,
                modified_time: None,
            }),
    {
        ResourceMetadata {
            path: path.clone(),
            is_dir,
            is_symlink,
            inode,
            size_bytes,
            is_hidden,
            modified_time: None,
        }
    }

    /// The same entry, last changed `seconds` after the Unix epoch.
    pub fn with_modified_time(self, seconds: u64) -> (metadata: ResourceMetadata)
        ensures
            metadata@ == (ResourceView { modified_time: Some(seconds), ..self@ }),
    {
        ResourceMetadata {
            path: self.path,
            is_dir: self.is_dir,
            is_symlink: self.is_symlink,
            inode: self.inode,
            size_bytes: self.size_bytes,
            is_hidden: self.is_hidden,
            modified_time: Some(seconds),
        }
    }

    pub fn get_path(&self) -> (path: &String)
        ensures
            path@ == self@.path,
    {
        &self.path
    }

    pub fn is_dir(&self) -> (answer: bool)
        ensures
            answer == self@.is_dir,
    {
        self.is_dir
    }

    /// Whatever is not a directory counts as a file.
    pub fn is_file(&self) -> (answer: bool)
        ensures
            answer == !self@.is_dir,
    {
        !self.is_dir
    }

    pub fn is_symlink(&self) -> (answer: bool)
        ensures
            answer == self@.is_symlink,
    {
        self.is_symlink
    }

    pub fn inode(&self) -> (inode: u64)
        ensures
            inode == self@.inode,
    {
        self.inode
    }

    pub fn size_bytes(&self) -> (size: u64)
        ensures
            size == self@.size_bytes,
    {
        self.size_bytes
    }

    pub fn is_hidden(&self) -> (answer: bool)
        ensures
            answer == self@.is_hidden,
    {
        self.is_hidden
    }

    pub fn modified_time(&self) -> (seconds: Option<u64>)
        ensures
            seconds == self@.modified_time,
    {
        self.modified_time
    }
}

} // verus!
