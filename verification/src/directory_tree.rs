//! The directory tree as a mathematical value, and what a visit does to it.

use vstd::prelude::*;
use crate::path::{entry_path, TreePath};
use crate::resource_metadata::ResourceView;

verus! {

/// What a directory knows of the entries directly inside it.
pub ghost struct Aggregates {
    pub files: nat,
    pub dirs: nat,
    pub bytes: nat,
}

impl Aggregates {
    /// The aggregates of a directory in which nothing was found.
    pub open spec fn zero() -> Aggregates {
        Aggregates { files: 0, dirs: 0, bytes: 0 }
    }

    /// What one entry adds to the aggregates of the directory that holds it.
    pub open spec fn share(is_dir: bool, size: nat) -> Aggregates {
        Aggregates {
            files: if is_dir {
                0
            } else {
                1
            },
            dirs: if is_dir {
                1
            } else {
                0
            },
            bytes: size,
        }
    }

    pub open spec fn plus(self, other: Aggregates) -> Aggregates {
        Aggregates {
            files: self.files + other.files,
            dirs: self.dirs + other.dirs,
            bytes: self.bytes + other.bytes,
        }
    }
}

/// A directory with the directories below it. The aggregates speak of the
/// entries directly inside the directory, never of anything deeper, and never
/// of the directory itself.
pub ghost struct DirectoryTree {
    pub name: Seq<char>,
    pub child_files: nat,
    pub child_dirs: nat,
    pub total_size: nat,
    pub children: Seq<DirectoryTree>,
}

impl DirectoryTree {
    /// A directory of which no entry is known yet.
    pub open spec fn leaf(name: Seq<char>) -> DirectoryTree {
        DirectoryTree {
            name,
            child_files: 0,
            child_dirs: 0,
            total_size: 0,
            children: Seq::empty(),
        }
    }

    /// The tree before any visit: the root alone, which has no name.
    pub open spec fn root() -> DirectoryTree {
        Self::leaf(Seq::empty())
    }

    pub open spec fn aggregates(self) -> Aggregates {
        Aggregates { files: self.child_files, dirs: self.child_dirs, bytes: self.total_size }
    }

    pub open spec fn has_child(self, name: Seq<char>) -> bool {
        exists|i: int| 0 <= i < self.children.len() && (#[trigger] self.children[i]).name == name
    }

    pub open spec fn child_index(self, name: Seq<char>) -> int {
        choose|i: int| 0 <= i < self.children.len() && (#[trigger] self.children[i]).name == name
    }

    pub open spec fn child(self, name: Seq<char>) -> DirectoryTree {
        self.children[self.child_index(name)]
    }

    /// No directory holds two children of one name.
    pub open spec fn wf(self) -> bool
        decreases self,
    {
        &&& forall|i: int, j: int|
            0 <= i < j < self.children.len() ==> (#[trigger] self.children[i]).name != (
            #[trigger] self.children[j]).name
        &&& forall|i: int| 0 <= i < self.children.len() ==> (#[trigger] self.children[i]).wf()
    }

    /// No directory lies more than `levels` levels below this one.
    pub open spec fn within(self, levels: nat) -> bool
        decreases self,
    {
        forall|i: int|
            0 <= i < self.children.len() ==> levels > 0 && (#[trigger] self.children[i]).within(
                (levels - 1) as nat,
            )
    }

    /// This directory after one more entry was found directly inside it.
    pub open spec fn counted(self, is_dir: bool, size: nat) -> DirectoryTree {
        DirectoryTree {
            child_files: if is_dir {
                self.child_files
            } else {
                self.child_files + 1
            },
            child_dirs: if is_dir {
                self.child_dirs + 1
            } else {
                self.child_dirs
            },
            total_size: self.total_size + size,
            ..self
        }
    }

    /// The tree after a visit of the entry at `path`, `path` counted from this
    /// directory. A segment that is known already is followed. A new segment
    /// before the last becomes a directory. A new last segment is counted in
    /// its parent, and becomes a directory if the entry is one.
    pub open spec fn visit(self, path: TreePath, is_dir: bool, size: nat) -> DirectoryTree
        decreases path.len(),
    {
        if path.len() == 0 {
            self
        } else if self.has_child(path[0]) {
            let i = self.child_index(path[0]);
            DirectoryTree {
                children: self.children.update(
                    i,
                    self.children[i].visit(path.drop_first(), is_dir, size),
                ),
                ..self
            }
        } else if path.len() == 1 {
            let parent = self.counted(is_dir, size);
            if is_dir {
                DirectoryTree { children: parent.children.push(Self::leaf(path[0])), ..parent }
            } else {
                parent
            }
        } else {
            DirectoryTree {
                children: self.children.push(
                    Self::leaf(path[0]).visit(path.drop_first(), is_dir, size),
                ),
                ..self
            }
        }
    }

    /// The aggregates that a visit of the entry at `path` would change still
    /// fit the machine's integers afterwards.
    pub open spec fn absorbs(self, path: TreePath, is_dir: bool, size: nat) -> bool
        decreases path.len(),
    {
        if path.len() == 0 {
            true
        } else if self.has_child(path[0]) {
            self.child(path[0]).absorbs(path.drop_first(), is_dir, size)
        } else if path.len() == 1 {
            &&& self.total_size + size <= u64::MAX
            &&& is_dir ==> self.child_dirs < usize::MAX
            &&& !is_dir ==> self.child_files < usize::MAX
        } else {
            Self::leaf(path[0]).absorbs(path.drop_first(), is_dir, size)
        }
    }

    /// The directory at `path`, if the tree holds one there.
    pub open spec fn node_at(self, path: TreePath) -> Option<DirectoryTree>
        decreases path.len(),
    {
        if path.len() == 0 {
            Some(self)
        } else if self.has_child(path[0]) {
            self.child(path[0]).node_at(path.drop_first())
        } else {
            None
        }
    }

    /// Whether the tree holds a directory at `path`.
    pub open spec fn holds(self, path: TreePath) -> bool {
        self.node_at(path) is Some
    }

    /// The aggregates of the directory at `path`, and no aggregates at all
    /// where the tree holds no directory.
    pub open spec fn aggregates_at(self, path: TreePath) -> Aggregates {
        match self.node_at(path) {
            Some(node) => node.aggregates(),
            None => Aggregates::zero(),
        }
    }

    /// The aggregates of the directory at `path`, if the tree holds one there.
    pub open spec fn entry(self, path: TreePath) -> Option<Aggregates> {
        match self.node_at(path) {
            Some(node) => Some(node.aggregates()),
            None => None,
        }
    }

    /// The files counted by this directory and by all directories below it.
    pub open spec fn total_files(self) -> nat
        decreases self, 1nat,
    {
        self.child_files + Self::total_files_of(self.children)
    }

    pub open spec fn total_files_of(trees: Seq<DirectoryTree>) -> nat
        decreases trees, 0nat,
    {
        if trees.len() == 0 {
            0
        } else {
            Self::total_files_of(trees.drop_last()) + trees.last().total_files()
        }
    }

    /// The tree after a visit of `resource`.
    pub open spec fn observe(self, resource: ResourceView) -> DirectoryTree {
        self.visit(entry_path(resource.path), resource.is_dir, resource.size_bytes as nat)
    }

    /// Whether a visit of `resource` keeps every aggregate within the
    /// machine's integers.
    pub open spec fn admits(self, resource: ResourceView) -> bool {
        self.absorbs(entry_path(resource.path), resource.is_dir, resource.size_bytes as nat)
    }

    /// The tree after the visits of `history`, in that order.
    pub open spec fn after(history: Seq<ResourceView>) -> DirectoryTree
        decreases history.len(),
    {
        if history.len() == 0 {
            Self::root()
        } else {
            Self::after(history.drop_last()).observe(history.last())
        }
    }

    /// In a well-formed tree the child of a name is the only child that has it.
    pub proof fn lemma_child_is_unique(self, name: Seq<char>, i: int)
        requires
            self.wf(),
            0 <= i < self.children.len(),
            self.children[i].name == name,
        ensures
            self.has_child(name),
            self.child_index(name) == i,
            self.child(name) == self.children[i],
    {
        let c = self.child_index(name);
        assert(0 <= c < self.children.len() && self.children[c].name == name);
        if c < i {
            assert(self.children[c].name != self.children[i].name);
        } else if i < c {
            assert(self.children[i].name != self.children[c].name);
        }
    }

    /// A visit changes no directory's name.
    pub proof fn lemma_visit_keeps_name(self, path: TreePath, is_dir: bool, size: nat)
        ensures
            self.visit(path, is_dir, size).name == self.name,
    {
    }

    /// A visit keeps the tree well formed.
    pub proof fn lemma_visit_keeps_wf(self, path: TreePath, is_dir: bool, size: nat)
        requires
            self.wf(),
        ensures
            self.visit(path, is_dir, size).wf(),
        decreases path.len(),
    {
        let after = self.visit(path, is_dir, size);
        if path.len() == 0 {
        } else if self.has_child(path[0]) {
            let i = self.child_index(path[0]);
            let rest = path.drop_first();
            self.children[i].lemma_visit_keeps_wf(rest, is_dir, size);
            self.children[i].lemma_visit_keeps_name(rest, is_dir, size);
            assert forall|a: int, b: int| 0 <= a < b < after.children.len() implies (
            #[trigger] after.children[a]).name != (#[trigger] after.children[b]).name by {
                assert(after.children[a].name == self.children[a].name);
                assert(after.children[b].name == self.children[b].name);
            }
            assert forall|a: int| 0 <= a < after.children.len() implies (
            #[trigger] after.children[a]).wf() by {
                if a != i {
                    assert(after.children[a] == self.children[a]);
                }
            }
        } else {
            let fresh = if path.len() == 1 {
                Self::leaf(path[0])
            } else {
                Self::leaf(path[0]).visit(path.drop_first(), is_dir, size)
            };
            if path.len() > 1 {
                Self::leaf(path[0]).lemma_visit_keeps_wf(path.drop_first(), is_dir, size);
                Self::leaf(path[0]).lemma_visit_keeps_name(path.drop_first(), is_dir, size);
            }
            if path.len() > 1 || is_dir {
                assert(after.children == self.children.push(fresh));
                assert forall|a: int, b: int| 0 <= a < b < after.children.len() implies (
                #[trigger] after.children[a]).name != (#[trigger] after.children[b]).name by {
                    assert(after.children[a] == self.children[a]);
                    if b < self.children.len() {
                        assert(after.children[b] == self.children[b]);
                    }
                }
                assert forall|a: int| 0 <= a < after.children.len() implies (
                #[trigger] after.children[a]).wf() by {
                    if a < self.children.len() {
                        assert(after.children[a] == self.children[a]);
                    }
                }
            }
        }
    }

    /// A visit reaches no deeper than its path is long.
    pub proof fn lemma_visit_keeps_within(
        self,
        path: TreePath,
        is_dir: bool,
        size: nat,
        levels: nat,
    )
        requires
            self.within(levels),
            path.len() <= levels,
        ensures
            self.visit(path, is_dir, size).within(levels),
        decreases path.len(),
    {
        let after = self.visit(path, is_dir, size);
        if path.len() == 0 {
        } else if self.has_child(path[0]) {
            let i = self.child_index(path[0]);
            self.children[i].lemma_visit_keeps_within(
                path.drop_first(),
                is_dir,
                size,
                (levels - 1) as nat,
            );
            assert forall|a: int| 0 <= a < after.children.len() implies levels > 0 && (
            #[trigger] after.children[a]).within((levels - 1) as nat) by {
                if a != i {
                    assert(after.children[a] == self.children[a]);
                }
            }
        } else {
            if path.len() > 1 {
                Self::leaf(path[0]).lemma_visit_keeps_within(
                    path.drop_first(),
                    is_dir,
                    size,
                    (levels - 1) as nat,
                );
            }
            assert forall|a: int| 0 <= a < after.children.len() implies levels > 0 && (
            #[trigger] after.children[a]).within((levels - 1) as nat) by {
                if a < self.children.len() {
                    assert(after.children[a] == self.children[a]);
                }
            }
        }
    }

    /// A directory of which nothing is known has room for any visit whose
    /// size a machine integer holds.
    pub proof fn lemma_leaf_absorbs(name: Seq<char>, path: TreePath, is_dir: bool, size: nat)
        requires
            size <= u64::MAX,
        ensures
            Self::leaf(name).absorbs(path, is_dir, size),
        decreases path.len(),
    {
        if path.len() > 1 {
            Self::lemma_leaf_absorbs(path[0], path.drop_first(), is_dir, size);
        }
    }

    /// The directory that the tree holds at a path has the last segment of
    /// that path for its name.
    pub proof fn lemma_name_is_last_segment(self, path: TreePath)
        requires
            path.len() > 0,
            self.holds(path),
        ensures
            self.node_at(path)->0.name == path.last(),
        decreases path.len(),
    {
        let i = self.child_index(path[0]);
        assert(self.has_child(path[0]));
        assert(self.children[i].name == path[0]);
        if path.len() > 1 {
            assert(path.drop_first().last() == path.last());
            self.children[i].lemma_name_is_last_segment(path.drop_first());
        }
    }

    /// The tree after any history is well formed, and its root has no name.
    pub proof fn lemma_after_is_wf(history: Seq<ResourceView>)
        ensures
            Self::after(history).wf(),
            Self::after(history).name == Seq::<char>::empty(),
        decreases history.len(),
    {
        if history.len() > 0 {
            Self::lemma_after_is_wf(history.drop_last());
            let r = history.last();
            Self::after(history.drop_last()).lemma_visit_keeps_wf(
                entry_path(r.path),
                r.is_dir,
                r.size_bytes as nat,
            );
        }
    }
}

} // verus!
