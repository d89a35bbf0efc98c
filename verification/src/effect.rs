//! What a single visit does to the tree, directory by directory.

use vstd::prelude::*;
use crate::directory_tree::{Aggregates, DirectoryTree};
use crate::path::{is_proper_prefix, lemma_paths_step, TreePath};

verus! {

impl DirectoryTree {
    /// A directory of which nothing is known holds itself and nothing else.
    pub proof fn lemma_leaf_holds(name: Seq<char>, at: TreePath)
        ensures
            Self::leaf(name).holds(at) == (at.len() == 0),
            Self::leaf(name).aggregates_at(at) == Aggregates::zero(),
    {
    }

    /// Where a directory has a child of the first name of `at`, it has the
    /// same child after any change that leaves that child alone.
    proof fn lemma_other_children_stay(self, after: DirectoryTree, at: TreePath, changed: int)
        requires
            self.wf(),
            after.wf(),
            at.len() > 0,
            after.children.len() >= self.children.len(),
            0 <= changed < after.children.len(),
            after.children[changed].name != at[0],
            forall|j: int|
                0 <= j < self.children.len() && j != changed ==> #[trigger] after.children[j]
                    == self.children[j],
            after.children.len() <= self.children.len() + 1,
            after.children.len() > self.children.len() ==> changed == self.children.len(),
            changed < self.children.len() ==> self.children[changed].name != at[0],
        ensures
            after.node_at(at) == self.node_at(at),
    {
        let name = at[0];
        if self.has_child(name) {
            let j = self.child_index(name);
            assert(after.children[j] == self.children[j]);
            after.lemma_child_is_unique(name, j);
        } else {
            if after.has_child(name) {
                let w = after.child_index(name);
                assert(after.children[w].name == name);
                assert(w != changed);
                assert(after.children[w] == self.children[w]);
                assert(false);
            }
        }
    }

    /// What a visit of the entry at `path` does to the directory at `at`.
    ///
    /// The tree holds a directory at `at` afterwards if it held one before,
    /// if `at` lies on the way to the entry, or if the entry is a directory
    /// and `at` is its path. The aggregates at `at` grow by the entry's share
    /// if `at` is the entry's parent and the tree held nothing at the entry's
    /// path; otherwise they stay.
    pub proof fn lemma_visit_effect(
        self,
        path: TreePath,
        is_dir: bool,
        size: nat,
        at: TreePath,
    )
        requires
            self.wf(),
            path.len() > 0,
        ensures
            self.visit(path, is_dir, size).holds(at) == (self.holds(at) || is_proper_prefix(
                at,
                path,
            ) || (at == path && is_dir)),
            self.visit(path, is_dir, size).aggregates_at(at) == (if at == path.drop_last()
                && !self.holds(path) {
                self.aggregates_at(at).plus(Aggregates::share(is_dir, size))
            } else {
                self.aggregates_at(at)
            }),
        decreases path.len(),
    {
        let after = self.visit(path, is_dir, size);
        let rest = path.drop_first();
        self.lemma_visit_keeps_wf(path, is_dir, size);
        if at.len() == 0 {
            assert(path.take(0) =~= at);
            if self.has_child(path[0]) {
                if path.len() == 1 {
                    assert(self.child(path[0]).node_at(rest) is Some);
                } else {
                    assert(path.drop_last().len() > 0);
                }
            } else if path.len() == 1 {
                assert(path.drop_last() =~= at);
            } else {
                assert(path.drop_last().len() > 0);
            }
        } else {
            let name = at[0];
            let below = at.drop_first();
            lemma_paths_step(at, path);
            if self.has_child(path[0]) {
                let i = self.child_index(path[0]);
                let child = self.children[i];
                let grown = child.visit(rest, is_dir, size);
                child.lemma_visit_keeps_name(rest, is_dir, size);
                assert(after.children[i] == grown);
                if name == path[0] {
                    after.lemma_child_is_unique(name, i);
                    assert(after.node_at(at) == grown.node_at(below));
                    assert(self.node_at(at) == child.node_at(below));
                    assert(self.node_at(path) == child.node_at(rest));
                    if path.len() == 1 {
                        assert(grown == child);
                        assert(path.drop_last().len() == 0);
                        if at == path {
                            assert(below.len() == 0);
                        }
                    } else {
                        child.lemma_visit_effect(rest, is_dir, size, below);
                    }
                } else {
                    self.lemma_other_children_stay(after, at, i);
                    if path.len() == 1 {
                        assert(path.drop_last().len() == 0);
                    }
                }
            } else {
                assert(!self.holds(path));
                if path.len() == 1 && !is_dir {
                    assert(after.children == self.children);
                    assert(after.node_at(at) == self.node_at(at));
                    assert(path.drop_last().len() == 0);
                    assert(!is_proper_prefix(at, path));
                } else {
                    let last = self.children.len() as int;
                    let fresh = after.children[last];
                    Self::leaf(path[0]).lemma_visit_keeps_name(rest, is_dir, size);
                    assert(fresh.name == path[0]);
                    if name == path[0] {
                        after.lemma_child_is_unique(name, last);
                        assert(after.node_at(at) == fresh.node_at(below));
                        assert(self.node_at(at) is None);
                        if path.len() == 1 {
                            Self::lemma_leaf_holds(path[0], below);
                            assert(path.drop_last().len() == 0);
                            assert(rest.len() == 0);
                            if below.len() == 0 {
                                assert(below =~= rest);
                            }
                        } else {
                            Self::leaf(path[0]).lemma_visit_effect(rest, is_dir, size, below);
                            Self::lemma_leaf_holds(path[0], below);
                            Self::lemma_leaf_holds(path[0], rest);
                            if below.len() == 0 {
                                assert(rest.take(0) =~= below);
                            }
                        }
                    } else {
                        self.lemma_other_children_stay(after, at, last);
                        if path.len() == 1 {
                            assert(path.drop_last().len() == 0);
                        }
                    }
                }
            }
        }
    }

    pub proof fn lemma_total_files_of_push(trees: Seq<DirectoryTree>, tree: DirectoryTree)
        ensures
            Self::total_files_of(trees.push(tree)) == Self::total_files_of(trees)
                + tree.total_files(),
    {
        assert(trees.push(tree).drop_last() =~= trees);
    }

    pub proof fn lemma_total_files_of_update(
        trees: Seq<DirectoryTree>,
        i: int,
        tree: DirectoryTree,
    )
        requires
            0 <= i < trees.len(),
        ensures
            Self::total_files_of(trees.update(i, tree)) + trees[i].total_files()
                == Self::total_files_of(trees) + tree.total_files(),
        decreases trees.len(),
    {
        let changed = trees.update(i, tree);
        if i == trees.len() - 1 {
            assert(changed.drop_last() =~= trees.drop_last());
        } else {
            assert(changed.drop_last() =~= trees.drop_last().update(i, tree));
            Self::lemma_total_files_of_update(trees.drop_last(), i, tree);
        }
    }

    /// A visit adds one to the files of the whole tree if the entry is a
    /// file and the tree held nothing at its path, and nothing otherwise.
    pub proof fn lemma_visit_counts_files(self, path: TreePath, is_dir: bool, size: nat)
        ensures
            self.visit(path, is_dir, size).total_files() == self.total_files() + (if path.len() > 0
                && !is_dir && !self.holds(path) {
                1nat
            } else {
                0nat
            }),
        decreases path.len(),
    {
        let after = self.visit(path, is_dir, size);
        let rest = path.drop_first();
        if path.len() == 0 {
        } else if self.has_child(path[0]) {
            let i = self.child_index(path[0]);
            let child = self.children[i];
            child.lemma_visit_counts_files(rest, is_dir, size);
            Self::lemma_total_files_of_update(self.children, i, child.visit(rest, is_dir, size));
            assert(self.node_at(path) == child.node_at(rest));
        } else if path.len() == 1 {
            if is_dir {
                Self::lemma_total_files_of_push(self.children, Self::leaf(path[0]));
                assert(Self::total_files_of(Self::leaf(path[0]).children) == 0);
            }
        } else {
            let leaf = Self::leaf(path[0]);
            leaf.lemma_visit_counts_files(rest, is_dir, size);
            Self::lemma_leaf_holds(path[0], rest);
            assert(Self::total_files_of(leaf.children) == 0);
            Self::lemma_total_files_of_push(self.children, leaf.visit(rest, is_dir, size));
        }
    }
}

} // verus!
