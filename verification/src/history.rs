//! What the tree says of the resources that were visited.
//!
//! The tree is built one visit at a time. The statements here read it off the
//! whole history of visits instead: which directories it holds, and what each
//! of them has counted.

use vstd::prelude::*;
use crate::directory_tree::{Aggregates, DirectoryTree};
use crate::path::{entry_path, is_proper_prefix, lemma_entry_path_shape, TreePath};
use crate::resource_metadata::ResourceView;

verus! {

/// Whether a visit of `resource` calls for a directory at `at`: `at` lies on
/// the way to the resource, or the resource is a directory and `at` is its
/// path.
pub open spec fn makes(resource: ResourceView, at: TreePath) -> bool {
    is_proper_prefix(at, entry_path(resource.path)) || (at == entry_path(resource.path)
        && resource.is_dir)
}

/// Whether the visits of `history` call for a directory at `at`. The root is
/// there from the start.
pub open spec fn materialized(history: Seq<ResourceView>, at: TreePath) -> bool {
    at.len() == 0 || exists|k: int| 0 <= k < history.len() && makes(#[trigger] history[k], at)
}

/// Whether visit `k` of `history` came to a path at which no earlier visit
/// called for a directory: nothing below that path was visited before, and
/// no directory at that path.
pub open spec fn found_new(history: Seq<ResourceView>, k: int) -> bool {
    !materialized(history.take(k), entry_path(history[k].path))
}

/// What `resource` adds to the aggregates of the directory at `at`: its share
/// if it lies directly inside that directory, and nothing otherwise.
pub open spec fn contribution(resource: ResourceView, at: TreePath) -> Aggregates {
    if entry_path(resource.path).drop_last() == at {
        Aggregates::share(resource.is_dir, resource.size_bytes as nat)
    } else {
        Aggregates::zero()
    }
}

/// The shares of all resources of `history` that lie directly inside the
/// directory at `at`, added up.
pub open spec fn counted_at(history: Seq<ResourceView>, at: TreePath) -> Aggregates
    decreases history.len(),
{
    if history.len() == 0 {
        Aggregates::zero()
    } else {
        counted_at(history.drop_last(), at).plus(contribution(history.last(), at))
    }
}

/// Holds of the resources that are no directories.
pub open spec fn is_file() -> spec_fn(ResourceView) -> bool {
    |resource: ResourceView| !resource.is_dir
}

proof fn lemma_materialized_step(history: Seq<ResourceView>, at: TreePath)
    requires
        history.len() > 0,
    ensures
        materialized(history, at) == (materialized(history.drop_last(), at) || makes(
            history.last(),
            at,
        )),
{
    let before = history.drop_last();
    if at.len() > 0 {
        if materialized(history, at) {
            let k = choose|k: int| 0 <= k < history.len() && makes(#[trigger] history[k], at);
            if k < before.len() {
                assert(makes(before[k], at));
            }
        }
        if materialized(before, at) {
            let k = choose|k: int| 0 <= k < before.len() && makes(#[trigger] before[k], at);
            assert(makes(history[k], at));
        }
        if makes(history.last(), at) {
            assert(makes(history[history.len() - 1], at));
        }
    }
}

proof fn lemma_found_new_before(history: Seq<ResourceView>, k: int)
    requires
        0 <= k < history.len() - 1,
    ensures
        found_new(history.drop_last(), k) == found_new(history, k),
{
    assert(history.drop_last().take(k) =~= history.take(k));
}

/// The tree holds a directory at a path exactly if some visited resource has
/// that path before its last segment, or is a directory at that very path.
/// The root is always there.
pub proof fn lemma_directory_exists_iff_made(history: Seq<ResourceView>, at: TreePath)
    ensures
        DirectoryTree::after(history).holds(at) == materialized(history, at),
    decreases history.len(),
{
    if history.len() == 0 {
        DirectoryTree::lemma_leaf_holds(Seq::empty(), at);
    } else {
        let before = history.drop_last();
        let resource = history.last();
        lemma_directory_exists_iff_made(before, at);
        lemma_materialized_step(history, at);
        DirectoryTree::lemma_after_is_wf(before);
        lemma_entry_path_shape(resource.path);
        DirectoryTree::after(before).lemma_visit_effect(
            entry_path(resource.path),
            resource.is_dir,
            resource.size_bytes as nat,
            at,
        );
        if at.len() == 0 {
            assert(DirectoryTree::after(before).holds(at));
        }
    }
}

/// The aggregates of a directory are those of the visited resources that lie
/// directly inside it, and of no others: not of anything deeper, not of the
/// directory itself. This holds where each of those resources, when it was
/// visited, came to a path at which nothing called for a directory yet.
pub proof fn lemma_aggregates_are_of_children(history: Seq<ResourceView>, at: TreePath)
    requires
        forall|k: int|
            0 <= k < history.len() && entry_path((#[trigger] history[k]).path).drop_last() == at
                ==> found_new(history, k),
    ensures
        DirectoryTree::after(history).aggregates_at(at) == counted_at(history, at),
        DirectoryTree::after(history).holds(at) ==> DirectoryTree::after(history).entry(at)
            == Some(counted_at(history, at)),
    decreases history.len(),
{
    if history.len() == 0 {
        DirectoryTree::lemma_leaf_holds(Seq::empty(), at);
    } else {
        let before = history.drop_last();
        let resource = history.last();
        let path = entry_path(resource.path);
        let last = history.len() - 1;
        assert forall|k: int|
            0 <= k < before.len() && entry_path((#[trigger] before[k]).path).drop_last()
                == at implies found_new(before, k) by {
            assert(before[k] == history[k]);
            lemma_found_new_before(history, k);
        }
        lemma_aggregates_are_of_children(before, at);
        DirectoryTree::lemma_after_is_wf(before);
        lemma_entry_path_shape(resource.path);
        DirectoryTree::after(before).lemma_visit_effect(
            path,
            resource.is_dir,
            resource.size_bytes as nat,
            at,
        );
        if path.drop_last() == at {
            assert(history[last] == resource);
            assert(found_new(history, last));
            assert(history.take(last) =~= before);
            lemma_directory_exists_iff_made(before, path);
        }
    }
}

/// The files that all directories of the tree have counted, taken together,
/// are as many as the visited resources that are no directories. This holds
/// where each of those resources, when it was visited, came to a path at
/// which nothing called for a directory yet.
pub proof fn lemma_files_are_counted_once(history: Seq<ResourceView>)
    requires
        forall|k: int|
            0 <= k < history.len() && !(#[trigger] history[k]).is_dir ==> found_new(history, k),
    ensures
        DirectoryTree::after(history).total_files() == history.filter(is_file()).len(),
    decreases history.len(),
{
    reveal(Seq::filter);
    if history.len() == 0 {
        assert(DirectoryTree::total_files_of(DirectoryTree::root().children) == 0);
    } else {
        let before = history.drop_last();
        let resource = history.last();
        let path = entry_path(resource.path);
        let last = history.len() - 1;
        assert forall|k: int| 0 <= k < before.len() && !(#[trigger] before[k]).is_dir implies found_new(
            before,
            k,
        ) by {
            assert(before[k] == history[k]);
            lemma_found_new_before(history, k);
        }
        lemma_files_are_counted_once(before);
        lemma_entry_path_shape(resource.path);
        DirectoryTree::after(before).lemma_visit_counts_files(
            path,
            resource.is_dir,
            resource.size_bytes as nat,
        );
        if !resource.is_dir {
            assert(history[last] == resource);
            assert(found_new(history, last));
            assert(history.take(last) =~= before);
            lemma_directory_exists_iff_made(before, path);
        }
    }
}

proof fn lemma_counted_without(history: Seq<ResourceView>, i: int, at: TreePath)
    requires
        0 <= i < history.len(),
    ensures
        counted_at(history, at) == counted_at(history.remove(i), at).plus(
            contribution(history[i], at),
        ),
    decreases history.len(),
{
    if i == history.len() - 1 {
        assert(history.remove(i) =~= history.drop_last());
    } else {
        assert(history.remove(i).drop_last() =~= history.drop_last().remove(i));
        assert(history.remove(i).last() == history.last());
        lemma_counted_without(history.drop_last(), i, at);
    }
}

proof fn lemma_counted_of_permutation(
    first: Seq<ResourceView>,
    second: Seq<ResourceView>,
    at: TreePath,
)
    requires
        first.to_multiset() == second.to_multiset(),
    ensures
        counted_at(first, at) == counted_at(second, at),
    decreases first.len(),
{
    first.to_multiset_ensures();
    second.to_multiset_ensures();
    if first.len() == 0 {
        assert(second.len() == 0);
    } else {
        let resource = first.last();
        let before = first.drop_last();
        before.to_multiset_ensures();
        assert(first.contains(resource)) by {
            assert(first[first.len() - 1] == resource);
        }
        assert(first.to_multiset().count(resource) > 0);
        assert(second.to_multiset().count(resource) > 0);
        assert(second.contains(resource));
        let i = choose|i: int| 0 <= i < second.len() && second[i] == resource;
        let others = second.remove(i);
        assert(first =~= before.push(resource));
        assert(before.to_multiset() =~= first.to_multiset().remove(resource));
        assert(others.to_multiset() =~= second.to_multiset().remove(resource));
        lemma_counted_of_permutation(before, others, at);
        lemma_counted_without(second, i, at);
    }
}

proof fn lemma_materialized_of_permutation(
    first: Seq<ResourceView>,
    second: Seq<ResourceView>,
    at: TreePath,
)
    requires
        first.to_multiset() == second.to_multiset(),
        materialized(first, at),
    ensures
        materialized(second, at),
{
    first.to_multiset_ensures();
    second.to_multiset_ensures();
    if at.len() > 0 {
        let k = choose|k: int| 0 <= k < first.len() && makes(#[trigger] first[k], at);
        assert(first.contains(first[k]));
        assert(first.to_multiset().count(first[k]) > 0);
        assert(second.to_multiset().count(first[k]) > 0);
        assert(second.contains(first[k]));
        let j = choose|j: int| 0 <= j < second.len() && second[j] == first[k];
        assert(makes(second[j], at));
    }
}

/// Which directories the tree holds does not depend on the order of the
/// visits: two histories of the same resources, each visited as often in the
/// one as in the other, give directories at the same paths.
pub proof fn lemma_directories_ignore_order(first: Seq<ResourceView>, second: Seq<ResourceView>)
    requires
        first.to_multiset() == second.to_multiset(),
    ensures
        forall|at: TreePath| #[trigger]
            DirectoryTree::after(first).holds(at) == DirectoryTree::after(second).holds(at),
{
    assert forall|at: TreePath| #[trigger]
        DirectoryTree::after(first).holds(at) == DirectoryTree::after(second).holds(at) by {
        lemma_directory_exists_iff_made(first, at);
        lemma_directory_exists_iff_made(second, at);
        if materialized(first, at) {
            lemma_materialized_of_permutation(first, second, at);
        }
        if materialized(second, at) {
            lemma_materialized_of_permutation(second, first, at);
        }
    }
}

/// What a directory has counted does not depend on the order of the visits:
/// two histories of the same resources, each visited as often in the one as in
/// the other, give the directory at `at` the same aggregates. This holds where
/// in both histories each resource directly inside that directory, when it was
/// visited, came to a path at which nothing called for a directory yet.
pub proof fn lemma_aggregates_ignore_order(
    first: Seq<ResourceView>,
    second: Seq<ResourceView>,
    at: TreePath,
)
    requires
        first.to_multiset() == second.to_multiset(),
        forall|k: int|
            0 <= k < first.len() && entry_path((#[trigger] first[k]).path).drop_last() == at
                ==> found_new(first, k),
        forall|k: int|
            0 <= k < second.len() && entry_path((#[trigger] second[k]).path).drop_last() == at
                ==> found_new(second, k),
    ensures
        DirectoryTree::after(first).entry(at) == DirectoryTree::after(second).entry(at),
{
    lemma_directories_ignore_order(first, second);
    assert(DirectoryTree::after(first).holds(at) == DirectoryTree::after(second).holds(at));
    lemma_aggregates_are_of_children(first, at);
    lemma_aggregates_are_of_children(second, at);
    lemma_counted_of_permutation(first, second, at);
}

/// The order of the visits does not matter to what the tree holds in the end:
/// two histories of the same resources, each visited as often in the one as in
/// the other, give the same directories with the same aggregates. This holds
/// where in both histories every resource, when it was visited, came to a path
/// at which nothing called for a directory yet. The order of the children
/// inside a directory, and with it the text of the report, may differ.
pub proof fn lemma_order_is_irrelevant(first: Seq<ResourceView>, second: Seq<ResourceView>)
    requires
        first.to_multiset() == second.to_multiset(),
        forall|k: int| 0 <= k < first.len() ==> found_new(first, k),
        forall|k: int| 0 <= k < second.len() ==> found_new(second, k),
    ensures
        forall|at: TreePath| #[trigger]
            DirectoryTree::after(first).entry(at) == DirectoryTree::after(second).entry(at),
{
    assert forall|at: TreePath| #[trigger]
        DirectoryTree::after(first).entry(at) == DirectoryTree::after(second).entry(at) by {
        lemma_aggregates_ignore_order(first, second, at);
    }
}

/// A directory's own visit makes it a directory of the tree and counts
/// nothing inside it: what it holds is counted only when it is visited.
pub proof fn lemma_directory_starts_empty(tree: DirectoryTree, resource: ResourceView)
    requires
        tree.wf(),
        resource.is_dir,
        !tree.holds(entry_path(resource.path)),
    ensures
        tree.observe(resource).entry(entry_path(resource.path)) == Some(Aggregates::zero()),
{
    let path = entry_path(resource.path);
    lemma_entry_path_shape(resource.path);
    tree.lemma_visit_effect(path, resource.is_dir, resource.size_bytes as nat, path);
    assert(path.drop_last().len() != path.len());
}

proof fn lemma_nothing_inside_counts_nothing(history: Seq<ResourceView>, at: TreePath)
    requires
        forall|j: int|
            0 <= j < history.len() ==> entry_path((#[trigger] history[j]).path).drop_last() != at,
    ensures
        counted_at(history, at) == Aggregates::zero(),
    decreases history.len(),
{
    if history.len() > 0 {
        let before = history.drop_last();
        assert forall|j: int| 0 <= j < before.len() implies entry_path(
            (#[trigger] before[j]).path,
        ).drop_last() != at by {
            assert(before[j] == history[j]);
        }
        lemma_nothing_inside_counts_nothing(before, at);
        assert(history.last() == history[history.len() - 1]);
    }
}

/// A directory that was visited, and of which nothing that lies directly
/// inside it was, is a directory of the tree that has counted nothing. So it
/// is with a directory that could not be listed, and with one that is a
/// symbolic link.
pub proof fn lemma_unlisted_directory_is_empty(history: Seq<ResourceView>, k: int)
    requires
        0 <= k < history.len(),
        history[k].is_dir,
        forall|j: int|
            0 <= j < history.len() ==> entry_path((#[trigger] history[j]).path).drop_last()
                != entry_path(history[k].path),
    ensures
        DirectoryTree::after(history).entry(entry_path(history[k].path)) == Some(
            Aggregates::zero(),
        ),
{
    let at = entry_path(history[k].path);
    lemma_directory_exists_iff_made(history, at);
    assert(makes(history[k], at));
    lemma_aggregates_are_of_children(history, at);
    lemma_nothing_inside_counts_nothing(history, at);
}

} // verus!
