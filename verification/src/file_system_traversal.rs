//! The walk: which resource is shown next, to whom, and when a directory is
//! opened.
//!
//! The walk itself reads nothing. Whoever drives it lists the directories it
//! asks for and hands the entries back.

use vstd::prelude::*;
use crate::resource_metadata::{views, ResourceMetadata, ResourceView};
use crate::visitable::Visitable;

verus! {

/// What came of listing the directory that the walk asked for.
pub enum Listing {
    /// The entries directly inside the directory, in the order of the listing.
    Entries(Vec<ResourceMetadata>),
    /// The directory could not be listed. Nothing below it will be visited.
    Unreadable,
}

/// What the driver of the walk has to do next.
pub enum Action {
    /// List the directory at this path and supply what was found.
    List(String),
    /// Nothing to list: go on with the next resource.
    Advance,
    /// Every resource was visited.
    Finished,
}

/// The resources that wait for their visit.
pub struct Walk {
    pending: Vec<ResourceMetadata>,
}

impl Walk {
    /// The waiting resources, the next one first.
    pub closed spec fn queue(&self) -> Seq<ResourceView> {
        Seq::new(self.pending@.len(), |i: int| self.pending@[self.pending@.len() - 1 - i]@)
    }

    proof fn lemma_queue(&self)
        ensures
            self.queue().len() == self.pending@.len(),
            forall|i: int|
                0 <= i < self.pending@.len() ==> #[trigger] self.queue()[i]
                    == self.pending@[self.pending@.len() - 1 - i]@,
    {
    }

    /// A walk that starts at `root`.
    pub fn begin(root: ResourceMetadata) -> (walk: Walk)
        ensures
            walk.queue() == seq![root@],
    {
        let mut pending = Vec::new();
        pending.push(root);
        let walk = Walk { pending };
        proof {
            walk.lemma_queue();
            assert(walk.queue() =~= seq![root@]);
        }
        walk
    }

    /// The resource that is visited next, if any is left.
    pub fn peek(&self) -> (next: Option<&ResourceMetadata>)
        ensures
            match next {
                Some(metadata) => self.queue().len() > 0 && metadata@ == self.queue()[0],
                None => self.queue().len() == 0,
            },
    {
        proof {
            self.lemma_queue();
        }
        let waiting = self.pending.len();
        if waiting == 0 {
            None
        } else {
            Some(&self.pending[waiting - 1])
        }
    }

    /// Takes in what came of the listing that the walk asked for. The entries
    /// of the directory are visited next, in the order of the listing, before
    /// anything that was waiting already. An unreadable directory adds nothing.
    pub fn supply(&mut self, listing: Listing)
        ensures
            final(self).queue() == match listing {
                Listing::Entries(entries) => views(entries@) + old(self).queue(),
                Listing::Unreadable => old(self).queue(),
            },
    {
        match listing {
            Listing::Entries(entries) => {
                let mut entries = entries;
                let ghost found = entries@;
                proof {
                    self.lemma_queue();
                    assert(self.queue() =~= views(found.skip(found.len() as int)) + old(self).queue());
                }
                while entries.len() > 0
                    invariant
                        entries@ == found.take(entries@.len() as int),
                        entries@.len() <= found.len(),
                        self.queue() == views(found.skip(entries@.len() as int)) + old(self).queue(),
                    decreases entries@.len(),
                {
                    let ghost before = self.queue();
                    let ghost left = entries@.len();
                    proof {
                        self.lemma_queue();
                    }
                    match entries.pop() {
                        Some(entry) => {
                            self.pending.push(entry);
                            proof {
                                self.lemma_queue();
                                assert(entry == found[left - 1]);
                                assert(self.queue() =~= seq![entry@] + before);
                                assert(views(found.skip(left - 1)) =~= seq![entry@] + views(
                                    found.skip(left as int),
                                ));
                                assert(entries@ =~= found.take(left - 1));
                            }
                        },
                        None => {},
                    }
                }
                proof {
                    assert(found.skip(0) =~= found);
                }
            },
            Listing::Unreadable => {},
        }
    }
}

/// What each observer of `visitors` was shown so far.
pub open spec fn histories<V: Visitable>(visitors: Seq<V>) -> Seq<Seq<ResourceView>> {
    Seq::new(visitors.len(), |i: int| visitors[i].visited())
}

/// What observers that were shown `shown`, each its own history, write one
/// after the other when each is shown `resource`.
pub open spec fn emitted<V: Visitable>(
    shown: Seq<Seq<ResourceView>>,
    resource: ResourceView,
) -> Seq<u8>
    decreases shown.len(),
{
    if shown.len() == 0 {
        Seq::empty()
    } else {
        emitted::<V>(shown.drop_last(), resource) + V::emits(shown.last(), resource)
    }
}

/// Walks a subtree depth first, every directory before what it holds, and
/// shows every resource to every observer. It keeps nothing between walks.
pub struct FileSystemTraversal;

impl FileSystemTraversal {
    /// The walk goes into directories, and never through a symbolic link.
    pub open spec fn descends(resource: ResourceView) -> bool {
        resource.is_dir && !resource.is_symlink
    }

    /// Shows `metadata` to every observer, in the order in which they stand
    /// in `visitors`.
    pub fn dispatch<V: Visitable>(
        &self,
        metadata: &ResourceMetadata,
        visitors: &mut Vec<V>,
        sink: &mut Vec<u8>,
    )
        requires
            forall|i: int|
                0 <= i < old(visitors).len() ==> (#[trigger] old(visitors)[i]).wf() && V::accepts(old(visitors)[i].visited(), metadata@),
        ensures
            final(visitors).len() == old(visitors).len(),
            forall|i: int|
                0 <= i < old(visitors).len() ==> (#[trigger] final(visitors)[i]).wf() && final(visitors)[i].visited() == old(visitors)[i].visited().push(metadata@),
            final(sink)@ == old(sink)@ + emitted::<V>(histories(old(visitors)@), metadata@),
    {
        let count = visitors.len();
        let mut k: usize = 0;
        proof {
            assert(histories(old(visitors)@).take(0) =~= Seq::empty());
            assert(sink@ =~= old(sink)@ + emitted::<V>(
                histories(old(visitors)@).take(0),
                metadata@,
            ));
        }
        while k < count
            invariant
                k <= count,
                count == old(visitors).len(),
                visitors.len() == count,
                forall|i: int|
                    0 <= i < k ==> (#[trigger] visitors[i]).wf() && visitors[i].visited() == old(visitors)[i].visited().push(metadata@),
                forall|i: int| k <= i < count ==> #[trigger] visitors[i] == old(visitors)[i],
                forall|i: int|
                    0 <= i < count ==> (#[trigger] old(visitors)[i]).wf() && V::accepts(old(visitors)[i].visited(), metadata@),
                sink@ == old(sink)@ + emitted::<V>(
                    histories(old(visitors)@).take(k as int),
                    metadata@,
                ),
            decreases count - k,
        {
            proof {
                assert(visitors[k as int] == old(visitors)[k as int]);
            }
            visitors[k].visit(metadata, sink);
            proof {
                let shown = histories(old(visitors)@).take(k + 1);
                assert(shown.drop_last() =~= histories(old(visitors)@).take(k as int));
                assert(shown.last() == old(visitors)[k as int].visited());
                assert(sink@ =~= old(sink)@ + emitted::<V>(shown, metadata@));
            }
            k += 1;
        }
        proof {
            assert(histories(old(visitors)@).take(count as int) =~= histories(old(visitors)@));
        }
    }

    /// Visits the resource that is next in `walk`: shows it to every
    /// observer, then says what the driver has to do. A directory that is no
    /// symbolic link is to be listed, and what the listing finds is supplied
    /// to the walk before the next call. Nothing else is ever listed.
    pub fn traverse<V: Visitable>(
        &self,
        walk: &mut Walk,
        visitors: &mut Vec<V>,
        sink: &mut Vec<u8>,
    ) -> (action: Action)
        requires
            old(walk).queue().len() > 0 ==> forall|i: int|
                0 <= i < old(visitors).len() ==> (#[trigger] old(visitors)[i]).wf() && V::accepts(old(visitors)[i].visited(), old(walk).queue()[0]),
        ensures
            final(visitors).len() == old(visitors).len(),
            old(walk).queue().len() == 0 ==> {
                &&& action is Finished
                &&& final(walk).queue() == old(walk).queue()
                &&& final(visitors)@ == old(visitors)@
                &&& final(sink)@ == old(sink)@
            },
            old(walk).queue().len() > 0 ==> {
                let next = old(walk).queue()[0];
                &&& final(walk).queue() == old(walk).queue().drop_first()
                &&& forall|i: int|
                    0 <= i < old(visitors).len() ==> (#[trigger] final(visitors)[i]).wf() && final(visitors)[i].visited() == old(visitors)[i].visited().push(next)
                &&& final(sink)@ == old(sink)@ + emitted::<V>(histories(old(visitors)@), next)
                &&& match action {
                    Action::List(path) => Self::descends(next) && path@ == next.path,
                    Action::Advance => !Self::descends(next) && final(walk).queue().len() > 0,
                    Action::Finished => !Self::descends(next) && final(walk).queue().len() == 0,
                }
            },
    {
        proof {
            walk.lemma_queue();
        }
        match walk.pending.pop() {
            None => {
                return Action::Finished;
            },
            Some(next) => {
                proof {
                    walk.lemma_queue();
                    assert(walk.queue() =~= old(walk).queue().drop_first());
                }
                self.dispatch(&next, visitors, sink);
                if next.is_dir() && !next.is_symlink() {
                    Action::List(next.get_path().clone())
                } else if walk.pending.len() == 0 {
                    Action::Finished
                } else {
                    Action::Advance
                }
            },
        }
    }
}

/// A subtree as a walk meets it: a resource, and the entries that listing it
/// gives. A resource that cannot be listed has none.
pub ghost struct Found {
    pub resource: ResourceView,
    pub listing: Option<Seq<Found>>,
}

impl Found {
    /// The entries that a walk goes on to after it has visited the resource:
    /// those of its listing if the walk goes into the resource and can list
    /// it, and none otherwise.
    pub open spec fn opened(self) -> Seq<Found> {
        match self.listing {
            Some(entries) => if FileSystemTraversal::descends(self.resource) {
                entries
            } else {
                Seq::empty()
            },
            None => Seq::empty(),
        }
    }

    /// The resources of the subtree, each directory before what it holds,
    /// the entries of a directory in the order of its listing. Nothing below a
    /// symbolic link or below a directory that cannot be listed is among them.
    pub open spec fn preorder(self) -> Seq<ResourceView>
        decreases self, 1nat,
    {
        seq![self.resource] + (match self.listing {
            Some(entries) => if FileSystemTraversal::descends(self.resource) {
                Self::preorder_all(entries)
            } else {
                Seq::empty()
            },
            None => Seq::empty(),
        })
    }

    /// The resources of the subtrees, one subtree after the other.
    pub open spec fn preorder_all(found: Seq<Found>) -> Seq<ResourceView>
        decreases found, 0nat,
    {
        if found.len() == 0 {
            Seq::empty()
        } else {
            found[0].preorder() + Self::preorder_all(found.drop_first())
        }
    }

    /// How many resources the subtree holds, those that no walk reaches
    /// included.
    pub open spec fn count(self) -> nat
        decreases self, 1nat,
    {
        1 + (match self.listing {
            Some(entries) => Self::count_all(entries),
            None => 0,
        })
    }

    pub open spec fn count_all(found: Seq<Found>) -> nat
        decreases found, 0nat,
    {
        if found.len() == 0 {
            0
        } else {
            found[0].count() + Self::count_all(found.drop_first())
        }
    }

    pub proof fn lemma_count_all_add(front: Seq<Found>, back: Seq<Found>)
        ensures
            Self::count_all(front + back) == Self::count_all(front) + Self::count_all(back),
        decreases front.len(),
    {
        if front.len() == 0 {
            assert(front + back =~= back);
        } else {
            assert((front + back).drop_first() =~= front.drop_first() + back);
            Self::lemma_count_all_add(front.drop_first(), back);
        }
    }

    pub proof fn lemma_preorder_all_add(front: Seq<Found>, back: Seq<Found>)
        ensures
            Self::preorder_all(front + back) == Self::preorder_all(front) + Self::preorder_all(
                back,
            ),
        decreases front.len(),
    {
        if front.len() == 0 {
            assert(front + back =~= back);
            assert(Self::preorder_all(front) + Self::preorder_all(back) =~= Self::preorder_all(
                back,
            ));
        } else {
            assert((front + back).drop_first() =~= front.drop_first() + back);
            Self::lemma_preorder_all_add(front.drop_first(), back);
            assert(Self::preorder_all(front + back) =~= Self::preorder_all(front)
                + Self::preorder_all(back));
        }
    }

    pub proof fn lemma_opened_is_smaller(self)
        ensures
            Self::count_all(self.opened()) < self.count(),
    {
    }

    /// The order in which a walk visits when `waiting` is what waits for its
    /// visit: it visits the first, as `traverse` does, takes in the entries
    /// of that one before everything else that waits, as `supply` does where
    /// `traverse` asked for a listing, and goes on until nothing waits.
    pub open spec fn walk_order(waiting: Seq<Found>) -> Seq<ResourceView>
        decreases Self::count_all(waiting),
    {
        if waiting.len() == 0 {
            Seq::empty()
        } else {
            proof {
                Self::lemma_count_all_add(waiting[0].opened(), waiting.drop_first());
                waiting[0].lemma_opened_is_smaller();
            }
            seq![waiting[0].resource] + Self::walk_order(
                waiting[0].opened() + waiting.drop_first(),
            )
        }
    }

    /// A walk visits depth first, every directory before what it holds: the
    /// order of its visits is the order of the subtrees' resources.
    pub proof fn lemma_walk_is_preorder(waiting: Seq<Found>)
        ensures
            Self::walk_order(waiting) == Self::preorder_all(waiting),
        decreases Self::count_all(waiting),
    {
        if waiting.len() > 0 {
            let first = waiting[0];
            let rest = waiting.drop_first();
            Self::lemma_count_all_add(first.opened(), rest);
            first.lemma_opened_is_smaller();
            Self::lemma_walk_is_preorder(first.opened() + rest);
            Self::lemma_preorder_all_add(first.opened(), rest);
            assert(Self::preorder_all(Seq::<Found>::empty()) =~= Seq::<ResourceView>::empty());
            assert(first.preorder() =~= seq![first.resource] + Self::preorder_all(first.opened()));
            assert(Self::walk_order(waiting) =~= Self::preorder_all(waiting));
        }
    }

    /// A walk that starts at one resource visits the resources of its subtree
    /// in their order.
    pub proof fn lemma_walk_from_root_is_preorder(self)
        ensures
            Self::walk_order(seq![self]) == self.preorder(),
    {
        Self::lemma_walk_is_preorder(seq![self]);
        assert(seq![self].drop_first() =~= Seq::<Found>::empty());
        assert(seq![self][0] == self);
        assert(Self::preorder_all(Seq::<Found>::empty()) =~= Seq::<ResourceView>::empty());
        assert(Self::preorder_all(seq![self]) =~= self.preorder());
    }
}

/// A subtree that was gathered before the walk: a resource, and the entries
/// that listing it gave. A resource that could not be listed has none.
pub struct Snapshot {
    pub metadata: ResourceMetadata,
    pub entries: Option<Vec<Snapshot>>,
}

impl Snapshot {
    pub open spec fn model(&self) -> Found
        decreases self,
    {
        Found {
            resource: self.metadata@,
            listing: match self.entries {
                Some(entries) => Some(
                    Seq::new(
                        entries@.len(),
                        |i: int|
                            if 0 <= i < entries@.len() {
                                entries@[i].model()
                            } else {
                                arbitrary()
                            },
                    ),
                ),
                None => None,
            },
        }
    }
}

impl View for Snapshot {
    type V = Found;

    open spec fn view(&self) -> Found {
        self.model()
    }
}

/// What a vector of snapshots holds, snapshot by snapshot.
pub open spec fn models(snapshots: Seq<Snapshot>) -> Seq<Found> {
    Seq::new(snapshots.len(), |i: int| snapshots[i]@)
}

/// The histories after every observer was shown `more` as well.
pub open spec fn grown(shown: Seq<Seq<ResourceView>>, more: Seq<ResourceView>) -> Seq<
    Seq<ResourceView>,
> {
    Seq::new(shown.len(), |i: int| shown[i] + more)
}

/// Whether observers that were shown `shown`, each its own history, have
/// room for every resource of `order` when its turn comes.
pub open spec fn welcome<V: Visitable>(
    shown: Seq<Seq<ResourceView>>,
    order: Seq<ResourceView>,
) -> bool {
    forall|i: int, k: int|
        0 <= i < shown.len() && 0 <= k < order.len() ==> #[trigger] V::accepts(
            shown[i] + order.take(k),
            order[k],
        )
}

/// What observers that were shown `shown`, each its own history, write
/// while they are shown the resources of `order` one after the other, each
/// resource to every observer before the next resource.
pub open spec fn written<V: Visitable>(
    shown: Seq<Seq<ResourceView>>,
    order: Seq<ResourceView>,
) -> Seq<u8>
    decreases order.len(),
{
    if order.len() == 0 {
        Seq::empty()
    } else {
        written::<V>(shown, order.drop_last()) + emitted::<V>(
            grown(shown, order.drop_last()),
            order.last(),
        )
    }
}

/// Whether `after` and `sink_after` are what becomes of the observers
/// `before` and of the sink `sink_before` when the observers are shown the
/// resources of `order`.
pub open spec fn walked<V: Visitable>(
    before: Seq<V>,
    sink_before: Seq<u8>,
    order: Seq<ResourceView>,
    after: Seq<V>,
    sink_after: Seq<u8>,
) -> bool {
    &&& after.len() == before.len()
    &&& forall|i: int|
        0 <= i < before.len() ==> (#[trigger] after[i]).wf() && after[i].visited()
            == before[i].visited() + order
    &&& sink_after == sink_before + written::<V>(histories(before), order)
}

proof fn lemma_grown_twice(
    shown: Seq<Seq<ResourceView>>,
    front: Seq<ResourceView>,
    back: Seq<ResourceView>,
)
    ensures
        grown(grown(shown, front), back) == grown(shown, front + back),
{
    assert forall|i: int| 0 <= i < shown.len() implies grown(grown(shown, front), back)[i]
        == grown(shown, front + back)[i] by {
        assert((shown[i] + front) + back =~= shown[i] + (front + back));
    }
    assert(grown(grown(shown, front), back) =~= grown(shown, front + back));
}

proof fn lemma_grown_by_nothing(shown: Seq<Seq<ResourceView>>)
    ensures
        grown(shown, Seq::empty()) == shown,
{
    assert forall|i: int| 0 <= i < shown.len() implies grown(shown, Seq::empty())[i]
        == shown[i] by {
        assert(shown[i] + Seq::<ResourceView>::empty() =~= shown[i]);
    }
    assert(grown(shown, Seq::empty()) =~= shown);
}

proof fn lemma_written_add<V: Visitable>(
    shown: Seq<Seq<ResourceView>>,
    front: Seq<ResourceView>,
    back: Seq<ResourceView>,
)
    ensures
        written::<V>(shown, front + back) == written::<V>(shown, front) + written::<V>(
            grown(shown, front),
            back,
        ),
    decreases back.len(),
{
    if back.len() == 0 {
        assert(front + back =~= front);
        assert(written::<V>(shown, front) + Seq::<u8>::empty() =~= written::<V>(shown, front));
    } else {
        let all = front + back;
        assert(all.drop_last() =~= front + back.drop_last());
        assert(all.last() == back.last());
        lemma_written_add::<V>(shown, front, back.drop_last());
        lemma_grown_twice(shown, front, back.drop_last());
        assert(written::<V>(shown, all) =~= written::<V>(shown, front) + written::<V>(
            grown(shown, front),
            back,
        ));
    }
}

proof fn lemma_welcome_add<V: Visitable>(
    shown: Seq<Seq<ResourceView>>,
    front: Seq<ResourceView>,
    back: Seq<ResourceView>,
)
    requires
        welcome::<V>(shown, front + back),
    ensures
        welcome::<V>(shown, front),
        welcome::<V>(grown(shown, front), back),
{
    let all = front + back;
    assert forall|i: int, k: int| 0 <= i < shown.len() && 0 <= k < front.len() implies #[trigger] V::accepts(
        shown[i] + front.take(k),
        front[k],
    ) by {
        assert(all.take(k) =~= front.take(k));
        assert(all[k] == front[k]);
        assert(V::accepts(shown[i] + all.take(k), all[k]));
    }
    assert forall|i: int, k: int|
        0 <= i < grown(shown, front).len() && 0 <= k < back.len() implies #[trigger] V::accepts(
        grown(shown, front)[i] + back.take(k),
        back[k],
    ) by {
        let at = front.len() + k;
        assert(all.take(at) =~= front + back.take(k));
        assert(all[at] == back[k]);
        assert(shown[i] + all.take(at) =~= grown(shown, front)[i] + back.take(k));
        assert(V::accepts(shown[i] + all.take(at), all[at]));
    }
}

proof fn lemma_walked_add<V: Visitable>(
    before: Seq<V>,
    sink_before: Seq<u8>,
    front: Seq<ResourceView>,
    between: Seq<V>,
    sink_between: Seq<u8>,
    back: Seq<ResourceView>,
    after: Seq<V>,
    sink_after: Seq<u8>,
)
    requires
        walked::<V>(before, sink_before, front, between, sink_between),
        walked::<V>(between, sink_between, back, after, sink_after),
    ensures
        walked::<V>(before, sink_before, front + back, after, sink_after),
        histories(after) == grown(histories(between), back),
{
    assert forall|i: int| 0 <= i < before.len() implies histories(between)[i] == grown(
        histories(before),
        front,
    )[i] by {
        assert(between[i].wf());
    }
    assert(histories(between) =~= grown(histories(before), front));
    assert forall|i: int| 0 <= i < before.len() implies histories(after)[i] == grown(
        histories(between),
        back,
    )[i] by {
        assert(after[i].wf());
    }
    assert(histories(after) =~= grown(histories(between), back));
    lemma_written_add::<V>(histories(before), front, back);
    assert forall|i: int| 0 <= i < before.len() implies (#[trigger] after[i]).wf()
        && after[i].visited() == before[i].visited() + (front + back) by {
        assert(between[i].wf());
        assert((before[i].visited() + front) + back =~= before[i].visited() + (front + back));
    }
    assert(sink_after =~= sink_before + written::<V>(histories(before), front + back));
}

/// The resources of a subtree are its own resource and then those of the
/// entries that the walk goes on to.
pub proof fn lemma_preorder_opens(found: Found)
    ensures
        found.preorder() == seq![found.resource] + Found::preorder_all(found.opened()),
{
    assert(Found::preorder_all(Seq::<Found>::empty()) =~= Seq::<ResourceView>::empty());
}

/// A walk shows a symbolic link alone: nothing of what listing it would give
/// is among the resources of its subtree, whatever the link leads to.
pub proof fn lemma_nothing_below_a_link(found: Found)
    requires
        found.resource.is_symlink,
    ensures
        found.preorder() == seq![found.resource],
{
    lemma_preorder_opens(found);
    assert(seq![found.resource] + Seq::<ResourceView>::empty() =~= seq![found.resource]);
}

/// A walk shows a directory that cannot be listed alone, and goes on with
/// what comes after it: the resources of some subtrees are those of the
/// subtrees before the directory, the directory, and those of the subtrees
/// after it.
pub proof fn lemma_unreadable_is_passed(before: Seq<Found>, found: Found, after: Seq<Found>)
    requires
        found.listing is None,
    ensures
        found.preorder() == seq![found.resource],
        Found::preorder_all(before + seq![found] + after) == Found::preorder_all(before)
            + seq![found.resource] + Found::preorder_all(after),
{
    lemma_preorder_opens(found);
    assert(seq![found.resource] + Seq::<ResourceView>::empty() =~= seq![found.resource]);
    Found::lemma_preorder_all_add(before + seq![found], after);
    Found::lemma_preorder_all_add(before, seq![found]);
    assert(seq![found].drop_first() =~= Seq::<Found>::empty());
    assert(Found::preorder_all(Seq::<Found>::empty()) =~= Seq::<ResourceView>::empty());
    assert(Found::preorder_all(seq![found]) =~= found.preorder());
}

impl FileSystemTraversal {
    /// Walks the whole subtree `found`: shows its resource to every observer,
    /// then, if the resource is a directory and no symbolic link and could be
    /// listed, walks each of its entries in the order of the listing. So
    /// every observer is shown the resources of the subtree in their order,
    /// each once, and nothing below a symbolic link or below a directory
    /// that could not be listed.
    pub fn walk<V: Visitable>(&self, found: &Snapshot, visitors: &mut Vec<V>, sink: &mut Vec<u8>)
        requires
            forall|i: int| 0 <= i < old(visitors).len() ==> (#[trigger] old(visitors)[i]).wf(),
            welcome::<V>(histories(old(visitors)@), found@.preorder()),
        ensures
            walked::<V>(
                old(visitors)@,
                old(sink)@,
                found@.preorder(),
                final(visitors)@,
                final(sink)@,
            ),
        decreases found,
    {
        let ghost resource = found@.resource;
        let ghost first = seq![resource];
        let ghost below = Found::preorder_all(found@.opened());
        let ghost shown = histories(old(visitors)@);
        proof {
            lemma_preorder_opens(found@);
            lemma_welcome_add::<V>(shown, first, below);
            assert forall|i: int| 0 <= i < old(visitors).len() implies V::accepts(
                old(visitors)[i].visited(),
                resource,
            ) by {
                assert(V::accepts(shown[i] + first.take(0), first[0]));
                assert(shown[i] + first.take(0) =~= shown[i]);
            }
        }
        self.dispatch(&found.metadata, visitors, sink);
        proof {
            lemma_grown_by_nothing(shown);
            assert(first.drop_last() =~= Seq::<ResourceView>::empty());
            assert(written::<V>(shown, first.drop_last()) =~= Seq::<u8>::empty());
            assert(written::<V>(shown, first) =~= emitted::<V>(shown, resource));
            assert forall|i: int| 0 <= i < old(visitors).len() implies (#[trigger] visitors[i]).wf()
                && visitors[i].visited() == old(visitors)[i].visited() + first by {
                assert(old(visitors)[i].visited().push(resource) =~= old(visitors)[i].visited()
                    + first);
            }
            assert(walked::<V>(old(visitors)@, old(sink)@, first, visitors@, sink@));
            assert forall|i: int| 0 <= i < old(visitors).len() implies histories(visitors@)[i]
                == grown(shown, first)[i] by {
                assert(visitors[i].wf());
            }
            assert(histories(visitors@) =~= grown(shown, first));
            assert(first + Seq::<ResourceView>::empty() =~= first);
        }
        if found.metadata.is_dir() && !found.metadata.is_symlink() {
            match &found.entries {
                Some(entries) => {
                    let ghost opened = models(entries@);
                    proof {
                        assert(opened =~= found@.opened());
                        assert(opened.take(0) =~= Seq::<Found>::empty());
                        assert(opened.skip(0) =~= opened);
                        assert(Found::preorder_all(opened.take(0)) =~= Seq::<ResourceView>::empty());
                    }
                    let mut j: usize = 0;
                    while j < entries.len()
                        invariant
                            j <= entries@.len(),
                            found.entries == Some(*entries),
                            opened == models(entries@),
                            first == seq![resource],
                            forall|i: int|
                                0 <= i < visitors.len() ==> (#[trigger] visitors[i]).wf(),
                            walked::<V>(
                                old(visitors)@,
                                old(sink)@,
                                first + Found::preorder_all(opened.take(j as int)),
                                visitors@,
                                sink@,
                            ),
                            welcome::<V>(
                                histories(visitors@),
                                Found::preorder_all(opened.skip(j as int)),
                            ),
                        decreases entries@.len() - j,
                    {
                        let ghost entry = opened[j as int];
                        let ghost done = first + Found::preorder_all(opened.take(j as int));
                        let ghost between = visitors@;
                        let ghost sink_between = sink@;
                        proof {
                            assert(opened.skip(j as int).drop_first() =~= opened.skip(j + 1));
                            assert(opened.skip(j as int)[0] == entry);
                            lemma_welcome_add::<V>(
                                histories(between),
                                entry.preorder(),
                                Found::preorder_all(opened.skip(j + 1)),
                            );
                            assert(entries@[j as int]@ == entry);
                            assert(decreases_to!(found => found.entries));
                            assert(decreases_to!(*entries => entries[j as int]));
                            assert(found.entries->0 == *entries);
                            assert(decreases_to!(found.entries => found.entries->0));
                        }
                        self.walk(&entries[j], visitors, sink);
                        proof {
                            lemma_walked_add::<V>(
                                old(visitors)@,
                                old(sink)@,
                                done,
                                between,
                                sink_between,
                                entry.preorder(),
                                visitors@,
                                sink@,
                            );
                            assert(opened.take(j + 1) =~= opened.take(j as int) + seq![entry]);
                            Found::lemma_preorder_all_add(opened.take(j as int), seq![entry]);
                            assert(seq![entry].drop_first() =~= Seq::<Found>::empty());
                            assert(Found::preorder_all(Seq::<Found>::empty()) =~= Seq::<
                                ResourceView,
                            >::empty());
                            assert(Found::preorder_all(seq![entry]) =~= entry.preorder());
                            assert(done + entry.preorder() =~= first + Found::preorder_all(
                                opened.take(j + 1),
                            ));
                        }
                        j += 1;
                    }
                    proof {
                        assert(opened.take(entries@.len() as int) =~= opened);
                    }
                },
                None => {
                    proof {
                        assert(Found::preorder_all(Seq::<Found>::empty()) =~= Seq::<
                            ResourceView,
                        >::empty());
                    }
                },
            }
        } else {
            proof {
                assert(Found::preorder_all(Seq::<Found>::empty()) =~= Seq::<ResourceView>::empty());
            }
        }
    }
}

} // verus!
