//! What the walk asks of every observer.

use vstd::prelude::*;
use crate::resource_metadata::{ResourceMetadata, ResourceView};

verus! {

/// An observer of a walk. The walk shows it every resource once, parents
/// first, and asks for its summary when the walk is over. An observer only
/// ever appends to the sink it is handed, and what it appends is fixed by what
/// it was shown so far.
pub trait Visitable {
    /// What the observer needs to hold between calls.
    spec fn wf(&self) -> bool;

    /// The resources that the observer was shown so far, in order.
    spec fn visited(&self) -> Seq<ResourceView>;

    /// Whether an observer that was shown `history` has room to be shown
    /// `resource` next.
    spec fn accepts(history: Seq<ResourceView>, resource: ResourceView) -> bool;

    /// The observer's name. It is the same for every observer of one type.
    spec fn label() -> Seq<char>;

    /// The bytes that an observer that was shown `history` writes when it is
    /// shown `resource`.
    spec fn emits(history: Seq<ResourceView>, resource: ResourceView) -> Seq<u8>;

    /// The bytes of the summary of an observer that was shown `history`.
    spec fn summary(history: Seq<ResourceView>) -> Seq<u8>;

    /// Shows `metadata` to the observer.
    fn visit(&mut self, metadata: &ResourceMetadata, sink: &mut Vec<u8>)
        requires
            old(self).wf(),
            Self::accepts(old(self).visited(), metadata@),
        ensures
            final(self).wf(),
            final(self).visited() == old(self).visited().push(metadata@),
            final(sink)@ == old(sink)@ + Self::emits(old(self).visited(), metadata@),
    ;

    /// Writes the observer's summary to `sink`. An observer that was shown
    /// nothing still writes a summary.
    fn recap(&mut self, sink: &mut Vec<u8>)
        requires
            old(self).wf(),
        ensures
            final(self).wf(),
            final(self).visited() == old(self).visited(),
            final(sink)@ == old(sink)@ + Self::summary(old(self).visited()),
    ;

    /// A name for diagnostics and selection.
    fn name(&self) -> (name: &'static str)
        ensures
            name@ == Self::label(),
    ;
}

} // verus!
