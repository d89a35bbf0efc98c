//! Paths as sequences of segment names.

use vstd::prelude::*;
use vstd::string::*;

verus! {

/// A path inside the tree: the names met on the way down from the root.
pub type TreePath = Seq<Seq<char>>;

/// What lies between the separators of `s`, empty pieces included.
pub open spec fn pieces(s: Seq<char>) -> Seq<Seq<char>>
    decreases s.len(),
{
    if s.len() == 0 {
        seq![Seq::empty()]
    } else if s.last() == '/' {
        pieces(s.drop_last()).push(Seq::empty())
    } else {
        let before = pieces(s.drop_last());
        before.drop_last().push(before.last().push(s.last()))
    }
}

/// Holds of the names that are not empty.
pub open spec fn named() -> spec_fn(Seq<char>) -> bool {
    |piece: Seq<char>| piece.len() > 0
}

/// The segments of `s`: its non-empty pieces, in order.
pub open spec fn segments(s: Seq<char>) -> Seq<Seq<char>> {
    pieces(s).filter(named())
}

/// The tree path of the entry that `s` names. A path without any segment
/// names a single top-level entry whose name is empty.
pub open spec fn entry_path(s: Seq<char>) -> TreePath {
    if segments(s).len() == 0 {
        seq![Seq::empty()]
    } else {
        segments(s)
    }
}

/// Whether `shorter` is `longer` cut off before its end.
pub open spec fn is_proper_prefix(shorter: TreePath, longer: TreePath) -> bool {
    shorter.len() < longer.len() && longer.take(shorter.len() as int) == shorter
}

/// The names that a vector of strings holds.
pub open spec fn names(strings: Seq<String>) -> Seq<Seq<char>> {
    Seq::new(strings.len(), |i: int| strings[i]@)
}

/// `String::push` appends the character to the end of the string and
/// changes nothing else of it.
pub assume_specification[ String::push ](s: &mut String, c: char)
    ensures
        final(s)@ == old(s)@.push(c),
;

pub proof fn lemma_pieces_nonempty(s: Seq<char>)
    ensures
        pieces(s).len() > 0,
    decreases s.len(),
{
    if s.len() > 0 {
        lemma_pieces_nonempty(s.drop_last());
    }
}

/// No piece holds a separator.
proof fn lemma_pieces_hold_no_separator(s: Seq<char>, i: int)
    requires
        0 <= i < pieces(s).len(),
    ensures
        !pieces(s)[i].contains('/'),
    decreases s.len(),
{
    if s.len() > 0 {
        let before = pieces(s.drop_last());
        lemma_pieces_nonempty(s.drop_last());
        if i < before.len() - 1 || s.last() == '/' && i < before.len() {
            lemma_pieces_hold_no_separator(s.drop_last(), i);
        } else if s.last() != '/' {
            lemma_pieces_hold_no_separator(s.drop_last(), before.len() - 1);
            let tail = before.last();
            assert forall|k: int| 0 <= k < tail.push(s.last()).len() implies tail.push(s.last())[k]
                != '/' by {
                if k < tail.len() {
                    assert(tail.contains(tail[k]));
                }
            }
        }
    }
}

/// How two paths that both have a first segment compare: by that segment
/// and by what follows it.
pub proof fn lemma_paths_step(a: TreePath, b: TreePath)
    requires
        a.len() > 0,
        b.len() > 0,
    ensures
        is_proper_prefix(a, b) == (a[0] == b[0] && is_proper_prefix(
            a.drop_first(),
            b.drop_first(),
        )),
        (a == b) == (a[0] == b[0] && a.drop_first() == b.drop_first()),
        b.len() > 1 ==> (a == b.drop_last()) == (a[0] == b[0] && a.drop_first()
            == b.drop_first().drop_last()),
{
    let n = a.len() as int;
    if a[0] == b[0] && a.drop_first() == b.drop_first() {
        assert(a =~= seq![a[0]] + a.drop_first());
        assert(b =~= seq![b[0]] + b.drop_first());
    }
    if a[0] == b[0] && is_proper_prefix(a.drop_first(), b.drop_first()) {
        assert forall|i: int| 0 <= i < n implies b.take(n)[i] == a[i] by {
            if i > 0 {
                assert(b.drop_first().take(n - 1)[i - 1] == a.drop_first()[i - 1]);
            }
        }
        assert(b.take(n) =~= a);
    }
    if is_proper_prefix(a, b) {
        assert(b.take(n)[0] == a[0]);
        assert forall|i: int| 0 <= i < n - 1 implies b.drop_first().take(n - 1)[i]
            == a.drop_first()[i] by {
            assert(b.take(n)[i + 1] == a[i + 1]);
        }
        assert(b.drop_first().take(n - 1) =~= a.drop_first());
    }
    if b.len() > 1 {
        let c = b.drop_last();
        assert(c.drop_first() =~= b.drop_first().drop_last());
        assert(c[0] == b[0]);
        if a[0] == b[0] && a.drop_first() == b.drop_first().drop_last() {
            assert(a =~= seq![a[0]] + a.drop_first());
            assert(c =~= seq![c[0]] + c.drop_first());
        }
    }
}

proof fn lemma_filter_push(s: Seq<Seq<char>>, piece: Seq<char>)
    ensures
        s.push(piece).filter(named()) == if piece.len() > 0 {
            s.filter(named()).push(piece)
        } else {
            s.filter(named())
        },
{
    reveal(Seq::filter);
    assert(s.push(piece).drop_last() =~= s);
}

proof fn lemma_kept_is_a_piece(all: Seq<Seq<char>>, i: int)
    requires
        0 <= i < all.filter(named()).len(),
    ensures
        all.contains(all.filter(named())[i]),
        all.filter(named())[i].len() > 0,
    decreases all.len(),
{
    reveal(Seq::filter);
    if all.len() > 0 {
        let before = all.drop_last();
        if i < before.filter(named()).len() {
            lemma_kept_is_a_piece(before, i);
            let kept = before.filter(named())[i];
            let j = choose|j: int| 0 <= j < before.len() && before[j] == kept;
            assert(all[j] == kept);
        } else {
            assert(all[all.len() - 1] == all.last());
        }
    }
}

/// Every segment is a name: it is not empty, and it holds no separator.
pub proof fn lemma_segments_are_names(s: Seq<char>, i: int)
    requires
        0 <= i < segments(s).len(),
    ensures
        segments(s)[i].len() > 0,
        !segments(s)[i].contains('/'),
{
    lemma_kept_is_a_piece(pieces(s), i);
    let j = choose|j: int| 0 <= j < pieces(s).len() && pieces(s)[j] == segments(s)[i];
    lemma_pieces_hold_no_separator(s, j);
}

/// An entry path has at least one segment.
pub proof fn lemma_entry_path_shape(s: Seq<char>)
    ensures
        entry_path(s).len() > 0,
{
}

/// Splits `path` at its separators and keeps the segments that have a name.
pub fn split_path(path: &str) -> (segs: Vec<String>)
    ensures
        names(segs@) == entry_path(path@),
{
    let mut segs: Vec<String> = Vec::new();
    let mut current = String::new();
    proof {
        assert(path@.take(0) =~= Seq::<char>::empty());
        assert(pieces(path@.take(0)).drop_last() =~= Seq::<Seq<char>>::empty());
        reveal(Seq::filter);
        assert(names(segs@) =~= Seq::<Seq<char>>::empty());
    }
    for c in it: path.chars()
        invariant
            it.seq() == path@,
            current@ == pieces(path@.take(it.index() as int)).last(),
            names(segs@) == pieces(path@.take(it.index() as int)).drop_last().filter(named()),
    {
        let ghost i = it.index() as int;
        let ghost seen = pieces(path@.take(i));
        proof {
            lemma_pieces_nonempty(path@.take(i));
            assert(path@.take(i + 1).drop_last() =~= path@.take(i));
            assert(path@.take(i + 1).last() == c);
            assert(seen =~= seen.drop_last().push(seen.last()));
            lemma_filter_push(seen.drop_last(), seen.last());
        }
        if c == '/' {
            let ghost before = segs@;
            if !current.as_str().is_empty() {
                segs.push(current);
                proof {
                    assert(names(segs@) =~= names(before).push(seen.last()));
                }
            }
            current = String::new();
            proof {
                assert(seen.push(Seq::empty()).drop_last() =~= seen);
            }
        } else {
            current.push(c);
            proof {
                assert(seen.drop_last().push(seen.last().push(c)).drop_last() =~= seen.drop_last());
            }
        }
    }
    let ghost all = pieces(path@);
    let ghost before = segs@;
    proof {
        assert(path@.take(path@.len() as int) =~= path@);
        lemma_pieces_nonempty(path@);
        assert(all =~= all.drop_last().push(all.last()));
        lemma_filter_push(all.drop_last(), all.last());
    }
    if !current.as_str().is_empty() {
        segs.push(current);
        proof {
            assert(names(segs@) =~= names(before).push(all.last()));
        }
    }
    if segs.len() == 0 {
        segs.push(String::new());
        proof {
            assert(names(segs@) =~= seq![Seq::<char>::empty()]);
        }
    }
    segs
}

} // verus!
