//! The text of the summary: one line for each directory, parents first.

use vstd::prelude::*;
use vstd::string::*;
use crate::directory_tree::DirectoryTree;

verus! {

/// The ten digits, in order.
pub open spec fn digits() -> Seq<char> {
    seq!['0', '1', '2', '3', '4', '5', '6', '7', '8', '9']
}

/// `n` written in base ten, without sign, padding or grouping.
pub open spec fn decimal(n: nat) -> Seq<char>
    decreases n,
{
    if n < 10 {
        seq![digits()[n as int]]
    } else {
        decimal(n / 10).push(digits()[(n % 10) as int])
    }
}

/// The indentation of a line at `depth`: two spaces for each level.
pub open spec fn indent(depth: nat) -> Seq<char> {
    Seq::new(2 * depth, |i: int| ' ')
}

impl DirectoryTree {
    /// The line that reports this directory.
    pub open spec fn line(self, depth: nat) -> Seq<char> {
        indent(depth) + self.name + ": "@ + decimal(self.child_files) + " files, "@ + decimal(
            self.child_dirs,
        ) + " directories, "@ + decimal(self.total_size) + " bytes\n"@
    }

    /// The lines that report this directory and all directories below it:
    /// each directory before its children, the children in the order in which
    /// the tree holds them, each level two spaces further in.
    pub open spec fn report(self, depth: nat) -> Seq<char>
        decreases self, 1nat,
    {
        self.line(depth) + Self::reports(self.children, depth + 1)
    }

    /// The reports of `trees`, one after the other.
    pub open spec fn reports(trees: Seq<DirectoryTree>, depth: nat) -> Seq<char>
        decreases trees, 0nat,
    {
        if trees.len() == 0 {
            Seq::empty()
        } else {
            Self::reports(trees.drop_last(), depth) + trees.last().report(depth)
        }
    }
}

/// The report of a tree that was shown nothing is the line of the root alone.
pub proof fn lemma_report_of_nothing()
    ensures
        DirectoryTree::root().report(0) == ": 0 files, 0 directories, 0 bytes\n"@,
{
    reveal_strlit(": ");
    reveal_strlit(" files, ");
    reveal_strlit(" directories, ");
    reveal_strlit(" bytes\n");
    reveal_strlit(": 0 files, 0 directories, 0 bytes\n");
    let root = DirectoryTree::root();
    assert(indent(0) =~= Seq::<char>::empty());
    assert(decimal(0) =~= seq!['0']);
    assert(DirectoryTree::reports(root.children, 1) =~= Seq::<char>::empty());
    assert(root.report(0) =~= ": 0 files, 0 directories, 0 bytes\n"@);
}

fn digit_char(d: u64) -> (c: char)
    requires
        d < 10,
    ensures
        c == digits()[d as int],
{
    match d {
        0 => '0',
        1 => '1',
        2 => '2',
        3 => '3',
        4 => '4',
        5 => '5',
        6 => '6',
        7 => '7',
        8 => '8',
        _ => '9',
    }
}

/// Appends `n` in base ten to `out`.
pub fn push_decimal(out: &mut String, n: u64)
    ensures
        final(out)@ == old(out)@ + decimal(n as nat),
    decreases n,
{
    if n >= 10 {
        push_decimal(out, n / 10);
    }
    out.push(digit_char(n % 10));
    proof {
        if n >= 10 {
            assert(out@ =~= old(out)@ + decimal((n / 10) as nat).push(digits()[(n % 10) as int]));
        } else {
            assert(out@ =~= old(out)@ + seq![digits()[n as int]]);
        }
    }
}

/// Appends the indentation of a line at `depth` to `out`.
pub fn push_indent(out: &mut String, depth: usize)
    ensures
        final(out)@ == old(out)@ + indent(depth as nat),
{
    let mut level: usize = 0;
    proof {
        assert(out@ =~= old(out)@ + indent(0));
    }
    while level < depth
        invariant
            level <= depth,
            out@ == old(out)@ + indent(level as nat),
        decreases depth - level,
    {
        out.push(' ');
        out.push(' ');
        level += 1;
        proof {
            assert(out@ =~= old(out)@ + indent(level as nat));
        }
    }
}

} // verus!
