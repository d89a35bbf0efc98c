//! The observer that rebuilds the directory tree from the paths it is shown.

use vstd::prelude::*;
use vstd::string::*;
use vstd::utf8::encode_utf8;
use crate::directory_tree::DirectoryTree;
use crate::path::{entry_path, names, split_path};
use crate::report::{push_decimal, push_indent};
use crate::resource_metadata::{ResourceMetadata, ResourceView};
use crate::visitable::Visitable;

verus! {

/// A directory of the tree. It owns the directories below it.
pub struct DirectoryNode {
    name: String,
    child_files: usize,
    child_dirs: usize,
    total_size: u64,
    children: Vec<DirectoryNode>,
}

impl View for DirectoryNode {
    type V = DirectoryTree;

    closed spec fn view(&self) -> DirectoryTree {
        self.model()
    }
}

impl DirectoryNode {
    spec fn model(&self) -> DirectoryTree
        decreases self,
    {
        DirectoryTree {
            name: self.name@,
            child_files: self.child_files as nat,
            child_dirs: self.child_dirs as nat,
            total_size: self.total_size as nat,
            children: Seq::new(
                self.children@.len(),
                |i: int|
                    if 0 <= i < self.children@.len() {
                        self.children@[i].model()
                    } else {
                        arbitrary()
                    },
            ),
        }
    }

    proof fn lemma_view(&self)
        ensures
            self@.name == self.name@,
            self@.child_files == self.child_files,
            self@.child_dirs == self.child_dirs,
            self@.total_size == self.total_size,
            self@.children.len() == self.children@.len(),
            forall|i: int|
                0 <= i < self.children@.len() ==> #[trigger] self@.children[i]
                    == self.children@[i]@,
    {
    }

    fn leaf(name: String) -> (node: DirectoryNode)
        ensures
            node@ == DirectoryTree::leaf(name@),
    {
        let node = DirectoryNode {
            name,
            child_files: 0,
            child_dirs: 0,
            total_size: 0,
            children: Vec::new(),
        };
        proof {
            assert(node@.children =~= Seq::empty());
        }
        node
    }

    /// The directory's own name: the last segment of its path.
    pub fn name(&self) -> (name: &String)
        ensures
            name@ == self@.name,
    {
        &self.name
    }

    /// How many files lie directly inside the directory.
    pub fn child_files(&self) -> (count: usize)
        ensures
            count == self@.child_files,
    {
        self.child_files
    }

    /// How many directories lie directly inside the directory.
    pub fn child_dirs(&self) -> (count: usize)
        ensures
            count == self@.child_dirs,
    {
        self.child_dirs
    }

    /// How many bytes the entries directly inside the directory occupy.
    pub fn total_size(&self) -> (bytes: u64)
        ensures
            bytes == self@.total_size,
    {
        self.total_size
    }

    fn find_child(&self, name: &String) -> (found: Option<usize>)
        requires
            self@.wf(),
        ensures
            match found {
                Some(i) => {
                    &&& i < self.children@.len()
                    &&& self@.has_child(name@)
                    &&& self@.child_index(name@) == i
                },
                None => !self@.has_child(name@),
            },
    {
        proof {
            self.lemma_view();
        }
        let mut i: usize = 0;
        while i < self.children.len()
            invariant
                i <= self.children@.len(),
                self@.wf(),
                self@.children.len() == self.children@.len(),
                forall|k: int| 0 <= k < i ==> (#[trigger] self@.children[k]).name != name@,
            decreases self.children@.len() - i,
        {
            proof {
                self.lemma_view();
                self.children@[i as int].lemma_view();
            }
            if self.children[i].name == *name {
                proof {
                    self@.lemma_child_is_unique(name@, i as int);
                }
                return Some(i);
            }
            i += 1;
        }
        None
    }

    /// The directory of that name directly inside this one, if there is one.
    pub fn child(&self, name: &str) -> (found: Option<&DirectoryNode>)
        requires
            self@.wf(),
        ensures
            match found {
                Some(node) => self@.has_child(name@) && node@ == self@.child(name@) && node@.wf(),
                None => !self@.has_child(name@),
            },
    {
        let wanted = String::from_str(name);
        proof {
            self.lemma_view();
        }
        match self.find_child(&wanted) {
            Some(i) => Some(&self.children[i]),
            None => None,
        }
    }

    /// Whether a visit of the entry at `segs`, from segment `at` on, leaves
    /// every aggregate within the machine's integers.
    fn has_room(&self, segs: &Vec<String>, at: usize, is_dir: bool, size: u64) -> (room: bool)
        requires
            self@.wf(),
            at <= segs.len(),
        ensures
            room == self@.absorbs(names(segs@).skip(at as int), is_dir, size as nat),
        decreases segs.len() - at,
    {
        let ghost path = names(segs@).skip(at as int);
        if at >= segs.len() {
            return true;
        }
        proof {
            self.lemma_view();
            assert(path[0] == segs@[at as int]@);
            assert(path.drop_first() =~= names(segs@).skip(at + 1));
        }
        match self.find_child(&segs[at]) {
            Some(j) => self.children[j].has_room(segs, at + 1, is_dir, size),
            None => {
                if at + 1 == segs.len() {
                    let counts = if is_dir {
                        self.child_dirs < usize::MAX
                    } else {
                        self.child_files < usize::MAX
                    };
                    counts && size <= u64::MAX - self.total_size
                } else {
                    proof {
                        DirectoryTree::lemma_leaf_absorbs(
                            path[0],
                            path.drop_first(),
                            is_dir,
                            size as nat,
                        );
                    }
                    true
                }
            },
        }
    }

    /// Visits the entry at `segs`, from segment `at` on.
    fn visit_segments(&mut self, segs: &Vec<String>, at: usize, is_dir: bool, size: u64)
        requires
            old(self)@.wf(),
            at <= segs.len(),
            old(self)@.absorbs(names(segs@).skip(at as int), is_dir, size as nat),
        ensures
            final(self)@ == old(self)@.visit(names(segs@).skip(at as int), is_dir, size as nat),
        decreases segs.len() - at,
    {
        let ghost path = names(segs@).skip(at as int);
        if at >= segs.len() {
            return ;
        }
        proof {
            self.lemma_view();
            assert(path[0] == segs@[at as int]@);
            assert(path.drop_first() =~= names(segs@).skip(at + 1));
        }
        match self.find_child(&segs[at]) {
            Some(j) => {
                self.children[j].visit_segments(segs, at + 1, is_dir, size);
                proof {
                    self.lemma_view();
                    assert(self@.children =~= old(self)@.children.update(
                        j as int,
                        old(self)@.children[j as int].visit(path.drop_first(), is_dir, size as nat),
                    ));
                }
            },
            None => {
                if at + 1 == segs.len() {
                    if is_dir {
                        self.child_dirs = self.child_dirs + 1;
                    } else {
                        self.child_files = self.child_files + 1;
                    }
                    self.total_size = self.total_size + size;
                    if is_dir {
                        self.children.push(DirectoryNode::leaf(segs[at].clone()));
                    }
                    proof {
                        self.lemma_view();
                        if is_dir {
                            assert(self@.children =~= old(self)@.children.push(
                                DirectoryTree::leaf(path[0]),
                            ));
                        } else {
                            assert(self@.children =~= old(self)@.children);
                        }
                    }
                } else {
                    let mut child = DirectoryNode::leaf(segs[at].clone());
                    child.visit_segments(segs, at + 1, is_dir, size);
                    self.children.push(child);
                    proof {
                        self.lemma_view();
                        assert(self@.children =~= old(self)@.children.push(
                            DirectoryTree::leaf(path[0]).visit(
                                path.drop_first(),
                                is_dir,
                                size as nat,
                            ),
                        ));
                    }
                }
            },
        }
    }

    /// Appends the line that reports this directory to `out`.
    fn write_line(&self, out: &mut String, depth: usize)
        ensures
            final(out)@ == old(out)@ + self@.line(depth as nat),
    {
        proof {
            self.lemma_view();
        }
        push_indent(out, depth);
        out.append(self.name.as_str());
        out.append(": ");
        push_decimal(out, self.child_files as u64);
        out.append(" files, ");
        push_decimal(out, self.child_dirs as u64);
        out.append(" directories, ");
        push_decimal(out, self.total_size);
        out.append(" bytes\n");
        proof {
            assert(out@ =~= old(out)@ + self@.line(depth as nat));
        }
    }
}

/// Rebuilds the directory tree from the resources it is shown and keeps, for
/// every directory, the aggregates of the entries directly inside it.
pub struct DirectoryAnalyzerVisitor {
    root: DirectoryNode,
    visited: Ghost<Seq<ResourceView>>,
}

impl DirectoryAnalyzerVisitor {
    /// The tree that the observer has built.
    pub closed spec fn tree(&self) -> DirectoryTree {
        self.root@
    }

    /// An observer that was shown nothing: its tree is the root alone.
    pub fn new() -> (visitor: Self)
        ensures
            visitor.wf(),
            visitor.visited() == Seq::<ResourceView>::empty(),
            visitor.tree() == DirectoryTree::root(),
    {
        DirectoryAnalyzerVisitor {
            root: DirectoryNode::leaf(String::new()),
            visited: Ghost(Seq::empty()),
        }
    }

    /// The root of the tree. It has no name and stands for the walk's start.
    pub fn root(&self) -> (root: &DirectoryNode)
        ensures
            root@ == self.tree(),
            self.wf() ==> root@.wf(),
    {
        proof {
            if self.wf() {
                self.lemma_tree_is_wf();
            }
        }
        &self.root
    }

    /// The tree of a well-formed observer holds no name twice in one directory.
    pub proof fn lemma_tree_is_wf(&self)
        requires
            self.wf(),
        ensures
            self.tree().wf(),
    {
        DirectoryTree::lemma_after_is_wf(self.visited@);
    }

    /// Whether the observer has room for a visit of `metadata`.
    pub fn can_visit(&self, metadata: &ResourceMetadata) -> (room: bool)
        requires
            self.wf(),
        ensures
            room == Self::accepts(self.visited(), metadata@),
    {
        let segs = split_path(metadata.get_path().as_str());
        proof {
            DirectoryTree::lemma_after_is_wf(self.visited@);
            assert(names(segs@).skip(0) =~= names(segs@));
        }
        self.root.has_room(&segs, 0, metadata.is_dir(), metadata.size_bytes())
    }

    /// Appends to `out` the lines that report `node` and all directories
    /// below it, `node` itself indented for `depth`.
    pub fn recap_recursive(&self, out: &mut String, node: &DirectoryNode, depth: usize)
        requires
            node@.within((usize::MAX - depth) as nat),
        ensures
            final(out)@ == old(out)@ + node@.report(depth as nat),
        decreases node,
    {
        node.write_line(out, depth);
        proof {
            node.lemma_view();
            assert(node@.children.take(0) =~= Seq::empty());
            assert(out@ =~= old(out)@ + node@.line(depth as nat) + DirectoryTree::reports(
                node@.children.take(0),
                depth as nat + 1,
            ));
        }
        let mut i: usize = 0;
        while i < node.children.len()
            invariant
                i <= node.children@.len(),
                node@.within((usize::MAX - depth) as nat),
                node@.children.len() == node.children@.len(),
                out@ == old(out)@ + node@.line(depth as nat) + DirectoryTree::reports(
                    node@.children.take(i as int),
                    depth as nat + 1,
                ),
            decreases node.children@.len() - i,
        {
            proof {
                node.lemma_view();
                assert(node@.children[i as int].within((usize::MAX - depth - 1) as nat));
            }
            self.recap_recursive(out, &node.children[i], depth + 1);
            proof {
                let shown = node@.children.take(i + 1);
                assert(shown.drop_last() =~= node@.children.take(i as int));
                assert(shown.last() == node@.children[i as int]);
                assert(out@ =~= old(out)@ + node@.line(depth as nat) + DirectoryTree::reports(
                    shown,
                    depth as nat + 1,
                ));
            }
            i += 1;
        }
        proof {
            assert(node@.children.take(node@.children.len() as int) =~= node@.children);
        }
    }
}

impl Visitable for DirectoryAnalyzerVisitor {
    /// The tree is the one that the visits so far build from the root, and
    /// no directory lies deeper than a machine integer can count.
    open spec fn wf(&self) -> bool {
        &&& self.tree() == DirectoryTree::after(self.visited())
        &&& self.tree().within(usize::MAX as nat)
    }

    closed spec fn visited(&self) -> Seq<ResourceView> {
        self.visited@
    }

    open spec fn accepts(history: Seq<ResourceView>, resource: ResourceView) -> bool {
        DirectoryTree::after(history).admits(resource)
    }

    open spec fn label() -> Seq<char> {
        "DirectoryAnalyzerVisitor"@
    }

    open spec fn emits(history: Seq<ResourceView>, resource: ResourceView) -> Seq<u8> {
        Seq::empty()
    }

    open spec fn summary(history: Seq<ResourceView>) -> Seq<u8> {
        encode_utf8(DirectoryTree::after(history).report(0))
    }

    /// Counts the resource in the directory that holds it, and makes room in
    /// the tree for every directory on its path. Writes nothing.
    fn visit(&mut self, metadata: &ResourceMetadata, sink: &mut Vec<u8>)
        ensures
            final(self).tree() == old(self).tree().observe(metadata@),
    {
        let segs = split_path(metadata.get_path().as_str());
        let count = segs.len();
        proof {
            DirectoryTree::lemma_after_is_wf(self.visited@);
            assert(names(segs@).skip(0) =~= names(segs@));
            assert(entry_path(metadata@.path).len() == count);
            self.root@.lemma_visit_keeps_within(
                entry_path(metadata@.path),
                metadata@.is_dir,
                metadata@.size_bytes as nat,
                usize::MAX as nat,
            );
        }
        self.root.visit_segments(&segs, 0, metadata.is_dir(), metadata.size_bytes());
        proof {
            let history = self.visited@.push(metadata@);
            assert(history.drop_last() =~= self.visited@);
        }
        self.visited = Ghost(self.visited@.push(metadata@));
    }

    /// Appends the report of the whole tree to `sink`, as UTF-8.
    fn recap(&mut self, sink: &mut Vec<u8>)
        ensures
            final(self).tree() == old(self).tree(),
    {
        let mut text = String::new();
        self.recap_recursive(&mut text, &self.root, 0);
        proof {
            assert(text@ =~= self.tree().report(0));
        }
        let bytes = text.as_str().as_bytes();
        let mut i: usize = 0;
        proof {
            assert(sink@ =~= old(sink)@ + bytes@.take(0));
        }
        while i < bytes.len()
            invariant
                i <= bytes@.len(),
                sink@ == old(sink)@ + bytes@.take(i as int),
            decreases bytes@.len() - i,
        {
            sink.push(bytes[i]);
            i += 1;
            proof {
                assert(sink@ =~= old(sink)@ + bytes@.take(i as int));
            }
        }
        proof {
            assert(bytes@.take(bytes@.len() as int) =~= bytes@);
        }
    }

    fn name(&self) -> (name: &'static str) {
        "DirectoryAnalyzerVisitor"
    }
}

} // verus!
