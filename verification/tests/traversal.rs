use dirscan::directory_analyzer_visitor::DirectoryAnalyzerVisitor;
use dirscan::file_system_traversal::{Action, FileSystemTraversal, Listing, Snapshot, Walk};
use dirscan::resource_metadata::ResourceMetadata;
use dirscan::visitable::Visitable;

fn entry(path: &str, is_dir: bool, is_symlink: bool, size: u64) -> ResourceMetadata {
    ResourceMetadata::new(&path.to_string(), is_dir, is_symlink, 0, size, false)
}

fn report_of(visitor: &mut DirectoryAnalyzerVisitor) -> String {
    let mut output = Vec::new();
    visitor.recap(&mut output);
    String::from_utf8(output).unwrap()
}

fn listed(action: Action) -> String {
    match action {
        Action::List(path) => path,
        Action::Advance => panic!("expected a directory to list, got Advance"),
        Action::Finished => panic!("expected a directory to list, got Finished"),
    }
}

#[test]
fn walk_visits_parents_first_and_depth_first() {
    let traversal = FileSystemTraversal;
    let mut visitors = vec![DirectoryAnalyzerVisitor::new(), DirectoryAnalyzerVisitor::new()];
    let mut sink = Vec::new();
    let mut walk = Walk::begin(entry("/r", true, false, 1));

    assert_eq!(walk.peek().unwrap().get_path(), "/r");
    assert_eq!(listed(traversal.traverse(&mut walk, &mut visitors, &mut sink)), "/r");
    assert!(walk.peek().is_none());
    walk.supply(Listing::Entries(vec![
        entry("/r/a.txt", false, false, 10),
        entry("/r/d", true, false, 2),
        entry("/r/z.txt", false, false, 30),
    ]));

    assert_eq!(walk.peek().unwrap().get_path(), "/r/a.txt");
    assert!(matches!(traversal.traverse(&mut walk, &mut visitors, &mut sink), Action::Advance));
    assert_eq!(listed(traversal.traverse(&mut walk, &mut visitors, &mut sink)), "/r/d");
    walk.supply(Listing::Entries(vec![
        entry("/r/d/e", true, false, 3),
        entry("/r/d/x.txt", false, false, 40),
    ]));

    assert_eq!(listed(traversal.traverse(&mut walk, &mut visitors, &mut sink)), "/r/d/e");
    walk.supply(Listing::Entries(Vec::new()));
    assert_eq!(walk.peek().unwrap().get_path(), "/r/d/x.txt");
    assert!(matches!(traversal.traverse(&mut walk, &mut visitors, &mut sink), Action::Advance));
    assert_eq!(walk.peek().unwrap().get_path(), "/r/z.txt");
    assert!(matches!(traversal.traverse(&mut walk, &mut visitors, &mut sink), Action::Finished));
    assert!(walk.peek().is_none());
    assert!(matches!(traversal.traverse(&mut walk, &mut visitors, &mut sink), Action::Finished));

    assert!(sink.is_empty());
    assert_eq!(visitors.len(), 2);
    for visitor in visitors.iter_mut() {
        assert_eq!(
            report_of(visitor),
            ": 0 files, 1 directories, 1 bytes\n  r: 2 files, 1 directories, 42 bytes\n    d: 1 files, 1 directories, 43 bytes\n      e: 0 files, 0 directories, 0 bytes\n"
        );
    }
}

#[test]
fn walk_never_lists_a_symlinked_directory() {
    let traversal = FileSystemTraversal;
    let mut visitors = vec![DirectoryAnalyzerVisitor::new()];
    let mut sink = Vec::new();
    let mut walk = Walk::begin(entry("/r", true, false, 1));

    assert_eq!(listed(traversal.traverse(&mut walk, &mut visitors, &mut sink)), "/r");
    walk.supply(Listing::Entries(vec![
        entry("/r/link", true, true, 8),
        entry("/r/f", false, false, 5),
    ]));
    assert!(matches!(traversal.traverse(&mut walk, &mut visitors, &mut sink), Action::Advance));
    assert_eq!(walk.peek().unwrap().get_path(), "/r/f");
    assert!(matches!(traversal.traverse(&mut walk, &mut visitors, &mut sink), Action::Finished));

    let r = visitors[0].root().child("r").unwrap();
    assert_eq!((r.child_files(), r.child_dirs(), r.total_size()), (1, 1, 13));
    let link = r.child("link").unwrap();
    assert_eq!((link.child_files(), link.child_dirs(), link.total_size()), (0, 0, 0));
}

#[test]
fn walk_at_a_symlinked_root_visits_it_alone() {
    let traversal = FileSystemTraversal;
    let mut visitors = vec![DirectoryAnalyzerVisitor::new()];
    let mut sink = Vec::new();
    let mut walk = Walk::begin(entry("/link", true, true, 8));
    assert!(matches!(traversal.traverse(&mut walk, &mut visitors, &mut sink), Action::Finished));
    assert_eq!(visitors[0].root().child_dirs(), 1);
}

#[test]
fn walk_goes_on_after_an_unreadable_directory() {
    let traversal = FileSystemTraversal;
    let mut visitors = vec![DirectoryAnalyzerVisitor::new()];
    let mut sink = Vec::new();
    let mut walk = Walk::begin(entry("/r", true, false, 1));

    assert_eq!(listed(traversal.traverse(&mut walk, &mut visitors, &mut sink)), "/r");
    walk.supply(Listing::Entries(vec![
        entry("/r/locked", true, false, 4),
        entry("/r/open", true, false, 4),
    ]));
    assert_eq!(listed(traversal.traverse(&mut walk, &mut visitors, &mut sink)), "/r/locked");
    walk.supply(Listing::Unreadable);
    assert_eq!(walk.peek().unwrap().get_path(), "/r/open");
    assert_eq!(listed(traversal.traverse(&mut walk, &mut visitors, &mut sink)), "/r/open");
    walk.supply(Listing::Entries(vec![entry("/r/open/f", false, false, 6)]));
    assert!(matches!(traversal.traverse(&mut walk, &mut visitors, &mut sink), Action::Finished));

    assert_eq!(
        report_of(&mut visitors[0]),
        ": 0 files, 1 directories, 1 bytes\n  r: 0 files, 2 directories, 8 bytes\n    locked: 0 files, 0 directories, 0 bytes\n    open: 1 files, 0 directories, 6 bytes\n"
    );
}

#[test]
fn walk_of_a_single_file_finishes_at_once() {
    let traversal = FileSystemTraversal;
    let mut visitors = vec![DirectoryAnalyzerVisitor::new()];
    let mut sink = Vec::new();
    let mut walk = Walk::begin(entry("/f", false, false, 9));
    assert!(matches!(traversal.traverse(&mut walk, &mut visitors, &mut sink), Action::Finished));
    assert_eq!(visitors[0].root().child_files(), 1);
    assert_eq!(visitors[0].root().total_size(), 9);
}

#[test]
fn dispatch_shows_the_resource_to_every_observer() {
    let traversal = FileSystemTraversal;
    let mut visitors = vec![
        DirectoryAnalyzerVisitor::new(),
        DirectoryAnalyzerVisitor::new(),
        DirectoryAnalyzerVisitor::new(),
    ];
    let mut sink = b"kept".to_vec();
    traversal.dispatch(&entry("/f", false, false, 9), &mut visitors, &mut sink);
    assert_eq!(sink, b"kept".to_vec());
    for visitor in &visitors {
        assert_eq!(visitor.root().child_files(), 1);
        assert_eq!(visitor.root().total_size(), 9);
    }
}

fn leaf(path: &str, size: u64) -> Snapshot {
    Snapshot { metadata: entry(path, false, false, size), entries: None }
}

fn listed_dir(path: &str, size: u64, entries: Vec<Snapshot>) -> Snapshot {
    Snapshot { metadata: entry(path, true, false, size), entries: Some(entries) }
}

#[test]
fn whole_walk_visits_the_subtree_in_its_order() {
    let tree = listed_dir(
        "/r",
        1,
        vec![
            leaf("/r/a.txt", 10),
            listed_dir(
                "/r/d",
                2,
                vec![listed_dir("/r/d/e", 3, Vec::new()), leaf("/r/d/x.txt", 40)],
            ),
            leaf("/r/z.txt", 30),
        ],
    );
    let mut visitors = vec![DirectoryAnalyzerVisitor::new(), DirectoryAnalyzerVisitor::new()];
    let mut sink = b"kept".to_vec();
    FileSystemTraversal.walk(&tree, &mut visitors, &mut sink);
    assert_eq!(sink, b"kept".to_vec());
    assert_eq!(visitors.len(), 2);
    for visitor in visitors.iter_mut() {
        assert_eq!(
            report_of(visitor),
            ": 0 files, 1 directories, 1 bytes\n  r: 2 files, 1 directories, 42 bytes\n    d: 1 files, 1 directories, 43 bytes\n      e: 0 files, 0 directories, 0 bytes\n"
        );
    }
}

#[test]
fn whole_walk_shows_nothing_below_a_symlinked_directory() {
    let link = Snapshot {
        metadata: entry("/r/link", true, true, 8),
        entries: Some(vec![leaf("/r/link/hidden.txt", 99), listed_dir("/r/link/sub", 7, Vec::new())]),
    };
    let tree = listed_dir("/r", 1, vec![link, leaf("/r/f", 5)]);
    let mut visitors = vec![DirectoryAnalyzerVisitor::new()];
    let mut sink = Vec::new();
    FileSystemTraversal.walk(&tree, &mut visitors, &mut sink);
    assert_eq!(
        report_of(&mut visitors[0]),
        ": 0 files, 1 directories, 1 bytes\n  r: 1 files, 1 directories, 13 bytes\n    link: 0 files, 0 directories, 0 bytes\n"
    );
}

#[test]
fn whole_walk_passes_a_directory_that_could_not_be_listed() {
    let locked = Snapshot { metadata: entry("/r/locked", true, false, 4), entries: None };
    let open = listed_dir("/r/open", 4, vec![leaf("/r/open/f", 6)]);
    let tree = listed_dir("/r", 1, vec![locked, open]);
    let mut visitors = vec![DirectoryAnalyzerVisitor::new()];
    let mut sink = Vec::new();
    FileSystemTraversal.walk(&tree, &mut visitors, &mut sink);
    assert_eq!(
        report_of(&mut visitors[0]),
        ": 0 files, 1 directories, 1 bytes\n  r: 0 files, 2 directories, 8 bytes\n    locked: 0 files, 0 directories, 0 bytes\n    open: 1 files, 0 directories, 6 bytes\n"
    );
}

#[test]
fn whole_walk_ignores_the_listing_of_a_file() {
    let odd = Snapshot {
        metadata: entry("/f", false, false, 9),
        entries: Some(vec![leaf("/f/inside", 1)]),
    };
    let mut visitors = vec![DirectoryAnalyzerVisitor::new()];
    let mut sink = Vec::new();
    FileSystemTraversal.walk(&odd, &mut visitors, &mut sink);
    assert_eq!(report_of(&mut visitors[0]), ": 1 files, 0 directories, 9 bytes\n");
}
