use dirscan::directory_analyzer_visitor::DirectoryAnalyzerVisitor;
use dirscan::path::split_path;
use dirscan::report::{push_decimal, push_indent};
use dirscan::resource_metadata::ResourceMetadata;
use dirscan::visitable::Visitable;

fn file(path: &str, size: u64) -> ResourceMetadata {
    ResourceMetadata::new(&path.to_string(), false, false, 0, size, false)
}

fn dir(path: &str, size: u64) -> ResourceMetadata {
    ResourceMetadata::new(&path.to_string(), true, false, 0, size, false)
}

fn visit_all(resources: &[ResourceMetadata]) -> DirectoryAnalyzerVisitor {
    let mut visitor = DirectoryAnalyzerVisitor::new();
    let mut sink: Vec<u8> = Vec::new();
    for resource in resources {
        assert!(visitor.can_visit(resource));
        visitor.visit(resource, &mut sink);
    }
    assert!(sink.is_empty());
    visitor
}

fn report_of(visitor: &mut DirectoryAnalyzerVisitor) -> String {
    let mut output = Vec::new();
    visitor.recap(&mut output);
    String::from_utf8(output).unwrap()
}

#[test]
fn test_directory_analyzer_visitor() {
    // Test data
    let metadata1 = ResourceMetadata::new(&"/a".to_string(), true, false, 0, 96, false);
    let metadata2 = ResourceMetadata::new(&"/a/foo.txt".to_string(), false, false, 0, 100, false);
    let metadata3 = ResourceMetadata::new(&"/a/bar.txt".to_string(), false, false, 0, 150, false);
    let metadata4 = ResourceMetadata::new(&"/a/b".to_string(), true, false, 0, 96, false);
    let metadata5 = ResourceMetadata::new(&"/a/b/bif.txt".to_string(), false, false, 0, 75, false);

    let mut visitor = DirectoryAnalyzerVisitor::new();

    let mut buffer: Vec<u8> = Vec::new();

    // Visit each resource
    visitor.visit(&metadata1, &mut buffer);
    visitor.visit(&metadata2, &mut buffer);
    visitor.visit(&metadata3, &mut buffer);
    visitor.visit(&metadata4, &mut buffer);
    visitor.visit(&metadata5, &mut buffer);

    // Check the root node
    assert_eq!(visitor.root().child_files(), 0);
    assert_eq!(visitor.root().child_dirs(), 1);
    assert_eq!(visitor.root().total_size(), 96);
    assert_eq!(visitor.root().name(), "");

    // Check the "/a" node
    if let Some(a_node) = visitor.root().child("a") {
        assert_eq!(a_node.child_files(), 2);
        assert_eq!(a_node.child_dirs(), 1);
        assert_eq!(a_node.total_size(), 346);
        assert_eq!(a_node.name(), "a");
    } else {
        panic!("Missing node for '/a'");
    }

    // Check the "/a/b" node
    if let Some(b_node) = visitor.root().child("a").and_then(|a_node| a_node.child("b")) {
        assert_eq!(b_node.child_files(), 1);
        assert_eq!(b_node.child_dirs(), 0);
        assert_eq!(b_node.total_size(), 75);
        assert_eq!(b_node.name(), "b");
    } else {
        panic!("Missing node for '/a/b'");
    }
}

#[test]
fn test_recap_recursive() {
    // Test data
    let metadata1 = ResourceMetadata::new(&"/a".to_string(), true, false, 0, 96, false);
    let metadata2 = ResourceMetadata::new(&"/a/b".to_string(), true, false, 0, 96, false);
    let metadata3 = ResourceMetadata::new(&"/a/b/c".to_string(), true, false, 0, 96, false);

    let mut visitor = DirectoryAnalyzerVisitor::new();

    let mut buffer: Vec<u8> = Vec::new();

    // Visit each resource
    visitor.visit(&metadata1, &mut buffer);
    visitor.visit(&metadata2, &mut buffer);
    visitor.visit(&metadata3, &mut buffer);

    // Capture output for testing
    let mut output = Vec::new();
    visitor.recap(&mut output);

    // Assert output
    let output_str = String::from_utf8(output).unwrap();
    assert!(output_str.contains("a: 0 files, 1 directories, 96 bytes"));
    assert!(output_str.contains("  b: 0 files, 1 directories, 96 bytes"));
    assert!(output_str.contains("    c: 0 files, 0 directories, 0 bytes"));
}

#[test]
fn test_name_validation() {
    let visitor = DirectoryAnalyzerVisitor::new();
    assert_eq!("DirectoryAnalyzerVisitor", visitor.name());
}

#[test]
fn recap_without_visits_is_the_root_line() {
    let mut visitor = DirectoryAnalyzerVisitor::new();
    assert_eq!(report_of(&mut visitor), ": 0 files, 0 directories, 0 bytes\n");
}

#[test]
fn recap_appends_to_what_the_sink_holds() {
    let mut visitor = DirectoryAnalyzerVisitor::new();
    let mut output = b"walk\n".to_vec();
    visitor.recap(&mut output);
    assert_eq!(String::from_utf8(output).unwrap(), "walk\n: 0 files, 0 directories, 0 bytes\n");
}

#[test]
fn recap_of_the_round_trip_is_exact() {
    let mut visitor = visit_all(&[
        dir("/a", 96),
        file("/a/foo.txt", 100),
        file("/a/bar.txt", 150),
        dir("/a/b", 96),
        file("/a/b/bif.txt", 75),
    ]);
    assert_eq!(
        report_of(&mut visitor),
        ": 0 files, 1 directories, 96 bytes\n  a: 2 files, 1 directories, 346 bytes\n    b: 1 files, 0 directories, 75 bytes\n"
    );
}

#[test]
fn recap_lists_children_in_the_order_they_were_made() {
    let mut visitor = visit_all(&[dir("/z", 1), dir("/m", 2), dir("/z/k", 3), dir("/a", 4)]);
    assert_eq!(
        report_of(&mut visitor),
        ": 0 files, 3 directories, 7 bytes\n  z: 0 files, 1 directories, 3 bytes\n    k: 0 files, 0 directories, 0 bytes\n  m: 0 files, 0 directories, 0 bytes\n  a: 0 files, 0 directories, 0 bytes\n"
    );
}

#[test]
fn recap_keeps_names_that_are_not_ascii() {
    let mut visitor = visit_all(&[dir("/été", 5)]);
    assert_eq!(
        report_of(&mut visitor),
        ": 0 files, 1 directories, 5 bytes\n  été: 0 files, 0 directories, 0 bytes\n"
    );
}

#[test]
fn files_are_counted_and_not_made_directories() {
    let visitor = visit_all(&[file("/only.txt", 7)]);
    assert_eq!(visitor.root().child_files(), 1);
    assert_eq!(visitor.root().child_dirs(), 0);
    assert_eq!(visitor.root().total_size(), 7);
    assert!(visitor.root().child("only.txt").is_none());
}

#[test]
fn a_directory_starts_with_nothing_counted() {
    let visitor = visit_all(&[dir("/d", 4096)]);
    let d = visitor.root().child("d").unwrap();
    assert_eq!(d.child_files(), 0);
    assert_eq!(d.child_dirs(), 0);
    assert_eq!(d.total_size(), 0);
    assert_eq!(visitor.root().child_dirs(), 1);
    assert_eq!(visitor.root().total_size(), 4096);
}

#[test]
fn segments_on_the_way_become_directories_without_being_counted() {
    let visitor = visit_all(&[file("/x/y/z.txt", 9)]);
    assert_eq!(visitor.root().child_files(), 0);
    assert_eq!(visitor.root().child_dirs(), 0);
    assert_eq!(visitor.root().total_size(), 0);
    let x = visitor.root().child("x").unwrap();
    assert_eq!(x.child_dirs(), 0);
    assert_eq!(x.total_size(), 0);
    let y = x.child("y").unwrap();
    assert_eq!(y.child_files(), 1);
    assert_eq!(y.total_size(), 9);
    assert!(y.child("z.txt").is_none());
}

#[test]
fn aggregates_are_of_immediate_children_only() {
    let visitor = visit_all(&[
        dir("/a", 10),
        dir("/a/b", 20),
        file("/a/b/deep.bin", 1000),
        file("/a/near.bin", 3),
    ]);
    let a = visitor.root().child("a").unwrap();
    assert_eq!(a.total_size(), 23);
    assert_eq!(a.child_files(), 1);
    assert_eq!(a.child_dirs(), 1);
    assert_eq!(a.child("b").unwrap().total_size(), 1000);
    assert_eq!(visitor.root().total_size(), 10);
}

#[test]
fn every_file_is_counted_in_exactly_one_directory() {
    let visitor = visit_all(&[
        dir("/a", 1),
        file("/a/1", 1),
        file("/a/2", 1),
        dir("/a/b", 1),
        file("/a/b/3", 1),
        file("/4", 1),
    ]);
    let root = visitor.root();
    let a = root.child("a").unwrap();
    let b = a.child("b").unwrap();
    assert_eq!(root.child_files() + a.child_files() + b.child_files(), 4);
}

#[test]
fn the_order_of_visits_does_not_change_the_aggregates() {
    let first = visit_all(&[
        dir("/a", 96),
        file("/a/foo.txt", 100),
        dir("/a/b", 96),
        file("/a/b/bif.txt", 75),
        file("/a/bar.txt", 150),
    ]);
    let second = visit_all(&[
        dir("/a", 96),
        dir("/a/b", 96),
        file("/a/bar.txt", 150),
        file("/a/b/bif.txt", 75),
        file("/a/foo.txt", 100),
    ]);
    for visitor in [&first, &second] {
        let root = visitor.root();
        assert_eq!((root.child_files(), root.child_dirs(), root.total_size()), (0, 1, 96));
        let a = root.child("a").unwrap();
        assert_eq!((a.child_files(), a.child_dirs(), a.total_size()), (2, 1, 346));
        let b = a.child("b").unwrap();
        assert_eq!((b.child_files(), b.child_dirs(), b.total_size()), (1, 0, 75));
    }
}

#[test]
fn a_directory_visited_after_what_it_holds_is_not_counted() {
    let visitor = visit_all(&[file("/a/b", 5), dir("/a", 96)]);
    assert_eq!(visitor.root().child_dirs(), 0);
    assert_eq!(visitor.root().total_size(), 0);
    assert_eq!(visitor.root().child("a").unwrap().child_files(), 1);
}

#[test]
fn a_file_visited_twice_is_counted_twice() {
    let visitor = visit_all(&[file("/f", 5), file("/f", 5)]);
    assert_eq!(visitor.root().child_files(), 2);
    assert_eq!(visitor.root().total_size(), 10);
}

#[test]
fn a_directory_visited_twice_is_counted_once() {
    let visitor = visit_all(&[dir("/d", 5), dir("/d", 5)]);
    assert_eq!(visitor.root().child_dirs(), 1);
    assert_eq!(visitor.root().total_size(), 5);
}

#[test]
fn a_symlinked_directory_is_counted_as_a_directory() {
    let link = ResourceMetadata::new(&"/link".to_string(), true, true, 0, 12, false);
    let visitor = visit_all(&[link]);
    assert_eq!(visitor.root().child_dirs(), 1);
    assert_eq!(visitor.root().child_files(), 0);
    assert_eq!(visitor.root().total_size(), 12);
    let node = visitor.root().child("link").unwrap();
    assert_eq!((node.child_files(), node.child_dirs(), node.total_size()), (0, 0, 0));
}

#[test]
fn a_path_without_segments_is_one_top_level_entry() {
    for path in ["", "/", "///"] {
        let visitor = visit_all(&[file(path, 3)]);
        assert_eq!(visitor.root().child_files(), 1);
        assert_eq!(visitor.root().total_size(), 3);
        let visitor = visit_all(&[dir(path, 4)]);
        assert_eq!(visitor.root().child_dirs(), 1);
        assert_eq!(visitor.root().child("").unwrap().name(), "");
    }
}

#[test]
fn split_path_keeps_the_segments_that_have_a_name() {
    assert_eq!(split_path("/a/b"), vec!["a", "b"]);
    assert_eq!(split_path("a/b"), vec!["a", "b"]);
    assert_eq!(split_path("/a//b/"), vec!["a", "b"]);
    assert_eq!(split_path("//a"), vec!["a"]);
    assert_eq!(split_path("/a/foo.txt"), vec!["a", "foo.txt"]);
    assert_eq!(split_path("/é/ü"), vec!["é", "ü"]);
    assert_eq!(split_path(""), vec![""]);
    assert_eq!(split_path("/"), vec![""]);
    assert_eq!(split_path("//"), vec![""]);
}

#[test]
fn can_visit_refuses_what_would_overflow() {
    let mut visitor = DirectoryAnalyzerVisitor::new();
    let mut sink = Vec::new();
    let big = file("/big", u64::MAX);
    assert!(visitor.can_visit(&big));
    visitor.visit(&big, &mut sink);
    assert_eq!(visitor.root().total_size(), u64::MAX);
    assert!(!visitor.can_visit(&file("/one", 1)));
    assert!(!visitor.can_visit(&dir("/dir", 1)));
    assert!(visitor.can_visit(&file("/none", 0)));
    assert!(visitor.can_visit(&file("/sub/one", 1)));
    assert!(visitor.can_visit(&dir("/sub", 0)));
}

#[test]
fn push_decimal_writes_base_ten() {
    for (n, text) in [
        (0u64, "0"),
        (7, "7"),
        (10, "10"),
        (96, "96"),
        (346, "346"),
        (1000, "1000"),
        (u64::MAX, "18446744073709551615"),
    ] {
        let mut out = String::from("n=");
        push_decimal(&mut out, n);
        assert_eq!(out, format!("n={}", text));
    }
}

#[test]
fn push_indent_writes_two_spaces_for_each_level() {
    let mut out = String::from("|");
    push_indent(&mut out, 0);
    assert_eq!(out, "|");
    push_indent(&mut out, 3);
    assert_eq!(out, "|      ");
}

#[test]
fn metadata_keeps_what_it_was_made_with() {
    let metadata = ResourceMetadata::new(&"/p/q".to_string(), true, true, 42, 4096, true);
    assert_eq!(metadata.get_path(), "/p/q");
    assert!(metadata.is_dir());
    assert!(!metadata.is_file());
    assert!(metadata.is_symlink());
    assert_eq!(metadata.inode(), 42);
    assert_eq!(metadata.size_bytes(), 4096);
    assert!(metadata.is_hidden());
    assert_eq!(metadata.modified_time(), None);
    let metadata = metadata.with_modified_time(1_700_000_000);
    assert_eq!(metadata.modified_time(), Some(1_700_000_000));
    assert_eq!(metadata.get_path(), "/p/q");
    assert_eq!(metadata.size_bytes(), 4096);
    assert!(file("/f", 1).is_file());
}

#[test]
fn recap_recursive_reports_a_subtree_at_its_depth() {
    let visitor = visit_all(&[dir("/a", 1), dir("/a/b", 2), file("/a/b/f", 3)]);
    let a = visitor.root().child("a").unwrap();
    let mut out = String::from(">\n");
    visitor.recap_recursive(&mut out, a, 2);
    assert_eq!(
        out,
        ">\n    a: 0 files, 1 directories, 2 bytes\n      b: 1 files, 0 directories, 3 bytes\n"
    );
}
