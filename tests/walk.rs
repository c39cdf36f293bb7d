use dirwalk::model::{DirEntryType, Listed};
use dirwalk::walk::{Error, WalkDirectories};

const RESERVED: &str = ".fstore";

fn file(name: &str) -> Listed {
    Listed { name: name.to_string(), kind: Some(DirEntryType::File) }
}

fn dir(name: &str) -> Listed {
    Listed { name: name.to_string(), kind: Some(DirEntryType::Dir) }
}

fn unknown(name: &str) -> Listed {
    Listed { name: name.to_string(), kind: None }
}

fn walker() -> WalkDirectories {
    WalkDirectories::from("root".to_string(), true, RESERVED.to_string()).unwrap()
}

fn path_of(w: &WalkDirectories) -> Vec<String> {
    w.path_components().to_vec()
}

fn strings(v: &[&str]) -> Vec<String> {
    v.iter().map(|s| s.to_string()).collect()
}

#[test]
fn example_tree_walk() {
    let mut w = walker();
    assert_eq!(w.advance(), Some(1));
    assert_eq!(w.root(), "root");
    assert_eq!(path_of(&w), strings(&[""]));
    let files = w.expand(&[file("a.txt"), dir("sub1"), file(RESERVED), dir("sub2")]);
    assert_eq!(files, strings(&["a.txt"]));

    assert_eq!(w.advance(), Some(2));
    assert_eq!(path_of(&w), strings(&["", "sub1"]));
    assert_eq!(w.expand(&[]), Vec::<String>::new());

    assert_eq!(w.advance(), Some(2));
    assert_eq!(path_of(&w), strings(&["", "sub2"]));
    assert_eq!(w.expand(&[file("b.txt")]), strings(&["b.txt"]));

    assert_eq!(w.advance(), None);
    assert_eq!(w.advance(), None);
}

#[test]
fn end_of_walk_is_absorbing() {
    let mut w = walker();
    assert_eq!(w.advance(), Some(1));
    assert_eq!(w.expand(&[file("x")]), strings(&["x"]));
    for _ in 0..5 {
        assert_eq!(w.advance(), None);
        assert_eq!(w.expand(&[file("y"), dir("d")]), Vec::<String>::new());
        assert!(w.pending().is_empty());
    }
}

#[test]
fn non_directory_root_is_rejected() {
    let r = WalkDirectories::from("root/file.txt".to_string(), false, RESERVED.to_string());
    assert_eq!(r.err(), Some(Error::InvalidPath("root/file.txt".to_string())));
}

#[test]
fn root_starts_at_depth_zero_with_one_pending_entry() {
    let w = walker();
    assert_eq!(w.depth(), 0);
    assert_eq!(w.reserved(), RESERVED);
    let p = w.pending();
    assert_eq!(p.len(), 1);
    assert_eq!(p[0].name(), "");
    assert_eq!(p[0].depth(), 1);
    assert_eq!(p[0].entry_type(), DirEntryType::Dir);
}

#[test]
fn depth_grows_by_one_per_level() {
    let mut w = walker();
    assert_eq!(w.advance(), Some(1));
    w.expand(&[dir("a")]);
    assert_eq!(w.advance(), Some(2));
    assert_eq!(w.depth(), 2);
    w.expand(&[dir("b")]);
    assert_eq!(w.advance(), Some(3));
    w.expand(&[dir("c"), file("f")]);
    assert_eq!(w.advance(), Some(4));
    assert_eq!(path_of(&w), strings(&["", "a", "b", "c"]));
    assert_eq!(w.expand(&[file("deep")]), strings(&["deep"]));
    assert_eq!(w.advance(), None);
}

#[test]
fn ascends_back_to_sibling_after_deep_branch() {
    let mut w = walker();
    w.advance();
    w.expand(&[dir("a"), dir("z")]);
    assert_eq!(w.advance(), Some(2));
    w.expand(&[dir("b")]);
    assert_eq!(w.advance(), Some(3));
    assert_eq!(path_of(&w), strings(&["", "a", "b"]));
    w.expand(&[]);
    assert_eq!(w.advance(), Some(2));
    assert_eq!(path_of(&w), strings(&["", "z"]));
    assert_eq!(w.depth(), 2);
}

#[test]
fn reserved_name_is_never_reported_nor_visited() {
    let mut w = walker();
    w.advance();
    let files = w.expand(&[dir(RESERVED), file("k"), file(RESERVED)]);
    assert_eq!(files, strings(&["k"]));
    assert!(w.pending().iter().all(|e| e.name() != RESERVED));
    assert_eq!(w.advance(), None);
}

#[test]
fn entry_of_unknown_kind_is_skipped() {
    let mut w = walker();
    w.advance();
    let files = w.expand(&[unknown("link"), file("f"), unknown("sock")]);
    assert_eq!(files, strings(&["f"]));
    assert_eq!(w.pending().len(), 1);
    assert_eq!(w.advance(), None);
}

#[test]
fn unreadable_subdirectory_is_visited_empty_and_siblings_follow() {
    let mut w = walker();
    w.advance();
    w.expand(&[dir("locked"), dir("open")]);
    assert_eq!(w.advance(), Some(2));
    assert_eq!(path_of(&w), strings(&["", "locked"]));
    assert_eq!(w.expand(&[]), Vec::<String>::new());
    assert_eq!(w.advance(), Some(2));
    assert_eq!(path_of(&w), strings(&["", "open"]));
    assert_eq!(w.expand(&[file("ok")]), strings(&["ok"]));
}

#[test]
fn files_keep_listing_order_and_sit_above_subdirectories() {
    let mut w = walker();
    w.advance();
    let files = w.expand(&[file("z"), dir("d1"), file("a"), dir("d2"), file("m")]);
    assert_eq!(files, strings(&["z", "a", "m"]));
    let p = w.pending();
    let kinds: Vec<DirEntryType> = p.iter().map(|e| e.entry_type()).collect();
    assert_eq!(
        kinds,
        vec![DirEntryType::Dir, DirEntryType::Dir, DirEntryType::File, DirEntryType::File, DirEntryType::File]
    );
    let names: Vec<&str> = p.iter().map(|e| e.name()).collect();
    assert_eq!(names, vec!["d2", "d1", "z", "a", "m"]);
    assert!(p.iter().all(|e| e.depth() == 2));
}

#[test]
fn expand_without_pending_visit_changes_nothing() {
    let mut w = walker();
    assert_eq!(w.expand(&[file("early")]), Vec::<String>::new());
    assert_eq!(w.pending().len(), 1);
    assert_eq!(w.advance(), Some(1));
    w.expand(&[file("a")]);
    assert_eq!(w.expand(&[file("again"), dir("d")]), Vec::<String>::new());
    assert_eq!(w.advance(), None);
}

#[test]
fn is_dir_discriminates_kinds() {
    assert!(DirEntryType::Dir.is_dir());
    assert!(!DirEntryType::File.is_dir());
}
