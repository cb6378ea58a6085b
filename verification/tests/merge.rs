use modtree::node::{ModuleFile, Node, NodeFileType};
use modtree::try_umount::send_unmountable;

fn entry(
    real: &str,
    path: &[&str],
    file_type: NodeFileType,
    is_whiteout: bool,
    is_replace: bool,
) -> ModuleFile {
    ModuleFile {
        real_path: real.to_string(),
        relative_path: path.iter().map(|s| s.to_string()).collect(),
        file_type,
        is_whiteout,
        is_replace,
    }
}

fn child<'a>(node: &'a Node, name: &str) -> &'a Node {
    node.children
        .iter()
        .find(|c| c.name == name)
        .unwrap_or_else(|| panic!("no child named {}", name))
}

fn assert_no_skip(node: &Node) {
    assert!(!node.skip);
    for c in &node.children {
        assert_no_skip(c);
    }
}

#[test]
fn new_root_invariant() {
    let root = Node::new_root("root");
    assert_eq!(root.name, "root");
    assert_eq!(root.file_type, NodeFileType::Directory);
    assert!(root.source_path.is_none());
    assert!(root.children.is_empty());
    assert!(!root.replace);
    assert!(!root.skip);
}

#[test]
fn from_physical_collapses_to_regular_file() {
    assert_eq!(
        NodeFileType::from_physical(true, false),
        NodeFileType::Directory
    );
    assert_eq!(
        NodeFileType::from_physical(false, true),
        NodeFileType::Symlink
    );
    assert_eq!(
        NodeFileType::from_physical(false, false),
        NodeFileType::RegularFile
    );
    // A directory wins over the symlink bit, as the classifier checks it first.
    assert_eq!(
        NodeFileType::from_physical(true, true),
        NodeFileType::Directory
    );
}

#[test]
fn last_wins_content_over_whiteout() {
    let mut root = Node::new_root("");
    root.add_module_file(entry("", &["p"], NodeFileType::RegularFile, true, false));
    root.add_module_file(entry(
        "/mods/b/p",
        &["p"],
        NodeFileType::RegularFile,
        false,
        false,
    ));
    let p = child(&root, "p");
    assert_eq!(p.file_type, NodeFileType::RegularFile);
    assert_eq!(p.source_path.as_deref(), Some("/mods/b/p"));
}

#[test]
fn last_wins_whiteout_over_content() {
    let mut root = Node::new_root("");
    root.add_module_file(entry(
        "/mods/a/p",
        &["p"],
        NodeFileType::RegularFile,
        false,
        false,
    ));
    root.add_module_file(entry("", &["p"], NodeFileType::RegularFile, true, false));
    let p = child(&root, "p");
    assert_eq!(p.file_type, NodeFileType::Whiteout);
    // A whiteout leaves the earlier content reference in place, meaningless
    // but uncleared.
    assert_eq!(p.source_path.as_deref(), Some("/mods/a/p"));
}

#[test]
fn replace_is_monotonic_across_interleavings() {
    let mut root = Node::new_root("");
    root.add_module_file(entry("/a/p", &["p"], NodeFileType::RegularFile, false, false));
    root.add_module_file(entry("/b/p", &["p"], NodeFileType::RegularFile, false, true));
    root.add_module_file(entry("/c/p", &["p"], NodeFileType::RegularFile, false, false));
    assert!(child(&root, "p").replace);

    let mut quiet = Node::new_root("");
    quiet.add_module_file(entry("/a/q", &["q"], NodeFileType::RegularFile, false, false));
    quiet.add_module_file(entry("/b/q", &["q"], NodeFileType::RegularFile, false, false));
    assert!(!child(&quiet, "q").replace);
}

#[test]
fn replace_survives_later_whiteout() {
    let mut root = Node::new_root("");
    root.add_module_file(entry("/a/p", &["p"], NodeFileType::Directory, false, true));
    root.add_module_file(entry("", &["p"], NodeFileType::RegularFile, true, false));
    let p = child(&root, "p");
    assert_eq!(p.file_type, NodeFileType::Whiteout);
    assert!(p.replace);
}

#[test]
fn intermediate_directories_materialize() {
    let mut root = Node::new_root("");
    root.add_module_file(entry(
        "/mods/a/a/b/c",
        &["a", "b", "c"],
        NodeFileType::RegularFile,
        false,
        false,
    ));
    let a = child(&root, "a");
    assert_eq!(a.file_type, NodeFileType::Directory);
    assert!(a.source_path.is_none());
    assert!(!a.replace);
    let b = child(a, "b");
    assert_eq!(b.file_type, NodeFileType::Directory);
    assert!(b.source_path.is_none());
    let c = child(b, "c");
    assert_eq!(c.file_type, NodeFileType::RegularFile);
    assert_eq!(c.source_path.as_deref(), Some("/mods/a/a/b/c"));
}

#[test]
fn whiteout_keeps_stale_children() {
    let mut root = Node::new_root("");
    // Module A contributes directory "x" with child "x/y".
    root.add_module_file(entry("/mods/a/x", &["x"], NodeFileType::Directory, false, false));
    root.add_module_file(entry(
        "/mods/a/x/y",
        &["x", "y"],
        NodeFileType::RegularFile,
        false,
        false,
    ));
    // Module B whites out "x" only.
    root.add_module_file(entry("", &["x"], NodeFileType::RegularFile, true, false));
    let x = child(&root, "x");
    assert_eq!(x.file_type, NodeFileType::Whiteout);
    // The stale child stays attached: children are never cleared on a type
    // change.
    let y = child(x, "y");
    assert_eq!(y.file_type, NodeFileType::RegularFile);
}

#[test]
fn non_directory_is_descended_into_unchanged() {
    let mut root = Node::new_root("");
    root.add_module_file(entry(
        "/mods/a/p",
        &["p"],
        NodeFileType::RegularFile,
        false,
        false,
    ));
    root.add_module_file(entry(
        "/mods/b/p/q",
        &["p", "q"],
        NodeFileType::RegularFile,
        false,
        false,
    ));
    let p = child(&root, "p");
    // "p" keeps its own kind yet gains the child, with no validation error.
    assert_eq!(p.file_type, NodeFileType::RegularFile);
    assert_eq!(p.source_path.as_deref(), Some("/mods/a/p"));
    let q = child(p, "q");
    assert_eq!(q.file_type, NodeFileType::RegularFile);
    assert_eq!(q.source_path.as_deref(), Some("/mods/b/p/q"));
}

#[test]
fn skip_stays_unset_through_merges() {
    let mut root = Node::new_root("");
    root.add_module_file(entry("/a/x", &["x"], NodeFileType::Directory, false, true));
    root.add_module_file(entry(
        "/a/x/y",
        &["x", "y"],
        NodeFileType::Symlink,
        false,
        false,
    ));
    root.add_module_file(entry("", &["x", "y"], NodeFileType::RegularFile, true, false));
    root.add_module_file(entry(
        "/b/a/b/c",
        &["a", "b", "c"],
        NodeFileType::RegularFile,
        false,
        false,
    ));
    assert_no_skip(&root);
}

#[test]
fn empty_relative_path_is_a_no_op() {
    let mut root = Node::new_root("");
    root.add_module_file(entry("/mods/a", &[], NodeFileType::Directory, false, true));
    assert!(root.children.is_empty());
    assert_eq!(root.file_type, NodeFileType::Directory);
    assert!(!root.replace);
}

#[test]
fn whiteout_creates_node_without_content() {
    let mut root = Node::new_root("");
    root.add_module_file(entry("", &["gone"], NodeFileType::RegularFile, true, false));
    let gone = child(&root, "gone");
    assert_eq!(gone.file_type, NodeFileType::Whiteout);
    assert!(gone.source_path.is_none());
    assert!(gone.children.is_empty());
}

#[test]
fn sibling_names_stay_unique() {
    let mut root = Node::new_root("");
    root.add_module_file(entry("/a/p", &["p"], NodeFileType::RegularFile, false, false));
    root.add_module_file(entry("/b/p", &["p"], NodeFileType::Directory, false, false));
    root.add_module_file(entry("/b/q", &["q"], NodeFileType::RegularFile, false, false));
    assert_eq!(root.children.len(), 2);
    assert_eq!(child(&root, "p").file_type, NodeFileType::Directory);
    assert_eq!(child(&root, "p").source_path.as_deref(), Some("/b/p"));
}

#[test]
fn unmount_marker_succeeds_for_any_path() {
    send_unmountable("/no/such/mount/point");
    send_unmountable("");
}
