use parsync::inventory::{EntryKind, Inventory, InventoryError};
use parsync::path::{FileName, UnixPath};
use parsync::source::{inventory_source, RootStatus, Scan};
use parsync::tree::{Listing, TreeRequest};

/// A directory tree held in memory: paths below `/src`, each with what is there.
struct Tree {
    entries: Vec<(&'static str, EntryKind)>,
}

impl Tree {
    fn kind(&self, path: &str) -> EntryKind {
        for (name, kind) in &self.entries {
            if path == format!("/src/{name}") {
                return *kind;
            }
        }
        EntryKind::Missing
    }

    fn names(&self, dir: &str) -> Vec<FileName> {
        let mut out = Vec::new();
        for (name, _) in &self.entries {
            let full = format!("/src/{name}");
            if let Some(rest) = full.strip_prefix(&format!("{dir}/")) {
                if !rest.contains('/') {
                    out.push(FileName { bytes: rest.as_bytes().to_vec() });
                }
            }
        }
        out
    }
}

fn text(path: &UnixPath) -> String {
    String::from_utf8(path.bytes.clone()).unwrap()
}

fn texts(paths: &[UnixPath]) -> Vec<String> {
    paths.iter().map(text).collect()
}

fn take_inventory(
    tree: &Tree,
    selected: Option<Vec<String>>,
) -> Result<Inventory, InventoryError> {
    let root = RootStatus::Directory(UnixPath::from_text("/src"));
    match inventory_source("src", root, selected)? {
        Scan::Manifest(mut scan) => {
            while let Some(path) = scan.request()? {
                scan.answer(tree.kind(&text(&path)))?;
            }
            Ok(scan.finish())
        }
        Scan::Tree(mut scan) => loop {
            match scan.request() {
                TreeRequest::List(dir) => scan.list(Listing::Names(tree.names(&text(&dir))))?,
                TreeRequest::Look(path) => scan.answer(tree.kind(&text(&path)))?,
                TreeRequest::Finished => return scan.finish(),
            }
        },
    }
}

fn refused(entries: Vec<(&'static str, EntryKind)>, selected: Option<Vec<&str>>) -> String {
    let selected = selected.map(|list| list.iter().map(|s| s.to_string()).collect());
    match take_inventory(&Tree { entries }, selected) {
        Ok(_) => panic!("the inventory was taken"),
        Err(e) => e.message(),
    }
}

fn size_of(content: &str) -> EntryKind {
    EntryKind::File(content.len() as u64)
}

#[test]
fn test_inventory_source_full() {
    let tree = Tree {
        entries: vec![
            ("sub", EntryKind::Directory),
            ("a.txt", size_of("hello")),
            ("sub/b.txt", size_of("world!")),
        ],
    };
    let inventory = take_inventory(&tree, None).unwrap();
    assert_eq!(inventory.directories.len(), 1);
    assert_eq!(text(&inventory.directories[0]), "sub");
    assert_eq!(inventory.files.len(), 2);
    assert_eq!(inventory.total_bytes, 11);
}

#[test]
fn test_inventory_source_selected_manifest() {
    let tree = Tree {
        entries: vec![
            ("nested", EntryKind::Directory),
            ("a.txt", size_of("12345")),
            ("b.txt", size_of("ignored")),
            ("nested/c.txt", size_of("67890")),
        ],
    };
    let manifest = vec!["a.txt".to_string(), "nested/c.txt".to_string()];
    let inventory = take_inventory(&tree, Some(manifest)).unwrap();
    assert_eq!(texts(&inventory.directories), vec!["nested"]);
    assert_eq!(inventory.files.len(), 2);
    assert_eq!(inventory.total_bytes, 10);
}

#[test]
fn test_inventory_rejects_parent_traversal() {
    let tree = Tree { entries: vec![("a.txt", size_of("12345"))] };
    let manifest = vec!["../a.txt".to_string()];
    assert!(take_inventory(&tree, Some(manifest)).is_err());
}

#[test]
fn walk_goes_by_name_and_into_each_directory_at_once() {
    let tree = Tree {
        entries: vec![
            ("z", EntryKind::File(1)),
            ("b", EntryKind::Directory),
            ("b/y", EntryKind::File(2)),
            ("b/deep", EntryKind::Directory),
            ("b/deep/x", EntryKind::File(4)),
            ("a", EntryKind::Directory),
            ("B", EntryKind::File(8)),
        ],
    };
    let inventory = take_inventory(&tree, None).unwrap();
    let relative: Vec<String> = inventory.files.iter().map(|f| text(&f.relative_path)).collect();
    let local: Vec<String> = inventory.files.iter().map(|f| text(&f.local_path)).collect();
    assert_eq!(relative, vec!["B", "b/deep/x", "b/y", "z"]);
    assert_eq!(local, vec!["/src/B", "/src/b/deep/x", "/src/b/y", "/src/z"]);
    assert_eq!(texts(&inventory.directories), vec!["a", "b", "b/deep"]);
    assert_eq!(inventory.total_bytes, 15);
}

#[test]
fn walk_lays_directories_out_by_depth() {
    let tree = Tree {
        entries: vec![
            ("a", EntryKind::Directory),
            ("a/b", EntryKind::Directory),
            ("a/b/f", EntryKind::File(0)),
            ("c", EntryKind::Directory),
        ],
    };
    let inventory = take_inventory(&tree, None).unwrap();
    assert_eq!(texts(&inventory.directories), vec!["a", "c", "a/b"]);
    assert_eq!(inventory.total_bytes, 0);
}

#[test]
fn walk_asks_in_order() {
    let root = RootStatus::Directory(UnixPath::from_text("/src"));
    let scan = inventory_source("src", root, None).unwrap();
    let Scan::Tree(mut scan) = scan else { panic!("no tree scan") };
    match scan.request() {
        TreeRequest::List(dir) => assert_eq!(text(&dir), "/src"),
        other => panic!("{other:?}"),
    }
    let names = vec![FileName { bytes: b"two".to_vec() }, FileName { bytes: b"one".to_vec() }];
    scan.list(Listing::Names(names)).unwrap();
    match scan.request() {
        TreeRequest::Look(path) => assert_eq!(text(&path), "/src/one"),
        other => panic!("{other:?}"),
    }
    scan.answer(EntryKind::Directory).unwrap();
    match scan.request() {
        TreeRequest::List(dir) => assert_eq!(text(&dir), "/src/one"),
        other => panic!("{other:?}"),
    }
    scan.list(Listing::Names(Vec::new())).unwrap();
    match scan.request() {
        TreeRequest::Look(path) => assert_eq!(text(&path), "/src/two"),
        other => panic!("{other:?}"),
    }
    scan.answer(EntryKind::File(7)).unwrap();
    assert_eq!(scan.total_bytes(), 7);
    assert!(matches!(scan.request(), TreeRequest::Finished));
    assert_eq!(scan.finish().unwrap().files.len(), 1);
}

#[test]
fn listing_order_makes_no_difference() {
    let forward = vec![("a", EntryKind::File(1)), ("b", EntryKind::File(2)), ("c", EntryKind::File(3))];
    let mut backward = forward.clone();
    backward.reverse();
    let one = take_inventory(&Tree { entries: forward }, None).unwrap();
    let two = take_inventory(&Tree { entries: backward }, None).unwrap();
    let names = |inventory: &Inventory| -> Vec<String> {
        inventory.files.iter().map(|f| text(&f.relative_path)).collect()
    };
    assert_eq!(names(&one), vec!["a", "b", "c"]);
    assert_eq!(names(&one), names(&two));
}

#[test]
fn walk_refuses_links_and_other_entries() {
    assert_eq!(
        refused(vec![("l", EntryKind::Symlink)], None),
        "prototype does not support symlinks: /src/l"
    );
    assert_eq!(
        refused(vec![("pipe", EntryKind::Other)], None),
        "prototype only supports regular files and directories: /src/pipe"
    );
    assert_eq!(refused(vec![("gone", EntryKind::Missing)], None), "stat path: /src/gone");
}

#[test]
fn walk_refuses_a_source_without_files() {
    assert_eq!(refused(vec![], None), "source has no regular files to transfer");
    assert_eq!(
        refused(vec![("empty", EntryKind::Directory)], None),
        "source has no regular files to transfer"
    );
}

#[test]
fn walk_reports_unreadable_directories() {
    for (listing, expected) in [
        (Listing::Unreadable, "read directory: /src"),
        (Listing::BrokenEntry, "read dir entry: /src"),
    ] {
        let root = RootStatus::Directory(UnixPath::from_text("/src"));
        let Ok(Scan::Tree(mut scan)) = inventory_source("src", root, None) else {
            panic!("no tree scan")
        };
        assert_eq!(scan.list(listing).unwrap_err().message(), expected);
    }
}

#[test]
fn root_must_be_a_directory() {
    let missing = inventory_source("no/such", RootStatus::Missing, None);
    match missing {
        Err(e) => assert_eq!(e.message(), "source path not found: no/such"),
        Ok(_) => panic!("accepted"),
    }
    let file = RootStatus::NotDirectory(UnixPath::from_text("/home/file"));
    match inventory_source("file", file, Some(Vec::new())) {
        Err(e) => assert_eq!(e.message(), "source is not a directory: /home/file"),
        Ok(_) => panic!("accepted"),
    }
}

#[test]
fn bytes_that_are_no_text_are_replaced_in_messages() {
    let path = UnixPath { bytes: vec![b'/', b'a', 0xff, b'b'] };
    match inventory_source("x", RootStatus::NotDirectory(path), None) {
        Err(e) => assert_eq!(e.message(), "source is not a directory: /a\u{fffd}b"),
        Ok(_) => panic!("accepted"),
    }
}

#[test]
fn manifest_must_name_something() {
    assert_eq!(refused(vec![], Some(vec![])), "selected file manifest is empty");
}

#[test]
fn manifest_entries_must_lead_down() {
    for entry in ["/etc/passwd", "..", "a/../b", "/", "a/.."] {
        assert_eq!(
            refused(vec![("b", EntryKind::File(1))], Some(vec![entry])),
            format!("selected file must be a safe relative path: {entry}")
        );
    }
}

#[test]
fn manifest_entries_must_differ() {
    let entries = vec![("a", EntryKind::File(1)), ("b", EntryKind::File(1))];
    assert_eq!(
        refused(entries, Some(vec!["a", "b", "a"])),
        "duplicate selected file in manifest: a"
    );
}

#[test]
fn manifest_entries_are_told_apart_by_their_text() {
    let manifest = vec!["d/a".to_string(), "d//a".to_string()];
    let root = RootStatus::Directory(UnixPath::from_text("/src"));
    let Ok(Scan::Manifest(mut scan)) = inventory_source("src", root, Some(manifest)) else {
        panic!("no manifest scan")
    };
    while let Some(_) = scan.request().unwrap() {
        scan.answer(EntryKind::File(3)).unwrap();
    }
    assert_eq!(scan.total_bytes(), 6);
    let inventory = scan.finish();
    assert_eq!(inventory.files.len(), 2);
    assert_eq!(texts(&inventory.directories), vec!["d"]);
}

#[test]
fn manifest_refuses_what_is_no_regular_file() {
    assert_eq!(refused(vec![], Some(vec!["a"])), "selected file not found: /src/a");
    assert_eq!(
        refused(vec![("a", EntryKind::Symlink)], Some(vec!["a"])),
        "prototype does not support symlinks: /src/a"
    );
    assert_eq!(
        refused(vec![("a", EntryKind::Directory)], Some(vec!["a"])),
        "prototype only supports regular files: /src/a"
    );
    assert_eq!(
        refused(vec![("a", EntryKind::Other)], Some(vec!["a"])),
        "prototype only supports regular files: /src/a"
    );
}

#[test]
fn manifest_collects_every_directory_above_a_file() {
    let tree = Tree {
        entries: vec![
            ("x/y/z/f", EntryKind::File(1)),
            ("x/g", EntryKind::File(2)),
            ("h", EntryKind::File(4)),
        ],
    };
    let manifest = vec!["x/y/z/f".to_string(), "x/g".to_string(), "h".to_string()];
    let inventory = take_inventory(&tree, Some(manifest)).unwrap();
    assert_eq!(texts(&inventory.directories), vec!["x", "x/y", "x/y/z"]);
    let relative: Vec<String> = inventory.files.iter().map(|f| text(&f.relative_path)).collect();
    assert_eq!(relative, vec!["x/y/z/f", "x/g", "h"]);
    let local: Vec<String> = inventory.files.iter().map(|f| text(&f.local_path)).collect();
    assert_eq!(local, vec!["/src/x/y/z/f", "/src/x/g", "/src/h"]);
    assert_eq!(inventory.total_bytes, 7);
}

#[test]
fn a_manifest_of_all_files_agrees_with_the_walk() {
    let tree = Tree {
        entries: vec![
            ("a", EntryKind::Directory),
            ("a/x", EntryKind::File(1)),
            ("a/deep", EntryKind::Directory),
            ("a/deep/y", EntryKind::File(2)),
            ("empty", EntryKind::Directory),
            ("empty/inner", EntryKind::Directory),
            ("z", EntryKind::File(4)),
        ],
    };
    let whole = take_inventory(&tree, None).unwrap();
    let mut selected: Vec<String> = whole.files.iter().map(|f| text(&f.relative_path)).collect();
    assert_eq!(selected, vec!["a/deep/y", "a/x", "z"]);
    selected.reverse();
    let listed = take_inventory(&tree, Some(selected.clone())).unwrap();
    let names: Vec<String> = listed.files.iter().map(|f| text(&f.relative_path)).collect();
    assert_eq!(names, selected);
    for file in &listed.files {
        assert!(whole
            .files
            .iter()
            .any(|f| f.relative_path.bytes == file.relative_path.bytes
                && f.local_path.bytes == file.local_path.bytes));
    }
    assert_eq!(listed.total_bytes, whole.total_bytes);
    assert_eq!(texts(&whole.directories), vec!["a", "empty", "a/deep", "empty/inner"]);
    assert_eq!(texts(&listed.directories), vec!["a", "a/deep"]);
}

#[test]
fn walk_keeps_the_order_of_paths_not_of_texts() {
    let tree = Tree {
        entries: vec![
            ("a.b", EntryKind::File(1)),
            ("a", EntryKind::Directory),
            ("a/z", EntryKind::File(1)),
        ],
    };
    let inventory = take_inventory(&tree, None).unwrap();
    let names: Vec<String> = inventory.files.iter().map(|f| text(&f.relative_path)).collect();
    assert_eq!(names, vec!["a/z", "a.b"]);
    assert!(std::path::Path::new("a/z") < std::path::Path::new("a.b"));
}
