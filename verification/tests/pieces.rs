use dir_stat::file_size::file_size;
use dir_stat::paths::parent_of;
use dir_stat::process_directory::process_directory;
use dir_stat::records::PathMap;
use dir_stat::types::{DirectoryEntry, EntryKind, NodeResult, NodeType};

fn entry(path: &str, inode: u64, kind: EntryKind, size: u128) -> DirectoryEntry {
    DirectoryEntry { path: String::from(path), identity: (3, inode), kind, size }
}

#[test]
fn parent_cuts_the_last_component() {
    assert_eq!(parent_of("/a/b/c"), Some(String::from("/a/b")));
    assert_eq!(parent_of("a/b"), Some(String::from("a")));
    assert_eq!(parent_of("/a/ü/c"), Some(String::from("/a/ü")));
}

#[test]
fn parent_keeps_the_root() {
    assert_eq!(parent_of("/a"), Some(String::from("/")));
    assert_eq!(parent_of("/"), None);
}

#[test]
fn parent_of_relative_and_empty_paths() {
    assert_eq!(parent_of("a"), Some(String::new()));
    assert_eq!(parent_of(""), None);
}

#[test]
fn file_size_counts_blocks_of_512_bytes() {
    assert_eq!(file_size(0), 0);
    assert_eq!(file_size(8), 4096);
    assert_eq!(file_size(u64::MAX), (u64::MAX as u128) * 512);
}

#[test]
fn entries_are_sorted_by_kind() {
    let sorted = process_directory(vec![
        entry("d/a", 1, EntryKind::File, 10),
        entry("d/l", 2, EntryKind::SymbolicLink, 99),
        entry("d/s", 3, EntryKind::Directory, 0),
        entry("d/sock", 4, EntryKind::Other, 7),
        entry("d/b", 5, EntryKind::File, 20),
    ]);
    assert_eq!(sorted.files.len(), 2);
    assert_eq!(sorted.files[0].node.path, "d/a");
    assert_eq!(sorted.files[0].node.id, (3, 1));
    assert_eq!(sorted.files[0].size, 10);
    assert_eq!(sorted.files[1].node.path, "d/b");
    assert_eq!(sorted.files[1].size, 20);
    assert_eq!(sorted.directories.len(), 1);
    assert_eq!(sorted.directories[0].node.path, "d/s");
    assert_eq!(sorted.directories[0].node.id, (3, 3));
    assert_eq!(sorted.sym_links.len(), 1);
    assert_eq!(sorted.sym_links[0].path, "d/l");
}

#[test]
fn path_map_keeps_the_order_of_first_insertion() {
    let mut map = PathMap::new();
    assert!(map.is_empty());
    map.insert(String::from("b"), NodeResult { size: 1, node_type: NodeType::File });
    map.insert(String::from("a"), NodeResult { size: 2, node_type: NodeType::File });
    map.insert(String::from("b"), NodeResult { size: 3, node_type: NodeType::File });
    assert_eq!(map.len(), 2);
    assert!(map.contains_key("a"));
    assert!(!map.contains_key("c"));
    let all = map.entries();
    assert_eq!(all[0], (String::from("b"), NodeResult { size: 3, node_type: NodeType::File }));
    assert_eq!(all[1], (String::from("a"), NodeResult { size: 2, node_type: NodeType::File }));
}

#[test]
fn credit_adds_to_a_record_or_makes_a_directory() {
    let mut map = PathMap::new();
    map.credit(String::from("d"), 5);
    assert_eq!(*map.get("d").unwrap(), NodeResult { size: 5, node_type: NodeType::Directory });
    map.credit(String::from("d"), 7);
    assert_eq!(map.get("d").unwrap().size, 12);
    map.credit(String::from("d"), u128::MAX);
    assert_eq!(map.get("d").unwrap().size, u128::MAX);
    map.insert(String::from("f"), NodeResult { size: 1, node_type: NodeType::File });
    map.credit(String::from("f"), 1);
    assert_eq!(*map.get("f").unwrap(), NodeResult { size: 2, node_type: NodeType::File });
}

#[test]
fn parent_agrees_with_the_platform_on_canonical_paths() {
    if std::path::MAIN_SEPARATOR != '/' {
        return;
    }
    for path in ["/", "/a", "/a/b", "/a/b/c.txt", "/home/ü/x y/z", "a", "a/b", "root/sub/b", ""] {
        let expected = std::path::Path::new(path)
            .parent()
            .map(|parent| String::from(parent.to_str().unwrap()));
        assert_eq!(parent_of(path), expected, "{}", path);
    }
}
