use dir_stat::types::{
    DirectoryInfo, DirectoryResult, FileInfo, ListError, NodeInfo, NodeType, ScanResult,
    SymLinkInfo,
};
use dir_stat::walk::process_dir;
use dir_stat::walker::{Walker, WorkerAction};

fn file(path: &str, inode: u64, size: u128) -> FileInfo {
    FileInfo { size, node: NodeInfo { path: String::from(path), id: (1, inode) } }
}

fn dir(path: &str, inode: u64) -> DirectoryInfo {
    DirectoryInfo { node: NodeInfo { path: String::from(path), id: (1, inode) } }
}

fn link(path: &str) -> SymLinkInfo {
    SymLinkInfo { path: String::from(path) }
}

fn listing(
    files: Vec<FileInfo>,
    directories: Vec<DirectoryInfo>,
    sym_links: Vec<SymLinkInfo>,
) -> Result<DirectoryResult, ListError> {
    Ok(DirectoryResult { files, directories, sym_links })
}

fn plain_tree(path: &String) -> Result<DirectoryResult, ListError> {
    match path.as_str() {
        "root" => listing(vec![file("root/a", 10, 100)], vec![dir("root/sub", 11)], vec![]),
        "root/sub" => listing(
            vec![file("root/sub/b", 12, 50), file("root/sub/c", 13, 50)],
            vec![],
            vec![],
        ),
        _ => Err(ListError::NotFound),
    }
}

fn size_of(scan: &ScanResult, path: &str) -> u128 {
    scan.result.get(path).unwrap().size
}

/// Runs a traversal with `workers` logical workers that take directories in
/// turn and hand them back in the reverse order of taking.
fn run_interleaved(
    root: &str,
    workers: usize,
    list: fn(&String) -> Result<DirectoryResult, ListError>,
) -> ScanResult {
    let mut walker = Walker::new(String::from(root));
    loop {
        let mut taken: Vec<String> = Vec::new();
        while taken.len() < workers {
            match walker.next_action() {
                WorkerAction::Process(path) => taken.push(path),
                _ => break,
            }
        }
        if taken.is_empty() {
            assert!(walker.is_done());
            break;
        }
        while let Some(path) = taken.pop() {
            let answer = list(&path);
            assert!(walker.commit(path, answer));
        }
    }
    walker.finish()
}

#[test]
fn scenario_tree_without_hardlinks() {
    let scan = process_dir(String::from("root"), plain_tree);
    assert_eq!(size_of(&scan, "root"), 200);
    assert_eq!(size_of(&scan, "root/sub"), 100);
    assert_eq!(scan.result.get("root").unwrap().node_type, NodeType::Directory);
    assert_eq!(scan.result.get("root/sub").unwrap().node_type, NodeType::Directory);
    assert_eq!(size_of(&scan, "root/a"), 100);
    assert_eq!(scan.result.get("root/a").unwrap().node_type, NodeType::File);
    assert_eq!(size_of(&scan, "root/sub/b"), 50);
    assert_eq!(size_of(&scan, "root/sub/c"), 50);
    assert_eq!(scan.result.len(), 5);
    assert!(scan.double_count.is_empty());
    assert!(scan.skipped.is_empty());
}

#[test]
fn scenario_hardlink_is_counted_once() {
    let scan = process_dir(String::from("root"), |path: &String| match path.as_str() {
        "root" => listing(
            vec![file("root/a", 10, 100), file("root/link-to-a", 10, 100)],
            vec![],
            vec![],
        ),
        _ => Err(ListError::NotFound),
    });
    assert_eq!(size_of(&scan, "root"), 100);
    assert_eq!(size_of(&scan, "root/a"), 100);
    assert!(scan.result.get("root/link-to-a").is_none());
    assert_eq!(scan.double_count.len(), 1);
    assert_eq!(scan.double_count.get("root/link-to-a").unwrap().size, 100);
    assert_eq!(scan.double_count.get("root/link-to-a").unwrap().node_type, NodeType::File);
}

#[test]
fn scenario_failed_listing_is_skipped() {
    let scan = process_dir(String::from("root"), |path: &String| match path.as_str() {
        "root" => listing(
            vec![file("root/a", 10, 100)],
            vec![dir("root/locked", 11), dir("root/open", 12)],
            vec![],
        ),
        "root/locked" => Err(ListError::Access),
        "root/open" => listing(vec![file("root/open/b", 13, 7)], vec![], vec![]),
        _ => Err(ListError::NotFound),
    });
    assert_eq!(size_of(&scan, "root"), 107);
    assert_eq!(size_of(&scan, "root/open"), 7);
    assert!(scan.result.get("root/locked").is_none());
    assert_eq!(scan.skipped.len(), 1);
    assert_eq!(scan.skipped[0].path, "root/locked");
    assert_eq!(scan.skipped[0].error, ListError::Access);
}

#[test]
fn scenario_symbolic_link_is_not_followed() {
    let scan = process_dir(String::from("root"), |path: &String| match path.as_str() {
        "root" => listing(
            vec![file("root/a", 10, 100)],
            vec![dir("root/sub", 11)],
            vec![link("root/to-sub")],
        ),
        "root/sub" => listing(vec![file("root/sub/b", 12, 50)], vec![], vec![]),
        "root/to-sub" => listing(vec![file("root/to-sub/b", 99, 1000)], vec![], vec![]),
        _ => Err(ListError::NotFound),
    });
    assert_eq!(size_of(&scan, "root"), 150);
    assert!(scan.result.get("root/to-sub").is_none());
    assert!(scan.result.get("root/to-sub/b").is_none());
    assert!(scan.skipped.is_empty());
    assert_eq!(scan.result.len(), 4);
}

#[test]
fn failing_root_gives_an_empty_account() {
    let scan = process_dir(String::from("/gone"), |_path: &String| Err(ListError::NotFound));
    assert!(scan.result.is_empty());
    assert_eq!(scan.skipped.len(), 1);
    assert_eq!(scan.skipped[0].path, "/gone");
    assert_eq!(scan.skipped[0].error, ListError::NotFound);
}

#[test]
fn empty_directory_gets_a_record_of_size_zero() {
    let scan = process_dir(String::from("/r"), |path: &String| match path.as_str() {
        "/r" => listing(vec![], vec![dir("/r/empty", 2)], vec![]),
        "/r/empty" => listing(vec![], vec![], vec![]),
        _ => Err(ListError::Io),
    });
    assert_eq!(size_of(&scan, "/r"), 0);
    assert_eq!(size_of(&scan, "/r/empty"), 0);
    assert_eq!(scan.result.get("/r/empty").unwrap().node_type, NodeType::Directory);
}

#[test]
fn credit_stops_at_the_root() {
    let scan = process_dir(String::from("/home/user"), |path: &String| match path.as_str() {
        "/home/user" => listing(vec![file("/home/user/a", 2, 5)], vec![], vec![]),
        _ => Err(ListError::Io),
    });
    assert_eq!(size_of(&scan, "/home/user"), 5);
    assert!(scan.result.get("/home").is_none());
    assert!(scan.result.get("/").is_none());
    assert_eq!(scan.result.len(), 2);
}

#[test]
fn filesystem_root_as_traversal_root() {
    let scan = process_dir(String::from("/"), |path: &String| match path.as_str() {
        "/" => listing(vec![file("/a", 2, 5)], vec![dir("/etc", 3)], vec![]),
        "/etc" => listing(vec![file("/etc/b", 4, 6)], vec![], vec![]),
        _ => Err(ListError::Io),
    });
    assert_eq!(size_of(&scan, "/"), 11);
    assert_eq!(size_of(&scan, "/etc"), 6);
}

#[test]
fn directory_reached_twice_is_listed_once() {
    let scan = process_dir(String::from("r"), |path: &String| match path.as_str() {
        "r" => listing(vec![], vec![dir("r/x", 5), dir("r/y", 5)], vec![]),
        "r/x" => listing(vec![file("r/x/f", 6, 9)], vec![], vec![]),
        "r/y" => listing(vec![file("r/y/f", 7, 9)], vec![], vec![]),
        _ => Err(ListError::Io),
    });
    assert_eq!(size_of(&scan, "r"), 9);
    assert_eq!(size_of(&scan, "r/x"), 9);
    assert!(scan.result.get("r/y").is_none());
}

#[test]
fn sizes_saturate() {
    let scan = process_dir(String::from("r"), |path: &String| match path.as_str() {
        "r" => listing(
            vec![file("r/a", 2, u128::MAX), file("r/b", 3, 5)],
            vec![dir("r/s", 4)],
            vec![],
        ),
        "r/s" => listing(vec![file("r/s/c", 5, u128::MAX - 1)], vec![], vec![]),
        _ => Err(ListError::Io),
    });
    assert_eq!(size_of(&scan, "r"), u128::MAX);
    assert_eq!(size_of(&scan, "r/s"), u128::MAX - 1);
}

#[test]
fn dedup_over_several_directories() {
    // one file object under three paths, in two directories
    let scan = process_dir(String::from("r"), |path: &String| match path.as_str() {
        "r" => listing(
            vec![file("r/one", 7, 40), file("r/two", 7, 40)],
            vec![dir("r/s", 8)],
            vec![],
        ),
        "r/s" => listing(vec![file("r/s/three", 7, 40), file("r/s/own", 9, 2)], vec![], vec![]),
        _ => Err(ListError::Io),
    });
    assert_eq!(size_of(&scan, "r"), 42);
    assert_eq!(size_of(&scan, "r/s"), 2);
    assert_eq!(size_of(&scan, "r/one"), 40);
    assert_eq!(scan.double_count.len(), 2);
    let wasted: u128 = scan.double_count.entries().iter().map(|entry| entry.1.size).sum();
    assert_eq!(wasted, 2 * 40);
}

#[test]
fn directory_size_is_the_sum_of_the_files_beneath() {
    let scan = process_dir(String::from("root"), plain_tree);
    for (path, record) in scan.result.entries() {
        if record.node_type == NodeType::Directory {
            let prefix = format!("{}/", path);
            let sum: u128 = scan
                .result
                .entries()
                .iter()
                .filter(|entry| entry.1.node_type == NodeType::File && entry.0.starts_with(&prefix))
                .map(|entry| entry.1.size)
                .sum();
            assert_eq!(record.size, sum);
        }
    }
}

#[test]
fn walking_twice_gives_the_same_account() {
    let first = process_dir(String::from("root"), plain_tree);
    let second = process_dir(String::from("root"), plain_tree);
    assert_eq!(first.result.entries(), second.result.entries());
    assert_eq!(first.double_count.entries(), second.double_count.entries());
}

#[test]
fn any_number_of_workers_gives_the_same_account() {
    let single = process_dir(String::from("root"), plain_tree);
    let mut expected = single.result.entries();
    expected.sort_by(|a, b| a.0.cmp(&b.0));
    for workers in [1usize, 2, 8] {
        let scan = run_interleaved("root", workers, plain_tree);
        let mut found = scan.result.entries();
        found.sort_by(|a, b| a.0.cmp(&b.0));
        assert_eq!(found, expected);
        assert!(scan.double_count.is_empty());
    }
}

#[test]
fn worker_waits_while_a_listing_is_in_flight() {
    let mut walker = Walker::new(String::from("root"));
    assert!(!walker.is_done());
    let first = match walker.next_action() {
        WorkerAction::Process(path) => path,
        _ => panic!("the root waits"),
    };
    assert_eq!(first, "root");
    assert!(matches!(walker.next_action(), WorkerAction::Wait));
    assert!(!walker.is_done());
    assert!(walker.commit(first, plain_tree(&String::from("root"))));
    let second = match walker.next_action() {
        WorkerAction::Process(path) => path,
        _ => panic!("the subdirectory waits"),
    };
    assert_eq!(second, "root/sub");
    assert!(walker.commit(second, plain_tree(&String::from("root/sub"))));
    assert!(matches!(walker.next_action(), WorkerAction::Exit));
    assert!(walker.is_done());
    assert_eq!(walker.finish().result.get("root").unwrap().size, 200);
}

#[test]
fn commit_of_a_directory_not_in_flight_is_refused() {
    let mut walker = Walker::new(String::from("root"));
    assert!(!walker.commit(String::from("root"), plain_tree(&String::from("root"))));
    assert!(!walker.commit(String::from("elsewhere"), Err(ListError::Io)));
    let scan = walker.finish();
    assert!(scan.result.is_empty());
    assert!(scan.skipped.is_empty());
}

fn linked_within(path: &String) -> Result<DirectoryResult, ListError> {
    match path.as_str() {
        "r" => listing(
            vec![file("r/a", 20, 100), file("r/a2", 20, 100)],
            vec![dir("r/s", 21), dir("r/t", 22)],
            vec![],
        ),
        "r/s" => listing(
            vec![file("r/s/b", 23, 7), file("r/s/b2", 23, 7), file("r/s/b3", 23, 7)],
            vec![],
            vec![],
        ),
        "r/t" => listing(vec![file("r/t/c", 24, 1)], vec![dir("r/t/u", 25)], vec![]),
        "r/t/u" => listing(vec![file("r/t/u/d", 26, 30), file("r/t/u/d2", 26, 30)], vec![], vec![]),
        _ => Err(ListError::NotFound),
    }
}

fn linked_across(path: &String) -> Result<DirectoryResult, ListError> {
    match path.as_str() {
        "r" => listing(vec![file("r/a", 30, 100)], vec![dir("r/x", 31), dir("r/y", 32)], vec![]),
        "r/x" => listing(vec![file("r/x/one", 33, 9), file("r/x/a", 30, 100)], vec![], vec![]),
        "r/y" => listing(vec![file("r/y/two", 33, 9)], vec![dir("r/y/z", 34)], vec![]),
        "r/y/z" => listing(vec![file("r/y/z/three", 33, 9)], vec![], vec![]),
        _ => Err(ListError::NotFound),
    }
}

fn sorted(mut entries: Vec<(String, dir_stat::types::NodeResult)>) -> Vec<(String, dir_stat::types::NodeResult)> {
    entries.sort_by(|a, b| a.0.cmp(&b.0));
    entries
}

#[test]
fn hardlinks_within_a_directory_give_the_same_account_to_all_workers() {
    let single = process_dir(String::from("r"), linked_within);
    assert_eq!(size_of(&single, "r"), 138);
    assert_eq!(size_of(&single, "r/s"), 7);
    assert_eq!(size_of(&single, "r/t"), 31);
    assert_eq!(single.double_count.len(), 4);
    for workers in [1usize, 2, 8] {
        let scan = run_interleaved("r", workers, linked_within);
        assert_eq!(sorted(scan.result.entries()), sorted(single.result.entries()));
        assert_eq!(sorted(scan.double_count.entries()), sorted(single.double_count.entries()));
    }
}

#[test]
fn hardlinks_across_directories_leave_the_root_and_the_directories_alone() {
    let single = process_dir(String::from("r"), linked_across);
    assert_eq!(size_of(&single, "r"), 109);
    let directories = |scan: &ScanResult| -> Vec<String> {
        let mut paths: Vec<String> = scan
            .result
            .entries()
            .into_iter()
            .filter(|entry| entry.1.node_type == NodeType::Directory)
            .map(|entry| entry.0)
            .collect();
        paths.sort();
        paths
    };
    let duplicate_sizes = |scan: &ScanResult| -> Vec<u128> {
        let mut sizes: Vec<u128> =
            scan.double_count.entries().into_iter().map(|entry| entry.1.size).collect();
        sizes.sort();
        sizes
    };
    assert_eq!(directories(&single), vec!["r", "r/x", "r/y", "r/y/z"]);
    assert_eq!(duplicate_sizes(&single), vec![9, 9, 100]);
    for workers in [1usize, 2, 8] {
        let scan = run_interleaved("r", workers, linked_across);
        assert_eq!(size_of(&scan, "r"), 109);
        assert_eq!(directories(&scan), directories(&single));
        assert_eq!(duplicate_sizes(&scan), duplicate_sizes(&single));
    }
    // which directory is credited with the file object depends on the order
    let two = run_interleaved("r", 2, linked_across);
    assert_eq!(size_of(&single, "r/x") + size_of(&single, "r/y"), 9);
    assert_eq!(size_of(&two, "r/x") + size_of(&two, "r/y"), 9);
}

#[test]
fn one_path_of_a_file_object_has_the_record_and_the_others_are_duplicates() {
    let scan = process_dir(String::from("r"), linked_across);
    let paths = ["r/x/one", "r/y/two", "r/y/z/three"];
    let recorded: Vec<&str> =
        paths.iter().copied().filter(|path| scan.result.contains_key(path)).collect();
    let duplicates: Vec<&str> =
        paths.iter().copied().filter(|path| scan.double_count.contains_key(path)).collect();
    assert_eq!(recorded, vec!["r/x/one"]);
    assert_eq!(duplicates, vec!["r/y/two", "r/y/z/three"]);
    assert_eq!(scan.result.get("r/x/one").unwrap().size, 9);
    assert_eq!(scan.double_count.get("r/y/two").unwrap().size, 9);
    assert_eq!(scan.double_count.get("r/y/z/three").unwrap().size, 9);
}
