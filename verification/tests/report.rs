use dir_stat::report::{largest_files, total_size};
use dir_stat::types::{NodeResult, NodeType};

fn file(path: &str, size: u128) -> (String, NodeResult) {
    (String::from(path), NodeResult { size, node_type: NodeType::File })
}

fn directory(path: &str, size: u128) -> (String, NodeResult) {
    (String::from(path), NodeResult { size, node_type: NodeType::Directory })
}

#[test]
fn largest_files_come_first() {
    let entries = vec![
        file("a", 5),
        directory("d", 1000),
        file("b", 50),
        file("c", 7),
        file("e", 50),
        file("f", 1),
    ];
    assert_eq!(largest_files(&entries, 3), vec![2, 4, 3]);
    assert_eq!(largest_files(&entries, 1), vec![2]);
    assert_eq!(largest_files(&entries, 0), Vec::<usize>::new());
}

#[test]
fn fewer_files_than_asked_for_are_all_listed() {
    let entries = vec![directory("d", 9), file("a", 1), file("b", 2)];
    assert_eq!(largest_files(&entries, 30), vec![2, 1]);
    assert_eq!(largest_files(&Vec::new(), 30), Vec::<usize>::new());
    assert_eq!(largest_files(&vec![directory("d", 9)], 5), Vec::<usize>::new());
}

#[test]
fn files_of_one_size_keep_their_order() {
    let entries = vec![file("a", 4), file("b", 4), file("c", 4)];
    assert_eq!(largest_files(&entries, 2), vec![0, 1]);
    assert_eq!(largest_files(&entries, 3), vec![0, 1, 2]);
}

#[test]
fn total_size_adds_up_and_saturates() {
    assert_eq!(total_size(&Vec::new()), 0);
    assert_eq!(total_size(&vec![file("a", 100), file("b", 23), directory("d", 1)]), 124);
    assert_eq!(total_size(&vec![file("a", u128::MAX), file("b", 23)]), u128::MAX);
}
