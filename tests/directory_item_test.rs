use space_rs::directory_item::{
    expands, get_file_name_from_path, sorted_root_indices, EntryMetadata, FILE_NAME_ERROR_VALUE,
};
use space_rs::{DirectoryItem, DirectoryItemType, Size};
use std::cmp::Ordering;

fn file(name: &str, size: u64) -> DirectoryItem {
    DirectoryItem::from_file_size(name.to_string(), size)
}

fn plain(name: &str, kind: DirectoryItemType, size: u64) -> DirectoryItem {
    DirectoryItem {
        path_segment: name.to_string(),
        item_type: kind,
        size_in_bytes: Size::new(size),
        descendant_count: 0,
        children: vec![],
    }
}

fn sizes(item: &DirectoryItem) -> Vec<u64> {
    item.children
        .iter()
        .map(|c| c.size_in_bytes.get_value())
        .collect()
}

fn names(item: &DirectoryItem) -> Vec<String> {
    item.children.iter().map(|c| c.path_segment.clone()).collect()
}

#[test]
fn scenario_tree_rolls_up_sizes_counts_and_order() {
    let sub = DirectoryItem::from_directory(
        "1.3".to_string(),
        vec![file("1.3.2", 2000), file("1.3.1", 20000), file("1.3.3", 1000)],
    );
    let root = DirectoryItem::from_directory(
        "1".to_string(),
        vec![file("1.2", 24000), sub, file("1.1", 25000)],
    );
    let root = DirectoryItem::from_root("/tmp/some/1".to_string(), root);

    assert_eq!("/tmp/some/1", root.path_segment);
    assert_eq!(DirectoryItemType::Directory, root.item_type);
    assert_eq!(72000, root.size_in_bytes.get_value());
    assert_eq!(vec![25000, 24000, 23000], sizes(&root));
    assert_eq!(vec!["1.1", "1.2", "1.3"], names(&root));
    assert_eq!(3, root.children[2].descendant_count);
    assert_eq!(vec![20000, 2000, 1000], sizes(&root.children[2]));
    // Two files count one each; the subdirectory counts itself and its three files.
    assert_eq!(6, root.descendant_count);
}

#[test]
fn equal_sizes_are_ordered_by_name() {
    let dir = DirectoryItem::from_directory(
        "d".to_string(),
        vec![file("b", 10), file("c", 10), file("a", 10), file("z", 11)],
    );
    assert_eq!(vec!["z", "a", "b", "c"], names(&dir));
    assert_eq!(41, dir.size_in_bytes.get_value());
    assert_eq!(4, dir.descendant_count);
}

#[test]
fn empty_directory_has_no_size_children_or_descendants() {
    let dir = DirectoryItem::from_directory("empty".to_string(), vec![]);
    assert_eq!(DirectoryItemType::Directory, dir.item_type);
    assert_eq!(0, dir.size_in_bytes.get_value());
    assert_eq!(0, dir.descendant_count);
    assert!(dir.children.is_empty());
}

#[test]
fn descendant_count_adds_nested_directories() {
    let inner = DirectoryItem::from_directory("inner".to_string(), vec![file("x", 1)]);
    let middle =
        DirectoryItem::from_directory("middle".to_string(), vec![inner, file("y", 2)]);
    let outer = DirectoryItem::from_directory(
        "outer".to_string(),
        vec![middle, DirectoryItem::from_link("link".to_string())],
    );
    assert_eq!(2, outer.children[0].children.len());
    assert_eq!(3, outer.children[0].descendant_count);
    assert_eq!(5, outer.descendant_count);
    assert_eq!(3, outer.size_in_bytes.get_value());
}

#[test]
fn totals_that_do_not_fit_give_an_unknown_item() {
    let dir = DirectoryItem::from_directory(
        "huge".to_string(),
        vec![file("a", u64::MAX), file("b", 1)],
    );
    assert_eq!(DirectoryItemType::Unknown, dir.item_type);
    assert_eq!("huge", dir.path_segment);
    assert_eq!(0, dir.size_in_bytes.get_value());
    assert!(dir.children.is_empty());
}

#[test]
fn totals_at_the_limit_still_fit() {
    let dir = DirectoryItem::from_directory(
        "full".to_string(),
        vec![file("a", u64::MAX - 1), file("b", 1)],
    );
    assert_eq!(DirectoryItemType::Directory, dir.item_type);
    assert_eq!(u64::MAX, dir.size_in_bytes.get_value());
}

#[test]
fn unreadable_directory_holds_one_unknown_item() {
    let dir = DirectoryItem::from_unreadable_directory("locked".to_string());
    assert_eq!(DirectoryItemType::Directory, dir.item_type);
    assert_eq!(1, dir.children.len());
    assert_eq!(1, dir.descendant_count);
    assert_eq!(0, dir.size_in_bytes.get_value());
    assert_eq!(DirectoryItemType::Unknown, dir.children[0].item_type);
    assert_eq!("locked", dir.children[0].path_segment);
}

#[test]
fn metadata_classifies_entries() {
    let f = DirectoryItem::from_metadata("f".to_string(), EntryMetadata::File { len: 25000 });
    assert_eq!(DirectoryItemType::File, f.item_type);
    assert_eq!(25000, f.size_in_bytes.get_value());

    let l = DirectoryItem::from_metadata("l".to_string(), EntryMetadata::SymbolicLink);
    assert_eq!(DirectoryItemType::SymbolicLink, l.item_type);
    assert_eq!(0, l.size_in_bytes.get_value());
    assert!(l.children.is_empty());

    let o = DirectoryItem::from_metadata("o".to_string(), EntryMetadata::Other);
    assert_eq!(DirectoryItemType::Unknown, o.item_type);

    let u = DirectoryItem::from_metadata("u".to_string(), EntryMetadata::Unavailable);
    assert_eq!(DirectoryItemType::Unknown, u.item_type);
    assert_eq!(0, u.size_in_bytes.get_value());

    let d = DirectoryItem::from_metadata("d".to_string(), EntryMetadata::Directory);
    assert_eq!(DirectoryItemType::Directory, d.item_type);
    assert!(d.children.is_empty());
}

#[test]
fn build_given_symbolic_link_dir_should_not_follow_link() {
    assert!(!expands(&EntryMetadata::SymbolicLink));
    assert!(expands(&EntryMetadata::Directory));
    assert!(!expands(&EntryMetadata::File { len: 3 }));
    let link = DirectoryItem::from_metadata("1.11".to_string(), EntryMetadata::SymbolicLink);
    let root = DirectoryItem::from_root("/tmp/1/1.11".to_string(), link);
    assert_eq!(DirectoryItemType::SymbolicLink, root.item_type);
    assert_eq!(0, root.size_in_bytes.get_value());
    assert_eq!(0, root.children.len());
}

#[test]
fn from_root_given_file_keeps_size_and_uses_full_path() {
    let item = DirectoryItem::from_metadata("1.1".to_string(), EntryMetadata::File { len: 25000 });
    let root = DirectoryItem::from_root("/tmp/x/1/1.1".to_string(), item);
    assert_eq!("/tmp/x/1/1.1", root.path_segment);
    assert_eq!(25000, root.size_in_bytes.get_value());
    assert_eq!(0, root.children.len());
}

#[test]
fn from_root_given_non_existent_path_gives_unknown_item() {
    let item = DirectoryItem::from_metadata("missing".to_string(), EntryMetadata::Unavailable);
    let root = DirectoryItem::from_root("/no/such/missing".to_string(), item);
    assert_eq!("/no/such/missing", root.path_segment);
    assert_eq!(DirectoryItemType::Unknown, root.item_type);
    assert_eq!(0, root.size_in_bytes.get_value());
    assert_eq!(0, root.children.len());
}

#[test]
fn cmp_with_given_size_in_bytes_returns_descending_ordering() {
    for (s1, s2, expected) in [
        (123, 123, Ordering::Less),
        (1, 2, Ordering::Greater),
        (2, 1, Ordering::Less),
    ] {
        let v1 = plain("/1", DirectoryItemType::Directory, s1);
        let v2 = plain("/2", DirectoryItemType::Directory, s2);
        assert_eq!(expected, v1.cmp(&v2));
    }
}

#[test]
fn cmp_with_equal_size_and_name_is_equal() {
    let v1 = plain("same", DirectoryItemType::File, 9);
    let v2 = plain("same", DirectoryItemType::Directory, 9);
    assert_eq!(Ordering::Equal, v1.cmp(&v2));
    let v3 = plain("samf", DirectoryItemType::Directory, 9);
    assert_eq!(Ordering::Less, v1.cmp(&v3));
    assert_eq!(Ordering::Greater, v3.cmp(&v1));
}

#[test]
fn rebuilding_from_entries_in_another_order_gives_the_same_totals() {
    let a = DirectoryItem::from_directory(
        "r".to_string(),
        vec![file("x", 5), file("y", 7), file("z", 5)],
    );
    let b = DirectoryItem::from_directory(
        "r".to_string(),
        vec![file("z", 5), file("x", 5), file("y", 7)],
    );
    assert_eq!(a.size_in_bytes, b.size_in_bytes);
    assert_eq!(a.descendant_count, b.descendant_count);
    assert_eq!(Ordering::Equal, a.cmp(&b));
    assert_eq!(names(&a), names(&b));
}

#[test]
fn get_file_name_from_path_with_root_dir_returns_error_value() {
    assert_eq!(FILE_NAME_ERROR_VALUE, get_file_name_from_path("/"));
    assert_eq!("!error!", get_file_name_from_path("/"));
}

#[test]
fn get_file_name_with_non_root_dir_path_returns_last_segment() {
    assert_eq!("test", get_file_name_from_path("/test"));
    assert_eq!("some.png", get_file_name_from_path("/test/some.png"));
}

fn chosen_roots(paths: &[&str]) -> Vec<String> {
    let paths: Vec<String> = paths.iter().map(|p| p.to_string()).collect();
    sorted_root_indices(&paths)
        .into_iter()
        .map(|i| paths[i].clone())
        .collect()
}

#[test]
fn root_paths_are_sorted_and_deduplicated() {
    assert_eq!(
        vec!["/a", "/b", "/c"],
        chosen_roots(&["/b", "/a", "/b", "/c", "/a"])
    );
    assert!(chosen_roots(&[]).is_empty());
}

#[test]
fn root_paths_are_ordered_by_components() {
    assert_eq!(vec!["a/b", "a-b"], chosen_roots(&["a-b", "a/b"]));
    assert_eq!(vec!["a", "a/b"], chosen_roots(&["a/b", "a"]));
}

#[test]
fn root_paths_with_the_same_components_are_one_root() {
    assert_eq!(vec!["a/b/"], chosen_roots(&["a/b/", "a/b", "a//b"]));
    assert_eq!(1, chosen_roots(&["/tmp/x", "/tmp//x/"]).len());
}

#[test]
fn partial_cmp_with_given_size_in_bytes_returns_descending_ordering() {
    for (s1, s2, expected) in [
        (432, 432, Some(Ordering::Less)),
        (1, 7, Some(Ordering::Greater)),
        (99, 98, Some(Ordering::Less)),
    ] {
        let v1 = plain("/2", DirectoryItemType::Directory, s1);
        let v2 = plain("/3", DirectoryItemType::File, s2);
        assert_eq!(expected, v1.partial_cmp(&v2));
    }
}

#[test]
fn eq_with_given_size_in_bytes_returns_correct_result() {
    for (s1, s2, expected) in [(777, 777, true), (10, 20, false), (20, 10, false)] {
        let v1 = plain("/3", DirectoryItemType::Directory, s1);
        let v2 = plain("/4", DirectoryItemType::Directory, s2);
        assert_eq!(expected, v1.eq(&v2));
        assert_eq!(expected, v1 == v2);
    }
}

#[test]
fn debug_succeeds() {
    let item = DirectoryItem {
        path_segment: "/1".to_string(),
        item_type: DirectoryItemType::Directory,
        size_in_bytes: Size::new(777),
        descendant_count: 1,
        children: vec![plain("2", DirectoryItemType::Directory, 778)],
    };
    let output = format!("{:?}", item);
    assert!(output.contains("/1"));
    assert!(output.contains('2'));
    assert!(output.contains("777"));
    assert!(output.contains("778"));
}

#[test]
fn rebuilding_a_nested_tree_in_another_order_gives_the_same_tree() {
    let first = {
        let sub = DirectoryItem::from_directory(
            "s".to_string(),
            vec![file("p", 3), file("q", 3), file("r", 9)],
        );
        DirectoryItem::from_directory("top".to_string(), vec![sub, file("f", 15), file("e", 15)])
    };
    let second = {
        let sub = DirectoryItem::from_directory(
            "s".to_string(),
            vec![file("r", 9), file("q", 3), file("p", 3)],
        );
        DirectoryItem::from_directory("top".to_string(), vec![file("e", 15), file("f", 15), sub])
    };
    assert_eq!(names(&first), names(&second));
    assert_eq!(vec!["e", "f", "s"], names(&first));
    assert_eq!(names(&first.children[2]), names(&second.children[2]));
    assert_eq!(vec!["r", "p", "q"], names(&second.children[2]));
    assert_eq!(first.descendant_count, second.descendant_count);
    assert_eq!(6, first.descendant_count);
    assert_eq!(45, second.size_in_bytes.get_value());
}
