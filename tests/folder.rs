use wiper::folder::{Folder, SortBy, CHART_REST, TEXT_PARENT_DIR};
use wiper::folder_entry::{title_le_exec, FolderEntry, FolderEntryType};

fn file(title: &str, size: Option<u64>) -> FolderEntry {
    FolderEntry { title: title.to_string(), size, kind: FolderEntryType::File, is_loaded: true }
}

fn dir(title: &str, size: Option<u64>) -> FolderEntry {
    FolderEntry { title: title.to_string(), size, kind: FolderEntryType::Folder, is_loaded: true }
}

fn titles(f: &Folder) -> Vec<String> {
    f.entries.iter().map(|e| e.title.clone()).collect()
}

#[test]
fn new_folder_holds_only_parent_row() {
    let f = Folder::new("r".to_string());
    assert_eq!(f.title, "r");
    assert_eq!(f.entries.len(), 1);
    assert_eq!(f.entries[0].kind, FolderEntryType::Parent);
    assert_eq!(f.entries[0].title, TEXT_PARENT_DIR);
    assert_eq!(f.entries[0].size, None);
    assert_eq!(f.cursor_index, 0);
    assert_eq!(f.sorted_by, None);
    assert!(!f.has_error);
    assert_eq!(f.get_size(), 0);
}

#[test]
fn size_is_sum_of_known_entry_sizes() {
    let mut f = Folder::new("r".to_string());
    f.entries.push(file("a.txt", Some(10)));
    f.entries.push(dir("sub", Some(20)));
    f.entries.push(dir("pending", None));
    assert_eq!(f.get_size(), 30);
    assert_eq!(f.get_max_entry_size(), 20);
}

#[test]
fn size_saturates_at_u64_max() {
    let mut f = Folder::new("r".to_string());
    f.entries.push(file("a", Some(u64::MAX)));
    f.entries.push(file("b", Some(5)));
    assert_eq!(f.get_size(), u64::MAX);
}

#[test]
fn max_entry_size_is_zero_without_known_sizes() {
    let mut f = Folder::new("r".to_string());
    f.entries.push(dir("pending", None));
    assert_eq!(f.get_max_entry_size(), 0);
}

#[test]
fn selected_entry_and_its_size() {
    let mut f = Folder::new("r".to_string());
    f.entries.push(file("a.txt", Some(10)));
    assert_eq!(f.get_selected_entry_size(), 0);
    f.cursor_index = 1;
    assert_eq!(f.get_selected_entry().title, "a.txt");
    assert_eq!(f.get_selected_entry_size(), 10);
}

#[test]
fn remove_selected_keeps_cursor_in_place() {
    let mut f = Folder::new("r".to_string());
    f.entries.push(file("a", Some(1)));
    f.entries.push(file("b", Some(2)));
    f.entries.push(file("c", Some(3)));
    f.cursor_index = 1;
    f.remove_selected();
    assert_eq!(titles(&f), vec!["..", "b", "c"]);
    assert_eq!(f.cursor_index, 1);
}

#[test]
fn remove_selected_clamps_cursor_at_bottom() {
    let mut f = Folder::new("r".to_string());
    f.entries.push(file("a", Some(1)));
    f.entries.push(file("b", Some(2)));
    f.cursor_index = 2;
    f.remove_selected();
    assert_eq!(titles(&f), vec!["..", "a"]);
    assert_eq!(f.cursor_index, 1);
    f.remove_selected();
    assert_eq!(titles(&f), vec![".."]);
    assert_eq!(f.cursor_index, 0);
}

#[test]
fn sort_by_title_orders_parent_folders_files() {
    let mut f = Folder::new("r".to_string());
    f.entries.push(file("z_root_file.txt", Some(1)));
    f.entries.push(dir("b_folder", Some(5)));
    f.entries.push(file("a_root_file.txt", Some(3)));
    f.entries.push(dir("a_folder", Some(2)));
    f.entries.push(file("d_root_file.txt", Some(9)));
    f.entries.push(dir("c_folder", None));
    f.sort_by_title();
    assert_eq!(
        titles(&f),
        vec!["..", "a_folder", "b_folder", "c_folder", "a_root_file.txt", "d_root_file.txt", "z_root_file.txt"]
    );
}

#[test]
fn sort_by_title_twice_is_sorting_once() {
    let mut f = Folder::new("r".to_string());
    f.entries.push(file("b", Some(1)));
    f.entries.push(file("a", Some(2)));
    f.entries.push(dir("b", Some(3)));
    f.entries.push(file("a", Some(4)));
    f.sort_by_title();
    let once: Vec<(String, Option<u64>)> = f.entries.iter().map(|e| (e.title.clone(), e.size)).collect();
    f.sort_by_title();
    let twice: Vec<(String, Option<u64>)> = f.entries.iter().map(|e| (e.title.clone(), e.size)).collect();
    assert_eq!(once, twice);
    assert_eq!(
        once,
        vec![
            ("..".to_string(), None),
            ("b".to_string(), Some(3)),
            ("a".to_string(), Some(2)),
            ("a".to_string(), Some(4)),
            ("b".to_string(), Some(1)),
        ]
    );
}

#[test]
fn sort_by_size_puts_largest_first_and_unknown_last() {
    let mut f = Folder::new("r".to_string());
    f.entries.push(file("small", Some(1)));
    f.entries.push(dir("unknown1", None));
    f.entries.push(dir("big", Some(100)));
    f.entries.push(file("mid", Some(50)));
    f.entries.push(file("unknown2", None));
    f.entries.push(file("mid2", Some(50)));
    f.sort_by_size();
    assert_eq!(titles(&f), vec!["..", "big", "mid", "mid2", "small", "unknown1", "unknown2"]);
}

#[test]
fn title_order_is_by_code_point() {
    assert!(title_le_exec(&"B".to_string(), &"a".to_string()));
    assert!(!title_le_exec(&"a".to_string(), &"B".to_string()));
    assert!(title_le_exec(&"ab".to_string(), &"abc".to_string()));
    assert!(!title_le_exec(&"abc".to_string(), &"ab".to_string()));
    assert!(title_le_exec(&"".to_string(), &"".to_string()));
    assert!(title_le_exec(&"é".to_string(), &"ê".to_string()));
}

#[test]
fn increment_size_counts_unknown_as_zero() {
    let mut e = dir("sub", None);
    e.increment_size(7);
    assert_eq!(e.size, Some(7));
    e.increment_size(3);
    assert_eq!(e.size, Some(10));
    e.increment_size(u64::MAX);
    assert_eq!(e.size, Some(u64::MAX));
}

#[test]
fn entries_sort_by_ascending_size() {
    let mut v = vec![file("a", None), file("b", Some(3)), file("c", Some(1)), file("d", Some(3))];
    FolderEntry::sort_by_size(&mut v);
    let t: Vec<String> = v.iter().map(|e| e.title.clone()).collect();
    assert_eq!(t, vec!["c", "b", "d", "a"]);
}

#[test]
fn to_list_copies_entries() {
    let mut f = Folder::new("r".to_string());
    f.entries.push(file("a", Some(1)));
    let l = f.to_list();
    assert_eq!(l.len(), 2);
    assert_eq!(l[1].title, "a");
    assert_eq!(l[1].size, Some(1));
}

#[test]
fn extension_sizes_accumulate() {
    let mut f = Folder::new("r".to_string());
    f.append_file_type_size(&"txt".to_string(), 100);
    f.append_file_type_size(&"log".to_string(), 50);
    f.append_file_type_size(&"txt".to_string(), 200);
    assert_eq!(f.file_type_map, vec![("txt".to_string(), 300), ("log".to_string(), 50)]);
    f.append_file_type_size(&"log".to_string(), u64::MAX);
    assert_eq!(f.file_type_map[1].1, u64::MAX);
}

#[test]
fn sorted_file_types_largest_first() {
    let mut f = Folder::new("r".to_string());
    f.append_file_type_size(&"a".to_string(), 1);
    f.append_file_type_size(&"b".to_string(), 5);
    f.append_file_type_size(&"c".to_string(), 1);
    assert_eq!(
        f.get_sorted_file_types_by_size(),
        vec![("b".to_string(), 5), ("a".to_string(), 1), ("c".to_string(), 1)]
    );
}

#[test]
fn chart_with_txt_and_log_past_threshold() {
    // 300 of 350 bytes (86%) are charted once "txt" is in, over 8/10.
    let mut f = Folder::new("r".to_string());
    f.append_file_type_size(&"txt".to_string(), 100);
    f.append_file_type_size(&"txt".to_string(), 100);
    f.append_file_type_size(&"txt".to_string(), 100);
    f.append_file_type_size(&"log".to_string(), 50);
    let chart = f.get_chart_data(8, 10, 5);
    assert_eq!(chart, vec![("txt".to_string(), 300), (CHART_REST.to_string(), 50)]);
}

#[test]
fn chart_takes_bucket_exactly_at_threshold() {
    // After "a" exactly 80% is charted: that is not over the threshold.
    let mut f = Folder::new("r".to_string());
    f.append_file_type_size(&"a".to_string(), 80);
    f.append_file_type_size(&"b".to_string(), 15);
    f.append_file_type_size(&"c".to_string(), 5);
    let chart = f.get_chart_data(8, 10, 5);
    assert_eq!(chart, vec![("a".to_string(), 80), ("b".to_string(), 15), ("rest".to_string(), 5)]);
}

#[test]
fn chart_limits_bucket_count() {
    let mut f = Folder::new("r".to_string());
    for (k, v) in [("a", 10u64), ("b", 9), ("c", 8), ("d", 7)] {
        f.append_file_type_size(&k.to_string(), v);
    }
    let chart = f.get_chart_data(1, 1, 3);
    assert_eq!(chart, vec![("a".to_string(), 10), ("b".to_string(), 9), ("rest".to_string(), 15)]);
}

#[test]
fn chart_of_empty_or_zero_sized_folder() {
    let mut f = Folder::new("r".to_string());
    assert_eq!(f.get_chart_data(8, 10, 5), vec![]);
    f.append_file_type_size(&"a".to_string(), 0);
    assert_eq!(f.get_chart_data(8, 10, 5), vec![]);
}

#[test]
fn clone_keeps_everything() {
    let mut f = Folder::new("r".to_string());
    f.entries.push(file("a", Some(1)));
    f.sorted_by = Some(SortBy::Size);
    f.append_file_type_size(&"txt".to_string(), 4);
    let g = f.clone();
    assert_eq!(g.title, "r");
    assert_eq!(g.entries.len(), 2);
    assert_eq!(g.sorted_by, Some(SortBy::Size));
    assert_eq!(g.file_type_map, vec![("txt".to_string(), 4)]);
}

#[test]
fn chart_breaks_size_ties_by_extension() {
    let mut f = Folder::new("r".to_string());
    f.append_file_type_size(&"b".to_string(), 10);
    f.append_file_type_size(&"a".to_string(), 10);
    let mut g = Folder::new("r".to_string());
    g.append_file_type_size(&"a".to_string(), 10);
    g.append_file_type_size(&"b".to_string(), 10);
    let expected = vec![("a".to_string(), 10), ("b".to_string(), 10)];
    assert_eq!(f.get_chart_data(1, 1, 5), expected);
    assert_eq!(g.get_chart_data(1, 1, 5), expected);
}
