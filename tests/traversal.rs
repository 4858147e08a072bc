use wiper::folder::SortBy;
use wiper::folder_entry::FolderEntryType;
use wiper::store::DSHashmap;
use wiper::traversal::{extension, fold_entry, EntryState, TraversalEntry};

fn path(parts: &[&str]) -> Vec<String> {
    parts.iter().map(|p| p.to_string()).collect()
}

fn ev(parent: &[&str], name: &str, is_dir: bool, size: u64) -> TraversalEntry {
    TraversalEntry {
        parent_path: path(parent),
        file_name: name.to_string(),
        is_dir,
        client_state: Some(EntryState { size }),
    }
}

/// `/r` holds `a.txt` (10 bytes) and `sub`, which holds `b.txt` (20 bytes).
fn scanned_tree() -> DSHashmap {
    let mut s = DSHashmap::new();
    for e in [
        ev(&[], "r", true, 4096),
        ev(&["r"], "a.txt", false, 10),
        ev(&["r"], "sub", true, 4096),
        ev(&["r", "sub"], "b.txt", false, 20),
    ] {
        fold_entry(&mut s, &e);
    }
    s
}

#[test]
fn scanned_tree_sizes_and_title_order() {
    let mut s = scanned_tree();
    assert_eq!(s.get_entry_size(&path(&["r"])), Some(30));
    assert_eq!(s.get_entry_size(&path(&["r", "sub"])), Some(20));
    s.set_current_path(&path(&["r"]));
    s.sort_current_folder(SortBy::Title);
    let f = s.get_current_folder().unwrap();
    let rows: Vec<(String, FolderEntryType, Option<u64>)> =
        f.entries.iter().map(|e| (e.title.clone(), e.kind, e.size)).collect();
    assert_eq!(
        rows,
        vec![
            ("..".to_string(), FolderEntryType::Parent, None),
            ("sub".to_string(), FolderEntryType::Folder, Some(20)),
            ("a.txt".to_string(), FolderEntryType::File, Some(10)),
        ]
    );
}

#[test]
fn extension_sizes_reach_every_ancestor() {
    let s = scanned_tree();
    let r = s.get_folder(&path(&["r"])).unwrap();
    assert_eq!(r.file_type_map, vec![("txt".to_string(), 30)]);
    let sub = s.get_folder(&path(&["r", "sub"])).unwrap();
    assert_eq!(sub.file_type_map, vec![("txt".to_string(), 20)]);
}

#[test]
fn empty_folder_gets_a_record() {
    let mut s = DSHashmap::new();
    fold_entry(&mut s, &ev(&[], "r", true, 0));
    fold_entry(&mut s, &ev(&["r"], "empty", true, 4096));
    let f = s.get_folder(&path(&["r", "empty"])).unwrap();
    assert_eq!(f.entries.len(), 1);
    assert_eq!(f.entries[0].kind, FolderEntryType::Parent);
    assert_eq!(f.get_size(), 0);
    assert_eq!(s.get_nodes_len(), 2);
}

#[test]
fn child_before_parent_creates_parent_record() {
    let mut s = DSHashmap::new();
    fold_entry(&mut s, &ev(&["r", "sub"], "b.txt", false, 20));
    let sub = s.get_folder(&path(&["r", "sub"])).unwrap();
    assert_eq!(sub.title, "sub");
    assert_eq!(sub.get_size(), 20);
    assert!(!s.has_path(&path(&["r"])));
}

#[test]
fn folder_entry_does_not_wipe_existing_record() {
    let mut s = DSHashmap::new();
    fold_entry(&mut s, &ev(&["r", "sub"], "b.txt", false, 20));
    fold_entry(&mut s, &ev(&["r"], "sub", true, 4096));
    assert_eq!(s.get_entry_size(&path(&["r", "sub"])), Some(20));
}

#[test]
fn unreadable_metadata_counts_as_zero() {
    let mut s = DSHashmap::new();
    fold_entry(&mut s, &ev(&[], "r", true, 0));
    let e = TraversalEntry {
        parent_path: path(&["r"]),
        file_name: "x.bin".to_string(),
        is_dir: false,
        client_state: None,
    };
    fold_entry(&mut s, &e);
    let r = s.get_folder(&path(&["r"])).unwrap();
    assert_eq!(r.entries[1].size, Some(0));
}

#[test]
fn entry_under_root_without_record_is_dropped() {
    let mut s = DSHashmap::new();
    fold_entry(&mut s, &ev(&[], "f.txt", false, 5));
    assert_eq!(s.get_nodes_len(), 0);
}

#[test]
fn extensions_of_file_names() {
    assert_eq!(extension(&"a.txt".to_string()), "txt");
    assert_eq!(extension(&"archive.tar.gz".to_string()), "gz");
    assert_eq!(extension(&".bashrc".to_string()), "");
    assert_eq!(extension(&"Makefile".to_string()), "");
    assert_eq!(extension(&"trailing.".to_string()), "");
    assert_eq!(extension(&"".to_string()), "");
    assert_eq!(extension(&"..x".to_string()), "x");
}

#[test]
fn files_of_different_folders_fold_in_either_order() {
    let base = || {
        let mut s = DSHashmap::new();
        for e in [ev(&[], "r", true, 0), ev(&["r"], "a", true, 0), ev(&["r"], "b", true, 0)] {
            fold_entry(&mut s, &e);
        }
        s
    };
    let x = ev(&["r", "a"], "x.txt", false, 7);
    let y = ev(&["r", "b"], "y.txt", false, 11);
    let mut one = base();
    fold_entry(&mut one, &x);
    fold_entry(&mut one, &y);
    let mut two = base();
    fold_entry(&mut two, &y);
    fold_entry(&mut two, &x);
    for p in [path(&["r"]), path(&["r", "a"]), path(&["r", "b"])] {
        let f1 = one.get_folder(&p).unwrap();
        let f2 = two.get_folder(&p).unwrap();
        let r1: Vec<(String, Option<u64>)> = f1.entries.iter().map(|e| (e.title.clone(), e.size)).collect();
        let r2: Vec<(String, Option<u64>)> = f2.entries.iter().map(|e| (e.title.clone(), e.size)).collect();
        assert_eq!(r1, r2);
        assert_eq!(f1.file_type_map, f2.file_type_map);
    }
    assert_eq!(one.get_entry_size(&path(&["r"])), Some(18));
}

#[test]
fn folder_entry_after_its_contents_carries_their_size() {
    let orders = [
        vec![ev(&[], "r", true, 0), ev(&["r", "sub"], "b", false, 20), ev(&["r"], "sub", true, 0)],
        vec![ev(&[], "r", true, 0), ev(&["r"], "sub", true, 0), ev(&["r", "sub"], "b", false, 20)],
        vec![ev(&["r", "sub"], "b", false, 20), ev(&["r"], "sub", true, 0), ev(&[], "r", true, 0)],
    ];
    for events in orders {
        let mut s = DSHashmap::new();
        for e in &events {
            fold_entry(&mut s, e);
        }
        assert_eq!(s.get_entry_size(&path(&["r"])), Some(20));
        assert_eq!(s.get_entry_size(&path(&["r", "sub"])), Some(20));
        let r = s.get_folder(&path(&["r"])).unwrap();
        let sub_row = r.entries.iter().find(|e| e.title == "sub").unwrap();
        assert_eq!(sub_row.size, Some(20));
    }
}

#[test]
fn deep_folder_entries_in_reverse_order_add_up() {
    let mut s = DSHashmap::new();
    for e in [
        ev(&["a", "r", "sub"], "b.txt", false, 20),
        ev(&["a", "r"], "sub", true, 0),
        ev(&["a"], "r", true, 0),
        ev(&[], "a", true, 0),
        ev(&["a", "r"], "c.txt", false, 5),
    ] {
        fold_entry(&mut s, &e);
    }
    assert_eq!(s.get_entry_size(&path(&["a"])), Some(25));
    assert_eq!(s.get_entry_size(&path(&["a", "r"])), Some(25));
    assert_eq!(s.get_entry_size(&path(&["a", "r", "sub"])), Some(20));
}
