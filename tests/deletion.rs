use wiper::folder::SortBy;
use wiper::store::DSHashmap;
use wiper::traversal::{fold_entry, EntryState, TraversalEntry};

fn path(parts: &[&str]) -> Vec<String> {
    parts.iter().map(|p| p.to_string()).collect()
}

fn ev(parent: &[&str], name: &str, is_dir: bool, size: u64) -> TraversalEntry {
    TraversalEntry {
        parent_path: path(parent),
        file_name: name.to_string(),
        is_dir,
        client_state: Some(EntryState { size }),
    }
}

fn scanned_tree() -> DSHashmap {
    let mut s = DSHashmap::new();
    for e in [
        ev(&[], "r", true, 0),
        ev(&["r"], "a.txt", false, 10),
        ev(&["r"], "sub", true, 0),
        ev(&["r", "sub"], "b.txt", false, 20),
    ] {
        fold_entry(&mut s, &e);
    }
    s.set_current_path(&path(&["r"]));
    s.sort_current_folder(SortBy::Title);
    s
}

fn select(s: &mut DSHashmap, title: &str) {
    let mut f = s.get_current_folder().unwrap().clone();
    f.cursor_index = f.entries.iter().position(|e| e.title == title).unwrap();
    s.set_current_folder(f);
}

#[test]
fn deleting_a_file_shrinks_its_folder() {
    let mut s = scanned_tree();
    select(&mut s, "a.txt");
    assert!(s.apply_deletion());
    assert_eq!(s.get_entry_size(&path(&["r"])), Some(20));
    let f = s.get_current_folder().unwrap();
    assert!(f.entries.iter().all(|e| e.title != "a.txt"));
    assert_eq!(f.entries.len(), 2);
}

#[test]
fn deleting_a_folder_forgets_its_record() {
    let mut s = scanned_tree();
    select(&mut s, "sub");
    assert!(s.apply_deletion());
    assert_eq!(s.get_entry_size(&path(&["r"])), Some(10));
    assert!(!s.has_path(&path(&["r", "sub"])));
}

#[test]
fn deleting_a_file_deep_down_updates_every_ancestor() {
    let mut s = DSHashmap::new();
    for e in [
        ev(&[], "r", true, 0),
        ev(&["r"], "f1", true, 0),
        ev(&["r", "f1"], "f2", true, 0),
        ev(&["r", "f1", "f2"], "x.txt", false, 100),
        ev(&["r", "f1", "f2"], "y.txt", false, 100),
        ev(&["r", "f1"], "z.txt", false, 100),
    ] {
        fold_entry(&mut s, &e);
    }
    assert_eq!(s.get_entry_size(&path(&["r"])), Some(300));
    s.set_current_path(&path(&["r", "f1", "f2"]));
    select(&mut s, "x.txt");
    assert!(s.apply_deletion());
    assert_eq!(s.get_entry_size(&path(&["r", "f1", "f2"])), Some(100));
    assert_eq!(s.get_entry_size(&path(&["r", "f1"])), Some(200));
    assert_eq!(s.get_entry_size(&path(&["r"])), Some(200));
}

#[test]
fn parent_row_is_never_deleted() {
    let mut s = scanned_tree();
    select(&mut s, "..");
    assert!(!s.apply_deletion());
    assert_eq!(s.get_entry_size(&path(&["r"])), Some(30));
    assert_eq!(s.get_current_folder().unwrap().entries.len(), 3);
}

#[test]
fn nothing_to_delete_without_active_folder() {
    let mut s = scanned_tree();
    s.set_current_path(&path(&["elsewhere"]));
    assert!(!s.apply_deletion());
}

#[test]
fn cursor_moves_up_after_deleting_bottom_entry() {
    let mut s = scanned_tree();
    select(&mut s, "a.txt");
    assert_eq!(s.get_current_folder().unwrap().cursor_index, 2);
    assert!(s.apply_deletion());
    assert_eq!(s.get_current_folder().unwrap().cursor_index, 1);
}
