use wiper::folder::{Folder, SortBy};
use wiper::folder_entry::{FolderEntry, FolderEntryType};
use wiper::store::{DSHashmap, DataStore};

fn path(parts: &[&str]) -> Vec<String> {
    parts.iter().map(|p| p.to_string()).collect()
}

fn file(title: &str, size: Option<u64>) -> FolderEntry {
    FolderEntry { title: title.to_string(), size, kind: FolderEntryType::File, is_loaded: true }
}

#[test]
fn empty_store() {
    let s = DSHashmap::new();
    assert!(s.get_current_path().is_empty());
    assert_eq!(s.get_nodes_len(), 0);
    assert!(!s.has_path(&path(&["r"])));
    assert!(s.get_current_folder().is_none());
    assert_eq!(s.get_entry_size(&path(&["r"])), None);
}

#[test]
fn set_get_replace_and_remove_folders() {
    let mut s = DSHashmap::new();
    let mut f = Folder::new("r".to_string());
    f.entries.push(file("a", Some(4)));
    s.set_folder(&path(&["r"]), f);
    s.set_folder(&path(&["r", "sub"]), Folder::new("sub".to_string()));
    assert!(s.has_path(&path(&["r"])));
    assert!(s.has_path(&path(&["r", "sub"])));
    assert_eq!(s.get_nodes_len(), 2);
    assert_eq!(s.get_entry_size(&path(&["r"])), Some(4));
    assert_eq!(s.get_folder(&path(&["r"])).unwrap().entries.len(), 2);

    s.set_folder(&path(&["r"]), Folder::new("r".to_string()));
    assert_eq!(s.get_nodes_len(), 2);
    assert_eq!(s.get_entry_size(&path(&["r"])), Some(0));

    s.remove_path(&path(&["r", "sub"]));
    assert!(!s.has_path(&path(&["r", "sub"])));
    assert_eq!(s.get_nodes_len(), 1);
    s.remove_path(&path(&["nothing"]));
    assert_eq!(s.get_nodes_len(), 1);
}

#[test]
fn navigation_moves_the_active_path() {
    let mut s = DSHashmap::new();
    s.set_current_path(&path(&["r"]));
    s.move_to_child("sub");
    assert_eq!(*s.get_current_path(), path(&["r", "sub"]));
    s.move_to_parent();
    assert_eq!(*s.get_current_path(), path(&["r"]));
    s.move_to_parent();
    assert!(s.get_current_path().is_empty());
    s.move_to_parent();
    assert!(s.get_current_path().is_empty());
}

#[test]
fn current_folder_follows_active_path() {
    let mut s = DSHashmap::new();
    s.set_current_path(&path(&["r"]));
    assert!(s.get_current_folder().is_none());
    s.set_current_folder(Folder::new("r".to_string()));
    assert_eq!(s.get_current_folder().unwrap().title, "r");
    assert!(s.has_path(&path(&["r"])));
}

#[test]
fn sort_current_folder_sorts_once_per_key() {
    let mut s = DSHashmap::new();
    s.set_current_path(&path(&["r"]));
    let mut f = Folder::new("r".to_string());
    f.entries.push(file("b", Some(1)));
    f.entries.push(file("a", Some(5)));
    s.set_current_folder(f);
    s.sort_current_folder(SortBy::Title);
    let t: Vec<String> = s.get_current_folder().unwrap().entries.iter().map(|e| e.title.clone()).collect();
    assert_eq!(t, vec!["..", "a", "b"]);
    assert_eq!(s.get_current_folder().unwrap().sorted_by, Some(SortBy::Title));
    s.sort_current_folder(SortBy::Size);
    let t: Vec<String> = s.get_current_folder().unwrap().entries.iter().map(|e| e.title.clone()).collect();
    assert_eq!(t, vec!["..", "a", "b"]);
    assert_eq!(s.get_current_folder().unwrap().sorted_by, Some(SortBy::Size));
}

#[test]
fn sort_cache_skips_resorting_with_same_key() {
    let mut s = DSHashmap::new();
    s.set_current_path(&path(&["r"]));
    let mut f = Folder::new("r".to_string());
    f.entries.push(file("b", Some(1)));
    f.entries.push(file("a", Some(5)));
    f.sorted_by = Some(SortBy::Title);
    s.set_current_folder(f);
    s.sort_current_folder(SortBy::Title);
    let t: Vec<String> = s.get_current_folder().unwrap().entries.iter().map(|e| e.title.clone()).collect();
    assert_eq!(t, vec!["..", "b", "a"]);
}

fn scan_into<S: DataStore>() -> S {
    let mut s = S::new();
    s.set_current_path(&path(&["r"]));
    s.set_current_folder(Folder::new("r".to_string()));
    s.set_folder(&path(&["r", "sub"]), Folder::new("sub".to_string()));
    s.move_to_child("sub");
    s
}

#[test]
fn store_through_its_interface() {
    let mut s: DSHashmap = scan_into();
    assert_eq!(DataStore::get_nodes_len(&s), 2);
    assert_eq!(*DataStore::get_current_path(&s), path(&["r", "sub"]));
    assert_eq!(DataStore::get_current_folder(&s).unwrap().title, "sub");
    DataStore::move_to_parent(&mut s);
    DataStore::sort_current_folder(&mut s, SortBy::Size);
    assert_eq!(DataStore::get_current_folder(&s).unwrap().sorted_by, Some(SortBy::Size));
    DataStore::remove_path(&mut s, &path(&["r", "sub"]));
    assert!(!DataStore::has_path(&s, &path(&["r", "sub"])));
    assert_eq!(DataStore::get_entry_size(&s, &path(&["r"])), Some(0));
}

#[test]
fn keys_list_recorded_paths() {
    let mut s = DSHashmap::new();
    s.set_folder(&path(&["r"]), Folder::new("r".to_string()));
    s.set_folder(&path(&["r", "a"]), Folder::new("a".to_string()));
    s.set_folder(&path(&["r"]), Folder::new("r".to_string()));
    assert_eq!(s.get_keys(), vec![path(&["r"]), path(&["r", "a"])]);
}
