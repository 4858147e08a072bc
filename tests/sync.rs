use wiper::folder::Folder;
use wiper::folder_entry::{FolderEntry, FolderEntryType};
use wiper::store::DSHashmap;
use wiper::sync::process_path_sync;

fn path(parts: &[&str]) -> Vec<String> {
    parts.iter().map(|p| p.to_string()).collect()
}

fn row(title: &str, kind: FolderEntryType, size: Option<u64>) -> FolderEntry {
    FolderEntry { title: title.to_string(), size, kind, is_loaded: true }
}

fn listing() -> Folder {
    let mut f = Folder::new("r".to_string());
    f.entries.push(row("a.txt", FolderEntryType::File, Some(10)));
    f.entries.push(row("sub", FolderEntryType::Folder, None));
    f.entries.push(row("b.txt", FolderEntryType::File, Some(5)));
    f
}

#[test]
fn unknown_folder_takes_listing_without_subfolders() {
    let mut s = DSHashmap::new();
    let roots = process_path_sync(&mut s, &path(&["r"]), listing());
    assert_eq!(roots, vec![path(&["r", "sub"])]);
    let f = s.get_folder(&path(&["r"])).unwrap();
    let t: Vec<String> = f.entries.iter().map(|e| e.title.clone()).collect();
    assert_eq!(t, vec!["..", "a.txt", "b.txt"]);
    assert_eq!(f.get_size(), 15);
}

#[test]
fn known_folder_gains_only_new_files() {
    let mut s = DSHashmap::new();
    let mut known = Folder::new("r".to_string());
    known.entries.push(row("a.txt", FolderEntryType::File, Some(10)));
    known.entries.push(row("sub", FolderEntryType::Folder, Some(7)));
    s.set_folder(&path(&["r"]), known);
    let roots = process_path_sync(&mut s, &path(&["r"]), listing());
    assert!(roots.is_empty());
    let f = s.get_folder(&path(&["r"])).unwrap();
    let t: Vec<String> = f.entries.iter().map(|e| e.title.clone()).collect();
    assert_eq!(t, vec!["..", "a.txt", "sub", "b.txt"]);
    assert_eq!(f.get_size(), 22);
    assert_eq!(f.sorted_by, None);
}

#[test]
fn known_folder_reports_new_subfolders() {
    let mut s = DSHashmap::new();
    s.set_folder(&path(&["r"]), Folder::new("r".to_string()));
    let roots = process_path_sync(&mut s, &path(&["r"]), listing());
    assert_eq!(roots, vec![path(&["r", "sub"])]);
    assert_eq!(s.get_folder(&path(&["r"])).unwrap().entries.len(), 3);
}
