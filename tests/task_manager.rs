use wiper::logger::Logger;
use wiper::store::DSHashmap;
use wiper::folder::Folder;
use wiper::task_manager::{TaskManager, TraversalEvent};
use wiper::traversal::{EntryState, TraversalEntry};

fn path(parts: &[&str]) -> Vec<String> {
    parts.iter().map(|p| p.to_string()).collect()
}

fn entry(parent: &[&str], name: &str, is_dir: bool, size: u64) -> TraversalEvent {
    TraversalEvent::Entry(TraversalEntry {
        parent_path: path(parent),
        file_name: name.to_string(),
        is_dir,
        client_state: Some(EntryState { size }),
    })
}

#[test]
fn new_manager_is_idle() {
    let tm = TaskManager::new();
    assert!(tm.is_done());
    assert_eq!(tm.time_taken(), None);
}

#[test]
fn start_skips_known_roots() {
    let mut tm = TaskManager::new();
    let mut store = DSHashmap::new();
    let mut logger = Logger::new();
    store.set_folder(&path(&["known"]), Folder::new("known".to_string()));
    let roots = vec![path(&["known"]), path(&["new"])];
    let to_walk = tm.start(&roots, &store, &mut logger);
    assert_eq!(to_walk, vec![path(&["new"])]);
    assert!(!tm.is_done());
    assert!(tm.task_timer.start.is_some());
    assert!(tm.task_timer.finish.is_none());
}

#[test]
fn start_with_only_known_roots_stays_idle() {
    let mut tm = TaskManager::new();
    let mut store = DSHashmap::new();
    let mut logger = Logger::new();
    store.set_folder(&path(&["known"]), Folder::new("known".to_string()));
    let to_walk = tm.start(&vec![path(&["known"])], &store, &mut logger);
    assert!(to_walk.is_empty());
    assert!(tm.is_done());
}

#[test]
fn maybe_add_task_queues_unknown_paths() {
    let tm = TaskManager::new();
    let mut store = DSHashmap::new();
    store.set_folder(&path(&["a"]), Folder::new("a".to_string()));
    let mut queue = Vec::new();
    assert!(!tm.maybe_add_task(&store, &path(&["a"]), &mut queue));
    assert!(tm.maybe_add_task(&store, &path(&["b"]), &mut queue));
    assert_eq!(queue, vec![path(&["b"])]);
}

#[test]
fn results_from_channel_are_folded_and_finish_stops_work() {
    let mut tm = TaskManager::new();
    let mut store = DSHashmap::new();
    let mut logger = Logger::new();
    let to_walk = tm.start(&vec![path(&["r"])], &store, &mut logger);
    assert_eq!(to_walk.len(), 1);
    let tx = tm.event_tx.clone();
    tx.send(entry(&[], "r", true, 0)).unwrap();
    tx.send(entry(&["r"], "a.txt", false, 10)).unwrap();
    tx.send(TraversalEvent::EntryError).unwrap();
    tx.send(TraversalEvent::Finished(0)).unwrap();
    tm.process_results(&mut store, &mut logger);
    assert!(tm.is_done());
    assert_eq!(store.get_entry_size(&path(&["r"])), Some(10));
    assert!(tm.time_taken().is_some());
    assert!(logger.messages.len() >= 2);
}

#[test]
fn process_results_without_events_changes_nothing() {
    let mut tm = TaskManager::new();
    let mut store = DSHashmap::new();
    let mut logger = Logger::new();
    tm.process_results(&mut store, &mut logger);
    assert_eq!(store.get_nodes_len(), 0);
    assert!(tm.is_done());
}
