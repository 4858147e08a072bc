use wiper::config::{Config, InitConfig};
use wiper::logger::{Logger, MessageLevel, MAX_MESSAGES};
use wiper::spinner::Spinner;

#[test]
fn init_config_takes_first_argument() {
    let c = InitConfig::build(vec!["wiper".to_string(), "/tmp".to_string(), "x".to_string()]).unwrap();
    assert_eq!(c.file_path, Some("/tmp".to_string()));
    let c = InitConfig::build(vec!["wiper".to_string()]).unwrap();
    assert_eq!(c.file_path, None);
    let c = InitConfig::build(vec![]).unwrap();
    assert_eq!(c.file_path, None);
}

#[test]
fn config_takes_first_argument() {
    let c = Config::build(vec!["wiper".to_string(), "dir".to_string()]).unwrap();
    assert_eq!(c.file_path, Some("dir".to_string()));
}

#[test]
fn log_keeps_newest_first_and_bounded() {
    let mut l = Logger::new();
    for i in 0..40 {
        l.log(format!("m{}", i));
    }
    assert_eq!(l.messages.len(), MAX_MESSAGES);
    assert_eq!(l.messages[0].2, "m39");
    assert_eq!(l.messages[0].1, MessageLevel::Info);
    assert_eq!(l.messages[MAX_MESSAGES - 1].2, "m10");
}

#[test]
fn timers_log_once_when_stopped() {
    let mut l = Logger::new();
    l.stop_timer("t");
    assert!(l.messages.is_empty());
    l.start_timer("t");
    l.start_timer("t");
    assert_eq!(l.timers.len(), 1);
    l.stop_timer("t");
    assert_eq!(l.messages.len(), 1);
    assert!(l.messages[0].2.starts_with("[t]: "));
    assert!(l.messages[0].2.contains('.'));
    assert!(l.messages[0].2.ends_with('s'));
    l.stop_timer("t");
    assert_eq!(l.messages.len(), 1);
}

#[test]
fn spinner_turns_while_loading() {
    let mut s = Spinner::new();
    assert_eq!(s.get_icons(true), ('⣿', '⣿'));
    assert_eq!(s.current, 0);
    assert_eq!(s.get_icons(false), ('⠠', '⠂'));
    assert_eq!(s.current, 1);
    s.move_position(-3);
    assert_eq!(s.current, 6);
    s.move_position(10);
    assert_eq!(s.current, 0);
    s.move_position(isize::MIN);
    assert_eq!(s.current, 0);
}
