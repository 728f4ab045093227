use aur_check_rebuild::lock::{lock_is_held, lock_path, parse_lock_pid, LockError, LockFile};
use aur_check_rebuild::settings::{RebuildSettings, ScanSettings, Settings};

#[test]
fn lock_path_is_in_tmp() {
    assert_eq!(lock_path(&"aur-check-rebuild".to_string()), "/tmp/aur-check-rebuild.lock");
}

#[test]
fn lock_pid_is_parsed_after_trimming() {
    assert_eq!(parse_lock_pid(" 4242\n"), Some(4242));
    assert_eq!(parse_lock_pid("+7"), Some(7));
    assert_eq!(parse_lock_pid("-7"), None);
    assert_eq!(parse_lock_pid("12 34"), None);
    assert_eq!(parse_lock_pid(""), None);
    assert_eq!(parse_lock_pid("99999999999999999999999"), None);
}

#[test]
fn lock_is_held_by_a_process_of_the_same_program() {
    let program = "/usr/bin/aur-check-rebuild".to_string();
    let args = Some(vec!["/usr/bin/aur-check-rebuild".to_string(), "--cache".to_string()]);
    assert!(lock_is_held(&args, &program));
    assert!(!lock_is_held(&Some(vec!["/usr/bin/vim".to_string()]), &program));
    assert!(!lock_is_held(&None, &program));
}

#[test]
fn lock_is_taken_unless_held() {
    let name = "x".to_string();
    match LockFile::try_to_acquire(&name, true) {
        Err(e) => {
            assert_eq!(e, LockError::AlreadyExists);
            assert_eq!(e.message(), "Lock already acquired by other instance");
        }
        Ok(_) => panic!("lock taken while held"),
    }
    let lock = LockFile::try_to_acquire(&name, false).ok().unwrap();
    assert_eq!(lock.path, "/tmp/x.lock");
}

#[test]
fn settings_default_to_on() {
    let s = Settings::default();
    assert!(s.scan.recursive && s.rebuild.automatic);
    assert!(ScanSettings::default().recursive);
    assert!(RebuildSettings::default().automatic);
}
