use cargo_outdated::paths::{
    check_file_name, is_file, lock_file, manifest_file, mirror_path,
};

#[test]
fn mirror_replaces_workspace_root() {
    assert_eq!(
        mirror_path("/home/me/ws/member", "/home/me/ws", "/tmp/scratch1"),
        Some("/tmp/scratch1/member".to_string())
    );
    assert_eq!(mirror_path("/home/me/ws", "/home/me/ws", "/tmp/s"), Some("/tmp/s".to_string()));
    assert_eq!(mirror_path("/elsewhere/member", "/home/me/ws", "/tmp/s"), None);
}

#[test]
fn manifest_and_lock_files() {
    assert_eq!(manifest_file("/tmp/s/member"), "/tmp/s/member/Cargo.toml");
    assert_eq!(lock_file("/tmp/s"), "/tmp/s/Cargo.lock");
}

#[test]
fn file_names_accepted_and_refused() {
    assert_eq!(is_file("/a/b/Cargo.toml".to_string()), Ok(()));
    assert_eq!(is_file("Cargo.toml".to_string()), Ok(()));
    assert_eq!(
        is_file("/a/..".to_string()),
        Err("'/a/..' doesn't appear to be a valid file name".to_string())
    );
    assert!(is_file("/".to_string()).is_err());
    assert!(is_file(String::new()).is_err());
}

#[test]
fn file_name_check_on_given_answer() {
    assert_eq!(check_file_name("x", true), Ok(()));
    assert_eq!(
        check_file_name("x", false),
        Err("'x' doesn't appear to be a valid file name".to_string())
    );
}
