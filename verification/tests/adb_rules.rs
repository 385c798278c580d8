use freedroid::adb::{
    check_deletable, command_output, list_dir_command, make_dir_command, pull_args, push_args,
    remove_command, remove_many_command, rename_command, scoped_args, shell_quote,
    validate_device_path, version_line,
};
use freedroid::error::Error;

fn invalid_path(r: Result<(), Error>) -> String {
    match r {
        Err(Error::InvalidPath(m)) => m,
        _ => panic!("expected an invalid path error"),
    }
}

#[test]
fn quotes_plain_and_embedded_quotes() {
    assert_eq!(shell_quote("/sdcard/a b"), "'/sdcard/a b'");
    assert_eq!(shell_quote("it's"), "'it'\\''s'");
    assert_eq!(shell_quote(""), "''");
}

#[test]
fn accepts_storage_paths() {
    assert!(validate_device_path("/sdcard").is_ok());
    assert!(validate_device_path("/storage").is_ok());
    assert!(validate_device_path("/sdcard/DCIM/a.jpg").is_ok());
    assert!(validate_device_path("/storage/ABCD-1234/x").is_ok());
    assert!(validate_device_path("/sdcard/..hidden").is_ok());
}

#[test]
fn rejects_outside_and_traversal() {
    assert_eq!(
        invalid_path(validate_device_path("/data/local")),
        "/data/local is outside allowed device storage"
    );
    assert_eq!(
        invalid_path(validate_device_path("/sdcardx")),
        "/sdcardx is outside allowed device storage"
    );
    assert_eq!(
        invalid_path(validate_device_path("/sdcard/../data")),
        "path traversal not allowed"
    );
    assert_eq!(invalid_path(validate_device_path("/sdcard/a/..")), "path traversal not allowed");
}

#[test]
fn refuses_to_delete_roots() {
    assert_eq!(
        invalid_path(check_deletable("/sdcard")),
        "refusing to delete a storage root: /sdcard"
    );
    assert_eq!(
        invalid_path(check_deletable("/storage/")),
        "refusing to delete a storage root: /storage/"
    );
    assert_eq!(
        invalid_path(check_deletable("/sdcard//")),
        "refusing to delete a storage root: /sdcard//"
    );
    assert!(check_deletable("/sdcard/DCIM").is_ok());
    assert_eq!(
        invalid_path(check_deletable("/storage/ABCD-1234")),
        "refusing to delete a storage root: /storage/ABCD-1234"
    );
    assert_eq!(
        invalid_path(check_deletable("/storage/ABCD-1234/")),
        "refusing to delete a storage root: /storage/ABCD-1234/"
    );
    assert_eq!(
        invalid_path(check_deletable("/storage/emulated")),
        "refusing to delete a storage root: /storage/emulated"
    );
    assert_eq!(
        invalid_path(check_deletable("/storage//ABCD-1234/./")),
        "refusing to delete a storage root: /storage//ABCD-1234/./"
    );
    assert!(check_deletable("/storage/ABCD-1234/DCIM").is_ok());
    assert!(check_deletable("/sdcard/./x").is_ok());
    assert_eq!(
        invalid_path(check_deletable("/etc/x")),
        "/etc/x is outside allowed device storage"
    );
}

#[test]
fn builds_device_commands() {
    assert_eq!(
        list_dir_command("/sdcard").ok().unwrap(),
        "find '/sdcard/' -maxdepth 1 -mindepth 1 -exec stat -c '%n|%s|%Y|%F' {} + 2>/dev/null"
    );
    assert_eq!(
        list_dir_command("/sdcard/Music//").ok().unwrap(),
        "find '/sdcard/Music/' -maxdepth 1 -mindepth 1 -exec stat -c '%n|%s|%Y|%F' {} + 2>/dev/null"
    );
    assert!(list_dir_command("/tmp").is_err());
    assert_eq!(make_dir_command("/sdcard/new dir").ok().unwrap(), "mkdir -p '/sdcard/new dir'");
    assert_eq!(remove_command("/sdcard/x").ok().unwrap(), "rm -rf '/sdcard/x'");
    assert!(remove_command("/sdcard").is_err());
    assert!(remove_command("/storage/ABCD-1234").is_err());
    assert_eq!(
        rename_command("/sdcard/a", "/sdcard/b's").ok().unwrap(),
        "mv '/sdcard/a' '/sdcard/b'\\''s'"
    );
    assert!(rename_command("/sdcard/a", "/data/b").is_err());
}

#[test]
fn remove_many_joins_or_refuses() {
    let none: Vec<String> = vec![];
    assert!(matches!(remove_many_command(&none), Ok(None)));
    let ps = vec!["/sdcard/a".to_string(), "/sdcard/b c".to_string()];
    assert_eq!(
        remove_many_command(&ps).ok().unwrap().unwrap(),
        "rm -rf '/sdcard/a' '/sdcard/b c'"
    );
    let bad = vec!["/sdcard/a".to_string(), "/sdcard".to_string(), "/x".to_string()];
    match remove_many_command(&bad) {
        Err(Error::InvalidPath(m)) => assert_eq!(m, "refusing to delete a storage root: /sdcard"),
        _ => panic!("expected refusal"),
    }
}

#[test]
fn transfer_and_scoped_arguments() {
    let a = pull_args("SER", "/sdcard/f", "/tmp/f").ok().unwrap();
    assert_eq!(a, vec!["-s", "SER", "pull", "-a", "/sdcard/f", "/tmp/f"]);
    let b = push_args("SER", "/tmp/f", "/sdcard/f").ok().unwrap();
    assert_eq!(b, vec!["-s", "SER", "push", "/tmp/f", "/sdcard/f"]);
    assert!(push_args("SER", "/tmp/f", "/system/f").is_err());
    let s = scoped_args("SER", &vec!["shell".to_string(), "ls".to_string()]);
    assert_eq!(s, vec!["-s", "SER", "shell", "ls"]);
}

#[test]
fn reads_finished_commands() {
    assert_eq!(command_output(true, b"out\n", b"warn").ok().unwrap(), "out\n");
    match command_output(false, b" partial ", b"  boom \n") {
        Err(Error::Adb(m)) => assert_eq!(m, "boom"),
        _ => panic!(),
    }
    match command_output(false, b" partial ", b"  \n") {
        Err(Error::Adb(m)) => assert_eq!(m, "partial"),
        _ => panic!(),
    }
    match command_output(false, b"", b"") {
        Err(Error::Adb(m)) => assert_eq!(m, "command failed"),
        _ => panic!(),
    }
    assert_eq!(command_output(true, &[0x66, 0xff, 0x67], b"").ok().unwrap(), "f\u{fffd}g");
    assert_eq!(version_line("Android Debug Bridge version 1.0.41\nVersion 34\n"), "Android Debug Bridge version 1.0.41");
    assert_eq!(version_line(""), "");
}

#[test]
fn error_messages() {
    assert_eq!(Error::Adb("x".to_string()).message(), "adb error: x");
    assert_eq!(Error::InvalidPath("p".to_string()).message(), "invalid path: p");
    assert_eq!(Error::Other("o".to_string()).message(), "o");
}
