use rsycle::binstore::{entry_name, parse_entry_name};
use rsycle::digits::{dec_bytes, parse_dec};
use rsycle::resolve::{build_path, AbsPath};

fn path_of(cwd: &AbsPath, name: &str) -> AbsPath {
    build_path(cwd, &name.as_bytes().to_vec())
}

fn spelling(p: &AbsPath) -> String {
    String::from_utf8(p.to_bytes()).unwrap()
}

#[test]
fn dec_bytes_renders_decimal() {
    assert_eq!(dec_bytes(0), b"0".to_vec());
    assert_eq!(dec_bytes(7), b"7".to_vec());
    assert_eq!(dec_bytes(1234567890), b"1234567890".to_vec());
    assert_eq!(dec_bytes(u64::MAX), b"18446744073709551615".to_vec());
}

#[test]
fn parse_dec_round_trips() {
    assert_eq!(parse_dec(b"0"), Some(0));
    assert_eq!(parse_dec(b"1696000000"), Some(1696000000));
    assert_eq!(parse_dec(b"18446744073709551615"), Some(u64::MAX));
}

#[test]
fn parse_dec_rejects_bad_input() {
    assert_eq!(parse_dec(b""), None);
    assert_eq!(parse_dec(b"12a"), None);
    assert_eq!(parse_dec(b"-3"), None);
    // one past u64::MAX
    assert_eq!(parse_dec(b"18446744073709551616"), None);
}

#[test]
fn build_path_handles_absolute_names() {
    let root = AbsPath::root();
    let cwd = path_of(&root, "/home/user");
    assert_eq!(spelling(&path_of(&cwd, "/etc/passwd")), "/etc/passwd");
    assert_eq!(spelling(&path_of(&root, "/")), "/");
    assert_eq!(spelling(&path_of(&cwd, "/..")), "/");
}

#[test]
fn build_path_normalizes_relative_names() {
    let root = AbsPath::root();
    let cwd = path_of(&root, "/home/user");
    assert_eq!(spelling(&path_of(&cwd, "x")), "/home/user/x");
    assert_eq!(spelling(&path_of(&cwd, "./x")), "/home/user/x");
    assert_eq!(spelling(&path_of(&cwd, "../y")), "/home/y");
    assert_eq!(spelling(&path_of(&cwd, "a//b/")), "/home/user/a/b");
    assert_eq!(spelling(&path_of(&cwd, "")), "/home/user");
    assert_eq!(spelling(&path_of(&cwd, "../../../../up")), "/up");
}

#[test]
fn build_path_canonical_spelling_is_stable() {
    // resolving a path's own spelling from any other directory changes nothing
    let root = AbsPath::root();
    let cwd1 = path_of(&root, "/home/user/project");
    let cwd2 = path_of(&root, "/tmp");
    let via_relative = path_of(&cwd1, "../notes/./todo.txt");
    let via_absolute = path_of(&cwd2, &spelling(&via_relative));
    assert_eq!(via_absolute.to_bytes(), via_relative.to_bytes());
    assert_eq!(spelling(&via_relative), "/home/user/notes/todo.txt");
}

#[test]
fn entry_name_appends_stamp() {
    assert_eq!(entry_name(&b"file.txt".to_vec(), 99), b"file.txt.99".to_vec());
    assert_eq!(entry_name(&b"a".to_vec(), 0), b"a.0".to_vec());
}

#[test]
fn parse_entry_name_splits_at_last_dot() {
    let parsed = parse_entry_name(&b"file.txt.99".to_vec());
    assert_eq!(parsed, Some((b"file.txt".to_vec(), 99)));
    let parsed = parse_entry_name(&b"a.5.123".to_vec());
    assert_eq!(parsed, Some((b"a.5".to_vec(), 123)));
}

#[test]
fn parse_entry_name_rejects_unstamped_names() {
    assert_eq!(parse_entry_name(&b"noext".to_vec()), None);
    // the hidden log file: suffix is not a number
    assert_eq!(parse_entry_name(&b".log".to_vec()), None);
    assert_eq!(parse_entry_name(&b"a.12x".to_vec()), None);
    assert_eq!(parse_entry_name(&b"ends.".to_vec()), None);
}
