use wd::order::name_less;
use wd::path::expand_path;
use wd::target::{clean, get_name, parse_entries, TargetError, TargetsFile};

const HOME: &str = "/home/u";

fn pairs(v: &[(&str, &str)]) -> Vec<(String, String)> {
    v.iter().map(|(a, b)| (a.to_string(), b.to_string())).collect()
}

fn empty_store() -> TargetsFile {
    TargetsFile::read("/tmp/wd-config".to_string(), "", Some(HOME), HOME)
}

#[test]
fn add_then_get_returns_expanded_path() {
    let mut t = empty_store();
    assert!(t.add(Some("proj"), Some("~/code/../code/./proj"), Some(HOME), HOME).is_ok());
    assert_eq!(t.get("proj"), Some("/home/u/code/proj".to_string()));
    assert!(t.add(Some("rel"), Some("sub/dir"), Some(HOME), "/work").is_ok());
    assert_eq!(t.get("rel"), Some("/work/sub/dir".to_string()));
}

#[test]
fn add_duplicate_same_path_fails_unchanged() {
    let mut t = empty_store();
    t.add(Some("a"), Some("/x"), None, "/").unwrap();
    let r = t.add(Some("a"), Some("/x"), None, "/");
    assert!(matches!(r, Err(TargetError::DuplicateTarget { ref name, same_path: true }) if name == "a"));
    assert_eq!(t.items(), pairs(&[("a", "/x")]));
}

#[test]
fn add_duplicate_other_path_fails_unchanged() {
    let mut t = empty_store();
    t.add(Some("a"), Some("/x"), None, "/").unwrap();
    let r = t.add(Some("a"), Some("/y"), None, "/");
    assert!(matches!(r, Err(TargetError::DuplicateTarget { ref name, same_path: false }) if name == "a"));
    assert_eq!(t.items(), pairs(&[("a", "/x")]));
}

#[test]
fn remove_absent_fails() {
    let mut t = empty_store();
    t.add(Some("a"), Some("/x"), None, "/").unwrap();
    let r = t.remove(Some("b"), "/");
    assert!(matches!(r, Err(TargetError::TargetNotFound { ref name }) if name == "b"));
    assert_eq!(t.items(), pairs(&[("a", "/x")]));
}

#[test]
fn remove_then_get_is_none() {
    let mut t = empty_store();
    t.add(Some("a"), Some("/x"), None, "/").unwrap();
    t.add(Some("b"), Some("/y"), None, "/").unwrap();
    assert!(t.remove(Some("a"), "/").is_ok());
    assert_eq!(t.get("a"), None);
    assert_eq!(t.get("b"), Some("/y".to_string()));
}

#[test]
fn remove_defaults_to_current_directory_name() {
    let mut t = empty_store();
    t.add(Some("myapp"), Some("/elsewhere"), None, "/").unwrap();
    assert!(t.remove(None, "/home/u/myapp").is_ok());
    assert_eq!(t.get("myapp"), None);
}

#[test]
fn write_then_read_round_trip() {
    let mut t = empty_store();
    t.add(Some("zeta"), Some("/z/path"), None, "/").unwrap();
    t.add(Some("alpha"), Some("/a:with:colons"), None, "/").unwrap();
    t.add(Some("mid"), Some("/m"), None, "/").unwrap();
    let text = t.write();
    assert_eq!(text, "alpha:/a:with:colons\nmid:/m\nzeta:/z/path");
    let back = TargetsFile::read("/tmp/wd-config".to_string(), &text, Some(HOME), "/elsewhere");
    assert_eq!(back.items(), t.items());
}

#[test]
fn items_sorted_regardless_of_insertion_order() {
    let mut t = empty_store();
    for n in ["delta", "Bravo", "alpha", "charlie", "a"] {
        t.add(Some(n), Some("/p"), None, "/").unwrap();
    }
    let names: Vec<String> = t.items().into_iter().map(|(n, _)| n).collect();
    assert_eq!(names, vec!["Bravo", "a", "alpha", "charlie", "delta"]);
}

#[test]
fn clean_removes_exactly_missing_paths() {
    let t = TargetsFile::read("/tmp/wd-config".to_string(), "a:/a\nb:/b\nc:/c", None, "/");
    let (kept, removed) = clean(&t, &vec![true, false, true]);
    assert_eq!(removed, pairs(&[("b", "/b")]));
    assert_eq!(kept.items(), pairs(&[("a", "/a"), ("c", "/c")]));
    assert_eq!(kept.config_path(), "/tmp/wd-config");
}

#[test]
fn clean_twice_removes_nothing() {
    let t = TargetsFile::read("/tmp/wd-config".to_string(), "a:/a\nb:/b", None, "/");
    let (kept, removed) = clean(&t, &vec![false, true]);
    assert_eq!(removed.len(), 1);
    let flags = vec![true; kept.items().len()];
    let (again, removed_again) = clean(&kept, &flags);
    assert!(removed_again.is_empty());
    assert_eq!(again.items(), kept.items());
}

#[test]
fn clean_scenario_missing_project() {
    let t = TargetsFile::read("/tmp/wd-config".to_string(), "proj:~/code/proj", Some(HOME), HOME);
    let flags: Vec<bool> = t.items().iter().map(|(_, p)| std::path::Path::new(p).exists()).collect();
    assert_eq!(flags, vec![false]);
    let (kept, removed) = clean(&t, &flags);
    assert_eq!(removed, pairs(&[("proj", "/home/u/code/proj")]));
    assert_eq!(kept.write(), "");
}

#[test]
fn read_empty_content_gives_empty_store() {
    let t = TargetsFile::read("/nowhere/config".to_string(), "", Some(HOME), HOME);
    assert!(t.items().is_empty());
    assert_eq!(t.config_path(), "/nowhere/config");
}

#[test]
fn add_defaults_to_current_directory() {
    let mut t = empty_store();
    assert!(t.add(None, None, Some(HOME), "/home/u/myapp").is_ok());
    assert_eq!(t.items(), pairs(&[("myapp", "/home/u/myapp")]));
}

#[test]
fn read_skips_malformed_line() {
    let t = TargetsFile::read(
        "/tmp/wd-config".to_string(),
        "one:/p/one\ngarbage-no-colon\n\ntwo:~/two\n",
        Some(HOME),
        HOME,
    );
    assert_eq!(t.items(), pairs(&[("one", "/p/one"), ("two", "/home/u/two")]));
}

#[test]
fn read_later_line_wins_and_crlf() {
    let t = TargetsFile::read("/tmp/wd-config".to_string(), "a:/first\r\na:/second\r\nb:/b", None, "/");
    assert_eq!(t.items(), pairs(&[("a", "/second"), ("b", "/b")]));
}

#[test]
fn parse_splits_at_first_colon() {
    let e = parse_entries("a:b:c\nno colon\n:empty\r\nlast:x\r");
    assert_eq!(e, pairs(&[("a", "b:c"), ("", "empty"), ("last", "x\r")]));
}

#[test]
fn get_name_given_and_defaulted() {
    assert_eq!(get_name(Some("x"), "/").unwrap(), "x");
    assert_eq!(get_name(None, "/home/u/myapp").unwrap(), "myapp");
    assert!(matches!(get_name(None, "/"), Err(TargetError::NoCurrentDirectoryName)));
}

#[test]
fn add_at_root_without_name_fails() {
    let mut t = empty_store();
    assert!(matches!(t.add(None, None, None, "/"), Err(TargetError::NoCurrentDirectoryName)));
    assert!(t.items().is_empty());
}

#[test]
fn expand_path_tilde_and_dots() {
    assert_eq!(expand_path("~", Some(HOME), "/w"), "/home/u");
    assert_eq!(expand_path("~/a/../b", Some(HOME), "/w"), "/home/u/b");
    assert_eq!(expand_path("~other/x", Some(HOME), "/w"), "/w/~other/x");
    assert_eq!(expand_path("~/x", None, "/w"), "/w/~/x");
    assert_eq!(expand_path("../up", None, "/w/v"), "/w/up");
    assert_eq!(expand_path("/abs//./p/", None, "/w"), "/abs/p");
}

#[test]
fn name_order_is_bytewise() {
    assert!(name_less("B", "a"));
    assert!(name_less("a", "ab"));
    assert!(!name_less("ab", "ab"));
    assert!(name_less("z", "é"));
    assert!(!name_less("é", "z"));
}
