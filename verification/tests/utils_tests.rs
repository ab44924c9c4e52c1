use installer::text::{
    concat_str, contains_char, contains_str, remove_char, split_char, str_eq, to_chars, trim,
};
use installer::utils::{
    backup_dirs, check_distro, check_os_release, complete_path, distro_ids, is_number,
    non_empty_lines,
};

#[test]
fn complete_path_adds_dot_slash() {
    assert_eq!(complete_path("out.lst".to_string()), "./out.lst");
    assert_eq!(complete_path("dir/out.lst".to_string()), "dir/out.lst");
    assert_eq!(complete_path("".to_string()), "./");
}

#[test]
fn complete_path_twice_is_once() {
    let once = complete_path("x".to_string());
    assert_eq!(complete_path(once.clone()), once);
}

#[test]
fn is_number_checks_every_char() {
    assert!(is_number("123"));
    assert!(is_number(""));
    assert!(is_number("½"));
    assert!(!is_number("12a"));
    assert!(!is_number(" 1"));
}

#[test]
fn backup_dirs_join_paths() {
    let (from, to) = backup_dirs("/home/u/", "backup/", "2024-01-01-00-00-00");
    assert_eq!(from, "/home/u/config");
    assert_eq!(to, "/home/u/backup/config2024-01-01-00-00-00");
}

const ARCH_LIKE: &str = "NAME=\"EndeavourOS\"\nID=endeavouros\nID_LIKE=arch\n\nPRETTY_NAME=\"EndeavourOS\"\n";
const UBUNTU: &str = "NAME=\"Ubuntu\"\nID=ubuntu\nID_LIKE=\"Debian Something\"\n";

#[test]
fn check_distro_reads_id_like() {
    assert!(check_os_release(ARCH_LIKE));
    assert!(check_distro(ARCH_LIKE, "arch"));
    assert!(!check_distro(ARCH_LIKE, "debian"));
    assert_eq!(distro_ids(UBUNTU), vec!["debian".to_string(), "something".to_string()]);
    assert!(check_distro(UBUNTU, "debian"));
    assert!(!check_distro(UBUNTU, "Debian"));
}

#[test]
fn check_distro_without_id_like() {
    let s = "ID=arch\n";
    assert_eq!(distro_ids(s), vec!["".to_string()]);
    assert!(!check_distro(s, "arch"));
    assert!(check_distro(s, ""));
}

#[test]
fn os_release_needs_equals_on_id_like_lines() {
    assert!(!check_os_release("ID_LIKE arch\n"));
    assert!(check_os_release(""));
}

#[test]
fn later_id_like_wins() {
    let s = "ID_LIKE=arch\nID_LIKE=\"de\\\\bian\"\n";
    assert_eq!(distro_ids(s), vec!["debian".to_string()]);
}

#[test]
fn lines_skip_empty() {
    assert_eq!(non_empty_lines("a\n\nb\n"), vec!["a".to_string(), "b".to_string()]);
}

#[test]
fn text_helpers() {
    assert_eq!(split_char("a,,b,", ','), vec!["a", "", "b", ""]);
    assert_eq!(split_char("", ','), vec![""]);
    assert_eq!(trim(" \t x y \n"), "x y");
    assert_eq!(trim("\u{3000}z\u{b}"), "z");
    assert_eq!(remove_char("a\"b\"", '"'), "ab");
    assert!(contains_str("ID_LIKE=x", "ID_LIKE"));
    assert!(!contains_str("ID_LIK", "ID_LIKE"));
    assert!(contains_str("abc", ""));
    assert!(contains_char("a/b", '/'));
    assert!(str_eq("abc", "abc") && !str_eq("abc", "abd"));
    assert_eq!(concat_str("ab", "cd"), "abcd");
    assert_eq!(to_chars("héllo").len(), 5);
}
