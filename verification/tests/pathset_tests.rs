use nimbus::pathset::{compute_updated_path, updated_path_given};

#[test]
fn appends_to_a_nonempty_path_with_a_semicolon() {
    let dir = r"D:\Nimbus\target\release";
    assert_eq!(
        compute_updated_path(r"C:\Windows;C:\Windows\System32", dir),
        Some(r"C:\Windows;C:\Windows\System32;D:\Nimbus\target\release".to_string())
    );
}

#[test]
fn handles_an_empty_path() {
    let dir = r"D:\Nimbus\target\release";
    assert_eq!(compute_updated_path("", dir), Some(r"D:\Nimbus\target\release".to_string()));
}

#[test]
fn does_not_double_up_a_trailing_semicolon() {
    let dir = r"D:\Nimbus\target\release";
    assert_eq!(
        compute_updated_path(r"C:\Windows;", dir),
        Some(r"C:\Windows;D:\Nimbus\target\release".to_string())
    );
}

#[test]
fn is_a_no_op_when_already_present() {
    let dir = r"D:\Nimbus\target\release";
    assert_eq!(compute_updated_path(r"C:\Windows;D:\Nimbus\target\release;C:\tools", dir), None);
}

#[test]
fn dedup_is_case_insensitive_like_windows_path_matching() {
    let dir = r"D:\Nimbus\target\release";
    assert_eq!(compute_updated_path(r"d:\nimbus\target\release", dir), None);
}

#[test]
fn entries_are_compared_trimmed_and_path_equality_counts() {
    let dir = "/opt/nimbus";
    assert_eq!(compute_updated_path("/usr/bin; /opt/nimbus ", dir), None);
    // A whitespace-only value counts as empty; trailing blanks after the
    // separator still mean the separator is there.
    assert_eq!(compute_updated_path("   ", dir), Some("/opt/nimbus".to_string()));
    assert_eq!(compute_updated_path("/usr/bin;  ", dir), Some("/usr/bin;  /opt/nimbus".to_string()));
    assert_eq!(updated_path_given("/a;/b", dir, &vec![false, true]), None);
    assert_eq!(updated_path_given("/a;/b", dir, &vec![false, false]), Some("/a;/b;/opt/nimbus".to_string()));
}

#[test]
fn adding_the_same_folder_twice_changes_path_once() {
    for current in ["", "  ", r"C:\Windows", r"C:\Windows;", "C:\\Windows;  ", r"C:\a;C:\b"] {
        let dir = r"D:\Nimbus\target\release";
        let once = compute_updated_path(current, dir).unwrap();
        assert_eq!(compute_updated_path(&once, dir), None, "{current:?}");
    }
}

#[test]
fn a_trailing_separator_variant_counts_as_present() {
    assert_eq!(compute_updated_path("/usr/bin;/opt/nimbus/", "/opt/nimbus"), None);
    assert_eq!(compute_updated_path("/usr/bin", "/opt/nimbus"), Some("/usr/bin;/opt/nimbus".to_string()));
}
