use dropbox_backup_to_external_disk::merge::{add_just_downloaded_to_list_local, add2_just_downloaded_to_list_local, merge_sorted_downloaded};
use dropbox_backup_to_external_disk::sorting::sort_string_lines;
use dropbox_backup_to_external_disk::remote::sort_remote_list;

#[test]
fn sort_lines_ignores_ascii_case() {
    assert_eq!(sort_string_lines("b\nA\nc\na2"), "A\na2\nb\nc");
    assert_eq!(sort_string_lines(""), "");
    assert_eq!(sort_string_lines("z\r\ny\n"), "y\nz");
}

#[test]
fn sort_lines_keeps_every_line() {
    assert_eq!(sort_string_lines("x\nx\nB"), "B\nx\nx");
}

#[test]
fn add_just_downloaded_empty_does_nothing() {
    assert_eq!(add_just_downloaded_to_list_local("", "/a\tt\t1"), None);
}

#[test]
fn add_just_downloaded_inserts_replaces_and_appends() {
    let local = "/b\tt\t2\n/d\tt\t4";
    let just = "/e\tt\t5\n/a\tt\t1\n/D\tt2\t44\n/a\tt\t1\n";
    let r = add_just_downloaded_to_list_local(just, local).unwrap();
    assert_eq!(r, "/a\tt\t1\n/b\tt\t2\n/D\tt2\t44\n/e\tt\t5");
}

#[test]
fn add2_just_downloaded_into_empty_list() {
    let r = add2_just_downloaded_to_list_local("/b\tt\t2\n/a\tt\t1", "").unwrap();
    assert_eq!(r, "/a\tt\t1\n/b\tt\t2");
}

#[test]
fn merge_sorted_downloaded_removes_repeated_lines() {
    let r = merge_sorted_downloaded("/a\tt\t1\n/a\tt\t1\n/c\tt\t3", "/b\tt\t2");
    assert_eq!(r, "/a\tt\t1\n/b\tt\t2\n/c\tt\t3");
}

#[test]
fn merge_result_is_sorted_law_example() {
    let r = merge_sorted_downloaded("/B\tn\t9", "/a\tt\t1\n/b\tt\t2\n/c\tt\t3");
    assert_eq!(r, "/a\tt\t1\n/B\tn\t9\n/c\tt\t3");
}

#[test]
fn sort_remote_list_joins_sorted_lines() {
    let r = sort_remote_list(vec!["/b\tt\t2".to_string(), "/A\tt\t1".to_string()]);
    assert_eq!(r, "/A\tt\t1\n/b\tt\t2");
    assert_eq!(r.lines().count(), 2);
}

#[test]
fn written_lines_are_read_back() {
    // merging nothing reads the local list and writes it again
    assert_eq!(merge_sorted_downloaded("", "/a\tt\t1\n/b\tt\t2"), "/a\tt\t1\n/b\tt\t2");
    assert_eq!(merge_sorted_downloaded("", "/a\tt\t1\r\n/b\tt\t2\n"), "/a\tt\t1\n/b\tt\t2");
}
