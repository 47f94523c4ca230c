use dropbox_backup_to_external_disk::compare::{compare_lists, compare2_lists, compare_lists_internal, try_compare_lists_internal};
use dropbox_backup_to_external_disk::trash::trash_from_list_internal;
use dropbox_backup_to_external_disk::merge::merge_sorted_downloaded;

#[test]
fn compare_finds_download_trash_and_correct_time() {
    let remote = "/a.txt\t2021-08-18T17:13:00Z\t10\n/b.txt\t2021-08-18T17:13:00Z\t20\n/d.txt\t2021-08-18T17:13:05Z\t40\n/e.txt\t2021-08-18T17:13:00Z\t50";
    let local = "/A.txt\t2021-08-18T17:13:00Z\t10\n/c.txt\t2021-08-18T17:13:00Z\t30\n/d.txt\t2021-08-18T17:13:09Z\t40\n/e.txt\t2021-08-18T17:13:00Z\t51";
    let r = compare_lists_internal(remote, local);
    assert_eq!(r.for_download, "/b.txt\t2021-08-18T17:13:00Z\t20\n/e.txt\t2021-08-18T17:13:00Z\t50");
    assert_eq!(r.for_trash, "/c.txt\t2021-08-18T17:13:00Z\t30");
    assert_eq!(r.for_correct_time, "/d.txt\t2021-08-18T17:13:05Z");
}

#[test]
fn compare_time_differing_in_minutes_is_downloaded() {
    let remote = "/x\t2021-08-18T17:14:00Z\t5";
    let local = "/x\t2021-08-18T17:13:00Z\t5";
    let r = compare_lists_internal(remote, local);
    assert_eq!(r.for_download, "/x\t2021-08-18T17:14:00Z\t5");
    assert_eq!(r.for_trash, "");
    assert_eq!(r.for_correct_time, "");
}

#[test]
fn compare_correct_time_keeps_destination_path_case() {
    let remote = "/Photos/X.jpg\t2021-08-18T17:13:05Z\t7";
    let local = "/photos/x.jpg\t2021-08-18T17:13:01Z\t7";
    let r = compare_lists_internal(remote, local);
    assert_eq!(r.for_correct_time, "/photos/x.jpg\t2021-08-18T17:13:05Z");
    assert_eq!(r.for_download, "");
}

#[test]
fn compare_rest_of_longer_list() {
    let r = compare_lists_internal("/a\tt\t1\n/b\tt\t2", "");
    assert_eq!(r.for_download, "/a\tt\t1\n/b\tt\t2");
    let r = compare_lists_internal("", "/a\tt\t1\n/b\tt\t2\n");
    assert_eq!(r.for_trash, "/a\tt\t1\n/b\tt\t2");
    assert_eq!(r.for_download, "");
}

#[test]
fn compare_list_with_itself_is_empty() {
    let list = "/a\t2021-08-18T17:13:00Z\t1\n/b\t2021-08-18T17:13:00Z\t2\n/c\t2021-08-18T17:13:00Z\t3";
    let r = compare_lists_internal(list, list);
    assert_eq!(r.for_download, "");
    assert_eq!(r.for_trash, "");
    assert_eq!(r.for_correct_time, "");
}

#[test]
fn compare_fails_on_equal_paths_without_fields() {
    assert!(try_compare_lists_internal("/a\tt", "/a\tt\t1").is_none());
    assert!(try_compare_lists_internal("/a\tshort\t1", "/a\tother\t1").is_none());
    // different paths are never split into fields beyond the path
    assert!(try_compare_lists_internal("/a", "/b").is_some());
}

#[test]
fn compare_lists_adds_just_downloaded_first() {
    let remote = "/a\t2021-08-18T17:13:00Z\t1\n/b\t2021-08-18T17:13:00Z\t2";
    let local = "/a\t2021-08-18T17:13:00Z\t1";
    let just = "/b\t2021-08-18T17:13:00Z\t2\n";
    let r = compare_lists(remote, local, just);
    assert_eq!(r.list_local.as_deref(), Some("/a\t2021-08-18T17:13:00Z\t1\n/b\t2021-08-18T17:13:00Z\t2"));
    let lists = r.lists.unwrap();
    assert_eq!(lists.for_download, "");
    assert_eq!(lists.for_trash, "");
}

#[test]
fn compare_lists_without_downloads_keeps_local() {
    let r = compare_lists("/a\tt\t1", "/b\tt\t2", "");
    assert!(r.list_local.is_none());
    let lists = r.lists.unwrap();
    assert_eq!(lists.for_download, "/a\tt\t1");
    assert_eq!(lists.for_trash, "/b\tt\t2");
}

#[test]
fn compare2_lists_compares_the_two_disks() {
    let r = compare2_lists("/a\tt\t1\n/b\tt\t2", "/a\tt\t1", "");
    let lists = r.lists.unwrap();
    assert_eq!(lists.for_download, "/b\tt\t2");
    assert_eq!(lists.for_trash, "");
}

#[test]
fn applying_a_comparison_brings_the_local_list_up_to_date() {
    let remote = "/a\t2021-08-18T17:13:00Z\t10\n/b\t2021-08-18T17:13:00Z\t20\n/d\t2021-08-18T17:13:05Z\t40";
    let local = "/a\t2021-08-18T17:13:00Z\t10\n/c\t2021-08-18T17:13:00Z\t30\n/d\t2021-08-18T17:13:09Z\t40";
    let r = compare_lists_internal(remote, local);
    let plan = trash_from_list_internal("/backup", &r.for_trash, local, "2024-01-01").unwrap();
    assert_eq!(plan.list_local, "/a\t2021-08-18T17:13:00Z\t10\n/d\t2021-08-18T17:13:09Z\t40\n");
    let synced = merge_sorted_downloaded(&r.for_download, &plan.list_local);
    assert_eq!(synced, "/a\t2021-08-18T17:13:00Z\t10\n/b\t2021-08-18T17:13:00Z\t20\n/d\t2021-08-18T17:13:09Z\t40");
    assert_eq!(r.for_correct_time, "/d\t2021-08-18T17:13:05Z");
}
