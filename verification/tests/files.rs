use dropbox_backup_to_external_disk::local_list::{list_local, list2_local, LocalFile, copied_file_line, copy_target, time_parts};
use dropbox_backup_to_external_disk::trash::{trash_from_list_internal, remove_lines};
use dropbox_backup_to_external_disk::moves::{move_candidates, try_move_candidates, move_step, MoveCandidates, MoveStep};
use dropbox_backup_to_external_disk::terminal::duration_text;
use dropbox_backup_to_external_disk::text::split_line_fields;
use dropbox_backup_to_external_disk::terminal::increment_and_loop;
use dropbox_backup_to_external_disk::remote::{remote_file_line, download_targets, just_downloaded_line, download_step, DownloadAction, DownloadEvent};
use dropbox_backup_to_external_disk::correct_time::correct_time_entry;

fn file(path: &str, secs: i64, size: u64) -> LocalFile {
    LocalFile { path: path.to_string(), modified_secs: secs, modified_nanos: 0, size }
}

#[test]
fn list_local_writes_sorted_lines() {
    let files = vec![
        file("/mnt/d/Backup/b.txt", 1629306780, 20),
        file("/mnt/d/Backup/A.txt", 0, 1),
    ];
    let r = list_local("/mnt/d/Backup", &files).unwrap();
    assert_eq!(r, "/A.txt\t1970-01-01T00:00:00Z\t1\n/b.txt\t2021-08-18T17:13:00Z\t20");
}

#[test]
fn list_local_strips_the_base_path_once() {
    let files = vec![file("/x/x/y", 0, 0)];
    assert_eq!(list2_local("/x", &files).unwrap(), "/x/y\t1970-01-01T00:00:00Z\t0");
}

#[test]
fn list_local_refuses_time_out_of_range() {
    let files = vec![file("/a", i64::MAX, 1)];
    assert!(list_local("", &files).is_none());
}

#[test]
fn list_local_of_no_files_is_empty() {
    assert_eq!(list_local("/x", &Vec::new()).unwrap(), "");
}

#[test]
fn copied_file_line_has_utc_time_and_size() {
    assert_eq!(copied_file_line("/a b.txt", 1629306780, 0, 1234).unwrap(), "/a b.txt\t2021-08-18T17:13:00Z\t1234");
    assert!(copied_file_line("/a", i64::MIN, 0, 1).is_none());
}

#[test]
fn copy_target_joins_paths() {
    let t = copy_target("/mnt/d/B1", "/mnt/f/B2", "/x/y.txt\t2021-08-18T17:13:00Z\t3");
    assert_eq!(t.path, "/x/y.txt");
    assert_eq!(t.from, "/mnt/d/B1/x/y.txt");
    assert_eq!(t.to, "/mnt/f/B2/x/y.txt");
}

#[test]
fn trash_plan_for_empty_list_is_none() {
    assert!(trash_from_list_internal("/b", "", "/a\tt\t1", "trash_2021").is_none());
}

#[test]
fn trash_plan_keeps_a_line_that_is_only_part_of_a_trashed_line() {
    let p = trash_from_list_internal("/B", "/b/a\tT\t10", "/a\tT\t1\n/b/a\tT\t10", "t").unwrap();
    assert_eq!(p.list_local, "/a\tT\t1\n");
}

#[test]
fn trash_plan_moves_files_and_removes_lines() {
    let trash = "/a\tt\t1\n/c\tt\t3";
    let local = "/a\tt\t1\n/b\tt\t2\n/c\tt\t3";
    let p = trash_from_list_internal("/mnt/d/B", trash, local, "trash_2021-08-18_17-13-00").unwrap();
    assert_eq!(p.trash_folder, "/mnt/d/B_trash_2021-08-18_17-13-00");
    assert_eq!(p.moves.len(), 2);
    assert_eq!(p.moves[0].from, "/mnt/d/B/a");
    assert_eq!(p.moves[0].to, "/mnt/d/B_trash_2021-08-18_17-13-00/a");
    assert_eq!(p.moves[1].from, "/mnt/d/B/c");
    assert_eq!(p.list_local, "/b\tt\t2\n");
}

#[test]
fn move_candidates_prefers_same_name() {
    let trash = "/old/x.jpg\tt1\t10";
    let download = "/new/y.jpg\tt1\t10\n/new/x.jpg\tt1\t10\n/z\tt2\t10";
    match move_candidates(trash, download) {
        MoveCandidates::SameName(k) => assert_eq!(k, 1),
        MoveCandidates::SameMetadata(_) => panic!("expected the same name"),
    }
}

#[test]
fn move_candidates_by_metadata() {
    let trash = "/old/x.jpg\tt1\t10";
    let download = "/new/y.jpg\tt1\t10\n/z\tt2\t10\n/w\tt1\t10";
    match move_candidates(trash, download) {
        MoveCandidates::SameName(_) => panic!("no line has the same name"),
        MoveCandidates::SameMetadata(v) => assert_eq!(v, vec![0, 2]),
    }
}

#[test]
fn remote_file_line_prefers_display_path() {
    assert_eq!(remote_file_line(Some("/Docs/A.txt".to_string()), "a.txt", "2021-08-18T17:13:00Z", 42), "/Docs/A.txt\t2021-08-18T17:13:00Z\t42");
    assert_eq!(remote_file_line(None, "a.txt", "2021-08-18T17:13:00Z", 0), "a.txt\t2021-08-18T17:13:00Z\t0");
}

#[test]
fn download_targets_and_line() {
    let t = download_targets("/mnt/d/B", "/x/y.txt");
    assert_eq!(t.local_path, "/mnt/d/B/x/y.txt");
    assert_eq!(t.temp_folder, "/mnt/d/B_temp_download");
    assert_eq!(t.temp_local_path, "/mnt/d/B_temp_download/x/y.txt");
    assert_eq!(just_downloaded_line("/x/y.txt", "2021-08-18T17:13:00Z", 18446744073709551615), "/x/y.txt\t2021-08-18T17:13:00Z\t18446744073709551615\n");
}

#[test]
fn correct_time_entry_reads_the_instant() {
    let e = correct_time_entry("/x\t2021-08-18T17:13:00Z");
    assert_eq!(e.path, "/x");
    assert_eq!(e.modified.as_deref(), Some("2021-08-18T17:13:00Z"));
    assert_eq!(e.modified_instant, Some((1629306780, 0)));
    let e = correct_time_entry("/x\tnot a time");
    assert_eq!(e.modified_instant, None);
    let e = correct_time_entry("/only");
    assert!(e.modified.is_none());
}

#[test]
fn move_search_fails_on_lines_without_fields() {
    assert!(try_move_candidates("/x\tt1", "/y\tt1\t10").is_none());
    assert!(try_move_candidates("/x\tt1\t10", "/y\tt1").is_none());
    // a line after the first one with the same name is not read
    assert!(try_move_candidates("/a/x\tt1\t10", "/b/x\tt1\t10\n/broken").is_some());
}

#[test]
fn split_line_fields_splits_at_tabs() {
    assert_eq!(split_line_fields("a\tb\t\tc"), vec!["a".to_string(), "b".to_string(), "".to_string(), "c".to_string()]);
    assert_eq!(split_line_fields(""), vec!["".to_string()]);
}

#[test]
fn increment_and_loop_cycles() {
    assert_eq!(increment_and_loop(0, 0, 2), 1);
    assert_eq!(increment_and_loop(2, 0, 2), 0);
    assert_eq!(increment_and_loop(3, 1, 3), 1);
}

#[test]
fn modified_instant_reads_rfc3339() {
    assert_eq!(dropbox_backup_to_external_disk::correct_time::modified_instant("1970-01-01T00:00:10Z"), Some((10, 0)));
    assert_eq!(dropbox_backup_to_external_disk::correct_time::modified_instant("1969-12-31T23:59:59Z"), None);
}

#[test]
fn move_step_same_name_moves_at_once() {
    assert_eq!(move_step(&MoveCandidates::SameName(3), &vec![]), MoveStep::MoveTo(3));
}

#[test]
fn move_step_compares_hashes_in_order() {
    let c = MoveCandidates::SameMetadata(vec![2, 5, 7]);
    assert_eq!(move_step(&c, &vec![]), MoveStep::CompareHashes(2));
    assert_eq!(move_step(&c, &vec![false]), MoveStep::CompareHashes(5));
    assert_eq!(move_step(&c, &vec![false, true]), MoveStep::MoveTo(5));
    assert_eq!(move_step(&c, &vec![false, false, false]), MoveStep::Leave);
    assert_eq!(move_step(&MoveCandidates::SameMetadata(vec![]), &vec![]), MoveStep::Leave);
}

#[test]
fn remove_lines_removes_equal_lines_only() {
    let list = "/a\tt\t1\n/b/a\tt\t1\n/c\tt\t3";
    assert_eq!(remove_lines(list, "/b/a\tt\t1\n/c\tt\t3\n"), "/a\tt\t1\n");
    assert_eq!(remove_lines(list, ""), "/a\tt\t1\n/b/a\tt\t1\n/c\tt\t3\n");
}

#[test]
fn time_parts_before_and_after_the_epoch() {
    assert_eq!(time_parts(true, 10, 5), Some((10, 5)));
    assert_eq!(time_parts(false, 10, 0), Some((-10, 0)));
    assert_eq!(time_parts(false, 10, 250_000_000), Some((-11, 750_000_000)));
    assert_eq!(time_parts(true, 1 << 63, 0), None);
    assert_eq!(time_parts(false, 1 << 63, 0), Some((i64::MIN, 0)));
    assert_eq!(time_parts(false, 1 << 63, 1), None);
}

#[test]
fn download_step_resumes_completes_and_abandons() {
    assert_eq!(download_step(0, DownloadEvent::Started), DownloadAction::Request(0));
    assert_eq!(download_step(0, DownloadEvent::Read(100)), DownloadAction::ReadMore(100));
    assert_eq!(download_step(100, DownloadEvent::ReadFailed), DownloadAction::Request(100));
    assert_eq!(download_step(100, DownloadEvent::Read(0)), DownloadAction::Complete(100));
    assert_eq!(download_step(100, DownloadEvent::RequestFailed), DownloadAction::Abandon);
    assert_eq!(download_step(u64::MAX, DownloadEvent::Read(1)), DownloadAction::Abandon);
}

#[test]
fn duration_text_groups_digits() {
    assert_eq!(duration_text(0), "0");
    assert_eq!(duration_text(999), "999");
    assert_eq!(duration_text(1_234_567), "1,234,567");
    assert_eq!(duration_text(-1_005), "-1,005");
}
