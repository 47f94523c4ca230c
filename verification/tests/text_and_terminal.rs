use dropbox_backup_to_external_disk::terminal::{ansi_set_row, at_line, shorten_string, byte_pos_from_chars};
use dropbox_backup_to_external_disk::completion::{completion_return_one_or_more_sub_commands, completion_sub_commands};

#[test]
fn ansi_set_row_moves_and_clears() {
    assert_eq!(ansi_set_row(5), "\x1b[5;1H\x1b[2K");
    assert_eq!(ansi_set_row(120), "\x1b[120;1H\x1b[2K");
    assert_eq!(ansi_set_row(0), "\x1b[0;1H\x1b[2K");
}

#[test]
fn at_line_moves_to_row() {
    assert_eq!(at_line(3), "\x1b[3;1H");
    assert_eq!(at_line(16), "\x1b[16;1H");
}

#[test]
fn shorten_string_keeps_short_text() {
    assert_eq!(shorten_string("abc", 10), "abc");
    assert_eq!(shorten_string("abcdef", 6), "abcdef");
}

#[test]
fn shorten_string_cuts_the_middle() {
    assert_eq!(shorten_string("abcdefghij", 6), "a...j");
    assert_eq!(shorten_string("0123456789abcdefghij", 12), "0123...ghij");
    assert_eq!(shorten_string("ééééééééé", 8), "éé...éé");
    assert!(shorten_string("0123456789abcdefghij", 12).chars().count() < 12);
}

#[test]
fn byte_pos_counts_utf8_bytes() {
    assert_eq!(byte_pos_from_chars("abc", 2), 2);
    assert_eq!(byte_pos_from_chars("aé b", 2), 3);
    assert_eq!(byte_pos_from_chars("€x", 1), 3);
    assert_eq!(byte_pos_from_chars("😀x", 1), 4);
}

#[test]
fn completion_offers_matching_commands() {
    let cmds = completion_sub_commands("dropbox_backup_to_external_disk");
    assert_eq!(cmds.len(), 15);
    let r = completion_return_one_or_more_sub_commands(&cmds, "co");
    assert_eq!(r, vec!["compare_lists".to_string(), "correct_time_from_list".to_string()]);
}

#[test]
fn completion_offers_all_when_nothing_matches() {
    let cmds = completion_sub_commands("dropbox_backup_to_external_disk");
    let r = completion_return_one_or_more_sub_commands(&cmds, "zz");
    assert_eq!(r, cmds);
}

#[test]
fn completion_sub_commands_after_words() {
    assert_eq!(completion_sub_commands("local_list"), vec!["/mnt/d/DropboxBackup1".to_string()]);
    assert_eq!(completion_sub_commands("second_backup"), vec!["/mnt/f/DropboxBackup2".to_string()]);
    assert!(completion_sub_commands("test").is_empty());
}
