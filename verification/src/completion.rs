//! Bash completion of the program's sub-commands.
use vstd::prelude::*;
use crate::text::{chars_of, chars_equal, starts_with_at};
use crate::sorting::string_views;
use crate::seq_facts::lemma_filter_none;

verus! {

/// `w` is a prefix of `s`.
pub open spec fn prefix_of(w: Seq<char>, s: Seq<char>) -> bool {
    w.len() <= s.len() && s.take(w.len() as int) == w
}

/// The sub-commands that start with the word being completed; all of them when none
/// does.
pub open spec fn completion_choice(sub_commands: Seq<Seq<char>>, word: Seq<char>) -> Seq<Seq<char>> {
    let found = sub_commands.filter(|c: Seq<char>| prefix_of(word, c));
    if found.len() > 0 {
        found
    } else {
        sub_commands
    }
}

/// The sub-commands to offer for the word being completed.
pub fn completion_return_one_or_more_sub_commands(sub_commands: &Vec<String>, word_being_completed: &str) -> (r: Vec<String>)
    ensures
        string_views(r@) == completion_choice(string_views(sub_commands@), word_being_completed@),
{
    let word = chars_of(word_being_completed);
    let ghost all = string_views(sub_commands@);
    let ghost p = |c: Seq<char>| prefix_of(word_being_completed@, c);
    let mut found: Vec<String> = Vec::new();
    let mut i: usize = 0;
    while i < sub_commands.len()
        invariant
            i <= sub_commands@.len(),
            all == string_views(sub_commands@),
            word@ == word_being_completed@,
            p == (|c: Seq<char>| prefix_of(word_being_completed@, c)),
            string_views(found@) == all.take(i as int).filter(p),
        decreases sub_commands@.len() - i,
    {
        reveal(Seq::filter);
        assert(all.take(i + 1).drop_last() =~= all.take(i as int));
        let cmd = chars_of(sub_commands[i].as_str());
        let yes = starts_with_at(&cmd, &word, 0);
        assert(cmd@.subrange(0, word@.len() as int) =~= cmd@.take(word@.len() as int));
        if yes {
            let ghost before = found@;
            found.push(sub_commands[i].clone());
            assert(string_views(found@) =~= string_views(before).push(all[i as int]));
        }
        i = i + 1;
    }
    assert(all.take(sub_commands@.len() as int) =~= all);
    if found.len() > 0 {
        found
    } else {
        let mut every: Vec<String> = Vec::new();
        let mut k: usize = 0;
        while k < sub_commands.len()
            invariant
                k <= sub_commands@.len(),
                all == string_views(sub_commands@),
                string_views(every@) == all.take(k as int),
            decreases sub_commands@.len() - k,
        {
            let ghost before = every@;
            every.push(sub_commands[k].clone());
            assert(string_views(every@) =~= string_views(before).push(all[k as int]));
            k = k + 1;
        }
        assert(all.take(sub_commands@.len() as int) =~= all);
        every
    }
}

/// The sub-commands offered after `last_word`: the commands after the program name,
/// a backup folder after the commands that take one, none after anything else.
pub open spec fn sub_commands_after(last_word: Seq<char>) -> Seq<Seq<char>> {
    if last_word == "dropbox_backup_to_external_disk"@ {
        seq![
            "--help"@,
            "-h"@,
            "all_list"@,
            "compare_lists"@,
            "correct_time_from_list"@,
            "download_from_list"@,
            "list_and_sync"@,
            "local_list"@,
            "move_or_rename_local_files"@,
            "one_file_download"@,
            "remote_list"@,
            "second_backup"@,
            "sync_only"@,
            "test"@,
            "trash_from_list"@
        ]
    } else if last_word == "list_and_sync"@ || last_word == "local_list"@ || last_word == "all_list"@ {
        seq!["/mnt/d/DropboxBackup1"@]
    } else if last_word == "second_backup"@ {
        seq!["/mnt/f/DropboxBackup2"@]
    } else {
        Seq::empty()
    }
}

fn is_word(w: &Vec<char>, lit: &str) -> (r: bool)
    ensures
        r == (w@ == lit@),
{
    chars_equal(w, &chars_of(lit))
}

/// The sub-commands offered after `last_word`.
pub fn completion_sub_commands(last_word: &str) -> (r: Vec<String>)
    ensures
        string_views(r@) == sub_commands_after(last_word@),
{
    let w = chars_of(last_word);
    let mut r: Vec<String> = Vec::new();
    if is_word(&w, "dropbox_backup_to_external_disk") {
        r.push("--help".to_owned());
        r.push("-h".to_owned());
        r.push("all_list".to_owned());
        r.push("compare_lists".to_owned());
        r.push("correct_time_from_list".to_owned());
        r.push("download_from_list".to_owned());
        r.push("list_and_sync".to_owned());
        r.push("local_list".to_owned());
        r.push("move_or_rename_local_files".to_owned());
        r.push("one_file_download".to_owned());
        r.push("remote_list".to_owned());
        r.push("second_backup".to_owned());
        r.push("sync_only".to_owned());
        r.push("test".to_owned());
        r.push("trash_from_list".to_owned());
    } else if is_word(&w, "list_and_sync") || is_word(&w, "local_list") || is_word(&w, "all_list") {
        r.push("/mnt/d/DropboxBackup1".to_owned());
    } else if is_word(&w, "second_backup") {
        r.push("/mnt/f/DropboxBackup2".to_owned());
    }
    assert(string_views(r@) =~= sub_commands_after(last_word@));
    r
}

/// Completion offers, when at least one sub-command starts with the word, exactly the
/// sub-commands that start with it, in their order: at least one, each starting with
/// the word, every such sub-command among them. When none starts with it, it offers all
/// of them.
pub proof fn law_completion_offers_matches(sub_commands: Seq<Seq<char>>, word: Seq<char>)
    ensures
        (exists|i: int| 0 <= i < sub_commands.len() && #[trigger] prefix_of(word, sub_commands[i])) ==> {
            &&& completion_choice(sub_commands, word) == sub_commands.filter(|c: Seq<char>| prefix_of(word, c))
            &&& completion_choice(sub_commands, word).len() >= 1
            &&& forall|k: int| 0 <= k < completion_choice(sub_commands, word).len() ==>
                word.len() <= (#[trigger] completion_choice(sub_commands, word)[k]).len()
                && completion_choice(sub_commands, word)[k].take(word.len() as int) == word
            &&& forall|i: int| 0 <= i < sub_commands.len() && #[trigger] prefix_of(word, sub_commands[i]) ==>
                completion_choice(sub_commands, word).contains(sub_commands[i])
        },
        (forall|i: int| 0 <= i < sub_commands.len() ==> !#[trigger] prefix_of(word, sub_commands[i])) ==>
            completion_choice(sub_commands, word) == sub_commands,
{
    broadcast use vstd::seq_lib::group_filter_ensures;
    let p = |c: Seq<char>| prefix_of(word, c);
    let found = sub_commands.filter(p);
    if exists|i: int| 0 <= i < sub_commands.len() && #[trigger] prefix_of(word, sub_commands[i]) {
        let i = choose|i: int| 0 <= i < sub_commands.len() && #[trigger] prefix_of(word, sub_commands[i]);
        sub_commands.lemma_filter_contains(p, i);
        assert(found.len() >= 1);
        assert forall|j: int| 0 <= j < sub_commands.len() && #[trigger] prefix_of(word, sub_commands[j]) implies
            completion_choice(sub_commands, word).contains(sub_commands[j]) by {
            sub_commands.lemma_filter_contains(p, j);
        }
        assert forall|k: int| 0 <= k < found.len() implies
            word.len() <= (#[trigger] found[k]).len() && found[k].take(word.len() as int) == word by {
            assert(found.contains(found[k]));
            assert(p(found[k]));
        }
    } else {
        assert forall|i: int| 0 <= i < sub_commands.len() implies !p(#[trigger] sub_commands[i]) by {
            assert(!prefix_of(word, sub_commands[i]));
        }
        lemma_filter_none(sub_commands, p);
    }
}

} // verus!
