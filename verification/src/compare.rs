//! Comparing the sorted list of the source (remote) with the sorted list of the
//! destination (local): what to download, what to move to trash, whose time to correct.
use vstd::prelude::*;
use vstd::string::StringSliceAdditionalSpecFns;
use crate::text::{
    fields_of, lines_of, text_of, views, chars_of, string_of, copy_chars, push_chars,
    split_chars, lines_chars, join_chars, chars_equal, lemma_split_on_nonempty,
};
use crate::order::{
    CaseOrder, uncased_order_of, uncased_order, uncased_lt, uncased_eq, lemma_uncased_eq_trans,
    lemma_uncased_order_flip, lemma_uncased_le_trans, lemma_uncased_refl,
};
use crate::seq_facts::{lemma_filter_origin, lemma_filter_map_has, lemma_filter_front, lemma_filter_congruent, lemma_filter_map_front, lemma_filter_map_congruent};
use crate::merge::{local_list_update, add_just_downloaded_to_list_local_internal};

verus! {

/// The path of a list line: its first field.
pub open spec fn path_of(line: Seq<char>) -> Seq<char> {
    fields_of(line)[0]
}

/// The modification time of a list line: its second field.
pub open spec fn modified_of(line: Seq<char>) -> Seq<char> {
    fields_of(line)[1]
}

/// The size of a list line: its third field.
pub open spec fn size_of(line: Seq<char>) -> Seq<char> {
    fields_of(line)[2]
}

/// The first 17 bytes of the UTF-8 encoding of `t` can be taken as a string: there are
/// that many and the 17th is the last byte of a character.
pub open spec fn time_prefix_cuttable(t: Seq<char>) -> bool {
    &&& vstd::utf8::encode_utf8(t).len() >= 17
    &&& vstd::utf8::is_char_boundary(vstd::utf8::encode_utf8(t), 17)
}

/// The first 17 bytes of the UTF-8 encoding of a modification time: date, hour and
/// minute of `YYYY-MM-DDTHH:MM:SSZ`.
pub open spec fn time_prefix(t: Seq<char>) -> Seq<u8> {
    vstd::utf8::encode_utf8(t).take(17)
}

/// Two lines with the same path can be compared: both have three fields, and where the
/// sizes are equal and the times differ, both times can be cut after 17 bytes.
pub open spec fn comparable_pair(s: Seq<char>, d: Seq<char>) -> bool {
    &&& fields_of(s).len() >= 3
    &&& fields_of(d).len() >= 3
    &&& (size_of(s) == size_of(d) && modified_of(s) != modified_of(d)) ==> (
    time_prefix_cuttable(modified_of(s)) && time_prefix_cuttable(modified_of(d)))
}

/// Same size, and the modification times differ in the seconds only.
pub open spec fn only_seconds_differ(s: Seq<char>, d: Seq<char>) -> bool {
    &&& size_of(s) == size_of(d)
    &&& modified_of(s) != modified_of(d)
    &&& time_prefix(modified_of(s)) == time_prefix(modified_of(d))
}

/// The time or the size differs.
pub open spec fn metadata_differs(s: Seq<char>, d: Seq<char>) -> bool {
    modified_of(s) != modified_of(d) || size_of(s) != size_of(d)
}

/// The line of the correct-time list: the destination's path and the source's time.
pub open spec fn corrected_time_line(s: Seq<char>, d: Seq<char>) -> Seq<char> {
    path_of(d) + seq!['\t'] + modified_of(s)
}

/// The three lists that a comparison produces.
pub struct SyncPlan {
    pub download: Seq<Seq<char>>,
    pub trash: Seq<Seq<char>>,
    pub correct_time: Seq<Seq<char>>,
}

/// Walks the two lists side by side, as two sorted lists are merged. A source line
/// whose path comes first is to be downloaded; a destination line whose path comes
/// first is to be trashed; for equal paths, a line whose time differs only in the
/// seconds goes to the correct-time list, one whose time or size differs otherwise is to
/// be downloaded, and an unchanged one to neither. A list that has run out leaves the
/// rest of the other to download or to trash.
pub open spec fn sync_plan(src: Seq<Seq<char>>, dst: Seq<Seq<char>>) -> SyncPlan
    decreases src.len() + dst.len(),
{
    if src.len() == 0 && dst.len() == 0 {
        SyncPlan { download: seq![], trash: seq![], correct_time: seq![] }
    } else if src.len() == 0 {
        let r = sync_plan(src, dst.drop_first());
        SyncPlan { download: r.download, trash: seq![dst[0]] + r.trash, correct_time: r.correct_time }
    } else if dst.len() == 0 {
        let r = sync_plan(src.drop_first(), dst);
        SyncPlan { download: seq![src[0]] + r.download, trash: r.trash, correct_time: r.correct_time }
    } else {
        let o = uncased_order_of(path_of(src[0]), path_of(dst[0]));
        if o == CaseOrder::Less {
            let r = sync_plan(src.drop_first(), dst);
            SyncPlan { download: seq![src[0]] + r.download, trash: r.trash, correct_time: r.correct_time }
        } else if o == CaseOrder::Greater {
            let r = sync_plan(src, dst.drop_first());
            SyncPlan { download: r.download, trash: seq![dst[0]] + r.trash, correct_time: r.correct_time }
        } else {
            let r = sync_plan(src.drop_first(), dst.drop_first());
            if only_seconds_differ(src[0], dst[0]) {
                SyncPlan {
                    download: r.download,
                    trash: r.trash,
                    correct_time: seq![corrected_time_line(src[0], dst[0])] + r.correct_time,
                }
            } else if metadata_differs(src[0], dst[0]) {
                SyncPlan { download: seq![src[0]] + r.download, trash: r.trash, correct_time: r.correct_time }
            } else {
                r
            }
        }
    }
}

/// Every pair of lines with equal paths that the walk of `sync_plan` meets can be
/// compared; elsewhere the comparison fails.
pub open spec fn sync_plan_defined(src: Seq<Seq<char>>, dst: Seq<Seq<char>>) -> bool
    decreases src.len() + dst.len(),
{
    if src.len() == 0 && dst.len() == 0 {
        true
    } else if src.len() == 0 {
        sync_plan_defined(src, dst.drop_first())
    } else if dst.len() == 0 {
        sync_plan_defined(src.drop_first(), dst)
    } else {
        let o = uncased_order_of(path_of(src[0]), path_of(dst[0]));
        if o == CaseOrder::Less {
            sync_plan_defined(src.drop_first(), dst)
        } else if o == CaseOrder::Greater {
            sync_plan_defined(src, dst.drop_first())
        } else {
            comparable_pair(src[0], dst[0]) && sync_plan_defined(src.drop_first(), dst.drop_first())
        }
    }
}

/// The three list texts that a comparison writes.
pub struct ListsToSync {
    pub for_download: String,
    pub for_trash: String,
    pub for_correct_time: String,
}

/// The plan as the three texts, lines joined by `'\n'`.
pub open spec fn lists_match_plan(r: ListsToSync, p: SyncPlan) -> bool {
    &&& r.for_download@ == text_of(p.download)
    &&& r.for_trash@ == text_of(p.trash)
    &&& r.for_correct_time@ == text_of(p.correct_time)
}

/// The first 17 bytes of the UTF-8 encoding of `t`.
fn time_prefix_bytes(t: &[char]) -> (r: Option<Vec<u8>>)
    ensures
        r is Some <==> time_prefix_cuttable(t@),
        r matches Some(b) ==> b@ == time_prefix(t@),
{
    let s = string_of(t);
    let st = s.as_str();
    assert(st@ == t@);
    assert(st.spec_bytes() == vstd::utf8::encode_utf8(t@));
    let b = st.as_bytes();
    assert(b@ == vstd::utf8::encode_utf8(t@));
    if b.len() < 17 || !st.is_char_boundary(17) {
        return None;
    }
    let mut r: Vec<u8> = Vec::new();
    let mut i: usize = 0;
    while i < 17
        invariant
            i <= 17,
            b@.len() >= 17,
            b@ == vstd::utf8::encode_utf8(t@),
            r@ == b@.take(i as int),
        decreases 17 - i,
    {
        r.push(b[i]);
        i = i + 1;
        assert(r@ =~= b@.take(i as int));
    }
    Some(r)
}

/// Whether two byte vectors are equal.
fn bytes_equal(a: &Vec<u8>, b: &Vec<u8>) -> (r: bool)
    ensures
        r == (a@ == b@),
{
    if a.len() != b.len() {
        return false;
    }
    let mut i: usize = 0;
    while i < a.len()
        invariant
            a@.len() == b@.len(),
            i <= a@.len(),
            forall|k: int| 0 <= k < i ==> a@[k] == b@[k],
        decreases a@.len() - i,
    {
        if a[i] != b[i] {
            return false;
        }
        i = i + 1;
    }
    assert(a@ =~= b@);
    true
}

/// Compares the two list texts line by line as `sync_plan` says; `None` exactly where a
/// pair of lines with equal paths cannot be compared.
pub fn try_compare_lists_internal(source_list: &str, destination_list: &str) -> (r: Option<ListsToSync>)
    ensures
        r is Some <==> sync_plan_defined(lines_of(source_list@), lines_of(destination_list@)),
        r matches Some(l) ==> lists_match_plan(l, sync_plan(lines_of(source_list@), lines_of(destination_list@))),
{
    let src = lines_chars(&chars_of(source_list));
    let dst = lines_chars(&chars_of(destination_list));
    let ghost s = views(src@);
    let ghost d = views(dst@);
    let mut download: Vec<Vec<char>> = Vec::new();
    let mut trash: Vec<Vec<char>> = Vec::new();
    let mut correct: Vec<Vec<char>> = Vec::new();
    let mut i: usize = 0;
    let mut j: usize = 0;
    assert(s.skip(0) =~= s);
    assert(d.skip(0) =~= d);
    while i < src.len() || j < dst.len()
        invariant
            s == views(src@),
            d == views(dst@),
            s == lines_of(source_list@),
            d == lines_of(destination_list@),
            i <= s.len(),
            j <= d.len(),
            sync_plan_defined(s, d) == sync_plan_defined(s.skip(i as int), d.skip(j as int)),
            ({
                let whole = sync_plan(s, d);
                let rest = sync_plan(s.skip(i as int), d.skip(j as int));
                &&& whole.download == views(download@) + rest.download
                &&& whole.trash == views(trash@) + rest.trash
                &&& whole.correct_time == views(correct@) + rest.correct_time
            }),
        decreases s.len() - i + d.len() - j,
    {
        let ghost si = s.skip(i as int);
        let ghost dj = d.skip(j as int);
        let ghost (dl0, tr0, ct0) = (download@, trash@, correct@);
        if i >= src.len() {
            assert(dj.drop_first() =~= d.skip(j + 1));
            trash.push(copy_chars(&dst[j]));
            assert(views(trash@) =~= views(tr0).push(dj[0]));
            assert(views(tr0) + (seq![dj[0]] + sync_plan(si, d.skip(j + 1)).trash) =~= views(trash@) + sync_plan(si, d.skip(j + 1)).trash);
            j = j + 1;
        } else if j >= dst.len() {
            assert(si.drop_first() =~= s.skip(i + 1));
            download.push(copy_chars(&src[i]));
            assert(views(download@) =~= views(dl0).push(si[0]));
            assert(views(dl0) + (seq![si[0]] + sync_plan(s.skip(i + 1), dj).download) =~= views(download@) + sync_plan(s.skip(i + 1), dj).download);
            i = i + 1;
        } else {
            assert(si.drop_first() =~= s.skip(i + 1));
            assert(dj.drop_first() =~= d.skip(j + 1));
            let fs = split_chars(&src[i], '\t');
            let fd = split_chars(&dst[j], '\t');
            proof {
                lemma_split_on_nonempty(s[i as int], '\t');
                lemma_split_on_nonempty(d[j as int], '\t');
            }
            let o = uncased_order(&fs[0], &fd[0]);
            if o == CaseOrder::Less {
                download.push(copy_chars(&src[i]));
                assert(views(download@) =~= views(dl0).push(si[0]));
                assert(views(dl0) + (seq![si[0]] + sync_plan(s.skip(i + 1), dj).download) =~= views(download@) + sync_plan(s.skip(i + 1), dj).download);
                i = i + 1;
            } else if o == CaseOrder::Greater {
                trash.push(copy_chars(&dst[j]));
                assert(views(trash@) =~= views(tr0).push(dj[0]));
                assert(views(tr0) + (seq![dj[0]] + sync_plan(si, d.skip(j + 1)).trash) =~= views(trash@) + sync_plan(si, d.skip(j + 1)).trash);
                j = j + 1;
            } else {
                if fs.len() < 3 || fd.len() < 3 {
                    return None;
                }
                let same_size = chars_equal(&fs[2], &fd[2]);
                let same_modified = chars_equal(&fs[1], &fd[1]);
                let mut seconds_only = false;
                if same_size && !same_modified {
                    let ps = time_prefix_bytes(&fs[1]);
                    let pd = time_prefix_bytes(&fd[1]);
                    match (ps, pd) {
                        (Some(ps), Some(pd)) => {
                            seconds_only = bytes_equal(&ps, &pd);
                        },
                        _ => {
                            return None;
                        },
                    }
                }
                let ghost rest = sync_plan(s.skip(i + 1), d.skip(j + 1));
                assert(fs[0]@ == path_of(si[0]));
                assert(fs[1]@ == modified_of(si[0]));
                assert(fs[2]@ == size_of(si[0]));
                assert(fd[0]@ == path_of(dj[0]));
                assert(fd[1]@ == modified_of(dj[0]));
                assert(fd[2]@ == size_of(dj[0]));
                if seconds_only {
                    let mut line = copy_chars(&fd[0]);
                    line.push('\t');
                    push_chars(&mut line, &fs[1]);
                    assert(line@ =~= corrected_time_line(si[0], dj[0]));
                    correct.push(line);
                    assert(views(correct@) =~= views(ct0).push(corrected_time_line(si[0], dj[0])));
                    assert(views(ct0) + (seq![corrected_time_line(si[0], dj[0])] + rest.correct_time) =~= views(correct@) + rest.correct_time);
                } else if !same_modified || !same_size {
                    download.push(copy_chars(&src[i]));
                    assert(views(download@) =~= views(dl0).push(si[0]));
                    assert(views(dl0) + (seq![si[0]] + rest.download) =~= views(download@) + rest.download);
                }
                i = i + 1;
                j = j + 1;
            }
        }
    }
    assert(s.skip(i as int) =~= Seq::<Seq<char>>::empty());
    assert(d.skip(j as int) =~= Seq::<Seq<char>>::empty());
    let mut nl: Vec<char> = Vec::new();
    nl.push('\n');
    assert(nl@ =~= seq!['\n']);
    let r = ListsToSync {
        for_download: string_of(&join_chars(&download, &nl)),
        for_trash: string_of(&join_chars(&trash, &nl)),
        for_correct_time: string_of(&join_chars(&correct, &nl)),
    };
    assert(views(download@) + Seq::<Seq<char>>::empty() =~= views(download@));
    assert(views(trash@) + Seq::<Seq<char>>::empty() =~= views(trash@));
    assert(views(correct@) + Seq::<Seq<char>>::empty() =~= views(correct@));
    Some(r)
}

/// Compares two list texts as `sync_plan` says. The comparison fails on lines with
/// equal paths that cannot be compared, which `requires` leaves out.
pub fn compare_lists_internal(source_list: &str, destination_list: &str) -> (r: ListsToSync)
    requires
        sync_plan_defined(lines_of(source_list@), lines_of(destination_list@)),
    ensures
        lists_match_plan(r, sync_plan(lines_of(source_list@), lines_of(destination_list@))),
{
    match try_compare_lists_internal(source_list, destination_list) {
        Some(r) => r,
        None => {
            proof {
                assert(false);
            }
            ListsToSync { for_download: String::new(), for_trash: String::new(), for_correct_time: String::new() }
        },
    }
}

/// What a comparison of lists gives: the destination list after adding the just
/// downloaded lines (`None`: nothing added), and the three lists, or `None` where two
/// lines with equal paths cannot be compared.
pub struct CompareOutcome {
    pub list_local: Option<String>,
    pub lists: Option<ListsToSync>,
}

/// The destination list that the comparison reads.
pub open spec fn destination_after(o: CompareOutcome, destination_list: Seq<char>) -> Seq<char> {
    match o.list_local {
        Some(t) => t@,
        None => destination_list,
    }
}

/// The outcome adds the downloads to the destination list and then compares the source
/// list with it.
pub open spec fn compare_outcome_ok(
    o: CompareOutcome,
    source_list: Seq<char>,
    destination_list: Seq<char>,
    just_downloaded: Seq<char>,
) -> bool {
    let dst = lines_of(destination_after(o, destination_list));
    &&& local_list_update(o.list_local, just_downloaded, destination_list)
    &&& o.lists is Some <==> sync_plan_defined(lines_of(source_list), dst)
    &&& o.lists matches Some(l) ==> lists_match_plan(l, sync_plan(lines_of(source_list), dst))
}

fn compare_with_downloads(source_list: &str, destination_list: &str, just_downloaded: &str) -> (r: CompareOutcome)
    ensures
        compare_outcome_ok(r, source_list@, destination_list@, just_downloaded@),
{
    let updated = add_just_downloaded_to_list_local_internal(just_downloaded, destination_list);
    let lists = match &updated {
        Some(t) => try_compare_lists_internal(source_list, t.as_str()),
        None => try_compare_lists_internal(source_list, destination_list),
    };
    CompareOutcome { list_local: updated, lists }
}

/// Compares the remote list (`list_remote_files.csv`) with the local list of the first
/// backup disk (`list_local_files.csv`), after adding to it the files just downloaded
/// (`list_just_downloaded_or_moved.csv`). The three lists go to `list_for_download.csv`,
/// `list_for_trash.csv` and `list_for_correct_time.csv`.
pub fn compare_lists(list_remote: &str, list_local: &str, list_just_downloaded: &str) -> (r: CompareOutcome)
    ensures
        compare_outcome_ok(r, list_remote@, list_local@, list_just_downloaded@),
{
    compare_with_downloads(list_remote, list_local, list_just_downloaded)
}

/// Compares the list of the first backup disk (`list_local_files.csv`) with the list of
/// the second (`list2_local_files.csv`), after adding to it the files just copied
/// (`list2_just_downloaded_or_moved.csv`). The three lists go to
/// `list2_for_download.csv`, `list2_for_trash.csv` and `list2_for_correct_time.csv`.
pub fn compare2_lists(list_local: &str, list2_local: &str, list2_just_downloaded: &str) -> (r: CompareOutcome)
    ensures
        compare_outcome_ok(r, list_local@, list2_local@, list2_just_downloaded@),
{
    compare_with_downloads(list_local, list2_local, list2_just_downloaded)
}

/// Each line's path comes strictly before the path of every later line: the list is
/// sorted and no two lines have paths equal up to case.
pub open spec fn sorted_by_path(ls: Seq<Seq<char>>) -> bool {
    forall|i: int, j: int| 0 <= i < j < ls.len() ==> #[trigger] uncased_lt(path_of(ls[i]), path_of(ls[j]))
}

/// Some line of `ls` has the path `p`, up to case.
pub open spec fn has_path(ls: Seq<Seq<char>>, p: Seq<char>) -> bool {
    exists|k: int| 0 <= k < ls.len() && #[trigger] uncased_eq(path_of(ls[k]), p)
}

/// The position of a line of `ls` with the path `p`, up to case.
pub open spec fn index_with_path(ls: Seq<Seq<char>>, p: Seq<char>) -> int {
    choose|k: int| 0 <= k < ls.len() && #[trigger] uncased_eq(path_of(ls[k]), p)
}

/// A source line is to be downloaded: the destination has no line with its path, or
/// that line differs in size or in more than the seconds of the time.
pub open spec fn wanted_download(s: Seq<char>, dst: Seq<Seq<char>>) -> bool {
    !has_path(dst, path_of(s)) || {
        let d = dst[index_with_path(dst, path_of(s))];
        metadata_differs(s, d) && !only_seconds_differ(s, d)
    }
}

/// The correct-time line for a source line whose destination line differs only in the
/// seconds of the time.
pub open spec fn time_correction(s: Seq<char>, dst: Seq<Seq<char>>) -> Option<Seq<char>> {
    if has_path(dst, path_of(s)) && only_seconds_differ(s, dst[index_with_path(dst, path_of(s))]) {
        Some(corrected_time_line(s, dst[index_with_path(dst, path_of(s))]))
    } else {
        None
    }
}

proof fn lemma_sorted_drop_first(ls: Seq<Seq<char>>)
    requires
        sorted_by_path(ls),
        ls.len() > 0,
    ensures
        sorted_by_path(ls.drop_first()),
        forall|k: int| 0 < k < ls.len() ==> #[trigger] uncased_lt(path_of(ls[0]), path_of(ls[k])),
{
    assert forall|i: int, j: int| 0 <= i < j < ls.drop_first().len() implies #[trigger] uncased_lt(
        path_of(ls.drop_first()[i]),
        path_of(ls.drop_first()[j]),
    ) by {
        assert(uncased_lt(path_of(ls[i + 1]), path_of(ls[j + 1])));
    }
}

/// At most one line of a sorted list has a given path.
proof fn lemma_path_unique(ls: Seq<Seq<char>>, p: Seq<char>, a: int, b: int)
    requires
        sorted_by_path(ls),
        0 <= a < ls.len(),
        0 <= b < ls.len(),
        uncased_eq(path_of(ls[a]), p),
        uncased_eq(path_of(ls[b]), p),
    ensures
        a == b,
{
    lemma_uncased_eq_trans(path_of(ls[b]), p, p);
    assert(uncased_eq(p, path_of(ls[b])));
    lemma_uncased_eq_trans(path_of(ls[a]), p, path_of(ls[b]));
    assert(uncased_eq(path_of(ls[a]), path_of(ls[b])));
    lemma_uncased_eq_trans(path_of(ls[a]), path_of(ls[b]), path_of(ls[a]));
    assert(uncased_eq(path_of(ls[b]), path_of(ls[a])));
    if a < b {
        assert(uncased_lt(path_of(ls[a]), path_of(ls[b])));
    } else if b < a {
        assert(uncased_lt(path_of(ls[b]), path_of(ls[a])));
    }
}

/// Dropping the first line, whose path is not `p`, changes nothing about the line with
/// path `p`.
proof fn lemma_drop_other_head(ls: Seq<Seq<char>>, p: Seq<char>)
    requires
        sorted_by_path(ls),
        ls.len() > 0,
        !uncased_eq(path_of(ls[0]), p),
    ensures
        has_path(ls, p) == has_path(ls.drop_first(), p),
        has_path(ls, p) ==> ls[index_with_path(ls, p)] == ls.drop_first()[index_with_path(ls.drop_first(), p)],
{
    lemma_sorted_drop_first(ls);
    let t = ls.drop_first();
    if has_path(t, p) {
        let k = choose|k: int| 0 <= k < t.len() && #[trigger] uncased_eq(path_of(t[k]), p);
        assert(uncased_eq(path_of(ls[k + 1]), p));
    }
    if has_path(ls, p) {
        let a = index_with_path(ls, p);
        assert(a != 0);
        assert(uncased_eq(path_of(t[a - 1]), p));
        let b = index_with_path(t, p);
        assert(uncased_eq(path_of(ls[b + 1]), p));
        lemma_path_unique(ls, p, a, b + 1);
    }
}

/// A path before the first path of a sorted list is no path of the list.
proof fn lemma_before_all(ls: Seq<Seq<char>>, p: Seq<char>)
    requires
        sorted_by_path(ls),
        ls.len() > 0,
        uncased_lt(p, path_of(ls[0])),
    ensures
        !has_path(ls, p),
{
    lemma_sorted_drop_first(ls);
    if has_path(ls, p) {
        let k = choose|k: int| 0 <= k < ls.len() && #[trigger] uncased_eq(path_of(ls[k]), p);
        lemma_uncased_eq_trans(path_of(ls[k]), p, path_of(ls[0]));
        if k > 0 {
            assert(uncased_lt(path_of(ls[0]), path_of(ls[k])));
            lemma_uncased_order_flip(path_of(ls[0]), path_of(ls[k]));
        }
    }
}

/// For sorted lists the comparison says, line by line: the destination lines with no
/// source line of the same path go to trash; a source line is downloaded when the
/// destination has no line with its path, or that line differs in size or in more
/// than the seconds of its time; a source line whose destination line differs only in
/// the seconds gives a correct-time line. Each list keeps the order of the list it
/// comes from.
pub proof fn law_sync_plan_of_sorted_lists(src: Seq<Seq<char>>, dst: Seq<Seq<char>>)
    requires
        sorted_by_path(src),
        sorted_by_path(dst),
    ensures
        sync_plan(src, dst).trash == dst.filter(|d: Seq<char>| !has_path(src, path_of(d))),
        sync_plan(src, dst).download == src.filter(|s: Seq<char>| wanted_download(s, dst)),
        sync_plan(src, dst).correct_time == src.filter_map(|s: Seq<char>| time_correction(s, dst)),
    decreases src.len() + dst.len(),
{
    let pt = |d: Seq<char>| !has_path(src, path_of(d));
    let pd = |s: Seq<char>| wanted_download(s, dst);
    let fc = |s: Seq<char>| time_correction(s, dst);
    reveal(Seq::filter);
    assert(pt =~= (|d: Seq<char>| !has_path(src, path_of(d))));
    assert(pd =~= (|s: Seq<char>| wanted_download(s, dst)));
    assert(fc =~= (|s: Seq<char>| time_correction(s, dst)));
    if src.len() == 0 && dst.len() == 0 {
    } else if src.len() == 0 {
        lemma_sorted_drop_first(dst);
        law_sync_plan_of_sorted_lists(src, dst.drop_first());
        lemma_filter_front(dst, pt);
        lemma_filter_congruent(src, pd, |s: Seq<char>| wanted_download(s, dst.drop_first()));
        lemma_filter_map_congruent(src, fc, |s: Seq<char>| time_correction(s, dst.drop_first()));
    } else if dst.len() == 0 {
        lemma_sorted_drop_first(src);
        law_sync_plan_of_sorted_lists(src.drop_first(), dst);
        lemma_filter_front(src, pd);
        lemma_filter_map_front(src, fc);
        lemma_filter_congruent(dst, pt, |d: Seq<char>| !has_path(src.drop_first(), path_of(d)));
    } else {
        let s0 = src[0];
        let d0 = dst[0];
        let o = uncased_order_of(path_of(s0), path_of(d0));
        lemma_sorted_drop_first(src);
        lemma_sorted_drop_first(dst);
        lemma_filter_front(src, pd);
        lemma_filter_map_front(src, fc);
        lemma_filter_front(dst, pt);
        if o == CaseOrder::Less {
            law_sync_plan_of_sorted_lists(src.drop_first(), dst);
            lemma_before_all(dst, path_of(s0));
            assert forall|i: int| 0 <= i < dst.len() implies #[trigger] pt(dst[i])
                == !has_path(src.drop_first(), path_of(dst[i])) by {
                let d = dst[i];
                if i > 0 {
                    assert(uncased_lt(path_of(d0), path_of(d)));
                    lemma_uncased_le_trans(path_of(s0), path_of(d0), path_of(d));
                }
                lemma_drop_other_head(src, path_of(d));
            }
            lemma_filter_congruent(dst, pt, |d: Seq<char>| !has_path(src.drop_first(), path_of(d)));
            lemma_uncased_order_flip(path_of(s0), path_of(d0));
            lemma_drop_other_head(src, path_of(d0));
        } else if o == CaseOrder::Greater {
            law_sync_plan_of_sorted_lists(src, dst.drop_first());
            lemma_uncased_order_flip(path_of(s0), path_of(d0));
            lemma_before_all(src, path_of(d0));
            assert forall|i: int| #![trigger src[i]] 0 <= i < src.len() implies pd(src[i])
                == wanted_download(src[i], dst.drop_first()) && fc(src[i]) == time_correction(src[i], dst.drop_first()) by {
                let s = src[i];
                if i > 0 {
                    assert(uncased_lt(path_of(s0), path_of(s)));
                }
                lemma_uncased_eq_trans(path_of(d0), path_of(s0), path_of(s));
                lemma_uncased_eq_trans(path_of(d0), path_of(s), path_of(s0));
                lemma_uncased_order_flip(path_of(s), path_of(d0));
                lemma_drop_other_head(dst, path_of(s));
            }
            lemma_filter_congruent(src, pd, |s: Seq<char>| wanted_download(s, dst.drop_first()));
            lemma_filter_map_congruent(src, fc, |s: Seq<char>| time_correction(s, dst.drop_first()));
        } else {
            law_sync_plan_of_sorted_lists(src.drop_first(), dst.drop_first());
            lemma_uncased_order_flip(path_of(s0), path_of(d0));
            assert(uncased_eq(path_of(dst[0]), path_of(s0)));
            assert(has_path(dst, path_of(s0)));
            lemma_path_unique(dst, path_of(s0), 0, index_with_path(dst, path_of(s0)));
            assert(uncased_eq(path_of(src[0]), path_of(d0)));
            assert(has_path(src, path_of(d0)));
            assert forall|i: int| #![trigger src.drop_first()[i]] 0 <= i < src.drop_first().len() implies pd(src.drop_first()[i])
                == wanted_download(src.drop_first()[i], dst.drop_first()) && fc(src.drop_first()[i]) == time_correction(src.drop_first()[i], dst.drop_first()) by {
                let s = src.drop_first()[i];
                assert(uncased_lt(path_of(s0), path_of(s)));
                lemma_uncased_eq_trans(path_of(d0), path_of(s0), path_of(s));
                lemma_uncased_eq_trans(path_of(d0), path_of(s), path_of(s0));
                lemma_uncased_order_flip(path_of(s), path_of(d0));
                lemma_uncased_order_flip(path_of(d0), path_of(s));
                lemma_drop_other_head(dst, path_of(s));
            }
            lemma_filter_congruent(src.drop_first(), pd, |s: Seq<char>| wanted_download(s, dst.drop_first()));
            lemma_filter_map_congruent(src.drop_first(), fc, |s: Seq<char>| time_correction(s, dst.drop_first()));
            assert forall|i: int| 0 <= i < dst.drop_first().len() implies #[trigger] pt(dst.drop_first()[i])
                == !has_path(src.drop_first(), path_of(dst.drop_first()[i])) by {
                let d = dst.drop_first()[i];
                assert(uncased_lt(path_of(d0), path_of(d)));
                lemma_uncased_eq_trans(path_of(s0), path_of(d0), path_of(d));
                lemma_uncased_eq_trans(path_of(d), path_of(s0), path_of(d0));
                lemma_uncased_order_flip(path_of(s0), path_of(d));
                lemma_drop_other_head(src, path_of(d));
            }
            lemma_filter_congruent(dst.drop_first(), pt, |d: Seq<char>| !has_path(src.drop_first(), path_of(d)));
        }
    }
}

/// A list compared with itself leaves nothing to download, to trash or to correct.
pub proof fn law_sync_plan_of_same_list(ls: Seq<Seq<char>>)
    ensures
        sync_plan(ls, ls).download.len() == 0,
        sync_plan(ls, ls).trash.len() == 0,
        sync_plan(ls, ls).correct_time.len() == 0,
    decreases ls.len(),
{
    if ls.len() > 0 {
        lemma_uncased_refl(path_of(ls[0]));
        law_sync_plan_of_same_list(ls.drop_first());
    }
}

/// For sorted lists, a file whose size field differs between the source and the
/// destination (same path up to case) is downloaded, whatever its times; and a
/// correct-time line is only ever made for a source line and a destination line with
/// the same path and the same size field whose time fields differ: it is the
/// destination's path, a tab and the source's time.
pub proof fn law_size_change_is_downloaded(src: Seq<Seq<char>>, dst: Seq<Seq<char>>)
    requires
        sorted_by_path(src),
        sorted_by_path(dst),
    ensures
        forall|i: int, j: int| #![trigger src[i], dst[j]]
            0 <= i < src.len() && 0 <= j < dst.len()
            && uncased_eq(fields_of(dst[j])[0], fields_of(src[i])[0])
            && fields_of(src[i])[2] != fields_of(dst[j])[2]
            ==> sync_plan(src, dst).download.contains(src[i]),
        forall|c: Seq<char>| #[trigger] sync_plan(src, dst).correct_time.contains(c) ==>
            exists|i: int, j: int| #![trigger src[i], dst[j]] {
                &&& 0 <= i < src.len()
                &&& 0 <= j < dst.len()
                &&& uncased_eq(fields_of(dst[j])[0], fields_of(src[i])[0])
                &&& fields_of(src[i])[2] == fields_of(dst[j])[2]
                &&& fields_of(src[i])[1] != fields_of(dst[j])[1]
                &&& c == fields_of(dst[j])[0] + seq!['\t'] + fields_of(src[i])[1]
            },
{
    law_sync_plan_of_sorted_lists(src, dst);
    let want = |s: Seq<char>| wanted_download(s, dst);
    let fc = |s: Seq<char>| time_correction(s, dst);
    assert forall|i: int, j: int| #![trigger src[i], dst[j]]
        0 <= i < src.len() && 0 <= j < dst.len()
        && uncased_eq(fields_of(dst[j])[0], fields_of(src[i])[0])
        && fields_of(src[i])[2] != fields_of(dst[j])[2]
        implies sync_plan(src, dst).download.contains(src[i]) by {
        let s = src[i];
        assert(uncased_eq(path_of(dst[j]), path_of(s)));
        assert(has_path(dst, path_of(s)));
        let k = index_with_path(dst, path_of(s));
        lemma_path_unique(dst, path_of(s), k, j);
        assert(wanted_download(s, dst));
        assert(src.filter(want).contains(s)) by {
            broadcast use vstd::seq_lib::group_filter_ensures;
            src.lemma_filter_contains(want, i);
        }
    }
    assert forall|c: Seq<char>| #[trigger] sync_plan(src, dst).correct_time.contains(c) implies
        exists|i: int, j: int| #![trigger src[i], dst[j]] {
            &&& 0 <= i < src.len()
            &&& 0 <= j < dst.len()
            &&& uncased_eq(fields_of(dst[j])[0], fields_of(src[i])[0])
            &&& fields_of(src[i])[2] == fields_of(dst[j])[2]
            &&& fields_of(src[i])[1] != fields_of(dst[j])[1]
            &&& c == fields_of(dst[j])[0] + seq!['\t'] + fields_of(src[i])[1]
        } by {
        assert(src.filter_map(fc).contains(c));
        src.lemma_filter_map_contains(fc, c);
        let s = choose|t: Seq<char>| #[trigger] src.contains(t) && fc(t) == Some(c);
        let i = choose|i: int| 0 <= i < src.len() && src[i] == s;
        let j = index_with_path(dst, path_of(s));
        assert(has_path(dst, path_of(s)));
        assert(uncased_eq(path_of(dst[j]), path_of(s)));
        assert(only_seconds_differ(s, dst[j]));
        assert(src[i] == s);
        assert(uncased_eq(fields_of(dst[j])[0], fields_of(src[i])[0]));
    }
}

/// For sorted lists, the comparison on the fields of the lines, where `i` and `j` are a
/// source and a destination line with the same path up to case:
/// - a source line whose path the destination lacks is downloaded;
/// - a destination line is trashed exactly when the source lacks its path;
/// - every downloaded line is a source line;
/// - with equal time and size fields, the source line is not downloaded;
/// - with equal sizes and times that differ before the seconds (their first 17 bytes),
///   the source line is downloaded;
/// - with equal sizes and times that differ only in the seconds, the source line is not
///   downloaded and the correct-time list has the destination path, a tab and the
///   source time.
pub proof fn law_comparison_on_fields(src: Seq<Seq<char>>, dst: Seq<Seq<char>>)
    requires
        sorted_by_path(src),
        sorted_by_path(dst),
    ensures
        forall|i: int| 0 <= i < src.len() && !has_path(dst, fields_of(src[i])[0])
            ==> #[trigger] sync_plan(src, dst).download.contains(src[i]),
        forall|x: Seq<char>| #[trigger] sync_plan(src, dst).trash.contains(x)
            <==> dst.contains(x) && !has_path(src, fields_of(x)[0]),
        forall|x: Seq<char>| #[trigger] sync_plan(src, dst).download.contains(x) ==> src.contains(x),
        forall|i: int, j: int| #![trigger src[i], dst[j]]
            0 <= i < src.len() && 0 <= j < dst.len() && uncased_eq(fields_of(dst[j])[0], fields_of(src[i])[0])
            ==> {
                &&& (fields_of(src[i])[1] == fields_of(dst[j])[1] && fields_of(src[i])[2] == fields_of(dst[j])[2])
                    ==> !sync_plan(src, dst).download.contains(src[i])
                &&& (fields_of(src[i])[2] == fields_of(dst[j])[2]
                    && vstd::utf8::encode_utf8(fields_of(src[i])[1]).take(17)
                        != vstd::utf8::encode_utf8(fields_of(dst[j])[1]).take(17))
                    ==> sync_plan(src, dst).download.contains(src[i])
                &&& (fields_of(src[i])[2] == fields_of(dst[j])[2]
                    && fields_of(src[i])[1] != fields_of(dst[j])[1]
                    && vstd::utf8::encode_utf8(fields_of(src[i])[1]).take(17)
                        == vstd::utf8::encode_utf8(fields_of(dst[j])[1]).take(17))
                    ==> {
                    &&& !sync_plan(src, dst).download.contains(src[i])
                    &&& sync_plan(src, dst).correct_time.contains(
                        fields_of(dst[j])[0] + seq!['\t'] + fields_of(src[i])[1])
                }
            },
{
    law_sync_plan_of_sorted_lists(src, dst);
    let want = |s: Seq<char>| wanted_download(s, dst);
    let fc = |s: Seq<char>| time_correction(s, dst);
    let pt = |d: Seq<char>| !has_path(src, path_of(d));
    let p = sync_plan(src, dst);
    assert forall|i: int| 0 <= i < src.len() && !has_path(dst, fields_of(src[i])[0])
        implies #[trigger] p.download.contains(src[i]) by {
        assert(want(src[i]));
        broadcast use vstd::seq_lib::group_filter_ensures;
        src.lemma_filter_contains(want, i);
    }
    assert forall|x: Seq<char>| #[trigger] p.trash.contains(x)
        <==> dst.contains(x) && !has_path(src, fields_of(x)[0]) by {
        if p.trash.contains(x) {
            lemma_filter_origin(dst, pt, x);
        }
        if dst.contains(x) && !has_path(src, fields_of(x)[0]) {
            let k = choose|k: int| 0 <= k < dst.len() && dst[k] == x;
            broadcast use vstd::seq_lib::group_filter_ensures;
            dst.lemma_filter_contains(pt, k);
        }
    }
    assert forall|x: Seq<char>| #[trigger] p.download.contains(x) implies src.contains(x) by {
        lemma_filter_origin(src, want, x);
    }
    assert forall|i: int, j: int| #![trigger src[i], dst[j]]
        0 <= i < src.len() && 0 <= j < dst.len() && uncased_eq(fields_of(dst[j])[0], fields_of(src[i])[0])
        implies {
            &&& (fields_of(src[i])[1] == fields_of(dst[j])[1] && fields_of(src[i])[2] == fields_of(dst[j])[2])
                ==> !p.download.contains(src[i])
            &&& (fields_of(src[i])[2] == fields_of(dst[j])[2]
                && vstd::utf8::encode_utf8(fields_of(src[i])[1]).take(17)
                    != vstd::utf8::encode_utf8(fields_of(dst[j])[1]).take(17))
                ==> p.download.contains(src[i])
            &&& (fields_of(src[i])[2] == fields_of(dst[j])[2]
                && fields_of(src[i])[1] != fields_of(dst[j])[1]
                && vstd::utf8::encode_utf8(fields_of(src[i])[1]).take(17)
                    == vstd::utf8::encode_utf8(fields_of(dst[j])[1]).take(17))
                ==> {
                &&& !p.download.contains(src[i])
                &&& p.correct_time.contains(fields_of(dst[j])[0] + seq!['\t'] + fields_of(src[i])[1])
            }
        } by {
        let s = src[i];
        assert(uncased_eq(path_of(dst[j]), path_of(s)));
        assert(has_path(dst, path_of(s)));
        let k = index_with_path(dst, path_of(s));
        lemma_path_unique(dst, path_of(s), k, j);
        let c = fields_of(dst[j])[0] + seq!['\t'] + fields_of(src[i])[1];
        if p.download.contains(s) {
            lemma_filter_origin(src, want, s);
        }
        if fields_of(src[i])[2] == fields_of(dst[j])[2]
            && fields_of(src[i])[1] != fields_of(dst[j])[1]
            && time_prefix(fields_of(src[i])[1]) == time_prefix(fields_of(dst[j])[1]) {
            assert(only_seconds_differ(s, dst[j]));
            assert(fc(s) == Some(c));
            lemma_filter_map_has(src, fc, i);
        }
    }
}

} // verus!
