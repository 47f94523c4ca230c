//! The list of the files on a local backup disk.
use vstd::prelude::*;
use crate::text::{
    join_with, split_on, lemma_split_join, lemma_decimal_digits,
    lines_of, text_of, strip_prefix_once, decimal_of, chars_of, push_chars, strip_prefix_once_chars,
    decimal_chars, string_of, fields_of, copy_chars, split_chars, lemma_split_on_nonempty,
};
use crate::sorting::{sorted_permutation, sort_string_lines};

verus! {

/// A file found on the disk: its full path, its modification time as seconds and
/// nanoseconds since 1970-01-01T00:00:00Z, and its size in bytes.
pub struct LocalFile {
    pub path: String,
    pub modified_secs: i64,
    pub modified_nanos: u32,
    pub size: u64,
}

/// What `chrono` writes for a UTC time given as seconds and nanoseconds since
/// 1970-01-01T00:00:00Z in the form `%Y-%m-%dT%TZ`, or `None` for a time outside its
/// range.
pub uninterp spec fn utc_time_text(secs: int, nanos: int) -> Option<Seq<char>>;

/// `chrono::DateTime::<Utc>::from_timestamp` followed by `format("%Y-%m-%dT%TZ")`: the
/// text is what `utc_time_text` names; `None` where `from_timestamp` gives `None`.
#[verifier::external_body]
fn format_utc_time(secs: i64, nanos: u32) -> (r: Option<String>)
    ensures
        match r {
            Some(t) => utc_time_text(secs as int, nanos as int) == Some(t@),
            None => utc_time_text(secs as int, nanos as int) is None,
        },
{
    match chrono::DateTime::<chrono::Utc>::from_timestamp(secs, nanos) {
        Some(d) => Some(d.format("%Y-%m-%dT%TZ").to_string()),
        None => None,
    }
}

/// An instant in nanoseconds from 1970-01-01T00:00:00Z, given as a distance `secs`,
/// `nanos` after the epoch or before it.
pub open spec fn instant_nanos(after_epoch: bool, secs: int, nanos: int) -> int {
    if after_epoch {
        secs * 1_000_000_000 + nanos
    } else {
        -(secs * 1_000_000_000 + nanos)
    }
}

/// An instant given as a distance from the epoch, after it or before it, as whole seconds
/// (rounded down) and the nanoseconds past them; `None` where the seconds do not fit an
/// `i64`.
pub fn time_parts(after_epoch: bool, secs: u64, nanos: u32) -> (r: Option<(i64, u32)>)
    requires
        nanos < 1_000_000_000,
    ensures
        match r {
            Some((s, n)) => n < 1_000_000_000 && s * 1_000_000_000 + n == instant_nanos(after_epoch, secs as int, nanos as int),
            None => !(i64::MIN * 1_000_000_000 <= instant_nanos(after_epoch, secs as int, nanos as int)
                < (i64::MAX + 1) * 1_000_000_000),
        },
{
    if after_epoch {
        if secs <= 0x7fff_ffff_ffff_ffff {
            Some((secs as i64, nanos))
        } else {
            None
        }
    } else if nanos == 0 {
        if secs <= 0x8000_0000_0000_0000 {
            let s: i64 = if secs == 0x8000_0000_0000_0000 { i64::MIN } else { -(secs as i64) };
            Some((s, 0))
        } else {
            None
        }
    } else {
        if secs < 0x8000_0000_0000_0000 {
            Some((-(secs as i64) - 1, 1_000_000_000 - nanos))
        } else {
            None
        }
    }
}

/// The modification time of a file can be written.
pub open spec fn time_writable(f: LocalFile) -> bool {
    utc_time_text(f.modified_secs as int, f.modified_nanos as int) is Some
}

/// The list line of a file: its path with the base path taken off its start once, its
/// time, its size.
pub open spec fn local_line(base_path: Seq<char>, f: LocalFile) -> Seq<char> {
    strip_prefix_once(f.path@, base_path) + seq!['\t'] + utc_time_text(f.modified_secs as int, f.modified_nanos as int).unwrap()
        + seq!['\t'] + decimal_of(f.size as nat) + seq!['\n']
}

/// The lines of the files one after the other, in the order found.
pub open spec fn local_listing(base_path: Seq<char>, files: Seq<LocalFile>) -> Seq<char>
    decreases files.len(),
{
    if files.len() == 0 {
        Seq::empty()
    } else {
        local_listing(base_path, files.drop_last()) + local_line(base_path, files.last())
    }
}

/// What listing a disk gives: `None` when the time of some file cannot be written;
/// otherwise the lines of the files sorted (lines that compare equal in some order)
/// and joined with `'\n'`.
pub open spec fn local_list_result(r: Option<String>, base_path: Seq<char>, files: Seq<LocalFile>) -> bool {
    &&& r is Some <==> (forall|i: int| 0 <= i < files.len() ==> #[trigger] time_writable(files[i]))
    &&& r matches Some(t) ==> exists|v: Seq<Seq<char>>|
        sorted_permutation(v, lines_of(local_listing(base_path, files))) && t@ == #[trigger] text_of(v)
}

/// The sorted list of the files under `base_path`.
pub fn list_local_internal(base_path: &str, files: &Vec<LocalFile>) -> (r: Option<String>)
    ensures
        local_list_result(r, base_path@, files@),
{
    let base = chars_of(base_path);
    let mut listing: Vec<char> = Vec::new();
    let mut i: usize = 0;
    while i < files.len()
        invariant
            i <= files@.len(),
            base@ == base_path@,
            forall|k: int| 0 <= k < i ==> #[trigger] time_writable(files@[k]),
            listing@ == local_listing(base_path@, files@.take(i as int)),
        decreases files@.len() - i,
    {
        let f = &files[i];
        assert(files@.take(i + 1).drop_last() =~= files@.take(i as int));
        match format_utc_time(f.modified_secs, f.modified_nanos) {
            Some(t) => {
                let path = strip_prefix_once_chars(&chars_of(f.path.as_str()), &base);
                push_chars(&mut listing, &path);
                listing.push('\t');
                push_chars(&mut listing, &chars_of(t.as_str()));
                listing.push('\t');
                push_chars(&mut listing, &decimal_chars(f.size));
                listing.push('\n');
                assert(listing@ =~= local_listing(base_path@, files@.take(i as int)) + local_line(base_path@, files@[i as int]));
            },
            None => {
                assert(!time_writable(files@[i as int]));
                return None;
            },
        }
        i = i + 1;
    }
    assert(files@.take(files@.len() as int) =~= files@);
    let text = string_of(&listing);
    let r = sort_string_lines(text.as_str());
    let ghost v = choose|v: Seq<Seq<char>>| sorted_permutation(v, lines_of(text@)) && r@ == text_of(v);
    assert(r@ == text_of(v));
    Some(r)
}

/// Lists the first backup disk: the sorted lines of its files, to be written to
/// `list_local_files.csv`.
pub fn list_local(base_path: &str, files: &Vec<LocalFile>) -> (r: Option<String>)
    ensures
        local_list_result(r, base_path@, files@),
{
    list_local_internal(base_path, files)
}

/// Lists the second backup disk: the sorted lines of its files, to be written to
/// `list2_local_files.csv`.
pub fn list2_local(base2_path: &str, files: &Vec<LocalFile>) -> (r: Option<String>)
    ensures
        local_list_result(r, base2_path@, files@),
{
    list_local_internal(base2_path, files)
}

/// The line for a copied file in the list of the second disk: its path in the list, its
/// time, its size; `None` where the time cannot be written.
pub fn copied_file_line(path_in_list: &str, modified_secs: i64, modified_nanos: u32, size: u64) -> (r: Option<String>)
    ensures
        r is Some <==> utc_time_text(modified_secs as int, modified_nanos as int) is Some,
        r matches Some(t) ==> t@ == path_in_list@ + seq!['\t'] + utc_time_text(modified_secs as int, modified_nanos as int).unwrap()
            + seq!['\t'] + decimal_of(size as nat),
{
    match format_utc_time(modified_secs, modified_nanos) {
        Some(t) => {
            let mut v = chars_of(path_in_list);
            v.push('\t');
            push_chars(&mut v, &chars_of(t.as_str()));
            v.push('\t');
            push_chars(&mut v, &decimal_chars(size));
            Some(string_of(&v))
        },
        None => None,
    }
}

/// A file to copy from the first backup disk to the second.
pub struct CopyTarget {
    pub path: String,
    pub from: String,
    pub to: String,
}

/// The copy of the file of a line of `list2_for_download.csv`: its path (first field),
/// from `<base_source><path>` to `<base_local><path>`.
pub fn copy_target(base_source_path: &str, base_local_path: &str, line: &str) -> (r: CopyTarget)
    ensures
        r.path@ == fields_of(line@)[0],
        r.from@ == base_source_path@ + fields_of(line@)[0],
        r.to@ == base_local_path@ + fields_of(line@)[0],
{
    let fields = split_chars(&chars_of(line), '\t');
    proof {
        lemma_split_on_nonempty(line@, '\t');
    }
    let mut from = chars_of(base_source_path);
    push_chars(&mut from, &fields[0]);
    let mut to = chars_of(base_local_path);
    push_chars(&mut to, &fields[0]);
    CopyTarget { path: string_of(&fields[0]), from: string_of(&from), to: string_of(&to) }
}

/// The line of a file ends with a tab, the decimal notation of the file's size and a
/// `'\n'`; read back without the `'\n'`, its tab-separated fields are the path without
/// the base path, the time text and that size, where the path and the time text hold no
/// tab.
pub proof fn law_local_line_fields(base_path: Seq<char>, f: LocalFile)
    ensures
        ({
            let l = local_line(base_path, f);
            let d = decimal_of(f.size as nat);
            &&& l.len() >= d.len() + 2
            &&& l.subrange(l.len() - d.len() - 2, l.len() as int) == seq!['\t'] + d + seq!['\n']
        }),
        ({
            let path = strip_prefix_once(f.path@, base_path);
            let time = utc_time_text(f.modified_secs as int, f.modified_nanos as int).unwrap();
            !path.contains('\t') && !time.contains('\t') ==>
                fields_of(local_line(base_path, f).drop_last()) == seq![path, time, decimal_of(f.size as nat)]
        }),
{
    let path = strip_prefix_once(f.path@, base_path);
    let time = utc_time_text(f.modified_secs as int, f.modified_nanos as int).unwrap();
    let d = decimal_of(f.size as nat);
    let l = local_line(base_path, f);
    lemma_decimal_digits(f.size as nat);
    assert(l =~= path + seq!['\t'] + time + seq!['\t'] + d + seq!['\n']);
    assert(l.subrange(l.len() - d.len() - 2, l.len() as int) =~= seq!['\t'] + d + seq!['\n']);
    if !path.contains('\t') && !time.contains('\t') {
        let ls = seq![path, time, d];
        assert(!d.contains('\t')) by {
            if d.contains('\t') {
                let k = choose|k: int| 0 <= k < d.len() && d[k] == '\t';
                assert('0' <= d[k] <= '9');
            }
        }
        assert forall|i: int| 0 <= i < ls.len() implies !(#[trigger] ls[i]).contains('\t') by {
            if i == 2 {
                assert(ls[i] == d);
            }
        }
        assert(ls.drop_last().drop_last() =~= seq![path]);
        assert(ls.drop_last() =~= seq![path, time]);
        assert(join_with(ls.drop_last().drop_last(), seq!['\t']) == path);
        assert(join_with(ls.drop_last(), seq!['\t']) == path + seq!['\t'] + time);
        assert(join_with(ls, seq!['\t']) == join_with(ls.drop_last(), seq!['\t']) + seq!['\t'] + d);
        assert(join_with(ls, seq!['\t']) =~= path + seq!['\t'] + time + seq!['\t'] + d);
        assert(l.drop_last() =~= join_with(ls, seq!['\t']));
        lemma_split_join(ls, '\t');
    }
}

} // verus!
