//! Lines of the remote list and of the list of downloads.
use vstd::prelude::*;
use crate::text::{
    text_of, lines_of, strip_cr, decimal_of, chars_of, string_of, copy_chars, push_chars,
    decimal_chars, join_chars, views, law_lines_of_text_of, lemma_decimal_digits,
};
use crate::sorting::{sorted_permutation, string_views, par_sort_uncased};

verus! {

/// The remote list line of a file: its path (the displayed path where Dropbox gives one,
/// else the name), its time as Dropbox gives it, its size, and a `'\n'`.
pub open spec fn remote_line(path_display: Option<String>, name: Seq<char>, client_modified: Seq<char>, size: nat) -> Seq<char> {
    let path = match path_display {
        Some(p) => p@,
        None => name,
    };
    path + seq!['\t'] + client_modified + seq!['\t'] + decimal_of(size)
}

/// `l` is one line of a list: not empty, without a `'\n'`, and not ending with a `'\r'`.
pub open spec fn single_line(l: Seq<char>) -> bool {
    &&& l.len() > 0
    &&& !l.contains('\n')
    &&& strip_cr(l) == l
}

/// The remote list line of a file; it is a single line where the path and the time hold
/// no `'\n'`.
pub fn remote_file_line(path_display: Option<String>, name: &str, client_modified: &str, size: u64) -> (r: String)
    ensures
        r@ == remote_line(path_display, name@, client_modified@, size as nat),
        !(match path_display { Some(p) => p@, None => name@ }).contains('\n') && !client_modified@.contains('\n')
            ==> single_line(r@),
{
    let mut v: Vec<char> = match &path_display {
        Some(p) => chars_of(p.as_str()),
        None => chars_of(name),
    };
    v.push('\t');
    push_chars(&mut v, &chars_of(client_modified));
    v.push('\t');
    push_chars(&mut v, &decimal_chars(size));
    proof {
        let path = match path_display { Some(p) => p@, None => name@ };
        let d = decimal_of(size as nat);
        lemma_decimal_digits(size as nat);
        assert(v@ =~= path + seq!['\t'] + client_modified@ + seq!['\t'] + d);
        if !path.contains('\n') && !client_modified@.contains('\n') {
            assert(!v@.contains('\n')) by {
                if v@.contains('\n') {
                    let i = choose|i: int| 0 <= i < v@.len() && v@[i] == '\n';
                    let a = path.len() as int;
                    let b = a + 1 + client_modified@.len();
                    if i < a {
                        assert(path[i] == '\n');
                    } else if i == a || i == b {
                    } else if i < b {
                        assert(client_modified@[i - a - 1] == '\n');
                    } else {
                        assert(d[i - b - 1] == '\n');
                    }
                }
            }
            assert(v@.last() == d.last());
            assert('0' <= d[d.len() - 1] <= '9');
        }
    }
    string_of(&v)
}

/// Sorts the lines of the remote list without regard to the case of ASCII letters and
/// joins them with `'\n'`; lines that compare equal may come in either order. Where
/// each is a single line, the list read back has one line for each of them.
pub fn sort_remote_list(file_list_all: Vec<String>) -> (r: String)
    ensures
        exists|v: Seq<Seq<char>>| {
            &&& sorted_permutation(v, string_views(file_list_all@))
            &&& r@ == #[trigger] text_of(v)
            &&& (forall|i: int| 0 <= i < file_list_all@.len() ==> #[trigger] single_line(file_list_all@[i]@))
                ==> lines_of(r@) == v
        },
{
    let mut list = file_list_all;
    par_sort_uncased(&mut list);
    let mut ls: Vec<Vec<char>> = Vec::new();
    let mut k: usize = 0;
    while k < list.len()
        invariant
            k <= list@.len(),
            views(ls@) == string_views(list@).take(k as int),
        decreases list@.len() - k,
    {
        let cs = chars_of(list[k].as_str());
        let ghost before = ls@;
        ls.push(cs);
        assert(views(ls@) =~= views(before).push(string_views(list@)[k as int]));
        k = k + 1;
    }
    assert(string_views(list@).take(list@.len() as int) =~= string_views(list@));
    let mut nl: Vec<char> = Vec::new();
    nl.push('\n');
    assert(nl@ =~= seq!['\n']);
    let r = string_of(&join_chars(&ls, &nl));
    assert(r@ == text_of(views(ls@)));
    proof {
        let v = views(ls@);
        let of = string_views(file_list_all@);
        if forall|i: int| 0 <= i < file_list_all@.len() ==> #[trigger] single_line(file_list_all@[i]@) {
            assert forall|i: int| 0 <= i < v.len() implies #[trigger] single_line(v[i]) by {
                broadcast use vstd::seq_lib::group_to_multiset_ensures;
                assert(v.contains(v[i]));
                assert(of.to_multiset().count(v[i]) > 0);
                assert(of.contains(v[i]));
                let k = choose|k: int| 0 <= k < of.len() && of[k] == v[i];
                assert(single_line(file_list_all@[k]@));
            }
            if v.len() > 0 {
                assert(single_line(v[v.len() - 1]));
            }
            assert forall|i: int| 0 <= i < v.len() implies !(#[trigger] v[i]).contains('\n') && strip_cr(v[i]) == v[i] by {
                assert(single_line(v[i]));
            }
            law_lines_of_text_of(v);
        }
    }
    r
}

/// Where a download goes: the file under the backup folder, and the temporary folder and
/// file it is written to first.
pub struct DownloadTargets {
    pub local_path: String,
    pub temp_folder: String,
    pub temp_local_path: String,
}

/// The paths of a download of `download_path` into the backup folder
/// `base_local_path`: `<base><path>`, `<base>_temp_download` and
/// `<base>_temp_download<path>`.
pub fn download_targets(base_local_path: &str, download_path: &str) -> (r: DownloadTargets)
    ensures
        r.local_path@ == base_local_path@ + download_path@,
        r.temp_folder@ == base_local_path@ + "_temp_download"@,
        r.temp_local_path@ == base_local_path@ + "_temp_download"@ + download_path@,
{
    let base = chars_of(base_local_path);
    let path = chars_of(download_path);
    let suffix = chars_of("_temp_download");
    let mut local = copy_chars(&base);
    push_chars(&mut local, &path);
    let mut temp = copy_chars(&base);
    push_chars(&mut temp, &suffix);
    let mut temp_file = copy_chars(&temp);
    push_chars(&mut temp_file, &path);
    DownloadTargets {
        local_path: string_of(&local),
        temp_folder: string_of(&temp),
        temp_local_path: string_of(&temp_file),
    }
}

/// The line appended to the list of downloads after a file was downloaded: its path,
/// its time as Dropbox gives it, the bytes written, and a `'\n'`.
pub fn just_downloaded_line(download_path: &str, client_modified: &str, bytes: u64) -> (r: String)
    ensures
        r@ == download_path@ + seq!['\t'] + client_modified@ + seq!['\t'] + decimal_of(bytes as nat) + seq!['\n'],
{
    let mut v = chars_of(download_path);
    v.push('\t');
    push_chars(&mut v, &chars_of(client_modified));
    v.push('\t');
    push_chars(&mut v, &decimal_chars(bytes));
    v.push('\n');
    string_of(&v)
}

/// What happened last in a download.
#[derive(PartialEq, Eq, Structural, Clone, Copy, Debug)]
pub enum DownloadEvent {
    /// Nothing yet.
    Started,
    /// A read from the response gave this many bytes; none means the file is complete.
    Read(u64),
    /// A read from the response failed.
    ReadFailed,
    /// The request for the file failed.
    RequestFailed,
}

/// What a download does next.
#[derive(PartialEq, Eq, Structural, Clone, Copy, Debug)]
pub enum DownloadAction {
    /// Request the file from this byte on.
    Request(u64),
    /// Read on; this many bytes are written so far.
    ReadMore(u64),
    /// The file is complete with this many bytes: set its time, move it into place and
    /// note it in the list of downloads.
    Complete(u64),
    /// Stop: the partial file stays in the temporary folder and nothing is noted.
    Abandon,
}

/// The next step of a download that has written `bytes_out` bytes: a request from the
/// start, or from where a failed read stopped; reading on after bytes came; completion
/// when a read gives none; abandoning when the request fails (or the count of bytes
/// would overflow).
pub fn download_step(bytes_out: u64, event: DownloadEvent) -> (r: DownloadAction)
    ensures
        match event {
            DownloadEvent::Started => r == DownloadAction::Request(bytes_out),
            DownloadEvent::Read(n) => if n == 0 {
                r == DownloadAction::Complete(bytes_out)
            } else if bytes_out + n <= u64::MAX {
                r == DownloadAction::ReadMore((bytes_out + n) as u64)
            } else {
                r == DownloadAction::Abandon
            },
            DownloadEvent::ReadFailed => r == DownloadAction::Request(bytes_out),
            DownloadEvent::RequestFailed => r == DownloadAction::Abandon,
        },
{
    match event {
        DownloadEvent::Started => DownloadAction::Request(bytes_out),
        DownloadEvent::Read(n) => {
            if n == 0 {
                DownloadAction::Complete(bytes_out)
            } else {
                match bytes_out.checked_add(n) {
                    Some(b) => DownloadAction::ReadMore(b),
                    None => DownloadAction::Abandon,
                }
            }
        },
        DownloadEvent::ReadFailed => DownloadAction::Request(bytes_out),
        DownloadEvent::RequestFailed => DownloadAction::Abandon,
    }
}

} // verus!
