//! Finding a file that was moved or renamed: a line of the trash list and a line of the
//! download list that describe the same file.
use vstd::prelude::*;
use crate::text::{split_on, fields_of, lines_of, views, chars_of, split_chars, lines_chars, chars_equal, lemma_split_on_nonempty};
use crate::compare::{path_of, modified_of, size_of};

verus! {

/// The file name in a path: what follows its last `'/'`.
pub open spec fn file_name_of(path: Seq<char>) -> Seq<char> {
    split_on(path, '/').last()
}

/// The line has path, time and size.
pub open spec fn has_fields(line: Seq<char>) -> bool {
    fields_of(line).len() >= 3
}

/// Same time, same size.
pub open spec fn same_metadata(t: Seq<char>, d: Seq<char>) -> bool {
    modified_of(t) == modified_of(d) && size_of(t) == size_of(d)
}

/// Same time, same size, same file name.
pub open spec fn same_name_match(t: Seq<char>, d: Seq<char>) -> bool {
    same_metadata(t, d) && file_name_of(path_of(t)) == file_name_of(path_of(d))
}

/// No line before position `k` has the name, time and size of `t`.
pub open spec fn no_same_name_before(t: Seq<char>, ls: Seq<Seq<char>>, k: int) -> bool {
    forall|m: int| 0 <= m < k ==> !#[trigger] same_name_match(t, ls[m])
}

/// The search reads the fields of each download line up to the first one with the
/// name, time and size of the trash line (all of them where there is none).
pub open spec fn move_search_defined(t: Seq<char>, ls: Seq<Seq<char>>) -> bool {
    &&& has_fields(t)
    &&& forall|k: int| 0 <= k < ls.len() && no_same_name_before(t, ls, k) ==> #[trigger] has_fields(ls[k])
}

/// The positions of the download lines with the time and size of `t`, in order.
pub open spec fn same_metadata_indices(t: Seq<char>, ls: Seq<Seq<char>>) -> Seq<usize>
    decreases ls.len(),
{
    if ls.len() == 0 {
        Seq::empty()
    } else if same_metadata(t, ls.last()) {
        same_metadata_indices(t, ls.drop_last()).push((ls.len() - 1) as usize)
    } else {
        same_metadata_indices(t, ls.drop_last())
    }
}

/// Where a moved file may be in the download list.
pub enum MoveCandidates {
    /// The first download line with the same name, time and size: the same file.
    SameName(usize),
    /// No line has the same name; these lines have the same time and size, and the
    /// content hash decides, in this order.
    SameMetadata(Vec<usize>),
}

/// What the search found, as `move_candidates` states it.
pub open spec fn move_candidates_found(r: MoveCandidates, t: Seq<char>, ls: Seq<Seq<char>>) -> bool {
    &&& r matches MoveCandidates::SameName(k) ==> {
        &&& k < ls.len()
        &&& same_name_match(t, ls[k as int])
        &&& no_same_name_before(t, ls, k as int)
    }
    &&& r matches MoveCandidates::SameMetadata(v) ==> {
        &&& no_same_name_before(t, ls, ls.len() as int)
        &&& v@ == same_metadata_indices(t, ls)
    }
}

/// The search of `move_candidates`; `None` exactly where a line it reads lacks fields.
pub fn try_move_candidates(line_for_trash: &str, list_for_download: &str) -> (r: Option<MoveCandidates>)
    ensures
        r is Some <==> move_search_defined(line_for_trash@, lines_of(list_for_download@)),
        r matches Some(c) ==> move_candidates_found(c, line_for_trash@, lines_of(list_for_download@)),
{
    let ghost t = line_for_trash@;
    let ft = split_chars(&chars_of(line_for_trash), '\t');
    proof {
        lemma_split_on_nonempty(line_for_trash@, '\t');
    }
    if ft.len() < 3 {
        return None;
    }
    let name_t = split_chars(&ft[0], '/');
    proof {
        lemma_split_on_nonempty(ft[0]@, '/');
    }
    let lines = lines_chars(&chars_of(list_for_download));
    let ghost ls = views(lines@);
    assert(ft[0]@ == path_of(t) && ft[1]@ == modified_of(t) && ft[2]@ == size_of(t));
    let mut i: usize = 0;
    while i < lines.len()
        invariant
            t == line_for_trash@,
            ls == views(lines@),
            ls == lines_of(list_for_download@),
            has_fields(t),
            forall|k: int| 0 <= k < i ==> #[trigger] has_fields(ls[k]),
            views(ft@) == fields_of(t),
            views(name_t@) == split_on(path_of(t), '/'),
            name_t@.len() >= 1,
            i <= ls.len(),
            no_same_name_before(t, ls, i as int),
        decreases ls.len() - i,
    {
        let fd = split_chars(&lines[i], '\t');
        proof {
            lemma_split_on_nonempty(ls[i as int], '\t');
        }
        if fd.len() < 3 {
            assert(!move_search_defined(t, ls)) by {
                assert(!has_fields(ls[i as int]));
            }
            return None;
        }
        let name_d = split_chars(&fd[0], '/');
        proof {
            lemma_split_on_nonempty(fd[0]@, '/');
        }
        assert(fd[1]@ == modified_of(ls[i as int]) && fd[2]@ == size_of(ls[i as int]));
        if chars_equal(&ft[1], &fd[1]) && chars_equal(&ft[2], &fd[2])
            && chars_equal(&name_t[name_t.len() - 1], &name_d[name_d.len() - 1]) {
            assert(same_name_match(t, ls[i as int]));
            assert(move_search_defined(t, ls)) by {
                assert forall|k: int| 0 <= k < ls.len() && no_same_name_before(t, ls, k) implies #[trigger] has_fields(ls[k]) by {
                    if k > i {
                        assert(!same_name_match(t, ls[i as int]));
                    }
                }
            }
            return Some(MoveCandidates::SameName(i));
        }
        assert(!same_name_match(t, ls[i as int]));
        i = i + 1;
    }
    assert(move_search_defined(t, ls));
    let mut v: Vec<usize> = Vec::new();
    let mut j: usize = 0;
    while j < lines.len()
        invariant
            t == line_for_trash@,
            ls == views(lines@),
            ls == lines_of(list_for_download@),
            move_search_defined(t, ls),
            no_same_name_before(t, ls, ls.len() as int),
            views(ft@) == fields_of(t),
            j <= ls.len(),
            v@ == same_metadata_indices(t, ls.take(j as int)),
        decreases ls.len() - j,
    {
        assert(ls.take(j + 1).drop_last() =~= ls.take(j as int));
        assert(has_fields(ls[j as int]));
        let fd = split_chars(&lines[j], '\t');
        assert(fd[1]@ == modified_of(ls[j as int]) && fd[2]@ == size_of(ls[j as int]));
        if chars_equal(&ft[1], &fd[1]) && chars_equal(&ft[2], &fd[2]) {
            v.push(j);
        }
        j = j + 1;
    }
    assert(ls.take(ls.len() as int) =~= ls);
    Some(MoveCandidates::SameMetadata(v))
}

/// Searches the download list for the file of a line of the trash list: first a line
/// with the same file name, time and size; where there is none, the lines with the same
/// time and size. The search fails on a line without three fields, which `requires`
/// leaves out.
pub fn move_candidates(line_for_trash: &str, list_for_download: &str) -> (r: MoveCandidates)
    requires
        move_search_defined(line_for_trash@, lines_of(list_for_download@)),
    ensures
        move_candidates_found(r, line_for_trash@, lines_of(list_for_download@)),
{
    match try_move_candidates(line_for_trash, list_for_download) {
        Some(c) => c,
        None => {
            proof {
                assert(false);
            }
            MoveCandidates::SameMetadata(Vec::new())
        },
    }
}

/// The next step for a line of the trash list whose file still exists.
#[derive(PartialEq, Eq, Structural, Clone, Copy, Debug)]
pub enum MoveStep {
    /// Move the file to the path of this download line.
    MoveTo(usize),
    /// Compare the content hash of the file with that of this download line, then ask
    /// again with the outcome added.
    CompareHashes(usize),
    /// Leave the file where it is: it is trashed and downloaded later.
    Leave,
}

/// Decides the next step of finding where a file was moved, from the candidates and the
/// outcomes of the hash comparisons made so far (one per candidate, in order): a
/// same-name line is the file; else the first candidate whose hash was found equal; else
/// the next candidate to compare; else the file is left to be trashed.
pub fn move_step(c: &MoveCandidates, outcomes: &Vec<bool>) -> (r: MoveStep)
    ensures
        match *c {
            MoveCandidates::SameName(k) => r == MoveStep::MoveTo(k),
            MoveCandidates::SameMetadata(v) => match r {
                MoveStep::MoveTo(k) => exists|i: int| {
                    &&& 0 <= i < outcomes@.len()
                    &&& i < v@.len()
                    &&& #[trigger] outcomes@[i]
                    &&& k == v@[i]
                    &&& forall|j: int| 0 <= j < i ==> !outcomes@[j]
                },
                MoveStep::CompareHashes(k) => {
                    &&& outcomes@.len() < v@.len()
                    &&& k == v@[outcomes@.len() as int]
                    &&& forall|j: int| 0 <= j < outcomes@.len() ==> !outcomes@[j]
                },
                MoveStep::Leave => {
                    &&& outcomes@.len() >= v@.len()
                    &&& forall|j: int| 0 <= j < v@.len() ==> !outcomes@[j]
                },
            },
        },
{
    match c {
        MoveCandidates::SameName(k) => MoveStep::MoveTo(*k),
        MoveCandidates::SameMetadata(v) => {
            let mut i: usize = 0;
            while i < outcomes.len() && i < v.len()
                invariant
                    *c == MoveCandidates::SameMetadata(*v),
                    i <= outcomes@.len(),
                    i <= v@.len(),
                    forall|j: int| 0 <= j < i ==> !outcomes@[j],
                decreases outcomes@.len() - i,
            {
                if outcomes[i] {
                    return MoveStep::MoveTo(v[i]);
                }
                i = i + 1;
            }
            if outcomes.len() < v.len() {
                MoveStep::CompareHashes(v[outcomes.len()])
            } else {
                MoveStep::Leave
            }
        },
    }
}

/// What the search finds is the file only where the fields agree: a same-name line has
/// the time field, the size field and the last part of the path of the trash line; and
/// each same-size-and-time candidate has its time and size fields (for a download list
/// whose lines can be counted in a `usize`).
pub proof fn law_move_candidates_match_fields(t: Seq<char>, ls: Seq<Seq<char>>, c: MoveCandidates)
    requires
        move_candidates_found(c, t, ls),
        ls.len() <= usize::MAX,
    ensures
        c matches MoveCandidates::SameName(k) ==> {
            &&& k < ls.len()
            &&& fields_of(t)[1] == fields_of(ls[k as int])[1]
            &&& fields_of(t)[2] == fields_of(ls[k as int])[2]
            &&& split_on(fields_of(t)[0], '/').last() == split_on(fields_of(ls[k as int])[0], '/').last()
        },
        c matches MoveCandidates::SameMetadata(v) ==> forall|m: int| 0 <= m < v@.len() ==> {
            &&& v@[m] < ls.len()
            &&& fields_of(t)[1] == fields_of(ls[v@[m] as int])[1]
            &&& fields_of(t)[2] == fields_of(ls[v@[m] as int])[2]
        },
{
    if let MoveCandidates::SameMetadata(v) = c {
        lemma_same_metadata_indices(t, ls);
    }
}

/// The positions that `same_metadata_indices` gives are lines of `ls` with the time and
/// size of `t`.
proof fn lemma_same_metadata_indices(t: Seq<char>, ls: Seq<Seq<char>>)
    requires
        ls.len() <= usize::MAX,
    ensures
        forall|m: int| 0 <= m < same_metadata_indices(t, ls).len() ==> {
            &&& #[trigger] same_metadata_indices(t, ls)[m] < ls.len()
            &&& same_metadata(t, ls[same_metadata_indices(t, ls)[m] as int])
        },
    decreases ls.len(),
{
    if ls.len() > 0 {
        let r = ls.drop_last();
        lemma_same_metadata_indices(t, r);
        assert forall|m: int| 0 <= m < same_metadata_indices(t, ls).len() implies {
            &&& #[trigger] same_metadata_indices(t, ls)[m] < ls.len()
            &&& same_metadata(t, ls[same_metadata_indices(t, ls)[m] as int])
        } by {
            if m < same_metadata_indices(t, r).len() {
                assert(same_metadata_indices(t, ls)[m] == same_metadata_indices(t, r)[m]);
                assert(ls[same_metadata_indices(t, r)[m] as int] == r[same_metadata_indices(t, r)[m] as int]);
            } else {
                assert(same_metadata(t, ls.last()));
                assert(same_metadata_indices(t, ls)[m] == (ls.len() - 1) as usize);
            }
        }
    }
}

} // verus!
