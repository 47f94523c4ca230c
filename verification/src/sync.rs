//! What a comparison does for the local list: applied to it, the list holds the files
//! of the source list.
use vstd::prelude::*;
use crate::compare::{
    path_of, sorted_by_path, has_path, index_with_path, sync_plan, wanted_download,
    metadata_differs, only_seconds_differ, law_sync_plan_of_sorted_lists,
};
use crate::merge::{merge_downloaded, law_merge_downloaded_of_sorted_lists};
use crate::order::{uncased_eq, uncased_lt, lemma_uncased_eq_trans, lemma_uncased_refl};

verus! {

/// A local line `m` stands for the source line `s`: the paths are equal up to case, and
/// the line is `s` itself or has its size and its time up to the seconds.
pub open spec fn stands_for(m: Seq<char>, s: Seq<char>) -> bool {
    &&& uncased_eq(path_of(m), path_of(s))
    &&& (m == s || !metadata_differs(s, m) || only_seconds_differ(s, m))
}

/// Some line of `m` stands for `s`.
pub open spec fn has_line_for(m: Seq<Seq<char>>, s: Seq<char>) -> bool {
    exists|j: int| 0 <= j < m.len() && #[trigger] stands_for(m[j], s)
}

/// The local lines whose path the source list has: what stays once the trash list is
/// taken out.
pub open spec fn kept_lines(src: Seq<Seq<char>>, dst: Seq<Seq<char>>) -> Seq<Seq<char>> {
    dst.filter(|d: Seq<char>| has_path(src, path_of(d)))
}

/// The local list after the trash list is taken out of it and the download list merged
/// into it.
pub open spec fn synced_local(src: Seq<Seq<char>>, dst: Seq<Seq<char>>) -> Seq<Seq<char>> {
    merge_downloaded(sync_plan(src, dst).download, kept_lines(src, dst))
}

/// A filter of a sorted list is sorted.
proof fn lemma_filter_sorted(ls: Seq<Seq<char>>, p: spec_fn(Seq<char>) -> bool)
    requires
        sorted_by_path(ls),
    ensures
        sorted_by_path(ls.filter(p)),
        forall|x: Seq<char>| #[trigger] ls.filter(p).contains(x) ==> ls.contains(x) && p(x),
    decreases ls.len(),
{
    broadcast use vstd::seq_lib::group_filter_ensures;
    reveal(Seq::filter);
    if ls.len() > 0 {
        let t = ls.drop_last();
        assert(sorted_by_path(t)) by {
            assert forall|i: int, j: int| 0 <= i < j < t.len() implies #[trigger] uncased_lt(path_of(t[i]), path_of(t[j])) by {
                assert(uncased_lt(path_of(ls[i]), path_of(ls[j])));
            }
        }
        lemma_filter_sorted(t, p);
        let f = t.filter(p);
        if p(ls.last()) {
            let g = f.push(ls.last());
            assert forall|i: int, j: int| 0 <= i < j < g.len() implies #[trigger] uncased_lt(path_of(g[i]), path_of(g[j])) by {
                if j == g.len() - 1 {
                    assert(f.contains(g[i]));
                    let k = choose|k: int| 0 <= k < t.len() && t[k] == g[i];
                    assert(uncased_lt(path_of(ls[k]), path_of(ls[ls.len() - 1])));
                } else {
                    assert(uncased_lt(path_of(f[i]), path_of(f[j])));
                }
            }
        }
        assert forall|x: Seq<char>| #[trigger] ls.filter(p).contains(x) implies ls.contains(x) && p(x) by {
            if f.contains(x) {
                let k = choose|k: int| 0 <= k < t.len() && t[k] == x;
                assert(ls[k] == x);
            } else {
                assert(ls[ls.len() - 1] == x);
            }
        }
    }
}

proof fn lemma_sync_facts(src: Seq<Seq<char>>, dst: Seq<Seq<char>>)
    requires
        sorted_by_path(src),
        sorted_by_path(dst),
    ensures
        sync_plan(src, dst).download == src.filter(|s: Seq<char>| wanted_download(s, dst)),
        sorted_by_path(sync_plan(src, dst).download),
        sorted_by_path(kept_lines(src, dst)),
        forall|x: Seq<char>| #[trigger] sync_plan(src, dst).download.contains(x) ==> src.contains(x) && wanted_download(x, dst),
        forall|x: Seq<char>| #[trigger] kept_lines(src, dst).contains(x) ==> dst.contains(x) && has_path(src, path_of(x)),
        sorted_by_path(synced_local(src, dst)),
        forall|x: Seq<char>| #[trigger] synced_local(src, dst).contains(x) <==> (sync_plan(src, dst).download.contains(x) || (
            kept_lines(src, dst).contains(x) && !has_path(sync_plan(src, dst).download, path_of(x)))),
{
    let keep = |d: Seq<char>| has_path(src, path_of(d));
    let want = |s: Seq<char>| wanted_download(s, dst);
    law_sync_plan_of_sorted_lists(src, dst);
    lemma_filter_sorted(src, want);
    lemma_filter_sorted(dst, keep);
    assert(kept_lines(src, dst) == dst.filter(keep));
    law_merge_downloaded_of_sorted_lists(sync_plan(src, dst).download, kept_lines(src, dst));
}

/// A source line has a line in the local list after syncing that stands for it.
proof fn lemma_source_line_synced(src: Seq<Seq<char>>, dst: Seq<Seq<char>>, i: int)
    requires
        sorted_by_path(src),
        sorted_by_path(dst),
        0 <= i < src.len(),
    ensures
        has_line_for(synced_local(src, dst), src[i]),
{
    let keep = |d: Seq<char>| has_path(src, path_of(d));
    let want = |s: Seq<char>| wanted_download(s, dst);
    lemma_sync_facts(src, dst);
    let down = sync_plan(src, dst).download;
    let kept = kept_lines(src, dst);
    assert(kept == dst.filter(keep));
    let m = synced_local(src, dst);
    let s = src[i];
    lemma_uncased_refl(path_of(s));
    if wanted_download(s, dst) {
        assert(down.contains(s)) by {
            broadcast use vstd::seq_lib::group_filter_ensures;
            src.lemma_filter_contains(want, i);
        }
        assert(m.contains(s));
        let j = choose|j: int| 0 <= j < m.len() && m[j] == s;
        assert(stands_for(m[j], s));
    } else {
        let k = index_with_path(dst, path_of(s));
        let d = dst[k];
        assert(uncased_eq(path_of(d), path_of(s)));
        lemma_uncased_eq_trans(path_of(d), path_of(s), path_of(d));
        assert(keep(d)) by {
            assert(uncased_eq(path_of(src[i]), path_of(d)));
        }
        assert(kept.contains(d)) by {
            broadcast use vstd::seq_lib::group_filter_ensures;
            dst.lemma_filter_contains(keep, k);
        }
        assert(!has_path(down, path_of(d))) by {
            if has_path(down, path_of(d)) {
                let q = choose|q: int| 0 <= q < down.len() && #[trigger] uncased_eq(path_of(down[q]), path_of(d));
                assert(down.contains(down[q]));
                assert(src.contains(down[q]) && wanted_download(down[q], dst));
                let r = choose|r: int| 0 <= r < src.len() && src[r] == down[q];
                lemma_uncased_eq_trans(path_of(src[r]), path_of(d), path_of(s));
                if r < i {
                    assert(uncased_lt(path_of(src[r]), path_of(src[i])));
                } else if r > i {
                    assert(uncased_lt(path_of(src[i]), path_of(src[r])));
                    lemma_uncased_eq_trans(path_of(src[r]), path_of(src[i]), path_of(src[r]));
                    lemma_uncased_eq_trans(path_of(src[i]), path_of(src[r]), path_of(src[i]));
                }
            }
        }
        assert(m.contains(d));
        let j = choose|j: int| 0 <= j < m.len() && m[j] == d;
        assert(stands_for(m[j], s));
    }
}

/// Applied to the local list, a comparison of sorted lists leaves it sorted, with a
/// line for each source line that stands for it, and no line with a path the source
/// list does not have: the local list then holds the files of the source list, each
/// with its size and its time up to the seconds (whose correction is on the
/// correct-time list).
pub proof fn law_sync_brings_local_up_to_date(src: Seq<Seq<char>>, dst: Seq<Seq<char>>)
    requires
        sorted_by_path(src),
        sorted_by_path(dst),
    ensures
        sorted_by_path(synced_local(src, dst)),
        forall|i: int| 0 <= i < src.len() ==> #[trigger] has_line_for(synced_local(src, dst), src[i]),
        forall|j: int| 0 <= j < synced_local(src, dst).len() ==> #[trigger] has_path(src, path_of(synced_local(src, dst)[j])),
{
    lemma_sync_facts(src, dst);
    assert forall|i: int| 0 <= i < src.len() implies #[trigger] has_line_for(synced_local(src, dst), src[i]) by {
        lemma_source_line_synced(src, dst, i);
    }
    let m = synced_local(src, dst);
    let down = sync_plan(src, dst).download;
    assert forall|j: int| 0 <= j < m.len() implies #[trigger] has_path(src, path_of(m[j])) by {
        let x = m[j];
        assert(m.contains(x));
        lemma_uncased_refl(path_of(x));
        if down.contains(x) {
            let r = choose|r: int| 0 <= r < src.len() && src[r] == x;
            assert(uncased_eq(path_of(src[r]), path_of(x)));
        }
    }
}

} // verus!
