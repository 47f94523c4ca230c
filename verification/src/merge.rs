//! Adding the lines of files just downloaded or moved to the sorted local list.
use vstd::prelude::*;
use crate::text::{
    fields_of, lines_of, text_of, views, chars_of, string_of, copy_chars, split_chars,
    lines_chars, join_chars, chars_equal, lemma_split_on_nonempty,
};
use crate::order::{
    CaseOrder, uncased_order_of, uncased_order, uncased_lt, uncased_eq, lemma_uncased_eq_trans,
    lemma_uncased_order_flip, lemma_uncased_le_trans, lemma_uncased_refl,
};
use crate::compare::{path_of, sorted_by_path, has_path};
use crate::sorting::{sorted_permutation, sort_string_lines};

verus! {

/// The lines without those equal to the line right before them (std's `Vec::dedup`).
pub open spec fn dedup_lines(s: Seq<Seq<char>>) -> Seq<Seq<char>>
    decreases s.len(),
{
    if s.len() <= 1 {
        s
    } else if s.last() == s[s.len() - 2] {
        dedup_lines(s.drop_last())
    } else {
        dedup_lines(s.drop_last()).push(s.last())
    }
}

/// The last line survives removing repeats.
proof fn lemma_dedup_last(s: Seq<Seq<char>>)
    requires
        s.len() > 0,
    ensures
        dedup_lines(s).len() > 0,
        dedup_lines(s).last() == s.last(),
    decreases s.len(),
{
    if s.len() > 1 {
        lemma_dedup_last(s.drop_last());
    }
}

/// After removing repeats no line equals the line right before it, and every line of
/// the input is still there.
pub proof fn law_dedup_lines(s: Seq<Seq<char>>)
    ensures
        forall|i: int| 0 < i < dedup_lines(s).len() ==> #[trigger] dedup_lines(s)[i] != dedup_lines(s)[i - 1],
        forall|x: Seq<char>| #[trigger] dedup_lines(s).contains(x) <==> s.contains(x),
    decreases s.len(),
{
    if s.len() > 1 {
        let t = s.drop_last();
        law_dedup_lines(t);
        lemma_dedup_last(t);
        let r = dedup_lines(s);
        let rt = dedup_lines(t);
        assert forall|x: Seq<char>| #[trigger] r.contains(x) <==> s.contains(x) by {
            if s.contains(x) {
                let k = choose|k: int| 0 <= k < s.len() && s[k] == x;
                if k < s.len() - 1 {
                    assert(t[k] == x);
                    assert(rt.contains(x));
                    let j = choose|j: int| 0 <= j < rt.len() && rt[j] == x;
                    assert(r[j] == x);
                } else if s.last() == s[s.len() - 2] {
                    assert(t[t.len() - 1] == x);
                    assert(rt.contains(x));
                } else {
                    assert(r[r.len() - 1] == x);
                }
            }
            if r.contains(x) {
                let j = choose|j: int| 0 <= j < r.len() && r[j] == x;
                if j < rt.len() {
                    assert(rt[j] == x);
                    assert(rt.contains(x));
                    let k = choose|k: int| 0 <= k < t.len() && t[k] == x;
                    assert(s[k] == x);
                } else {
                    assert(s[s.len() - 1] == x);
                }
            }
        }
    } else if s.len() == 1 {
    }
}

/// The local list after the downloaded lines `down` were merged into it from the
/// position where the local list `local` is: a downloaded line whose path comes first is
/// inserted, a local line whose path comes first is kept, a downloaded line with the
/// same path replaces the local line. When the local list has run out, the next
/// downloaded line is appended and becomes the local line to compare with; when the
/// downloaded lines have run out, the rest of the local list stays as it is.
pub open spec fn merge_downloaded(down: Seq<Seq<char>>, local: Seq<Seq<char>>) -> Seq<Seq<char>>
    decreases 2 * down.len() + local.len(),
{
    if down.len() == 0 {
        local
    } else if local.len() == 0 {
        merge_downloaded(down.drop_first(), seq![down[0]])
    } else {
        let o = uncased_order_of(path_of(down[0]), path_of(local[0]));
        if o == CaseOrder::Less {
            seq![down[0]] + merge_downloaded(down.drop_first(), local)
        } else if o == CaseOrder::Greater {
            seq![local[0]] + merge_downloaded(down, local.drop_first())
        } else {
            seq![down[0]] + merge_downloaded(down.drop_first(), local.drop_first())
        }
    }
}

/// The new local list text: the lines of `sorted_downloaded` without repeats merged
/// into the lines of `list_local`.
pub open spec fn merged_local_text(sorted_downloaded: Seq<char>, list_local: Seq<char>) -> Seq<char> {
    text_of(merge_downloaded(dedup_lines(lines_of(sorted_downloaded)), lines_of(list_local)))
}

/// The lines without repeats of neighbours.
fn dedup_chars(s: &Vec<Vec<char>>) -> (r: Vec<Vec<char>>)
    ensures
        views(r@) == dedup_lines(views(s@)),
{
    let mut r: Vec<Vec<char>> = Vec::new();
    let ghost vs = views(s@);
    let mut i: usize = 0;
    while i < s.len()
        invariant
            i <= s@.len(),
            vs == views(s@),
            views(r@) == dedup_lines(vs.take(i as int)),
        decreases s@.len() - i,
    {
        assert(vs.take(i + 1).drop_last() =~= vs.take(i as int));
        let ghost before = r@;
        if i == 0 || !chars_equal(&s[i], &s[i - 1]) {
            r.push(copy_chars(&s[i]));
            assert(views(r@) =~= views(before).push(vs[i as int]));
        }
        i = i + 1;
    }
    assert(vs.take(s@.len() as int) =~= vs);
    r
}

/// Merges the lines of `sorted_downloaded`, repeated lines once, into the lines of
/// `list_local`, as `merge_downloaded` says, and joins the result with `'\n'`.
pub fn merge_sorted_downloaded(sorted_downloaded: &str, list_local: &str) -> (r: String)
    ensures
        r@ == merged_local_text(sorted_downloaded@, list_local@),
{
    let down = dedup_chars(&lines_chars(&chars_of(sorted_downloaded)));
    let mut local = lines_chars(&chars_of(list_local));
    let ghost d = views(down@);
    let ghost whole = merge_downloaded(d, views(local@));
    let mut cd: usize = 0;
    let mut cl: usize = 0;
    assert(d.skip(0) =~= d);
    assert(views(local@).skip(0) =~= views(local@));
    while cd < down.len()
        invariant
            d == views(down@),
            cd <= d.len(),
            cl <= local@.len(),
            whole == views(local@).take(cl as int) + merge_downloaded(d.skip(cd as int), views(local@).skip(cl as int)),
        decreases 2 * (d.len() - cd) + (local@.len() - cl),
    {
        let ghost lv = views(local@);
        let ghost ds = d.skip(cd as int);
        let ghost ls = lv.skip(cl as int);
        assert(ds.drop_first() =~= d.skip(cd + 1));
        if cl >= local.len() {
            local.push(copy_chars(&down[cd]));
            assert(views(local@) =~= lv.push(ds[0]));
            assert(views(local@).take(cl as int) =~= lv.take(cl as int));
            assert(views(local@).skip(cl as int) =~= seq![ds[0]]);
            cd = cd + 1;
        } else {
            assert(ls.drop_first() =~= lv.skip(cl + 1));
            let fd = split_chars(&down[cd], '\t');
            let fl = split_chars(&local[cl], '\t');
            proof {
                lemma_split_on_nonempty(d[cd as int], '\t');
                lemma_split_on_nonempty(lv[cl as int], '\t');
            }
            let o = uncased_order(&fd[0], &fl[0]);
            if o == CaseOrder::Less {
                local.insert(cl, copy_chars(&down[cd]));
                assert(views(local@) =~= lv.take(cl as int) + seq![ds[0]] + ls);
                assert(views(local@).take(cl + 1) =~= lv.take(cl as int) + seq![ds[0]]);
                assert(views(local@).skip(cl + 1) =~= ls);
                cl = cl + 1;
                cd = cd + 1;
            } else if o == CaseOrder::Greater {
                assert(lv.take(cl + 1) =~= lv.take(cl as int) + seq![ls[0]]);
                cl = cl + 1;
            } else {
                local.set(cl, copy_chars(&down[cd]));
                assert(views(local@).take(cl + 1) =~= lv.take(cl as int) + seq![ds[0]]);
                assert(views(local@).skip(cl + 1) =~= lv.skip(cl + 1));
                cl = cl + 1;
                cd = cd + 1;
            }
        }
    }
    assert(d.skip(cd as int) =~= Seq::<Seq<char>>::empty());
    assert(views(local@).take(cl as int) + views(local@).skip(cl as int) =~= views(local@));
    let mut nl: Vec<char> = Vec::new();
    nl.push('\n');
    assert(nl@ =~= seq!['\n']);
    string_of(&join_chars(&local, &nl))
}

/// What adding the just downloaded lines to a local list gives: nothing to do for an
/// empty list of downloads; otherwise the downloads sorted (lines that compare equal in
/// some order), joined and merged into the local list.
pub open spec fn local_list_update(r: Option<String>, just_downloaded: Seq<char>, list_local: Seq<char>) -> bool {
    &&& r is None <==> just_downloaded.len() == 0
    &&& r matches Some(t) ==> exists|v: Seq<Seq<char>>|
        sorted_permutation(v, lines_of(just_downloaded)) && t@ == #[trigger] merged_local_text(text_of(v), list_local)
}

/// Adds the lines of files just downloaded or moved to a local list. `None` when there
/// are none; otherwise the new local list text, after which the list of downloads is
/// to be emptied.
pub fn add_just_downloaded_to_list_local_internal(just_downloaded: &str, list_local: &str) -> (r: Option<String>)
    ensures
        local_list_update(r, just_downloaded@, list_local@),
{
    if just_downloaded.is_empty() {
        return None;
    }
    let sorted = sort_string_lines(just_downloaded);
    let ghost v = choose|v: Seq<Seq<char>>| sorted_permutation(v, lines_of(just_downloaded@)) && sorted@ == text_of(v);
    let t = merge_sorted_downloaded(&sorted, list_local);
    assert(t@ == merged_local_text(text_of(v), list_local@));
    Some(t)
}

/// Adds the files just downloaded from Dropbox (`list_just_downloaded_or_moved.csv`)
/// to the list of the first backup disk (`list_local_files.csv`).
pub fn add_just_downloaded_to_list_local(just_downloaded: &str, list_local: &str) -> (r: Option<String>)
    ensures
        local_list_update(r, just_downloaded@, list_local@),
{
    add_just_downloaded_to_list_local_internal(just_downloaded, list_local)
}

/// Adds the files just copied to the second backup disk
/// (`list2_just_downloaded_or_moved.csv`) to its list (`list2_local_files.csv`).
pub fn add2_just_downloaded_to_list_local(just_downloaded: &str, list_local: &str) -> (r: Option<String>)
    ensures
        local_list_update(r, just_downloaded@, list_local@),
{
    add_just_downloaded_to_list_local_internal(just_downloaded, list_local)
}

/// Every line of `ls` has a path after `p`.
pub open spec fn all_paths_after(ls: Seq<Seq<char>>, p: Seq<char>) -> bool {
    forall|i: int| 0 <= i < ls.len() ==> #[trigger] uncased_lt(p, path_of(ls[i]))
}

proof fn lemma_sorted_tail(ls: Seq<Seq<char>>)
    requires
        sorted_by_path(ls),
        ls.len() > 0,
    ensures
        sorted_by_path(ls.drop_first()),
        all_paths_after(ls.drop_first(), path_of(ls[0])),
{
    assert forall|i: int, j: int| 0 <= i < j < ls.drop_first().len() implies #[trigger] uncased_lt(
        path_of(ls.drop_first()[i]),
        path_of(ls.drop_first()[j]),
    ) by {
        assert(uncased_lt(path_of(ls[i + 1]), path_of(ls[j + 1])));
    }
    assert forall|i: int| 0 <= i < ls.drop_first().len() implies #[trigger] uncased_lt(path_of(ls[0]), path_of(ls.drop_first()[i])) by {
        assert(uncased_lt(path_of(ls[0]), path_of(ls[i + 1])));
    }
}

/// No line of a list whose paths all come after `p` has the path `p`, nor a path equal
/// to one before `p`.
proof fn lemma_after_has_no(ls: Seq<Seq<char>>, p: Seq<char>, q: Seq<char>)
    requires
        all_paths_after(ls, p),
        uncased_eq(q, p) || uncased_lt(q, p),
    ensures
        !has_path(ls, q),
{
    if has_path(ls, q) {
        let k = choose|k: int| 0 <= k < ls.len() && #[trigger] uncased_eq(path_of(ls[k]), q);
        assert(uncased_lt(p, path_of(ls[k])));
        lemma_uncased_eq_trans(path_of(ls[k]), q, p);
        lemma_uncased_order_flip(path_of(ls[k]), q);
        if uncased_lt(q, p) {
            lemma_uncased_le_trans(q, p, path_of(ls[k]));
        }
        lemma_uncased_eq_trans(q, p, path_of(ls[k]));
    }
}

/// Where the lines come from in a merge of sorted lists: each downloaded line is in the
/// result, each local line whose path no downloaded line has is in it, and nothing else.
proof fn lemma_merge_members(down: Seq<Seq<char>>, local: Seq<Seq<char>>)
    requires
        sorted_by_path(down),
        sorted_by_path(local),
    ensures
        forall|x: Seq<char>| #[trigger] merge_downloaded(down, local).contains(x) <==> (down.contains(x) || (
        local.contains(x) && !has_path(down, path_of(x)))),
    decreases 2 * down.len() + local.len(),
{
    let m = merge_downloaded(down, local);
    if down.len() == 0 {
    } else if local.len() == 0 {
        lemma_sorted_tail(down);
        lemma_merge_members(down.drop_first(), seq![down[0]]);
        assert forall|x: Seq<char>| #[trigger] m.contains(x) <==> (down.contains(x) || (local.contains(x)
            && !has_path(down, path_of(x)))) by {
            let r = merge_downloaded(down.drop_first(), seq![down[0]]);
            assert(m == r);
            if down.contains(x) {
                let k = choose|k: int| 0 <= k < down.len() && down[k] == x;
                if k > 0 {
                    assert(down.drop_first()[k - 1] == x);
                    assert(down.drop_first().contains(x));
                    assert(r.contains(x));
                } else {
                    assert(seq![down[0]][0] == x);
                    lemma_uncased_refl(path_of(x));
                    lemma_after_has_no(down.drop_first(), path_of(x), path_of(x));
                    assert(r.contains(x));
                }
            }
            if down.drop_first().contains(x) {
                let k = choose|k: int| 0 <= k < down.drop_first().len() && down.drop_first()[k] == x;
                assert(down[k + 1] == x);
            }
            if seq![down[0]].contains(x) {
                let k = choose|k: int| 0 <= k < 1 && seq![down[0]][k] == x;
                assert(down[0] == x);
            }
        }
    } else {
        let v0 = down[0];
        let l0 = local[0];
        let o = uncased_order_of(path_of(v0), path_of(l0));
        lemma_sorted_tail(down);
        lemma_sorted_tail(local);
        lemma_uncased_order_flip(path_of(v0), path_of(l0));
        if o == CaseOrder::Less {
            lemma_merge_members(down.drop_first(), local);
            assert forall|x: Seq<char>| #[trigger] m.contains(x) <==> (down.contains(x) || (local.contains(x)
                && !has_path(down, path_of(x)))) by {
                let r = merge_downloaded(down.drop_first(), local);
                assert(m == seq![v0] + r);
                if down.contains(x) {
                    let k = choose|k: int| 0 <= k < down.len() && down[k] == x;
                    if k > 0 {
                        assert(down.drop_first()[k - 1] == x);
                        assert(r.contains(x));
                        let j = choose|j: int| 0 <= j < r.len() && r[j] == x;
                        assert(m[j + 1] == x);
                    } else {
                        assert(m[0] == x);
                    }
                }
                if m.contains(x) {
                    let j = choose|j: int| 0 <= j < m.len() && m[j] == x;
                    if j > 0 {
                        assert(r[j - 1] == x);
                        assert(r.contains(x));
                    } else {
                        assert(down[0] == x);
                    }
                }
                if down.drop_first().contains(x) {
                    let k = choose|k: int| 0 <= k < down.drop_first().len() && down.drop_first()[k] == x;
                    assert(down[k + 1] == x);
                }
                if local.contains(x) {
                    let k = choose|k: int| 0 <= k < local.len() && local[k] == x;
                    if k > 0 {
                        assert(uncased_lt(path_of(l0), path_of(local.drop_first()[k - 1])));
                        lemma_uncased_le_trans(path_of(v0), path_of(l0), path_of(x));
                    }
                    if !has_path(down.drop_first(), path_of(x)) {
                        lemma_uncased_order_flip(path_of(v0), path_of(x));
                        if has_path(down, path_of(x)) {
                            let i = choose|i: int| 0 <= i < down.len() && #[trigger] uncased_eq(path_of(down[i]), path_of(x));
                            if i > 0 {
                                assert(uncased_eq(path_of(down.drop_first()[i - 1]), path_of(x)));
                            }
                        }
                    }
                    if has_path(down.drop_first(), path_of(x)) {
                        let i = choose|i: int| 0 <= i < down.drop_first().len() && #[trigger] uncased_eq(path_of(down.drop_first()[i]), path_of(x));
                        assert(uncased_eq(path_of(down[i + 1]), path_of(x)));
                    }
                    if !has_path(down, path_of(x)) {
                        assert(!has_path(down.drop_first(), path_of(x)));
                        assert(r.contains(x));
                        let j = choose|j: int| 0 <= j < r.len() && r[j] == x;
                        assert(m[j + 1] == x);
                    }
                }
            }
        } else if o == CaseOrder::Greater {
            lemma_merge_members(down, local.drop_first());
            lemma_after_has_no(down.drop_first(), path_of(v0), path_of(l0));
            assert(!has_path(down, path_of(l0))) by {
                if has_path(down, path_of(l0)) {
                    let i = choose|i: int| 0 <= i < down.len() && #[trigger] uncased_eq(path_of(down[i]), path_of(l0));
                    if i > 0 {
                        assert(uncased_eq(path_of(down.drop_first()[i - 1]), path_of(l0)));
                    }
                }
            }
            assert forall|x: Seq<char>| #[trigger] m.contains(x) <==> (down.contains(x) || (local.contains(x)
                && !has_path(down, path_of(x)))) by {
                let r = merge_downloaded(down, local.drop_first());
                assert(m == seq![l0] + r);
                if m.contains(x) {
                    let j = choose|j: int| 0 <= j < m.len() && m[j] == x;
                    if j > 0 {
                        assert(r[j - 1] == x);
                        assert(r.contains(x));
                        if local.drop_first().contains(x) {
                            let k = choose|k: int| 0 <= k < local.drop_first().len() && local.drop_first()[k] == x;
                            assert(local[k + 1] == x);
                        }
                    } else {
                        assert(local[0] == x);
                    }
                }
                if down.contains(x) {
                    assert(r.contains(x));
                    let j = choose|j: int| 0 <= j < r.len() && r[j] == x;
                    assert(m[j + 1] == x);
                }
                if local.contains(x) && !has_path(down, path_of(x)) {
                    let k = choose|k: int| 0 <= k < local.len() && local[k] == x;
                    if k > 0 {
                        assert(local.drop_first()[k - 1] == x);
                        assert(r.contains(x));
                        let j = choose|j: int| 0 <= j < r.len() && r[j] == x;
                        assert(m[j + 1] == x);
                    } else {
                        assert(m[0] == x);
                    }
                }
            }
        } else {
            lemma_merge_members(down.drop_first(), local.drop_first());
            assert forall|x: Seq<char>| #[trigger] m.contains(x) <==> (down.contains(x) || (local.contains(x)
                && !has_path(down, path_of(x)))) by {
                let r = merge_downloaded(down.drop_first(), local.drop_first());
                assert(m == seq![v0] + r);
                if m.contains(x) {
                    let j = choose|j: int| 0 <= j < m.len() && m[j] == x;
                    if j > 0 {
                        assert(r[j - 1] == x);
                        assert(r.contains(x));
                        if down.drop_first().contains(x) {
                            let k = choose|k: int| 0 <= k < down.drop_first().len() && down.drop_first()[k] == x;
                            assert(down[k + 1] == x);
                        }
                        if local.drop_first().contains(x) && !has_path(down.drop_first(), path_of(x)) {
                            let k = choose|k: int| 0 <= k < local.drop_first().len() && local.drop_first()[k] == x;
                            assert(local[k + 1] == x);
                            assert(uncased_lt(path_of(l0), path_of(x)));
                            lemma_uncased_eq_trans(path_of(v0), path_of(l0), path_of(x));
                            lemma_uncased_order_flip(path_of(v0), path_of(x));
                            if has_path(down, path_of(x)) {
                                let i = choose|i: int| 0 <= i < down.len() && #[trigger] uncased_eq(path_of(down[i]), path_of(x));
                                if i > 0 {
                                    assert(uncased_eq(path_of(down.drop_first()[i - 1]), path_of(x)));
                                }
                            }
                        }
                    } else {
                        assert(down[0] == x);
                    }
                }
                if down.contains(x) {
                    let k = choose|k: int| 0 <= k < down.len() && down[k] == x;
                    if k > 0 {
                        assert(down.drop_first()[k - 1] == x);
                        assert(r.contains(x));
                        let j = choose|j: int| 0 <= j < r.len() && r[j] == x;
                        assert(m[j + 1] == x);
                    } else {
                        assert(m[0] == x);
                    }
                }
                if local.contains(x) && !has_path(down, path_of(x)) {
                    let k = choose|k: int| 0 <= k < local.len() && local[k] == x;
                    if k == 0 {
                        assert(uncased_eq(path_of(down[0]), path_of(x)));
                    } else {
                        assert(local.drop_first()[k - 1] == x);
                        if has_path(down.drop_first(), path_of(x)) {
                            let i = choose|i: int| 0 <= i < down.drop_first().len() && #[trigger] uncased_eq(path_of(down.drop_first()[i]), path_of(x));
                            assert(uncased_eq(path_of(down[i + 1]), path_of(x)));
                        }
                        assert(r.contains(x));
                        let j = choose|j: int| 0 <= j < r.len() && r[j] == x;
                        assert(m[j + 1] == x);
                    }
                }
            }
        }
    }
}

proof fn lemma_prepend_sorted(x: Seq<char>, r: Seq<Seq<char>>)
    requires
        sorted_by_path(r),
        all_paths_after(r, path_of(x)),
    ensures
        sorted_by_path(seq![x] + r),
{
    let m = seq![x] + r;
    assert forall|i: int, j: int| 0 <= i < j < m.len() implies #[trigger] uncased_lt(path_of(m[i]), path_of(m[j])) by {
        if i == 0 {
            assert(m[j] == r[j - 1]);
            assert(uncased_lt(path_of(x), path_of(r[j - 1])));
        } else {
            assert(uncased_lt(path_of(r[i - 1]), path_of(r[j - 1])));
        }
    }
}

/// A list whose lines come from `down` and `local`, each with a path after `p`, has all
/// paths after `p`.
proof fn lemma_members_after(m: Seq<Seq<char>>, down: Seq<Seq<char>>, local: Seq<Seq<char>>, p: Seq<char>)
    requires
        forall|x: Seq<char>| #[trigger] m.contains(x) ==> down.contains(x) || local.contains(x),
        all_paths_after(down, p),
        all_paths_after(local, p),
    ensures
        all_paths_after(m, p),
{
    assert forall|i: int| 0 <= i < m.len() implies #[trigger] uncased_lt(p, path_of(m[i])) by {
        assert(m.contains(m[i]));
        if down.contains(m[i]) {
            let k = choose|k: int| 0 <= k < down.len() && down[k] == m[i];
            assert(uncased_lt(p, path_of(down[k])));
        } else {
            let k = choose|k: int| 0 <= k < local.len() && local[k] == m[i];
            assert(uncased_lt(p, path_of(local[k])));
        }
    }
}

proof fn lemma_after_weaken(ls: Seq<Seq<char>>, p: Seq<char>, q: Seq<char>)
    requires
        all_paths_after(ls, q),
        uncased_lt(p, q) || uncased_eq(p, q),
    ensures
        all_paths_after(ls, p),
{
    assert forall|i: int| 0 <= i < ls.len() implies #[trigger] uncased_lt(p, path_of(ls[i])) by {
        assert(uncased_lt(q, path_of(ls[i])));
        lemma_uncased_eq_trans(p, q, path_of(ls[i]));
        if uncased_lt(p, q) {
            lemma_uncased_le_trans(p, q, path_of(ls[i]));
        }
    }
}

/// Merging sorted downloads into a sorted local list gives a sorted list.
proof fn lemma_merge_sorted(down: Seq<Seq<char>>, local: Seq<Seq<char>>)
    requires
        sorted_by_path(down),
        sorted_by_path(local),
    ensures
        sorted_by_path(merge_downloaded(down, local)),
    decreases 2 * down.len() + local.len(),
{
    if down.len() == 0 {
    } else if local.len() == 0 {
        lemma_sorted_tail(down);
        lemma_merge_sorted(down.drop_first(), seq![down[0]]);
    } else {
        let v0 = down[0];
        let l0 = local[0];
        let o = uncased_order_of(path_of(v0), path_of(l0));
        lemma_sorted_tail(down);
        lemma_sorted_tail(local);
        lemma_uncased_order_flip(path_of(v0), path_of(l0));
        if o == CaseOrder::Less {
            let r = merge_downloaded(down.drop_first(), local);
            lemma_merge_sorted(down.drop_first(), local);
            lemma_merge_members(down.drop_first(), local);
            assert(all_paths_after(local, path_of(v0))) by {
                assert forall|i: int| 0 <= i < local.len() implies #[trigger] uncased_lt(path_of(v0), path_of(local[i])) by {
                    if i > 0 {
                        assert(uncased_lt(path_of(l0), path_of(local.drop_first()[i - 1])));
                        lemma_uncased_le_trans(path_of(v0), path_of(l0), path_of(local[i]));
                    }
                }
            }
            lemma_members_after(r, down.drop_first(), local, path_of(v0));
            lemma_prepend_sorted(v0, r);
        } else if o == CaseOrder::Greater {
            let r = merge_downloaded(down, local.drop_first());
            lemma_merge_sorted(down, local.drop_first());
            lemma_merge_members(down, local.drop_first());
            assert(all_paths_after(down, path_of(l0))) by {
                assert forall|i: int| 0 <= i < down.len() implies #[trigger] uncased_lt(path_of(l0), path_of(down[i])) by {
                    if i > 0 {
                        assert(uncased_lt(path_of(v0), path_of(down.drop_first()[i - 1])));
                        lemma_uncased_le_trans(path_of(l0), path_of(v0), path_of(down[i]));
                    }
                }
            }
            lemma_members_after(r, down, local.drop_first(), path_of(l0));
            lemma_prepend_sorted(l0, r);
        } else {
            let r = merge_downloaded(down.drop_first(), local.drop_first());
            lemma_merge_sorted(down.drop_first(), local.drop_first());
            lemma_merge_members(down.drop_first(), local.drop_first());
            lemma_after_weaken(local.drop_first(), path_of(v0), path_of(l0));
            lemma_members_after(r, down.drop_first(), local.drop_first(), path_of(v0));
            lemma_prepend_sorted(v0, r);
        }
    }
}

/// Adding the downloads to the local list, both sorted with no two lines of one list
/// with the same path: the result is sorted the same way; it holds every downloaded
/// line, every local line whose path no downloaded line has, and no other line. So a
/// downloaded line replaces the local line with its path, and is inserted where there is
/// none.
pub proof fn law_merge_downloaded_of_sorted_lists(down: Seq<Seq<char>>, local: Seq<Seq<char>>)
    requires
        sorted_by_path(down),
        sorted_by_path(local),
    ensures
        sorted_by_path(merge_downloaded(down, local)),
        forall|x: Seq<char>| #[trigger] merge_downloaded(down, local).contains(x) <==> (down.contains(x) || (
        local.contains(x) && !has_path(down, path_of(x)))),
{
    lemma_merge_sorted(down, local);
    lemma_merge_members(down, local);
}

} // verus!
