//! Sorting lines in the order of the lists.
use vstd::prelude::*;
use rayon::slice::ParallelSliceMut;
use crate::text::{lines_of, text_of, views, chars_of, string_of, lines_chars, join_chars};
use crate::order::{CaseOrder, uncased_le, uncased_order};

verus! {

/// Each line comes before or together with every later line.
pub open spec fn sorted_uncased(ls: Seq<Seq<char>>) -> bool {
    forall|i: int, j: int| 0 <= i < j < ls.len() ==> #[trigger] uncased_le(ls[i], ls[j])
}

/// `v` holds the lines of `of`, each as often, in sorted order.
pub open spec fn sorted_permutation(v: Seq<Seq<char>>, of: Seq<Seq<char>>) -> bool {
    &&& v.to_multiset() == of.to_multiset()
    &&& sorted_uncased(v)
}

/// The texts of a vector of strings.
pub open spec fn string_views(v: Seq<String>) -> Seq<Seq<char>> {
    v.map_values(|s: String| s@)
}

/// The order of two lines as `std::cmp::Ordering`, for a sorting routine.
fn line_ordering(a: &String, b: &String) -> (r: core::cmp::Ordering)
    ensures
        (r == core::cmp::Ordering::Less) == (crate::order::uncased_order_of(a@, b@) == CaseOrder::Less),
        (r == core::cmp::Ordering::Greater) == (crate::order::uncased_order_of(a@, b@) == CaseOrder::Greater),
{
    let ac = chars_of(a.as_str());
    let bc = chars_of(b.as_str());
    match uncased_order(&ac, &bc) {
        CaseOrder::Less => core::cmp::Ordering::Less,
        CaseOrder::Equal => core::cmp::Ordering::Equal,
        CaseOrder::Greater => core::cmp::Ordering::Greater,
    }
}

/// `rayon::slice::ParallelSliceMut::par_sort_unstable_by` with the order of the lists.
/// The crate's source sorts the slice in place, a permutation of it, ascending by the
/// comparator, which is a total preorder here. Which of two lines that compare equal
/// comes first is left open: the crate does not keep their order, and its choice of
/// pivots depends on the width of `usize`, so it is not stated.
#[verifier::external_body]
pub(crate) fn par_sort_uncased(v: &mut Vec<String>)
    ensures
        string_views(final(v)@).to_multiset() == string_views(old(v)@).to_multiset(),
        sorted_uncased(string_views(final(v)@)),
{
    v.par_sort_unstable_by(|a, b| line_ordering(a, b));
}

/// Sorts the lines of a text without regard to the case of ASCII letters and joins them
/// with `'\n'`. Lines that compare equal may come in either order.
pub fn sort_string_lines(output_string: &str) -> (r: String)
    ensures
        exists|v: Seq<Seq<char>>| sorted_permutation(v, lines_of(output_string@)) && r@ == text_of(v),
{
    let ls = lines_chars(&chars_of(output_string));
    let mut strings: Vec<String> = Vec::new();
    let mut i: usize = 0;
    while i < ls.len()
        invariant
            i <= ls@.len(),
            string_views(strings@) == views(ls@).take(i as int),
        decreases ls@.len() - i,
    {
        let st = string_of(&ls[i]);
        let ghost before = strings@;
        strings.push(st);
        assert(string_views(strings@) =~= string_views(before).push(views(ls@)[i as int]));
        i = i + 1;
        assert(string_views(strings@) =~= views(ls@).take(i as int));
    }
    assert(views(ls@).take(ls@.len() as int) =~= views(ls@));
    par_sort_uncased(&mut strings);
    let mut sorted: Vec<Vec<char>> = Vec::new();
    let mut k: usize = 0;
    while k < strings.len()
        invariant
            k <= strings@.len(),
            views(sorted@) == string_views(strings@).take(k as int),
        decreases strings@.len() - k,
    {
        let cs = chars_of(strings[k].as_str());
        let ghost before = sorted@;
        sorted.push(cs);
        assert(views(sorted@) =~= views(before).push(string_views(strings@)[k as int]));
        k = k + 1;
        assert(views(sorted@) =~= string_views(strings@).take(k as int));
    }
    assert(string_views(strings@).take(strings@.len() as int) =~= string_views(strings@));
    let mut nl: Vec<char> = Vec::new();
    nl.push('\n');
    assert(nl@ =~= seq!['\n']);
    let r = string_of(&join_chars(&sorted, &nl));
    assert(sorted_permutation(views(sorted@), lines_of(output_string@)));
    assert(r@ == text_of(views(sorted@)));
    r
}

} // verus!
