//! The order in which the lists are kept: paths compared without regard to the case
//! of ASCII letters, as the `uncased` crate compares them.
use vstd::prelude::*;
use uncased::UncasedStr;

verus! {

/// The outcome of comparing two texts.
#[derive(PartialEq, Eq, Structural, Clone, Copy, Debug)]
pub enum CaseOrder {
    Less,
    Equal,
    Greater,
}

/// The code point of `c` with ASCII upper case letters taken as lower case.
pub open spec fn folded_code(c: char) -> int {
    let n = c as int;
    if 65 <= n <= 90 {
        n + 32
    } else {
        n
    }
}

/// Lexicographic comparison of the folded code points of two texts; a text that is a
/// proper prefix of the other comes first.
pub open spec fn uncased_order_of(a: Seq<char>, b: Seq<char>) -> CaseOrder
    decreases a.len(),
{
    if a.len() == 0 {
        if b.len() == 0 {
            CaseOrder::Equal
        } else {
            CaseOrder::Less
        }
    } else if b.len() == 0 {
        CaseOrder::Greater
    } else if folded_code(a[0]) < folded_code(b[0]) {
        CaseOrder::Less
    } else if folded_code(a[0]) > folded_code(b[0]) {
        CaseOrder::Greater
    } else {
        uncased_order_of(a.drop_first(), b.drop_first())
    }
}

/// `a` comes before `b`, or together with it.
pub open spec fn uncased_le(a: Seq<char>, b: Seq<char>) -> bool {
    uncased_order_of(a, b) != CaseOrder::Greater
}

/// `a` comes strictly before `b`.
pub open spec fn uncased_lt(a: Seq<char>, b: Seq<char>) -> bool {
    uncased_order_of(a, b) == CaseOrder::Less
}

/// Two texts equal up to the case of ASCII letters.
pub open spec fn uncased_eq(a: Seq<char>, b: Seq<char>) -> bool {
    uncased_order_of(a, b) == CaseOrder::Equal
}

/// `uncased::UncasedStr::cmp` on the two texts. Its source maps the `chars()` of both
/// strings through `char::to_ascii_lowercase` and compares the two iterators with
/// `Iterator::cmp`, which is the lexicographic order of the code points stated by
/// `uncased_order_of`.
#[verifier::external_body]
pub(crate) fn uncased_order(a: &[char], b: &[char]) -> (r: CaseOrder)
    ensures
        r == uncased_order_of(a@, b@),
{
    let a: String = a.iter().collect();
    let b: String = b.iter().collect();
    match UncasedStr::new(&a).cmp(UncasedStr::new(&b)) {
        core::cmp::Ordering::Less => CaseOrder::Less,
        core::cmp::Ordering::Equal => CaseOrder::Equal,
        core::cmp::Ordering::Greater => CaseOrder::Greater,
    }
}

/// Swapping the texts reverses the outcome.
pub proof fn lemma_uncased_order_flip(a: Seq<char>, b: Seq<char>)
    ensures
        uncased_order_of(a, b) == CaseOrder::Less <==> uncased_order_of(b, a) == CaseOrder::Greater,
        uncased_order_of(a, b) == CaseOrder::Equal <==> uncased_order_of(b, a) == CaseOrder::Equal,
    decreases a.len(),
{
    if a.len() > 0 && b.len() > 0 && folded_code(a[0]) == folded_code(b[0]) {
        lemma_uncased_order_flip(a.drop_first(), b.drop_first());
    }
}

/// The order is transitive.
pub proof fn lemma_uncased_le_trans(a: Seq<char>, b: Seq<char>, c: Seq<char>)
    requires
        uncased_le(a, b),
        uncased_le(b, c),
    ensures
        uncased_le(a, c),
        uncased_lt(a, b) || uncased_lt(b, c) ==> uncased_lt(a, c),
    decreases a.len(),
{
    if a.len() > 0 && b.len() > 0 && c.len() > 0 {
        if folded_code(a[0]) == folded_code(b[0]) && folded_code(b[0]) == folded_code(c[0]) {
            lemma_uncased_le_trans(a.drop_first(), b.drop_first(), c.drop_first());
        }
    }
}

/// Every text equals itself.
pub proof fn lemma_uncased_refl(a: Seq<char>)
    ensures
        uncased_eq(a, a),
    decreases a.len(),
{
    if a.len() > 0 {
        lemma_uncased_refl(a.drop_first());
    }
}

/// Texts equal up to case compare alike with every other text.
pub proof fn lemma_uncased_eq_trans(a: Seq<char>, b: Seq<char>, c: Seq<char>)
    ensures
        uncased_eq(a, b) && uncased_eq(b, c) ==> uncased_eq(a, c),
        uncased_eq(a, b) && uncased_lt(b, c) ==> uncased_lt(a, c),
        uncased_lt(a, b) && uncased_eq(b, c) ==> uncased_lt(a, c),
        uncased_eq(a, b) ==> uncased_eq(b, a),
{
    lemma_uncased_order_flip(a, b);
    lemma_uncased_order_flip(b, c);
    lemma_uncased_order_flip(a, c);
    if uncased_le(a, b) && uncased_le(b, c) {
        lemma_uncased_le_trans(a, b, c);
    }
    if uncased_le(c, b) && uncased_le(b, a) {
        lemma_uncased_le_trans(c, b, a);
    }
}

} // verus!
