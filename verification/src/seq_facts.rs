//! Facts about `Seq::filter` and `Seq::filter_map` taken from the front.
use vstd::prelude::*;

verus! {

/// Filtering a sequence keeps or drops its first item, then filters the rest.
pub proof fn lemma_filter_front<A>(s: Seq<A>, p: spec_fn(A) -> bool)
    requires
        s.len() > 0,
    ensures
        s.filter(p) == (if p(s[0]) { seq![s[0]] } else { Seq::<A>::empty() }) + s.drop_first().filter(p),
    decreases s.len(),
{
    reveal(Seq::filter);
    if s.len() == 1 {
        assert(s.drop_last() =~= Seq::<A>::empty());
        assert(s.drop_first() =~= Seq::<A>::empty());
        assert(s.drop_first().filter(p) =~= Seq::<A>::empty());
        if p(s[0]) {
            assert(Seq::<A>::empty().push(s[0]) =~= seq![s[0]]);
        }
        assert((if p(s[0]) { seq![s[0]] } else { Seq::<A>::empty() }) + Seq::<A>::empty() =~= (if p(s[0]) { seq![s[0]] } else { Seq::<A>::empty() }));
    } else {
        lemma_filter_front(s.drop_last(), p);
        assert(s.drop_first().drop_last() =~= s.drop_last().drop_first());
        assert(s.drop_first().last() == s.last());
        let head = if p(s[0]) { seq![s[0]] } else { Seq::<A>::empty() };
        if p(s.last()) {
            assert((head + s.drop_last().drop_first().filter(p)).push(s.last()) =~= head + s.drop_last().drop_first().filter(p).push(s.last()));
        }
    }
}

/// Filters that agree on every item of a sequence give the same result.
pub proof fn lemma_filter_congruent<A>(s: Seq<A>, p: spec_fn(A) -> bool, q: spec_fn(A) -> bool)
    requires
        forall|i: int| 0 <= i < s.len() ==> #[trigger] p(s[i]) == q(s[i]),
    ensures
        s.filter(p) == s.filter(q),
    decreases s.len(),
{
    reveal(Seq::filter);
    if s.len() > 0 {
        assert forall|i: int| 0 <= i < s.drop_last().len() implies #[trigger] p(s.drop_last()[i]) == q(s.drop_last()[i]) by {
            assert(s.drop_last()[i] == s[i]);
        }
        lemma_filter_congruent(s.drop_last(), p, q);
        assert(p(s[s.len() - 1]) == q(s[s.len() - 1]));
    }
}

/// `filter_map` maps or drops the first item, then the rest.
pub proof fn lemma_filter_map_front<A, B>(s: Seq<A>, f: spec_fn(A) -> Option<B>)
    requires
        s.len() > 0,
    ensures
        s.filter_map(f) == (match f(s[0]) {
            Some(b) => seq![b],
            None => Seq::<B>::empty(),
        }) + s.drop_first().filter_map(f),
    decreases s.len(),
{
    let head = match f(s[0]) {
        Some(b) => seq![b],
        None => Seq::<B>::empty(),
    };
    if s.len() == 1 {
        assert(s.drop_last() =~= Seq::<A>::empty());
        assert(s.drop_first() =~= Seq::<A>::empty());
        assert(s.drop_last().filter_map(f) =~= Seq::<B>::empty());
        assert(s.drop_first().filter_map(f) =~= Seq::<B>::empty());
        assert(s.filter_map(f) =~= head);
        assert(head + Seq::<B>::empty() =~= head);
    } else {
        lemma_filter_map_front(s.drop_last(), f);
        assert(s.drop_first().drop_last() =~= s.drop_last().drop_first());
        assert(s.drop_first().last() == s.last());
        match f(s.last()) {
            Some(b) => {
                assert((head + s.drop_last().drop_first().filter_map(f)) + seq![b] =~= head + (s.drop_last().drop_first().filter_map(f) + seq![b]));
            },
            None => {},
        }
    }
}

/// Maps that agree on every item of a sequence give the same `filter_map`.
pub proof fn lemma_filter_map_congruent<A, B>(s: Seq<A>, f: spec_fn(A) -> Option<B>, g: spec_fn(A) -> Option<B>)
    requires
        forall|i: int| 0 <= i < s.len() ==> #[trigger] f(s[i]) == g(s[i]),
    ensures
        s.filter_map(f) == s.filter_map(g),
    decreases s.len(),
{
    if s.len() > 0 {
        assert forall|i: int| 0 <= i < s.drop_last().len() implies #[trigger] f(s.drop_last()[i]) == g(s.drop_last()[i]) by {
            assert(s.drop_last()[i] == s[i]);
        }
        lemma_filter_map_congruent(s.drop_last(), f, g);
        assert(f(s[s.len() - 1]) == g(s[s.len() - 1]));
    }
}

/// Where no item satisfies the predicate, the filter is empty.
pub proof fn lemma_filter_none<A>(s: Seq<A>, p: spec_fn(A) -> bool)
    requires
        forall|i: int| 0 <= i < s.len() ==> !p(#[trigger] s[i]),
    ensures
        s.filter(p).len() == 0,
    decreases s.len(),
{
    reveal(Seq::filter);
    if s.len() > 0 {
        assert forall|i: int| 0 <= i < s.drop_last().len() implies !p(#[trigger] s.drop_last()[i]) by {
            assert(s.drop_last()[i] == s[i]);
        }
        lemma_filter_none(s.drop_last(), p);
        assert(!p(s[s.len() - 1]));
    }
}

/// An item of a filter is an item of the sequence that satisfies the predicate.
pub proof fn lemma_filter_origin<A>(s: Seq<A>, p: spec_fn(A) -> bool, x: A)
    requires
        s.filter(p).contains(x),
    ensures
        s.contains(x),
        p(x),
    decreases s.len(),
{
    reveal(Seq::filter);
    if s.len() > 0 {
        let t = s.drop_last();
        if p(s.last()) && x == s.last() {
            assert(s[s.len() - 1] == x);
        } else {
            if p(s.last()) {
                let k = choose|k: int| 0 <= k < s.filter(p).len() && s.filter(p)[k] == x;
                assert(t.filter(p) == s.filter(p).drop_last());
                assert(k < t.filter(p).len());
                assert(t.filter(p)[k] == x);
            }
            assert(t.filter(p).contains(x));
            lemma_filter_origin(t, p, x);
            let k = choose|k: int| 0 <= k < t.len() && t[k] == x;
            assert(s[k] == x);
        }
    }
}

/// An item that the map keeps gives its image in the `filter_map`.
pub proof fn lemma_filter_map_has<A, B>(s: Seq<A>, f: spec_fn(A) -> Option<B>, i: int)
    requires
        0 <= i < s.len(),
        f(s[i]) is Some,
    ensures
        s.filter_map(f).contains(f(s[i])->0),
    decreases s.len(),
{
    reveal(Seq::filter_map);
    let t = s.drop_last();
    if i == s.len() - 1 {
        assert(s.filter_map(f) == t.filter_map(f) + seq![f(s[i])->0]);
        assert(s.filter_map(f)[s.filter_map(f).len() - 1] == f(s[i])->0);
    } else {
        assert(t[i] == s[i]);
        lemma_filter_map_has(t, f, i);
        let k = choose|k: int| 0 <= k < t.filter_map(f).len() && t.filter_map(f)[k] == f(s[i])->0;
        match f(s.last()) {
            Some(b) => {
                assert(s.filter_map(f) == t.filter_map(f) + seq![b]);
                assert(s.filter_map(f)[k] == f(s[i])->0);
            },
            None => {
                assert(s.filter_map(f) == t.filter_map(f));
            },
        }
    }
}

} // verus!
