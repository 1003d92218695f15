//! Lemmas on filtered sequences.

use vstd::prelude::*;

verus! {

/// Every element of a filtered sequence stands somewhere in the sequence
/// that was filtered.
pub proof fn lemma_filter_source<A>(s: Seq<A>, pred: spec_fn(A) -> bool, a: int)
    requires
        0 <= a < s.filter(pred).len(),
    ensures
        exists|p: int| 0 <= p < s.len() && #[trigger] s[p] == s.filter(pred)[a],
    decreases s.len(),
{
    reveal(Seq::filter);
    let f = s.filter(pred);
    if s.len() > 0 {
        let rest = s.drop_last();
        let g = rest.filter(pred);
        assert(f == if pred(s.last()) {
            g.push(s.last())
        } else {
            g
        });
        if pred(s.last()) && a == f.len() - 1 {
            assert(s[s.len() - 1] == f[a]);
        } else {
            lemma_filter_source(rest, pred, a);
            let p = choose|p: int| 0 <= p < rest.len() && #[trigger] rest[p] == g[a];
            assert(s[p] == f[a]);
        }
    }
}

/// Two elements that a filter keeps stand in the filtered sequence in the
/// order in which they stand in the sequence that was filtered.
pub proof fn lemma_filter_keeps_order<A>(s: Seq<A>, pred: spec_fn(A) -> bool, a: int, b: int)
    requires
        0 <= a < b < s.filter(pred).len(),
    ensures
        exists|p: int, q: int|
            0 <= p < q < s.len() && #[trigger] s[p] == s.filter(pred)[a] && #[trigger] s[q]
                == s.filter(pred)[b],
    decreases s.len(),
{
    reveal(Seq::filter);
    let f = s.filter(pred);
    if s.len() > 0 {
        let rest = s.drop_last();
        let g = rest.filter(pred);
        assert(f == if pred(s.last()) {
            g.push(s.last())
        } else {
            g
        });
        if pred(s.last()) && b == f.len() - 1 {
            lemma_filter_source(rest, pred, a);
            let p = choose|p: int| 0 <= p < rest.len() && #[trigger] rest[p] == g[a];
            assert(s[p] == f[a] && s[s.len() - 1] == f[b]);
        } else {
            lemma_filter_keeps_order(rest, pred, a, b);
            let (p, q) = choose|p: int, q: int|
                0 <= p < q < rest.len() && #[trigger] rest[p] == g[a] && #[trigger] rest[q] == g[b];
            assert(s[p] == f[a] && s[q] == f[b]);
        }
    }
}

/// Replacing an element that a filter drops by another that it drops leaves
/// the filtered sequence as it is.
pub proof fn lemma_filter_update_dropped<A>(s: Seq<A>, pred: spec_fn(A) -> bool, i: int, x: A)
    requires
        0 <= i < s.len(),
        !pred(s[i]),
        !pred(x),
    ensures
        s.update(i, x).filter(pred) == s.filter(pred),
    decreases s.len(),
{
    reveal(Seq::filter);
    let t = s.update(i, x);
    if i == s.len() - 1 {
        assert(t.drop_last() =~= s.drop_last());
    } else {
        lemma_filter_update_dropped(s.drop_last(), pred, i, x);
        assert(t.drop_last() =~= s.drop_last().update(i, x));
    }
}

/// Replacing the last element that a filter keeps by another that it keeps
/// replaces the last element of the filtered sequence.
pub proof fn lemma_filter_update_last<A>(s: Seq<A>, pred: spec_fn(A) -> bool, i: int, x: A)
    requires
        0 <= i < s.len(),
        pred(s[i]),
        pred(x),
        forall|k: int| i < k < s.len() ==> !pred(#[trigger] s[k]),
    ensures
        s.filter(pred).len() > 0,
        s.filter(pred).last() == s[i],
        s.update(i, x).filter(pred) == s.filter(pred).update(s.filter(pred).len() - 1, x),
    decreases s.len(),
{
    reveal(Seq::filter);
    let t = s.update(i, x);
    if i == s.len() - 1 {
        assert(t.drop_last() =~= s.drop_last());
        assert(s.drop_last().filter(pred).push(x) =~= s.filter(pred).update(
            s.filter(pred).len() - 1,
            x,
        ));
    } else {
        lemma_filter_update_last(s.drop_last(), pred, i, x);
        assert(t.drop_last() =~= s.drop_last().update(i, x));
    }
}

/// A filter keeps the whole of a sequence whose elements it keeps one by one.
pub proof fn lemma_filter_keeps_all<A>(s: Seq<A>, pred: spec_fn(A) -> bool)
    requires
        forall|k: int| 0 <= k < s.len() ==> pred(#[trigger] s[k]),
    ensures
        s.filter(pred) == s,
    decreases s.len(),
{
    reveal(Seq::filter);
    if s.len() > 0 {
        lemma_filter_keeps_all(s.drop_last(), pred);
        assert(s.drop_last().push(s.last()) =~= s);
    }
}

/// A filter keeps nothing of a sequence whose elements it drops one by one.
pub proof fn lemma_filter_drops_all<A>(s: Seq<A>, pred: spec_fn(A) -> bool)
    requires
        forall|k: int| 0 <= k < s.len() ==> !pred(#[trigger] s[k]),
    ensures
        s.filter(pred) == Seq::<A>::empty(),
    decreases s.len(),
{
    reveal(Seq::filter);
    if s.len() > 0 {
        lemma_filter_drops_all(s.drop_last(), pred);
    }
}

/// Filtering by a condition after filtering by a weaker one is filtering by
/// the condition.
pub proof fn lemma_filter_twice<A>(s: Seq<A>, weak: spec_fn(A) -> bool, pred: spec_fn(A) -> bool)
    requires
        forall|k: int| 0 <= k < s.len() && pred(#[trigger] s[k]) ==> weak(s[k]),
    ensures
        s.filter(weak).filter(pred) == s.filter(pred),
    decreases s.len(),
{
    reveal(Seq::filter);
    if s.len() > 0 {
        let rest = s.drop_last();
        assert forall|k: int| 0 <= k < rest.len() && pred(#[trigger] rest[k]) implies weak(
            rest[k],
        ) by {
            assert(rest[k] == s[k]);
        }
        lemma_filter_twice(rest, weak, pred);
        if weak(s.last()) {
            rest.filter(weak).lemma_filter_push(s.last(), pred);
        }
    }
}

/// Two filters can be applied in either order.
pub proof fn lemma_filter_commutes<A>(s: Seq<A>, p: spec_fn(A) -> bool, q: spec_fn(A) -> bool)
    ensures
        s.filter(p).filter(q) == s.filter(q).filter(p),
    decreases s.len(),
{
    reveal(Seq::filter);
    if s.len() > 0 {
        let rest = s.drop_last();
        lemma_filter_commutes(rest, p, q);
        if p(s.last()) {
            rest.filter(p).lemma_filter_push(s.last(), q);
        }
        if q(s.last()) {
            rest.filter(q).lemma_filter_push(s.last(), p);
        }
    }
}

} // verus!
