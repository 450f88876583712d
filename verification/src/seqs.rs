//! Facts about filtered sequences and about sets of bounded size.

use vstd::prelude::*;

verus! {

/// One more element of a filtered prefix.
pub proof fn lemma_filter_step<A>(s: Seq<A>, k: int, pred: spec_fn(A) -> bool)
    requires
        0 <= k < s.len(),
    ensures
        s.take(k + 1).filter(pred) == if pred(s[k]) {
            s.take(k).filter(pred).push(s[k])
        } else {
            s.take(k).filter(pred)
        },
{
    reveal(Seq::filter);
    assert(s.take(k + 1).drop_last() =~= s.take(k));
}

/// A filtered prefix, at both ends.
pub proof fn lemma_filter_ends<A>(s: Seq<A>, pred: spec_fn(A) -> bool)
    ensures
        s.take(0).filter(pred) == Seq::<A>::empty(),
        s.take(s.len() as int).filter(pred) == s.filter(pred),
{
    reveal(Seq::filter);
    assert(s.take(s.len() as int) =~= s);
}

/// A prefix filtered by what just element `k` does not pass loses that element.
pub proof fn lemma_filter_but_one<A>(s: Seq<A>, k: int, pred: spec_fn(A) -> bool, n: nat)
    requires
        n <= s.len(),
        forall|j: int| 0 <= j < s.len() ==> (pred(#[trigger] s[j]) <==> j != k),
    ensures
        s.take(n as int).filter(pred).len() == if 0 <= k < n {
            n - 1
        } else {
            n as int
        },
    decreases n,
{
    lemma_filter_ends(s, pred);
    if n > 0 {
        lemma_filter_but_one(s, k, pred, (n - 1) as nat);
        lemma_filter_step(s, n - 1, pred);
    }
}

/// Filters that agree on the elements give the same.
pub proof fn lemma_filter_agree<A>(s: Seq<A>, p: spec_fn(A) -> bool, q: spec_fn(A) -> bool)
    requires
        forall|k: int| 0 <= k < s.len() ==> p(#[trigger] s[k]) == q(s[k]),
    ensures
        s.filter(p) == s.filter(q),
    decreases s.len(),
{
    reveal(Seq::filter);
    if s.len() > 0 {
        let t = s.drop_last();
        assert forall|k: int| 0 <= k < t.len() implies p(#[trigger] t[k]) == q(t[k]) by {
            assert(t[k] == s[k]);
        }
        lemma_filter_agree(t, p, q);
        assert(p(s[s.len() - 1]) == q(s[s.len() - 1]));
    }
}

/// A filtered sequence holds the elements that pass, each as often as before.
pub proof fn lemma_filter_members<A>(s: Seq<A>, pred: spec_fn(A) -> bool)
    ensures
        forall|x: A| #[trigger] s.filter(pred).contains(x) <==> s.contains(x) && pred(x),
        s.no_duplicates() ==> s.filter(pred).no_duplicates(),
        s.filter(pred).len() <= s.len(),
    decreases s.len(),
{
    reveal(Seq::filter);
    if s.len() > 0 {
        let t = s.drop_last();
        lemma_filter_members(t, pred);
        let ft = t.filter(pred);
        let fs = s.filter(pred);
        assert forall|x: A| #[trigger] fs.contains(x) <==> s.contains(x) && pred(x) by {
            if t.contains(x) {
                assert(s[t.index_of(x)] == x);
            }
            if ft.contains(x) {
                assert(fs[ft.index_of(x)] == x);
            }
            if fs.contains(x) {
                let k = fs.index_of(x);
                if k < ft.len() {
                    assert(ft[k] == x);
                } else {
                    assert(s[s.len() - 1] == x);
                }
            }
            if s.contains(x) && pred(x) {
                let k = s.index_of(x);
                if k < t.len() {
                    assert(t[k] == x);
                } else {
                    assert(fs[fs.len() - 1] == x);
                }
            }
        }
        if s.no_duplicates() {
            assert(t.no_duplicates());
            if pred(s.last()) {
                assert(!ft.contains(s.last())) by {
                    if t.contains(s.last()) {
                        assert(s[t.index_of(s.last())] == s[s.len() - 1]);
                    }
                }
                assert forall|a: int, b: int| 0 <= a < b < fs.len() implies fs[a] != fs[b] by {
                    if b == fs.len() - 1 {
                        assert(ft[a] == fs[a]);
                        assert(ft.contains(fs[a]));
                    }
                }
            }
        }
    }
}

/// The one element of a one-element set.
pub proof fn lemma_singleton<A>(s: Set<A>, x: A)
    requires
        s.finite(),
        s.len() == 1,
        s.contains(x),
    ensures
        s.choose() == x,
        forall|y: A| #[trigger] s.contains(y) ==> y == x,
{
    assert forall|y: A| #[trigger] s.contains(y) implies y == x by {
        if y != x {
            assert(s.remove(x).contains(y));
            assert(s.remove(x).len() == 0);
        }
    }
}

/// Of three elements of a two-element set, two are the same.
pub proof fn lemma_pair<A>(s: Set<A>, a: A, b: A, c: A)
    requires
        s.finite(),
        s.len() <= 2,
        s.contains(a),
        s.contains(b),
        s.contains(c),
    ensures
        a == b || b == c || a == c,
{
    if a != b && b != c && a != c {
        assert(s.remove(a).remove(b).contains(c));
        assert(s.remove(a).remove(b).len() == s.len() - 2);
        assert(s.remove(a).remove(b) =~= Set::<A>::empty());
    }
}

/// What is picked from a list in increasing order is in increasing order.
pub proof fn lemma_filter_sorted(s: Seq<usize>, pred: spec_fn(usize) -> bool)
    requires
        forall|j: int, k: int| 0 <= j < k < s.len() ==> #[trigger] s[j] < #[trigger] s[k],
    ensures
        forall|j: int, k: int|
            0 <= j < k < s.filter(pred).len() ==> #[trigger] s.filter(pred)[j]
                < #[trigger] s.filter(pred)[k],
    decreases s.len(),
{
    reveal(Seq::filter);
    if s.len() > 0 {
        let t = s.drop_last();
        lemma_filter_sorted(t, pred);
        lemma_filter_members(t, pred);
        let (before, all) = (t.filter(pred), s.filter(pred));
        assert forall|j: int, k: int| 0 <= j < k < all.len() implies #[trigger] all[j]
            < #[trigger] all[k] by {
            if k == before.len() {
                assert(before.contains(before[j]));
                let n = t.index_of(before[j]);
                assert(s[n] == before[j]);
            }
        }
    }
}

} // verus!
