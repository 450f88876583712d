//! Combinations of the elements of a list.

use vstd::prelude::*;

verus! {

/// The `k`-element sublists of `s`, in lexicographic order of positions.
pub open spec fn combos<T>(s: Seq<T>, k: nat) -> Seq<Seq<T>>
    decreases s.len(),
{
    if k == 0 {
        seq![Seq::<T>::empty()]
    } else if s.len() == 0 {
        Seq::<Seq<T>>::empty()
    } else {
        headed(s[0], combos(s.drop_first(), (k - 1) as nat)) + combos(s.drop_first(), k)
    }
}

/// Each list of `cs` with `x` put in front.
pub open spec fn headed<T>(x: T, cs: Seq<Seq<T>>) -> Seq<Seq<T>> {
    Seq::new(cs.len(), |i: int| seq![x] + cs[i])
}

/// Each list of `cs` with `p` put in front.
pub open spec fn prefixed<T>(p: Seq<T>, cs: Seq<Seq<T>>) -> Seq<Seq<T>> {
    Seq::new(cs.len(), |i: int| p + cs[i])
}

/// The lists that a list of vectors stands for.
pub open spec fn lists<T>(v: Seq<Vec<T>>) -> Seq<Seq<T>> {
    Seq::new(v.len(), |i: int| v[i]@)
}

/// The elements of `s` at the positions `at`.
pub open spec fn pick<T>(s: Seq<T>, at: Seq<int>) -> Seq<T> {
    Seq::new(at.len(), |i: int| s[at[i]])
}

/// Positions in a list of length `n`, strictly increasing.
pub open spec fn increasing(at: Seq<int>, n: int) -> bool {
    &&& forall|i: int| 0 <= i < at.len() ==> 0 <= #[trigger] at[i] < n
    &&& forall|i: int, j: int| 0 <= i < j < at.len() ==> at[i] < at[j]
}

/// A combination has `k` elements, all from `s`, and none twice where `s` has
/// none twice.
pub proof fn lemma_combo<T>(s: Seq<T>, k: nat, p: int)
    requires
        0 <= p < combos(s, k).len(),
    ensures
        combos(s, k)[p].len() == k,
        forall|i: int| 0 <= i < k ==> s.contains(#[trigger] combos(s, k)[p][i]),
        s.no_duplicates() ==> combos(s, k)[p].no_duplicates(),
    decreases s.len(),
{
    if k > 0 && s.len() > 0 {
        let t = s.drop_first();
        let a = combos(t, (k - 1) as nat);
        let c = combos(s, k)[p];
        assert(s.no_duplicates() ==> t.no_duplicates());
        assert forall|x: T| #[trigger] t.contains(x) implies s.contains(x) by {
            assert(s[t.index_of(x) + 1] == x);
        }
        if p < a.len() {
            lemma_combo(t, (k - 1) as nat, p);
            assert(c == seq![s[0]] + a[p]);
            assert forall|i: int| 0 <= i < k implies s.contains(#[trigger] c[i]) by {
                if i > 0 {
                    assert(c[i] == a[p][i - 1]);
                }
            }
            if s.no_duplicates() {
                assert forall|i: int, j: int| 0 <= i < j < k implies c[i] != c[j] by {
                    assert(c[j] == a[p][j - 1]);
                    if i == 0 {
                        assert(t.contains(c[j]));
                        let n = t.index_of(c[j]);
                        assert(s[n + 1] == c[j]);
                    } else {
                        assert(c[i] == a[p][i - 1]);
                    }
                }
            }
        } else {
            lemma_combo(t, k, p - a.len());
            assert(c == combos(t, k)[p - a.len()]);
        }
    }
}

/// Every set of elements of a list without repetition is among its combinations.
pub proof fn law_every_set_is_a_combo<T>(s: Seq<T>, c: Set<T>) -> (p: int)
    requires
        s.no_duplicates(),
        c.finite(),
        forall|x: T| #[trigger] c.contains(x) ==> s.contains(x),
    ensures
        0 <= p < combos(s, c.len()).len(),
        combos(s, c.len())[p].to_set() == c,
    decreases s.len(),
{
    let k = c.len();
    if k == 0 {
        assert(c =~= Set::<T>::empty());
        assert(combos(s, 0)[0].to_set() =~= c);
        0
    } else {
        if s.len() == 0 {
            let x = c.choose();
            assert(c.contains(x));
            assert(s.contains(x));
        }
        let t = s.drop_first();
        let head = s[0];
        let a = combos(t, (k - 1) as nat);
        assert forall|x: T| s.contains(x) && x != head implies #[trigger] t.contains(x) by {
            let n = s.index_of(x);
            assert(t[n - 1] == x);
        }
        if c.contains(head) {
            let less = c.remove(head);
            let q = law_every_set_is_a_combo(t, less);
            let whole = combos(s, k)[q];
            assert(whole == seq![head] + a[q]);
            assert forall|x: T| #[trigger] whole.to_set().contains(x) <==> c.contains(x) by {
                if c.contains(x) && x != head {
                    assert(a[q].to_set().contains(x));
                    let n = a[q].index_of(x);
                    assert(whole[n + 1] == x);
                }
                if x == head {
                    assert(whole[0] == head);
                }
                if whole.contains(x) {
                    let n = whole.index_of(x);
                    if n > 0 {
                        assert(a[q][n - 1] == x);
                        assert(a[q].to_set().contains(x));
                    }
                }
            }
            assert(whole.to_set() =~= c);
            q
        } else {
            let q = law_every_set_is_a_combo(t, c);
            assert(combos(s, k)[a.len() + q] == combos(t, k)[q]);
            a.len() + q
        }
    }
}

/// Every choice of `k` positions is among the combinations.
pub proof fn law_combos_complete<T>(s: Seq<T>, at: Seq<int>) -> (p: int)
    requires
        increasing(at, s.len() as int),
    ensures
        0 <= p < combos(s, at.len()).len(),
        combos(s, at.len())[p] == pick(s, at),
    decreases s.len(),
{
    let k = at.len();
    if k == 0 {
        assert(combos(s, 0)[0] =~= pick(s, at));
        0
    } else {
        let t = s.drop_first();
        let a = combos(t, (k - 1) as nat);
        assert(0 <= at[0]);
        assert(at[0] < s.len());
        if at[0] == 0 {
            let rest = Seq::new((k - 1) as nat, |i: int| at[i + 1] - 1);
            assert forall|i: int| 0 <= i < rest.len() implies 0 <= #[trigger] rest[i] < t.len() by {
                assert(at[0] < at[i + 1]);
            }
            let q = law_combos_complete(t, rest);
            assert(combos(s, k)[q] == seq![s[0]] + a[q]);
            assert(combos(s, k)[q] =~= pick(s, at));
            q
        } else {
            let rest = Seq::new(k, |i: int| at[i] - 1);
            assert forall|i: int| 0 <= i < rest.len() implies 0 <= #[trigger] rest[i] < t.len() by {
                assert(i > 0 ==> at[0] < at[i]);
            }
            let q = law_combos_complete(t, rest);
            assert(combos(s, k)[a.len() + q] == combos(t, k)[q]);
            assert(combos(s, k)[a.len() + q] =~= pick(s, at));
            a.len() + q
        }
    }
}

fn copy_list<T: Copy>(v: &Vec<T>) -> (w: Vec<T>)
    ensures
        w@ == v@,
{
    let mut w: Vec<T> = Vec::new();
    let mut i: usize = 0;
    while i < v.len()
        invariant
            i <= v@.len(),
            w@ == v@.take(i as int),
        decreases v@.len() - i,
    {
        w.push(v[i]);
        i = i + 1;
        assert(w@ =~= v@.take(i as int));
    }
    assert(v@.take(v@.len() as int) =~= v@);
    w
}

fn extend<T: Copy>(
    items: &[T],
    k: usize,
    start: usize,
    current: &mut Vec<T>,
    result: &mut Vec<Vec<T>>,
)
    requires
        start <= items@.len(),
        old(current)@.len() <= k,
    ensures
        final(current)@ == old(current)@,
        lists(final(result)@) == lists(old(result)@) + prefixed(
            old(current)@,
            combos(items@.skip(start as int), (k - old(current)@.len()) as nat),
        ),
    decreases items@.len() - start,
{
    let ghost cur = current@;
    let ghost tail = items@.skip(start as int);
    let ghost n = (k - cur.len()) as nat;
    let ghost r0 = lists(result@);
    if current.len() == k {
        let ghost before = result@;
        let c = copy_list(current);
        result.push(c);
        proof {
            assert(combos(tail, n) =~= seq![Seq::<T>::empty()]);
            assert(cur + Seq::<T>::empty() =~= cur);
            assert(lists(result@) =~= r0 + prefixed(cur, combos(tail, n)));
        }
        return ;
    }
    if start == items.len() {
        proof {
            assert(combos(tail, n) =~= Seq::<Seq<T>>::empty());
            assert(lists(result@) =~= r0 + prefixed(cur, combos(tail, n)));
        }
        return ;
    }
    let ghost next = items@.skip(start + 1);
    proof {
        assert(tail.drop_first() =~= next);
        assert(tail[0] == items@[start as int]);
    }
    current.push(items[start]);
    extend(items, k, start + 1, current, result);
    let ghost with = prefixed(cur.push(tail[0]), combos(next, (n - 1) as nat));
    current.pop();
    assert(current@ =~= cur);
    extend(items, k, start + 1, current, result);
    proof {
        let a = combos(next, (n - 1) as nat);
        let b = combos(next, n);
        assert(prefixed(cur, headed(tail[0], a)) =~= with) by {
            assert forall|i: int| 0 <= i < a.len() implies cur + (seq![tail[0]] + a[i]) == cur.push(
                tail[0],
            ) + a[i] by {
                assert(cur + (seq![tail[0]] + a[i]) =~= cur.push(tail[0]) + a[i]);
            }
        }
        assert(prefixed(cur, combos(tail, n)) =~= prefixed(cur, headed(tail[0], a)) + prefixed(
            cur,
            b,
        ));
        assert(lists(result@) =~= r0 + prefixed(cur, combos(tail, n)));
    }
}

/// The `k`-combinations of a slice, in lexicographic order of positions.
pub fn combinations<T: Copy>(items: &[T], k: usize) -> (result: Vec<Vec<T>>)
    ensures
        lists(result@) == combos(items@, k as nat),
{
    let mut result: Vec<Vec<T>> = Vec::new();
    let mut current: Vec<T> = Vec::new();
    extend(items, k, 0, &mut current, &mut result);
    proof {
        let cs = combos(items@, k as nat);
        assert(items@.skip(0) =~= items@);
        assert forall|i: int| 0 <= i < cs.len() implies Seq::<T>::empty() + cs[i] == cs[i] by {
            assert(Seq::<T>::empty() + cs[i] =~= cs[i]);
        }
        assert(lists(result@) =~= cs);
    }
    result
}

} // verus!
