//! Candidate masks: a `u16` whose bit `d` stands for the digit `d`.
//!
//! Everything outside this module speaks of the set of digits that a mask
//! holds, [`digits_of`].

use vstd::prelude::*;

verus! {

/// Bits 1 to 9 set, bit 0 unused.
pub const FULL_MASK: u16 = 0b0000_0011_1111_1110;

/// Bit `d` of `mask` is set.
pub open spec fn bit_on(mask: u16, d: u8) -> bool {
    mask & (1u16 << d) != 0
}

/// The set of digits that `mask` holds.
pub open spec fn digits_of(mask: u16) -> Set<u8> {
    Set::new(|d: u8| d < 16 && bit_on(mask, d))
}

/// The nine digits.
pub open spec fn all_digits() -> Set<u8> {
    Set::new(|d: u8| 1 <= d <= 9)
}

spec fn digits_below(mask: u16, n: int) -> Set<u8> {
    Set::new(|d: u8| d < n && d < 16 && bit_on(mask, d))
}

proof fn lemma_bits(a: u16, b: u16, d: u8, e: u8)
    by (bit_vector)
    requires
        d < 16,
        e < 16,
    ensures
        (a & b) & (1u16 << e) != 0 <==> (a & (1u16 << e) != 0 && b & (1u16 << e) != 0),
        (a | b) & (1u16 << e) != 0 <==> (a & (1u16 << e) != 0 || b & (1u16 << e) != 0),
        (a ^ b) & (1u16 << e) != 0 <==> ((a & (1u16 << e) != 0) != (b & (1u16 << e) != 0)),
        (!a) & (1u16 << e) != 0 <==> a & (1u16 << e) == 0,
        (1u16 << d) & (1u16 << e) != 0 <==> d == e,
        0u16 & (1u16 << e) == 0,
        0b0000_0011_1111_1110u16 & (1u16 << e) != 0 <==> 1 <= e <= 9,
{
}

proof fn lemma_same_bits(a: u16, b: u16)
    by (bit_vector)
    requires
        (a & (1u16 << 0u8) != 0) == (b & (1u16 << 0u8) != 0),
        (a & (1u16 << 1u8) != 0) == (b & (1u16 << 1u8) != 0),
        (a & (1u16 << 2u8) != 0) == (b & (1u16 << 2u8) != 0),
        (a & (1u16 << 3u8) != 0) == (b & (1u16 << 3u8) != 0),
        (a & (1u16 << 4u8) != 0) == (b & (1u16 << 4u8) != 0),
        (a & (1u16 << 5u8) != 0) == (b & (1u16 << 5u8) != 0),
        (a & (1u16 << 6u8) != 0) == (b & (1u16 << 6u8) != 0),
        (a & (1u16 << 7u8) != 0) == (b & (1u16 << 7u8) != 0),
        (a & (1u16 << 8u8) != 0) == (b & (1u16 << 8u8) != 0),
        (a & (1u16 << 9u8) != 0) == (b & (1u16 << 9u8) != 0),
        (a & (1u16 << 10u8) != 0) == (b & (1u16 << 10u8) != 0),
        (a & (1u16 << 11u8) != 0) == (b & (1u16 << 11u8) != 0),
        (a & (1u16 << 12u8) != 0) == (b & (1u16 << 12u8) != 0),
        (a & (1u16 << 13u8) != 0) == (b & (1u16 << 13u8) != 0),
        (a & (1u16 << 14u8) != 0) == (b & (1u16 << 14u8) != 0),
        (a & (1u16 << 15u8) != 0) == (b & (1u16 << 15u8) != 0),
    ensures
        a == b,
{
}

/// Membership in the sets of combined masks.
pub proof fn lemma_mask_ops(a: u16, b: u16)
    ensures
        digits_of(a & b) == digits_of(a).intersect(digits_of(b)),
        digits_of(a | b) == digits_of(a).union(digits_of(b)),
        digits_of(a & !b) == digits_of(a).difference(digits_of(b)),
        digits_of(a ^ b) == digits_of(a).difference(digits_of(b)).union(
            digits_of(b).difference(digits_of(a)),
        ),
{
    assert forall|e: u8| e < 16 implies bit_on(a & b, e) == (bit_on(a, e) && bit_on(b, e)) && bit_on(a | b, e)
        == (bit_on(a, e) || bit_on(b, e)) && bit_on(a & !b, e) == (bit_on(a, e) && !bit_on(b, e)) && bit_on(a ^ b, e)
        == (bit_on(a, e) != bit_on(b, e)) by {
        lemma_bits(a, b, 0, e);
        lemma_bits(b, 0, 0, e);
        lemma_bits(a, !b, 0, e);
    }
    assert(digits_of(a & b) =~= digits_of(a).intersect(digits_of(b)));
    assert(digits_of(a | b) =~= digits_of(a).union(digits_of(b)));
    assert(digits_of(a & !b) =~= digits_of(a).difference(digits_of(b)));
    assert(digits_of(a ^ b) =~= digits_of(a).difference(digits_of(b)).union(
        digits_of(b).difference(digits_of(a)),
    ));
}

/// The digits of the complement, below 16.
pub proof fn lemma_complement(a: u16, e: u8)
    ensures
        digits_of(!a).contains(e) <==> e < 16 && !digits_of(a).contains(e),
{
    if e < 16 {
        lemma_bits(a, 0, 0, e);
    }
}

/// The sets of the constant masks.
pub proof fn lemma_mask_consts(d: u8)
    requires
        d < 16,
    ensures
        digits_of(1u16 << d) == set![d],
        digits_of(0u16) == Set::<u8>::empty(),
        digits_of(FULL_MASK) == all_digits(),
{
    assert forall|e: u8| digits_of(1u16 << d).contains(e) == set![d].contains(e) by {
        if e < 16 {
            lemma_bits(0, 0, d, e);
        }
    }
    assert forall|e: u8| !digits_of(0u16).contains(e) by {
        if e < 16 {
            lemma_bits(0, 0, d, e);
        }
    }
    assert forall|e: u8| digits_of(FULL_MASK).contains(e) == all_digits().contains(e) by {
        if e < 16 {
            lemma_bits(0, 0, d, e);
        }
    }
    assert(digits_of(1u16 << d) =~= set![d]);
    assert(digits_of(0u16) =~= Set::<u8>::empty());
    assert(digits_of(FULL_MASK) =~= all_digits());
}

proof fn lemma_member(a: u16, b: u16, e: u8)
    requires
        e < 16,
        digits_of(a) == digits_of(b),
    ensures
        (a & (1u16 << e) != 0) == (b & (1u16 << e) != 0),
{
    assert(digits_of(a).contains(e) == bit_on(a, e));
    assert(digits_of(b).contains(e) == bit_on(b, e));
}

/// Two masks with the same digits are the same mask.
pub proof fn lemma_mask_ext(a: u16, b: u16)
    requires
        digits_of(a) == digits_of(b),
    ensures
        a == b,
{
    lemma_member(a, b, 0);
    lemma_member(a, b, 1);
    lemma_member(a, b, 2);
    lemma_member(a, b, 3);
    lemma_member(a, b, 4);
    lemma_member(a, b, 5);
    lemma_member(a, b, 6);
    lemma_member(a, b, 7);
    lemma_member(a, b, 8);
    lemma_member(a, b, 9);
    lemma_member(a, b, 10);
    lemma_member(a, b, 11);
    lemma_member(a, b, 12);
    lemma_member(a, b, 13);
    lemma_member(a, b, 14);
    lemma_member(a, b, 15);
    lemma_same_bits(a, b);
}

proof fn lemma_digits_below_finite(mask: u16, n: nat)
    ensures
        digits_below(mask, n as int).finite(),
    decreases n,
{
    if n == 0 {
        assert(digits_below(mask, 0) =~= Set::<u8>::empty());
    } else {
        let m = (n - 1) as nat;
        lemma_digits_below_finite(mask, m);
        if m < 16 && bit_on(mask, m as u8) {
            assert(digits_below(mask, n as int) =~= digits_below(mask, m as int).insert(m as u8));
        } else {
            assert(digits_below(mask, n as int) =~= digits_below(mask, m as int));
        }
    }
}

/// The digits of a mask are finite in number.
pub proof fn lemma_digits_finite(mask: u16)
    ensures
        digits_of(mask).finite(),
{
    lemma_digits_below_finite(mask, 16);
    assert(digits_below(mask, 16) =~= digits_of(mask));
}

/// How many digits `mask` holds.
pub fn count(mask: u16) -> (n: usize)
    ensures
        n == digits_of(mask).len(),
        n <= 16,
{
    let mut n: usize = 0;
    let mut d: u8 = 0;
    assert(digits_below(mask, 0) =~= Set::<u8>::empty());
    while d < 16
        invariant
            d <= 16,
            n <= d,
            digits_below(mask, d as int).finite(),
            n == digits_below(mask, d as int).len(),
        decreases 16 - d,
    {
        if mask & (1u16 << d) != 0 {
            assert(digits_below(mask, d + 1) =~= digits_below(mask, d as int).insert(d));
            n = n + 1;
        } else {
            assert(digits_below(mask, d + 1) =~= digits_below(mask, d as int));
        }
        d = d + 1;
    }
    assert(digits_below(mask, 16) =~= digits_of(mask));
    n
}

/// The smallest digit that `mask` holds.
pub fn lowest(mask: u16) -> (d: u8)
    requires
        digits_of(mask) != Set::<u8>::empty(),
    ensures
        d < 16,
        digits_of(mask).contains(d),
        forall|e: u8| #[trigger] digits_of(mask).contains(e) ==> d <= e,
{
    let mut d: u8 = 0;
    while d < 15 && mask & (1u16 << d) == 0
        invariant
            d <= 15,
            forall|e: u8| #[trigger] digits_of(mask).contains(e) ==> d <= e,
        decreases 15 - d,
    {
        d = d + 1;
    }
    proof {
        if !digits_of(mask).contains(d) {
            assert(digits_of(mask) =~= Set::<u8>::empty());
        }
    }
    d
}

/// The digits 1 to 9 that lie in `s`, in increasing order.
pub open spec fn ascending(s: Set<u8>) -> Seq<u8> {
    Seq::new(9, |k: int| (k + 1) as u8).filter(|d: u8| s.contains(d))
}

/// Set-bit digits (1 to 9) in a candidate mask, in increasing order.
pub fn bits(mask: u16) -> (ds: Vec<u8>)
    ensures
        ds@ == ascending(digits_of(mask)),
{
    let ghost nine = Seq::new(9, |k: int| (k + 1) as u8);
    let ghost pred = |d: u8| digits_of(mask).contains(d);
    let mut ds: Vec<u8> = Vec::new();
    let mut d: u8 = 1;
    proof {
        reveal(Seq::filter);
    }
    while d <= 9
        invariant
            1 <= d <= 10,
            nine == Seq::new(9, |k: int| (k + 1) as u8),
            pred == (|d: u8| digits_of(mask).contains(d)),
            ds@ == nine.take(d - 1).filter(pred),
        decreases 10 - d,
    {
        proof {
            reveal(Seq::filter);
            assert(nine.take(d as int).drop_last() =~= nine.take(d - 1));
            assert(nine.take(d as int).last() == d);
        }
        if mask & (1u16 << d) != 0 {
            ds.push(d);
        }
        d = d + 1;
    }
    assert(nine.take(9) =~= nine);
    ds
}

proof fn lemma_ascending(s: Set<u8>, n: nat)
    requires
        n <= 9,
    ensures
        ({
            let t = Seq::new(9, |k: int| (k + 1) as u8).take(n as int).filter(
                |d: u8| s.contains(d),
            );
            &&& forall|k: int| 0 <= k < t.len() ==> 1 <= #[trigger] t[k] <= n && s.contains(t[k])
            &&& forall|j: int, k: int| 0 <= j < k < t.len() ==> #[trigger] t[j] < #[trigger] t[k]
            &&& forall|d: u8| 1 <= d <= n && #[trigger] s.contains(d) ==> t.contains(d)
        }),
    decreases n,
{
    reveal(Seq::filter);
    let nine = Seq::new(9, |k: int| (k + 1) as u8);
    let pred = |d: u8| s.contains(d);
    if n > 0 {
        let m = n - 1;
        lemma_ascending(s, m as nat);
        assert(nine.take(n as int).drop_last() =~= nine.take(m));
        assert(nine.take(n as int).last() == n);
        let (before, t) = (nine.take(m).filter(pred), nine.take(n as int).filter(pred));
        assert(t == if s.contains(n as u8) {
            before.push(n as u8)
        } else {
            before
        });
        assert forall|d: u8| 1 <= d <= n && #[trigger] s.contains(d) implies t.contains(d) by {
            if d == n {
                assert(t[t.len() - 1] == d);
            } else {
                let k = before.index_of(d);
                assert(t[k] == d);
            }
        }
    }
}

/// The digits come in increasing order, each that is in the set, and no other.
pub proof fn law_ascending(s: Set<u8>)
    ensures
        forall|k: int|
            0 <= k < ascending(s).len() ==> 1 <= #[trigger] ascending(s)[k] <= 9 && s.contains(
                ascending(s)[k],
            ),
        forall|j: int, k: int|
            0 <= j < k < ascending(s).len() ==> #[trigger] ascending(s)[j]
                < #[trigger] ascending(s)[k],
        forall|d: u8| 1 <= d <= 9 && #[trigger] s.contains(d) ==> ascending(s).contains(d),
{
    lemma_ascending(s, 9);
    let nine = Seq::new(9, |k: int| (k + 1) as u8);
    assert(nine.take(9) =~= nine);
}

} // verus!
