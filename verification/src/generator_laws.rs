//! What seeding, digging and generating come to.

use crate::board;
use crate::board_laws;
use crate::difficulty;
use crate::difficulty::Difficulty;
use crate::generator;
use crate::generator::Made;
use crate::geometry;
use crate::grade;
use crate::seqs;
use crate::single_laws;
use vstd::prelude::*;

verus! {

// ---- Seeding ----

/// Place `n` of the `k`-th box of the diagonal gets the `n`-th digit, and every cell
/// outside that box stays.
pub proof fn law_filling_a_box(b: Seq<u8>, k: int, nums: Seq<u8>, n: int)
    requires
        b.len() == 81,
        0 <= k < 3,
        0 <= n < 9,
    ensures
        generator::with_box(b, k, nums).len() == 81,
        generator::with_box(b, k, nums)[(3 * k + n / 3) * 9 + 3 * k + n % 3] == nums[n],
        forall|i: int|
            0 <= i < 81 && !(i / 27 == k && i % 9 / 3 == k) ==> #[trigger] generator::with_box(
                b,
                k,
                nums,
            )[i] == b[i],
{
    let i = (3 * k + n / 3) * 9 + 3 * k + n % 3;
    assert(i / 9 == 3 * k + n / 3 && i % 9 == 3 * k + n % 3);
    assert(i / 9 / 3 == k && i % 9 / 3 == k);
    assert(i / 9 % 3 * 3 + i % 9 % 3 == n);
    assert forall|j: int| 0 <= j < 81 && !(j / 27 == k && j % 9 / 3 == k) implies #[trigger] generator::with_box(
        b,
        k,
        nums,
    )[j] == b[j] by {
        assert(j / 9 / 3 == j / 27);
    }
}

/// A seeding of the empty board fills the three boxes of the diagonal, and nothing else.
pub proof fn law_seeding_fills_the_diagonal(b: Seq<u8>, s: Seq<u8>, i: int)
    requires
        b == Seq::new(81, |j: int| 0u8),
        generator::is_seeding(b, s),
        0 <= i < 81,
    ensures
        s.len() == 81,
        s[i] == 0 <==> i / 27 != i % 9 / 3,
        s[i] <= 9,
{
    let (p, q, r) = choose|p: Seq<u8>, q: Seq<u8>, r: Seq<u8>|
        generator::is_order(p) && generator::is_order(q) && generator::is_order(r) && s
            == #[trigger] generator::with_diagonal(b, p, q, r);
    let k = (geometry::row(i) % 3) * 3 + geometry::col(i) % 3;
    assert(0 <= k < 9);
    assert(i / 9 / 3 == i / 27);
    assert(0 <= i / 27 < 3 && 0 <= i % 9 / 3 < 3);
    assert(1 <= p[k] <= 9 && 1 <= q[k] <= 9 && 1 <= r[k] <= 9);
}

// ---- Digging ----

/// `f` is the only completion of `b`.
pub open spec fn is_only(b: Seq<u8>, f: Seq<u8>) -> bool {
    board::completes(b, f) && forall|e: Seq<u8>| #[trigger] board::completes(b, e) ==> e == f
}

proof fn lemma_one_completion(b: Seq<u8>)
    requires
        b.len() == 81,
    ensures
        board::completions(b).len() == 1 <==> exists|f: Seq<u8>| #[trigger] is_only(b, f),
{
    let s = board::completions(b);
    board::lemma_completions_finite(b);
    if s.len() == 1 {
        let f = s.choose();
        assert(s.contains(f));
        assert forall|e: Seq<u8>| #[trigger] board::completes(b, e) implies e == f by {
            assert(s.contains(e));
            seqs::lemma_singleton(s, e);
        }
        assert(is_only(b, f));
    }
    if exists|f: Seq<u8>| #[trigger] is_only(b, f) {
        let f = choose|f: Seq<u8>| #[trigger] is_only(b, f);
        assert(s =~= Set::<Seq<u8>>::empty().insert(f));
    }
}

/// The given in cell `i` is taken away exactly where what is left has one solution and is
/// rated no harder than the target.
pub proof fn law_digging_one_given(b: Seq<u8>, i: usize, target: Difficulty)
    requires
        b.len() == 81,
        i < 81,
    ensures
        generator::dig(b, seq![i], target) == if (exists|f: Seq<u8>| #[trigger]
            is_only(b.update(i as int, 0), f)) && difficulty::rank(
            grade::rating(b.update(i as int, 0), None),
        ) <= difficulty::rank(target) {
            b.update(i as int, 0)
        } else {
            b
        },
{
    lemma_one_completion(b.update(i as int, 0));
    assert(seq![i].drop_last() =~= Seq::<usize>::empty());
    assert(generator::dig(b, Seq::<usize>::empty(), target) == b);
}

/// A pass over two lists is a pass over the one and then over the other.
pub proof fn law_digging_in_turn(b: Seq<u8>, first: Seq<usize>, rest: Seq<usize>, target: Difficulty)
    ensures
        generator::dig(b, first + rest, target) == generator::dig(
            generator::dig(b, first, target),
            rest,
            target,
        ),
        generator::dig(b, Seq::<usize>::empty(), target) == b,
    decreases rest.len(),
{
    if rest.len() == 0 {
        assert(first + rest =~= first);
    } else {
        law_digging_in_turn(b, first, rest.drop_last(), target);
        assert((first + rest).drop_last() =~= first + rest.drop_last());
        assert((first + rest).last() == rest.last());
    }
}

/// A puzzle shows some of its solution, which is its only one; it is rated no harder than
/// the target; and without any one of its givens it would have another solution or be
/// rated harder.
pub proof fn law_puzzles_are_minimal(puzzle: Seq<u8>, full: Seq<u8>, target: Difficulty, i: int)
    requires
        generator::is_puzzle(puzzle, full, target),
        0 <= i < 81,
        puzzle[i] != 0,
    ensures
        board::valid_grid(full),
        puzzle[i] == full[i],
        is_only(puzzle, full),
        difficulty::rank(grade::rating(puzzle, None)) <= difficulty::rank(target),
        (exists|f: Seq<u8>| f != full && #[trigger] board::completes(puzzle.update(i, 0), f))
            || difficulty::rank(grade::rating(puzzle.update(i, 0), None)) > difficulty::rank(target),
{
    let less = puzzle.update(i, 0);
    assert forall|e: Seq<u8>| #[trigger] board::completes(puzzle, e) <==> e == full by {
        assert(board::completions(puzzle).contains(e) <==> e == full);
    }
    lemma_one_completion(less);
    assert(!generator::removable(puzzle, i, target));
    assert(board::completes(less, full)) by {
        board_laws::law_completes(puzzle, full);
        board_laws::law_completes(less, full);
        board_laws::law_valid_grid(full);
        assert forall|j: int| #![trigger full[j]] 0 <= j < 81 implies if less[j] != 0 {
            full[j] == less[j]
        } else {
            1 <= full[j] <= 9 && !single_laws::is_seen(full, j, full[j])
        } by {
            assert(puzzle[j] != 0 ==> full[j] == puzzle[j]);
        }
    }
    if difficulty::rank(grade::rating(less, None)) <= difficulty::rank(target) {
        if forall|f: Seq<u8>| #[trigger] board::completes(less, f) ==> f == full {
            assert(is_only(less, full));
        }
    }
}

// ---- Generating ----

/// How far apart two tiers are.
pub open spec fn gap(a: Difficulty, b: Difficulty) -> int {
    let n = difficulty::rank(a) - difficulty::rank(b);
    if n < 0 {
        -n
    } else {
        n
    }
}

/// Generation stops at the first puzzle of the target tier, or after eight. What it gives
/// is of the target tier wherever one of the puzzles was, and otherwise no other came
/// closer.
pub proof fn law_generation(tried: Seq<Made>, m: int, target: Difficulty, k: int)
    requires
        generator::is_session(tried, target),
        generator::is_best(tried, m, target),
        0 <= k < tried.len(),
    ensures
        0 <= m < tried.len(),
        1 <= tried.len() <= 8,
        tried.len() < 8 ==> grade::rating(tried.last().0, None) == target,
        k < tried.len() - 1 ==> grade::rating(tried[k].0, None) != target,
        gap(grade::rating(tried[m].0, None), target) <= gap(grade::rating(tried[k].0, None), target),
        gap(grade::rating(tried[m].0, None), target) == gap(grade::rating(tried[k].0, None), target)
            ==> m <= k,
        grade::rating(tried[k].0, None) == target ==> grade::rating(tried[m].0, None) == target,
        generator::is_puzzle(tried[m].0, tried[m].1, target),
{
    assert(generator::is_attempt(tried[m], target));
    assert(generator::miss(tried, m, target) <= generator::miss(tried, k, target));
    if k < m {
        assert(generator::miss(tried, m, target) < generator::miss(tried, k, target));
    }
    difficulty::law_rank_orders_tiers(grade::rating(tried[m].0, None), target);
    difficulty::law_rank_orders_tiers(grade::rating(tried[k].0, None), target);
}

} // verus!
