//! Puzzle generation: a full grid from a random seeding, and a dig that takes away
//! givens while the puzzle keeps one solution and stays within the target tier.

use crate::board;
use crate::board::{Board, CELLS};
use crate::difficulty;
use crate::difficulty::{tier_distance, Difficulty};
use crate::geometry;
use crate::grade;
use crate::grade::rate_difficulty_capped;
use crate::grade_laws;
use crate::grid;
use crate::random;
use crate::seqs;
use crate::solver;
use crate::rectangle;
use rand::rngs::ThreadRng;
use vstd::prelude::*;

verus! {

// ---- Seeding ----

/// The board with the digits `nums` in the `k`-th box of the diagonal, row by row.
pub open spec fn with_box(b: Seq<u8>, k: int, nums: Seq<u8>) -> Seq<u8> {
    Seq::new(
        81,
        |i: int|
            if geometry::row(i) / 3 == k && geometry::col(i) / 3 == k {
                nums[(geometry::row(i) % 3) * 3 + geometry::col(i) % 3]
            } else {
                b[i]
            },
    )
}

/// The board with the three boxes of the diagonal filled.
pub open spec fn with_diagonal(b: Seq<u8>, p: Seq<u8>, q: Seq<u8>, r: Seq<u8>) -> Seq<u8> {
    with_box(with_box(with_box(b, 0, p), 1, q), 2, r)
}

/// The digits from 1 to 9, each once, in some order.
pub open spec fn is_order(nums: Seq<u8>) -> bool {
    &&& nums.len() == 9
    &&& nums.no_duplicates()
    &&& forall|k: int| 0 <= k < 9 ==> 1 <= #[trigger] nums[k] <= 9
}

/// The diagonal boxes are filled with three orders of the digits.
pub open spec fn is_seeding(b: Seq<u8>, s: Seq<u8>) -> bool {
    exists|p: Seq<u8>, q: Seq<u8>, r: Seq<u8>|
        is_order(p) && is_order(q) && is_order(r) && s == #[trigger] with_diagonal(b, p, q, r)
}

/// Seeding the empty board makes no digits clash.
pub proof fn law_seeding_is_sound(b: Seq<u8>, s: Seq<u8>)
    requires
        b == Seq::new(81, |i: int| 0u8),
        is_seeding(b, s),
    ensures
        grade_laws::sound_givens(s),
{
    let (p, q, r) = choose|p: Seq<u8>, q: Seq<u8>, r: Seq<u8>|
        is_order(p) && is_order(q) && is_order(r) && s == #[trigger] with_diagonal(b, p, q, r);
    assert forall|i: int| #![trigger s[i]] 0 <= i < 81 implies s[i] <= 9 by {
        let k = (geometry::row(i) % 3) * 3 + geometry::col(i) % 3;
        assert(p[k] <= 9 && q[k] <= 9 && r[k] <= 9);
    }
    assert forall|i: int, j: int| #![trigger geometry::peer(i, j)]
        0 <= i < 81 && 0 <= j < 81 && geometry::peer(i, j) && s[i] != 0 implies s[j] != s[i] by {
        let k = (geometry::row(i) % 3) * 3 + geometry::col(i) % 3;
        let m = (geometry::row(j) % 3) * 3 + geometry::col(j) % 3;
        lemma_box_cell(i);
        lemma_box_cell(j);
        let (bi, bj) = (geometry::row(i) / 3, geometry::row(j) / 3);
        if s[j] != 0 {
            assert(bi == bj);
            if k == m {
                assert(i == j);
            }
        }
    }
}

/// A cell of the diagonal, by its place in its box.
proof fn lemma_box_cell(i: int)
    requires
        0 <= i < 81,
    ensures
        0 <= geometry::row(i) / 3 < 3,
        0 <= geometry::col(i) / 3 < 3,
        0 <= (geometry::row(i) % 3) * 3 + geometry::col(i) % 3 < 9,
        i == (geometry::row(i) / 3 * 3 + geometry::row(i) % 3) * 9 + geometry::col(i) / 3 * 3
            + geometry::col(i) % 3,
{
}

/// `f` is the first completion of `b` in reading order.
pub open spec fn is_first(b: Seq<u8>, f: Seq<u8>) -> bool {
    board::completes(b, f) && forall|e: Seq<u8>| #[trigger]
        board::completes(b, e) ==> e == f || board::lex_less(f, e)
}

/// The full grid is the first completion of the seeding, or of the empty board where
/// the seeding has none.
pub open spec fn is_grown(seed: Seq<u8>, full: Seq<u8>) -> bool {
    let empty = Seq::new(81, |i: int| 0u8);
    &&& is_seeding(empty, seed)
    &&& if exists|f: Seq<u8>| #[trigger] board::completes(seed, f) {
        is_first(seed, full)
    } else {
        is_first(empty, full)
    }
}

/// Some full grid is valid: rows that are shifts of one another.
proof fn lemma_valid_grid_exists() -> (f: Seq<u8>)
    ensures
        board::valid_grid(f),
{
    let f = Seq::new(
        81,
        |i: int|
            ((geometry::row(i) % 3 * 3 + geometry::row(i) / 3 + geometry::col(i)) % 9 + 1) as u8,
    );
    assert forall|i: int, j: int| 0 <= i < 81 && 0 <= j < 81 && #[trigger] geometry::peer(i, j) implies f[i]
        != f[j] by {
        lemma_shift_differs(i, j);
    }
    f
}

proof fn lemma_shift_differs(i: int, j: int)
    requires
        0 <= i < 81,
        0 <= j < 81,
        geometry::peer(i, j),
    ensures
        (geometry::row(i) % 3 * 3 + geometry::row(i) / 3 + geometry::col(i)) % 9 != (geometry::row(j)
            % 3 * 3 + geometry::row(j) / 3 + geometry::col(j)) % 9,
{
    lemma_box_cell(i);
    lemma_box_cell(j);
    lemma_small_mod(
        geometry::row(i) % 3 * 3 + geometry::row(i) / 3 + geometry::col(i),
        geometry::row(j) % 3 * 3 + geometry::row(j) / 3 + geometry::col(j),
    );
    if geometry::row(i) == geometry::row(j) {
    } else if geometry::col(i) == geometry::col(j) {
        assert(geometry::row(i) % 3 != geometry::row(j) % 3 || geometry::row(i) / 3 != geometry::row(
            j,
        ) / 3);
    } else {
        assert(geometry::row(i) / 3 == geometry::row(j) / 3);
        assert(geometry::col(i) / 3 == geometry::col(j) / 3);
    }
}

proof fn lemma_small_mod(s: int, t: int)
    requires
        0 <= s < 27,
        0 <= t < 27,
    ensures
        s % 9 == t % 9 && -9 < s - t < 9 ==> s == t,
{
}

/// The empty board has a completion.
proof fn lemma_empty_board_completes(b: Seq<u8>)
    requires
        b == Seq::new(81, |i: int| 0u8),
    ensures
        grade_laws::sound_givens(b),
        exists|f: Seq<u8>| #[trigger] board::completes(b, f),
{
    let f = lemma_valid_grid_exists();
    assert(rectangle::agrees(b, f));
    grade_laws::law_completions_are_valid(b, f);
}

// ---- Digging ----

/// Taking the given in cell `i` away leaves one solution, and a puzzle that is not
/// harder than the target.
pub open spec fn removable(b: Seq<u8>, i: int, target: Difficulty) -> bool {
    &&& board::completions(b.update(i, 0)).len() == 1
    &&& difficulty::rank(grade::rating(b.update(i, 0), None)) <= difficulty::rank(target)
}

/// One pass over the givens in the order of the list: each is taken away where that
/// is possible at its turn.
pub open spec fn dig(b: Seq<u8>, order: Seq<usize>, target: Difficulty) -> Seq<u8>
    decreases order.len(),
{
    if order.len() == 0 {
        b
    } else {
        let c = dig(b, order.drop_last(), target);
        if removable(c, order.last() as int, target) {
            c.update(order.last() as int, 0)
        } else {
            c
        }
    }
}

/// The order names every given of the board, each once.
pub open spec fn lists_givens(b: Seq<u8>, order: Seq<usize>) -> bool {
    &&& names_givens(b, order)
    &&& forall|i: usize| i < 81 && b[i as int] != 0 ==> #[trigger] order.contains(i)
}

/// The board after a pass for each of the orders.
pub open spec fn dug_by(b: Seq<u8>, orders: Seq<Seq<usize>>, target: Difficulty) -> Seq<u8>
    decreases orders.len(),
{
    if orders.len() == 0 {
        b
    } else {
        dig(dug_by(b, orders.drop_last(), target), orders.last(), target)
    }
}

/// The last of the passes took nothing away.
pub open spec fn is_idle(b: Seq<u8>, orders: Seq<Seq<usize>>, target: Difficulty) -> bool {
    orders.len() > 0 && dug_by(b, orders, target) == dug_by(b, orders.drop_last(), target)
}

/// Each order names the givens that are there at its turn, and every pass but the last
/// took something away.
pub open spec fn are_passes(b: Seq<u8>, orders: Seq<Seq<usize>>, target: Difficulty) -> bool
    decreases orders.len(),
{
    orders.len() > 0 ==> {
        let before = orders.drop_last();
        &&& are_passes(b, before, target)
        &&& !is_idle(b, before, target)
        &&& lists_givens(dug_by(b, before, target), orders.last())
    }
}

/// The puzzle is what passes over the full grid leave, when the last of them takes
/// nothing away.
pub open spec fn is_dug(full: Seq<u8>, puzzle: Seq<u8>, target: Difficulty) -> bool {
    exists|orders: Seq<Seq<usize>>| #[trigger]
        are_passes(full, orders, target) && is_idle(full, orders, target) && puzzle == dug_by(
            full,
            orders,
            target,
        )
}

/// The puzzle shows some of the cells of the full grid.
pub open spec fn shows(puzzle: Seq<u8>, full: Seq<u8>) -> bool {
    &&& puzzle.len() == 81
    &&& forall|i: int| #![trigger puzzle[i]] 0 <= i < 81 && puzzle[i] != 0 ==> puzzle[i] == full[i]
}

/// The puzzle has the full grid as its one solution, is not harder than the target,
/// and no given can be taken away from it without losing one or the other.
pub open spec fn is_puzzle(puzzle: Seq<u8>, full: Seq<u8>, target: Difficulty) -> bool {
    &&& board::valid_grid(full)
    &&& shows(puzzle, full)
    &&& board::completions(puzzle) == set![full]
    &&& difficulty::rank(grade::rating(puzzle, None)) <= difficulty::rank(target)
    &&& forall|i: int|
        0 <= i < 81 && puzzle[i] != 0 ==> !#[trigger] removable(puzzle, i, target)
}

/// What shows cells of a valid grid has sound givens, and the grid completes it.
proof fn lemma_shows(puzzle: Seq<u8>, full: Seq<u8>)
    requires
        board::valid_grid(full),
        shows(puzzle, full),
    ensures
        grade_laws::sound_givens(puzzle),
        board::completions(puzzle).contains(full),
        board::completions(puzzle).len() == 1 ==> board::completions(puzzle) == set![full],
{
    assert forall|i: int| #![trigger puzzle[i]] 0 <= i < 81 implies puzzle[i] <= 9 by {
        if puzzle[i] != 0 {
            assert(puzzle[i] == full[i]);
        }
    }
    assert forall|i: int, j: int| #![trigger geometry::peer(i, j)]
        0 <= i < 81 && 0 <= j < 81 && geometry::peer(i, j) && puzzle[i] != 0 implies puzzle[j]
        != puzzle[i] by {
        assert(full[i] != full[j]);
        assert(puzzle[i] == full[i]);
        if puzzle[j] != 0 {
            assert(puzzle[j] == full[j]);
        }
    }
    assert forall|i: int| #![trigger full[i]] 0 <= i < 81 && puzzle[i] != 0 implies full[i]
        == puzzle[i] by {}
    grade_laws::law_completions_are_valid(puzzle, full);
    board::lemma_completions_finite(puzzle);
    if board::completions(puzzle).len() == 1 {
        seqs::lemma_singleton(board::completions(puzzle), full);
        assert(board::completions(puzzle) =~= set![full]);
    }
}

/// A full grid is rated Easy, and completes nothing but itself.
proof fn lemma_full_grid(full: Seq<u8>)
    requires
        board::valid_grid(full),
    ensures
        grade::rating(full, None) == Difficulty::Easy,
        board::completions(full) == set![full],
{
    let g = grid::start_grid(full);
    grid::lemma_start(full);
    lemma_no_weight(g, 81);
    assert forall|k: int| 0 <= k < 17 implies #[trigger] grade::technique(g, k) == g by {
        grade::lemma_technique(g, k);
        grid::lemma_progress(g, grade::technique(g, k));
    }
    grade::lemma_none(g);
    assert(grid::solved(g)) by {
        assert forall|i: int| #![trigger g.cells[i]] 0 <= i < 81 implies g.cells[i] != 0 by {
            assert(1 <= full[i]);
        }
    }
    assert forall|f: Seq<u8>| #[trigger] board::completions(full).contains(f) implies f == full by {
        assert forall|i: int| 0 <= i < 81 implies f[i] == full[i] by {
            assert(1 <= full[i]);
        }
        assert(f =~= full);
    }
    lemma_shows(full, full);
    assert(board::completions(full) =~= set![full]);
}

proof fn lemma_no_weight(g: grid::Grid, n: nat)
    requires
        n <= 81,
        board::valid_grid(g.cells),
    ensures
        grid::weight_below(g, n) == 0,
    decreases n,
{
    if n > 0 {
        lemma_no_weight(g, (n - 1) as nat);
        assert(1 <= g.cells[n - 1]);
    }
}

/// The order names givens of the board, each at most once.
pub open spec fn names_givens(b: Seq<u8>, order: Seq<usize>) -> bool {
    &&& order.no_duplicates()
    &&& forall|k: int|
        0 <= k < order.len() ==> #[trigger] order[k] < 81 && b[order[k] as int] != 0
}

/// A pass takes away nothing but what the order names, and never harms the one
/// solution or the target tier.
proof fn lemma_dig(b: Seq<u8>, order: Seq<usize>, target: Difficulty, full: Seq<u8>)
    requires
        board::valid_grid(full),
        shows(b, full),
        board::completions(b) == set![full],
        difficulty::rank(grade::rating(b, None)) <= difficulty::rank(target),
        forall|k: int| 0 <= k < order.len() ==> #[trigger] order[k] < 81,
    ensures
        shows(dig(b, order, target), full),
        board::completions(dig(b, order, target)) == set![full],
        difficulty::rank(grade::rating(dig(b, order, target), None)) <= difficulty::rank(target),
    decreases order.len(),
{
    if order.len() > 0 {
        lemma_dig(b, order.drop_last(), target, full);
        let c = dig(b, order.drop_last(), target);
        let i = order.last() as int;
        if removable(c, i, target) {
            lemma_shows(c.update(i, 0), full);
        }
    }
}

/// A pass changes only cells that the order names.
proof fn lemma_dig_elsewhere(b: Seq<u8>, order: Seq<usize>, target: Difficulty, i: usize)
    requires
        b.len() == 81,
        i < 81,
        !order.contains(i),
        forall|k: int| 0 <= k < order.len() ==> #[trigger] order[k] < 81,
    ensures
        dig(b, order, target).len() == 81,
        dig(b, order, target)[i as int] == b[i as int],
    decreases order.len(),
{
    if order.len() > 0 {
        let before = order.drop_last();
        assert(!before.contains(i)) by {
            if before.contains(i) {
                assert(order[before.index_of(i)] == i);
            }
        }
        assert(order[order.len() - 1] != i) by {
            if order[order.len() - 1] == i {
                assert(order.contains(i));
            }
        }
        lemma_dig_elsewhere(b, before, target, i);
    }
}

impl Board {
    /// Writes `nums` into the `k`-th box of the diagonal, row by row.
    pub fn fill_box(&mut self, k: usize, nums: &Vec<u8>)
        requires
            k < 3,
            nums@.len() == 9,
        ensures
            final(self)@ == with_box(old(self)@, k as int, nums@),
    {
        let ghost b = self@;
        let mut n: usize = 0;
        while n < 9
            invariant
                n <= 9,
                k < 3,
                nums@.len() == 9,
                b.len() == 81,
                self@.len() == 81,
                forall|i: int|
                    #![trigger self@[i]]
                    0 <= i < 81 ==> self@[i] == if geometry::row(i) / 3 == k && geometry::col(i) / 3
                        == k && (geometry::row(i) % 3) * 3 + geometry::col(i) % 3 < n {
                        nums@[(geometry::row(i) % 3) * 3 + geometry::col(i) % 3]
                    } else {
                        b[i]
                    },
            decreases 9 - n,
        {
            let (r, c): (usize, usize) = (k * 3 + n / 3, k * 3 + n % 3);
            let at: usize = Self::idx(r, c);
            proof {
                assert(geometry::row(at as int) == r && geometry::col(at as int) == c);
                assert(r as int / 3 == k && c as int / 3 == k);
                assert(r as int % 3 == n as int / 3 && c as int % 3 == n as int % 3);
                assert forall|i: int| 0 <= i < 81 && geometry::row(i) / 3 == k && geometry::col(i) / 3
                    == k && (geometry::row(i) % 3) * 3 + geometry::col(i) % 3 == n implies i == at by {
                    lemma_box_cell(i);
                    lemma_box_cell(at as int);
                }
            }
            self.cells[at] = nums[n];
            n = n + 1;
        }
        proof {
            assert forall|i: int| 0 <= i < 81 implies self@[i] == with_box(b, k as int, nums@)[i] by {
                lemma_box_cell(i);
            }
            assert(self@ =~= with_box(b, k as int, nums@));
        }
    }

    /// Fills the three boxes of the diagonal, which share no row, column or box,
    /// with the digits in three random orders.
    pub fn fill_diagonal_boxes(&mut self)
        ensures
            is_seeding(old(self)@, final(self)@),
    {
        let mut rng = rand::thread_rng();
        let first = random_order(&mut rng);
        let second = random_order(&mut rng);
        let third = random_order(&mut rng);
        self.fill_box(0, &first);
        self.fill_box(1, &second);
        self.fill_box(2, &third);
        assert(self@ == with_diagonal(old(self)@, first@, second@, third@));
    }

    /// One pass of digging over the givens in the order of the list. Returns the
    /// rating of the puzzle where a given was taken away.
    pub fn dig_pass(&mut self, order: &Vec<usize>, target: Difficulty) -> (reached: Option<Difficulty>)
        requires
            forall|i: int| 0 <= i < 81 ==> #[trigger] old(self)@[i] <= 9,
            names_givens(old(self)@, order@),
        ensures
            final(self)@ == dig(old(self)@, order@, target),
            match reached {
                Some(d) => board::blanks(final(self)@) > board::blanks(old(self)@) && d
                    == grade::rating(final(self)@, None),
                None => final(self)@ == old(self)@ && forall|k: int|
                    0 <= k < order@.len() ==> !removable(
                        old(self)@,
                        #[trigger] order@[k] as int,
                        target,
                    ),
            },
    {
        let ghost b = self@;
        let mut reached: Option<Difficulty> = None;
        let mut k: usize = 0;
        assert(order@.take(0) =~= Seq::<usize>::empty());
        while k < order.len()
            invariant
                k <= order@.len(),
                b == old(self)@,
                b.len() == 81,
                names_givens(b, order@),
                forall|i: int| 0 <= i < 81 ==> #[trigger] self@[i] <= 9,
                self@ == dig(b, order@.take(k as int), target),
                match reached {
                    Some(d) => board::blanks(self@) > board::blanks(b) && d == grade::rating(
                        self@,
                        None,
                    ),
                    None => self@ == b && forall|n: int|
                        0 <= n < k ==> !removable(b, #[trigger] order@[n] as int, target),
                },
            decreases order@.len() - k,
        {
            let i = order[k];
            let ghost c = self@;
            proof {
                let before = order@.take(k as int);
                assert(order@.take(k + 1).drop_last() =~= before);
                assert(order@.take(k + 1).last() == i);
                assert(!before.contains(i)) by {
                    if before.contains(i) {
                        assert(order@[before.index_of(i)] == order@[k as int]);
                    }
                }
                assert forall|n: int| 0 <= n < before.len() implies #[trigger] before[n] < 81 by {
                    assert(before[n] == order@[n]);
                }
                lemma_dig_elsewhere(b, before, target, i);
                assert(c[i as int] == b[i as int]);
                board::lemma_blanks_update(c, i as int, 0);
            }
            let given = self.cells[i];
            self.cells[i] = 0;
            let ghost after = c.update(i as int, 0);
            assert(self@ == after);
            let mut count: usize = 0;
            let mut copy = *self;
            copy.count_solutions(&mut count);
            proof {
                grade_laws::law_capped_rating(after, target);
                assert forall|j: int| 0 <= j < 81 implies #[trigger] after[j] < 16 by {
                    assert(c[j] <= 9);
                }
            }
            let mut keep = false;
            if count == 1 {
                let rating = rate_difficulty_capped(self, target);
                if rating.level() <= target.level() {
                    reached = Some(rating);
                    keep = true;
                }
            }
            assert(keep == removable(c, i as int, target));
            if !keep {
                self.cells[i] = given;
                assert(self@ =~= c);
            }
            k = k + 1;
        }
        assert(order@.take(order@.len() as int) =~= order@);
        reached
    }

    /// A random full grid: the first completion of a random seeding of the
    /// diagonal. Where a seeding should have no completion, the empty board is
    /// completed in its place.
    pub fn random_full_grid() -> (full: Self)
        ensures
            board::valid_grid(full@),
            exists|seed: Seq<u8>| #[trigger] is_grown(seed, full@),
    {
        let mut full = Board::new();
        let ghost empty = full@;
        full.fill_diagonal_boxes();
        let ghost seed = full@;
        proof {
            law_seeding_is_sound(empty, seed);
            lemma_empty_board_completes(empty);
        }
        if full.solve() {
            proof {
                grade_laws::law_completions_are_valid(seed, full@);
                assert(is_grown(seed, full@));
            }
            full
        } else {
            let mut plain = Board::new();
            let _ = plain.solve();
            proof {
                grade_laws::law_completions_are_valid(empty, plain@);
                assert(is_grown(seed, plain@));
            }
            plain
        }
    }
}

/// The digits from 1 to 9 in a random order.
fn random_order(rng: &mut ThreadRng) -> (nums: Vec<u8>)
    ensures
        is_order(nums@),
{
    let mut nums: Vec<u8> = Vec::new();
    let mut d: u8 = 1;
    while d < 10
        invariant
            1 <= d <= 10,
            nums@.len() == d - 1,
            forall|k: int| 0 <= k < nums@.len() ==> #[trigger] nums@[k] == k + 1,
        decreases 10 - d,
    {
        nums.push(d);
        d = d + 1;
    }
    let ghost sorted = nums@;
    random::shuffle(&mut nums, rng);
    proof {
        random::lemma_same_multiset(nums@, sorted);
        assert forall|k: int| 0 <= k < 9 implies 1 <= #[trigger] nums@[k] <= 9 by {
            assert(nums@.contains(nums@[k]));
            assert(sorted.contains(nums@[k]));
        }
    }
    nums
}

/// The cells of the board that hold a given, in reading order.
fn givens_of(b: &Board) -> (v: Vec<usize>)
    ensures
        lists_givens(b@, v@),
{
    let mut v: Vec<usize> = Vec::new();
    let mut i: usize = 0;
    while i < CELLS
        invariant
            i <= 81,
            names_givens(b@, v@),
            forall|k: int| 0 <= k < v@.len() ==> #[trigger] v@[k] < i,
            forall|j: usize| j < i && b@[j as int] != 0 ==> #[trigger] v@.contains(j),
        decreases 81 - i,
    {
        let ghost before = v@;
        if b.cells[i] != 0 {
            v.push(i);
        }
        proof {
            solver::lemma_push_members(before, i);
        }
        i = i + 1;
    }
    v
}

/// Digs a full grid down: passes over the givens in random orders, until a pass
/// takes nothing away. Returns the puzzle and its rating.
pub fn dig_to_target(full: &Board, target: Difficulty, rng: &mut ThreadRng) -> (dug: (
    Board,
    Difficulty,
))
    requires
        board::valid_grid(full@),
    ensures
        is_puzzle(dug.0@, full@, target),
        is_dug(full@, dug.0@, target),
        dug.1 == grade::rating(dug.0@, None),
{
    let mut puzzle = *full;
    let ghost mut orders: Seq<Seq<usize>> = Seq::empty();
    let mut current_rating = Difficulty::Easy;
    proof {
        lemma_full_grid(full@);
    }
    loop
        invariant
            board::valid_grid(full@),
            shows(puzzle@, full@),
            board::completions(puzzle@) == set![full@],
            current_rating == grade::rating(puzzle@, None),
            difficulty::rank(current_rating) <= difficulty::rank(target),
            are_passes(full@, orders, target),
            !is_idle(full@, orders, target),
            puzzle@ == dug_by(full@, orders, target),
        decreases 81 - board::blanks(puzzle@),
    {
        let ghost b = puzzle@;
        let mut order = givens_of(&puzzle);
        let ghost listed = order@;
        random::shuffle(&mut order, rng);
        proof {
            random::lemma_same_multiset(order@, listed);
            assert forall|k: int| 0 <= k < order@.len() implies #[trigger] order@[k] < 81
                && b[order@[k] as int] != 0 by {
                assert(order@.contains(order@[k]));
                let n = listed.index_of(order@[k]);
                assert(listed[n] == order@[k]);
            }
            assert forall|i: usize| i < 81 && b[i as int] != 0 implies #[trigger] order@.contains(i) by {
                assert(listed.contains(i));
            }
            let earlier = orders;
            orders = earlier.push(order@);
            assert(orders.drop_last() =~= earlier);
            assert(orders.last() == order@);
            assert(are_passes(full@, orders, target));
            lemma_shows(b, full@);
            lemma_dig(b, order@, target, full@);
            board::lemma_blanks_update(b, 0, 0);
        }
        match puzzle.dig_pass(&order, target) {
            Some(rating) => {
                current_rating = rating;
                proof {
                    board::lemma_blanks_update(puzzle@, 0, 0);
                    assert(puzzle@ != b);
                }
            },
            None => {
                proof {
                    assert(is_idle(full@, orders, target));
                    assert forall|i: int| 0 <= i < 81 && b[i] != 0 implies !#[trigger] removable(
                        b,
                        i,
                        target,
                    ) by {
                        assert(listed.contains(i as usize));
                        assert(order@.contains(i as usize));
                        let k = order@.index_of(i as usize);
                        assert(order@[k] == i);
                    }
                }
                return (puzzle, current_rating);
            },
        }
    }
}

/// Whether a puzzle of tier `rating` comes closer to the target than the best so
/// far.
pub fn is_closer(best: Option<Difficulty>, rating: Difficulty, target: Difficulty) -> (yes: bool)
    ensures
        yes == match best {
            None => true,
            Some(b) => difficulty::distance(rating, target) < difficulty::distance(b, target),
        },
{
    match best {
        None => true,
        Some(b) => tier_distance(rating, target) < tier_distance(b, target),
    }
}

/// A puzzle and its solution.
pub type Made = (Seq<u8>, Seq<u8>);

/// The puzzle was dug out of a full grid that has grown from a seeding.
pub open spec fn is_attempt(made: Made, target: Difficulty) -> bool {
    &&& is_puzzle(made.0, made.1, target)
    &&& is_dug(made.1, made.0, target)
    &&& exists|seed: Seq<u8>| #[trigger] is_grown(seed, made.1)
}

/// The puzzles of one to eight attempts: all but the last missed the target tier,
/// and fewer than eight only where the last has it.
pub open spec fn is_session(tried: Seq<Made>, target: Difficulty) -> bool {
    &&& 1 <= tried.len() <= 8
    &&& forall|k: int| 0 <= k < tried.len() ==> is_attempt(#[trigger] tried[k], target)
    &&& forall|k: int|
        0 <= k < tried.len() - 1 ==> grade::rating((#[trigger] tried[k]).0, None) != target
    &&& tried.len() == 8 || grade::rating(tried.last().0, None) == target
}

/// How far attempt `k` missed the target tier.
pub open spec fn miss(tried: Seq<Made>, k: int, target: Difficulty) -> int {
    difficulty::distance(grade::rating(tried[k].0, None), target)
}

/// Attempt `m` is the first of those that came closest to the target tier.
pub open spec fn is_best(tried: Seq<Made>, m: int, target: Difficulty) -> bool {
    &&& 0 <= m < tried.len()
    &&& forall|k: int|
        0 <= k < tried.len() ==> miss(tried, m, target) <= #[trigger] miss(tried, k, target)
    &&& forall|k: int| 0 <= k < m ==> miss(tried, m, target) < #[trigger] miss(tried, k, target)
}

/// How many full grids are dug for one puzzle.
pub const MAX_FULL_BOARD_ATTEMPTS: usize = 8;

impl Board {
    /// A puzzle and its solution. Full grids are dug until a puzzle has the target
    /// tier; after the last attempt the puzzle that came closest is taken.
    pub fn generate(target: Difficulty) -> (made: (Self, Self))
        ensures
            is_puzzle(made.0@, made.1@, target),
            exists|tried: Seq<Made>, m: int|
                is_session(tried, target) && #[trigger] is_best(tried, m, target) && tried[m] == (
                    made.0@,
                    made.1@,
                ),
    {
        let mut rng = rand::thread_rng();
        let solution = Board::random_full_grid();
        let (puzzle, rating) = dig_to_target(&solution, target, &mut rng);
        let ghost mut tried: Seq<Made> = seq![(puzzle@, solution@)];
        let ghost mut m: int = 0;
        let mut best: (Board, Board, Difficulty) = (puzzle, solution, rating);
        let mut attempts: usize = 1;
        while attempts < MAX_FULL_BOARD_ATTEMPTS && best.2 != target
            invariant
                1 <= attempts <= 8,
                tried.len() == attempts,
                is_puzzle(best.0@, best.1@, target),
                best.2 == grade::rating(best.0@, None),
                forall|k: int| 0 <= k < tried.len() ==> is_attempt(#[trigger] tried[k], target),
                forall|k: int|
                    0 <= k < tried.len() - 1 ==> grade::rating((#[trigger] tried[k]).0, None)
                        != target,
                is_best(tried, m, target),
                tried[m] == (best.0@, best.1@),
            decreases 8 - attempts,
        {
            let solution = Board::random_full_grid();
            let (puzzle, rating) = dig_to_target(&solution, target, &mut rng);
            let ghost earlier = tried;
            proof {
                difficulty::law_rank_orders_tiers(best.2, target);
                assert forall|k: int| 0 <= k < earlier.len() implies grade::rating(
                    (#[trigger] earlier[k]).0,
                    None,
                ) != target by {
                    assert(miss(earlier, m, target) <= miss(earlier, k, target));
                    difficulty::law_rank_orders_tiers(
                        grade::rating(earlier[k].0, None),
                        target,
                    );
                }
                assert(is_attempt((puzzle@, solution@), target));
                tried = earlier.push((puzzle@, solution@));
                assert forall|k: int| 0 <= k < tried.len() implies is_attempt(
                    #[trigger] tried[k],
                    target,
                ) by {
                    if k < earlier.len() {
                        assert(tried[k] == earlier[k]);
                    }
                }
                assert forall|k: int| 0 <= k < earlier.len() implies #[trigger] miss(tried, k, target)
                    == miss(earlier, k, target) by {}
                assert(miss(tried, earlier.len() as int, target) == difficulty::distance(
                    rating,
                    target,
                ));
                assert(miss(earlier, m, target) == difficulty::distance(best.2, target));
            }
            let ghost last = m;
            if is_closer(Some(best.2), rating, target) {
                best = (puzzle, solution, rating);
                proof {
                    m = earlier.len() as int;
                }
            }
            proof {
                assert forall|k: int| 0 <= k < tried.len() implies miss(tried, m, target)
                    <= #[trigger] miss(tried, k, target) by {
                    if k < earlier.len() {
                        assert(miss(earlier, last, target) <= miss(earlier, k, target));
                    }
                }
                assert forall|k: int| 0 <= k < m implies miss(tried, m, target)
                    < #[trigger] miss(tried, k, target) by {
                    assert(miss(earlier, last, target) <= miss(earlier, k, target));
                    if m == last {
                        assert(miss(earlier, last, target) < miss(earlier, k, target));
                    }
                }
            }
            attempts = attempts + 1;
        }
        proof {
            difficulty::law_rank_orders_tiers(best.2, target);
            if attempts < 8 {
                assert(m == tried.len() - 1) by {
                    if m < tried.len() - 1 {
                        assert(grade::rating(tried[m].0, None) != target);
                    }
                }
            }
            assert(is_session(tried, target));
        }
        (best.0, best.1)
    }
}

} // verus!
