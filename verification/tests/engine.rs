//! Boards, ratings and generated puzzles.

use rs_sudoku::board::{Board, CELLS, COLS, ROWS};
use rs_sudoku::combos::combinations;
use rs_sudoku::difficulty::{tier_distance, Difficulty};
use rs_sudoku::generator::{dig_to_target, is_closer};
use rs_sudoku::geometry::{
    all_units, box_of, cells_in_box, cells_in_col, cells_in_row, has_peer_pair, is_peer, peers_of,
};
use rs_sudoku::grade::{rate_difficulty, rate_difficulty_capped};
use rs_sudoku::mask::{bits, count, lowest};
use rs_sudoku::solver::Solver;

const PUZZLE: &str =
    "530070000600195000098000060800060003400803001700020006060000280000419005000080079";
const SOLUTION: &str =
    "534678912672195348198342567859761423426853791713924856961537284287419635345286179";

fn board(text: &str) -> Board {
    let mut b = Board::new();
    for (i, ch) in text.bytes().enumerate() {
        b.cells[i] = ch - b'0';
    }
    b
}

fn text(b: &Board) -> String {
    b.cells.iter().map(|&v| (b'0' + v) as char).collect()
}

fn solutions(b: &Board) -> usize {
    let mut copy = *b;
    let mut n = 0;
    copy.count_solutions(&mut n);
    assert_eq!(text(&copy), text(b));
    n
}

fn is_valid(b: &Board) -> bool {
    (0..81).all(|i| {
        (1..=9).contains(&b.cells[i])
            && peers_of(i).iter().all(|&p| b.cells[p] != b.cells[i])
    })
}

#[test]
fn dimensions_and_indices() {
    assert_eq!((ROWS, COLS, CELLS), (9, 9, 81));
    assert!(Board::new().cells.iter().all(|&v| v == 0));
    assert_eq!(Board::idx(4, 7), 43);
    assert_eq!(Board::row_col(43), (4, 7));
    for i in 0..81 {
        let (r, c) = Board::row_col(i);
        assert_eq!(Board::idx(r, c), i);
    }
}

#[test]
fn units_and_peers() {
    assert_eq!(cells_in_row(1), vec![9, 10, 11, 12, 13, 14, 15, 16, 17]);
    assert_eq!(cells_in_col(2), vec![2, 11, 20, 29, 38, 47, 56, 65, 74]);
    assert_eq!(cells_in_box(5), vec![33, 34, 35, 42, 43, 44, 51, 52, 53]);
    assert_eq!(box_of(43), 5);
    let units = all_units();
    assert_eq!(units.len(), 27);
    assert_eq!(units[10], cells_in_col(1));
    assert_eq!(units[26], cells_in_box(8));
    assert!(is_peer(0, 8) && is_peer(0, 72) && is_peer(0, 20));
    assert!(!is_peer(0, 0) && !is_peer(0, 30));
    assert!(has_peer_pair(&[0, 30, 33]));
    assert!(!has_peer_pair(&[0, 30, 60]));
    let peers = peers_of(40);
    assert_eq!(
        peers,
        vec![36, 37, 38, 39, 41, 42, 43, 44, 4, 13, 22, 31, 49, 58, 67, 76, 30, 32, 48, 50]
    );
    for i in 0..81 {
        assert_eq!(peers_of(i).len(), 20);
    }
}

#[test]
fn masks_and_combinations() {
    assert_eq!(bits(0b10_0001_0010), vec![1, 4, 9]);
    assert_eq!(count(0b10_0001_0010), 3);
    assert_eq!(lowest(0b10_0001_0000), 4);
    assert_eq!(
        combinations(&[3u8, 5, 7], 2),
        vec![vec![3, 5], vec![3, 7], vec![5, 7]]
    );
    assert_eq!(combinations(&[3u8, 5], 3), Vec::<Vec<u8>>::new());
    assert_eq!(combinations(&[3u8, 5], 0), vec![Vec::<u8>::new()]);
}

#[test]
fn placements() {
    let b = board(PUZZLE);
    assert!(b.is_valid_placement(2, 4));
    assert!(!b.is_valid_placement(2, 5));
    assert!(!b.is_valid_placement(2, 8));
    assert!(!b.is_valid_placement(2, 9));
    assert!(b.is_valid_placement(0, 5));
}

#[test]
fn solving_finds_the_solution() {
    let mut b = board(PUZZLE);
    assert!(b.solve());
    assert_eq!(text(&b), SOLUTION);
    assert!(is_valid(&b));
}

#[test]
fn solving_the_empty_board_finds_the_first_grid() {
    let mut b = Board::new();
    assert!(b.solve());
    assert_eq!(
        text(&b),
        "123456789456789123789123456214365897365897214897214365531642978642978531978531642"
    );
}

#[test]
fn a_board_without_solution_stays_as_it_is() {
    let dead = "123456780000000009000000000000000000000000000000000000000000000000000000000000000";
    let mut b = board(dead);
    assert!(!b.solve());
    assert_eq!(text(&b), dead);
    assert_eq!(solutions(&b), 0);
}

#[test]
fn counting_stops_at_two() {
    assert_eq!(solutions(&board(PUZZLE)), 1);
    assert_eq!(solutions(&Board::new()), 2);
    let mut full = board(SOLUTION);
    let mut n = 1;
    full.count_solutions(&mut n);
    assert_eq!(n, 2);
    let mut n = 5;
    full.count_solutions(&mut n);
    assert_eq!(n, 5);
}

#[test]
fn tiers_form_a_ladder() {
    assert_eq!(Difficulty::ALL.len(), 10);
    for (i, a) in Difficulty::ALL.iter().enumerate() {
        assert_eq!(a.level(), i as i32);
        assert_eq!(a.name(), format!("{:?}", a));
        for (j, b) in Difficulty::ALL.iter().enumerate() {
            assert_eq!(a < b, i < j);
            assert_eq!(a.harder(*b), *a.max(b));
            assert_eq!(tier_distance(*a, *b), (i as i32 - j as i32).abs());
        }
    }
}

#[test]
fn ratings() {
    let rated = [
        (PUZZLE, Difficulty::Easy),
        ("000000010400000000020000000000050407008000300001090000300400200050100000000806000", Difficulty::Easy),
        ("000240500090070060000000120000900400706020000001007205000000000004395800850000000", Difficulty::Easy),
        ("000003700002500000036009020003000060600208000800061039000010090070002600000050140", Difficulty::Medium),
        ("000000008700028040000670100040000903009015000800004201000001320006090000003700000", Difficulty::Medium),
        ("000318600000070309600000800100006000000500010708009006000000000006000905835004000", Difficulty::Hard),
        ("100000480470100000002000065000610090200009030006000001000700900584020000000006053", Difficulty::Hard),
        ("000001030231090000065003100678924300103050006000136700009360570006019843300000000", Difficulty::Expert),
        ("000207408000000000419080000100300600503000010080004500000840200020000000061500700", Difficulty::Master),
        ("529410703006003002003200000052300076637050200190627530300069420200830600960742305", Difficulty::Master),
        ("020043069003896200960025030890560013600030000030081026300010070009674302270358090", Difficulty::Extreme),
        ("000016708400000090000000000000100806200007900090000420040020001703080000000670002", Difficulty::Evil),
        ("403006090000371005000000000000030900280400070000000000050008600071060050060000047", Difficulty::Diabolical),
        ("000000000000000201000387040007900800040006000096401000310050000009018007700040050", Difficulty::Grandmaster),
        ("006030090700604005001907304064000000000003240009028010007206030000001000900300000", Difficulty::Grandmaster),
        ("040000790000300004000805020000063902600000000090502016700000200002001040031000080", Difficulty::Ultimate),
        ("800000000003600000070090200050007000000045700000100030001000068008500010090000400", Difficulty::Ultimate),
        (SOLUTION, Difficulty::Easy),
    ];
    for (puzzle, tier) in rated {
        let b = board(puzzle);
        assert_eq!(rate_difficulty(&b), tier);
        // Singles alone fill just the easy ones.
        let mut s = Solver::from_board(&b);
        while s.apply_naked_singles() || s.apply_hidden_singles() {}
        assert_eq!(s.is_solved(), tier == Difficulty::Easy);
        if tier < Difficulty::Evil {
            assert_eq!(solutions(&b), 1);
        }
    }
}

#[test]
fn capped_ratings() {
    let hard = board("403006090000371005000000000000030900280400070000000000050008600071060050060000047");
    let expected = [
        Difficulty::Medium,
        Difficulty::Master,
        Difficulty::Master,
        Difficulty::Master,
        Difficulty::Evil,
        Difficulty::Evil,
        Difficulty::Diabolical,
        Difficulty::Diabolical,
        Difficulty::Diabolical,
        Difficulty::Diabolical,
    ];
    for (cap, tier) in Difficulty::ALL.iter().zip(expected) {
        assert_eq!(rate_difficulty_capped(&hard, *cap), tier);
    }
    for puzzle in [
        PUZZLE,
        "000003700002500000036009020003000060600208000800061039000010090070002600000050140",
        "000318600000070309600000800100006000000500010708009006000000000006000905835004000",
    ] {
        let b = board(puzzle);
        let full = rate_difficulty(&b);
        for cap in Difficulty::ALL {
            let capped = rate_difficulty_capped(&b, cap);
            if full <= cap {
                assert_eq!(capped, full);
            } else {
                assert!(cap < capped && capped <= full);
            }
        }
    }
}

#[test]
fn grading_solves_what_it_rates() {
    for puzzle in [
        PUZZLE,
        "000001030231090000065003100678924300103050006000136700009360570006019843300000000",
        "020043069003896200960025030890560013600030000030081026300010070009674302270358090",
        "403006090000371005000000000000030900280400070000000000050008600071060050060000047",
        "000000000000000201000387040007900800040006000096401000310050000009018007700040050",
        "000003700002500000036009020003000060600208000800061039000010090070002600000050140",
        "000318600000070309600000800100006000000500010708009006000000000006000905835004000",
    ] {
        let b = board(puzzle);
        let mut s = Solver::from_board(&b);
        assert!(s.solve_and_grade(None) < Difficulty::Ultimate);
        let mut brute = b;
        assert!(brute.solve());
        assert_eq!(solutions(&b), 1);
        for i in 0..81 {
            assert_eq!(s.cell(i), brute.cells[i]);
        }
    }
}

#[test]
fn seeding_fills_the_diagonal_boxes() {
    let mut seen = Vec::new();
    for _ in 0..8 {
        let mut b = Board::new();
        b.fill_diagonal_boxes();
        for k in 0..9 {
            let mut digits: Vec<u8> = cells_in_box(k).iter().map(|&i| b.cells[i]).collect();
            digits.sort();
            if k % 4 == 0 {
                assert_eq!(digits, vec![1, 2, 3, 4, 5, 6, 7, 8, 9]);
            } else {
                assert_eq!(digits, vec![0; 9]);
            }
        }
        assert!(b.solve());
        seen.push(text(&b));
    }
    // Eight equal draws out of hundreds of thousands would mean that nothing is drawn.
    assert!(seen.iter().any(|s| *s != seen[0]));
}

#[test]
fn a_box_is_filled_row_by_row() {
    let mut b = Board::new();
    b.fill_box(1, &vec![9, 8, 7, 6, 5, 4, 3, 2, 1]);
    assert_eq!(
        text(&b),
        "000000000000000000000000000000987000000654000000321000000000000000000000000000000"
    );
}

#[test]
fn full_grids_are_valid() {
    for _ in 0..4 {
        assert!(is_valid(&Board::random_full_grid()));
    }
}

#[test]
fn a_pass_of_digging_follows_its_order() {
    let mut b = board(SOLUTION);
    assert_eq!(b.dig_pass(&vec![0, 1, 2], Difficulty::Easy), Some(Difficulty::Easy));
    assert_eq!(&text(&b)[..4], "0006");
    let mut c = board(PUZZLE);
    let givens: Vec<usize> = (0..81).filter(|&i| c.cells[i] != 0).collect();
    let reached = c.dig_pass(&givens, Difficulty::Easy);
    match reached {
        Some(tier) => {
            assert_eq!(rate_difficulty(&c), tier);
            assert_eq!(tier, Difficulty::Easy);
        }
        None => assert_eq!(text(&c), PUZZLE),
    }
    assert_eq!(solutions(&c), 1);
}

#[test]
fn digging_stops_at_the_target() {
    let full = board(SOLUTION);
    let mut rng = rand::thread_rng();
    let (puzzle, rating) = dig_to_target(&full, Difficulty::Easy, &mut rng);
    assert_eq!(rating, Difficulty::Easy);
    assert_eq!(rate_difficulty(&puzzle), Difficulty::Easy);
    assert_eq!(solutions(&puzzle), 1);
    for i in 0..81 {
        assert!(puzzle.cells[i] == 0 || puzzle.cells[i] == full.cells[i]);
        if puzzle.cells[i] != 0 {
            let mut less = puzzle;
            less.cells[i] = 0;
            assert!(solutions(&less) != 1 || rate_difficulty(&less) > Difficulty::Easy);
        }
    }
}

#[test]
fn closer_puzzles_replace_farther_ones() {
    let target = Difficulty::Master;
    assert!(is_closer(None, Difficulty::Easy, target));
    assert!(is_closer(Some(Difficulty::Easy), Difficulty::Hard, target));
    assert!(!is_closer(Some(Difficulty::Hard), Difficulty::Easy, target));
    assert!(!is_closer(Some(Difficulty::Hard), Difficulty::Evil, target));
}

#[test]
fn generated_puzzles_have_one_solution() {
    for target in [Difficulty::Easy, Difficulty::Medium] {
        let (puzzle, solution) = Board::generate(target);
        assert!(is_valid(&solution));
        assert_eq!(solutions(&puzzle), 1);
        let mut solved = puzzle;
        assert!(solved.solve());
        assert_eq!(text(&solved), text(&solution));
        assert!(rate_difficulty(&puzzle) <= target);
    }
}
