//! Each technique on grids whose outcome is known cell by cell.

use rs_sudoku::board::Board;
use rs_sudoku::geometry::{cells_in_box, cells_in_col, cells_in_row};
use rs_sudoku::solver::Solver;

fn board(text: &str) -> Board {
    let mut b = Board::new();
    for (i, ch) in text.bytes().enumerate() {
        b.cells[i] = ch - b'0';
    }
    b
}

/// Applies a technique to the starting grid of a board, and compares every cell with
/// what it is expected to become: the listed cells `(cell, digit, candidates)` change,
/// and no others.
fn expect(text: &str, technique: fn(&mut Solver) -> bool, changes: &[(usize, u8, u16)]) {
    let start = Solver::from_board(&board(text));
    let mut after = Solver::from_board(&board(text));
    assert_eq!(technique(&mut after), !changes.is_empty());
    for i in 0..81 {
        let (digit, candidates) = match changes.iter().find(|c| c.0 == i) {
            Some(c) => (c.1, c.2),
            None => (start.cell(i), start.mask(i)),
        };
        assert_eq!((after.cell(i), after.mask(i)), (digit, candidates), "cell {i}");
    }
}

#[test]
fn naked_singles() {
    expect(
        "000205600326007540708649102005460900004790306000008024500000000800000400907000003",
        |s: &mut Solver| s.apply_naked_singles(),
        &[(7, 0, 896), (19, 5, 0), (25, 3, 0), (34, 0, 258), (35, 0, 258), (46, 0, 586), (51, 7, 0), (60, 0, 260)],
    );
    expect(
        "000050000000203105040000200100085004000901062000702851010027600000098003000310000",
        |s: &mut Solver| s.apply_naked_singles(),
        &[(3, 0, 274), (21, 0, 258), (28, 0, 652), (29, 0, 652), (30, 6, 0), (49, 0, 24), (66, 0, 48)],
    );
}

#[test]
fn hidden_singles() {
    expect(
        "000006009006000100000100000300460590000000000000000360000680703070932615600007008",
        |s: &mut Solver| s.apply_hidden_singles(),
        &[(26, 6, 0), (37, 6, 0), (73, 0, 62), (74, 0, 62), (78, 9, 0)],
    );
    expect(
        "000050000000203105040000200100085004000901062000702851010027600000098003000310000",
        |s: &mut Solver| s.apply_hidden_singles(),
        &[(70, 1, 0), (72, 0, 1008), (73, 0, 992), (74, 0, 1008), (79, 2, 0)],
    );
}

#[test]
fn locked_candidates() {
    expect(
        "370245896060098070408000325003506008640009000809423701006052000700860059002004600",
        |s: &mut Solver| s.apply_locked_candidates(),
        &[(33, 0, 528), (55, 0, 266), (60, 0, 16), (69, 0, 4), (73, 0, 298)],
    );
    expect(
        "007014006900000048000080000000900000000320050703000000490700810501090700000401900",
        |s: &mut Solver| s.apply_locked_candidates(),
        &[(23, 0, 620), (26, 0, 654), (34, 0, 396), (35, 0, 142), (44, 0, 130), (52, 0, 772), (53, 0, 518), (64, 0, 76)],
    );
}

#[test]
fn naked_pairs() {
    expect(
        "370245896060098070408000325003506008640009000809423701006052000700860059002004600",
        |s: &mut Solver| s.apply_naked_subsets(2),
        &[(12, 0, 8), (19, 0, 512), (21, 0, 64), (31, 0, 128), (33, 0, 512), (38, 0, 160), (69, 0, 4)],
    );
    expect(
        "208000700500039080000008236170000060406003000000065007600300000003604001052801040",
        |s: &mut Solver| s.apply_naked_subsets(2),
        &[(45, 0, 264), (63, 0, 256), (78, 0, 72), (80, 0, 8)],
    );
}

#[test]
fn naked_triples() {
    expect(
        "370245896060098070408000325003506008640009000809423701006052000700860059002004600",
        |s: &mut Solver| s.apply_naked_subsets(3),
        &[(19, 0, 512), (21, 0, 64), (33, 0, 512), (40, 0, 256), (42, 0, 32), (69, 0, 4), (76, 0, 8)],
    );
    expect(
        "208000700500039080000008236170000060406003000000065007600300000003604001052801040",
        |s: &mut Solver| s.apply_naked_subsets(3),
        &[(45, 0, 8), (55, 0, 18), (56, 0, 18), (78, 0, 64)],
    );
}

#[test]
fn naked_quads() {
    expect(
        "370245896060098070408000325003506008640009000809423701006052000700860059002004600",
        |s: &mut Solver| s.apply_naked_subsets(4),
        &[(21, 0, 64), (33, 0, 512), (42, 0, 32)],
    );
    expect(
        "208000700500039080000008236170000060406003000000065007600300000003604001052801040",
        |s: &mut Solver| s.apply_naked_subsets(4),
        &[(1, 0, 72), (10, 0, 64), (12, 0, 4)],
    );
}

#[test]
fn hidden_pairs() {
    expect(
        "371245896260398070408607325103506008647189530859423761006052413704861259012934687",
        |s: &mut Solver| s.apply_hidden_subsets(2),
        &[(55, 0, 256)],
    );
    expect(
        "019205486425168370630097105103950807257810693804670512071589260006721930982006751",
        |s: &mut Solver| s.apply_hidden_subsets(2),
        &[(32, 0, 4), (71, 0, 256)],
    );
    expect(
        "000263800903100050000500043040930000000000002000005031000406708068700090700000000",
        |s: &mut Solver| s.apply_hidden_subsets(2),
        &[(42, 0, 528), (51, 0, 528)],
    );
}

#[test]
fn hidden_triples() {
    expect(
        "371245896260398070408607325103506008647189530859423761006052413704861259012934687",
        |s: &mut Solver| s.apply_hidden_subsets(3),
        &[(55, 0, 256)],
    );
    expect(
        "019205486425168370630097105103950807257810693804670512071589260006721930982006751",
        |s: &mut Solver| s.apply_hidden_subsets(3),
        &[],
    );
    expect(
        "500020000020000410600790523000060000000007000298100600000075040900803102040002000",
        |s: &mut Solver| s.apply_hidden_subsets(3),
        &[(40, 0, 296), (49, 0, 40), (53, 0, 160)],
    );
    expect(
        "600503098800200004000809006200000000008000001006090040007020000963050080024000050",
        |s: &mut Solver| s.apply_hidden_subsets(3),
        &[(18, 0, 152), (36, 0, 152), (45, 0, 136)],
    );
}

#[test]
fn hidden_quads() {
    expect(
        "371245896260398070408607325103506008647189530859423761006052413704861259012934687",
        |s: &mut Solver| s.apply_hidden_subsets(4),
        &[],
    );
    expect(
        "956028074140050028000479105010260080208590416305004002501782649084901257792605801",
        |s: &mut Solver| s.apply_hidden_subsets(4),
        &[(32, 0, 128), (33, 0, 672), (46, 0, 64), (48, 0, 256), (51, 0, 128)],
    );
    expect(
        "000000098007000524280000000050900800020070000708100309040000003036009080000034000",
        |s: &mut Solver| s.apply_hidden_subsets(4),
        &[(27, 0, 26), (36, 0, 538)],
    );
}

#[test]
fn x_wing() {
    expect(
        "208000700500039080000008236170000060406003000000065007600300000003604001052801040",
        |s: &mut Solver| s.apply_fish(2),
        &[(1, 0, 538), (51, 0, 786), (56, 0, 530), (58, 0, 548), (63, 0, 768), (67, 0, 548)],
    );
    expect(
        "007014006900000048000080000000900000000320050703000000490700810501090700000401900",
        |s: &mut Solver| s.apply_fish(2),
        &[(25, 0, 140), (26, 0, 174), (44, 0, 146), (52, 0, 324)],
    );
}

#[test]
fn swordfish() {
    expect(
        "208000700500039080000008236170000060406003000000065007600300000003604001052801040",
        |s: &mut Solver| s.apply_fish(3),
        &[(46, 0, 772), (51, 0, 786)],
    );
    expect(
        "007014006900000048000080000000900000000320050703000000490700810501090700000401900",
        |s: &mut Solver| s.apply_fish(3),
        &[(25, 0, 140), (26, 0, 174), (44, 0, 146), (52, 0, 324)],
    );
}

#[test]
fn jellyfish() {
    expect(
        "208000700500039080000008236170000060406003000000065007600300000003604001052801040",
        |s: &mut Solver| s.apply_fish(4),
        &[(56, 0, 530), (58, 0, 548), (63, 0, 768), (67, 0, 548)],
    );
    expect(
        "007014006900000048000080000000900000000320050703000000490700810501090700000401900",
        |s: &mut Solver| s.apply_fish(4),
        &[(35, 0, 142), (44, 0, 642), (46, 0, 372), (51, 0, 84), (53, 0, 516)],
    );
}

#[test]
fn single_digit_chains() {
    expect(
        "370245896060098070408000325003506008640009000809423701006052000700860059002004600",
        |s: &mut Solver| s.apply_single_digit_chains(),
        &[(33, 0, 528)],
    );
    expect(
        "208000700500039080000008236170000060406003000000065007600300000003604001052801040",
        |s: &mut Solver| s.apply_single_digit_chains(),
        &[(3, 0, 18), (22, 0, 146), (51, 0, 786)],
    );
    expect(
        "340050000190000056060409023200000000016040000000030060001000008004810392070592004",
        |s: &mut Solver| s.apply_single_digit_chains(),
        &[(3, 0, 194), (12, 0, 136), (34, 0, 402), (51, 0, 934), (55, 0, 36)],
    );
}

#[test]
fn xy_wing() {
    expect(
        "023100008054379210907600350189043500072960400306510009000706082701800043000030005",
        |s: &mut Solver| s.apply_xy_wing(),
        &[(77, 0, 6)],
    );
    expect(
        "018037009257149603000500007480310796070804235005070800031080000724001368009423001",
        |s: &mut Solver| s.apply_xy_wing(),
        &[(23, 0, 256), (48, 0, 576), (50, 0, 4)],
    );
}

#[test]
fn xyz_wing() {
    expect(
        "208000700500039080000008236170000060406003000000065007600300000003604001052801040",
        |s: &mut Solver| s.apply_xyz_wing(),
        &[(72, 0, 128)],
    );
    expect(
        "023100008054379210907600350189043500072960400306510009000706082701800043000030005",
        |s: &mut Solver| s.apply_xyz_wing(),
        &[(51, 0, 256)],
    );
}

#[test]
fn unique_rectangle() {
    expect(
        "000210070000009500974000130260007000145800703080503014090021385508930407400705690",
        |s: &mut Solver| s.apply_unique_rectangle_type1(),
        &[(8, 0, 64)],
    );
    expect(
        "000205600326007540708649102005460900004790306000008024500000000800000400907000003",
        |s: &mut Solver| s.apply_unique_rectangle_type1(),
        &[(32, 0, 8)],
    );
}

#[test]
fn w_wing() {
    expect(
        "018037009257149603000500007480310796070804235005070800031080000724001368009423001",
        |s: &mut Solver| s.apply_w_wing(),
        &[(23, 0, 320), (25, 0, 276), (48, 0, 576)],
    );
    expect(
        "040010670105360240000004513097053060302809751508720900050002307009070406720000105",
        |s: &mut Solver| s.apply_w_wing(),
        &[(5, 0, 32)],
    );
}

#[test]
fn bifurcation() {
    expect(
        "018037009257149603000500007480310796070804235005070800031080000724001368009423001",
        |s: &mut Solver| s.apply_bifurcation(1),
        &[(3, 2, 0), (7, 0, 48), (23, 0, 320), (48, 0, 576)],
    );
    expect(
        "365120080040000100709600245000000030170460950284390601400000090608932407900740020",
        |s: &mut Solver| s.apply_bifurcation(1),
        &[(12, 5, 0), (13, 0, 384), (14, 0, 904), (30, 0, 260), (57, 0, 256)],
    );
}

#[test]
fn bifurcation_with_two_levels() {
    expect(
        "018037009257149603000500007480310796070804235005070800031080000724001368009423001",
        |s: &mut Solver| s.apply_bifurcation(2),
        &[(3, 2, 0), (7, 0, 48), (23, 0, 320), (48, 0, 576)],
    );
}

#[test]
fn cheap_techniques() {
    expect(
        "000205600326007540708649102005460900004790306000008024500000000800000400907000003",
        |s: &mut Solver| s.apply_cheap_techniques(),
        &[(7, 0, 896), (19, 5, 0), (25, 3, 0), (34, 0, 258), (35, 0, 258), (46, 0, 586), (51, 7, 0), (60, 0, 260)],
    );
}

#[test]
fn a_full_grid_leaves_nothing_to_deduce() {
    let full = "534678912672195348198342567859761423426853791713924856961537284287419635345286179";
    expect(full, |s: &mut Solver| s.apply_naked_singles(), &[]);
    expect(full, |s: &mut Solver| s.apply_hidden_singles(), &[]);
    expect(full, |s: &mut Solver| s.apply_locked_candidates(), &[]);
    expect(full, |s: &mut Solver| s.apply_naked_subsets(2), &[]);
    expect(full, |s: &mut Solver| s.apply_hidden_subsets(2), &[]);
    expect(full, |s: &mut Solver| s.apply_fish(2), &[]);
    expect(full, |s: &mut Solver| s.apply_single_digit_chains(), &[]);
    expect(full, |s: &mut Solver| s.apply_xy_wing(), &[]);
    expect(full, |s: &mut Solver| s.apply_xyz_wing(), &[]);
    expect(full, |s: &mut Solver| s.apply_unique_rectangle_type1(), &[]);
    expect(full, |s: &mut Solver| s.apply_w_wing(), &[]);
    expect(full, |s: &mut Solver| s.apply_bifurcation(1), &[]);
}

#[test]
fn an_empty_budget_bifurcates_nothing() {
    expect(
        "018037009257149603000500007480310796070804235005070800031080000724001368009423001",
        |s: &mut Solver| s.apply_bifurcation(0),
        &[],
    );
}

#[test]
fn elementary_steps() {
    let mut s = Solver::from_board(&Board::new());
    assert!(!s.is_solved());
    assert!(!s.has_contradiction());
    assert_eq!(s.mask(40), 0b11_1111_1110);
    assert!(s.eliminate(40, 5));
    assert!(!s.eliminate(40, 5));
    assert_eq!(s.mask(40), 0b11_1101_1110);
    s.place(0, 7);
    assert_eq!(s.cell(0), 7);
    assert_eq!(s.mask(0), 0);
    assert_eq!(s.mask(1), 0b11_0111_1110);
    assert_eq!(s.mask(72), 0b11_0111_1110);
    assert_eq!(s.mask(10), 0b11_0111_1110);
    assert_eq!(s.mask(30), 0b11_1111_1110);
    assert!(s.allows(30, 7));
    assert!(!s.allows(1, 7));
    for d in 1..=9 {
        s.eliminate(80, d);
    }
    assert!(s.has_contradiction());
}

/// Applies a technique to a solver, and expects just the listed cells to change, to the
/// listed candidates.
fn expect_masks(s: &mut Solver, technique: fn(&mut Solver) -> bool, changes: &[(usize, u16)]) {
    let before: Vec<u16> = (0..81).map(|i| s.mask(i)).collect();
    assert_eq!(technique(s), !changes.is_empty());
    for i in 0..81 {
        let mask = match changes.iter().find(|c| c.0 == i) {
            Some(c) => c.1,
            None => before[i],
        };
        assert_eq!(s.mask(i), mask, "cell {i}");
    }
}

#[test]
fn a_hidden_subset_leaves_digits_alone_that_the_unit_holds() {
    // The first row holds a 3, and 5 is possible in two of its cells.
    let mut s = Solver::from_board(&board(
        "000000003000000000000000000000000000000000000000000000000000000000000000000000000",
    ));
    for i in [1, 2, 3, 5, 6, 7] {
        s.eliminate(i, 5);
    }
    expect_masks(&mut s, |s: &mut Solver| s.apply_hidden_subsets(2), &[]);
    // And the other way round: a 1, and 2 in two cells.
    let mut s = Solver::from_board(&board(
        "100000000000000000000000000000000000000000000000000000000000000000000000000000000",
    ));
    for i in 3..9 {
        s.eliminate(i, 2);
    }
    expect_masks(&mut s, |s: &mut Solver| s.apply_hidden_subsets(2), &[]);
}

#[test]
fn skyscraper() {
    let mut s = Solver::from_board(&Board::new());
    for i in 0..9 {
        if i != 0 && i != 4 {
            s.eliminate(i, 1);
        }
        if i != 0 && i != 5 {
            s.eliminate(45 + i, 1);
        }
    }
    let chains = |s: &mut Solver| s.apply_single_digit_chains();
    expect_masks(&mut s, chains, &[(14, 1020), (23, 1020), (31, 1020), (40, 1020)]);
    expect_masks(&mut s, chains, &[]);
}

#[test]
fn two_string_kite() {
    let mut s = Solver::from_board(&Board::new());
    for i in 0..9 {
        if i != 0 && i != 4 {
            s.eliminate(i, 1);
        }
        if i != 1 && i != 6 {
            s.eliminate(9 * i + 1, 1);
        }
    }
    expect_masks(&mut s, |s: &mut Solver| s.apply_single_digit_chains(), &[(58, 1020)]);
}

/// An empty board on which the digit 1 has just the listed spots in each listed unit.
fn with_spots(units: &[(Vec<usize>, [usize; 2])]) -> Solver {
    let mut s = Solver::from_board(&Board::new());
    for (cells, kept) in units {
        for &i in cells {
            if !kept.contains(&i) {
                s.eliminate(i, 1);
            }
        }
    }
    s
}

#[test]
fn skyscraper_of_columns() {
    let mut s = with_spots(&[(cells_in_col(0), [0, 36]), (cells_in_col(5), [5, 50])]);
    let chains = |s: &mut Solver| s.apply_single_digit_chains();
    expect_masks(&mut s, chains, &[(39, 1020), (40, 1020), (46, 1020), (47, 1020)]);
}

#[test]
fn two_links_of_another_shape_rule_nothing_out() {
    let chains = |s: &mut Solver| s.apply_single_digit_chains();
    // A box and a row, whose ends see each other.
    let mut s = with_spots(&[(cells_in_box(0), [0, 20]), (cells_in_row(5), [45, 50])]);
    expect_masks(&mut s, chains, &[]);
    // Two rows with both ends in the same columns, which is an X-Wing.
    let mut s = with_spots(&[(cells_in_row(0), [1, 6]), (cells_in_row(5), [46, 51])]);
    expect_masks(&mut s, chains, &[]);
    // Two rows whose ends share a box but no column.
    let mut s = with_spots(&[(cells_in_row(0), [0, 4]), (cells_in_row(1), [10, 17])]);
    expect_masks(&mut s, chains, &[]);
}

#[test]
fn a_trial_goes_on_while_it_has_levels() {
    let filled = |text: &str, budget: u8| {
        let mut s = Solver::from_board(&board(text));
        assert!(s.run_contradiction_check(budget));
        (0..81).filter(|&i| s.cell(i) != 0).count()
    };
    let a = "000000000000000201000387040007900800040006000096401000310050000009018007700040050";
    assert_eq!([filled(a, 0), filled(a, 1), filled(a, 2)], [56, 81, 81]);
    let b = "060010000109000000300075000080600001000230086000080740004000009025000300003006004";
    assert_eq!([filled(b, 0), filled(b, 1), filled(b, 2)], [33, 34, 81]);
}

#[test]
fn contradiction_check_tells_dead_ends() {
    let mut dead = Solver::from_board(&board(
        "123456780000000009000000000000000000000000000000000000000000000000000000000000000",
    ));
    assert!(!dead.run_contradiction_check(0));
    let mut sound = Solver::from_board(&board(
        "530070000600195000098000060800060003400803001700020006060000280000419005000080079",
    ));
    assert!(sound.run_contradiction_check(1));
    assert!(sound.is_solved());
}

#[test]
fn techniques_keep_the_solution() {
    let techniques: [fn(&mut Solver) -> bool; 19] = [
        |s: &mut Solver| s.apply_naked_singles(),
        |s: &mut Solver| s.apply_hidden_singles(),
        |s: &mut Solver| s.apply_locked_candidates(),
        |s: &mut Solver| s.apply_naked_subsets(2),
        |s: &mut Solver| s.apply_naked_subsets(3),
        |s: &mut Solver| s.apply_naked_subsets(4),
        |s: &mut Solver| s.apply_hidden_subsets(2),
        |s: &mut Solver| s.apply_hidden_subsets(3),
        |s: &mut Solver| s.apply_hidden_subsets(4),
        |s: &mut Solver| s.apply_fish(2),
        |s: &mut Solver| s.apply_fish(3),
        |s: &mut Solver| s.apply_fish(4),
        |s: &mut Solver| s.apply_single_digit_chains(),
        |s: &mut Solver| s.apply_xy_wing(),
        |s: &mut Solver| s.apply_xyz_wing(),
        |s: &mut Solver| s.apply_unique_rectangle_type1(),
        |s: &mut Solver| s.apply_w_wing(),
        |s: &mut Solver| s.apply_bifurcation(1),
        |s: &mut Solver| s.apply_bifurcation(2),
    ];
    for puzzle in [
        "006030090700604005001907304064000000000003240009028010007206030000001000900300000",
        "800000000003600000070090200050007000000045700000100030001000068008500010090000400",
        "000300000000060209800004030003000001070130000904007006020070000000056000001400005",
    ] {
        let mut solution = board(puzzle);
        assert!(solution.solve());
        let mut together = Solver::from_board(&board(puzzle));
        for _ in 0..4 {
            for technique in techniques {
                let mut alone = Solver::from_board(&board(puzzle));
                technique(&mut alone);
                technique(&mut together);
                for i in 0..81 {
                    let digit = solution.cells[i];
                    for s in [&alone, &together] {
                        assert!(s.cell(i) == digit || s.allows(i, digit));
                    }
                }
            }
        }
    }
}
