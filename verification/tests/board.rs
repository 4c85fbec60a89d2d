use camps_and_trees::board::Board;
use camps_and_trees::tile::Tile::{Camp, Grass, Tree, Unassigned};

#[test]
fn board_debug_test() {
    assert_eq!(
        "TC-\n - \n---",
        Board::new(
            vec![1, 2, 3],
            vec![3, 2, 1],
            vec![
                vec![Tree, Camp, Grass],
                vec![Unassigned, Grass, Unassigned],
                vec![Grass, Grass, Grass]
            ]
            .into()
        )
        .debug()
    );
}

#[test]
fn solve_unsolvable() {
    let mut board = Board::new_parse(vec![1, 0, 1], vec![1, 0, 1], " T \n   \n T ").unwrap();
    assert!(board.solve().is_err());
    // but it should make some progress
    assert_eq!(board.debug(), " T \n---\n T ");
}

#[test]
fn solve_5x5_1() {
    let mut board = Board::new_parse(
        vec![1, 1, 0, 2, 1],
        vec![2, 0, 1, 1, 1],
        "     \n T T \n     \nTT   \n    T",
    )
    .unwrap();
    board.solve().unwrap();
    assert_eq!(board.debug(), "---C-\nCT-T-\n-----\nTTC-C\nC---T");
}

#[test]
fn solve_5x5_2() {
    let mut board = Board::new_parse(
        vec![2, 0, 1, 0, 2],
        vec![1, 1, 1, 1, 1],
        " T T \n     \n     \n T   \n TT  ",
    )
    .unwrap();
    board.solve().unwrap();
    assert_eq!(board.debug(), "-TCTC\n-----\n-C---\n-T---\nCTTC-");
}

#[test]
fn solve_5x5_10() {
    let mut board = Board::new_parse(
        vec![1, 2, 1, 0, 1],
        vec![2, 0, 1, 1, 1],
        " T   \nT  T \n  T  \n     \n    T",
    )
    .unwrap();
    board.solve().unwrap();
    assert_eq!(board.debug(), "CT---\nT-CTC\nC-T--\n-----\n---CT");
}

#[test]
fn solve_6x6_a5() {
    let mut board = Board::new_parse(
        vec![0, 3, 0, 2, 0, 2],
        vec![1, 1, 2, 1, 0, 2],
        "     T\n   T  \nT     \n  T   \n T    \n   TT ",
    )
    .unwrap();
    board.solve().unwrap();
    assert_eq!(
        board.debug(),
        "-----T\nC-CT-C\nT-----\n-CTC--\n-T----\n--CTTC"
    );
}

#[test]
fn solve_6x6_b10() {
    let mut board = Board::new_parse(
        vec![1, 1, 1, 2, 1, 2],
        vec![2, 1, 2, 0, 1, 2],
        "     T\nT     \n  T   \n     T\nT   T \n T T  ",
    )
    .unwrap();
    board.solve().unwrap();
    assert_eq!(
        board.debug(),
        "----CT\nTC----\n--T--C\nC-C--T\nT---TC\nCTCT--"
    );
}

#[test]
fn solve_7x7_a10() {
    let mut board = Board::new_parse(
        vec![1, 2, 2, 1, 2, 0, 3],
        vec![2, 1, 2, 1, 2, 0, 3],
        "   T   \n  T  T \nT    T \n      T\nT   T  \n   T  T\n T     ",
    )
    .unwrap();
    board.solve().unwrap();
    assert_eq!(
        board.debug(),
        "--CT---\nC-T-CT-\nT-C--TC\n----C-T\nTC--T-C\n---T--T\nCT-C--C"
    );
}

#[test]
fn solve_7x7_b15() {
    let mut board = Board::new_parse(
        vec![2, 1, 2, 1, 2, 1, 2],
        vec![2, 1, 1, 2, 2, 1, 2],
        " T T T \n   T   \nT      \n   T T \nT      \n  T T T\n       ",
    )
    .unwrap();
    board.solve().unwrap();
    assert_eq!(
        board.debug(),
        "-T-TCTC\n-C-T---\nT--C-C-\nC--T-T-\nT--C--C\nC-T-T-T\n--C-C--"
    );
}

#[test]
fn solve_7x7_b20() {
    let mut board = Board::new_parse(
        vec![3, 0, 1, 1, 1, 2, 2],
        vec![2, 1, 2, 1, 1, 2, 1],
        " T  T  \nT      \n    T  \n       \nTT  T T\n       \n   T T ",
    )
    .unwrap();
    board.solve().unwrap();
    assert_eq!(
        board.debug(),
        "CTC-TC-\nT------\n----TC-\n-C-----\nTT-CT-T\nC-----C\n--CTCT-"
    );
}

#[test]
fn solve_8x8_b2() {
    let mut board = Board::new_parse(
        vec![2, 1, 2, 1, 3, 1, 1, 3],
        vec![3, 1, 1, 2, 2, 1, 2, 2],
        "  T     \nT    T T\n     T  \n    T   \n        \nT T  T T\n  T T   \n T    T ",
    )
    .unwrap();
    board.solve().unwrap();
    assert_eq!(
        board.debug(),
        "-CT----C\nT---CT-T\nC----TC-\n---CT---\nC----C-C\nT-TC-T-T\n--T-T-C-\nCTC-C-T-"
    );
}

#[test]
fn solve_8x8_b5() {
    let mut board = Board::new_parse(
        vec![1, 3, 1, 3, 1, 2, 1, 3],
        vec![4, 0, 3, 1, 1, 2, 2, 2],
        "T  T    \n     T  \nT    TTT\n  T     \nT       \n  T  T  \n  T    T\n T    T ",
    )
    .unwrap();
    board.solve().unwrap();
    assert_eq!(
        board.debug(),
        "T-CT----\nC---CTC-\nT-C--TTT\nC-T--C-C\nT-C-----\nC-T--TC-\n--TC---T\nCT---CTC"
    );
}

#[test]
fn solve_8x8_b9() {
    let mut board = Board::new_parse(
        vec![1, 1, 1, 2, 2, 1, 2, 2],
        vec![1, 1, 2, 1, 1, 3, 1, 2],
        "        \n T   T  \n    TT  \n       T\nT  T    \n        \n  TT T  \n    T  T",
    )
    .unwrap();
    board.solve().unwrap();
    assert_eq!(
        board.debug(),
        "-----C--\n-TC--T--\n----TTC-\nC---C--T\nT-CT---C\n-----C--\n-CTT-T-C\n---CTC-T"
    );
}

#[test]
fn solve_8x8_b10() {
    let mut board = Board::new_parse(
        vec![2, 2, 2, 0, 3, 0, 3, 1],
        vec![1, 3, 1, 2, 1, 2, 0, 3],
        "  T T  T\n    T   \n        \n T T    \n      T \n TT    T\n     T  \nT     T ",
    )
    .unwrap();
    board.solve().unwrap();
    assert_eq!(
        board.debug(),
        "-CTCT--T\n----TC-C\n-C-C----\n-T-T----\n-C---CTC\n-TT----T\nC-C-CT--\nT-----TC"
    );
}

#[test]
fn solve_8x8_b13() {
    let mut board = Board::new_parse(
        vec![3, 1, 2, 1, 1, 2, 1, 3],
        vec![4, 0, 2, 1, 3, 1, 1, 2],
        "       T\nT  TTT  \n T      \n        \n  T T   \n T     T\n        \n T T TT ",
    )
    .unwrap();
    board.solve().unwrap();
    assert_eq!(
        board.debug(),
        "C--C-C-T\nT--TTT-C\nCT--C---\n--C-----\n--T-T--C\nCT--C--T\n------C-\nCTCTCTT-"
    );
}

#[test]
fn solve_8x8_b15() {
    let mut board = Board::new_parse(
        vec![2, 1, 2, 1, 2, 2, 1, 1],
        vec![2, 2, 1, 2, 0, 3, 1, 1],
        "T      T\n   T    \n        \n  T  T T\nT   T   \n  T  T  \n T T    \n        ",
    )
    .unwrap();
    board.solve().unwrap();
    assert_eq!(
        board.debug(),
        "T--C--CT\nC--T----\n--C--C--\nC-T--T-T\nT---TC-C\n-CTC-T--\n-T-T-C--\n-C------"
    );
}

#[test]
fn solve_reports_the_steady_state() {
    let mut board = Board::new_parse(vec![1, 0, 1], vec![1, 0, 1], " T \n   \n T ").unwrap();
    assert_eq!(
        board.solve(),
        Err("Reached steady state\n T \n---\n T ".to_string())
    );
    assert!(!board.is_solved());
}

#[test]
fn solve_reports_a_line_without_placement() {
    let mut board = Board::new_parse(vec![2], vec![1, 1, 0, 0], "  TT").unwrap();
    assert_eq!(
        board.solve(),
        Err("No way to place the camps of a row or column\n-CTT".to_string())
    );
    assert_eq!(board.debug(), "-CTT");
}

#[test]
fn solve_terminates_on_an_empty_board() {
    let mut board = Board::new_blank(vec![], vec![]);
    assert_eq!(board.solve(), Ok(()));
    let mut wide = Board::new_blank(vec![], vec![0, 0]);
    assert_eq!(wide.solve(), Ok(()));
    let mut lacking = Board::new_blank(vec![], vec![1, 2]);
    assert_eq!(
        lacking.solve(),
        Err("No way to place the camps of a row or column\n".to_string())
    );
    let mut tall = Board::new_blank(vec![0, 0], vec![]);
    assert_eq!(tall.solve(), Ok(()));
    assert_eq!(tall.debug(), "\n");
}

#[test]
fn solve_without_trees_is_all_grass() {
    let mut board = Board::new_blank(vec![0, 0], vec![0, 0, 0]);
    assert_eq!(board.solve(), Ok(()));
    assert_eq!(board.debug(), "---\n---");
}

#[test]
fn new_blank_is_unassigned() {
    let board = Board::new_blank(vec![1, 0], vec![0, 1, 0]);
    assert_eq!(board.debug(), "   \n   ");
    assert_eq!(board.num_rows(), 2);
    assert_eq!(board.num_columns(), 3);
    assert_eq!(board.rows, vec![1, 0]);
    assert_eq!(board.columns, vec![0, 1, 0]);
}

#[test]
fn new_parse_rejects_unknown_tiles_and_wrong_sizes() {
    assert_eq!(
        Board::new_parse(vec![1], vec![1], "?"),
        Err("Couldn't parse tile: '?'".to_string())
    );
    assert_eq!(
        Board::new_parse(vec![1], vec![1], "T\nT"),
        Err("Grid size doesn't match the row and column descriptors".to_string())
    );
    assert_eq!(
        Board::new_parse(vec![1, 1], vec![1, 1], "TT\nT"),
        Err("Grid size doesn't match the row and column descriptors".to_string())
    );
    assert_eq!(
        Board::new_parse(vec![1, 1], vec![1, 1, 1], "TT\nTT"),
        Err("Grid size doesn't match the row and column descriptors".to_string())
    );
    assert!(Board::new_parse(vec![1, 1], vec![1, 1, 1], "TTT\nTTT").is_ok());
}

#[test]
fn board_reads_through_to_its_table() {
    let board = Board::new_parse(vec![1, 1], vec![1, 0, 1], "CT \n  T").unwrap();
    assert_eq!(board.get(0, 1), Some(Tree));
    assert_eq!(board.get(2, 0), None);
    assert_eq!(board.count_in_row(0, Camp), 1);
    assert_eq!(board.count_in_row(1, Unassigned), 2);
    assert_eq!(board.count_in_column(1, Tree), 1);
    assert_eq!(board.count_in_column(2, Tree), 1);
    assert_eq!(board.surrounding_tiles(1, 1), vec![(0, 1), (1, 0), (1, 2)]);
    assert!(!board.is_solved());
    let copy = board.clone();
    assert_eq!(copy, board);
}
