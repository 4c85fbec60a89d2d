use camps_and_trees::associate_trees::Association::{
    CampAt, NoCampAssociated, NoTree, Unprocessed,
};
use camps_and_trees::associate_trees::{
    associate_surrounding_trees, associate_tree, associate_trees, generate_associations,
    Association,
};
use camps_and_trees::board::Board;
use camps_and_trees::fill_camps::fill_camps;
use camps_and_trees::fill_zeros::fill_zeros;
use camps_and_trees::grid::Grid;
use camps_and_trees::initialize_grass::initialize_grass;
use camps_and_trees::intersection::{
    intersection, process_column, process_intersections, process_row,
};
use camps_and_trees::tile::Tile;

#[test]
fn associate_tree_no_camp() {
    let grid = Grid::parse(" T \n   \n   ").unwrap();
    let mut associations = generate_associations(3, 3);
    associate_tree(&grid, 0, 1, &mut associations);
    assert_eq!(
        associations,
        vec![
            vec![NoTree, NoCampAssociated, NoTree],
            vec![Unprocessed, NoTree, Unprocessed],
            vec![Unprocessed, Unprocessed, Unprocessed],
        ]
    );
}

#[test]
fn associate_tree_associate_tree() {
    let grid = Grid::parse(" TC\n --\n   ").unwrap();
    let mut associations = generate_associations(3, 3);
    associate_tree(&grid, 0, 1, &mut associations);
    assert_eq!(
        associations,
        vec![
            vec![NoTree, CampAt(0, 2), NoTree],
            vec![Unprocessed, NoTree, NoTree],
            vec![Unprocessed, Unprocessed, Unprocessed],
        ]
    );
}

#[test]
fn associate_trees_horizontal() {
    let mut grid = Grid::parse(" TC\n---\n---").unwrap();
    assert!(associate_trees(&mut grid));
    assert_eq!(grid.debug(), "-TC\n---\n---");
}

#[test]
fn associate_trees_fills_beside_a_booked_tree() {
    let mut grid = Grid::parse("---\n TC\n---").unwrap();
    assert!(associate_trees(&mut grid));
    assert_eq!(grid, Grid::parse("---\n-TC\n---").unwrap());
}

#[test]
fn associate_trees_leaves_what_a_free_tree_may_need() {
    let mut grid = Grid::parse("T--\n TC\nT--").unwrap();
    assert!(!associate_trees(&mut grid));
    assert_eq!(grid, Grid::parse("T--\n TC\nT--").unwrap());
}

#[test]
fn associate_trees_ignores_a_camp_between_two_trees() {
    let mut grid = Grid::parse(" TCT ").unwrap();
    assert!(!associate_trees(&mut grid));
    assert_eq!(grid.debug(), " TCT ");
}

#[test]
fn associate_trees_twice_changes_nothing_more() {
    let mut grid = Grid::parse(" TC \n  T \nCT  ").unwrap();
    assert!(associate_trees(&mut grid));
    let once = grid.debug();
    assert_eq!(once, " TC-\n- T \nCT -");
    assert!(!associate_trees(&mut grid));
    assert_eq!(grid.debug(), once);
}

#[test]
fn associate_tree_leaves_a_visited_cell_alone() {
    let grid = Grid::parse(" TC\n --\n   ").unwrap();
    let mut associations = generate_associations(3, 3);
    associate_tree(&grid, 0, 1, &mut associations);
    let first = associations.clone();
    associate_tree(&grid, 0, 1, &mut associations);
    assert_eq!(associations, first);
    associate_tree(&grid, 0, 2, &mut associations);
    assert_eq!(associations, first);
}

#[test]
fn associate_tree_two_camps_share_a_tree() {
    let grid = Grid::parse("CTC").unwrap();
    let mut associations = generate_associations(1, 3);
    associate_tree(&grid, 0, 0, &mut associations);
    assert_eq!(associations, vec![vec![NoTree, CampAt(0, 0), NoTree]]);
}

#[test]
fn associate_tree_camp_without_a_tree() {
    let grid = Grid::parse("C-").unwrap();
    let mut associations = generate_associations(1, 2);
    associate_tree(&grid, 0, 0, &mut associations);
    assert_eq!(
        associations,
        vec![vec![Association::UnassignedCamp, NoTree]]
    );
}

#[test]
fn associate_surrounding_trees_visits_the_neighbours() {
    let grid = Grid::parse(" T \n   \n   ").unwrap();
    let mut associations = generate_associations(3, 3);
    associate_surrounding_trees(&grid, 1, 1, &mut associations);
    assert_eq!(
        associations,
        vec![
            vec![NoTree, NoCampAssociated, NoTree],
            vec![NoTree, NoTree, NoTree],
            vec![Unprocessed, NoTree, Unprocessed],
        ]
    );
}

#[test]
fn is_camp_at_only_for_booked_trees() {
    assert!(CampAt(1, 2).is_camp_at());
    assert!(!NoCampAssociated.is_camp_at());
    assert!(!Association::UnassignedCamp.is_camp_at());
    assert!(!NoTree.is_camp_at());
    assert!(!Unprocessed.is_camp_at());
}

#[test]
fn fill_camps_0_camps() {
    let mut board = Board::new_parse(vec![1, 1, 1], vec![1, 1, 1], "   \n   \n   ").unwrap();
    assert!(!fill_camps(&mut board));
    assert_eq!(board.debug(), "   \n   \n   ");
}

#[test]
fn fill_camps_exact_match() {
    let mut board = Board::new_parse(vec![2, 0, 2], vec![2, 0, 2], " T \nT-T\n T ").unwrap();
    assert!(fill_camps(&mut board));
    assert_eq!(board.debug(), "CTC\nT-T\nCTC");
}

#[test]
fn fill_camps_exact_match_partially_filled() {
    let mut board = Board::new_parse(vec![2, 0, 2], vec![2, 0, 2], "CT \nT-T\n TC").unwrap();
    assert!(fill_camps(&mut board));
    assert_eq!(board.debug(), "CTC\nT-T\nCTC");
}

#[test]
fn fill_camps_turns_neighbours_to_grass() {
    let mut board = Board::new_parse(vec![1, 0], vec![0, 1, 0], "T T\n   ").unwrap();
    assert!(fill_camps(&mut board));
    assert_eq!(board.debug(), "TCT\n---");
}

#[test]
fn fill_camps_does_not_put_camps_side_by_side() {
    let mut board = Board::new_parse(vec![2], vec![1, 1], "  ").unwrap();
    assert!(fill_camps(&mut board));
    assert_eq!(board.debug(), "C-");
    assert!(!fill_camps(&mut board));
    assert_eq!(board.debug(), "C-");
}

#[test]
fn fill_camps_second_call_may_go_on() {
    let mut board = Board::new_parse(vec![2], vec![0, 0, 1], "   ").unwrap();
    assert!(fill_camps(&mut board));
    assert_eq!(board.debug(), " -C");
    assert!(fill_camps(&mut board));
    assert_eq!(board.debug(), "C-C");
}

#[test]
fn fill_zeros_0_camps() {
    let mut board = Board::new_parse(vec![0, 1, 1], vec![1, 2, 0], "   \n   \n   ").unwrap();
    assert!(fill_zeros(&mut board));
    assert_eq!(board.debug(), "---\n  -\n  -");
}

#[test]
fn fill_zeros_column_with_a_camp() {
    let mut board = Board::new_parse(vec![1, 2, 1], vec![1, 1, 2], "   \n CC\n   ").unwrap();
    assert!(fill_zeros(&mut board));
    assert_eq!(board.debug(), " - \n-CC\n - ");
}

#[test]
fn fill_zeros_row_with_multiple_camps() {
    let mut board = Board::new_parse(vec![2, 2, 1], vec![2, 2, 2], "C C\n   \n   ").unwrap();
    assert!(fill_zeros(&mut board));
    assert_eq!(board.debug(), "C-C\n   \n   ");
}

#[test]
fn fill_zeros_twice_changes_nothing_more() {
    let mut board = Board::new_parse(vec![1, 2, 1], vec![1, 1, 2], "   \n CC\n   ").unwrap();
    assert!(fill_zeros(&mut board));
    assert!(!fill_zeros(&mut board));
    assert_eq!(board.debug(), " - \n-CC\n - ");
}

#[test]
fn initialize_grass_1() {
    let mut board = Board::new_parse(vec![1, 0, 1], vec![2, 0, 0], " T \nT  \n   ").unwrap();
    assert_eq!(board.debug(), " T \nT  \n   ");
    assert!(initialize_grass(&mut board));
    assert_eq!(board.debug(), " T \nT -\n --");
    assert!(!initialize_grass(&mut board));
    assert_eq!(board.debug(), " T \nT -\n --");
}

#[test]
fn initialize_grass_keeps_the_cells_beside_a_tree() {
    let mut board = Board::new_parse(vec![1, 0, 0], vec![1, 0, 0], " T \n   \n   ").unwrap();
    assert!(initialize_grass(&mut board));
    assert_eq!(board.debug(), " T \n- -\n---");
}

#[test]
fn intersection_one_possibility_is_the_possibility() {
    let grid = Grid::blank(3, 3);
    assert_eq!(intersection(vec![grid.clone()]), grid);
}

#[test]
fn intersection_two_possibilities() {
    let grid1 = Grid::parse(" T \n C-\n-  ").unwrap();
    let grid2 = Grid::parse("CT \n C-\n   ").unwrap();
    assert_eq!(
        intersection(vec![grid1, grid2]),
        Grid::parse(" T \n C-\n   ").unwrap()
    );
}

#[test]
fn intersection_three_possibilities() {
    let grid1 = Grid::parse("-C").unwrap();
    let grid2 = Grid::parse(" C").unwrap();
    let grid3 = Grid::parse("-C").unwrap();
    assert_eq!(
        intersection(vec![grid1, grid2, grid3]),
        Grid::parse(" C").unwrap()
    );
}

#[test]
fn process_intersections_row_deduce_grass_next_row() {
    let mut board = Board::new_parse(
        vec![1, 0, 0, 0, 0],
        vec![1, 0, 1, 0, 0],
        " - --\nT T  \n-    \n     \n     ",
    )
    .unwrap();
    assert_eq!(process_intersections(&mut board), Ok(true));
    assert_eq!(board.debug(), " - --\nT-T  \n-    \n     \n     ");
}

#[test]
fn process_intersections_column_deduce_grass_next_column() {
    let mut board = Board::new_parse(
        vec![1, 0, 1, 0, 0],
        vec![1, 0, 0, 0, 0],
        " T   \n-    \n T   \n-    \n-    ",
    )
    .unwrap();
    assert_eq!(process_intersections(&mut board), Ok(true));
    assert_eq!(board.debug(), " T   \n--   \n T   \n-    \n-    ");
}

#[test]
fn process_intersections_fails_without_a_placement() {
    let mut board = Board::new_parse(vec![2, 0], vec![1, 1], "  \n  ").unwrap();
    assert_eq!(
        process_intersections(&mut board),
        Err("No way to place the camps of a row or column".to_string())
    );
    assert_eq!(board.debug(), "  \n  ");
    let mut over = Board::new_parse(vec![0], vec![1, 0], "C ").unwrap();
    assert!(process_intersections(&mut over).is_err());
    assert_eq!(over.debug(), "C ");
}

#[test]
fn process_intersections_undoes_rows_when_a_column_fails() {
    let mut board = Board::new_parse(vec![1, 0], vec![1, 1], "T \n  ").unwrap();
    assert!(process_intersections(&mut board).is_err());
    assert_eq!(board.debug(), "T \n  ");
    let mut rows_only = Board::new_parse(vec![1, 0], vec![0, 1], "T \n  ").unwrap();
    assert_eq!(process_intersections(&mut rows_only), Ok(true));
    assert_eq!(rows_only.debug(), "TC\n--");
}

#[test]
fn process_intersections_second_call_may_go_on() {
    let mut board =
        Board::new_parse(vec![1, 1, 1], vec![1, 0, 2], "   \n   \n   ").unwrap();
    assert_eq!(process_intersections(&mut board), Ok(true));
    assert_eq!(board.debug(), " -C\n --\n -C");
    assert_eq!(process_intersections(&mut board), Ok(true));
    assert_eq!(board.debug(), "--C\nC--\n--C");
    assert_eq!(process_intersections(&mut board), Ok(false));
    assert_eq!(board.debug(), "--C\nC--\n--C");
}

#[test]
fn process_row_lists_camp_first() {
    let mut found = Vec::new();
    process_row(&mut found, Grid::parse("   \n   ").unwrap(), 1, 0, 0);
    let shown: Vec<String> = found.iter().map(|g| g.debug()).collect();
    assert_eq!(shown, vec!["C- \n-- ", "-C-\n---", " -C\n --"]);
    let mut two = Vec::new();
    process_row(&mut two, Grid::parse("   \n   ").unwrap(), 2, 0, 0);
    let shown: Vec<String> = two.iter().map(|g| g.debug()).collect();
    assert_eq!(shown, vec!["C-C\n---"]);
    let mut none = Vec::new();
    process_row(&mut none, Grid::parse("   \n   ").unwrap(), 3, 0, 0);
    assert!(none.is_empty());
    let mut zero = Vec::new();
    process_row(&mut zero, Grid::parse("   \n   ").unwrap(), 0, 0, 0);
    assert_eq!(zero, vec![Grid::parse("   \n   ").unwrap()]);
}

#[test]
fn process_column_lists_camp_first() {
    let mut found = vec![Grid::blank(1, 1)];
    process_column(&mut found, Grid::parse("  \nT \n  ").unwrap(), 1, 0, 1);
    let shown: Vec<String> = found.iter().map(|g| g.debug()).collect();
    assert_eq!(shown, vec![" ", "-C\nT-\n  ", "--\nTC\n--", "  \nT-\n-C"]);
}

fn within_quota(board: &Board) -> bool {
    (0..board.rows.len()).all(|r| board.count_in_row(r, Tile::Camp) <= board.rows[r])
        && (0..board.columns.len())
            .all(|c| board.count_in_column(c, Tile::Camp) <= board.columns[c])
}

fn unassigned(board: &Board) -> usize {
    (0..board.rows.len())
        .map(|r| board.count_in_row(r, Tile::Unassigned))
        .sum()
}

#[test]
fn rules_keep_the_quotas_of_a_solvable_board() {
    let mut board = Board::new_parse(
        vec![1, 1, 0, 2, 1],
        vec![2, 0, 1, 1, 1],
        "     \n T T \n     \nTT   \n    T",
    )
    .unwrap();
    initialize_grass(&mut board);
    assert!(within_quota(&board));
    for _ in 0..20 {
        fill_zeros(&mut board);
        assert!(within_quota(&board));
        fill_camps(&mut board);
        assert!(within_quota(&board));
        assert!(process_intersections(&mut board).is_ok());
        assert!(within_quota(&board));
        associate_trees(&mut board.grid);
        assert!(within_quota(&board));
    }
    assert_eq!(board.debug(), "---C-\nCT-T-\n-----\nTTC-C\nC---T");
}

#[test]
fn fill_camps_follows_a_row_against_its_column() {
    let mut board = Board::new_parse(vec![1], vec![0], " ").unwrap();
    assert!(within_quota(&board));
    assert!(fill_camps(&mut board));
    assert_eq!(board.debug(), "C");
    assert!(!within_quota(&board));
}

#[test]
fn every_change_leaves_fewer_cells_unassigned() {
    let mut board = Board::new_parse(
        vec![2, 1, 2, 1, 2, 1, 2],
        vec![2, 1, 1, 2, 2, 1, 2],
        " T T T \n   T   \nT      \n   T T \nT      \n  T T T\n       ",
    )
    .unwrap();
    let mut left = unassigned(&board);
    assert_eq!(initialize_grass(&mut board), unassigned(&board) < left);
    left = unassigned(&board);
    for _ in 0..30 {
        assert_eq!(fill_zeros(&mut board), unassigned(&board) < left);
        left = unassigned(&board);
        assert_eq!(fill_camps(&mut board), unassigned(&board) < left);
        left = unassigned(&board);
        assert_eq!(
            process_intersections(&mut board),
            Ok(unassigned(&board) < left)
        );
        left = unassigned(&board);
        assert_eq!(associate_trees(&mut board.grid), unassigned(&board) < left);
        left = unassigned(&board);
    }
    assert_eq!(left, 0);
    assert_eq!(
        board.debug(),
        "-T-TCTC\n-C-T---\nT--C-C-\nC--T-T-\nT--C--C\nC-T-T-T\n--C-C--"
    );
}

#[test]
fn rules_leave_a_solved_board_alone() {
    let text = "---C-\nCT-T-\n-----\nTTC-C\nC---T";
    let mut board =
        Board::new_parse(vec![1, 1, 0, 2, 1], vec![2, 0, 1, 1, 1], text).unwrap();
    assert!(!initialize_grass(&mut board));
    assert!(!fill_zeros(&mut board));
    assert!(!fill_camps(&mut board));
    assert_eq!(process_intersections(&mut board), Ok(false));
    assert!(!associate_trees(&mut board.grid));
    assert_eq!(board.solve(), Ok(()));
    assert_eq!(board.debug(), text);
}

#[test]
fn process_intersections_follows_a_column_against_its_row() {
    let mut board = Board::new_parse(vec![0], vec![1], " ").unwrap();
    assert!(within_quota(&board));
    assert_eq!(process_intersections(&mut board), Ok(true));
    assert_eq!(board.debug(), "C");
    assert!(!within_quota(&board));
}
