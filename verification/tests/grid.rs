use camps_and_trees::grid::Grid;
use camps_and_trees::tile::Tile;
use camps_and_trees::tile::Tile::{Camp, Grass, Tree, Unassigned};

#[test]
fn parse_grid_test() {
    assert_eq!(
        Grid::parse("TC-\n - \n---"),
        Ok(vec![
            vec![Tree, Camp, Grass],
            vec![Unassigned, Grass, Unassigned],
            vec![Grass, Grass, Grass]
        ]
        .into())
    );
}

#[test]
fn blank_grid_test() {
    assert_eq!(
        Grid::blank(3, 3),
        vec![
            vec![Unassigned, Unassigned, Unassigned],
            vec![Unassigned, Unassigned, Unassigned],
            vec![Unassigned, Unassigned, Unassigned],
        ]
        .into()
    );
}

#[test]
fn grid_debug_test() {
    assert_eq!(
        "TC-\n - \n---",
        Grid::new(vec![
            vec![Tree, Camp, Grass],
            vec![Unassigned, Grass, Unassigned],
            vec![Grass, Grass, Grass]
        ])
        .debug()
    );
}

#[test]
fn is_solved_outright_false() {
    assert!(!Grid::parse(" ").unwrap().is_solved());
}

#[test]
fn is_solved_partial() {
    assert!(!Grid::parse("-CT\n---\n T ").unwrap().is_solved());
}

#[test]
fn is_solved_complete() {
    assert!(Grid::parse("-CT\n---\n-T-").unwrap().is_solved());
}

#[test]
fn count_in_row_test() {
    let grid = Grid::parse("C  \nC  \n   ").unwrap();
    assert_eq!(grid.count_in_row(0, Unassigned), 2);
    assert_eq!(grid.count_in_row(0, Grass), 0);
    assert_eq!(grid.count_in_row(0, Camp), 1);
    assert_eq!(grid.count_in_row(0, Tree), 0);
    assert_eq!(grid.count_in_row(1, Camp), 1);
    assert_eq!(grid.count_in_row(2, Camp), 0);
}

#[test]
fn count_in_column_test() {
    let grid = Grid::parse("C  \nC  \n   ").unwrap();
    assert_eq!(grid.count_in_column(0, Unassigned), 1);
    assert_eq!(grid.count_in_column(0, Grass), 0);
    assert_eq!(grid.count_in_column(0, Camp), 2);
    assert_eq!(grid.count_in_column(0, Tree), 0);
    assert_eq!(grid.count_in_column(1, Camp), 0);
    assert_eq!(grid.count_in_column(2, Camp), 0);
}

#[test]
fn surrounding_tiles_corner() {
    assert_eq!(
        Grid::blank(3, 3).surrounding_tiles(0, 0),
        vec![(0, 1), (1, 0)]
    );
    assert_eq!(
        Grid::blank(3, 3).surrounding_tiles(0, 2),
        vec![(0, 1), (1, 2)]
    );
    assert_eq!(
        Grid::blank(3, 3).surrounding_tiles(2, 0),
        vec![(1, 0), (2, 1)]
    );
    assert_eq!(
        Grid::blank(3, 3).surrounding_tiles(2, 2),
        vec![(1, 2), (2, 1)]
    );
}

#[test]
fn surrounding_tiles_edge() {
    assert_eq!(
        Grid::blank(3, 3).surrounding_tiles(0, 1),
        vec![(0, 0), (0, 2), (1, 1)]
    );
    assert_eq!(
        Grid::blank(3, 3).surrounding_tiles(1, 0),
        vec![(0, 0), (1, 1), (2, 0)]
    );
    assert_eq!(
        Grid::blank(3, 3).surrounding_tiles(1, 2),
        vec![(0, 2), (1, 1), (2, 2)]
    );
    assert_eq!(
        Grid::blank(3, 3).surrounding_tiles(2, 1),
        vec![(1, 1), (2, 0), (2, 2)]
    );
}

#[test]
fn surrounding_tiles_middle() {
    assert_eq!(
        Grid::blank(3, 3).surrounding_tiles(1, 1),
        vec![(0, 1), (1, 0), (1, 2), (2, 1)]
    );
}

#[test]
fn set_camp_test() {
    let mut grid = Grid::parse(" T \nT T\n T ").unwrap();
    assert_eq!(grid.debug(), " T \nT T\n T ");
    assert!(grid.set_camp(0, 0).is_ok());
    assert_eq!(grid.debug(), "CT \nT-T\n T ");
    assert!(grid.set_camp(1, 1).is_err());
    assert_eq!(grid.debug(), "CT \nT-T\n T ");
    assert!(grid.set_camp(0, 2).is_ok());
    assert_eq!(grid.debug(), "CTC\nT-T\n T ");
    assert!(grid.set_camp(1, 1).is_err());
    assert_eq!(grid.debug(), "CTC\nT-T\n T ");
    assert!(grid.set_camp(2, 0).is_ok());
    assert_eq!(grid.debug(), "CTC\nT-T\nCT ");
    assert!(grid.set_camp(2, 0).is_err());
    assert_eq!(grid.debug(), "CTC\nT-T\nCT ");
    assert!(grid.set_camp(2, 2).is_ok());
    assert_eq!(grid.debug(), "CTC\nT-T\nCTC");
}

#[test]
fn set_camp_error_names_the_cell() {
    let mut grid = Grid::parse("C \n  ").unwrap();
    assert_eq!(
        grid.set_camp(1, 1),
        Err("Camps next to each other at row 1, column 1".to_string())
    );
    let mut wide = Grid::blank(1, 120);
    assert!(wide.set_camp(0, 104).is_ok());
    assert_eq!(
        wide.set_camp(0, 105),
        Err("Camps next to each other at row 0, column 105".to_string())
    );
    assert_eq!(wide.get(0, 105), Some(Grass));
}

#[test]
fn set_camp_turns_all_eight_neighbours_to_grass() {
    let mut grid = Grid::blank(5, 5);
    assert_eq!(grid.set_camp(2, 2), Ok(()));
    assert_eq!(grid.debug(), "     \n --- \n -C- \n --- \n     ");
}

#[test]
fn set_camp_keeps_trees_and_grass_beside_it() {
    let mut grid = Grid::parse("T- \n   \n  T").unwrap();
    assert_eq!(grid.set_camp(1, 1), Ok(()));
    assert_eq!(grid.debug(), "T--\n-C-\n--T");
}

#[test]
fn set_camp_refuses_a_camp_at_a_corner() {
    let mut grid = Grid::parse("   \n   \n  C").unwrap();
    assert!(grid.set_camp(1, 1).is_err());
    assert_eq!(grid.debug(), "   \n   \n  C");
    assert_eq!(grid.set_camp(0, 0), Ok(()));
    assert_eq!(grid.debug(), "C- \n-- \n  C");
}

#[test]
fn camps_never_touch_after_placements() {
    let mut grid = Grid::blank(4, 4);
    for row in 0..4 {
        for column in 0..4 {
            let _ = grid.set_camp(row, column);
        }
    }
    assert_eq!(grid.debug(), "C-C-\n----\nC-C-\n----");
    for row in 0..4usize {
        for column in 0..4usize {
            if grid.get(row, column) != Some(Camp) {
                continue;
            }
            for r in row.saturating_sub(1)..=row + 1 {
                for c in column.saturating_sub(1)..=column + 1 {
                    if (r, c) != (row, column) {
                        assert_ne!(grid.get(r, c), Some(Camp));
                    }
                }
            }
        }
    }
}

#[test]
fn get_outside_the_table_is_none() {
    let grid = Grid::parse("TC\n -").unwrap();
    assert_eq!(grid.get(0, 0), Some(Tree));
    assert_eq!(grid.get(1, 1), Some(Grass));
    assert_eq!(grid.at(0, 1), Camp);
    assert_eq!(grid.get(2, 0), None);
    assert_eq!(grid.get(0, 2), None);
}

#[test]
fn sizes_of_tables() {
    assert_eq!(Grid::blank(2, 5).num_rows(), 2);
    assert_eq!(Grid::blank(2, 5).num_columns(), 5);
    assert_eq!(Grid::new(vec![]).num_rows(), 0);
    assert_eq!(Grid::new(vec![]).num_columns(), 0);
    assert_eq!(Grid::parse("").unwrap().num_rows(), 1);
    assert_eq!(Grid::parse("").unwrap().num_columns(), 0);
}

#[test]
fn set_overwrites_one_cell() {
    let mut grid = Grid::blank(2, 2);
    grid.set(1, 0, Tree);
    assert_eq!(grid.debug(), "  \nT ");
}

#[test]
fn clone_and_same() {
    let grid = Grid::parse("TC-\n - \n---").unwrap();
    let copy = grid.clone();
    assert!(grid.same(&copy));
    assert_eq!(copy.debug(), "TC-\n - \n---");
    assert!(!grid.same(&Grid::blank(3, 3)));
    assert!(!grid.same(&Grid::blank(3, 2)));
    assert!(!grid.same(&Grid::blank(2, 3)));
}

#[test]
fn parse_names_the_first_unknown_character() {
    assert_eq!(
        Grid::parse("T x\nqC"),
        Err("Couldn't parse tile: 'x'".to_string())
    );
    assert_eq!(Tile::parse('t'), Err("Couldn't parse tile: 't'".to_string()));
    assert_eq!(Tile::parse('\''), Err("Couldn't parse tile: '''".to_string()));
}

#[test]
fn tile_parse_and_symbol() {
    assert_eq!(Tile::parse(' '), Ok(Unassigned));
    assert_eq!(Tile::parse('-'), Ok(Grass));
    assert_eq!(Tile::parse('C'), Ok(Camp));
    assert_eq!(Tile::parse('T'), Ok(Tree));
    for tile in [Unassigned, Grass, Camp, Tree] {
        assert_eq!(Tile::parse(tile.symbol()), Ok(tile));
    }
}

#[test]
fn text_round_trip() {
    for text in ["", "\n", "T", " T \nT-T\n T ", "C\n\n--", "\n\nT\n", "TT\nC"] {
        assert_eq!(Grid::parse(text).unwrap().debug(), text);
    }
}

#[test]
fn table_round_trip() {
    let grid = Grid::new(vec![vec![Tree], vec![], vec![Camp, Grass]]);
    assert_eq!(grid.debug(), "T\n\nC-");
    assert_eq!(Grid::parse(&grid.debug()), Ok(grid));
}
