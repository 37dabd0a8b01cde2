use game2048::board::{Field, Grid, ScoreOverflow, TileColor};

#[test]
fn new_grid_is_empty_and_linked() {
    let grid = Grid::new();
    assert_eq!(grid.fields.len(), 16);
    assert!(grid.is_linked());
    assert!(grid.fields.iter().all(|field| field.val == 0));
    assert_eq!(grid.values(), vec![0u64; 16]);
}

#[test]
fn adjacency_follows_rows_and_columns() {
    let grid = Grid::new();
    // order: up, right, down, left
    assert_eq!(grid.fields[0].neighbours, [None, Some(1), Some(4), None]);
    assert_eq!(grid.fields[3].neighbours, [None, None, Some(7), Some(2)]);
    assert_eq!(grid.fields[5].neighbours, [Some(1), Some(6), Some(9), Some(4)]);
    assert_eq!(grid.fields[8].neighbours, [Some(4), Some(9), Some(12), None]);
    assert_eq!(grid.fields[12].neighbours, [Some(8), Some(13), None, None]);
    assert_eq!(grid.fields[15].neighbours, [Some(11), None, None, Some(14)]);
}

#[test]
fn every_tile_stores_the_adjacency_of_its_place() {
    let grid = Grid::new();
    for index in 0..16usize {
        let row = index / 4;
        let column = index % 4;
        let up = if row > 0 { Some(index - 4) } else { None };
        let down = if row < 3 { Some(index + 4) } else { None };
        let left = if column > 0 { Some(index - 1) } else { None };
        let right = if column < 3 { Some(index + 1) } else { None };
        assert_eq!(grid.fields[index].neighbours, [up, right, down, left]);
    }
}

#[test]
fn corner_has_no_outward_neighbour() {
    let grid = Grid::new();
    assert_eq!(grid.fields[0].neighbours[0], None);
    assert_eq!(grid.fields[0].neighbours[3], None);
}

#[test]
fn broken_boards_are_told_apart() {
    let mut short = Grid::new();
    short.fields.pop();
    assert!(!short.is_linked());

    let mut bent = Grid::new();
    bent.fields[6].neighbours[1] = Some(8);
    assert!(!bent.is_linked());

    let mut cut = Grid::new();
    cut.fields[6].neighbours[2] = None;
    assert!(!cut.is_linked());

    let mut grown = Grid::new();
    grown.fields[3].neighbours[1] = Some(4);
    assert!(!grown.is_linked());
}

#[test]
fn values_are_read_and_written_by_index() {
    let mut grid = Grid::new();
    grid.set_value(0, 2);
    grid.set_value(15, 1024);
    assert_eq!(grid.value(0), 2);
    assert_eq!(grid.value(1), 0);
    assert_eq!(grid.value(15), 1024);
    let mut expected = vec![0u64; 16];
    expected[0] = 2;
    expected[15] = 1024;
    assert_eq!(grid.values(), expected);
    assert!(grid.is_linked());
}

#[test]
fn new_field_is_empty_and_unlinked() {
    let field = Field::new();
    assert_eq!(field.val, 0);
    assert_eq!(field.neighbours, [None, None, None, None]);
}

#[test]
fn a_tile_takes_in_an_equal_one_or_fills_an_empty_cell() {
    let mut field = Field::new();
    assert!(field.check_for_merge(0));
    assert!(field.check_for_merge(2));
    assert!(field.check_for_merge(u64::MAX));
    field.val = 4;
    assert!(field.check_for_merge(4));
    assert!(!field.check_for_merge(2));
    assert!(!field.check_for_merge(8));
    assert!(!field.check_for_merge(0));
}

#[test]
fn merge_sums_the_values_and_scores_the_sum() {
    let mut field = Field::new();
    field.val = 4;
    let mut score = 10u64;
    assert_eq!(field.merge(4, &mut score), Ok(()));
    assert_eq!(field.val, 8);
    assert_eq!(score, 18);
}

#[test]
fn merge_into_an_empty_cell_scores_the_moved_value() {
    let mut field = Field::new();
    let mut score = 0u64;
    assert_eq!(field.merge(2, &mut score), Ok(()));
    assert_eq!(field.val, 2);
    assert_eq!(score, 2);
}

#[test]
fn merge_keeps_the_adjacency() {
    let mut grid = Grid::new();
    let mut score = 0u64;
    let before = grid.fields[5].neighbours;
    assert_eq!(grid.fields[5].merge(2, &mut score), Ok(()));
    assert_eq!(grid.fields[5].neighbours, before);
}

#[test]
fn merge_is_refused_when_the_value_does_not_fit() {
    let mut field = Field::new();
    field.val = u64::MAX;
    let mut score = 0u64;
    assert_eq!(field.merge(1, &mut score), Err(ScoreOverflow));
    assert_eq!(field.val, u64::MAX);
    assert_eq!(score, 0);
}

#[test]
fn merge_is_refused_when_the_score_does_not_fit() {
    let mut field = Field::new();
    field.val = 2;
    let mut score = u64::MAX - 3;
    assert_eq!(field.merge(2, &mut score), Err(ScoreOverflow));
    assert_eq!(field.val, 2);
    assert_eq!(score, u64::MAX - 3);
}

#[test]
fn merge_fills_the_score_to_the_brim() {
    let mut field = Field::new();
    field.val = 2;
    let mut score = u64::MAX - 4;
    assert_eq!(field.merge(2, &mut score), Ok(()));
    assert_eq!(field.val, 4);
    assert_eq!(score, u64::MAX);
}

#[test]
fn colours_follow_the_value() {
    let table: [(u64, TileColor); 13] = [
        (0, TileColor::Black),
        (2, TileColor::LightYellow),
        (4, TileColor::Gray),
        (8, TileColor::Blue),
        (16, TileColor::Green),
        (32, TileColor::Yellow),
        (64, TileColor::Red),
        (128, TileColor::Cyan),
        (256, TileColor::LightMagenta),
        (512, TileColor::Magenta),
        (1024, TileColor::LightBlue),
        (2024, TileColor::Rgb(255, 0, 255)),
        (2048, TileColor::DarkGray),
    ];
    for (val, color) in table {
        let mut field = Field::new();
        field.val = val;
        assert_eq!(field.get_color(), color);
    }
    let mut odd = Field::new();
    odd.val = 6;
    assert_eq!(odd.get_color(), TileColor::DarkGray);
    odd.val = u64::MAX;
    assert_eq!(odd.get_color(), TileColor::DarkGray);
}
