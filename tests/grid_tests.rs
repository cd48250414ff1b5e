use gridwalk::grid::{Grid, GridError, Offset, Position};
use gridwalk::parse::MapError;
use gridwalk::square::Square;

fn pos(x: usize, y: usize) -> Position {
    Position { x, y }
}

#[test]
fn glyphs_round_trip() {
    for s in [Square::Empty, Square::Wall, Square::SpawnPoint, Square::Destination] {
        assert_eq!(Square::fr_char(s.to_char()), Some(s));
    }
    assert_eq!(Square::Wall.to_char(), '#');
    assert_eq!(Square::Destination.to_char(), '$');
    assert_eq!(Square::fr_char('^'), Some(Square::SpawnPoint));
    assert_eq!(Square::fr_char('x'), None);
}

#[test]
fn short_lines_are_padded() {
    let g = Grid::new("#\n## $\n^").unwrap();
    assert_eq!(g.width(), 4);
    assert_eq!(g.height(), 3);
    for row in g.rows.iter() {
        assert_eq!(row.len(), 4);
    }
    assert_eq!(g.square_at(pos(0, 0)), Square::Wall);
    assert_eq!(g.square_at(pos(3, 0)), Square::Empty);
    assert_eq!(g.square_at(pos(3, 1)), Square::Destination);
    assert_eq!(g.square_at(pos(0, 2)), Square::SpawnPoint);
    assert_eq!(g.square_at(pos(1, 2)), Square::Empty);
}

#[test]
fn empty_lines_are_skipped() {
    let g = Grid::new("\n\n# #\n\n$\n").unwrap();
    assert_eq!(g.height(), 2);
    assert_eq!(g.width(), 3);
    assert_eq!(g.square_at(pos(0, 1)), Square::Destination);
}

#[test]
fn empty_description_is_rejected() {
    assert!(matches!(Grid::new(""), Err(MapError::EmptyMap)));
    assert!(matches!(Grid::new("\n\n\n"), Err(MapError::EmptyMap)));
}

#[test]
fn unknown_glyph_is_rejected_with_its_place() {
    match Grid::new("\n# #\n #x$\n") {
        Err(MapError::InvalidMapCharacter { ch, column, row }) => {
            assert_eq!(ch, 'x');
            assert_eq!(column, 2);
            assert_eq!(row, 1);
        }
        _ => panic!("expected an invalid character"),
    }
    assert!(matches!(
        Grid::new("ab"),
        Err(MapError::InvalidMapCharacter { ch: 'a', column: 0, row: 0 })
    ));
}

#[test]
fn bounds_include_row_and_column_zero() {
    let g = Grid::new("   \n   ").unwrap();
    assert!(g.in_bounds(0, 0));
    assert!(g.in_bounds(2, 1));
    assert!(g.in_bounds(0, 1));
    assert!(!g.in_bounds(-1, 0));
    assert!(!g.in_bounds(0, -1));
    assert!(!g.in_bounds(3, 0));
    assert!(!g.in_bounds(0, 2));
}

#[test]
fn terrain_outside_is_an_error() {
    let g = Grid::new("#$").unwrap();
    assert_eq!(g.terrain_at(pos(1, 0)), Ok(Square::Destination));
    assert_eq!(g.terrain_at(pos(2, 0)), Err(GridError::OutOfBounds));
    assert_eq!(g.terrain_at(pos(0, 1)), Err(GridError::OutOfBounds));
}

#[test]
fn four_neighbors_come_down_right_left_up() {
    let g = Grid::new("   \n   \n   ").unwrap();
    assert_eq!(g.neighbors_4(pos(1, 1)), vec![pos(1, 2), pos(2, 1), pos(0, 1), pos(1, 0)]);
    assert_eq!(g.neighbors_4(pos(0, 0)), vec![pos(0, 1), pos(1, 0)]);
    assert_eq!(g.neighbors_4(pos(2, 2)), vec![pos(1, 2), pos(2, 1)]);
}

#[test]
fn eight_neighbors_add_diagonals() {
    let g = Grid::new("   \n   \n   ").unwrap();
    let n = g.neighbors_8(pos(1, 1));
    assert_eq!(n.len(), 8);
    assert_eq!(&n[4..], &[pos(2, 2), pos(2, 0), pos(0, 2), pos(0, 0)]);
    assert_eq!(g.neighbors_8(pos(0, 0)), vec![pos(0, 1), pos(1, 0), pos(1, 1)]);
}

#[test]
fn custom_offsets_keep_their_order() {
    let g = Grid::new("    ").unwrap();
    let offs = [Offset { dx: 3, dy: 0 }, Offset { dx: -1, dy: 0 }, Offset { dx: 1, dy: 0 }];
    assert_eq!(g.neighbors_offsets(pos(0, 0), &offs), vec![pos(3, 0), pos(1, 0)]);
}
