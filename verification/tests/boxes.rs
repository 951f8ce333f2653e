use icfp_spica::bignum::BigNum;
use icfp_spica::boxes::{bfs, find_boxes};
use icfp_spica::planar::{Cell, State};

fn zero() -> BigNum {
    BigNum { negative: false, magnitude: vec![] }
}

fn grid(rows: &[&str]) -> Vec<Vec<Cell>> {
    rows.iter()
        .map(|r| r.split_whitespace().map(|w| Cell::from_str(w).unwrap()).collect())
        .collect()
}

#[test]
fn groups_and_their_rectangles() {
    let board = grid(&["1 + .", ". . ^", ". . v"]);
    let mut visited = vec![vec![false; 3]; 3];
    assert_eq!(bfs(&board, &mut visited, 0, 0), (0, 0, 2, 1));
    assert_eq!(
        visited,
        vec![vec![true, true, true], vec![false, true, false], vec![false, false, false]]
    );
    assert_eq!(bfs(&board, &mut visited, 0, 1), (0, 1, 0, 1));
    assert_eq!(bfs(&board, &mut visited, 2, 1), (2, 1, 2, 2));
    assert_eq!(visited[2], vec![false, false, true]);
}

#[test]
fn flood_stops_at_marked_cells() {
    let board = grid(&["< . >", ". . ."]);
    let mut visited = vec![vec![false, true, false], vec![false; 3]];
    assert_eq!(bfs(&board, &mut visited, 0, 0), (0, 0, 0, 0));
    assert_eq!(visited[0], vec![true, true, false]);
}

#[test]
fn boxes_of_a_board() {
    let state = State::new("1 + .\n. . .", zero(), zero()).unwrap();
    assert_eq!(find_boxes(&state), vec![(0, 0, 0, 0)]);
}
