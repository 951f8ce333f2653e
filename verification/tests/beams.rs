use icfp_spica::beamsearch::{select_beam, BeamState};

fn st(num_steps: i64, vx: i32, vy: i32, prev_index: usize) -> BeamState {
    BeamState { num_steps, vx, vy, prev_index }
}

fn fields(r: &[BeamState]) -> Vec<(i64, i32, i32, usize)> {
    r.iter().map(|b| (b.num_steps, b.vx, b.vy, b.prev_index)).collect()
}

#[test]
fn beam_keeps_first_of_each_key_in_order() {
    let c = vec![st(5, 1, 0, 0), st(3, 2, -1, 1), st(3, 1, 1, 2), st(5, 1, 0, 3), st(3, -1, 1, 4)];
    let r = select_beam(&c);
    assert_eq!(fields(&r), vec![(3, -1, 1, 4), (3, 1, 1, 2), (3, 2, -1, 1), (5, 1, 0, 0)]);
}

#[test]
fn beam_is_cut_to_its_width() {
    let c: Vec<BeamState> = (0..1005).rev().map(|k| st(k as i64, 0, 0, k)).collect();
    let r = select_beam(&c);
    assert_eq!(r.len(), 1000);
    assert_eq!(fields(&r[..1]), vec![(0, 0, 0, 0)]);
    assert_eq!(fields(&r[999..]), vec![(999, 0, 0, 999)]);
}

#[test]
fn beam_of_nothing_is_empty() {
    assert!(select_beam(&vec![]).is_empty());
}

#[test]
fn states_equal_whatever_they_came_from() {
    assert!(st(1, 0, 2, 3) == st(1, 0, 2, 7));
    assert!(st(1, 0, 2, 3) != st(1, 1, 2, 3));
}
