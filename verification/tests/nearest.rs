use icfp_spica::nearest::{calc_dist, calc_dist_moves, route_nearest, solve_basic, to_move};

#[test]
fn one_step_leg() {
    assert_eq!(calc_dist((0, 0), (0, 0), (1, 0)), (1, (1, 0)));
    assert_eq!(calc_dist((0, 0), (0, 0), (3, 0)), (2, (2, 0)));
}

#[test]
fn binary_search_settles_where_it_lands() {
    // One step would do, but the search only looks at the midpoints.
    assert_eq!(calc_dist((0, 0), (10, 0), (10, 0)), (18, (-7, 0)));
}

#[test]
fn leg_thrusts_reach_the_target() {
    let mut moves = vec![(9, 9)];
    let r = calc_dist_moves((2, -1), (1, 1), (-5, 7), &mut moves);
    assert_eq!(r, (5, (-2, 2)));
    assert_eq!(moves, vec![(9, 9), (-1, 0), (-1, 0), (-1, 1), (0, 0), (0, 0)]);
    let (mut p, mut v) = ((2i64, -1i64), (1i64, 1i64));
    for a in &moves[1..] {
        v = (v.0 + a.0, v.1 + a.1);
        p = (p.0 + v.0, p.1 + v.1);
    }
    assert_eq!((p, v), ((-5, 7), (-2, 2)));
}

#[test]
fn moves_as_keys() {
    assert_eq!(to_move((-1, -1)), '1');
    assert_eq!(to_move((0, -1)), '2');
    assert_eq!(to_move((-1, 0)), '4');
    assert_eq!(to_move((0, 0)), '5');
    assert_eq!(to_move((1, 1)), '9');
}

#[test]
fn nearest_first_route() {
    let moves = route_nearest(&vec![(1, 0), (3, 0)]).unwrap();
    assert_eq!(moves, vec![(1, 0), (1, 0)]);
    assert_eq!(route_nearest(&vec![]).unwrap(), vec![]);
}

#[test]
fn basic_route_visits_each_point_once() {
    let ps = vec![(5, -3), (0, 2), (1, 1), (-2, 4), (1, 1)];
    assert_eq!(solve_basic(ps).as_deref(), Some("9418533355"));
    assert_eq!(solve_basic(vec![(3, 0), (1, 0), (3, 0)]).as_deref(), Some("66"));
}
