use icfp_spica::lasolver::{solve, solve_lookahead, solve_lookahead_impl, SearchError};
use icfp_spica::resolve::local_opt_resovle3pt;
use icfp_spica::spaceship::{decode_thrust_from_keypad, simulate};

fn end_of(p: (i32, i32), v: (i32, i32), a: &Vec<(i32, i32)>) -> ((i32, i32), (i32, i32)) {
    match simulate(p, v, a).last() {
        Some(x) => *x,
        None => (p, v),
    }
}

fn visits(s: &str, points: &[(i32, i32)]) -> bool {
    let thrusts = decode_thrust_from_keypad(s);
    let traj = simulate((0, 0), (0, 0), &thrusts);
    let mut k = 0;
    let mut pos = (0, 0);
    let mut t = 0;
    while k < points.len() {
        if pos == points[k] {
            k += 1;
        } else if t < traj.len() {
            pos = traj[t].0;
            t += 1;
        } else {
            return false;
        }
    }
    true
}

#[test]
fn lookahead_reaches_middle_then_end() {
    let (a, b, v) = solve_lookahead_impl((0, 0), (0, 0), (3, 0), (5, 2), false).unwrap();
    assert!(a.iter().chain(b.iter()).all(|t| t.0.abs() <= 1 && t.1.abs() <= 1));
    assert_eq!(end_of((0, 0), (0, 0), &a), ((3, 0), v));
    assert_eq!(end_of((3, 0), v, &b).0, (5, 2));
    // the middle point is first reached at the end of `a`
    assert!(simulate((0, 0), (0, 0), &a).iter().filter(|s| s.0 == (3, 0)).count() == 1);
}

#[test]
fn lookahead_with_middle_as_end() {
    let (a, b, v) = solve_lookahead_impl((1, 1), (1, 0), (-2, 4), (-2, 4), true).unwrap();
    assert_eq!(end_of((1, 1), (1, 0), &a), ((-2, 4), v));
    assert!(b.is_empty());
}

#[test]
fn lookahead_memo_is_reused_by_offset() {
    let mut memo = Vec::new();
    let (a1, _, v1) = solve_lookahead((0, 0), (0, 0), (4, 1), (6, 0), &mut memo).unwrap();
    assert_eq!(memo.len(), 1);
    let (a2, _, v2) = solve_lookahead((10, 10), (0, 0), (14, 11), (16, 10), &mut memo).unwrap();
    assert_eq!(memo.len(), 1);
    assert_eq!(a1, a2);
    assert_eq!(v1, v2);
    assert_eq!(end_of((10, 10), (0, 0), &a2), ((14, 11), v2));
}

#[test]
fn search_error_kinds_differ() {
    assert_ne!(SearchError::TooLarge, SearchError::Exhausted);
}

#[test]
fn solve_visits_points_in_order() {
    let points = vec![(1, 0), (3, 1), (3, 1), (0, -2), (5, 5)];
    let s = solve(points.clone()).unwrap();
    assert!(s.chars().all(|c| ('1'..='9').contains(&c)));
    assert!(visits(&s, &points));
}

#[test]
fn solve_far_point_uses_fallback() {
    let points = vec![(1500, -40)];
    let s = solve(points.clone()).unwrap();
    assert!(visits(&s, &points));
    let thrusts = decode_thrust_from_keypad(&s);
    assert_eq!(end_of((0, 0), (0, 0), &thrusts), ((1500, -40), (0, 0)));
}

#[test]
fn solve_single_origin_point() {
    assert_eq!(solve(vec![(0, 0)]).unwrap(), "");
}

#[test]
fn resolve_three_points() {
    // rest at the origin, through (1, 0), to rest at (2, 0): three steps at
    // least, the first leg ending with velocity (1, 0)
    assert_eq!(local_opt_resovle3pt((0, 0), (0, 0), (1, 0), (2, 0), (0, 0), 10), Some(((1, 0), 1, 2)));
    assert_eq!(local_opt_resovle3pt((0, 0), (0, 0), (1, 0), (2, 0), (0, 0), 3), None);
}

#[test]
fn box_search_visits_every_point() {
    let points: Vec<(i64, i64)> = vec![(1, 0), (2, 2), (-1, 1)];
    let s = icfp_spica::box_search::solve15(points.clone()).unwrap();
    let thrusts = decode_thrust_from_keypad(&s);
    let traj = simulate((0, 0), (0, 0), &thrusts);
    for p in &points {
        assert!(traj.iter().any(|st| (st.0 .0 as i64, st.0 .1 as i64) == *p));
    }
}

#[test]
fn box_search_empty_list_is_empty_route() {
    assert_eq!(icfp_spica::box_search::solve15(vec![]), Some(String::new()));
}

#[test]
fn lookahead_solve_visits_in_order() {
    let points: Vec<(i32, i32)> = vec![(3, 0), (3, 4), (-2, 4)];
    let s = icfp_spica::lasolver::solve(points.clone()).unwrap();
    let thrusts = decode_thrust_from_keypad(&s);
    let traj = simulate((0, 0), (0, 0), &thrusts);
    let mut next = 0;
    for st in &traj {
        if next < points.len() && (st.0 .0, st.0 .1) == points[next] {
            next += 1;
        }
    }
    assert_eq!(next, points.len());
}

#[test]
fn lookahead_solve_far_points_by_fallback() {
    let points: Vec<(i32, i32)> = vec![(3000, -20), (3000, 2500)];
    let s = icfp_spica::lasolver::solve(points.clone()).unwrap();
    let thrusts = decode_thrust_from_keypad(&s);
    let traj = simulate((0, 0), (0, 0), &thrusts);
    let mut next = 0;
    for st in &traj {
        if next < points.len() && (st.0 .0, st.0 .1) == points[next] {
            next += 1;
        }
    }
    assert_eq!(next, points.len());
}
