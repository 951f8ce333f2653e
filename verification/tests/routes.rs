use icfp_spica::plan::{solve_greedy, solve_greedy_checked, solve_la1, solve_la2};
use icfp_spica::spaceship::{decode_thrust_from_keypad, simulate};

fn visits_in_order(keys: &str, cps: &[(i32, i32)]) -> bool {
    let thrusts = decode_thrust_from_keypad(keys);
    let trajectory = simulate((0, 0), (0, 0), &thrusts);
    let mut next = 0;
    for (p, _v) in &trajectory {
        if next < cps.len() && *p == cps[next] {
            next += 1;
        }
    }
    next == cps.len() && trajectory.last().map(|s| s.0) == cps.last().copied()
}

#[test]
fn greedy_route_to_one_point() {
    assert_eq!(solve_greedy(&vec![(1, 0)]), "6");
    assert_eq!(solve_la1(&vec![(1, 0)], 3), "6");
    assert_eq!(solve_la2(&vec![(1, 0)], 3), "6");
}

#[test]
fn routes_pass_the_checkpoints_in_order() {
    let cps = vec![(1, 0), (3, 2), (-2, 4), (0, 0), (5, -5)];
    let g = solve_greedy(&cps);
    assert!(visits_in_order(&g, &cps));
    let l1 = solve_la1(&cps, 4);
    assert!(visits_in_order(&l1, &cps));
    let l2 = solve_la2(&cps, 4);
    assert!(visits_in_order(&l2, &cps));
}

#[test]
fn greedy_checked_front() {
    let cps = vec![(1, 0), (3, 2), (-2, 5)];
    assert_eq!(solve_greedy_checked(&cps), Some(solve_greedy(&cps)));
    assert_eq!(solve_greedy_checked(&vec![]), Some(String::new()));
    // a leg whose distance leaves i32
    assert_eq!(solve_greedy_checked(&vec![(i32::MIN, 0), (i32::MAX, 0)]), None);
}
