use icfp_spica::lookahead::{
    calc_additional_estimate, delta, solve_fallback, solve_fallback_checked, solve_fallback_singleaxis,
    solve_fallback_singleaxis_checked,
};
use icfp_spica::plan::{
    actualize_visit_plan, generate_accelerate_seqs, generate_visit_plan, generate_visit_plan_checked, plans_exist,
    visit_point, visit_point_checked,
};
use icfp_spica::spaceship::{
    decode_thrust_from_keypad, encode_thrust_into_keypad, get_available_vrange,
    get_first_available_t, get_first_available_t_checked, get_num_completed_pyramid_size, get_oneaxis_available_xs,
    get_pyramid_area, in_range, simulate, surrogate_cost, surrogate_cost_with_velocity,
};
use icfp_spica::trivial;

#[test]
fn test_encode_thrust() {
    assert_eq!(
        encode_thrust_into_keypad(vec![(-1, 1), (0, 0), (1, 0)]),
        "756"
    );
}

#[test]
fn main_test_encode_thrust() {
    assert_eq!(
        encode_thrust_into_keypad(vec![(-1, 1), (0, 0), (1, 0)]),
        "756"
    );
}

#[test]
fn test_decode_thrust() {
    assert_eq!(
        decode_thrust_from_keypad("756"),
        vec![(-1, 1), (0, 0), (1, 0)]
    );
}

#[test]
fn main_test_decode_thrust() {
    assert_eq!(
        decode_thrust_from_keypad("756"),
        vec![(-1, 1), (0, 0), (1, 0)]
    );
}

#[test]
fn test_simulate() {
    let thrusts = decode_thrust_from_keypad("236659");
    let expected_points = [(0, -1), (1, -3), (3, -5), (6, -7), (9, -9), (13, -10)];
    let res = simulate((0, 0), (0, 0), &thrusts);
    let posres: Vec<(i32, i32)> = res.into_iter().map(|x| x.0).collect();
    assert_eq!(posres, expected_points);
}

#[test]
fn main_test_simulate() {
    let thrusts = decode_thrust_from_keypad("236659");
    let expected_points = [(0, -1), (1, -3), (3, -5), (6, -7), (9, -9), (13, -10)];
    let res = simulate((0, 0), (0, 0), &thrusts);
    let posres: Vec<(i32, i32)> = res.into_iter().map(|x| x.0).collect();
    assert_eq!(posres, expected_points);
}

#[test]
fn test_axis_v0() {
    assert_eq!(get_oneaxis_available_xs(0, 0), (0, 0));
    assert_eq!(get_oneaxis_available_xs(0, 1), (-1, 1));
    assert_eq!(get_oneaxis_available_xs(0, 2), (-3, 3));
}

#[test]
fn test_axis_v1() {
    assert_eq!(get_oneaxis_available_xs(1, 0), (0, 0));
    assert_eq!(get_oneaxis_available_xs(1, 1), (0, 2));
    assert_eq!(get_oneaxis_available_xs(1, 2), (-1, 5));
}

#[test]
fn test_first_available() {
    assert_eq!(get_first_available_t(0, 0), 0);
    assert_eq!(get_first_available_t(1, 0), 1);
    assert_eq!(get_first_available_t(-1, 0), 1);
    assert_eq!(get_first_available_t(2, 0), 2);
    assert_eq!(get_first_available_t(3, 0), 2);
    assert_eq!(get_first_available_t(4, 0), 3);
    assert_eq!(get_first_available_t(5, 0), 3);
    assert_eq!(get_first_available_t(6, 0), 3);
    assert_eq!(get_first_available_t(-4, 0), 3);
    assert_eq!(get_first_available_t(-5, 0), 3);
    assert_eq!(get_first_available_t(-6, 0), 3);
    assert_eq!(get_first_available_t(-6, 0), 3);
    assert_eq!(get_first_available_t(0, 1), 0);
    assert_eq!(get_first_available_t(1, 1), 1);
    assert_eq!(get_first_available_t(2, 1), 1);
    assert_eq!(get_first_available_t(3, 1), 2);
    assert_eq!(get_first_available_t(4, 1), 2);
    assert_eq!(get_first_available_t(-1, 1), 2);
}

#[test]
fn test_pyramid_num() {
    assert_eq!(get_pyramid_area(0), 0);
    assert_eq!(get_pyramid_area(1), 1);
    assert_eq!(get_pyramid_area(2), 2);
    assert_eq!(get_pyramid_area(3), 4);
    assert_eq!(get_pyramid_area(4), 6);
    assert_eq!(get_pyramid_area(5), 9);
    assert_eq!(get_pyramid_area(6), 12);
}

#[test]
fn test_inv_pyramid_num() {
    assert_eq!(get_num_completed_pyramid_size(0), 0);
    assert_eq!(get_num_completed_pyramid_size(1), 1);
    assert_eq!(get_num_completed_pyramid_size(2), 2);
    assert_eq!(get_num_completed_pyramid_size(3), 2);
    assert_eq!(get_num_completed_pyramid_size(4), 3);
    assert_eq!(get_num_completed_pyramid_size(5), 3);
    assert_eq!(get_num_completed_pyramid_size(6), 4);
    assert_eq!(get_num_completed_pyramid_size(7), 4);
    assert_eq!(get_num_completed_pyramid_size(8), 4);
    assert_eq!(get_num_completed_pyramid_size(9), 5);
    assert_eq!(get_num_completed_pyramid_size(10), 5);
    assert_eq!(get_num_completed_pyramid_size(11), 5);
    assert_eq!(get_num_completed_pyramid_size(12), 6);
}

#[test]
fn pyramid_size_of_negative_area() {
    assert_eq!(get_num_completed_pyramid_size(-1), -2);
    assert_eq!(get_num_completed_pyramid_size(-100), -2);
    assert_eq!(get_num_completed_pyramid_size(1_000_000), 1999);
}

#[test]
fn test_vrange() {
    assert_eq!(get_available_vrange(0, 0, 0), Some((0, 0)));
    assert_eq!(get_available_vrange(0, 0, 1), Some((0, 0)));
    assert_eq!(get_available_vrange(0, 0, 2), Some((0, 0)));
    assert_eq!(get_available_vrange(0, 1, 0), Some((1, 1)));
    assert_eq!(get_available_vrange(0, 1, 1), Some((0, 0)));
    assert_eq!(get_available_vrange(0, 1, 2), Some((0, 0)));
}

#[test]
fn vrange_unreachable() {
    assert_eq!(get_available_vrange(5, 0, 2), None);
    assert_eq!(get_available_vrange(-4, 0, 2), None);
    assert_eq!(get_available_vrange(3, 0, 2), Some((2, 2)));
}

#[test]
fn test_generate() {
    assert_eq!(generate_accelerate_seqs(1, 0, 2, 5), vec![-1, 0, 1, 1, 1]);
    assert_eq!(generate_accelerate_seqs(2, 0, 2, 5), vec![0, -1, 1, 1, 1]);
    assert_eq!(generate_accelerate_seqs(3, 0, 2, 5), vec![0, 0, 0, 1, 1]);
    assert_eq!(generate_accelerate_seqs(4, 0, 2, 5), vec![1, -1, 0, 1, 1]);
    assert_eq!(generate_accelerate_seqs(15, 0, 5, 5), vec![1, 1, 1, 1, 1]);
    assert_eq!(generate_accelerate_seqs(14, 0, 4, 5), vec![1, 1, 1, 1, 0]);
    assert_eq!(
        generate_accelerate_seqs(-15, 0, -5, 5),
        vec![-1, -1, -1, -1, -1]
    );
    assert_eq!(
        generate_accelerate_seqs(0, 0, 2, 6),
        vec![-1, 0, 0, 1, 1, 1]
    );
    assert_eq!(
        generate_accelerate_seqs(-1, 0, 2, 6),
        vec![-1, -1, 1, 1, 1, 1]
    );
    assert_eq!(
        generate_accelerate_seqs(1, 0, 2, 6),
        vec![0, -1, 0, 1, 1, 1]
    );
    assert_eq!(
        generate_accelerate_seqs(2, 0, 2, 6),
        vec![0, 0, -1, 1, 1, 1]
    );
    assert_eq!(
        generate_accelerate_seqs(3, 0, 2, 6),
        vec![1, -1, -1, 1, 1, 1]
    );
}

#[test]
fn test_generate_plan() {
    let curp = (1, 2);
    let curv = (-2, 1);
    let targetpt = (12, 10);
    let plan = generate_visit_plan(curp, curv, targetpt, 10);
    assert!(plan.len() >= 10);
    for (t, targetv) in plan {
        let accl = actualize_visit_plan(curp, curv, targetpt, targetv, t);
        let rres = simulate(curp, curv, &accl);
        assert!(rres.len() == t as usize);
        assert_eq!(rres.last().unwrap().0, targetpt);
        assert_eq!(rres.last().unwrap().1, targetv);
    }
}

#[test]
fn visit_point_reaches_target() {
    let (accl, vend) = visit_point((0, 0), (0, 0), (5, -3));
    let res = simulate((0, 0), (0, 0), &accl);
    assert_eq!(res.last().unwrap().0, (5, -3));
    assert_eq!(res.last().unwrap().1, vend);
    // three steps are the fewest that cover five (1 + 2 + 3)
    assert_eq!(accl.len(), 3);
}

#[test]
fn costs() {
    assert_eq!(surrogate_cost((1, 2), (4, -6)), 8);
    // heading towards the goal at speed 2: 10 / 2
    assert_eq!(surrogate_cost_with_velocity((0, 0), (2, 0), (10, 0)), 5);
    // heading away at speed 3: 10 + 3 * 3 + 1
    assert_eq!(surrogate_cost_with_velocity((0, 0), (-3, 0), (10, 0)), 20);
    // standing still counts as heading there in one variant only
    assert_eq!(surrogate_cost_with_velocity((0, 0), (0, 0), (0, 7)), 7);
    assert_eq!(trivial::surrogate_cost_with_velocity((0, 0), (0, 0), (0, 7)), 8);
    assert_eq!(trivial::velloss((1, 5), (-2, 3)), 3);
    assert_eq!(trivial::calc_additional_estimate((0, 0), (2, 2), (10, 4)), 5);
    assert_eq!(calc_additional_estimate((0, 0), (1, 1), true, (3, 3), (6, 6)), 6);
    assert_eq!(calc_additional_estimate((0, 0), (1, 1), false, (3, 3), (6, 6)), 6);
    assert_eq!(delta((5, 7), (2, 9)), (3, -2));
    assert!(in_range(3, (1, 3)));
    assert!(!in_range(4, (1, 3)));
}

#[test]
fn fallback_moves_rest_to_rest() {
    assert_eq!(solve_fallback_singleaxis(0, 0), Vec::<i32>::new());
    assert_eq!(solve_fallback_singleaxis(0, 1), vec![1, -1]);
    assert_eq!(solve_fallback_singleaxis(0, 4), vec![1, 1, -1, -1]);
    assert_eq!(solve_fallback_singleaxis(0, 3), vec![1, 0, 0, -1]);
    assert_eq!(solve_fallback_singleaxis(10, 4), vec![-1, -1, 0, 1, 1]);
    let accs = solve_fallback((3, -2), (40, 17));
    let res = simulate((3, -2), (0, 0), &accs);
    assert_eq!(res.last().unwrap().0, (40, 17));
    assert_eq!(res.last().unwrap().1, (0, 0));
}

#[test]
fn first_available_checked() {
    assert_eq!(get_first_available_t_checked(0, 0), Some(0));
    assert_eq!(get_first_available_t_checked(10, 0), Some(4));
    assert_eq!(get_first_available_t_checked(10, 0), Some(get_first_available_t(10, 0)));
    // the arithmetic overflows long before such a distance against this speed
    assert_eq!(get_first_available_t_checked(i32::MIN, i32::MAX), None);
}

#[test]
fn fallback_checked_fronts() {
    assert_eq!(solve_fallback_singleaxis_checked(0, 3), Some(solve_fallback_singleaxis(0, 3)));
    assert_eq!(solve_fallback_singleaxis_checked(0, 0), Some(vec![]));
    assert_eq!(solve_fallback_singleaxis_checked(-1_000_000_000, 1_000_000_000), None);
    assert_eq!(solve_fallback_checked((0, 0), (3, -2)), Some(solve_fallback((0, 0), (3, -2))));
    assert_eq!(solve_fallback_checked((0, 0), (0, 2_000_000_000)), None);
    let plan = solve_fallback_checked((1, 1), (4, -1)).unwrap();
    let end = simulate((1, 1), (0, 0), &plan).last().copied().unwrap();
    assert_eq!(end, ((4, -1), (0, 0)));
}

#[test]
fn visit_plan_checked_fronts() {
    assert!(plans_exist(5, -3, (0, 0), 10));
    assert_eq!(generate_visit_plan_checked((0, 0), (0, 0), (5, -3), 10), Some(generate_visit_plan((0, 0), (0, 0), (5, -3), 10)));
    assert_eq!(visit_point_checked((0, 0), (0, 0), (5, -3)), Some(visit_point((0, 0), (0, 0), (5, -3))));
    // a target beyond i32 reach of the start
    assert_eq!(visit_point_checked((-2_000_000_000, 0), (0, 0), (2_000_000_000, 0)), None);
    // far too fast to plan within i32
    assert!(!plans_exist(0, 0, (i32::MAX, 0), 1));
    assert_eq!(generate_visit_plan_checked((0, 0), (i32::MAX, 0), (0, 0), 1000), None);
}
