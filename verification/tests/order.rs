use icfp_spica::order::greedy_initial_solution;

#[test]
fn nearest_point_next() {
    assert_eq!(greedy_initial_solution(vec![(5, 5), (1, 0), (1, 1), (-3, 2)]), vec![1, 2, 0, 3]);
    assert_eq!(greedy_initial_solution(vec![]), Vec::<usize>::new());
}

#[test]
fn greedy_order_is_a_permutation() {
    let v = vec![(7, -2), (0, 3), (-4, -4), (2, 2), (0, 3), (10, 0)];
    let mut r = greedy_initial_solution(v.clone());
    assert_eq!(r.len(), v.len());
    r.sort();
    assert_eq!(r, (0..v.len()).collect::<Vec<usize>>());
}
