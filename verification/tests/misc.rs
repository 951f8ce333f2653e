use icfp_spica::base94::{base94, base94_char, base94enc, Base94Error};
use icfp_spica::beam::{can_reach, get_moves, get_moves_with_steps, reconstruct_steps, MoveInfo, INF, NUM_D, NUM_V};
use icfp_spica::compiler::{binary_op, hello_world, unary_op};
use icfp_spica::solver;

#[test]
fn test_hello() {
    assert_eq!(hello_world(), "Hello, world!");
}

#[test]
fn scheme_operators() {
    assert_eq!(unary_op("-"), Some("U-".to_string()));
    assert_eq!(unary_op("not"), Some("U!".to_string()));
    assert_eq!(unary_op("string-to-int"), Some("U#".to_string()));
    assert_eq!(unary_op("int-to-string"), Some("U$".to_string()));
    assert_eq!(unary_op("+"), None);
    assert_eq!(binary_op("+"), Some("B+".to_string()));
    assert_eq!(binary_op("&"), Some("B&".to_string()));
    assert_eq!(binary_op("string-append"), Some("B.".to_string()));
    assert_eq!(binary_op("string-take"), Some("BT".to_string()));
    assert_eq!(binary_op("string-drop"), Some("BD".to_string()));
    assert_eq!(binary_op("string=?"), Some("B=".to_string()));
    assert_eq!(binary_op("modulo"), Some("B%".to_string()));
    assert_eq!(binary_op("div"), Some("B/".to_string()));
    assert_eq!(binary_op("or"), Some("B|".to_string()));
    assert_eq!(binary_op("not"), None);
}

#[test]
fn solver_base94() {
    assert_eq!(base94('!'), Ok(0));
    assert_eq!(base94('~'), Ok(93));
    assert_eq!(base94(' '), Err(Base94Error::InvalidDigit(' ')));
    assert_eq!(base94enc(93), Ok('~'));
    assert_eq!(base94enc(94), Err(Base94Error::InvalidNumber(94)));
    assert_eq!(base94_char('!'), Ok('a'));
    assert_eq!(base94_char('~'), Ok('\n'));
}

#[test]
fn solver_conversions() {
    assert_eq!(solver::str_to_int("test"), 15818151);
    assert_eq!(solver::int_to_str(15818151), "test");
    assert_eq!(solver::int_to_str(0), "");
    assert_eq!(solver::int_to_str(-5), "");
    assert_eq!(solver::varid("c"), 2);
}

#[test]
fn move_sequences() {
    assert_eq!(solver::get_sequence(0, 3), "UUU");
    // 27 = 3 + 2 * 4 + 1 * 16
    assert_eq!(solver::get_sequence(27, 4), "RLDU");
    // negative numbers leave negative remainders
    assert_eq!(solver::get_sequence(-1, 2), "_U");
}

/// A table that knows only the given `(v0, v, d) -> steps` entries, with
/// rows for the start velocities `-4 ..= 4`.
fn small_table(entries: &[(i32, i32, i32, i32)]) -> Vec<Vec<Vec<i32>>> {
    let mut t = vec![vec![Vec::new(); NUM_V]; NUM_V];
    for v0 in -4..=4 {
        for v in 0..NUM_V {
            t[(v0 + 100) as usize][v] = vec![INF; NUM_D];
        }
    }
    for (v0, v, d, s) in entries {
        t[(*v0 + 100) as usize][(*v + 100) as usize][(*d + 10000) as usize] = *s;
    }
    t
}

#[test]
fn table_queries() {
    let t = small_table(&[(0, 1, 1, 1), (0, -1, -1, 1), (1, 1, 1, 1), (0, 0, 0, 0)]);
    assert!(can_reach(0, 1, 1, 1, &t));
    // an idle thrust first, then the table
    assert!(can_reach(0, 1, 1, 2, &t));
    // one thrust of +1 to velocity 1 over 1, then the table from velocity 1
    assert!(can_reach(0, 1, 2, 2, &t));
    assert!(!can_reach(0, 5, 1, 2, &t));
    assert!(can_reach(0, 0, 0, 0, &t));
    assert_eq!(
        get_moves(0, 1, 10, &t),
        vec![MoveInfo { steps: 1, terminal_velocity: 1 }]
    );
    assert_eq!(
        get_moves(0, 0, 10, &t),
        vec![MoveInfo { steps: 0, terminal_velocity: 0 }]
    );
    assert_eq!(get_moves(0, 20000, 10, &t), vec![]);
    assert_eq!(
        get_moves(0, -1, 10, &t),
        vec![MoveInfo { steps: 1, terminal_velocity: -1 }]
    );
    assert_eq!(
        get_moves_with_steps(0, 1, 1, 10, &t),
        vec![MoveInfo { steps: 1, terminal_velocity: 1 }]
    );
    assert_eq!(get_moves_with_steps(0, 1, 1, 0, &t), vec![]);
    // the first step finds thrust +1 (the table then covers the rest in one
    // step); the second finds no thrust that this sparse table can finish
    assert_eq!(reconstruct_steps(2, 0, 1, 2, &t), vec![1]);
}
