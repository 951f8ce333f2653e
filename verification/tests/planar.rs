use icfp_spica::bignum::BigNum;
use icfp_spica::planar::{print_for_submit, Cell, PlanarError, State};

fn num(n: u32) -> BigNum {
    if n == 0 {
        BigNum { negative: false, magnitude: vec![] }
    } else {
        BigNum { negative: false, magnitude: vec![n] }
    }
}

fn cell_text(s: &str) -> String {
    Cell::from_str(s).unwrap().to_string()
}

#[test]
fn cells_read_from_words() {
    assert_eq!(cell_text("."), ".");
    assert_eq!(cell_text("42"), "42");
    assert_eq!(cell_text("+5"), "5");
    assert_eq!(cell_text("-99"), "-99");
    assert_eq!(cell_text("@"), "@");
    assert_eq!(cell_text("@x"), "@x");
    assert_eq!(cell_text("x[3]"), "x[3]");
    assert_eq!(cell_text("x[A]"), "x[A]");
    assert_eq!(cell_text("99999999999"), "99999999999");
    assert!(matches!(Cell::from_str("x[A]").unwrap(), Cell::Label(_, Some(_))));
    assert!(matches!(Cell::from_str("S").unwrap(), Cell::Submit));
    assert_eq!(Cell::from_str("100").unwrap_err(), PlanarError::InvalidNumber);
    assert_eq!(Cell::from_str("-100").unwrap_err(), PlanarError::InvalidNumber);
    assert_eq!(Cell::from_str("x[q]").unwrap_err(), PlanarError::InvalidLabelValue);
    assert_eq!(Cell::from_str("").unwrap_err(), PlanarError::InvalidCell);
}

#[test]
fn board_is_framed_and_inputs_replaced() {
    let st = State::new(". A .\nB + S\n", num(3), num(4)).unwrap();
    assert_eq!(st.board.to_string(), ". . . . .\n. . 3 . .\n. 4 + S .\n. . . . .\n");
    let kept = State::new_with_input_port(". A .\n? comment\nB + S", num(3), num(4)).unwrap();
    assert_eq!(kept.board.to_string(), ". . . . .\n. . A . .\n. B + S .\n. . . . .\n");
    assert_eq!(State::new("1 200", num(0), num(0)).unwrap_err(), PlanarError::InvalidNumber);
}

#[test]
fn columns_are_right_aligned() {
    let st = State::new("10 .\n. -5", num(0), num(0)).unwrap();
    assert_eq!(st.board.to_string(), ".  .  . .\n. 10  . .\n.  . -5 .\n.  .  . .\n");
}

#[test]
fn addition_submits_its_result() {
    let mut st = State::new(". A .\nB + S\n", num(3), num(4)).unwrap();
    assert!(st.is_well_shaped());
    st.onestep().unwrap();
    let out = st.output.as_ref().unwrap();
    assert_eq!(out.magnitude, vec![7]);
    assert!(!out.negative);
    assert_eq!(st.tick, 2);
    assert_eq!(st.monotonic_tick, 1);
    assert_eq!(st.history.len(), 1);
}

#[test]
fn move_carries_a_value() {
    let mut st = State::new("1 > .", num(0), num(0)).unwrap();
    st.onestep().unwrap();
    assert!(st.output.is_none());
    assert_eq!(st.board.to_string(), ". . . . .\n. . > 1 .\n. . . . .\n");
    assert_eq!(st.used_x(), 3);
    assert_eq!(st.used_y(), 1);
    assert_eq!(st.score(), 3 * 1 * 3);
}

#[test]
fn division_by_zero_is_an_error() {
    let mut st = State::new(". 0 .\n5 / .", num(0), num(0)).unwrap();
    assert_eq!(st.onestep(), Err(PlanarError::DivisionByZero));
}

#[test]
fn labels_are_unresolved_until_resolved() {
    let mut st = State::new_with_input_port("x . .\n. . @x", num(0), num(0)).unwrap();
    assert_eq!(st.onestep(), Err(PlanarError::UnresolvedLabel));
    let mut st = State::new_with_input_port("x . .\n. . @x", num(0), num(0)).unwrap();
    st.resolve_label().unwrap();
    assert_eq!(print_for_submit(&st), ". . . . .\n. . . . .\n. . 2 @ 1\n. . . . .\n");
}

#[test]
fn label_errors() {
    let mut st = State::new_with_input_port("x", num(0), num(0)).unwrap();
    assert_eq!(st.resolve_label(), Err(PlanarError::UnusedLabel));
    let mut st = State::new_with_input_port("@y", num(0), num(0)).unwrap();
    assert_eq!(st.resolve_label(), Err(PlanarError::LabelNotFound));
}

#[test]
fn warp_back_in_time() {
    // A warp with dx = 0, dy = 0 and dt = 0 writing 9 onto itself.
    let text = ". 9 .\n0 @ 0\n. 0 .";
    let mut st = State::new(text, num(0), num(0)).unwrap();
    st.onestep().unwrap();
    assert_eq!(st.history.len(), 0);
    assert_eq!(st.tick, 1);
    assert_eq!(st.monotonic_tick, 1);
    assert_eq!(st.board.to_string(), ". . . . .\n. . 9 . .\n. 0 9 0 .\n. . 0 . .\n. . . . .\n");
    let mut far = State::new(". 9 .\n0 @ 0\n. 1 .", num(0), num(0)).unwrap();
    assert_eq!(far.onestep(), Err(PlanarError::WarpOutOfTime));
}
