use icfp_spica::eval::eval;
use icfp_spica::expr::{BinOp, Expr};
use icfp_spica::randomman::{try_seed, CompileError, Direction, Game, Rng, SeedOutcome};

fn letter(d: Direction) -> char {
    match d {
        Direction::Left => 'L',
        Direction::Up => 'U',
        Direction::Down => 'D',
        Direction::Right => 'R',
    }
}

fn drawn(rng: &Rng, seed: u64, steps: usize, stride: usize) -> String {
    let mut out = String::new();
    let mut state = seed;
    for _ in 0..steps {
        let (d, next) = rng.next(state);
        for _ in 0..stride {
            out.push(letter(d));
        }
        state = next;
    }
    out
}

// The evaluator has no lazy application; for these pure programs
// call-by-name application gives the same value.
fn by_name(e: &Expr) -> Expr {
    match e {
        Expr::Bin(op, l, r) => {
            let op = if *op == BinOp::AppL { BinOp::App } else { *op };
            Expr::Bin(op, Box::new(by_name(l)), Box::new(by_name(r)))
        }
        Expr::Un(op, x) => Expr::Un(*op, Box::new(by_name(x))),
        Expr::If(c, t, f) => Expr::If(Box::new(by_name(c)), Box::new(by_name(t)), Box::new(by_name(f))),
        Expr::Lambda(v, b) => Expr::Lambda(*v, Box::new(by_name(b))),
        other => other.copy(),
    }
}

fn run_program(e: &Expr) -> String {
    match eval(&by_name(e)) {
        Ok(Expr::String(s)) => s,
        other => panic!("unexpected result: {:?}", other),
    }
}

#[test]
fn compiled_program_prints_drawn_moves() {
    let e = Rng::Default.compile_expr(7, 298, 1, 5).unwrap();
    let expected = format!("solve lambdaman7 {}", drawn(&Rng::Default, 298, 5, 1));
    assert_eq!(run_program(&e), expected);
}

#[test]
fn compiled_program_with_stride_two() {
    let e = Rng::Better.compile_expr(12, 663880, 2, 6).unwrap();
    let expected = format!("solve lambdaman12 {}", drawn(&Rng::Better, 663880, 3, 2));
    assert_eq!(run_program(&e), expected);
}

#[test]
fn compiled_program_without_moves() {
    let e = Rng::Default.compile_expr(4, 46, 1, 0).unwrap();
    assert_eq!(run_program(&e), "solve lambdaman4 ");
}

#[test]
fn compile_detects_seed_cycle() {
    // zero stays zero under the default generator
    assert_eq!(Rng::Default.compile_expr(1, 0, 1, 2).err(), Some(CompileError::SeedCycle));
}

#[test]
fn compile_refuses_other_strides() {
    assert_eq!(Rng::Default.compile_expr(1, 298, 3, 6).err(), Some(CompileError::UnsupportedStride(3)));
}

#[test]
fn seed_moving_right_eats_corridor() {
    let game = Game::from_str("L...\n").unwrap();
    assert_eq!(game.pills(), 3);
    let right = 0xC000_0000_0000_0000u64;
    assert_eq!(try_seed(&game, &Rng::Default, right, 3, 1), SeedOutcome::Solved(3));
    assert_eq!(try_seed(&game, &Rng::Default, right, 1, 1), SeedOutcome::Left(2));
    // the game itself is left as it was
    assert_eq!(game.pills(), 3);
}

#[test]
fn seed_moving_left_hits_wall() {
    let game = Game::from_str("L...\n").unwrap();
    assert_eq!(try_seed(&game, &Rng::Better, 0, 2, 1), SeedOutcome::Left(3));
    assert_eq!(try_seed(&game, &Rng::Better, 0, 2, 0), SeedOutcome::Left(3));
}

#[test]
fn try_seed_matches_step_by_step_play() {
    let game = Game::from_str("...#\n.L..\n#...\n").unwrap();
    for seed in 1..40u64 {
        let mut g = Game::from_str("...#\n.L..\n#...\n").unwrap();
        let mut state = seed;
        let mut expected = None;
        for step in 1..=6usize {
            let (d, next) = Rng::Default.next(state);
            g.step(d);
            state = next;
            if g.pills() == 0 {
                expected = Some(SeedOutcome::Solved(step));
                break;
            }
        }
        let expected = expected.unwrap_or(SeedOutcome::Left(g.pills()));
        assert_eq!(try_seed(&game, &Rng::Default, seed, 1, 6), expected);
    }
}
