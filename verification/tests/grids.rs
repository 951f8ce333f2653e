use icfp_spica::lambdaman::{LCell, LMap, MapError};
use icfp_spica::lifegame::LifeGame;
use icfp_spica::randomman::{Direction, Rng};

#[test]
fn blinker() {
    let mut game = LifeGame::new(3, 3);
    game.set(1, 0, true);
    game.set(1, 1, true);
    game.set(1, 2, true);

    assert_eq!(
        game.world(),
        &vec![
            vec![false, false, false],
            vec![true, true, true],
            vec![false, false, false],
        ]
    );

    game.tick();

    assert_eq!(
        game.world(),
        &vec![
            vec![false, true, false],
            vec![false, true, false],
            vec![false, true, false],
        ]
    );

    game.tick();

    assert_eq!(
        game.world(),
        &vec![
            vec![false, false, false],
            vec![true, true, true],
            vec![false, false, false],
        ]
    );
}

#[test]
fn lifegame_set_then_get() {
    let mut game = LifeGame::new(2, 4);
    assert_eq!(game.size(), (2, 4));
    assert!(!game.get(1, 3));
    game.set(1, 3, true);
    assert!(game.get(1, 3));
    // off the board every cell is dead
    assert!(!game.get(-1, 0));
    assert!(!game.get(2, 0));
    assert!(!game.get(0, 4));
}

#[test]
fn lifegame_block_is_still() {
    let mut game = LifeGame::new(4, 4);
    game.set(1, 1, true);
    game.set(1, 2, true);
    game.set(2, 1, true);
    game.set(2, 2, true);
    let before = game.world().clone();
    game.tick();
    assert_eq!(game.world(), &before);
}

#[test]
fn lmap_parse_and_move() {
    let mut map = LMap::from_str("###.#...\n#...L..#\n.####...\n").unwrap();
    assert_eq!(map.remaining_pills(), 13);
    assert_eq!(map.do_move("LLL"), Ok(()));
    assert_eq!(map.remaining_pills(), 10);
    // into the wall: no move
    assert_eq!(map.do_move("L"), Ok(()));
    assert_eq!(map.remaining_pills(), 10);
    assert_eq!(map.do_move("RRRRRR"), Ok(()));
    assert_eq!(map.remaining_pills(), 8);
    assert_eq!(map.to_string(), "###.#...\n#     L#\n.####...\n");
}

#[test]
fn lmap_errors() {
    assert_eq!(LMap::from_str("#L#\n##").err(), Some(MapError::InconsistentLineLength));
    assert_eq!(LMap::from_str("#L#\n#x#").err(), Some(MapError::UnknownCell('x')));
    assert_eq!(LMap::from_str("#L#\n#L#").err(), Some(MapError::MultipleLambdamen));
    assert_eq!(LMap::from_str("#.#\n#.#").err(), Some(MapError::LambdamanNotFound));
    assert_eq!(LMap::from_str("").err(), Some(MapError::LambdamanNotFound));
    // lines are trimmed and empty lines skipped
    let map = LMap::from_str("\n  L.  \r\n\n").unwrap();
    assert_eq!(map.remaining_pills(), 1);
    let mut map = LMap::from_str("L.").unwrap();
    assert_eq!(map.do_move("RX"), Err(MapError::UnknownInstruction('X')));
    assert_eq!(map.remaining_pills(), 0);
    assert_eq!(map.do_move("U"), Err(MapError::OutOfMap));
    assert_eq!(map.to_string(), " L\n");
}

#[test]
fn lcell_values() {
    assert_ne!(LCell::Wall, LCell::Pill);
}

#[test]
fn directions() {
    assert_eq!(Direction::from_char('L'), Direction::Left);
    assert_eq!(Direction::from_char('R').delta(), (0, 1));
    assert_eq!(Direction::Up.delta(), (-1, 0));
    assert_eq!(Direction::Down.delta(), (1, 0));
    assert_eq!(Direction::Left.delta(), (0, -1));
}

#[test]
fn rng_steps() {
    assert_eq!(Rng::from_name("default"), Some(Rng::Default));
    assert_eq!(Rng::from_name("better"), Some(Rng::Better));
    assert_eq!(Rng::from_name("worse"), None);
    let (d, s) = Rng::Default.next(1);
    assert_eq!(d, Direction::Left);
    assert_eq!(s, 48271);
    let (d, s) = Rng::Default.next(u64::MAX);
    assert_eq!(d, Direction::Right);
    assert_eq!(s, ((u64::MAX as u128 * 48271) % 18446744073709551557) as u64);
    let (d, s) = Rng::Better.next(0x4000_0000_0000_0000);
    assert_eq!(d, Direction::Up);
    assert_eq!(s, 0x4000_0000_0000_0000u64.wrapping_mul(0xd1342543de82ef95).wrapping_add(1));
    let (d, _) = Rng::Better.next(0x8000_0000_0000_0000);
    assert_eq!(d, Direction::Down);
}

#[test]
fn lmap_text_counts_pills_and_one_lambdaman() {
    let mut map = LMap::from_str("###.#...\n#...L..#\n.####...\n").unwrap();
    for instr in ["", "LLL", "RRRUD", "DDDD", "RR?L", "UUUUUU"] {
        let _ = map.do_move(instr);
        let text = map.to_string();
        assert_eq!(text.chars().filter(|&c| c == '.').count(), map.remaining_pills());
        assert_eq!(text.chars().filter(|&c| c == 'L').count(), 1);
    }
}

#[test]
fn lifegame_shape_is_kept() {
    let mut game = LifeGame::new(2, 5);
    game.set(1, 4, true);
    game.tick();
    assert_eq!(game.size(), (2, 5));
    assert_eq!(game.world().len(), 2);
    assert!(game.world().iter().all(|row| row.len() == 5));
    assert!(!game.get(-1, 0) && !game.get(0, 5) && !game.get(2, 0));
}

#[test]
fn life_shape_kept_over_calls() {
    let mut game = LifeGame::new(3, 5);
    game.set(0, 0, true);
    game.tick();
    game.set(2, 4, true);
    game.set(1, 4, true);
    game.tick();
    game.tick();
    game.set(1, 2, false);
    assert_eq!(game.size(), (3, 5));
    assert_eq!(game.world().len(), 3);
    assert!(game.world().iter().all(|row| row.len() == 5));
}
