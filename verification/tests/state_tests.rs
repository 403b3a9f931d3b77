use gridbot::action::Action;
use gridbot::game::Game;
use gridbot::state::Pair;
use gridbot::state::State;
use gridbot::state::TileKind;

fn small_game() -> Game {
    Game {
        initialized: true,
        player_index: 0,
        turn: 0,
        width: 3,
        height: 3,
        cities: vec![3],
        generals: vec![3, -1],
        scores: vec![2, 2],
        tiles: vec![1, 1],
        alive: vec![true, true],
        raw_map: vec![0, 0, 0, 2, 0, 0, 0, 0, 0, -1, -1, -3, 0, -1, -3, -1, -1, -3],
    }
}

#[test]
fn test_apply_action1() {
    let game = small_game();
    let mut state = State::new(&game);
    // move the full army from (0, 1) up to (0, 0)
    state.apply_action(Action::make(false, 1, 0, 1));
    println!("State: {:#?}", state);

    for _ in 0..10 {
        println!("Action: {:#?}", state.select_action());
    }
}

#[test]
fn test_build_classifies_tiles() {
    let game = small_game();
    let state = State::new(&game);
    assert_eq!(state.width, 3);
    assert_eq!(state.height, 3);
    assert_eq!(state.player_count, 2);
    assert_eq!(state.global_turn, 0);
    // tile 3 is listed as both a general and a city; the city overlay wins
    assert_eq!(state.tiles[3].kind, TileKind::City);
    assert_eq!(state.tiles[3].owner, 0);
    assert_eq!(state.tiles[3].count, 2);
    // code -3 is fog, code -1 is plain and unowned
    assert_eq!(state.tiles[2].kind, TileKind::Fog);
    assert_eq!(state.tiles[0].kind, TileKind::Plain);
    assert_eq!(state.tiles[0].owner, 2);
    // the owned-tiles index holds exactly the searching player's tile
    assert_eq!(state.owned_tiles, vec![Pair { x: 0, y: 1 }]);
    // one owned city/general tile
    assert_eq!(state.cities, vec![1, 0]);
    assert_eq!(state.scores, vec![2, 2]);
    assert_eq!(state.land, vec![1, 1]);
}

#[test]
fn test_capture_bookkeeping() {
    // moving a full army of 5 onto an unowned empty plain tile
    let mut game = small_game();
    game.raw_map[3] = 5;
    let mut state = State::new(&game);
    let action = Action::make(false, 1, 0, 1);
    assert!(state.can_apply(action));
    let counts = state.apply_action(action);
    assert_eq!(counts, (5, 0));
    assert_eq!(state.tiles[0].owner, 0);
    assert_eq!(state.tiles[0].count, 4);
    assert_eq!(state.tiles[3].count, 1);
    assert_eq!(state.land[0], 2);
    assert_eq!(
        state.owned_tiles,
        vec![Pair { x: 0, y: 1 }, Pair { x: 0, y: 0 }]
    );
}

#[test]
fn test_half_move_split() {
    // source count 7, half move: the destination gains 3, the source keeps 4
    let mut game = small_game();
    game.raw_map[3] = 7;
    let mut state = State::new(&game);
    let action = Action::make(true, 1, 0, 1);
    let counts = state.apply_action(action);
    assert_eq!(counts, (7, 0));
    assert_eq!(state.tiles[0].count, 3);
    assert_eq!(state.tiles[3].count, 4);
}

#[test]
fn test_apply_unapply_roundtrip() {
    let mut game = small_game();
    game.raw_map[3] = 7;
    let mut state = State::new(&game);
    let before = state.clone();
    for action in [
        Action::make(false, 1, 0, 1),
        Action::make(true, 1, 0, 1),
        Action::empty(),
    ] {
        assert!(state.can_apply(action));
        let counts = state.apply_action(action);
        state.unapply_action(action, counts);
        assert_eq!(state, before);
    }
}

#[test]
fn test_apply_unapply_stack() {
    // stack-like reversibility: a whole sequence of applies undone in
    // reverse order restores the starting state exactly
    let mut game = small_game();
    game.turn = 48;
    game.raw_map[3] = 9;
    let mut state = State::new(&game);
    let before = state.clone();
    let a1 = Action::make(true, 1, 0, 1); // half up: (0,1) -> (0,0)
    let c1 = state.apply_action(a1); // turn 49
    let a2 = Action::make(false, 1, 0, 1); // rest of the army follows
    let c2 = state.apply_action(a2); // turn 50: growth on every owned tile
    let a3 = Action::make(false, 3, 0, 0); // back down from (0,0)
    assert!(state.can_apply(a3));
    let c3 = state.apply_action(a3);
    state.unapply_action(a3, c3);
    state.unapply_action(a2, c2);
    state.unapply_action(a1, c1);
    assert_eq!(state, before);
}

#[test]
fn test_apply_unapply_roundtrip_across_growth() {
    // turn 49 -> 50 triggers the all-tiles growth event; undoing must still
    // restore the state exactly
    let mut game = small_game();
    game.turn = 49;
    game.raw_map[3] = 5;
    let mut state = State::new(&game);
    let before = state.clone();
    let action = Action::make(false, 1, 0, 1);
    let counts = state.apply_action(action);
    state.unapply_action(action, counts);
    assert_eq!(state, before);
}

#[test]
fn test_growth_law_fifty() {
    // turn 49 -> 50: every owned tile gains the city count, the score gains
    // (owned tiles) x (city count)
    let mut game = small_game();
    game.turn = 49;
    game.raw_map[0] = 3;
    game.raw_map[9] = 0; // tile 0 owned by seat 0 as well
    let mut state = State::new(&game);
    assert_eq!(state.cities[0], 1);
    assert_eq!(state.owned_tiles.len(), 2);
    let score_before = state.scores[0];
    state.apply_action(Action::empty());
    assert_eq!(state.global_turn, 50);
    // both owned tiles gained 1
    assert_eq!(state.tiles[0].count, 4);
    assert_eq!(state.tiles[3].count, 3);
    // score gained 2 x 1
    assert_eq!(state.scores[0], score_before + 2);
}

#[test]
fn test_growth_law_even_turn() {
    // turn 1 -> 2: only owned City/General tiles gain the bonus
    let mut game = small_game();
    game.turn = 1;
    game.raw_map[0] = 3;
    game.raw_map[9] = 0; // tile 0 (a plain) owned by seat 0 as well
    let mut state = State::new(&game);
    let score_before = state.scores[0];
    state.apply_action(Action::empty());
    assert_eq!(state.global_turn, 2);
    // the plain tile is untouched, the city tile gains the city count
    assert_eq!(state.tiles[0].count, 3);
    assert_eq!(state.tiles[3].count, 3);
    assert_eq!(state.scores[0], score_before + 1);
}

#[test]
fn test_growth_law_odd_turn() {
    let mut game = small_game();
    game.turn = 0;
    let mut state = State::new(&game);
    let score_before = state.scores[0];
    state.apply_action(Action::empty());
    assert_eq!(state.global_turn, 1);
    assert_eq!(state.tiles[3].count, 2);
    assert_eq!(state.scores[0], score_before);
}

#[test]
fn test_enumeration_excludes_blocked_and_weak() {
    // board: seat 0 owns tile (1, 1) with 3 units and tile (0, 0) with 1;
    // neighbors of (1, 1): (1, 0) mountain, (0, 1) city, (2, 1) obstacle,
    // (1, 2) plain
    let game = Game {
        initialized: true,
        player_index: 0,
        turn: 0,
        width: 3,
        height: 3,
        cities: vec![3],
        generals: vec![4, -1],
        scores: vec![2, 2],
        tiles: vec![2, 0],
        alive: vec![true, true],
        raw_map: vec![
            1, 0, 0, 5, 3, 0, 0, 0, 0, // armies
            0, -2, -3, -1, 0, -4, -3, -1, -3, // ownership / terrain
        ],
    };
    let state = State::new(&game);
    let actions = state.enumerate_actions();
    assert!(!actions.is_empty());
    for a in &actions {
        assert!(!a.is_empty());
        // never from a tile with one unit or less: (0, 0) holds 1
        assert!(!(a.src_x() == 0 && a.src_y() == 0));
        let dst = (a.dst_x(), a.dst_y());
        let kind = state.tiles[dst.1 * 3 + dst.0].kind;
        assert!(kind != TileKind::Mountain);
        assert!(kind != TileKind::City);
        assert!(kind != TileKind::Obstacle);
    }
    // from (1, 1) with 3 units only (1, 2) is open: a full and a half move
    assert_eq!(actions.len(), 2);
}

#[test]
fn test_select_action_no_moves_gives_pass() {
    // the single owned tile holds one unit: no legal movement exists
    let game = Game {
        initialized: true,
        player_index: 0,
        turn: 0,
        width: 2,
        height: 1,
        cities: vec![],
        generals: vec![0, -1],
        scores: vec![1, 1],
        tiles: vec![1, 0],
        alive: vec![true, true],
        raw_map: vec![1, 0, 0, -1],
    };
    let state = State::new(&game);
    assert!(state.enumerate_actions().is_empty());
    for _ in 0..20 {
        assert!(state.select_action().is_empty());
    }
}

#[test]
fn test_select_action_draws_moves() {
    // with one legal source, repeated draws must produce a concrete move
    // eventually (a sampler stuck on one answer would fail this)
    let game = small_game();
    let state = State::new(&game);
    let mut saw_move = false;
    for _ in 0..100 {
        if !state.select_action().is_empty() {
            saw_move = true;
        }
    }
    assert!(saw_move);
}

#[test]
fn test_evaluate_is_land_count() {
    let game = small_game();
    let mut state = State::new(&game);
    assert_eq!(state.evaluate(), 1);
    state.apply_action(Action::make(false, 1, 0, 1));
    assert_eq!(state.evaluate(), 2);
}

#[test]
fn test_seat_rotation() {
    // the searching player sits at seat 1; its code rotates to seat 0
    let mut game = small_game();
    game.player_index = 1;
    game.raw_map[12] = 1; // code 1 at tile 3
    let state = State::new(&game);
    assert_eq!(state.tiles[3].owner, 0);
    assert_eq!(state.owned_tiles, vec![Pair { x: 0, y: 1 }]);
}

#[test]
fn test_action_encoding_roundtrip() {
    for half in [false, true] {
        for dir in 0..4u16 {
            let a = Action::make(half, dir, 7, 19);
            assert!(!a.is_empty());
            assert_eq!(a.is_half(), half);
            assert_eq!(a.dir(), dir);
            assert_eq!(a.src_x(), 7);
            assert_eq!(a.src_y(), 19);
        }
    }
    assert!(Action::empty().is_empty());
    let left = Action::make(false, 0, 7, 19);
    assert_eq!(left.dst_x(), 6);
    assert_eq!(left.dst_y(), 19);
    let down = Action::make(false, 3, 7, 19);
    assert_eq!(down.dst_x(), 7);
    assert_eq!(down.dst_y(), 20);
}
