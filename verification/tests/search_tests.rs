use gridbot::action::Action;
use gridbot::game::Game;
use gridbot::search::ActionTransfer;
use gridbot::search::MonteCarlo;
use gridbot::search::SearchNode;
use gridbot::state::check_buildable;
use gridbot::state::State;

#[test]
fn test_large() {
    let game: Game = Game {
        initialized: true,
        raw_map: vec![
            0, 0, 0, 0, 0, 0, 0, 0, 0, 0, 0, 0, 0, 0, 0, 0, 0, 0, 0, 0, 0, 0, 0, 0, 3, 0, 0, 0, 0,
            0, 0, 0, 0, 0, 0, 0, 0, 0, 0, 0, 0, 0, 0, 0, 0, 0, 0, 0, 0, 0, 0, 0, 0, 0, 0, 0, 0, 0,
            0, 0, 0, 0, 0, 0, 0, 0, 0, 0, 0, 0, 0, 0, 0, 0, 0, 0, 0, 0, 0, 0, 0, 0, 0, 0, 0, 0, 0,
            0, 0, 0, 0, 0, 0, 0, 0, 0, 0, 0, 0, 0, 0, 0, 0, 0, 0, 0, 0, 0, 0, 0, 0, 0, 0, 0, 0, 0,
            0, 0, 0, 0, 0, 0, 0, 0, 0, 0, 0, 0, 0, 0, 0, 0, 0, 0, 0, 0, 0, 0, 0, 0, 0, 0, 0, 0, 0,
            0, 0, 0, 0, 0, 0, 0, 0, 0, 0, 0, 0, 0, 0, 0, 0, 0, 0, 0, 0, 0, 0, 0, 0, 0, 0, 0, 0, 0,
            0, 0, 0, 0, 0, 0, 0, 0, 0, 0, 0, 0, 0, 0, 0, 0, 0, 0, 0, 0, 0, 0, 0, 0, 0, 0, 0, 0, 0,
            0, 0, 0, 0, 0, 0, 0, 0, 0, 0, 0, 0, 0, 0, 0, 0, 0, 0, 0, 0, 0, 0, 0, 0, 0, 0, 0, 0, 0,
            0, 0, 0, 0, 0, 0, 0, 0, 0, 0, 0, 0, 0, 0, 0, 0, 0, 0, 0, 0, 0, 0, 0, 0, 0, 0, 0, 0, 0,
            0, 0, 0, 0, 0, 0, 0, 0, 0, 0, 0, 0, 0, 0, 0, 0, 0, 0, 0, 0, 0, 0, 0, 0, 0, 0, 0, 0, 0,
            0, 0, 0, 0, 0, 0, 0, 0, 0, 0, 0, 0, 0, 0, 0, 0, 0, 0, 0, 0, 0, 0, 0, 0, 0, 0, 0, 0, 0,
            0, 0, 0, 0, 0, 0, 0, 0, 0, 0, 0, 0, 0, 0, 0, 0, 0, 0, 0, 0, 0, 0, 0, 0, 0, 0, 0, 0, 0,
            0, 0, 0, 0, 0, 0, 0, 0, 0, 0, 0, 0, 0, 0, 0, 0, 0, 0, 0, 0, 0, 0, 0, 0, 0, 0, 0, 0, 0,
            0, 0, 0, 0, 0, 0, 0, 0, 0, 0, 0, 0, 0, 0, -3, -3, -3, -3, -1, -1, -1, -3, -3, -3, -3,
            -3, -3, -4, -3, -3, -3, -3, -4, -3, -3, -3, -3, -1, 0, -1, -3, -4, -4, -4, -4, -4, -3,
            -3, -4, -3, -3, -3, -4, -4, -3, -3, -2, -1, -1, -3, -3, -3, -4, -3, -3, -3, -3, -3, -3,
            -3, -3, -3, -3, -4, -3, -4, -3, -3, -3, -3, -3, -3, -3, -4, -3, -3, -4, -3, -4, -4, -3,
            -3, -3, -3, -4, -3, -3, -3, -3, -3, -3, -3, -4, -3, -3, -4, -3, -4, -3, -3, -3, -3, -3,
            -3, -3, -3, -3, -3, -3, -4, -3, -3, -3, -3, -3, -3, -3, -4, -3, -4, -3, -3, -3, -3, -3,
            -4, -3, -4, -3, -3, -3, -3, -3, -3, -4, -3, -3, -4, -3, -3, -3, -3, -3, -3, -3, -3, -3,
            -3, -3, -4, -4, -3, -3, -3, -3, -3, -3, -3, -3, -3, -4, -3, -4, -3, -3, -3, -3, -3, -4,
            -3, -3, -3, -3, -3, -3, -3, -3, -4, -3, -3, -4, -3, -3, -3, -4, -4, -3, -3, -3, -3, -3,
            -3, -3, -4, -3, -3, -3, -3, -3, -4, -3, -4, -3, -3, -3, -4, -4, -3, -3, -3, -3, -3, -3,
            -4, -3, -3, -4, -3, -3, -4, -3, -4, -3, -3, -3, -4, -3, -3, -3, -3, -4, -3, -3, -3, -3,
            -3, -3, -4, -3, -3, -3, -3, -4, -4, -3, -4, -4, -3, -3, -3, -3, -4, -3, -3, -4, -3, -3,
            -3, -3, -3, -3, -3, -3, -3, -3, -3, -3, -3, -3, -3, -3, -3, -3, -3, -3, -3, -3, -3, -3,
            -3, -3, -3, -3, -3, -4, -3, -3, -4, -3, -3, -3, -3, -4, -3, -4, -3, -3, -3, -3, -3, -3,
            -3, -3, -4, -4, -3, -3, -3, -3, -3, -3, -3, -3, -3, -3, -3, -3, -3, -3, -3, -4, -4, -3,
            -3, -4, -4, -3, -3, -3, -3, -3, -3, -3, -3, -3, -4, -3, -3, -3, -3, -3, -3, -4, -4, -3,
            -4, -3, -3, -3, -4, -3, -3, -3, -3, -4, -3, -3, -3, -3, -3, -3, -4, -3, -3, -3, -3, -3,
            -3, -3, -3, -4, -4, -4, -3, -4, -4, -3, -4, -3, -4,
        ],
        player_index: 0,
        turn: 5,
        width: 19,
        height: 20,
        generals: vec![24, -1],
        cities: vec![],
        scores: vec![3, 3],
        tiles: vec![1, 1],
        alive: vec![false, false],
    };

    let mut search: MonteCarlo = MonteCarlo::new();
    let _next_move = search.next_move(&game);
}

#[test]
fn test_search() {
    let mut search: MonteCarlo = MonteCarlo::new();
    let game: Game = Game {
        initialized: true,
        player_index: 0,
        turn: 0,
        width: 3,
        height: 3,
        cities: vec![3],
        generals: vec![3, -1],
        scores: vec![2, 2],
        tiles: vec![1, 1],
        alive: vec![true, true],
        raw_map: vec![0, 0, 0, 2, 0, 0, 0, 0, 0, -1, -1, -3, 0, -1, -3, -1, -1, -3],
    };

    let next_move = search.next_move(&game);
    println!("Next move: {:?}", next_move);
}

#[test]
fn test_rollout_statistics() {
    // a 3x3 board, two players; the searching player owns one tile with 2
    // units at (0, 1), adjacent to the unowned empty plain (0, 0); with
    // rollout depth 1, many samples must visit the full move onto that
    // plain and record the post-move land count (2) as its reward
    let game = Game {
        initialized: true,
        player_index: 0,
        turn: 49,
        width: 3,
        height: 3,
        cities: vec![],
        generals: vec![3, -1],
        scores: vec![2, 2],
        tiles: vec![1, 1],
        alive: vec![true, true],
        raw_map: vec![0, 0, 0, 2, 0, 0, 0, 0, 0, -1, -1, -3, 0, -1, -3, -1, -1, -3],
    };
    let mut state = State::new(&game);
    let before = state.clone();
    let mut root = SearchNode::new();
    for _ in 0..400 {
        root.search(&mut state, 1);
    }
    // every rollout left the state exactly as it was
    assert_eq!(state, before);
    let capture = Action::make(false, 1, 0, 1);
    let mut found = false;
    for (a, tr) in &root.actions {
        if *a == capture {
            found = true;
            assert!(tr.visit_count > 0);
            // the capture makes land 2, and depth-1 rollouts evaluate
            // right after the move
            assert_eq!(tr.cumulative_score, 2 * tr.visit_count as i64);
        }
    }
    assert!(found);
}

#[test]
fn test_select_best_move_prefers_best_average() {
    let a1 = Action::make(false, 0, 1, 1);
    let a2 = Action::make(false, 2, 1, 1);
    let node = SearchNode {
        actions: vec![
            (
                a1,
                ActionTransfer {
                    visit_count: 2,
                    cumulative_score: 2,
                    next_node: SearchNode::new(),
                },
            ),
            (
                a2,
                ActionTransfer {
                    visit_count: 1,
                    cumulative_score: 3,
                    next_node: SearchNode::new(),
                },
            ),
        ],
    };
    assert_eq!(node.select_best_move(), a2);
}

#[test]
fn test_select_best_move_tie_takes_first() {
    let a1 = Action::make(false, 0, 1, 1);
    let a2 = Action::make(false, 2, 1, 1);
    let node = SearchNode {
        actions: vec![
            (
                a1,
                ActionTransfer {
                    visit_count: 2,
                    cumulative_score: 6,
                    next_node: SearchNode::new(),
                },
            ),
            (
                a2,
                ActionTransfer {
                    visit_count: 1,
                    cumulative_score: 3,
                    next_node: SearchNode::new(),
                },
            ),
        ],
    };
    assert_eq!(node.select_best_move(), a1);
}

#[test]
fn test_select_best_move_skips_pass_and_unvisited() {
    let a1 = Action::make(false, 0, 1, 1);
    let node = SearchNode {
        actions: vec![
            (
                Action::empty(),
                ActionTransfer {
                    visit_count: 9,
                    cumulative_score: 900,
                    next_node: SearchNode::new(),
                },
            ),
            (
                a1,
                ActionTransfer {
                    visit_count: 0,
                    cumulative_score: 0,
                    next_node: SearchNode::new(),
                },
            ),
        ],
    };
    // no concrete visited action: the pass action wins
    assert!(node.select_best_move().is_empty());
    assert!(SearchNode::new().select_best_move().is_empty());
}

#[test]
fn test_get_action_transfer_creates_then_finds() {
    let mut node = SearchNode::new();
    let a = Action::make(true, 3, 2, 2);
    let idx = node.get_action_transfer(a);
    assert_eq!(idx, 0);
    assert_eq!(node.actions.len(), 1);
    assert_eq!(node.actions[0].0, a);
    assert_eq!(node.actions[0].1.visit_count, 0);
    let idx2 = node.get_action_transfer(a);
    assert_eq!(idx2, 0);
    assert_eq!(node.actions.len(), 1);
}

#[test]
fn test_check_buildable() {
    let good = Game {
        initialized: true,
        player_index: 0,
        turn: 0,
        width: 2,
        height: 1,
        cities: vec![],
        generals: vec![0, -1],
        scores: vec![1, 1],
        tiles: vec![1, 0],
        alive: vec![true, true],
        raw_map: vec![1, 0, 0, -1],
    };
    assert!(check_buildable(&good));
    let mut bad = Game::new();
    // an empty snapshot has no board at all
    assert!(!check_buildable(&bad));
    bad = good;
    bad.raw_map = vec![1, 0, 0]; // wrong grid length
    assert!(!check_buildable(&bad));
}

#[test]
fn test_next_move_no_moves_is_pass() {
    // the single owned tile holds one unit: no legal movement exists, so
    // the cycle must answer with the pass decision
    let game = Game {
        initialized: true,
        player_index: 0,
        turn: 0,
        width: 2,
        height: 1,
        cities: vec![],
        generals: vec![0, -1],
        scores: vec![1, 1],
        tiles: vec![1, 0],
        alive: vec![true, true],
        raw_map: vec![1, 0, 0, -1],
    };
    let mut search = MonteCarlo::new();
    assert!(check_buildable(&game));
    assert_eq!(search.next_move(&game), None);
}
