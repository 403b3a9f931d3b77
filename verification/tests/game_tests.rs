use gridbot::game::Game;
use gridbot::game::UpdateError;

#[test]
fn test_patch_map_noop_skip() {
    // a diff holding a single skip count equal to the grid length leaves
    // the grid unchanged
    let mut game = Game::new();
    game.raw_map = vec![5, -1, 7, 0, 3, 2];
    let before = game.raw_map.clone();
    let patch: Vec<i64> = vec![before.len() as i64];
    assert_eq!(game.patch_map(&patch), Ok(()));
    assert_eq!(game.raw_map, before);
}

#[test]
fn test_patch_map_applies_runs() {
    // cursor starts at -2: skip 2 lands at index 0; write [9, 8], skip 1,
    // write [7]
    let mut game = Game::new();
    game.raw_map = vec![0, 0, 0, 0, 0];
    let patch: Vec<i64> = vec![2, 2, 9, 8, 1, 1, 7];
    assert_eq!(game.patch_map(&patch), Ok(()));
    assert_eq!(game.raw_map, vec![9, 8, 0, 7, 0]);
}

#[test]
fn test_patch_map_rejects_out_of_range() {
    let mut game = Game::new();
    game.raw_map = vec![0, 0, 0];
    let before = game.raw_map.clone();
    // skip 4 puts the cursor at index 2; a run of 2 would write past the end
    let patch: Vec<i64> = vec![4, 2, 1, 1];
    assert_eq!(game.patch_map(&patch), Err(UpdateError::MalformedPatch));
    assert_eq!(game.raw_map, before);
}

#[test]
fn test_patch_map_rejects_truncated_run() {
    let mut game = Game::new();
    game.raw_map = vec![0, 0, 0];
    // the run announces 3 values but only 1 follows
    let patch: Vec<i64> = vec![2, 3, 1];
    assert_eq!(game.patch_map(&patch), Err(UpdateError::MalformedPatch));
    // an empty diff has no skip value to read
    let empty: Vec<i64> = vec![];
    assert_eq!(game.patch_map(&empty), Err(UpdateError::MalformedPatch));
}

#[test]
fn test_patch_cities_keep_and_replace() {
    let mut game = Game::new();
    game.cities = vec![1, 2, 3];
    // keep 2 entries, then insert one replacement value 7
    let patch: Vec<i64> = vec![2, 1, 7];
    assert_eq!(game.patch_cities(&patch), Ok(()));
    assert_eq!(game.cities, vec![1, 2, 7]);
}

#[test]
fn test_patch_cities_leading_match_only() {
    let mut game = Game::new();
    game.cities = vec![4, 5, 6];
    // a diff with only a leading match count is tolerated
    let patch: Vec<i64> = vec![3];
    assert_eq!(game.patch_cities(&patch), Ok(()));
    assert_eq!(game.cities, vec![4, 5, 6]);
    // and so is an empty replacement list
    let patch2: Vec<i64> = vec![3, 0];
    assert_eq!(game.patch_cities(&patch2), Ok(()));
    assert_eq!(game.cities, vec![4, 5, 6]);
}

#[test]
fn test_patch_cities_rejects_bad_counts() {
    let mut game = Game::new();
    game.cities = vec![1, 2];
    let before = game.cities.clone();
    // more kept entries than the list holds
    assert_eq!(
        game.patch_cities(&vec![3]),
        Err(UpdateError::MalformedPatch)
    );
    // a negative replacement is not a coordinate
    assert_eq!(
        game.patch_cities(&vec![0, 1, -5]),
        Err(UpdateError::MalformedPatch)
    );
    assert_eq!(game.cities, before);
}

#[test]
fn test_first_update_initializes() {
    let mut game = Game::new();
    game.handle_game_start(1);
    assert_eq!(game.player_index, 1);
    // first grid diff carries width and height as its 3rd and 4th elements
    let map_diff: Vec<i64> = vec![
        0, 0, 2, 2, // width 2, height 2
        1, 2, 3, 4, -1, -1, 0, -2,
    ];
    let cities_diff: Vec<i64> = vec![0, 1, 3];
    let generals: Vec<i64> = vec![2, -1];
    let r = game.handle_game_update(
        7,
        &map_diff,
        &cities_diff,
        &generals,
        &vec![5, 6],
        &vec![1, 2],
        &vec![false, true],
    );
    assert_eq!(r, Ok(()));
    assert!(game.initialized);
    assert_eq!(game.width, 2);
    assert_eq!(game.height, 2);
    assert_eq!(game.raw_map, vec![1, 2, 3, 4, -1, -1, 0, -2]);
    assert_eq!(game.generals, vec![2, -1]);
    assert_eq!(game.cities, vec![3]);
    assert_eq!(game.scores, vec![5, 6]);
    assert_eq!(game.tiles, vec![1, 2]);
    // the wire's dead column, negated into liveness flags
    assert_eq!(game.alive, vec![true, false]);
}

#[test]
fn test_later_update_patches() {
    let mut game = Game::new();
    let map_diff: Vec<i64> = vec![0, 0, 2, 2, 1, 2, 3, 4, -1, -1, 0, -2];
    let r = game.handle_game_update(
        0,
        &map_diff,
        &vec![0],
        &vec![2, -1],
        &vec![5, 6],
        &vec![1, 2],
        &vec![false, false],
    );
    assert_eq!(r, Ok(()));
    // now patch army cell 1 to 9 and refresh the totals
    let diff: Vec<i64> = vec![3, 1, 9];
    let r2 = game.handle_game_update(
        8,
        &diff,
        &vec![0],
        &vec![2, 3],
        &vec![7, 7],
        &vec![2, 2],
        &vec![false, true],
    );
    assert_eq!(r2, Ok(()));
    assert_eq!(game.turn, 8);
    assert_eq!(game.raw_map, vec![1, 9, 3, 4, -1, -1, 0, -2]);
    assert_eq!(game.generals, vec![2, 3]);
    assert_eq!(game.scores, vec![7, 7]);
    assert_eq!(game.alive, vec![true, false]);
}

#[test]
fn test_malformed_update_leaves_snapshot() {
    let mut game = Game::new();
    let map_diff: Vec<i64> = vec![0, 0, 2, 2, 1, 2, 3, 4, -1, -1, 0, -2];
    game.handle_game_update(
        0,
        &map_diff,
        &vec![0],
        &vec![2, -1],
        &vec![5, 6],
        &vec![1, 2],
        &vec![false, false],
    )
    .unwrap();
    let raw_before = game.raw_map.clone();
    // the grid diff is fine but the city diff is truncated: nothing at all
    // may change
    let r = game.handle_game_update(
        9,
        &vec![3, 1, 9],
        &vec![0, 2, 5],
        &vec![2, -1],
        &vec![5, 6],
        &vec![1, 2],
        &vec![false, false],
    );
    assert_eq!(r, Err(UpdateError::MalformedPatch));
    assert_eq!(game.raw_map, raw_before);
    assert_eq!(game.turn, 0);
}
