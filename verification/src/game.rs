//! Tracked snapshot of the server-visible game state, and the sparse
//! run-length patch decoder that keeps it up to date.

use vstd::prelude::*;

verus! {


/// Why an update was rejected: the diff references out-of-range indices,
/// is truncated, or carries values that do not fit their destination.
#[derive(Clone, Copy, PartialEq, Eq, Structural, Debug)]
pub enum UpdateError {
    MalformedPatch,
}

/// The grid after one run of `run` patch values (starting at patch index
/// `from`) is copied in at position `at`.
pub open spec fn write_run(grid: Seq<i32>, patch: Seq<i64>, at: int, from: int, run: int) -> Seq<
    i32,
> {
    Seq::new(
        grid.len(),
        |q: int|
            if at <= q < at + run {
                patch[from + (q - at)] as i32
            } else {
                grid[q]
            },
    )
}

/// One decoding round of the grid diff, from patch position `pi` with the
/// write cursor at `idx`: advance the cursor by the skip value, stop if the
/// patch is exhausted, else copy a run and continue.  `None` marks a
/// malformed diff: a missing skip or run value, a negative run, a run that
/// writes out of bounds, a truncated run, or a value that does not fit a
/// grid cell.
pub open spec fn patch_map_step(grid: Seq<i32>, patch: Seq<i64>, idx: int, pi: int) -> Option<
    Seq<i32>,
>
    decreases patch.len() - pi,
{
    if pi < 0 || pi >= patch.len() {
        None
    } else {
        let idx2 = idx + patch[pi] as int;
        let pi2 = pi + 1;
        if pi2 >= patch.len() {
            Some(grid)
        } else {
            let run = patch[pi2] as int;
            if run < 0 {
                None
            } else if pi2 + 1 + run > patch.len() {
                None
            } else if run > 0 && !(0 <= idx2 && idx2 + run <= grid.len()) {
                None
            } else if exists|q: int|
                0 <= q < run && !(i32::MIN <= #[trigger] patch[pi2 + 1 + q] <= i32::MAX) {
                None
            } else {
                let grid2 = write_run(grid, patch, idx2, pi2 + 1, run);
                let pi3 = pi2 + 1 + run;
                if pi3 >= patch.len() {
                    Some(grid2)
                } else {
                    patch_map_step(grid2, patch, idx2 + run, pi3)
                }
            }
        }
    }
}

/// Decoding of a whole grid diff.  The cursor starts at -2 so that the
/// first skip value, after advancing, lands on the intended start index.
pub open spec fn spec_patch_map(grid: Seq<i32>, patch: Seq<i64>) -> Option<Seq<i32>> {
    patch_map_step(grid, patch, -2, 0)
}

/// Patch idempotence on a no-op diff: a patch whose only entry is a single
/// skip count equal to the grid length leaves the grid unchanged.
pub proof fn lemma_patch_noop(grid: Seq<i32>, patch: Seq<i64>)
    requires
        patch.len() == 1,
        patch[0] == grid.len(),
    ensures
        spec_patch_map(grid, patch) == Some(grid),
{
}

/// One decoding round of the city-list diff: copy `matching` kept entries
/// from the old list, then insert the following replacement run, and
/// continue until the patch data is exhausted.  `None` marks a malformed
/// diff: a missing count, a negative count, more kept entries than the old
/// list holds, a truncated replacement run, or a replacement that is not a
/// coordinate.
pub open spec fn patch_cities_step(
    oldc: Seq<usize>,
    acc: Seq<usize>,
    patch: Seq<i64>,
    idx: int,
    pi: int,
) -> Option<Seq<usize>>
    decreases patch.len() - pi,
{
    if pi < 0 || pi >= patch.len() {
        None
    } else {
        let matching = patch[pi] as int;
        if matching < 0 || idx + matching > oldc.len() || idx < 0 {
            None
        } else {
            let acc2 = acc + oldc.subrange(idx, idx + matching);
            let pi2 = pi + 1;
            if pi2 >= patch.len() {
                Some(acc2)
            } else {
                let idx2 = idx + matching;
                let mis = patch[pi2] as int;
                if mis < 0 || pi2 + 1 + mis > patch.len() {
                    None
                } else if exists|q: int|
                    0 <= q < mis && !(0 <= #[trigger] patch[pi2 + 1 + q] <= usize::MAX) {
                    None
                } else {
                    let acc3 = acc2 + Seq::new(mis as nat, |q: int| patch[pi2 + 1 + q] as usize);
                    let pi3 = pi2 + 1 + mis;
                    let idx3 = idx2 + mis;
                    if pi3 >= patch.len() {
                        Some(acc3)
                    } else {
                        patch_cities_step(oldc, acc3, patch, idx3, pi3)
                    }
                }
            }
        }
    }
}

/// Decoding of a whole city-list diff.
pub open spec fn spec_patch_cities(oldc: Seq<usize>, patch: Seq<i64>) -> Option<Seq<usize>> {
    patch_cities_step(oldc, Seq::empty(), patch, 0, 0)
}

/// Raw game snapshot as the state-tracking collaborator hands it over:
/// a flat army/ownership grid, per-player vectors, and the current turn.
#[derive(Debug)]
pub struct Game {
    pub initialized: bool,
    /// Flat grid of length `2 * width * height`: army counts first, then
    /// ownership/terrain codes.
    pub raw_map: Vec<i32>,
    /// Seat of the searching player.
    pub player_index: usize,
    pub turn: i32,
    pub width: usize,
    pub height: usize,
    /// Per-player general coordinate, -1 while unknown.
    pub generals: Vec<isize>,
    /// Known city coordinates.
    pub cities: Vec<usize>,
    pub scores: Vec<u32>,
    /// Per-player owned-tile counts.
    pub tiles: Vec<u32>,
    pub alive: Vec<bool>,
}

impl Game {
    /// An empty snapshot, waiting for the first update.
    pub fn new() -> (g: Game)
        ensures
            !g.initialized,
            g.raw_map@.len() == 0,
            g.player_index == 0,
            g.turn == 0,
            g.width == 0,
            g.height == 0,
            g.generals@.len() == 0,
            g.cities@.len() == 0,
            g.scores@.len() == 0,
            g.tiles@.len() == 0,
            g.alive@.len() == 0,
    {
        Game {
            initialized: false,
            raw_map: Vec::new(),
            player_index: 0,
            turn: 0,
            width: 0,
            height: 0,
            generals: Vec::new(),
            cities: Vec::new(),
            scores: Vec::new(),
            tiles: Vec::new(),
            alive: Vec::new(),
        }
    }
}

/// Copies a vector of grid cells.
fn copy_cells(v: &Vec<i32>) -> (r: Vec<i32>)
    ensures
        r@ == v@,
{
    let mut r: Vec<i32> = Vec::new();
    let mut i: usize = 0;
    while i < v.len()
        invariant
            i <= v@.len(),
            r@ == v@.subrange(0, i as int),
        decreases v@.len() - i,
    {
        r.push(v[i]);
        proof {
            assert(r@ =~= v@.subrange(0, i + 1));
        }
        i = i + 1;
    }
    proof {
        assert(r@ =~= v@);
    }
    r
}

impl Game {
    /// Applies a sparse run-length diff to the flat grid.  On success the
    /// grid holds exactly the decoded result; a malformed diff (see
    /// `patch_map_step`) is rejected with the snapshot left untouched.
    #[verifier::loop_isolation(false)]
    pub fn patch_map(&mut self, patch: &Vec<i64>) -> (r: Result<(), UpdateError>)
        ensures
            r is Ok <==> spec_patch_map(old(self).raw_map@, patch@) is Some,
            r is Ok ==> spec_patch_map(old(self).raw_map@, patch@) == Some(final(self).raw_map@),
            r is Err ==> final(self).raw_map@ == old(self).raw_map@,
            final(self).raw_map@.len() == old(self).raw_map@.len(),
            final(self).initialized == old(self).initialized,
            final(self).player_index == old(self).player_index,
            final(self).turn == old(self).turn,
            final(self).width == old(self).width,
            final(self).height == old(self).height,
            final(self).generals@ == old(self).generals@,
            final(self).cities@ == old(self).cities@,
            final(self).scores@ == old(self).scores@,
            final(self).tiles@ == old(self).tiles@,
            final(self).alive@ == old(self).alive@,
    {
        let ghost g0 = self.raw_map@;
        let mut grid = copy_cells(&self.raw_map);
        let n = patch.len();
        let glen = grid.len();
        let mut idx: i128 = -2;
        let mut pi: usize = 0;
        loop
            invariant
                pi <= n,
                n == patch@.len(),
                grid@.len() == g0.len(),
                self.raw_map@ == g0,
                self.initialized == old(self).initialized,
                self.player_index == old(self).player_index,
                self.turn == old(self).turn,
                self.width == old(self).width,
                self.height == old(self).height,
                self.generals == old(self).generals,
                self.cities == old(self).cities,
                self.scores == old(self).scores,
                self.tiles == old(self).tiles,
                self.alive == old(self).alive,
                spec_patch_map(g0, patch@) == patch_map_step(grid@, patch@, idx as int, pi as int),
                -2 - (pi as int) * 0x4000_0000_0000_0000 <= idx as int <= 2 + (pi as int)
                    * 0x4000_0000_0000_0000,
            decreases n - pi,
        {
            if pi >= n {
                return Err(UpdateError::MalformedPatch);
            }
            let skip = patch[pi];
            let idx2: i128 = idx + skip as i128;
            let pi2 = pi + 1;
            if pi2 >= n {
                self.raw_map = grid;
                return Ok(());
            }
            let runv = patch[pi2];
            if runv < 0 {
                return Err(UpdateError::MalformedPatch);
            }
            if runv as u64 > (n - pi2 - 1) as u64 {
                return Err(UpdateError::MalformedPatch);
            }
            let run = runv as usize;
            if run > 0 && !(idx2 >= 0 && idx2 + run as i128 <= glen as i128) {
                return Err(UpdateError::MalformedPatch);
            }
            let ghost gpre = grid@;
            let mut q: usize = 0;
            while q < run
                invariant
                    q <= run,
                    grid@.len() == g0.len(),
                    run > 0 ==> 0 <= idx2 as int && idx2 as int + run as int <= g0.len(),
                    forall|t: int|
                        0 <= t < q ==> i32::MIN <= #[trigger] patch@[pi2 + 1 + t] <= i32::MAX,
                    grid@ == write_run(gpre, patch@, idx2 as int, pi2 + 1 as int, q as int),
                decreases run - q,
            {
                let v = patch[pi2 + 1 + q];
                if v < i32::MIN as i64 || v > i32::MAX as i64 {
                    return Err(UpdateError::MalformedPatch);
                }
                let ghost gmid = grid@;
                grid[(idx2 as usize) + q] = v as i32;
                proof {
                    assert(grid@ =~= write_run(gpre, patch@, idx2 as int, pi2 + 1 as int, (q + 1) as int));
                }
                q = q + 1;
            }
            proof {
                assert(grid@ =~= write_run(gpre, patch@, idx2 as int, pi2 + 1 as int, run as int));
            }
            let pi3 = pi2 + 1 + run;
            let idx3: i128 = idx2 + run as i128;
            if pi3 >= n {
                self.raw_map = grid;
                return Ok(());
            }
            idx = idx3;
            pi = pi3;
        }
    }

    /// Rebuilds the city list from its diff: alternately keep entries of
    /// the old list and insert replacement runs.  On success the list holds
    /// exactly the decoded result; a malformed diff (see
    /// `patch_cities_step`) is rejected with the snapshot left untouched.
    pub fn patch_cities(&mut self, patch: &Vec<i64>) -> (r: Result<(), UpdateError>)
        ensures
            r is Ok <==> spec_patch_cities(old(self).cities@, patch@) is Some,
            r is Ok ==> spec_patch_cities(old(self).cities@, patch@) == Some(final(self).cities@),
            r is Err ==> final(self).cities@ == old(self).cities@,
            final(self).raw_map@ == old(self).raw_map@,
            final(self).initialized == old(self).initialized,
            final(self).player_index == old(self).player_index,
            final(self).turn == old(self).turn,
            final(self).width == old(self).width,
            final(self).height == old(self).height,
            final(self).generals@ == old(self).generals@,
            final(self).scores@ == old(self).scores@,
            final(self).tiles@ == old(self).tiles@,
            final(self).alive@ == old(self).alive@,
    {
        match decode_cities(&self.cities, patch) {
            Ok(new_cities) => {
                self.cities = new_cities;
                Ok(())
            },
            Err(e) => Err(e),
        }
    }
}

/// Decodes a city-list diff against the current list without touching it.
#[verifier::loop_isolation(false)]
pub fn decode_cities(cities: &Vec<usize>, patch: &Vec<i64>) -> (r: Result<Vec<usize>, UpdateError>)
    ensures
        r is Ok <==> spec_patch_cities(cities@, patch@) is Some,
        r matches Ok(v) ==> spec_patch_cities(cities@, patch@) == Some(v@),
{
    {
        let ghost c0 = cities@;
        let mut acc: Vec<usize> = Vec::new();
        let n = patch.len();
        let clen = cities.len();
        let mut idx: u128 = 0;
        let mut pi: usize = 0;
        loop
            invariant
                pi <= n,
                n == patch@.len(),
                clen == c0.len(),
                spec_patch_cities(c0, patch@) == patch_cities_step(
                    c0,
                    acc@,
                    patch@,
                    idx as int,
                    pi as int,
                ),
                idx as int <= c0.len() + pi as int,
            decreases n - pi,
        {
            if pi >= n {
                return Err(UpdateError::MalformedPatch);
            }
            let matching = patch[pi];
            if matching < 0 {
                return Err(UpdateError::MalformedPatch);
            }
            if idx + matching as u128 > clen as u128 {
                return Err(UpdateError::MalformedPatch);
            }
            let mat = matching as usize;
            let idxu = idx as usize;
            let ghost apre = acc@;
            let mut t: usize = 0;
            while t < mat
                invariant
                    t <= mat,
                    idxu as int + mat as int <= c0.len(),
                    acc@ == apre + c0.subrange(idxu as int, idxu as int + t as int),
                decreases mat - t,
            {
                acc.push(cities[idxu + t]);
                proof {
                    assert(acc@ =~= apre + c0.subrange(idxu as int, idxu as int + (t + 1) as int));
                }
                t = t + 1;
            }
            let pi2 = pi + 1;
            let idx2: u128 = idx + mat as u128;
            if pi2 >= n {
                return Ok(acc);
            }
            let misv = patch[pi2];
            if misv < 0 {
                return Err(UpdateError::MalformedPatch);
            }
            if misv as u64 > (n - pi2 - 1) as u64 {
                return Err(UpdateError::MalformedPatch);
            }
            let mis = misv as usize;
            let ghost apre2 = acc@;
            let mut t2: usize = 0;
            while t2 < mis
                invariant
                    t2 <= mis,
                    pi2 + 1 + mis <= n,
                    forall|u: int| 0 <= u < t2 ==> 0 <= #[trigger] patch@[pi2 + 1 + u] <= usize::MAX,
                    acc@ == apre2 + Seq::new(t2 as nat, |u: int| patch@[pi2 + 1 + u] as usize),
                decreases mis - t2,
            {
                let v = patch[pi2 + 1 + t2];
                if v < 0 {
                    return Err(UpdateError::MalformedPatch);
                }
                if v as u128 > usize::MAX as u128 {
                    return Err(UpdateError::MalformedPatch);
                }
                acc.push(v as usize);
                proof {
                    assert(acc@ =~= apre2 + Seq::new(
                        (t2 + 1) as nat,
                        |u: int| patch@[pi2 + 1 + u] as usize,
                    ));
                }
                t2 = t2 + 1;
            }
            let pi3 = pi2 + 1 + mis;
            let idx3: u128 = idx2 + mis as u128;
            if pi3 >= n {
                return Ok(acc);
            }
            idx = idx3;
            pi = pi3;
        }
    }
}


/// The per-player payload rows are consistent and fit the snapshot's
/// vectors.
pub open spec fn scores_payload_ok(g: &Game, totals: Seq<u32>, owned: Seq<u32>, dead: Seq<bool>) -> bool {
    &&& totals.len() == owned.len()
    &&& totals.len() == dead.len()
    &&& totals.len() <= g.scores@.len()
    &&& totals.len() <= g.tiles@.len()
    &&& totals.len() <= g.alive@.len()
}

impl Game {
    /// Records the searching player's seat from the game-start message.
    pub fn handle_game_start(&mut self, player_index: usize)
        ensures
            final(self).player_index == player_index,
            final(self).initialized == old(self).initialized,
            final(self).raw_map@ == old(self).raw_map@,
            final(self).turn == old(self).turn,
            final(self).width == old(self).width,
            final(self).height == old(self).height,
            final(self).generals@ == old(self).generals@,
            final(self).cities@ == old(self).cities@,
            final(self).scores@ == old(self).scores@,
            final(self).tiles@ == old(self).tiles@,
            final(self).alive@ == old(self).alive@,
    {
        self.player_index = player_index;
    }

    /// Refreshes the per-player totals from one update's scores payload.
    /// The wire carries a `dead` column; the snapshot stores liveness, so
    /// each `alive` flag is the negation of the payload's `dead` flag.
    #[verifier::loop_isolation(false)]
    fn update_scores(&mut self, totals: &Vec<u32>, owned: &Vec<u32>, dead: &Vec<bool>) -> (r:
        Result<(), UpdateError>)
        ensures
            r is Ok <==> scores_payload_ok(old(self), totals@, owned@, dead@),
            r is Ok ==> {
                &&& final(self).scores@.len() == old(self).scores@.len()
                &&& final(self).tiles@.len() == old(self).tiles@.len()
                &&& final(self).alive@.len() == old(self).alive@.len()
                &&& forall|i: int|
                    0 <= i < totals@.len() ==> final(self).scores@[i] == totals@[i] && final(self).tiles@[i] == owned@[i] && final(self).alive@[i] == !dead@[i]
                &&& forall|i: int|
                    totals@.len() <= i < old(self).scores@.len() ==> final(self).scores@[i] == old(self).scores@[i]
                &&& forall|i: int|
                    totals@.len() <= i < old(self).tiles@.len() ==> final(self).tiles@[i] == old(self).tiles@[i]
                &&& forall|i: int|
                    totals@.len() <= i < old(self).alive@.len() ==> final(self).alive@[i] == old(self).alive@[i]
            },
            r is Err ==> final(self).scores@ == old(self).scores@
                && final(self).tiles@ == old(self).tiles@
                && final(self).alive@ == old(self).alive@,
            final(self).raw_map@ == old(self).raw_map@,
            final(self).initialized == old(self).initialized,
            final(self).player_index == old(self).player_index,
            final(self).turn == old(self).turn,
            final(self).width == old(self).width,
            final(self).height == old(self).height,
            final(self).generals@ == old(self).generals@,
            final(self).cities@ == old(self).cities@,
    {
        let n = totals.len();
        if owned.len() != n || dead.len() != n || n > self.scores.len() || n > self.tiles.len()
            || n > self.alive.len() {
            return Err(UpdateError::MalformedPatch);
        }
        let mut i: usize = 0;
        while i < n
            invariant
                i <= n,
                n <= self.scores@.len(),
                n <= self.tiles@.len(),
                n <= self.alive@.len(),
                self.scores@.len() == old(self).scores@.len(),
                self.tiles@.len() == old(self).tiles@.len(),
                self.alive@.len() == old(self).alive@.len(),
                forall|k: int|
                    0 <= k < i ==> self.scores@[k] == totals@[k] && self.tiles@[k] == owned@[k]
                        && self.alive@[k] == !dead@[k],
                forall|k: int| i <= k < self.scores@.len() ==> self.scores@[k] == old(self).scores@[k],
                forall|k: int| i <= k < self.tiles@.len() ==> self.tiles@[k] == old(self).tiles@[k],
                forall|k: int| i <= k < self.alive@.len() ==> self.alive@[k] == old(self).alive@[k],
                self.raw_map@ == old(self).raw_map@,
                self.initialized == old(self).initialized,
                self.player_index == old(self).player_index,
                self.turn == old(self).turn,
                self.width == old(self).width,
                self.height == old(self).height,
                self.generals@ == old(self).generals@,
                self.cities@ == old(self).cities@,
            decreases n - i,
        {
            self.scores[i] = totals[i];
            self.tiles[i] = owned[i];
            self.alive[i] = !dead[i];
            i = i + 1;
        }
        Ok(())
    }
}


/// The first update can initialize the snapshot: it carries the board
/// size as its 3rd and 4th elements, a raw grid that fits that size, the
/// general coordinates, and a city diff decodable against the known list.
pub open spec fn init_payload_ok(
    g: &Game,
    map_diff: Seq<i64>,
    cities_diff: Seq<i64>,
    generals: Seq<i64>,
    num_players: int,
) -> bool {
    &&& map_diff.len() >= 4
    &&& 0 <= map_diff[2] <= 0x8000
    &&& 0 <= map_diff[3] <= 0x8000
    &&& map_diff.len() - 4 <= 2 * map_diff[2] * map_diff[3]
    &&& forall|i: int| 4 <= i < map_diff.len() ==> i32::MIN <= #[trigger] map_diff[i] <= i32::MAX
    &&& generals.len() <= num_players
    &&& forall|i: int|
        0 <= i < generals.len() ==> isize::MIN <= #[trigger] generals[i] <= isize::MAX
    &&& spec_patch_cities(g.cities@, cities_diff) is Some
}

impl Game {
    /// First-update initialization: size the board and the per-player
    /// vectors, copy the raw grid in, record the generals and decode the
    /// city list.  A malformed payload leaves the snapshot untouched.
    #[verifier::loop_isolation(false)]
    fn initialize(
        &mut self,
        map_diff: &Vec<i64>,
        cities_diff: &Vec<i64>,
        generals: &Vec<i64>,
        num_players: usize,
    ) -> (r: Result<(), UpdateError>)
        ensures
            r is Ok <==> init_payload_ok(old(self), map_diff@, cities_diff@, generals@, num_players as int),
            r is Ok ==> {
                &&& final(self).initialized
                &&& final(self).width == map_diff@[2]
                &&& final(self).height == map_diff@[3]
                &&& final(self).raw_map@.len() == 2 * map_diff@[2] * map_diff@[3]
                &&& forall|i: int|
                    0 <= i < map_diff@.len() - 4 ==> final(self).raw_map@[i] == map_diff@[4 + i] as i32
                &&& forall|i: int|
                    map_diff@.len() - 4 <= i < final(self).raw_map@.len() ==> final(self).raw_map@[i] == 0
                &&& final(self).generals@.len() == num_players
                &&& forall|i: int|
                    0 <= i < generals@.len() ==> final(self).generals@[i] == generals@[i] as isize
                &&& forall|i: int|
                    generals@.len() <= i < num_players ==> final(self).generals@[i] == 0
                &&& spec_patch_cities(old(self).cities@, cities_diff@) == Some(final(self).cities@)
                &&& final(self).scores@.len() == num_players
                &&& final(self).tiles@.len() == num_players
                &&& final(self).alive@.len() == num_players
                &&& forall|i: int| 0 <= i < num_players ==> final(self).scores@[i] == 0
                &&& forall|i: int| 0 <= i < num_players ==> final(self).tiles@[i] == 0
                &&& forall|i: int| 0 <= i < num_players ==> final(self).alive@[i] == false
            },
            r is Err ==> final(self).initialized == old(self).initialized && final(self).raw_map@
                == old(self).raw_map@ && final(self).width == old(self).width && final(self).height
                == old(self).height && final(self).generals@ == old(self).generals@ && final(self).cities@ == old(self).cities@ && final(self).scores@ == old(self).scores@ && final(self).tiles@ == old(self).tiles@ && final(self).alive@ == old(self).alive@,
            final(self).player_index == old(self).player_index,
            final(self).turn == old(self).turn,
    {
        let ghost me0 = *self;
        if map_diff.len() < 4 {
            return Err(UpdateError::MalformedPatch);
        }
        let wv = map_diff[2];
        let hv = map_diff[3];
        if wv < 0 || wv > 0x8000 || hv < 0 || hv > 0x8000 {
            return Err(UpdateError::MalformedPatch);
        }
        let w = wv as usize;
        let h = hv as usize;
        proof {
            assert(2 * (w as int) * (h as int) <= 0x8000_0000) by (nonlinear_arith)
                requires
                    0 <= w as int <= 0x8000,
                    0 <= h as int <= 0x8000,
            ;
        }
        let area2 = 2 * w * h;
        if map_diff.len() - 4 > area2 {
            return Err(UpdateError::MalformedPatch);
        }
        if generals.len() > num_players {
            return Err(UpdateError::MalformedPatch);
        }
        // Copy the raw grid, checking each value fits a cell.
        let mut raw: Vec<i32> = Vec::new();
        let mut i: usize = 0;
        while i < area2
            invariant
                i <= area2,
                raw@.len() == i,
                map_diff@.len() - 4 <= area2,
                forall|k: int|
                    0 <= k < i && k < map_diff@.len() - 4 ==> raw@[k] == map_diff@[4 + k] as i32
                        && i32::MIN <= map_diff@[4 + k] <= i32::MAX,
                forall|k: int| map_diff@.len() - 4 <= k < i ==> raw@[k] == 0,
            decreases area2 - i,
        {
            if i < map_diff.len() - 4 {
                let v = map_diff[4 + i];
                if v < i32::MIN as i64 || v > i32::MAX as i64 {
                    return Err(UpdateError::MalformedPatch);
                }
                raw.push(v as i32);
            } else {
                raw.push(0);
            }
            i = i + 1;
        }
        proof {
            assert forall|k: int| 4 <= k < map_diff@.len() implies i32::MIN <= #[trigger] map_diff@[k]
                <= i32::MAX by {
                let k2 = k - 4;
                assert(raw@[k2] == map_diff@[4 + k2] as i32 && i32::MIN <= map_diff@[4 + k2]
                    <= i32::MAX);
                assert(4 + k2 == k);
            }
        }
        // Record the generals, padding with zeros.
        let mut gen: Vec<isize> = Vec::new();
        let mut gi: usize = 0;
        while gi < num_players
            invariant
                gi <= num_players,
                gen@.len() == gi,
                generals@.len() <= num_players,
                forall|k: int|
                    0 <= k < gi && k < generals@.len() ==> gen@[k] == generals@[k] as isize
                        && isize::MIN <= generals@[k] <= isize::MAX,
                forall|k: int| generals@.len() <= k < gi ==> gen@[k] == 0,
            decreases num_players - gi,
        {
            if gi < generals.len() {
                let v = generals[gi];
                if v < isize::MIN as i64 || v > isize::MAX as i64 {
                    return Err(UpdateError::MalformedPatch);
                }
                gen.push(v as isize);
            } else {
                gen.push(0);
            }
            gi = gi + 1;
        }
        proof {
            assert forall|k: int| 0 <= k < generals@.len() implies isize::MIN <= #[trigger] generals@[k]
                <= isize::MAX by {
                assert(gen@[k] == generals@[k] as isize && isize::MIN <= generals@[k]
                    <= isize::MAX);
            }
        }
        // Decode the city list against the current one.
        let new_cities = match decode_cities(&self.cities, cities_diff) {
            Ok(v) => v,
            Err(e) => {
                return Err(e);
            },
        };
        // Zero the per-player counters.
        let mut zeros: Vec<u32> = Vec::new();
        let mut zeros2: Vec<u32> = Vec::new();
        let mut falses: Vec<bool> = Vec::new();
        let mut pi: usize = 0;
        while pi < num_players
            invariant
                pi <= num_players,
                zeros@.len() == pi,
                zeros2@.len() == pi,
                falses@.len() == pi,
                forall|k: int| 0 <= k < pi ==> #[trigger] zeros@[k] == 0,
                forall|k: int| 0 <= k < pi ==> #[trigger] zeros2@[k] == 0,
                forall|k: int| 0 <= k < pi ==> #[trigger] falses@[k] == false,
            decreases num_players - pi,
        {
            zeros.push(0);
            zeros2.push(0);
            falses.push(false);
            pi = pi + 1;
        }
        self.initialized = true;
        self.width = w;
        self.height = h;
        self.raw_map = raw;
        self.generals = gen;
        self.cities = new_cities;
        self.scores = zeros;
        self.tiles = zeros2;
        self.alive = falses;
        Ok(())
    }

    /// Consumes one structured server update.  The first one initializes
    /// the snapshot and loads the per-player totals; later ones patch the
    /// grid and the city list, refresh the generals and the totals, and
    /// record the turn.  A malformed update is rejected with the whole
    /// snapshot left untouched.
    #[verifier::loop_isolation(false)]
    pub fn handle_game_update(
        &mut self,
        turn: i32,
        map_diff: &Vec<i64>,
        cities_diff: &Vec<i64>,
        generals: &Vec<i64>,
        totals: &Vec<u32>,
        owned: &Vec<u32>,
        dead: &Vec<bool>,
    ) -> (r: Result<(), UpdateError>)
        ensures
            !old(self).initialized ==> (r is Ok <==> init_payload_ok(
                old(self),
                map_diff@,
                cities_diff@,
                generals@,
                totals@.len() as int,
            ) && owned@.len() == totals@.len() && dead@.len() == totals@.len()),
            !old(self).initialized && r is Ok ==> {
                &&& final(self).initialized
                &&& final(self).width == map_diff@[2]
                &&& final(self).height == map_diff@[3]
                &&& final(self).raw_map@.len() == 2 * map_diff@[2] * map_diff@[3]
                &&& forall|i: int|
                    0 <= i < map_diff@.len() - 4 ==> final(self).raw_map@[i] == map_diff@[4 + i] as i32
                &&& forall|i: int|
                    map_diff@.len() - 4 <= i < final(self).raw_map@.len() ==> final(self).raw_map@[i] == 0
                &&& spec_patch_cities(old(self).cities@, cities_diff@) == Some(final(self).cities@)
                &&& final(self).generals@.len() == totals@.len()
                &&& forall|i: int|
                    0 <= i < generals@.len() ==> final(self).generals@[i] == generals@[i] as isize
                &&& forall|i: int|
                    generals@.len() <= i < totals@.len() ==> final(self).generals@[i] == 0
                &&& final(self).scores@ == totals@
                &&& final(self).tiles@ == owned@
                &&& final(self).alive@.len() == dead@.len()
                &&& forall|i: int| 0 <= i < dead@.len() ==> final(self).alive@[i] == !dead@[i]
                &&& final(self).turn == old(self).turn
            },
            old(self).initialized ==> (r is Ok <==> {
                &&& spec_patch_map(old(self).raw_map@, map_diff@) is Some
                &&& spec_patch_cities(old(self).cities@, cities_diff@) is Some
                &&& generals@.len() <= old(self).generals@.len()
                &&& forall|i: int|
                    0 <= i < generals@.len() ==> isize::MIN <= #[trigger] generals@[i]
                        <= isize::MAX
                &&& scores_payload_ok(old(self), totals@, owned@, dead@)
            }),
            old(self).initialized && r is Ok ==> {
                &&& final(self).initialized
                &&& final(self).width == old(self).width
                &&& final(self).height == old(self).height
                &&& final(self).turn == turn
                &&& spec_patch_map(old(self).raw_map@, map_diff@) == Some(final(self).raw_map@)
                &&& spec_patch_cities(old(self).cities@, cities_diff@) == Some(final(self).cities@)
                &&& final(self).generals@.len() == old(self).generals@.len()
                &&& forall|i: int|
                    0 <= i < generals@.len() ==> final(self).generals@[i] == generals@[i] as isize
                &&& forall|i: int|
                    generals@.len() <= i < old(self).generals@.len() ==> final(self).generals@[i]
                        == old(self).generals@[i]
                &&& forall|i: int|
                    0 <= i < totals@.len() ==> final(self).scores@[i] == totals@[i] && final(self).tiles@[i] == owned@[i] && final(self).alive@[i] == !dead@[i]
            },
            r is Err ==> final(self).initialized == old(self).initialized && final(self).raw_map@
                == old(self).raw_map@ && final(self).width == old(self).width && final(self).height
                == old(self).height && final(self).generals@ == old(self).generals@ && final(self).cities@ == old(self).cities@ && final(self).scores@ == old(self).scores@ && final(self).tiles@ == old(self).tiles@ && final(self).alive@ == old(self).alive@ && final(self).turn == old(self).turn,
            final(self).player_index == old(self).player_index,
    {
        if !self.initialized {
            if owned.len() != totals.len() || dead.len() != totals.len() {
                return Err(UpdateError::MalformedPatch);
            }
            match self.initialize(map_diff, cities_diff, generals, totals.len()) {
                Ok(()) => {},
                Err(e) => {
                    return Err(e);
                },
            }
            match self.update_scores(totals, owned, dead) {
                Ok(()) => {},
                Err(e) => {
                    proof {
                        assert(false);
                    }
                    return Err(e);
                },
            }
            proof {
                assert(final(self).scores@ =~= totals@);
                assert(final(self).tiles@ =~= owned@);

            }
            return Ok(());
        }
        // Validate everything that does not go through an all-or-nothing
        // helper before committing anything.
        if generals.len() > self.generals.len() {
            return Err(UpdateError::MalformedPatch);
        }
        let mut gi: usize = 0;
        while gi < generals.len()
            invariant
                gi <= generals@.len(),
                forall|k: int| 0 <= k < gi ==> isize::MIN <= #[trigger] generals@[k] <= isize::MAX,
            decreases generals@.len() - gi,
        {
            let v = generals[gi];
            if v < isize::MIN as i64 || v > isize::MAX as i64 {
                return Err(UpdateError::MalformedPatch);
            }
            gi = gi + 1;
        }
        let n = totals.len();
        if owned.len() != n || dead.len() != n || n > self.scores.len() || n > self.tiles.len()
            || n > self.alive.len() {
            return Err(UpdateError::MalformedPatch);
        }
        let new_cities = match decode_cities(&self.cities, cities_diff) {
            Ok(v) => v,
            Err(e) => {
                return Err(e);
            },
        };
        match self.patch_map(map_diff) {
            Ok(()) => {},
            Err(e) => {
                return Err(e);
            },
        }
        // Commit the rest.
        self.turn = turn;
        self.cities = new_cities;
        let mut gj: usize = 0;
        while gj < generals.len()
            invariant
                gj <= generals@.len(),
                generals@.len() <= self.generals@.len(),
                self.generals@.len() == old(self).generals@.len(),
                forall|k: int| 0 <= k < gj ==> self.generals@[k] == generals@[k] as isize,
                forall|k: int|
                    gj <= k < self.generals@.len() ==> self.generals@[k] == old(self).generals@[k],
                forall|k: int| 0 <= k < generals@.len() ==> isize::MIN <= #[trigger] generals@[k] <= isize::MAX,
                self.turn == turn,
                self.initialized == old(self).initialized,
                self.player_index == old(self).player_index,
                self.width == old(self).width,
                self.height == old(self).height,
                spec_patch_map(old(self).raw_map@, map_diff@) == Some(self.raw_map@),
                spec_patch_cities(old(self).cities@, cities_diff@) == Some(self.cities@),
                self.scores@ == old(self).scores@,
                self.tiles@ == old(self).tiles@,
                self.alive@ == old(self).alive@,
            decreases generals@.len() - gj,
        {
            self.generals[gj] = generals[gj] as isize;
            gj = gj + 1;
        }
        match self.update_scores(totals, owned, dead) {
            Ok(()) => {},
            Err(e) => {
                proof {
                    assert(false);
                }
                return Err(e);
            },
        }
        Ok(())
    }
}

} // verus!
