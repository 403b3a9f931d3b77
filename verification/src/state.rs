//! The locally-owned simulation of the grid: tile kinds, owners and army
//! counts, plus the incremental bookkeeping (owned-tile index, per-player
//! land/score/city counters and the periodic growth law) that lets the
//! search apply and undo moves in O(owned tiles) instead of O(grid).
//!
//! Every mutation comes as an exact apply/undo pair: `apply_action` returns
//! the two pre-move counts, and `unapply_action` with those counts restores
//! the state bit for bit.  The inverse law is proved once and for all over
//! the mathematical model (`lemma_apply_unapply_inverse`).

use vstd::prelude::*;

use vstd::arithmetic::mul::lemma_mul_inequality;
use vstd::arithmetic::mul::lemma_mul_nonnegative;

use crate::action::Action;
use crate::game::Game;

verus! {

/// Terrain/ownership classification of one grid cell.
#[derive(Clone, Copy, PartialEq, Eq, Structural, Debug)]
pub enum TileKind {
    Plain,
    City,
    Mountain,
    Fog,
    Obstacle,
    General,
}

/// One grid cell: terrain kind, owning seat and garrisoned army count.
/// `owner == player_count` is the "unowned" sentinel.
#[derive(Clone, Copy, PartialEq, Eq, Structural, Debug)]
pub struct Tile {
    pub kind: TileKind,
    pub owner: usize,
    pub count: u32,
}

/// A grid coordinate: column `x`, row `y`.
#[derive(Clone, Copy, PartialEq, Eq, Structural, Debug)]
pub struct Pair {
    pub x: usize,
    pub y: usize,
}

/// Mathematical image of a tile, with unbounded integers.
#[verifier::ext_equal]
pub ghost struct TileM {
    pub kind: TileKind,
    pub owner: int,
    pub count: int,
}

/// Mathematical image of the whole simulation state; the contracts of the
/// mutating operations are stated as pure functions over this model.
#[verifier::ext_equal]
pub ghost struct StateM {
    pub width: int,
    pub height: int,
    pub player_count: int,
    pub tiles: Seq<TileM>,
    pub global_turn: int,
    pub scores: Seq<int>,
    pub land: Seq<int>,
    pub cities: Seq<int>,
    pub owned: Seq<Pair>,
}

/// Flat row-major index of a coordinate.
pub open spec fn pair_idx(p: Pair, w: int) -> int {
    p.y * w + p.x
}

/// The coordinate whose flat row-major index is `i`.
pub open spec fn idx_pair(i: int, w: int) -> Pair {
    Pair { x: (i % w) as usize, y: (i / w) as usize }
}

/// The mutable simulation state.  The searching player is always seat 0
/// (ownership codes are rotated at build time), and `owned_tiles` lists
/// exactly the coordinates whose tile seat 0 owns.
#[derive(Clone, Debug, PartialEq)]
pub struct State {
    pub width: usize,
    pub height: usize,
    pub player_count: usize,
    /// Row-major flat grid of length `width * height`.
    pub tiles: Vec<Tile>,
    pub global_turn: usize,
    pub scores: Vec<u32>,
    pub land: Vec<u32>,
    pub cities: Vec<u32>,
    pub owned_tiles: Vec<Pair>,
}

/// Mathematical image of one executable tile.
pub open spec fn tile_view(t: Tile) -> TileM {
    TileM { kind: t.kind, owner: t.owner as int, count: t.count as int }
}

/// A `Vec<u32>` counter vector as a sequence of integers.
pub open spec fn counters_view(v: Seq<u32>) -> Seq<int> {
    Seq::new(v.len(), |i: int| v[i] as int)
}

impl View for State {
    type V = StateM;

    open spec fn view(&self) -> StateM {
        StateM {
            width: self.width as int,
            height: self.height as int,
            player_count: self.player_count as int,
            tiles: Seq::new(self.tiles@.len(), |i: int| tile_view(self.tiles@[i])),
            global_turn: self.global_turn as int,
            scores: counters_view(self.scores@),
            land: counters_view(self.land@),
            cities: counters_view(self.cities@),
            owned: self.owned_tiles@,
        }
    }
}


/// Base terrain classification of a raw ownership/terrain code.
pub open spec fn base_kind(code: int) -> TileKind {
    if code == -2 {
        TileKind::Mountain
    } else if code == -3 {
        TileKind::Fog
    } else if code == -4 {
        TileKind::Obstacle
    } else {
        TileKind::Plain
    }
}

/// Some known city stands on flat index `i`.
pub open spec fn city_listed(g: &Game, i: int) -> bool {
    exists|ci: int| 0 <= ci < g.cities@.len() && #[trigger] g.cities@[ci] == i
}

/// Some known general stands on flat index `i`.
pub open spec fn general_listed(g: &Game, i: int) -> bool {
    exists|gi: int| 0 <= gi < g.generals@.len() && #[trigger] g.generals@[gi] == i
}

/// The tile that `State::new` builds for flat index `i`: terrain from the
/// raw code with city/general overlays (a city overlay wins), the owner
/// seat rotated so the searching player is seat 0, and the army count from
/// the raw grid.
pub open spec fn spec_build_tile(g: &Game, i: int) -> TileM {
    let w = g.width as int;
    let h = g.height as int;
    let n = g.alive@.len() as int;
    let code = g.raw_map@[w * h + i] as int;
    let owner = if code < 0 {
        n
    } else {
        (code + (n - g.player_index)) % n
    };
    let kind = if city_listed(g, i) {
        TileKind::City
    } else if general_listed(g, i) {
        TileKind::General
    } else {
        base_kind(code)
    };
    TileM { kind: kind, owner: owner, count: g.raw_map@[i] as int }
}

/// The raw snapshot is complete and consistent enough to build a
/// simulation from: the board fits the compact action encoding, the flat
/// grid has both channels, the per-player vectors agree, every owned cell
/// has a garrison, and every landmark coordinate is on the board.
pub open spec fn buildable(g: &Game) -> bool {
    &&& 1 <= g.width <= 32
    &&& 1 <= g.height <= 32
    &&& g.raw_map@.len() == 2 * g.width * g.height
    &&& 1 <= g.alive@.len() <= 1024
    &&& g.player_index < g.alive@.len()
    &&& g.scores@.len() == g.alive@.len()
    &&& g.tiles@.len() == g.alive@.len()
    &&& g.turn >= 0
    &&& g.tiles@[0] < 0x8000_0000
    &&& forall|i: int| 0 <= i < g.width * g.height ==> 0 <= #[trigger] g.raw_map@[i]
    &&& forall|i: int|
        0 <= i < g.width * g.height ==> (g.raw_map@[g.width * g.height + i] >= 0
            ==> #[trigger] g.raw_map@[i] >= 1)
    &&& forall|gi: int|
        0 <= gi < g.generals@.len() ==> #[trigger] g.generals@[gi] == -1 || (0 <= g.generals@[gi]
            < g.width * g.height)
    &&& forall|ci: int|
        0 <= ci < g.cities@.len() ==> 0 <= #[trigger] g.cities@[ci] < g.width * g.height
}


/// Decides `buildable` at runtime, so that unverified callers need not
/// restate the precondition of `State::new` by hand.
#[verifier::loop_isolation(false)]
pub fn check_buildable(g: &Game) -> (b: bool)
    ensures
        b == buildable(g),
{
    let w = g.width;
    let h = g.height;
    if !(1 <= w && w <= 32 && 1 <= h && h <= 32) {
        return false;
    }
    proof {
        assert((w as int) * (h as int) <= 1024) by (nonlinear_arith)
            requires
                1 <= w as int <= 32,
                1 <= h as int <= 32,
        ;
    }
    let area = w * h;
    proof {
        assert(2 * (g.width as int) * (g.height as int) == 2 * (area as int)) by (nonlinear_arith)
            requires
                (area as int) == (g.width as int) * (g.height as int),
        ;
    }
    if g.raw_map.len() != 2 * area {
        return false;
    }
    let n = g.alive.len();
    if !(1 <= n && n <= 1024) {
        return false;
    }
    if g.player_index >= n {
        return false;
    }
    if g.scores.len() != n || g.tiles.len() != n {
        return false;
    }
    if g.turn < 0 {
        return false;
    }
    if g.tiles[0] >= 0x8000_0000 {
        return false;
    }
    let mut i: usize = 0;
    while i < area
        invariant
            i <= area,
            forall|k: int| 0 <= k < i ==> 0 <= #[trigger] g.raw_map@[k],
            forall|k: int|
                0 <= k < i ==> (g.raw_map@[area + k] >= 0 ==> #[trigger] g.raw_map@[k] >= 1),
        decreases area - i,
    {
        if g.raw_map[i] < 0 {
            return false;
        }
        if g.raw_map[area + i] >= 0 && g.raw_map[i] < 1 {
            return false;
        }
        i = i + 1;
    }
    let mut gi: usize = 0;
    while gi < g.generals.len()
        invariant
            gi <= g.generals@.len(),
            forall|k: int|
                0 <= k < gi ==> #[trigger] g.generals@[k] == -1 || (0 <= g.generals@[k]
                    < area as int),
        decreases g.generals@.len() - gi,
    {
        let v = g.generals[gi];
        if v != -1 && !(v >= 0 && v < area as isize) {
            return false;
        }
        gi = gi + 1;
    }
    let mut ci: usize = 0;
    while ci < g.cities.len()
        invariant
            ci <= g.cities@.len(),
            forall|k: int| 0 <= k < ci ==> #[trigger] g.cities@[k] < area as int,
        decreases g.cities@.len() - ci,
    {
        if g.cities[ci] >= area {
            return false;
        }
        ci = ci + 1;
    }
    true
}

/// The owned-tiles index that the build scan produces: the coordinates of
/// the first `upto` cells whose built tile belongs to seat 0, in row-major
/// order.
pub open spec fn owned_scan(g: &Game, upto: int) -> Seq<Pair>
    decreases upto,
{
    if upto <= 0 {
        Seq::empty()
    } else {
        let rest = owned_scan(g, upto - 1);
        if spec_build_tile(g, upto - 1).owner == 0 {
            rest.push(idx_pair(upto - 1, g.width as int))
        } else {
            rest
        }
    }
}

/// The simulation state that `State::new` builds from a snapshot: every
/// cell classified by `spec_build_tile`, the owned-tiles index from the
/// row-major scan, the owned city/general count in `cities[0]`, and the
/// turn and per-player counters taken over from the snapshot.
pub open spec fn build_model(g: &Game) -> StateM {
    let w = g.width as int;
    let h = g.height as int;
    let tiles = Seq::new((w * h) as nat, |i: int| spec_build_tile(g, i));
    let owned = owned_scan(g, w * h);
    StateM {
        width: w,
        height: h,
        player_count: g.alive@.len() as int,
        tiles: tiles,
        global_turn: g.turn as int,
        scores: counters_view(g.scores@),
        land: counters_view(g.tiles@),
        cities: Seq::new(
            g.alive@.len(),
            |i: int|
                if i == 0 {
                    grow_count_rec(tiles, owned, w, false, owned.len() as int)
                } else {
                    0int
                },
        ),
        owned: owned,
    }
}

/// The action is one the enumeration policy emits: a movement (never the
/// pass action, and in canonical encoding) from a tile the searching
/// player owns that holds more than one unit, to a 4-adjacent on-board
/// tile that is not a Mountain, City or Obstacle; a half move only from a
/// tile holding more than two units.
pub open spec fn enumerable(m: StateM, a: Action) -> bool {
    &&& !a.spec_is_empty()
    &&& a.0 < 0x2000
    &&& a.spec_src_x() < m.width
    &&& a.spec_src_y() < m.height
    &&& 0 <= a.spec_dst_x() < m.width
    &&& 0 <= a.spec_dst_y() < m.height
    &&& m.tiles[src_idx(m, a)].owner == 0
    &&& m.tiles[src_idx(m, a)].count > 1
    &&& m.tiles[dst_idx(m, a)].kind != TileKind::Mountain
    &&& m.tiles[dst_idx(m, a)].kind != TileKind::City
    &&& m.tiles[dst_idx(m, a)].kind != TileKind::Obstacle
    &&& (a.spec_is_half() ==> m.tiles[src_idx(m, a)].count > 2)
}

/// A sequence keeps its members when a value is pushed.
proof fn lemma_push_keeps(s: Seq<Action>, x: Action, y: Action)
    requires
        s.contains(y),
    ensures
        s.push(x).contains(y),
{
    let i = choose|i: int| 0 <= i < s.len() && s[i] == y;
    assert(s.push(x)[i] == y);
}

/// The coordinate lies on the board.
pub open spec fn in_bounds_pair(p: Pair, w: int, h: int) -> bool {
    p.x < w && p.y < h
}

/// Well-formedness of the simulation state: grid dimensions fit the compact
/// action encoding, the per-player vectors have one entry per seat, owners
/// are in range, any garrisoned-by-nobody tile has the unowned sentinel, and
/// `owned` is a duplicate-free list of in-bounds coordinates holding
/// exactly the tiles seat 0 owns.
pub open spec fn wf(m: StateM) -> bool {
    &&& 1 <= m.width <= 32
    &&& 1 <= m.height <= 32
    &&& m.tiles.len() == m.width * m.height
    &&& 1 <= m.player_count
    &&& m.scores.len() == m.player_count
    &&& m.land.len() == m.player_count
    &&& m.cities.len() == m.player_count
    &&& 0 <= m.global_turn <= usize::MAX
    &&& forall|i: int|
        0 <= i < m.tiles.len() ==> {
            &&& 0 <= (#[trigger] m.tiles[i]).owner <= m.player_count
            &&& 0 <= m.tiles[i].count <= u32::MAX
            &&& (m.tiles[i].count == 0 ==> m.tiles[i].owner == m.player_count)
        }
    &&& forall|i: int| 0 <= i < m.player_count ==> 0 <= #[trigger] m.scores[i] <= u32::MAX
    &&& forall|i: int| 0 <= i < m.player_count ==> 0 <= #[trigger] m.land[i] <= u32::MAX
    &&& forall|i: int| 0 <= i < m.player_count ==> 0 <= #[trigger] m.cities[i] <= u32::MAX
    &&& m.land[0] < 0x8000_0000
    &&& m.owned.no_duplicates()
    &&& forall|j: int|
        0 <= j < m.owned.len() ==> in_bounds_pair(#[trigger] m.owned[j], m.width, m.height)
    &&& forall|p: Pair|
        in_bounds_pair(p, m.width, m.height) ==> (#[trigger] m.owned.contains(p)
            <==> m.tiles[pair_idx(p, m.width)].owner == 0)
}

/// A coordinate on the board has a flat index on the grid.
pub proof fn lemma_pair_idx_bounds(p: Pair, w: int, h: int)
    requires
        1 <= w,
        in_bounds_pair(p, w, h),
    ensures
        0 <= pair_idx(p, w) < w * h,
    decreases h,
{
    assert(0 <= p.y * w + p.x < w * h) by (nonlinear_arith)
        requires
            1 <= w,
            0 <= p.x < w,
            0 <= p.y < h,
    ;
}

/// Distinct in-bounds coordinates have distinct flat indices.
pub proof fn lemma_pair_idx_injective(p: Pair, q: Pair, w: int, h: int)
    requires
        1 <= w,
        in_bounds_pair(p, w, h),
        in_bounds_pair(q, w, h),
        pair_idx(p, w) == pair_idx(q, w),
    ensures
        p == q,
{
    assert(p.x == q.x && p.y == q.y) by (nonlinear_arith)
        requires
            1 <= w,
            0 <= p.x < w,
            0 <= q.x < w,
            0 <= p.y,
            0 <= q.y,
            p.y * w + p.x == q.y * w + q.x,
    ;
}

/// Flat index of the source tile of a (non-pass) action.
pub open spec fn src_idx(m: StateM, a: Action) -> int {
    a.spec_src_y() * m.width + a.spec_src_x()
}

/// Flat index of the destination tile of a (non-pass) action.
pub open spec fn dst_idx(m: StateM, a: Action) -> int {
    a.spec_dst_y() * m.width + a.spec_dst_x()
}

/// Source coordinate of a (non-pass) action.
pub open spec fn src_pair(a: Action) -> Pair {
    Pair { x: a.spec_src_x() as usize, y: a.spec_src_y() as usize }
}

/// Destination coordinate of a (non-pass) action.
pub open spec fn dst_pair(a: Action) -> Pair {
    Pair { x: a.spec_dst_x() as usize, y: a.spec_dst_y() as usize }
}

/// The action can be applied to the state: it is the pass action, or its
/// source and destination lie on the board and the source holds at least
/// two units (the move must leave one behind and still project force).
pub open spec fn can_move(m: StateM, a: Action) -> bool {
    a.spec_is_empty() || {
        &&& a.spec_src_x() < m.width
        &&& a.spec_src_y() < m.height
        &&& 0 <= a.spec_dst_x() < m.width
        &&& 0 <= a.spec_dst_y() < m.height
        &&& m.tiles[src_idx(m, a)].count >= 2
    }
}

/// How many units leave the source: half (rounded down) on a half move,
/// all but one otherwise.
pub open spec fn moved_amount(sb: int, half: bool) -> int {
    if half {
        sb / 2
    } else {
        sb - 1
    }
}

/// How many units stay on the source.
pub open spec fn remainder_amount(sb: int, half: bool) -> int {
    if half {
        (sb + 1) / 2
    } else {
        1
    }
}

/// The two pre-move counts (source, destination) that `apply_action`
/// returns and `unapply_action` needs to restore the state.
pub open spec fn counts_of(m: StateM, a: Action) -> (int, int) {
    if a.spec_is_empty() {
        (0, 0)
    } else {
        (m.tiles[src_idx(m, a)].count, m.tiles[dst_idx(m, a)].count)
    }
}

/// Effect of the movement phase alone: transfer the moved units, and on a
/// capture (destination count was 0, hence unowned) take ownership of the
/// destination, append it to the owned list and bump the land counter.
pub open spec fn spec_move(m: StateM, a: Action) -> StateM {
    if a.spec_is_empty() {
        m
    } else {
        let si = src_idx(m, a);
        let di = dst_idx(m, a);
        let sb = m.tiles[si].count;
        let db = m.tiles[di].count;
        let mv = moved_amount(sb, a.spec_is_half());
        let t1 = m.tiles.update(
            si,
            TileM { count: remainder_amount(sb, a.spec_is_half()), ..m.tiles[si] },
        );
        let t2 = t1.update(
            di,
            TileM {
                kind: t1[di].kind,
                owner: if db == 0 {
                    0
                } else {
                    t1[di].owner
                },
                count: db + mv,
            },
        );
        if db == 0 {
            StateM {
                tiles: t2,
                land: m.land.update(0, m.land[0] + 1),
                owned: m.owned.push(dst_pair(a)),
                ..m
            }
        } else {
            StateM { tiles: t2, ..m }
        }
    }
}

/// Whether a tile of this kind receives the growth bonus: every owned tile
/// on the 50-turn milestone, only cities and generals on the 2-turn one.
pub open spec fn grow_pred(k: TileKind, all: bool) -> bool {
    all || k == TileKind::City || k == TileKind::General
}

/// Some of the first `upto` owned coordinates has flat index `i`.
pub open spec fn owned_hits(owned0: Seq<Pair>, w: int, i: int, upto: int) -> bool {
    exists|j: int| 0 <= j < upto && j < owned0.len() && pair_idx(#[trigger] owned0[j], w) == i
}

/// The grid after the first `upto` owned coordinates have received a growth
/// bonus of `c` (kind and owner untouched).
pub open spec fn grown_tiles(
    tiles0: Seq<TileM>,
    owned0: Seq<Pair>,
    w: int,
    c: int,
    all: bool,
    upto: int,
) -> Seq<TileM> {
    Seq::new(
        tiles0.len(),
        |i: int|
            if owned_hits(owned0, w, i, upto) && grow_pred(tiles0[i].kind, all) {
                TileM { count: tiles0[i].count + c, ..tiles0[i] }
            } else {
                tiles0[i]
            },
    )
}

/// How many of the first `upto` owned coordinates receive the bonus.
pub open spec fn grow_count_rec(
    tiles0: Seq<TileM>,
    owned0: Seq<Pair>,
    w: int,
    all: bool,
    upto: int,
) -> int
    decreases upto,
{
    if upto <= 0 {
        0
    } else {
        grow_count_rec(tiles0, owned0, w, all, upto - 1) + if grow_pred(
            tiles0[pair_idx(owned0[upto - 1], w)].kind,
            all,
        ) {
            1int
        } else {
            0int
        }
    }
}

/// Number of owned tiles that the growth law boosts in state `m`.
pub open spec fn grow_count(m: StateM, all: bool) -> int {
    grow_count_rec(m.tiles, m.owned, m.width, all, m.owned.len() as int)
}

/// Effect of one growth event with bonus `cities[0]` on tiles and score.
pub open spec fn grow_effect(m: StateM, all: bool) -> StateM {
    let c = m.cities[0];
    StateM {
        tiles: grown_tiles(m.tiles, m.owned, m.width, c, all, m.owned.len() as int),
        scores: m.scores.update(0, m.scores[0] + grow_count(m, all) * c),
        ..m
    }
}

/// Advance the turn counter and apply the growth law the new turn calls
/// for: every owned tile every 50 turns, owned cities and generals every 2.
pub open spec fn spec_grow(m: StateM) -> StateM {
    let m2 = StateM { global_turn: m.global_turn + 1, ..m };
    if m2.global_turn % 50 == 0 {
        grow_effect(m2, true)
    } else if m2.global_turn % 2 == 0 {
        grow_effect(m2, false)
    } else {
        m2
    }
}

/// Full effect of applying an action: the movement phase, then the turn
/// advance with its growth event.
pub open spec fn spec_apply(m: StateM, a: Action) -> StateM {
    spec_grow(spec_move(m, a))
}

/// Inverse of one growth event: subtract the bonus from the same tiles and
/// the same amount from the score.
pub open spec fn ungrow_effect(m: StateM, all: bool) -> StateM {
    let c = m.cities[0];
    StateM {
        tiles: grown_tiles(m.tiles, m.owned, m.width, -c, all, m.owned.len() as int),
        scores: m.scores.update(0, m.scores[0] - grow_count(m, all) * c),
        ..m
    }
}

/// Undo the growth event of the current turn, then step the turn back.
pub open spec fn spec_ungrow(m: StateM) -> StateM {
    let m2 = if m.global_turn % 50 == 0 {
        ungrow_effect(m, true)
    } else if m.global_turn % 2 == 0 {
        ungrow_effect(m, false)
    } else {
        m
    };
    StateM { global_turn: m.global_turn - 1, ..m2 }
}

/// Undo the movement phase: on a capture drop the appended owned entry,
/// give the land counter back and reset the destination to unowned; then
/// restore both pre-move counts.
pub open spec fn spec_unmove(m: StateM, a: Action, cnts: (int, int)) -> StateM {
    if a.spec_is_empty() {
        m
    } else {
        let si = src_idx(m, a);
        let di = dst_idx(m, a);
        let m1 = if cnts.1 == 0 {
            StateM {
                owned: m.owned.drop_last(),
                land: m.land.update(0, m.land[0] - 1),
                tiles: m.tiles.update(di, TileM { owner: m.player_count, ..m.tiles[di] }),
                ..m
            }
        } else {
            m
        };
        let t1 = m1.tiles.update(si, TileM { count: cnts.0, ..m1.tiles[si] });
        let t2 = t1.update(di, TileM { count: cnts.1, ..t1[di] });
        StateM { tiles: t2, ..m1 }
    }
}

/// Full inverse of `spec_apply` given the returned pre-move counts.
pub open spec fn spec_unapply(m: StateM, a: Action, cnts: (int, int)) -> StateM {
    spec_unmove(spec_ungrow(m), a, cnts)
}

/// No arithmetic in `apply_action` leaves the machine range: the turn
/// counter, the land counter, every boosted tile count, the score update
/// and the merged destination count all stay representable.
pub open spec fn fits(m: StateM, a: Action) -> bool {
    &&& m.global_turn + 1 <= usize::MAX
    &&& m.land[0] + 1 < 0x8000_0000
    &&& forall|j: int|
        0 <= j < m.owned.len() ==> m.tiles[pair_idx(#[trigger] m.owned[j], m.width)].count
            + m.cities[0] <= u32::MAX
    &&& m.scores[0] + (m.owned.len() + 1) * m.cities[0] <= u32::MAX
    &&& (!a.spec_is_empty() ==> m.tiles[src_idx(m, a)].count + m.tiles[dst_idx(m, a)].count
        + m.cities[0] <= u32::MAX)
}

/// The boosted count only depends on the kinds at the listed coordinates.
proof fn lemma_grow_count_congruence(
    t1: Seq<TileM>,
    t2: Seq<TileM>,
    owned0: Seq<Pair>,
    w: int,
    all: bool,
    upto: int,
)
    requires
        upto <= owned0.len(),
        forall|j: int|
            0 <= j < upto ==> t1[pair_idx(#[trigger] owned0[j], w)].kind == t2[pair_idx(
                owned0[j],
                w,
            )].kind,
    ensures
        grow_count_rec(t1, owned0, w, all, upto) == grow_count_rec(t2, owned0, w, all, upto),
    decreases upto,
{
    if upto > 0 {
        lemma_grow_count_congruence(t1, t2, owned0, w, all, upto - 1);
    }
}

/// The boosted count lies between 0 and the number of listed coordinates.
proof fn lemma_grow_count_bounds(tiles0: Seq<TileM>, owned0: Seq<Pair>, w: int, all: bool, upto: int)
    requires
        0 <= upto,
    ensures
        0 <= grow_count_rec(tiles0, owned0, w, all, upto) <= upto,
    decreases upto,
{
    if upto > 0 {
        lemma_grow_count_bounds(tiles0, owned0, w, all, upto - 1);
    }
}

/// On a 50-turn milestone every listed coordinate is boosted.
proof fn lemma_grow_count_all(tiles0: Seq<TileM>, owned0: Seq<Pair>, w: int, upto: int)
    requires
        0 <= upto,
    ensures
        grow_count_rec(tiles0, owned0, w, true, upto) == upto,
    decreases upto,
{
    if upto > 0 {
        lemma_grow_count_all(tiles0, owned0, w, upto - 1);
    }
}

/// The boosted count only reads the listed prefix.
proof fn lemma_grow_count_prefix(
    tiles0: Seq<TileM>,
    o1: Seq<Pair>,
    o2: Seq<Pair>,
    w: int,
    all: bool,
    upto: int,
)
    requires
        0 <= upto <= o1.len(),
        upto <= o2.len(),
        forall|j: int| 0 <= j < upto ==> #[trigger] o1[j] == o2[j],
    ensures
        grow_count_rec(tiles0, o1, w, all, upto) == grow_count_rec(tiles0, o2, w, all, upto),
    decreases upto,
{
    if upto > 0 {
        lemma_grow_count_prefix(tiles0, o1, o2, w, all, upto - 1);
    }
}

/// The movement phase preserves well-formedness, given room for the merged
/// destination count.
proof fn lemma_wf_move(m: StateM, a: Action)
    requires
        wf(m),
        can_move(m, a),
        fits(m, a),
    ensures
        wf(spec_move(m, a)),
{
    if !a.spec_is_empty() {
        let mid = spec_move(m, a);
        let si = src_idx(m, a);
        let di = dst_idx(m, a);
        let sp = src_pair(a);
        let dp = dst_pair(a);
        let sb = m.tiles[si].count;
        let db = m.tiles[di].count;
        lemma_pair_idx_bounds(sp, m.width, m.height);
        lemma_pair_idx_bounds(dp, m.width, m.height);
        assert(pair_idx(sp, m.width) == si);
        assert(pair_idx(dp, m.width) == di);
        assert(si != di) by {
            if si == di {
                lemma_pair_idx_injective(sp, dp, m.width, m.height);
            }
        }
        // A captured destination was unowned before the move, so it is not
        // yet in the owned list.
        if db == 0 {
            assert(m.tiles[di].owner == m.player_count);
            assert(!m.owned.contains(dp));
            assert(mid.owned == m.owned.push(dp));
            assert(mid.owned.no_duplicates()) by {
                assert(forall|i: int, j: int|
                    0 <= i < j < mid.owned.len() ==> mid.owned[i] != mid.owned[j]) by {
                    assert(forall|i: int| 0 <= i < m.owned.len() ==> mid.owned[i] == m.owned[i]);
                    assert(forall|i: int|
                        0 <= i < m.owned.len() ==> #[trigger] m.owned.contains(m.owned[i]));
                }
            }
        }
        // The ownership/owned-list correspondence survives the move.
        assert(forall|p: Pair|
            in_bounds_pair(p, m.width, m.height) ==> (#[trigger] mid.owned.contains(p)
                <==> mid.tiles[pair_idx(p, m.width)].owner == 0)) by {
            assert forall|p: Pair| in_bounds_pair(p, m.width, m.height) implies (
            #[trigger] mid.owned.contains(p) <==> mid.tiles[pair_idx(p, m.width)].owner == 0) by {
                lemma_pair_idx_bounds(p, m.width, m.height);
                if p != dp {
                    assert(pair_idx(p, m.width) != di) by {
                        if pair_idx(p, m.width) == di {
                            lemma_pair_idx_injective(p, dp, m.width, m.height);
                        }
                    }
                    assert(mid.tiles[pair_idx(p, m.width)].owner == m.tiles[pair_idx(
                        p,
                        m.width,
                    )].owner);
                    if db == 0 {
                        assert(mid.owned.contains(p) <==> m.owned.contains(p)) by {
                            if mid.owned.contains(p) {
                                let i = choose|i: int|
                                    0 <= i < mid.owned.len() && mid.owned[i] == p;
                                assert(i < m.owned.len());
                                assert(m.owned[i] == p);
                            }
                            if m.owned.contains(p) {
                                let i = choose|i: int|
                                    0 <= i < m.owned.len() && m.owned[i] == p;
                                assert(mid.owned[i] == p);
                            }
                        }
                    }
                } else {
                    if db == 0 {
                        assert(mid.owned[m.owned.len() as int] == dp);
                        assert(mid.owned.contains(dp));
                    } else {
                        assert(mid.tiles[di].owner == m.tiles[di].owner);
                        assert(mid.owned == m.owned);
                    }
                }
            }
        }
    }
}

/// Sufficient room for one growth event: every owned tile can take the
/// bonus, the score update stays representable and the turn can advance.
pub open spec fn grow_fits(m: StateM) -> bool {
    &&& m.global_turn + 1 <= usize::MAX
    &&& forall|j: int|
        0 <= j < m.owned.len() ==> m.tiles[pair_idx(#[trigger] m.owned[j], m.width)].count
            + m.cities[0] <= u32::MAX
    &&& m.scores[0] + m.owned.len() * m.cities[0] <= u32::MAX
}

/// The turn advance and its growth event preserve well-formedness.
proof fn lemma_wf_grow(m: StateM)
    requires
        wf(m),
        grow_fits(m),
    ensures
        wf(spec_grow(m)),
{
    let g = spec_grow(m);
    let c = m.cities[0];
    let len = m.owned.len() as int;
    lemma_grow_count_bounds(m.tiles, m.owned, m.width, true, len);
    lemma_grow_count_bounds(m.tiles, m.owned, m.width, false, len);
    lemma_mul_inequality(grow_count(m, true), len, c);
    lemma_mul_inequality(grow_count(m, false), len, c);
    lemma_mul_nonnegative(grow_count(m, true), c);
    lemma_mul_nonnegative(grow_count(m, false), c);
    assert forall|i: int| 0 <= i < g.tiles.len() implies {
        &&& (#[trigger] g.tiles[i]).owner == m.tiles[i].owner
        &&& g.tiles[i].kind == m.tiles[i].kind
        &&& 0 <= g.tiles[i].count <= u32::MAX
        &&& (g.tiles[i].count == 0 ==> g.tiles[i].owner == g.player_count)
    } by {
        if owned_hits(m.owned, m.width, i, len) {
            let j = choose|j: int|
                0 <= j < len && j < m.owned.len() && pair_idx(#[trigger] m.owned[j], m.width)
                    == i;
            assert(m.tiles[i].count + c <= u32::MAX);
        }
    }
    assert forall|p: Pair| in_bounds_pair(p, g.width, g.height) implies (
    #[trigger] g.owned.contains(p) <==> g.tiles[pair_idx(p, g.width)].owner == 0) by {
        lemma_pair_idx_bounds(p, m.width, m.height);
    }
}

/// After the movement phase there is still room for the growth event.
proof fn lemma_grow_fits_mid(m: StateM, a: Action)
    requires
        wf(m),
        can_move(m, a),
        fits(m, a),
    ensures
        grow_fits(spec_move(m, a)),
{
    let mid = spec_move(m, a);
    lemma_wf_move(m, a);
    assert(grow_fits(mid)) by {
        let c = m.cities[0];
        let len = m.owned.len() as int;
        lemma_mul_inequality(mid.owned.len() as int, len + 1, c);
        if !a.spec_is_empty() {
            let si = src_idx(m, a);
            let di = dst_idx(m, a);
            let sb = m.tiles[si].count;
            let db = m.tiles[di].count;
            let half = a.spec_is_half();
            lemma_pair_idx_bounds(src_pair(a), m.width, m.height);
            lemma_pair_idx_bounds(dst_pair(a), m.width, m.height);
            assert(pair_idx(src_pair(a), m.width) == si);
            assert(pair_idx(dst_pair(a), m.width) == di);
            assert(moved_amount(sb, half) <= sb);
            assert(remainder_amount(sb, half) <= sb);
            assert(mid.tiles[di].count == db + moved_amount(sb, half));
            assert(mid.tiles[di].count + c <= u32::MAX);
            assert(mid.tiles[si].count + c <= u32::MAX || si == di);
            assert forall|j: int| 0 <= j < mid.owned.len() implies mid.tiles[pair_idx(
                #[trigger] mid.owned[j],
                mid.width,
            )].count + mid.cities[0] <= u32::MAX by {
                let p = mid.owned[j];
                let i = pair_idx(p, m.width);
                lemma_pair_idx_bounds(p, m.width, m.height);
                if j < m.owned.len() {
                    assert(m.owned[j] == p);
                    assert(m.tiles[i].count + c <= u32::MAX);
                } else {
                    // the appended capture destination
                    assert(p == dst_pair(a));
                }
                assert(i == si || i == di || mid.tiles[i] == m.tiles[i]);
            }
        }
    }
}

/// Applying any admissible action preserves well-formedness.
pub proof fn lemma_wf_apply(m: StateM, a: Action)
    requires
        wf(m),
        can_move(m, a),
        fits(m, a),
    ensures
        wf(spec_apply(m, a)),
{
    let mid = spec_move(m, a);
    lemma_wf_move(m, a);
    lemma_grow_fits_mid(m, a);
    lemma_wf_grow(mid);
}

/// What `unapply_action` needs of the state it is handed: the turn can step
/// back, no growth subtraction or capture rollback underflows, and the
/// action's coordinates lie on the board.
pub open spec fn unapply_pre(m: StateM, a: Action, cnts: (int, int)) -> bool {
    &&& m.global_turn >= 1
    &&& (m.global_turn % 50 == 0 ==> {
        &&& forall|j: int|
            0 <= j < m.owned.len() ==> m.tiles[pair_idx(#[trigger] m.owned[j], m.width)].count
                >= m.cities[0]
        &&& m.scores[0] >= grow_count(m, true) * m.cities[0]
    })
    &&& (m.global_turn % 50 != 0 && m.global_turn % 2 == 0 ==> {
        &&& forall|j: int|
            0 <= j < m.owned.len() && grow_pred(
                m.tiles[pair_idx(#[trigger] m.owned[j], m.width)].kind,
                false,
            ) ==> m.tiles[pair_idx(m.owned[j], m.width)].count >= m.cities[0]
        &&& m.scores[0] >= grow_count(m, false) * m.cities[0]
    })
    &&& (!a.spec_is_empty() ==> {
        &&& a.spec_src_x() < m.width
        &&& a.spec_src_y() < m.height
        &&& 0 <= a.spec_dst_x() < m.width
        &&& 0 <= a.spec_dst_y() < m.height
        &&& (cnts.1 == 0 ==> m.owned.len() >= 1 && m.land[0] >= 1)
    })
}

/// The state `apply_action` leaves behind always satisfies what
/// `unapply_action` asks for, with the returned counts.
pub proof fn lemma_apply_enables_unapply(m: StateM, a: Action)
    requires
        wf(m),
        can_move(m, a),
        fits(m, a),
    ensures
        unapply_pre(spec_apply(m, a), a, counts_of(m, a)),
{
    let mid = spec_move(m, a);
    let g = spec_apply(m, a);
    let c = mid.cities[0];
    let len = mid.owned.len() as int;
    let w = mid.width;
    lemma_wf_move(m, a);
    let t = mid.global_turn + 1;
    if t % 50 == 0 || t % 2 == 0 {
        let all = t % 50 == 0;
        let m2 = StateM { global_turn: t, ..mid };
        assert(g == grow_effect(m2, all));
        // Every boosted tile just received the bonus, and the score just
        // received the boosted total; subtracting them cannot underflow.
        assert forall|j: int|
            0 <= j < g.owned.len() && grow_pred(
                g.tiles[pair_idx(#[trigger] g.owned[j], g.width)].kind,
                all,
            ) implies g.tiles[pair_idx(g.owned[j], g.width)].count >= g.cities[0] by {
            let p = g.owned[j];
            let i = pair_idx(p, w);
            lemma_pair_idx_bounds(p, w, mid.height);
            assert(owned_hits(mid.owned, w, i, len));
            assert(g.tiles[i].kind == mid.tiles[i].kind);
        }
        assert(grow_count(g, all) == grow_count(m2, all)) by {
            assert forall|j: int| 0 <= j < len implies g.tiles[pair_idx(
                #[trigger] mid.owned[j],
                w,
            )].kind == mid.tiles[pair_idx(mid.owned[j], w)].kind by {
                lemma_pair_idx_bounds(mid.owned[j], w, mid.height);
            }
            lemma_grow_count_congruence(g.tiles, mid.tiles, mid.owned, w, all, len);
        }
        lemma_grow_count_bounds(mid.tiles, mid.owned, w, all, len);
        lemma_mul_nonnegative(grow_count(m2, all), c);
    }
    if !a.spec_is_empty() && counts_of(m, a).1 == 0 {
        assert(mid.owned.len() >= 1);
        assert(mid.land[0] >= 1);
    }
}

/// Apply/undo inverse law: undoing an action with the counts its
/// application returned restores the state exactly — every tile count,
/// owner and kind, the owned-tiles list and its order, the per-player
/// land/score/city vectors and the turn counter.
pub proof fn lemma_apply_unapply_inverse(m: StateM, a: Action)
    requires
        wf(m),
        can_move(m, a),
        fits(m, a),
    ensures
        spec_unapply(spec_apply(m, a), a, counts_of(m, a)) == m,
{
    let mid = spec_move(m, a);
    let g = spec_apply(m, a);
    let cnts = counts_of(m, a);
    lemma_wf_move(m, a);
    let w = mid.width;
    let h = mid.height;
    let c = mid.cities[0];
    let len = mid.owned.len() as int;
    let t = mid.global_turn + 1;
    // Undoing the growth event of the new turn gives the post-move state
    // back.
    assert(spec_ungrow(g) == mid) by {
        if t % 50 == 0 || t % 2 == 0 {
            let all = t % 50 == 0;
            let m2 = StateM { global_turn: t, ..mid };
            assert(g == grow_effect(m2, all));
            let u = ungrow_effect(g, all);
            assert forall|i: int| 0 <= i < len implies g.tiles[pair_idx(
                #[trigger] mid.owned[i],
                w,
            )].kind == mid.tiles[pair_idx(mid.owned[i], w)].kind by {
                lemma_pair_idx_bounds(mid.owned[i], w, h);
            }
            lemma_grow_count_congruence(g.tiles, mid.tiles, mid.owned, w, all, len);
            assert(u.tiles =~= mid.tiles) by {
                assert forall|i: int| 0 <= i < mid.tiles.len() implies u.tiles[i] == mid.tiles[i] by {
                    assert(g.tiles[i].kind == mid.tiles[i].kind);
                    if owned_hits(mid.owned, w, i, len) && grow_pred(mid.tiles[i].kind, all) {
                        assert(g.tiles[i].count == mid.tiles[i].count + c);
                        assert(u.tiles[i].count == mid.tiles[i].count);
                        assert(u.tiles[i] =~= mid.tiles[i]);
                    } else {
                        assert(g.tiles[i] == mid.tiles[i]);
                        assert(u.tiles[i] =~= mid.tiles[i]);
                    }
                }
            }
            assert(u.scores =~= mid.scores) by {
                assert(g.scores[0] == mid.scores[0] + grow_count(m2, all) * c);
                assert(grow_count(g, all) == grow_count(m2, all));
            }
            assert(spec_ungrow(g) =~= mid);
        } else {
            assert(spec_ungrow(g) =~= mid);
        }
    }
    // Undoing the movement phase restores the starting state.
    assert(spec_unmove(mid, a, cnts) == m) by {
        if !a.spec_is_empty() {
            let si = src_idx(m, a);
            let di = dst_idx(m, a);
            let sb = m.tiles[si].count;
            let db = m.tiles[di].count;
            lemma_pair_idx_bounds(src_pair(a), w, h);
            lemma_pair_idx_bounds(dst_pair(a), w, h);
            assert(pair_idx(src_pair(a), w) == si);
            assert(pair_idx(dst_pair(a), w) == di);
            assert(si != di) by {
                if si == di {
                    lemma_pair_idx_injective(src_pair(a), dst_pair(a), w, h);
                }
            }
            let r = spec_unmove(mid, a, cnts);
            if db == 0 {
                assert(mid.owned == m.owned.push(dst_pair(a)));
                assert(mid.owned.drop_last() =~= m.owned);
                assert(r.owned =~= m.owned);
                assert(r.land =~= m.land);
                assert(m.tiles[di].owner == m.player_count);
                assert(r.tiles =~= m.tiles) by {
                    assert forall|i: int| 0 <= i < m.tiles.len() implies r.tiles[i] == m.tiles[i] by {
                        if i == si {
                            assert(r.tiles[i] =~= m.tiles[i]);
                        } else if i == di {
                            assert(r.tiles[i].count == db);
                            assert(r.tiles[i].owner == m.player_count);
                            assert(r.tiles[i] =~= m.tiles[i]);
                        } else {
                            assert(r.tiles[i] =~= m.tiles[i]);
                        }
                    }
                }
                assert(r =~~= m);
            } else {
                assert(r.tiles =~= m.tiles) by {
                    assert forall|i: int| 0 <= i < m.tiles.len() implies r.tiles[i] == m.tiles[i] by {
                        assert(r.tiles[i] =~= m.tiles[i]);
                    }
                }
                assert(r =~~= m);
            }
        }
    }
}

/// Growth-law correctness.  When the turn advances to a multiple of 50
/// (say from 49 to 50), every owned tile's count increases by the owning
/// player's city count and the score increases by (owned tiles) x (city
/// count).  When it advances to an even turn that is not a multiple of 50,
/// only owned City/General tiles receive the bonus and the score increases
/// by (number of those tiles) x (city count).  Unowned tiles are never
/// touched, and on odd turns nothing changes but the turn counter.
pub proof fn lemma_growth_law(m: StateM)
    requires
        wf(m),
    ensures
        spec_grow(m).global_turn == m.global_turn + 1,
        (m.global_turn + 1) % 50 == 0 ==> {
            &&& forall|j: int|
                0 <= j < m.owned.len() ==> spec_grow(m).tiles[pair_idx(
                    #[trigger] m.owned[j],
                    m.width,
                )].count == m.tiles[pair_idx(m.owned[j], m.width)].count + m.cities[0]
            &&& spec_grow(m).scores[0] == m.scores[0] + m.owned.len() * m.cities[0]
        },
        ((m.global_turn + 1) % 50 != 0 && (m.global_turn + 1) % 2 == 0) ==> {
            &&& forall|j: int|
                0 <= j < m.owned.len() ==> spec_grow(m).tiles[pair_idx(
                    #[trigger] m.owned[j],
                    m.width,
                )].count == m.tiles[pair_idx(m.owned[j], m.width)].count + (if grow_pred(
                    m.tiles[pair_idx(m.owned[j], m.width)].kind,
                    false,
                ) {
                    m.cities[0]
                } else {
                    0
                })
            &&& spec_grow(m).scores[0] == m.scores[0] + grow_count(m, false) * m.cities[0]
        },
        ((m.global_turn + 1) % 50 != 0 && (m.global_turn + 1) % 2 != 0) ==> spec_grow(m).tiles
            == m.tiles && spec_grow(m).scores == m.scores,
        forall|i: int|
            0 <= i < m.tiles.len() && (#[trigger] m.tiles[i]).owner != 0 ==> spec_grow(m).tiles[i]
                == m.tiles[i],
{
    let g = spec_grow(m);
    let t = m.global_turn + 1;
    let w = m.width;
    let c = m.cities[0];
    let len = m.owned.len() as int;
    if t % 50 == 0 || t % 2 == 0 {
        let all = t % 50 == 0;
        assert forall|j: int| 0 <= j < len implies {
            &&& g.tiles[pair_idx(#[trigger] m.owned[j], w)].count == m.tiles[pair_idx(
                m.owned[j],
                w,
            )].count + (if grow_pred(m.tiles[pair_idx(m.owned[j], w)].kind, all) {
                c
            } else {
                0int
            })
        } by {
            let p = m.owned[j];
            let i = pair_idx(p, w);
            lemma_pair_idx_bounds(p, w, m.height);
            assert(owned_hits(m.owned, w, i, len));
        }
        if all {
            lemma_grow_count_all(m.tiles, m.owned, w, len);
        }
    }
    assert forall|i: int|
        0 <= i < m.tiles.len() && (#[trigger] m.tiles[i]).owner != 0 implies g.tiles[i]
        == m.tiles[i] by {
        if owned_hits(m.owned, w, i, len) {
            let j = choose|j: int|
                0 <= j < len && j < m.owned.len() && pair_idx(#[trigger] m.owned[j], w) == i;
            let p = m.owned[j];
            lemma_pair_idx_bounds(p, w, m.height);
            assert(m.owned.contains(p));
            assert(m.tiles[i].owner == 0);
        }
    }
}

/// A duplicate-free list of in-bounds coordinates cannot outgrow the grid.
pub proof fn lemma_owned_len_bound(m: StateM)
    requires
        wf(m),
    ensures
        m.owned.len() <= m.width * m.height,
{
    let w = m.width;
    let h = m.height;
    let idxs = Seq::new(m.owned.len(), |j: int| pair_idx(m.owned[j], w));
    assert(idxs.no_duplicates()) by {
        assert forall|i: int, j: int|
            0 <= i < idxs.len() && 0 <= j < idxs.len() && i != j implies idxs[i] != idxs[j] by {
            if idxs[i] == idxs[j] {
                lemma_pair_idx_injective(m.owned[i], m.owned[j], w, h);
            }
        }
    }
    idxs.unique_seq_to_set();
    assert forall|x: int| idxs.to_set().contains(x) implies vstd::set_lib::set_int_range(
        0,
        w * h,
    ).contains(x) by {
        let j = choose|j: int| 0 <= j < idxs.len() && idxs[j] == x;
        lemma_pair_idx_bounds(m.owned[j], w, h);
    }
    vstd::set_lib::lemma_int_range(0, w * h);
    vstd::set_lib::lemma_len_subset(idxs.to_set(), vstd::set_lib::set_int_range(0, w * h));
}


/// Copies a per-player counter vector.
fn copy_counters(v: &Vec<u32>) -> (r: Vec<u32>)
    ensures
        r@ == v@,
{
    let mut r: Vec<u32> = Vec::new();
    let mut i: usize = 0;
    while i < v.len()
        invariant
            i <= v@.len(),
            r@ == v@.subrange(0, i as int),
        decreases v@.len() - i,
    {
        r.push(v[i]);
        proof {
            assert(r@ =~= v@.subrange(0, i + 1));
        }
        i = i + 1;
    }
    proof {
        assert(r@ =~= v@);
    }
    r
}

impl State {
    /// One growth event: add the city-count bonus to every owned tile the
    /// milestone selects (every owned tile on the 50-turn one, owned cities
    /// and generals otherwise) and credit the score with the boosted total.
    #[verifier::loop_isolation(false)]
    fn grow_owned(&mut self, all: bool)
        requires
            wf(old(self)@),
            forall|j: int|
                0 <= j < old(self)@.owned.len() ==> old(self)@.tiles[pair_idx(
                    #[trigger] old(self)@.owned[j],
                    old(self)@.width,
                )].count + old(self)@.cities[0] <= u32::MAX,
            old(self)@.scores[0] + old(self)@.owned.len() * old(self)@.cities[0] <= u32::MAX,
        ensures
            final(self)@ == grow_effect(old(self)@, all),
    {
        let ghost m0 = self@;
        proof {
            lemma_owned_len_bound(m0);
            lemma_grow_count_bounds(m0.tiles, m0.owned, m0.width, all, m0.owned.len() as int);
            lemma_mul_inequality(grow_count(m0, all), m0.owned.len() as int, m0.cities[0]);
            lemma_mul_nonnegative(grow_count(m0, all), m0.cities[0]);
        }
        let c = self.cities[0];
        let w = self.width;
        let n = self.owned_tiles.len();
        let mut cnt: u32 = 0;
        let mut k: usize = 0;
        while k < n
            invariant
                k <= n,
                self.width == old(self).width,
                self.height == old(self).height,
                self.player_count == old(self).player_count,
                self.global_turn == old(self).global_turn,
                self.scores == old(self).scores,
                self.land == old(self).land,
                self.cities == old(self).cities,
                self.owned_tiles == old(self).owned_tiles,
                self.tiles@.len() == m0.tiles.len(),
                self@.tiles == grown_tiles(m0.tiles, m0.owned, m0.width, m0.cities[0], all, k as int),
                cnt == grow_count_rec(m0.tiles, m0.owned, m0.width, all, k as int),
                cnt <= k,
            decreases n - k,
        {
            let p = self.owned_tiles[k];
            proof {
                assert(p == m0.owned[k as int]);
                lemma_pair_idx_bounds(p, m0.width, m0.height);
                assert(m0.width * m0.height <= 1024) by (nonlinear_arith)
                    requires
                        1 <= m0.width <= 32,
                        1 <= m0.height <= 32,
                ;
            }
            let i = p.y * w + p.x;
            proof {
                assert(!owned_hits(m0.owned, m0.width, i as int, k as int)) by {
                    if owned_hits(m0.owned, m0.width, i as int, k as int) {
                        let j = choose|j: int|
                            0 <= j < k && j < m0.owned.len() && pair_idx(
                                #[trigger] m0.owned[j],
                                m0.width,
                            ) == i;
                        lemma_pair_idx_injective(m0.owned[j], p, m0.width, m0.height);
                    }
                }
                assert(self@.tiles[i as int] == m0.tiles[i as int]);
            }
            let ghost vpre = self@.tiles;
            let t = self.tiles[i];
            if all || t.kind == TileKind::City || t.kind == TileKind::General {
                self.tiles[i] = Tile { kind: t.kind, owner: t.owner, count: t.count + c };
                cnt = cnt + 1;
                proof {
                    assert(self@.tiles =~= vpre.update(
                        i as int,
                        TileM { count: m0.tiles[i as int].count + m0.cities[0], ..m0.tiles[i as int] },
                    ));
                }
            }
            proof {
                let ghost knext = k + 1;
                assert(self@.tiles =~= grown_tiles(
                    m0.tiles,
                    m0.owned,
                    m0.width,
                    m0.cities[0],
                    all,
                    knext as int,
                )) by {
                    assert forall|ii: int| 0 <= ii < m0.tiles.len() implies self@.tiles[ii]
                        == grown_tiles(
                        m0.tiles,
                        m0.owned,
                        m0.width,
                        m0.cities[0],
                        all,
                        knext as int,
                    )[ii] by {
                        let g = grown_tiles(
                            m0.tiles,
                            m0.owned,
                            m0.width,
                            m0.cities[0],
                            all,
                            knext as int,
                        );
                        if ii != i as int {
                            assert(owned_hits(m0.owned, m0.width, ii, knext as int) == owned_hits(
                                m0.owned,
                                m0.width,
                                ii,
                                k as int,
                            )) by {
                                if owned_hits(m0.owned, m0.width, ii, knext as int) {
                                    let j = choose|j: int|
                                        0 <= j < knext as int && j < m0.owned.len() && pair_idx(
                                            #[trigger] m0.owned[j],
                                            m0.width,
                                        ) == ii;
                                    assert(j < k);
                                    assert(owned_hits(m0.owned, m0.width, ii, k as int));
                                }
                                if owned_hits(m0.owned, m0.width, ii, k as int) {
                                    let j = choose|j: int|
                                        0 <= j < k as int && j < m0.owned.len() && pair_idx(
                                            #[trigger] m0.owned[j],
                                            m0.width,
                                        ) == ii;
                                    assert(0 <= j < knext as int && j < m0.owned.len() && pair_idx(
                                        m0.owned[j],
                                        m0.width,
                                    ) == ii);
                                    assert(owned_hits(m0.owned, m0.width, ii, knext as int));
                                }
                            }
                            assert(self@.tiles[ii] == g[ii]);
                        } else {
                            assert(owned_hits(m0.owned, m0.width, ii, knext as int)) by {
                                assert((k as int) < (knext as int) && (k as int) < m0.owned.len()
                                    && pair_idx(m0.owned[k as int], m0.width) == ii);
                            }
                            if grow_pred(m0.tiles[ii].kind, all) {
                                assert(g[ii] == (TileM {
                                    count: m0.tiles[ii].count + m0.cities[0],
                                    ..m0.tiles[ii]
                                }));
                                assert(self@.tiles[ii] == g[ii]);
                            } else {
                                assert(g[ii] == m0.tiles[ii]);
                                assert(self@.tiles[ii] == g[ii]);
                            }
                        }
                    }
                }
            }
            k = k + 1;
        }
        let s = self.scores[0];
        self.scores[0] = s + cnt * c;
        proof {
            assert(final(self)@.scores =~= m0.scores.update(
                0,
                m0.scores[0] + grow_count(m0, all) * m0.cities[0],
            ));
            assert(final(self)@ =~= grow_effect(m0, all));
        }
    }

    /// Exact inverse of one growth event: subtract the same bonus from the
    /// same tiles and debit the score by the same total.
    #[verifier::loop_isolation(false)]
    fn ungrow_owned(&mut self, all: bool)
        requires
            wf(old(self)@),
            forall|j: int|
                0 <= j < old(self)@.owned.len() && grow_pred(
                    old(self)@.tiles[pair_idx(
                        #[trigger] old(self)@.owned[j],
                        old(self)@.width,
                    )].kind,
                    all,
                ) ==> old(self)@.tiles[pair_idx(old(self)@.owned[j], old(self)@.width)].count
                    >= old(self)@.cities[0],
            old(self)@.scores[0] >= grow_count(old(self)@, all) * old(self)@.cities[0],
        ensures
            final(self)@ == ungrow_effect(old(self)@, all),
    {
        let ghost m0 = self@;
        proof {
            lemma_owned_len_bound(m0);
            lemma_grow_count_bounds(m0.tiles, m0.owned, m0.width, all, m0.owned.len() as int);
            lemma_mul_nonnegative(grow_count(m0, all), m0.cities[0]);
        }
        let c = self.cities[0];
        let w = self.width;
        let n = self.owned_tiles.len();
        let mut cnt: u32 = 0;
        let mut k: usize = 0;
        while k < n
            invariant
                k <= n,
                self.width == old(self).width,
                self.height == old(self).height,
                self.player_count == old(self).player_count,
                self.global_turn == old(self).global_turn,
                self.scores == old(self).scores,
                self.land == old(self).land,
                self.cities == old(self).cities,
                self.owned_tiles == old(self).owned_tiles,
                self.tiles@.len() == m0.tiles.len(),
                self@.tiles == grown_tiles(
                    m0.tiles,
                    m0.owned,
                    m0.width,
                    -m0.cities[0],
                    all,
                    k as int,
                ),
                cnt == grow_count_rec(m0.tiles, m0.owned, m0.width, all, k as int),
                cnt <= k,
            decreases n - k,
        {
            let p = self.owned_tiles[k];
            proof {
                assert(p == m0.owned[k as int]);
                lemma_pair_idx_bounds(p, m0.width, m0.height);
                assert(m0.width * m0.height <= 1024) by (nonlinear_arith)
                    requires
                        1 <= m0.width <= 32,
                        1 <= m0.height <= 32,
                ;
            }
            let i = p.y * w + p.x;
            proof {
                assert(!owned_hits(m0.owned, m0.width, i as int, k as int)) by {
                    if owned_hits(m0.owned, m0.width, i as int, k as int) {
                        let j = choose|j: int|
                            0 <= j < k && j < m0.owned.len() && pair_idx(
                                #[trigger] m0.owned[j],
                                m0.width,
                            ) == i;
                        lemma_pair_idx_injective(m0.owned[j], p, m0.width, m0.height);
                    }
                }
                assert(self@.tiles[i as int] == m0.tiles[i as int]);
            }
            let ghost vpre = self@.tiles;
            let t = self.tiles[i];
            if all || t.kind == TileKind::City || t.kind == TileKind::General {
                self.tiles[i] = Tile { kind: t.kind, owner: t.owner, count: t.count - c };
                cnt = cnt + 1;
                proof {
                    assert(self@.tiles =~= vpre.update(
                        i as int,
                        TileM { count: m0.tiles[i as int].count - m0.cities[0], ..m0.tiles[i as int] },
                    ));
                }
            }
            proof {
                let ghost knext = k + 1;
                assert(self@.tiles =~= grown_tiles(
                    m0.tiles,
                    m0.owned,
                    m0.width,
                    -m0.cities[0],
                    all,
                    knext as int,
                )) by {
                    assert forall|ii: int| 0 <= ii < m0.tiles.len() implies self@.tiles[ii]
                        == grown_tiles(
                        m0.tiles,
                        m0.owned,
                        m0.width,
                        -m0.cities[0],
                        all,
                        knext as int,
                    )[ii] by {
                        let g = grown_tiles(
                            m0.tiles,
                            m0.owned,
                            m0.width,
                            -m0.cities[0],
                            all,
                            knext as int,
                        );
                        if ii != i as int {
                            assert(owned_hits(m0.owned, m0.width, ii, knext as int) == owned_hits(
                                m0.owned,
                                m0.width,
                                ii,
                                k as int,
                            )) by {
                                if owned_hits(m0.owned, m0.width, ii, knext as int) {
                                    let j = choose|j: int|
                                        0 <= j < knext as int && j < m0.owned.len() && pair_idx(
                                            #[trigger] m0.owned[j],
                                            m0.width,
                                        ) == ii;
                                    assert(j < k);
                                    assert(owned_hits(m0.owned, m0.width, ii, k as int));
                                }
                                if owned_hits(m0.owned, m0.width, ii, k as int) {
                                    let j = choose|j: int|
                                        0 <= j < k as int && j < m0.owned.len() && pair_idx(
                                            #[trigger] m0.owned[j],
                                            m0.width,
                                        ) == ii;
                                    assert((j as int) < (knext as int) && j < m0.owned.len()
                                        && pair_idx(m0.owned[j], m0.width) == ii);
                                    assert(owned_hits(m0.owned, m0.width, ii, knext as int));
                                }
                            }
                            assert(self@.tiles[ii] == g[ii]);
                        } else {
                            assert(owned_hits(m0.owned, m0.width, ii, knext as int)) by {
                                assert((k as int) < (knext as int) && (k as int) < m0.owned.len()
                                    && pair_idx(m0.owned[k as int], m0.width) == ii);
                            }
                            if grow_pred(m0.tiles[ii].kind, all) {
                                assert(g[ii] == (TileM {
                                    count: m0.tiles[ii].count - m0.cities[0],
                                    ..m0.tiles[ii]
                                }));
                                assert(self@.tiles[ii] == g[ii]);
                            } else {
                                assert(g[ii] == m0.tiles[ii]);
                                assert(self@.tiles[ii] == g[ii]);
                            }
                        }
                    }
                }
            }
            k = k + 1;
        }
        let s = self.scores[0];
        self.scores[0] = s - cnt * c;
        proof {
            assert(final(self)@.scores =~= m0.scores.update(
                0,
                m0.scores[0] - grow_count(m0, all) * m0.cities[0],
            ));
            assert(final(self)@ =~= ungrow_effect(m0, all));
        }
    }

    /// Applies an action: move the army (recording a capture if the
    /// destination was empty), advance the turn and run the growth law.
    /// Returns the two pre-move counts; `unapply_action` with them restores
    /// the state exactly.
    pub fn apply_action(&mut self, action: Action) -> (r: (u32, u32))
        requires
            wf(old(self)@),
            can_move(old(self)@, action),
            fits(old(self)@, action),
        ensures
            final(self)@ == spec_apply(old(self)@, action),
            r.0 == counts_of(old(self)@, action).0,
            r.1 == counts_of(old(self)@, action).1,
            wf(final(self)@),
            unapply_pre(final(self)@, action, (r.0 as int, r.1 as int)),
    {
        let ghost m0 = self@;
        proof {
            lemma_wf_apply(m0, action);
            lemma_apply_enables_unapply(m0, action);
            lemma_wf_move(m0, action);
            lemma_grow_fits_mid(m0, action);
        }
        let mut src_before: u32 = 0;
        let mut dst_before: u32 = 0;
        if !action.is_empty() {
            let sx = action.src_x();
            let sy = action.src_y();
            let dx = action.dst_x();
            let dy = action.dst_y();
            proof {
                lemma_pair_idx_bounds(src_pair(action), m0.width, m0.height);
                lemma_pair_idx_bounds(dst_pair(action), m0.width, m0.height);
                assert(m0.width * m0.height <= 1024) by (nonlinear_arith)
                    requires
                        1 <= m0.width <= 32,
                        1 <= m0.height <= 32,
                ;
                assert(src_idx(m0, action) != dst_idx(m0, action)) by {
                    if src_idx(m0, action) == dst_idx(m0, action) {
                        lemma_pair_idx_injective(
                            src_pair(action),
                            dst_pair(action),
                            m0.width,
                            m0.height,
                        );
                    }
                }
            }
            let si = sy * self.width + sx;
            let di = dy * self.width + dx;
            let ts = self.tiles[si];
            let td = self.tiles[di];
            src_before = ts.count;
            dst_before = td.count;
            let moved = if action.is_half() {
                src_before / 2
            } else {
                src_before - 1
            };
            let remain = src_before - moved;
            proof {
                assert(moved == moved_amount(src_before as int, action.spec_is_half()));
                assert(remain == remainder_amount(src_before as int, action.spec_is_half()));
            }
            self.tiles[si] = Tile { kind: ts.kind, owner: ts.owner, count: remain };
            self.tiles[di] = Tile { kind: td.kind, owner: td.owner, count: dst_before + moved };
            if dst_before == 0 {
                let l = self.land[0];
                self.land[0] = l + 1;
                self.owned_tiles.push(Pair { x: dx, y: dy });
                let td2 = self.tiles[di];
                self.tiles[di] = Tile { kind: td2.kind, owner: 0, count: td2.count };
            }
            proof {
                let mid = spec_move(m0, action);
                assert(self@.tiles =~= mid.tiles) by {
                    assert forall|ii: int| 0 <= ii < m0.tiles.len() implies self@.tiles[ii]
                        == mid.tiles[ii] by {
                    }
                }
                assert(self@.land =~= mid.land);
                assert(self@.scores =~= mid.scores);
                assert(self@.cities =~= mid.cities);
                assert(self@ =~= mid);
            }
        } else {
            proof {
                assert(self@ =~= spec_move(m0, action));
            }
        }
        let ghost mid = spec_move(m0, action);
        let gt = self.global_turn;
        self.global_turn = gt + 1;
        proof {
            assert(self@ =~= (StateM { global_turn: mid.global_turn + 1, ..mid }));
            assert(wf(self@)) by {
                assert(wf(mid));
            }
        }
        if self.global_turn % 50 == 0 {
            self.grow_owned(true);
        } else if self.global_turn % 2 == 0 {
            self.grow_owned(false);
        }
        proof {
            assert(self@ =~= spec_apply(m0, action));
        }
        (src_before, dst_before)
    }

    /// Exact inverse of `apply_action`: undo the growth event of the turn
    /// being stepped back, decrement the turn, roll back a capture and
    /// restore both pre-move counts.
    pub fn unapply_action(&mut self, action: Action, counts: (u32, u32))
        requires
            wf(old(self)@),
            unapply_pre(old(self)@, action, (counts.0 as int, counts.1 as int)),
        ensures
            final(self)@ == spec_unapply(
                old(self)@,
                action,
                (counts.0 as int, counts.1 as int),
            ),
    {
        let ghost m0 = self@;
        if self.global_turn % 50 == 0 {
            self.ungrow_owned(true);
        } else if self.global_turn % 2 == 0 {
            self.ungrow_owned(false);
        }
        let gt = self.global_turn;
        self.global_turn = gt - 1;
        proof {
            assert(self@ =~= spec_ungrow(m0));
        }
        let ghost mu = spec_ungrow(m0);
        if !action.is_empty() {
            let sx = action.src_x();
            let sy = action.src_y();
            let dx = action.dst_x();
            let dy = action.dst_y();
            proof {
                lemma_pair_idx_bounds(src_pair(action), m0.width, m0.height);
                lemma_pair_idx_bounds(dst_pair(action), m0.width, m0.height);
                assert(m0.width * m0.height <= 1024) by (nonlinear_arith)
                    requires
                        1 <= m0.width <= 32,
                        1 <= m0.height <= 32,
                ;
                assert(src_idx(mu, action) != dst_idx(mu, action)) by {
                    if src_idx(mu, action) == dst_idx(mu, action) {
                        lemma_pair_idx_injective(
                            src_pair(action),
                            dst_pair(action),
                            m0.width,
                            m0.height,
                        );
                    }
                }
            }
            let si = sy * self.width + sx;
            let di = dy * self.width + dx;
            proof {
                assert(self@ == spec_ungrow(m0));
                assert(self@.tiles == spec_ungrow(m0).tiles);
                assert(spec_ungrow(m0).tiles.len() == m0.tiles.len());
                assert(self.tiles@.len() == self@.tiles.len());
                assert(self.tiles@.len() == m0.tiles.len());
                assert((si as int) == pair_idx(src_pair(action), m0.width));
                assert((di as int) == pair_idx(dst_pair(action), m0.width));
                assert((si as int) < m0.tiles.len());
                assert((di as int) < m0.tiles.len());
            }
            if counts.1 == 0 {
                let _last = self.owned_tiles.pop();
                let l = self.land[0];
                self.land[0] = l - 1;
                let td = self.tiles[di];
                self.tiles[di] = Tile { kind: td.kind, owner: self.player_count, count: td.count };
            }
            let ts = self.tiles[si];
            self.tiles[si] = Tile { kind: ts.kind, owner: ts.owner, count: counts.0 };
            let td = self.tiles[di];
            self.tiles[di] = Tile { kind: td.kind, owner: td.owner, count: counts.1 };
            proof {
                let r = spec_unmove(mu, action, (counts.0 as int, counts.1 as int));
                assert(self@.tiles =~= r.tiles) by {
                    assert forall|ii: int| 0 <= ii < mu.tiles.len() implies self@.tiles[ii]
                        == r.tiles[ii] by {
                    }
                }
                assert(self@.land =~= r.land);
                assert(self@ =~= r);
            }
        }
    }

    /// Heuristic static value for the searching player: the owned-land
    /// count.
    pub fn evaluate(&self) -> (r: i32)
        requires
            wf(self@),
        ensures
            r == self@.land[0],
    {
        self.land[0] as i32
    }

    /// Whether `apply_action` accepts this action on this state: the pass
    /// action always does; a movement must stay on the board and find at
    /// least two units at its source; and no counter, count or score update
    /// of this turn may leave the machine range.
    #[verifier::loop_isolation(false)]
    pub fn can_apply(&self, action: Action) -> (r: bool)
        requires
            wf(self@),
        ensures
            r == (can_move(self@, action) && fits(self@, action)),
    {
        let ghost m = self@;
        proof {
            lemma_owned_len_bound(m);
            assert(m.width * m.height <= 1024) by (nonlinear_arith)
                requires
                    1 <= m.width <= 32,
                    1 <= m.height <= 32,
            ;
        }
        if !action.is_empty() {
            let sx = action.src_x();
            let sy = action.src_y();
            let d = action.dir();
            if sx >= self.width || sy >= self.height {
                return false;
            }
            if d == 0 && sx == 0 {
                return false;
            }
            if d == 1 && sy == 0 {
                return false;
            }
            if d == 2 && sx + 1 >= self.width {
                return false;
            }
            if d == 3 && sy + 1 >= self.height {
                return false;
            }
            proof {
                lemma_pair_idx_bounds(src_pair(action), m.width, m.height);
            }
            let si = sy * self.width + sx;
            proof {
                assert((si as int) == pair_idx(src_pair(action), m.width));
            }
            if self.tiles[si].count < 2 {
                return false;
            }
        }
        if self.global_turn == usize::MAX {
            return false;
        }
        if self.land[0] >= 0x7FFF_FFFF {
            return false;
        }
        let c = self.cities[0];
        let n = self.owned_tiles.len();
        let mut k: usize = 0;
        while k < n
            invariant
                k <= n,
                forall|j: int|
                    0 <= j < k ==> m.tiles[pair_idx(#[trigger] m.owned[j], m.width)].count
                        + m.cities[0] <= u32::MAX,
            decreases n - k,
        {
            let p = self.owned_tiles[k];
            proof {
                assert(p == m.owned[k as int]);
                lemma_pair_idx_bounds(p, m.width, m.height);
            }
            let i = p.y * self.width + p.x;
            if self.tiles[i].count as u64 + c as u64 > u32::MAX as u64 {
                return false;
            }
            k = k + 1;
        }
        proof {
            assert((n as int + 1) * (c as int) <= 1025 * 0xFFFF_FFFFu64) by (nonlinear_arith)
                requires
                    0 <= n as int <= 1024,
                    0 <= c as int <= 0xFFFF_FFFFu64,
            ;
        }
        if self.scores[0] as u64 + (n as u64 + 1) * (c as u64) > u32::MAX as u64 {
            return false;
        }
        if !action.is_empty() {
            let sx = action.src_x();
            let sy = action.src_y();
            let dx = action.dst_x();
            let dy = action.dst_y();
            proof {
                lemma_pair_idx_bounds(src_pair(action), m.width, m.height);
                lemma_pair_idx_bounds(dst_pair(action), m.width, m.height);
            }
            let si = sy * self.width + sx;
            let di = dy * self.width + dx;
            if self.tiles[si].count as u64 + self.tiles[di].count as u64 + c as u64
                > u32::MAX as u64 {
                return false;
            }
        }
        true
    }

    /// Builds the simulation from the latest raw snapshot: classify every
    /// cell, rotate ownership so the searching player is seat 0, overlay
    /// the known generals and cities, and scan the grid once to populate
    /// the owned-tiles index and the owned city/general counter.  This is
    /// the only full scan; afterwards the state is maintained incrementally
    /// by `apply_action` / `unapply_action`.
    #[verifier::loop_isolation(false)]
    pub fn new(game: &Game) -> (s: State)
        requires
            buildable(game),
        ensures
            wf(s@),
            s@ == build_model(game),
    {
        let w = game.width;
        let h = game.height;
        let num_players = game.alive.len();
        let shift = num_players - game.player_index;
        proof {
            assert(w * h <= 1024) by (nonlinear_arith)
                requires
                    1 <= w <= 32,
                    1 <= h <= 32,
            ;
        }
        let area = w * h;
        proof {
            assert(game.raw_map@.len() == 2 * (area as int)) by (nonlinear_arith)
                requires
                    game.raw_map@.len() == 2 * (game.width as int) * (game.height as int),
                    (area as int) == (game.width as int) * (game.height as int),
            ;
        }

        // Classify every cell from the raw grid.
        let mut tiles: Vec<Tile> = Vec::new();
        let mut i: usize = 0;
        while i < area
            invariant
                i <= area,
                tiles@.len() == i,
                forall|k: int|
                    0 <= k < i ==> tile_view(#[trigger] tiles@[k]) == (TileM {
                        kind: base_kind(game.raw_map@[(area + k) as int] as int),
                        ..spec_build_tile(game, k)
                    }),
            decreases area - i,
        {
            let code = game.raw_map[area + i];
            let kind = if code == -2 {
                TileKind::Mountain
            } else if code == -3 {
                TileKind::Fog
            } else if code == -4 {
                TileKind::Obstacle
            } else {
                TileKind::Plain
            };
            let owner = if code < 0 {
                num_players
            } else {
                (code as usize + shift) % num_players
            };
            let count = game.raw_map[i] as u32;
            tiles.push(Tile { kind: kind, owner: owner, count: count });
            i = i + 1;
        }

        // Overlay the known generals.
        let mut gi: usize = 0;
        while gi < game.generals.len()
            invariant
                gi <= game.generals@.len(),
                tiles@.len() == area,
                forall|k: int|
                    0 <= k < area ==> (tile_view(#[trigger] tiles@[k]) == (TileM {
                        kind: if (exists|x: int|
                            0 <= x < gi && #[trigger] game.generals@[x] == k) {
                            TileKind::General
                        } else {
                            base_kind(game.raw_map@[(area + k) as int] as int)
                        },
                        ..spec_build_tile(game, k)
                    })),
            decreases game.generals@.len() - gi,
        {
            let g = game.generals[gi];
            if g != -1 {
                let idx = g as usize;
                let t = tiles[idx];
                tiles[idx] = Tile { kind: TileKind::General, owner: t.owner, count: t.count };
                proof {
                    assert(game.generals@[gi as int] == idx as int);
                }
            }
            gi = gi + 1;
            proof {
                assert forall|k: int| 0 <= k < area implies (tile_view(#[trigger] tiles@[k])
                    == (TileM {
                    kind: if (exists|x: int| 0 <= x < gi && #[trigger] game.generals@[x] == k) {
                        TileKind::General
                    } else {
                        base_kind(game.raw_map@[(area + k) as int] as int)
                    },
                    ..spec_build_tile(game, k)
                })) by {
                    if exists|x: int| 0 <= x < gi && #[trigger] game.generals@[x] == k {
                        let x = choose|x: int|
                            0 <= x < gi && #[trigger] game.generals@[x] == k;
                        if x < gi - 1 {
                            assert(exists|x2: int|
                                0 <= x2 < gi - 1 && #[trigger] game.generals@[x2] == k);
                        }
                    }
                }
            }
        }

        // Overlay the known cities (a city overlay wins over a general).
        let mut ci: usize = 0;
        while ci < game.cities.len()
            invariant
                ci <= game.cities@.len(),
                tiles@.len() == area,
                forall|k: int|
                    0 <= k < area ==> (tile_view(#[trigger] tiles@[k]) == (TileM {
                        kind: if (exists|x: int| 0 <= x < ci && #[trigger] game.cities@[x] == k) {
                            TileKind::City
                        } else if general_listed(game, k) {
                            TileKind::General
                        } else {
                            base_kind(game.raw_map@[(area + k) as int] as int)
                        },
                        ..spec_build_tile(game, k)
                    })),
            decreases game.cities@.len() - ci,
        {
            let idx = game.cities[ci];
            let t = tiles[idx];
            tiles[idx] = Tile { kind: TileKind::City, owner: t.owner, count: t.count };
            ci = ci + 1;
            proof {
                assert forall|k: int| 0 <= k < area implies (tile_view(#[trigger] tiles@[k])
                    == (TileM {
                    kind: if (exists|x: int| 0 <= x < ci && #[trigger] game.cities@[x] == k) {
                        TileKind::City
                    } else if general_listed(game, k) {
                        TileKind::General
                    } else {
                        base_kind(game.raw_map@[(area + k) as int] as int)
                    },
                    ..spec_build_tile(game, k)
                })) by {
                    if exists|x: int| 0 <= x < ci && #[trigger] game.cities@[x] == k {
                        let x = choose|x: int| 0 <= x < ci && #[trigger] game.cities@[x] == k;
                        if x < ci - 1 {
                            assert(exists|x2: int|
                                0 <= x2 < ci - 1 && #[trigger] game.cities@[x2] == k);
                        }
                    }
                }
            }
        }
        proof {
            assert forall|k: int| 0 <= k < area implies tile_view(#[trigger] tiles@[k])
                == spec_build_tile(game, k) by {
                assert(city_listed(game, k) == (exists|x: int|
                    0 <= x < game.cities@.len() && #[trigger] game.cities@[x] == k));
            }
        }

        // Copy the per-player counters.
        let scores = copy_counters(&game.scores);
        let land = copy_counters(&game.tiles);
        let mut cities: Vec<u32> = Vec::new();
        let mut pi: usize = 0;
        while pi < num_players
            invariant
                pi <= num_players,
                cities@.len() == pi,
                forall|k: int| 0 <= k < pi ==> #[trigger] cities@[k] == 0,
            decreases num_players - pi,
        {
            cities.push(0);
            pi = pi + 1;
        }

        // The single full scan: collect seat 0's tiles in row-major order
        // and count its cities and generals.
        let mut owned: Vec<Pair> = Vec::new();
        let mut cities0: u32 = 0;
        let mut idx: usize = 0;
        while idx < area
            invariant
                idx <= area,
                tiles@.len() == area,
                owned@.len() <= idx,
                forall|k: int| 0 <= k < area ==> tile_view(#[trigger] tiles@[k]) == spec_build_tile(game, k),
                forall|j: int|
                    0 <= j < owned@.len() ==> in_bounds_pair(#[trigger] owned@[j], w as int, h as int)
                        && pair_idx(owned@[j], w as int) < idx,
                forall|j: int, k: int|
                    0 <= j < k < owned@.len() ==> pair_idx(#[trigger] owned@[j], w as int)
                        < pair_idx(#[trigger] owned@[k], w as int),
                forall|p: Pair|
                    in_bounds_pair(p, w as int, h as int) && pair_idx(p, w as int) < idx ==> (
                    #[trigger] owned@.contains(p) <==> tile_view(tiles@[pair_idx(p, w as int)]).owner
                        == 0),
                forall|j: int|
                    0 <= j < owned@.len() ==> tile_view(
                        tiles@[pair_idx(#[trigger] owned@[j], w as int)],
                    ).owner == 0,
                cities0 == grow_count_rec(
                    Seq::new(tiles@.len(), |t: int| tile_view(tiles@[t])),
                    owned@,
                    w as int,
                    false,
                    owned@.len() as int,
                ),
                cities0 <= owned@.len(),
                owned@ == owned_scan(game, idx as int),
            decreases area - idx,
        {
            let x = idx % w;
            let y = idx / w;
            proof {
                assert(y < h && y * w + x == idx) by (nonlinear_arith)
                    requires
                        1 <= w,
                        idx < w * h,
                        x == idx % w,
                        y == idx / w,
                ;
            }
            let t = tiles[idx];
            let ghost owned_pre = owned@;
            proof {
                assert(tile_view(tiles@[idx as int]) == spec_build_tile(game, idx as int));
            }
            if t.owner == 0 {
                let p = Pair { x: x, y: y };
                owned.push(p);
                proof {
                    assert(pair_idx(p, w as int) == idx);
                    assert(p == idx_pair(idx as int, w as int));
                    assert(spec_build_tile(game, idx as int).owner == 0);
                    assert(owned@ == owned_scan(game, idx + 1));
                    let tv = Seq::new(tiles@.len(), |tt: int| tile_view(tiles@[tt]));
                    lemma_grow_count_prefix(
                        tv,
                        owned_pre,
                        owned@,
                        w as int,
                        false,
                        owned_pre.len() as int,
                    );
                    assert(grow_count_rec(tv, owned@, w as int, false, owned@.len() as int)
                        == grow_count_rec(tv, owned@, w as int, false, owned_pre.len() as int)
                        + if grow_pred(tv[pair_idx(owned@[owned_pre.len() as int], w as int)].kind, false) {
                        1int
                    } else {
                        0int
                    });
                }
                if t.kind == TileKind::City || t.kind == TileKind::General {
                    cities0 = cities0 + 1;
                }
            }
            idx = idx + 1;
            proof {
                assert forall|p: Pair|
                    in_bounds_pair(p, w as int, h as int) && pair_idx(p, w as int) < idx implies (
                #[trigger] owned@.contains(p) <==> tile_view(tiles@[pair_idx(p, w as int)]).owner
                    == 0) by {
                    lemma_pair_idx_bounds(p, w as int, h as int);
                    if pair_idx(p, w as int) < idx - 1 {
                        if owned_pre.contains(p) {
                            let j = choose|j: int| 0 <= j < owned_pre.len() && owned_pre[j] == p;
                            assert(owned@[j] == p);
                            assert(owned@.contains(p));
                        }
                        if owned@.contains(p) {
                            let j = choose|j: int| 0 <= j < owned@.len() && owned@[j] == p;
                            assert(j < owned_pre.len() || pair_idx(p, w as int) == idx - 1);
                            if j < owned_pre.len() {
                                assert(owned_pre[j] == p);
                                assert(owned_pre.contains(p));
                            }
                        }
                    } else {
                        let q = idx_pair(idx - 1, w as int);
                        assert(p == q) by {
                            assert(q.y * (w as int) + q.x == idx - 1) by (nonlinear_arith)
                                requires
                                    1 <= w as int,
                                    q.x == ((idx - 1) as int) % (w as int),
                                    q.y == ((idx - 1) as int) / (w as int),
                                    0 <= (idx - 1) as int,
                                    ((idx - 1) as int) < (w as int) * (h as int),
                            ;
                            lemma_pair_idx_injective(p, q, w as int, h as int);
                        }
                        if tile_view(tiles@[pair_idx(p, w as int)]).owner == 0 {
                            assert(owned@[owned@.len() - 1] == p);
                            assert(owned@.contains(p));
                        }
                        if owned@.contains(p) {
                            let j = choose|j: int| 0 <= j < owned@.len() && owned@[j] == p;
                            assert(tile_view(tiles@[pair_idx(owned@[j], w as int)]).owner == 0);
                        }
                    }
                }
            }
        }

        let mut cities_vec = cities;
        cities_vec[0] = cities0;

        let st = State {
            width: w,
            height: h,
            player_count: num_players,
            tiles: tiles,
            global_turn: game.turn as usize,
            scores: scores,
            land: land,
            cities: cities_vec,
            owned_tiles: owned,
        };
        proof {
            assert(st@.scores =~= counters_view(game.scores@));
            assert(st@.land =~= counters_view(game.tiles@));
            assert(st@.tiles =~= Seq::new(st.tiles@.len(), |t: int| tile_view(st.tiles@[t])));
            assert(st@.owned.no_duplicates()) by {
                assert forall|j: int, k: int|
                    0 <= j < k < st@.owned.len() implies st@.owned[j] != st@.owned[k] by {
                    assert(pair_idx(st@.owned[j], st@.width) < pair_idx(st@.owned[k], st@.width));
                }
            }
            assert(wf(st@)) by {
                assert forall|p: Pair| in_bounds_pair(p, st@.width, st@.height) implies (
                #[trigger] st@.owned.contains(p) <==> st@.tiles[pair_idx(p, st@.width)].owner == 0)
                    by {
                    lemma_pair_idx_bounds(p, st@.width, st@.height);
                }
                assert forall|t: int| 0 <= t < st@.tiles.len() implies {
                    &&& 0 <= (#[trigger] st@.tiles[t]).owner <= st@.player_count
                    &&& 0 <= st@.tiles[t].count <= u32::MAX
                    &&& (st@.tiles[t].count == 0 ==> st@.tiles[t].owner == st@.player_count)
                } by {
                    assert(st@.tiles[t] == spec_build_tile(game, t));
                    let n = game.alive@.len() as int;
                    let code = game.raw_map@[(area + t) as int] as int;
                    if code >= 0 {
                        assert(0 <= (code + (n - game.player_index)) % n < n) by (nonlinear_arith)
                            requires
                                1 <= n,
                        ;
                        assert(game.raw_map@[t] >= 1);
                    }
                }
            }
            assert(st@.cities[0] == grow_count(st@, false));
            let bm = build_model(game);
            assert(st@.tiles =~= bm.tiles) by {
                assert forall|t: int| 0 <= t < st@.tiles.len() implies st@.tiles[t] == bm.tiles[t] by {
                    assert(st@.tiles[t] == spec_build_tile(game, t));
                }
            }
            assert(st@.owned == bm.owned) by {
                assert((w as int) * (h as int) == area as int);
            }
            assert(st@.cities =~= bm.cities) by {
                assert forall|t: int| 0 <= t < st@.cities.len() implies st@.cities[t]
                    == bm.cities[t] by {
                    if t == 0 {
                        let tv = Seq::new(st.tiles@.len(), |tt: int| tile_view(st.tiles@[tt]));
                        assert(st@.cities[0] == grow_count_rec(
                            tv,
                            st@.owned,
                            w as int,
                            false,
                            st@.owned.len() as int,
                        ));
                        assert(tv == bm.tiles);
                    }
                }
            }
            assert(st@ =~~= bm);
        }
        st
    }

    /// Enumerates exactly the legal movements (see `enumerable`): for every
    /// owned tile holding more than one unit and each admissible neighbor,
    /// a full move, and a half move when the tile holds more than two.  No
    /// enumerated action targets a Mountain, City or Obstacle, and none
    /// moves from a tile holding one unit or less.
    #[verifier::loop_isolation(false)]
    pub fn enumerate_actions(&self) -> (v: Vec<Action>)
        requires
            wf(self@),
        ensures
            forall|a: Action| #[trigger] v@.contains(a) <==> enumerable(self@, a),
    {
        let ghost m = self@;
        let mut v: Vec<Action> = Vec::new();
        let n = self.owned_tiles.len();
        let w = self.width;
        let h = self.height;
        proof {
            assert(m.width * m.height <= 1024) by (nonlinear_arith)
                requires
                    1 <= m.width <= 32,
                    1 <= m.height <= 32,
            ;
        }
        let mut k: usize = 0;
        while k < n
            invariant
                k <= n,
                forall|idx: int| 0 <= idx < v@.len() ==> enumerable(m, #[trigger] v@[idx]),
                forall|a: Action, j: int|
                    #![trigger enumerable(m, a), m.owned[j]]
                    enumerable(m, a) && 0 <= j < k && m.owned[j] == src_pair(a) ==> v@.contains(a),
            decreases n - k,
        {
            let p = self.owned_tiles[k];
            proof {
                assert(p == m.owned[k as int]);
                lemma_pair_idx_bounds(p, m.width, m.height);
                assert(m.owned.contains(p));
            }
            let i = p.y * w + p.x;
            proof {
                assert(m.tiles[i as int].owner == 0);
            }
            let cnt = self.tiles[i].count;
            if cnt > 1 {
                let mut d: u16 = 0;
                while d < 4
                    invariant
                        d <= 4,
                        forall|idx: int| 0 <= idx < v@.len() ==> enumerable(m, #[trigger] v@[idx]),
                        forall|a: Action, j: int|
                            #![trigger enumerable(m, a), m.owned[j]]
                            enumerable(m, a) && 0 <= j < k && m.owned[j] == src_pair(a)
                                ==> v@.contains(a),
                        forall|a: Action|
                            #![trigger enumerable(m, a)]
                            enumerable(m, a) && src_pair(a) == p && a.spec_dir() < d
                                ==> v@.contains(a),
                    decreases 4 - d,
                {
                    let ghost vpre = v@;
                    let mut ok = true;
                    let mut nx = p.x;
                    let mut ny = p.y;
                    if d == 0 {
                        if p.x == 0 {
                            ok = false;
                        } else {
                            nx = p.x - 1;
                        }
                    } else if d == 1 {
                        if p.y == 0 {
                            ok = false;
                        } else {
                            ny = p.y - 1;
                        }
                    } else if d == 2 {
                        if p.x + 1 >= w {
                            ok = false;
                        } else {
                            nx = p.x + 1;
                        }
                    } else {
                        if p.y + 1 >= h {
                            ok = false;
                        } else {
                            ny = p.y + 1;
                        }
                    }
                    let mut blocked = true;
                    let ghost mut pushed_full = Action(0);
                    let ghost mut pushed_half = Action(0);
                    let ghost mut did_half = false;
                    if ok {
                        proof {
                            lemma_pair_idx_bounds(Pair { x: nx, y: ny }, m.width, m.height);
                        }
                        let ni = ny * w + nx;
                        let tk = self.tiles[ni].kind;
                        if !(tk == TileKind::Mountain || tk == TileKind::City || tk
                            == TileKind::Obstacle) {
                            blocked = false;
                            let full = Action::make(false, d, p.x as u16, p.y as u16);
                            proof {
                                pushed_full = full;
                                assert((src_idx(m, full) as int) == (i as int));
                                if d == 0 {
                                    assert(full.spec_dst_x() == nx && full.spec_dst_y() == ny);
                                } else if d == 1 {
                                    assert(full.spec_dst_x() == nx && full.spec_dst_y() == ny);
                                } else if d == 2 {
                                    assert(full.spec_dst_x() == nx && full.spec_dst_y() == ny);
                                } else {
                                    assert(full.spec_dst_x() == nx && full.spec_dst_y() == ny);
                                }
                                assert((dst_idx(m, full) as int) == (ni as int));
                                assert(enumerable(m, full));
                            }
                            v.push(full);
                            if cnt > 2 {
                                let halfm = Action::make(true, d, p.x as u16, p.y as u16);
                                proof {
                                    pushed_half = halfm;
                                    did_half = true;
                                    assert((src_idx(m, halfm) as int) == (i as int));
                                    if d == 0 {
                                        assert(halfm.spec_dst_x() == nx && halfm.spec_dst_y() == ny);
                                    } else if d == 1 {
                                        assert(halfm.spec_dst_x() == nx && halfm.spec_dst_y() == ny);
                                    } else if d == 2 {
                                        assert(halfm.spec_dst_x() == nx && halfm.spec_dst_y() == ny);
                                    } else {
                                        assert(halfm.spec_dst_x() == nx && halfm.spec_dst_y() == ny);
                                    }
                                    assert((dst_idx(m, halfm) as int) == (ni as int));
                                    assert(enumerable(m, halfm));
                                }
                                v.push(halfm);
                            }
                        }
                    }
                    proof {
                        assert forall|idx: int| 0 <= idx < v@.len() implies enumerable(
                            m,
                            #[trigger] v@[idx],
                        ) by {
                            if idx < vpre.len() {
                                assert(v@[idx] == vpre[idx]);
                            }
                        }
                        assert forall|a: Action, j: int|
                            #![trigger enumerable(m, a), m.owned[j]]
                            enumerable(m, a) && 0 <= j < k && m.owned[j] == src_pair(a) implies v@
                            .contains(a) by {
                            assert(vpre.contains(a));
                            if v@.len() > vpre.len() {
                                lemma_push_keeps(vpre, pushed_full, a);
                                if did_half {
                                    lemma_push_keeps(vpre.push(pushed_full), pushed_half, a);
                                }
                            }
                        }
                        assert forall|a: Action|
                            #![trigger enumerable(m, a)]
                            enumerable(m, a) && src_pair(a) == p && a.spec_dir() < d + 1 implies v@
                            .contains(a) by {
                            if a.spec_dir() < d {
                                assert(vpre.contains(a));
                                if v@.len() > vpre.len() {
                                    lemma_push_keeps(vpre, pushed_full, a);
                                    if did_half {
                                        lemma_push_keeps(vpre.push(pushed_full), pushed_half, a);
                                    }
                                }
                            } else {
                                // direction d: the destination is exactly the
                                // neighbor this iteration examined
                                assert(a.spec_src_x() == p.x && a.spec_src_y() == p.y);
                                assert(ok) by {
                                    if !ok {
                                        assert(a.spec_dst_x() < 0 || a.spec_dst_x() >= m.width
                                            || a.spec_dst_y() < 0 || a.spec_dst_y() >= m.height);
                                    }
                                }
                                assert(a.spec_dst_x() == nx && a.spec_dst_y() == ny);
                                assert(!blocked) by {
                                    if blocked {
                                        assert(m.tiles[dst_idx(m, a)].kind == TileKind::Mountain
                                            || m.tiles[dst_idx(m, a)].kind == TileKind::City
                                            || m.tiles[dst_idx(m, a)].kind == TileKind::Obstacle);
                                    }
                                }
                                if a.spec_is_half() {
                                    assert(m.tiles[src_idx(m, a)].count > 2);
                                    assert(did_half);
                                    Action::lemma_encoding_unique(a, pushed_half);
                                    assert(v@[v@.len() - 1] == a);
                                } else {
                                    Action::lemma_encoding_unique(a, pushed_full);
                                    if did_half {
                                        assert(v@[v@.len() - 2] == a);
                                    } else {
                                        assert(v@[v@.len() - 1] == a);
                                    }
                                }
                            }
                        }
                    }
                    d = d + 1;
                }
            }
            k = k + 1;
            proof {
                assert forall|a: Action, j: int|
                    #![trigger enumerable(m, a), m.owned[j]]
                    enumerable(m, a) && 0 <= j < k && m.owned[j] == src_pair(a) implies v@.contains(
                    a,
                ) by {
                    if j == k - 1 {
                        assert(a.spec_dir() < 4);
                        if m.tiles[src_idx(m, a)].count > 1 {
                        }
                    }
                }
            }
        }
        proof {
            assert forall|a: Action| #[trigger] v@.contains(a) <==> enumerable(m, a) by {
                if v@.contains(a) {
                    let idx = choose|idx: int| 0 <= idx < v@.len() && v@[idx] == a;
                    assert(enumerable(m, v@[idx]));
                }
                if enumerable(m, a) {
                    assert(in_bounds_pair(src_pair(a), m.width, m.height));
                    assert(m.owned.contains(src_pair(a))) by {
                        assert((pair_idx(src_pair(a), m.width) as int) == src_idx(m, a));
                    }
                    let j = choose|j: int| 0 <= j < m.owned.len() && m.owned[j] == src_pair(a);
                    assert(v@.contains(a));
                }
            }
        }
        v
    }

    /// Picks uniformly at random among all enumerated legal movements and
    /// the always-available pass action.
    pub fn select_action(&self) -> (a: Action)
        requires
            wf(self@),
        ensures
            a.spec_is_empty() || enumerable(self@, a),
    {
        let v = self.enumerate_actions();
        let n = v.len();
        if n < usize::MAX {
            let idx = crate::sys::random_below(n + 1);
            if idx < n {
                let a = v[idx];
                proof {
                    assert(v@.contains(v@[idx as int]));
                }
                return a;
            }
        }
        Action::empty()
    }
}

} // verus!
