//! The rollout search: a statistics tree keyed by the compact action
//! encoding, grown lazily as rollouts sample actions, and the move
//! selector that picks the best-averaging action once the time budget
//! elapses.
//!
//! Each rollout applies a sampled action, recurses, and undoes the action
//! exactly; `search` is proved to hand the simulation back unchanged.

use vstd::prelude::*;

use crate::action::Action;
use crate::game::Game;
use crate::state::State;
use crate::state::buildable;
use crate::state::build_model;
use crate::state::can_move;
use crate::state::dst_pair;
use crate::state::src_pair;
use crate::state::enumerable;
use crate::state::fits;
use crate::state::spec_apply;
use crate::state::lemma_apply_unapply_inverse;
use crate::state::wf;
use crate::state::Pair;
use crate::sys;

verus! {

/// Visit counts are capped here so that cumulative scores provably fit an
/// `i64` and cross-multiplied averages fit an `i128`.
pub const VISIT_CAP: usize = 0xFFFF_FFFE;

/// Per-action statistics of one tree node, with the lazily created child
/// node reached by taking that action.
#[derive(Debug)]
pub struct ActionTransfer {
    pub visit_count: usize,
    pub cumulative_score: i64,
    pub next_node: SearchNode,
}

/// One node of the statistics tree: per-action transfers, looked up by the
/// compact action encoding and created on first visit.
#[derive(Debug)]
pub struct SearchNode {
    pub actions: Vec<(Action, ActionTransfer)>,
}

/// Well-formed statistics: entry keys are distinct, every visit count is
/// capped, every cumulative score is bounded by its visit count times the
/// largest single-rollout reward magnitude, and children are well-formed.
pub open spec fn wf_node(n: SearchNode) -> bool
    decreases n,
{
    &&& forall|i: int, j: int|
        0 <= i < j < n.actions@.len() ==> (#[trigger] n.actions@[i]).0 != (
        #[trigger] n.actions@[j]).0
    &&& forall|i: int|
        0 <= i < n.actions@.len() ==> {
            &&& (#[trigger] n.actions@[i]).1.visit_count <= VISIT_CAP
            &&& -((n.actions@[i].1.visit_count as int) * 0x8000_0000)
                <= n.actions@[i].1.cumulative_score as int <= (n.actions@[i].1.visit_count as int)
                * 0x8000_0000
            &&& wf_node(n.actions@[i].1.next_node)
        }
}

impl Default for ActionTransfer {
    /// Fresh statistics: never visited, zero reward, empty child.
    fn default() -> (r: ActionTransfer)
        ensures
            r.visit_count == 0,
            r.cumulative_score == 0,
            r.next_node.actions@.len() == 0,
    {
        ActionTransfer { visit_count: 0, cumulative_score: 0, next_node: SearchNode::new() }
    }
}

impl SearchNode {
    /// An empty node with no statistics yet.
    pub fn new() -> (n: SearchNode)
        ensures
            n.actions@.len() == 0,
            wf_node(n),
    {
        SearchNode { actions: Vec::new() }
    }

    /// Finds this node's statistics entry for the action, creating a fresh
    /// one on first visit, and returns its position in the entry list.
    #[verifier::loop_isolation(false)]
    pub fn get_action_transfer(&mut self, action: Action) -> (idx: usize)
        requires
            wf_node(*old(self)),
        ensures
            wf_node(*final(self)),
            idx < final(self).actions@.len(),
            final(self).actions@[idx as int].0 == action,
            forall|i: int|
                0 <= i < old(self).actions@.len()
                    ==> final(self).actions@[i] == old(self).actions@[i],
            final(self).actions@.len() == old(self).actions@.len() || (final(self).actions@.len()
                == old(self).actions@.len() + 1 && idx == old(self).actions@.len()
                && final(self).actions@[idx as int].1.visit_count == 0
                && final(self).actions@[idx as int].1.cumulative_score == 0
                && final(self).actions@[idx as int].1.next_node.actions@.len() == 0),
            final(self).actions@.len() == old(self).actions@.len() <==> (exists|i: int|
                0 <= i < old(self).actions@.len() && (#[trigger] old(self).actions@[i]).0
                    == action),
    {
        let n = self.actions.len();
        let mut k: usize = 0;
        while k < n
            invariant
                k <= n,
                n == self.actions@.len(),
                forall|i: int| 0 <= i < k ==> (#[trigger] self.actions@[i]).0 != action,
            decreases n - k,
        {
            if self.actions[k].0 == action {
                proof {
                    assert((old(self).actions@[k as int]).0 == action);
                }
                return k;
            }
            k = k + 1;
        }
        let ghost pre = self.actions@;
        self.actions.push((action, ActionTransfer::default()));
        proof {
            assert(wf_node(*self)) by {
                assert forall|i: int, j: int|
                    0 <= i < j < self.actions@.len() implies (#[trigger] self.actions@[i]).0 != (
                #[trigger] self.actions@[j]).0 by {
                    if j < pre.len() {
                        assert(self.actions@[i] == pre[i]);
                        assert(self.actions@[j] == pre[j]);
                    } else {
                        assert(self.actions@[i] == pre[i]);
                        assert(self.actions@[j].0 == action);
                    }
                }
                assert forall|i: int| 0 <= i < self.actions@.len() implies {
                    &&& (#[trigger] self.actions@[i]).1.visit_count <= VISIT_CAP
                    &&& -((self.actions@[i].1.visit_count as int) * 0x8000_0000)
                        <= self.actions@[i].1.cumulative_score as int <= (
                    self.actions@[i].1.visit_count as int) * 0x8000_0000
                    &&& wf_node(self.actions@[i].1.next_node)
                } by {
                    if i < pre.len() {
                        assert(self.actions@[i] == pre[i]);
                    } else {
                        assert(self.actions@[i].1.visit_count == 0);
                        assert(self.actions@[i].1.cumulative_score == 0);
                        assert(self.actions@[i].1.next_node.actions@.len() == 0);
                        assert(wf_node(self.actions@[i].1.next_node));
                    }
                }
            }
        }
        n
    }
}

/// Entry `i` of the node is a root-selection candidate: a concrete
/// (non-pass) action with at least one recorded visit.
pub open spec fn is_cand(n: SearchNode, i: int) -> bool {
    &&& 0 <= i < n.actions@.len()
    &&& !n.actions@[i].0.spec_is_empty()
    &&& n.actions@[i].1.visit_count >= 1
}

/// Entry `j`'s average reward is at most entry `i`'s, compared by
/// cross-multiplication (visit counts are positive for candidates).
pub open spec fn avg_le(n: SearchNode, j: int, i: int) -> bool {
    (n.actions@[j].1.cumulative_score as int) * (n.actions@[i].1.visit_count as int) <= (
    n.actions@[i].1.cumulative_score as int) * (n.actions@[j].1.visit_count as int)
}

/// Entry `j`'s average reward is strictly below entry `i`'s.
pub open spec fn avg_lt(n: SearchNode, j: int, i: int) -> bool {
    (n.actions@[j].1.cumulative_score as int) * (n.actions@[i].1.visit_count as int) < (
    n.actions@[i].1.cumulative_score as int) * (n.actions@[j].1.visit_count as int)
}

/// Transitivity of the cross-multiplied average comparison, with a strict
/// step on the right.
proof fn lemma_frac_trans(cj: int, vj: int, cb: int, vb: int, ck: int, vk: int)
    requires
        vj >= 1,
        vb >= 1,
        vk >= 1,
        cj * vb <= cb * vj,
        cb * vk < ck * vb,
    ensures
        cj * vk < ck * vj,
{
    assert(cj * vk < ck * vj) by (nonlinear_arith)
        requires
            vj >= 1,
            vb >= 1,
            vk >= 1,
            cj * vb <= cb * vj,
            cb * vk < ck * vb,
    ;
}

/// An `i64` score times a capped visit count stays far inside `i128`.
proof fn lemma_prod_bound(c: int, v: int)
    requires
        -0x8000_0000_0000_0000 <= c < 0x8000_0000_0000_0000,
        0 <= v <= 0x1_0000_0000,
    ensures
        -0x1_0000_0000_0000_0000_0000_0000 < c * v < 0x1_0000_0000_0000_0000_0000_0000,
{
    assert(-0x1_0000_0000_0000_0000_0000_0000 < c * v < 0x1_0000_0000_0000_0000_0000_0000)
        by (nonlinear_arith)
        requires
            -0x8000_0000_0000_0000 <= c < 0x8000_0000_0000_0000,
            0 <= v <= 0x1_0000_0000,
    ;
}

/// One rollout left its mark at entry `k` of the node: the entry is keyed
/// by the sampled action `a` (appended fresh if it is the new last entry),
/// its visit count advanced by one and its cumulative score by the reward
/// `r` — or both left alone once the visit cap is reached — and every
/// other entry is exactly as it was; only entry `k`'s child subtree may
/// differ beyond that.
pub open spec fn recorded_rollout_at(
    pre: SearchNode,
    post: SearchNode,
    k: int,
    a: Action,
    r: int,
) -> bool {
    &&& 0 <= k < post.actions@.len()
    &&& (post.actions@.len() == pre.actions@.len() || (post.actions@.len() == pre.actions@.len()
        + 1 && k == pre.actions@.len()))
    &&& forall|i: int|
        0 <= i < post.actions@.len() && i != k ==> #[trigger] post.actions@[i] == pre.actions@[i]
    &&& post.actions@[k].0 == a
    &&& (k < pre.actions@.len() ==> pre.actions@[k].0 == a)
    &&& {
        let vpre: int = if k < pre.actions@.len() {
            pre.actions@[k].1.visit_count as int
        } else {
            0
        };
        let cpre: int = if k < pre.actions@.len() {
            pre.actions@[k].1.cumulative_score as int
        } else {
            0
        };
        if vpre < VISIT_CAP {
            post.actions@[k].1.visit_count == vpre + 1 && post.actions@[k].1.cumulative_score
                == cpre + r
        } else {
            post.actions@[k].1.visit_count == vpre && post.actions@[k].1.cumulative_score == cpre
        }
    }
}

impl SearchNode {
    /// Sampling policy for one rollout step: uniform among the legal
    /// movements and the always-available pass action.
    pub fn select_action(&self, state: &State) -> (a: Action)
        requires
            wf(state@),
        ensures
            a.spec_is_empty() || enumerable(state@, a),
    {
        state.select_action()
    }

    /// One rollout step.  At depth 0, evaluate the state.  Otherwise
    /// sample an action, apply it, recurse into the lazily created child
    /// node, undo the action exactly, and record the reward in this node's
    /// statistics: exactly one entry — keyed by the sampled action —
    /// advances by one visit and the reward (see `recorded_rollout_at`);
    /// the only exception is a sample the machine range cannot absorb,
    /// which is treated as a leaf and recorded nowhere.  The simulation
    /// state comes back unchanged, bit for bit: that is the apply/undo
    /// inverse law at work.
    pub fn search(&mut self, state: &mut State, depth: u32) -> (r: i32)
        requires
            wf_node(*old(self)),
            wf(old(state)@),
        ensures
            wf_node(*final(self)),
            final(state)@ == old(state)@,
            depth == 0 ==> r == old(state)@.land[0] && *final(self) == *old(self),
            depth >= 1 ==> (*final(self) == *old(self) && r == old(state)@.land[0]) || (exists|
                k: int,
                a: Action,
            |
                {
                    &&& #[trigger] recorded_rollout_at(*old(self), *final(self), k, a, r as int)
                    &&& a.spec_is_empty() || enumerable(old(state)@, a)
                    &&& can_move(old(state)@, a)
                    &&& fits(old(state)@, a)
                    &&& (depth == 1 ==> r == spec_apply(old(state)@, a).land[0])
                }),
        decreases depth,
    {
        if depth == 0 {
            return state.evaluate();
        }
        let action = self.select_action(state);
        if !state.can_apply(action) {
            // the sampled action cannot be applied without leaving the
            // machine range: treat this rollout as a leaf
            return state.evaluate();
        }
        let ghost m0 = state@;
        let counts = state.apply_action(action);
        proof {
            lemma_apply_unapply_inverse(m0, action);
        }
        let idx = self.get_action_transfer(action);
        let ghost pre = self.actions@;
        let entry = self.actions.remove(idx);
        let akey = entry.0;
        let tr = entry.1;
        let mut child = tr.next_node;
        proof {
            assert(pre[idx as int].1.next_node == child);
            assert(wf_node(child));
        }
        let score = child.search(state, depth - 1);
        state.unapply_action(action, counts);
        let nv: usize;
        let nc: i64;
        if tr.visit_count < VISIT_CAP {
            nv = tr.visit_count + 1;
            nc = tr.cumulative_score + (score as i64);
        } else {
            nv = tr.visit_count;
            nc = tr.cumulative_score;
        }
        self.actions.insert(idx, (akey, ActionTransfer {
            visit_count: nv,
            cumulative_score: nc,
            next_node: child,
        }));
        proof {
            assert(self.actions@ =~= pre.update(idx as int, (akey, ActionTransfer {
                visit_count: nv,
                cumulative_score: nc,
                next_node: child,
            })));
            assert(wf_node(*self)) by {
                assert forall|i: int, j: int|
                    0 <= i < j < self.actions@.len() implies (#[trigger] self.actions@[i]).0 != (
                #[trigger] self.actions@[j]).0 by {
                    assert(self.actions@[i].0 == pre[i].0);
                    assert(self.actions@[j].0 == pre[j].0);
                }
                assert forall|i: int| 0 <= i < self.actions@.len() implies {
                    &&& (#[trigger] self.actions@[i]).1.visit_count <= VISIT_CAP
                    &&& -((self.actions@[i].1.visit_count as int) * 0x8000_0000)
                        <= self.actions@[i].1.cumulative_score as int <= (
                    self.actions@[i].1.visit_count as int) * 0x8000_0000
                    &&& wf_node(self.actions@[i].1.next_node)
                } by {
                    if i != idx as int {
                        assert(self.actions@[i] == pre[i]);
                    }
                }
            }
            assert(recorded_rollout_at(*old(self), *self, idx as int, action, score as int)) by {
                assert(self.actions@[idx as int].0 == action);
                assert forall|i: int|
                    0 <= i < self.actions@.len() && i != idx as int implies #[trigger] self
                    .actions@[i] == old(self).actions@[i] by {
                    assert(self.actions@[i] == pre[i]);
                }
                if idx < old(self).actions.len() {
                    assert(pre[idx as int] == old(self).actions@[idx as int]);
                } else {
                    assert(pre[idx as int].1.visit_count == 0);
                    assert(pre[idx as int].1.cumulative_score == 0);
                }
            }
        }
        score
    }

    /// Root selection after the deadline: the first entry, in entry order,
    /// among concrete visited actions whose average reward is maximal; the
    /// pass action when no concrete action has statistics.
    #[verifier::loop_isolation(false)]
    pub fn select_best_move(&self) -> (r: Action)
        requires
            wf_node(*self),
        ensures
            (exists|i: int| is_cand(*self, i)) <==> !r.spec_is_empty(),
            !r.spec_is_empty() ==> exists|i: int|
                {
                    &&& #[trigger] is_cand(*self, i)
                    &&& self.actions@[i].0 == r
                    &&& forall|j: int| is_cand(*self, j) ==> avg_le(*self, j, i)
                    &&& forall|j: int| 0 <= j < i && is_cand(*self, j) ==> avg_lt(*self, j, i)
                },
    {
        let n = self.actions.len();
        let mut best_idx: usize = 0;
        let mut has_best = false;
        let mut k: usize = 0;
        while k < n
            invariant
                k <= n,
                !has_best ==> forall|j: int| 0 <= j < k ==> !is_cand(*self, j),
                has_best ==> {
                    &&& is_cand(*self, best_idx as int)
                    &&& best_idx < k
                    &&& forall|j: int|
                        0 <= j < k && is_cand(*self, j) ==> avg_le(*self, j, best_idx as int)
                    &&& forall|j: int|
                        0 <= j < best_idx && is_cand(*self, j) ==> avg_lt(
                            *self,
                            j,
                            best_idx as int,
                        )
                },
            decreases n - k,
        {
            let empty_here = self.actions[k].0.is_empty();
            let vk_visits = self.actions[k].1.visit_count;
            if !empty_here && vk_visits >= 1 {
                if !has_best {
                    has_best = true;
                    best_idx = k;
                } else {
                    let cb = self.actions[best_idx].1.cumulative_score;
                    let vb = self.actions[best_idx].1.visit_count;
                    let ck = self.actions[k].1.cumulative_score;
                    proof {
                        lemma_prod_bound(ck as int, vb as int);
                        lemma_prod_bound(cb as int, vk_visits as int);
                    }
                    let lhs: i128 = (ck as i128) * (vb as i128);
                    let rhs: i128 = (cb as i128) * (vk_visits as i128);
                    if lhs > rhs {
                        proof {
                            let ghost b0 = best_idx as int;
                            assert(avg_lt(*self, b0, k as int));
                            assert forall|j: int| 0 <= j < k + 1 && is_cand(*self, j) implies avg_le(
                                *self,
                                j,
                                k as int,
                            ) && (j < k ==> avg_lt(*self, j, k as int)) by {
                                if j < k {
                                    lemma_frac_trans(
                                        self.actions@[j].1.cumulative_score as int,
                                        self.actions@[j].1.visit_count as int,
                                        self.actions@[b0].1.cumulative_score as int,
                                        self.actions@[b0].1.visit_count as int,
                                        self.actions@[k as int].1.cumulative_score as int,
                                        self.actions@[k as int].1.visit_count as int,
                                    );
                                }
                            }
                        }
                        best_idx = k;
                    }
                }
            }
            k = k + 1;
        }
        if has_best {
            self.actions[best_idx].0
        } else {
            proof {
                assert(Action(0x2000).spec_is_empty());
            }
            Action::empty()
        }
    }
}

/// The decision driver: one fresh statistics tree per decision cycle,
/// rollouts until the wall-clock budget elapses, then the best move.
#[derive(Debug)]
pub struct MonteCarlo {
    pub root: Option<SearchNode>,
}

/// Wall-clock budget of one decision cycle, in nanoseconds.
pub const BUDGET_NS: i128 = 200_000_000;

/// Safety cap on rollouts per cycle; the wall-clock deadline is the
/// operative bound, this only keeps each cycle provably finite.
pub const ROLLOUT_CAP: u32 = 0x4000_0000;

impl MonteCarlo {
    /// A driver with no tree yet.
    pub fn new() -> (m: MonteCarlo)
        ensures
            m.root is None,
    {
        MonteCarlo { root: None }
    }

    /// One decision cycle: rebuild the tree and the simulation from the
    /// latest snapshot, run independent rollouts (depth = turns until the
    /// next 50-turn growth milestone) until the budget elapses, and emit
    /// the best concrete move as (source, destination, halve), or `None`
    /// to pass.  Any emitted move is an action that is legal (enumerable)
    /// in the simulation built from the snapshot, and it is a
    /// best-averaging candidate of the stored statistics tree; when no
    /// legal movement exists at all, the answer is `None`.
    #[verifier::loop_isolation(false)]
    pub fn next_move(&mut self, game: &Game) -> (r: Option<(Pair, Pair, bool)>)
        requires
            buildable(game),
        ensures
            final(self).root is Some,
            r matches Some(mv) ==> {
                &&& mv.0.x < game.width
                &&& mv.0.y < game.height
                &&& mv.1.x < game.width
                &&& mv.1.y < game.height
                &&& (mv.0.x == mv.1.x && (mv.0.y == mv.1.y + 1 || mv.0.y + 1 == mv.1.y)) || (
                mv.0.y == mv.1.y && (mv.0.x == mv.1.x + 1 || mv.0.x + 1 == mv.1.x))
            },
            r matches Some(mv) ==> (exists|a: Action|
                {
                    &&& #[trigger] enumerable(build_model(game), a)
                    &&& mv.0 == src_pair(a)
                    &&& mv.1 == dst_pair(a)
                    &&& mv.2 == a.spec_is_half()
                }),
            (forall|a: Action| !enumerable(build_model(game), a)) ==> r is None,
            r is None ==> (final(self).root matches Some(n) && (forall|i: int| !is_cand(n, i))),
            r matches Some(mv) ==> (final(self).root matches Some(n) && (exists|i: int|
                {
                    &&& #[trigger] is_cand(n, i)
                    &&& src_pair(n.actions@[i].0) == mv.0
                    &&& dst_pair(n.actions@[i].0) == mv.1
                    &&& n.actions@[i].0.spec_is_half() == mv.2
                    &&& forall|j: int| is_cand(n, j) ==> avg_le(n, j, i)
                })),
    {
        let start = sys::now_ns();
        let mut root = SearchNode::new();
        let mut state = State::new(game);
        let depth = (50 - (game.turn % 50)) as u32;
        let mut remaining: u32 = ROLLOUT_CAP;
        while remaining > 0
            invariant
                wf_node(root),
                state@ == build_model(game),
                wf(state@),
                forall|i: int|
                    0 <= i < root.actions@.len() ==> (#[trigger] root.actions@[i]).0.spec_is_empty()
                        || enumerable(build_model(game), root.actions@[i].0),
            decreases remaining,
        {
            let ghost rpre = root;
            let reward = root.search(&mut state, depth);
            proof {
                if root != rpre {
                    let (k, a) = choose|k: int, a: Action|
                        {
                            &&& #[trigger] recorded_rollout_at(rpre, root, k, a, reward as int)
                            &&& a.spec_is_empty() || enumerable(build_model(game), a)
                            &&& can_move(build_model(game), a)
                            &&& fits(build_model(game), a)
                            &&& (depth == 1 ==> reward == spec_apply(build_model(game), a).land[0])
                        };
                    assert forall|i: int|
                        0 <= i < root.actions@.len() implies (
                    #[trigger] root.actions@[i]).0.spec_is_empty() || enumerable(
                        build_model(game),
                        root.actions@[i].0,
                    ) by {
                        if i == k {
                            assert(root.actions@[k].0 == a);
                        } else {
                            assert(root.actions@[i] == rpre.actions@[i]);
                        }
                    }
                }
            }
            remaining = remaining - 1;
            let now = sys::now_ns();
            if now - start > BUDGET_NS {
                break;
            }
        }
        let best = root.select_best_move();
        self.root = Some(root);
        if best.is_empty() {
            return None;
        }
        proof {
            let i = choose|i: int|
                {
                    &&& #[trigger] is_cand(root, i)
                    &&& root.actions@[i].0 == best
                    &&& forall|j: int| is_cand(root, j) ==> avg_le(root, j, i)
                    &&& forall|j: int| 0 <= j < i && is_cand(root, j) ==> avg_lt(root, j, i)
                };
            // a candidate key was recorded by some rollout, so it is a
            // legal movement of the built simulation; in particular its
            // coordinates are on the board
            assert(enumerable(build_model(game), best));
        }
        let sx = best.src_x();
        let sy = best.src_y();
        let dx = best.dst_x();
        let dy = best.dst_y();
        let mv = (Pair { x: sx, y: sy }, Pair { x: dx, y: dy }, best.is_half());
        proof {
            assert(mv.0 == src_pair(best));
            assert(mv.1 == dst_pair(best));
            let n = self.root->Some_0;
            assert(n == root);
            let i = choose|i: int|
                {
                    &&& #[trigger] is_cand(n, i)
                    &&& n.actions@[i].0 == best
                    &&& forall|j: int| is_cand(n, j) ==> avg_le(n, j, i)
                    &&& forall|j: int| 0 <= j < i && is_cand(n, j) ==> avg_lt(n, j, i)
                };
            assert(is_cand(n, i) && src_pair(n.actions@[i].0) == mv.0 && dst_pair(n.actions@[i].0)
                == mv.1 && n.actions@[i].0.spec_is_half() == mv.2);
        }
        Some(mv)
    }
}

} // verus!
