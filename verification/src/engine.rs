//! Move Ranker and Decision Entry Point.  Each tick, the four candidate
//! directions are filtered to those whose destination is free, ranked by a
//! lexicographic key, and the smallest key wins.  The key puts first a flag
//! for destinations beside a live opponent head, then the one-ply lookahead
//! score, then a wall-following flag, then the direct evaluation, and last
//! a seeded pseudo-random tie-break, so that the whole decision is a
//! function of the grid state and the seed alone.

use vstd::prelude::*;

use crate::field::{field_spec, taint_fields_near_heads};
use crate::fixed::{HEAD_FACTOR, SCALE, WALL_FACTOR, WALL_HEAD_THRESHOLD};
use crate::grid::{
    has_neighbour_head, has_neighbour_head_spec, has_wall, has_wall_spec, GridModel, State,
    MAX_CELLS,
};
use crate::protocol::Command;
use crate::region::{
    eval_region_spec, evaluate_empty_space, explore_empty_space, explore_spec, min_in_vec, min_opt,
    RegionModel,
};
use crate::{move_by_direction, move_spec, MoveDirection, Position};

verus! {

/// The lexicographic ranking key of one candidate direction; smaller is
/// better.
#[derive(Clone, Copy, PartialEq, Eq, Structural, Debug)]
pub struct DirectionRanking {
    /// The destination is next to a live opponent head: a near-certain loss
    /// if both contest the same cell next tick.
    pub has_neighbour_head: bool,
    /// The worst region quality among the legal follow-up moves after
    /// hypothetically taking this direction.
    pub best_empty_space_score_after_step: i64,
    /// The destination hugs an opponent trail while an opponent head is
    /// close by.
    pub wall_follow: bool,
    /// Nearness to opponent heads against the territory the destination
    /// opens up.
    pub direction_score: i64,
    /// Seeded noise, deciding only between otherwise equal directions.
    pub random: u64,
}

/// Strict lexicographic order on ranking keys, `false` before `true`.
pub open spec fn ranking_lt(a: DirectionRanking, b: DirectionRanking) -> bool {
    if a.has_neighbour_head != b.has_neighbour_head {
        !a.has_neighbour_head
    } else if a.best_empty_space_score_after_step != b.best_empty_space_score_after_step {
        a.best_empty_space_score_after_step < b.best_empty_space_score_after_step
    } else if a.wall_follow != b.wall_follow {
        !a.wall_follow
    } else if a.direction_score != b.direction_score {
        a.direction_score < b.direction_score
    } else {
        a.random < b.random
    }
}

/// Does `a` rank strictly better than `b`?
pub fn ranking_less(a: &DirectionRanking, b: &DirectionRanking) -> (r: bool)
    ensures
        r == ranking_lt(*a, *b),
{
    if a.has_neighbour_head != b.has_neighbour_head {
        !a.has_neighbour_head
    } else if a.best_empty_space_score_after_step != b.best_empty_space_score_after_step {
        a.best_empty_space_score_after_step < b.best_empty_space_score_after_step
    } else if a.wall_follow != b.wall_follow {
        !a.wall_follow
    } else if a.direction_score != b.direction_score {
        a.direction_score < b.direction_score
    } else {
        a.random < b.random
    }
}

/// The fixed slot of a direction in the candidate enumeration.
pub open spec fn dir_index(d: MoveDirection) -> u64 {
    match d {
        MoveDirection::Up => 0,
        MoveDirection::Down => 1,
        MoveDirection::Left => 2,
        MoveDirection::Right => 3,
    }
}

/// The seeded tie-break noise for one direction: a xorshift scramble of
/// the seed and the direction slot.  Equal inputs give equal noise, so a
/// fixed seed fixes the whole decision.
pub open spec fn tie_break(seed: u64, k: u64) -> u64 {
    let a = seed ^ (k << 62) ^ (k << 31) ^ k;
    let b = a ^ (a << 13);
    let c = b ^ (b >> 7);
    c ^ (c << 17)
}

/// The tie-break noise, as `tie_break` says.
pub fn tie_break_exec(seed: u64, k: u64) -> (r: u64)
    ensures
        r == tie_break(seed, k),
{
    let a = seed ^ (k << 62u64) ^ (k << 31u64) ^ k;
    let b = a ^ (a << 13u64);
    let c = b ^ (b >> 7u64);
    c ^ (c << 17u64)
}

/// Whether a direction's destination cell is free to enter.
pub open spec fn legal(m: GridModel, d: MoveDirection) -> bool {
    !m.occupied(move_spec(m.my_position, d, m.game_size))
}

/// The quality of one legal follow-up direction after the agent
/// hypothetically stands on `sim.my_position`.
pub open spec fn follow_score(sim: GridModel, fld: Seq<u64>, d: MoveDirection) -> Option<i64> {
    let p = move_spec(sim.my_position, d, sim.game_size);
    if !sim.occupied(p) {
        Some(eval_region_spec(explore_spec(sim, fld, p)) as i64)
    } else {
        None
    }
}

/// The smaller of two optional scores.
pub open spec fn opt_min(a: Option<i64>, b: Option<i64>) -> Option<i64> {
    match (a, b) {
        (Some(x), Some(y)) => if y < x {
            Some(y)
        } else {
            Some(x)
        },
        (Some(x), None) => Some(x),
        (None, y) => y,
    }
}

/// The one-ply lookahead score of a destination: simulate occupying it,
/// then take the minimum region quality over the legal follow-up moves; a
/// dead end, with no follow-up at all, scores zero, worse than any region.
pub open spec fn lookahead_spec(m: GridModel, fld: Seq<u64>, dest: Position) -> i64 {
    let sim = m.step_self(dest);
    let s1 = follow_score(sim, fld, MoveDirection::Up);
    let s2 = follow_score(sim, fld, MoveDirection::Down);
    let s3 = follow_score(sim, fld, MoveDirection::Left);
    let s4 = follow_score(sim, fld, MoveDirection::Right);
    match opt_min(opt_min(opt_min(s1, s2), s3), s4) {
        None => 0,
        Some(v) => v,
    }
}

/// The direct evaluation of a destination: a penalty growing with nearness
/// to the closest reachable opponent head, minus the territory its region
/// offers, the latter reduced by the wall and neighbour-head factors.
pub open spec fn direct_score_spec(region: RegionModel, wall: bool, head_adj: bool) -> i64 {
    let inv = match min_opt(region.head_dists) {
        None => 0int,
        Some(m) => if m == 0 {
            (SCALE * SCALE) as int
        } else {
            (SCALE * SCALE) as int / (m as int)
        },
    };
    let fs = region.field_sum;
    let fs2 = if wall {
        fs * WALL_FACTOR / (SCALE as int)
    } else if head_adj {
        fs * HEAD_FACTOR / (SCALE as int)
    } else {
        fs
    };
    (inv - fs2) as i64
}

/// Whether the nearest reachable opponent head is imminent.
pub open spec fn nearest_within(n: Option<u32>) -> bool {
    match n {
        Some(m) => m <= WALL_HEAD_THRESHOLD,
        None => false,
    }
}

/// The whole ranking key of one candidate direction.
pub open spec fn rank_spec(m: GridModel, fld: Seq<u64>, seed: u64, d: MoveDirection) -> DirectionRanking {
    let dest = move_spec(m.my_position, d, m.game_size);
    let region = explore_spec(m, fld, dest);
    let head_adj = has_neighbour_head_spec(m, dest);
    let wall = has_wall_spec(m, dest);
    DirectionRanking {
        has_neighbour_head: head_adj,
        best_empty_space_score_after_step: lookahead_spec(m, fld, dest),
        wall_follow: wall && nearest_within(min_opt(region.head_dists)),
        direction_score: direct_score_spec(region, wall, head_adj),
        random: tie_break(seed, dir_index(d)),
    }
}

/// The running best candidate after considering one more direction.
pub open spec fn consider(
    m: GridModel,
    fld: Seq<u64>,
    seed: u64,
    d: MoveDirection,
    best: Option<(MoveDirection, DirectionRanking)>,
) -> Option<(MoveDirection, DirectionRanking)> {
    if legal(m, d) {
        let k = rank_spec(m, fld, seed, d);
        match best {
            None => Some((d, k)),
            Some(b) => if ranking_lt(k, b.1) {
                Some((d, k))
            } else {
                best
            },
        }
    } else {
        best
    }
}

/// The whole decision: nothing before initialization; otherwise the legal
/// direction with the smallest ranking key, the earlier of the fixed order
/// up, down, left, right winning exact ties; nothing when no direction is
/// legal.
pub open spec fn decide_spec(m: GridModel, seed: u64) -> Option<MoveDirection> {
    if !m.initialized() {
        None
    } else {
        let fld = field_spec(m);
        let c1 = consider(m, fld, seed, MoveDirection::Up, None);
        let c2 = consider(m, fld, seed, MoveDirection::Down, c1);
        let c3 = consider(m, fld, seed, MoveDirection::Left, c2);
        let c4 = consider(m, fld, seed, MoveDirection::Right, c3);
        match c4 {
            None => None,
            Some(b) => Some(b.0),
        }
    }
}

/// How the returned command relates to the specified decision.
pub open spec fn decision_matches(m: GridModel, seed: u64, r: Option<Command<'static>>) -> bool {
    match decide_spec(m, seed) {
        None => r is None,
        Some(d) => r matches Some(Command::Move(d2)) && d2 == d,
    }
}

/// The worst follow-up region quality after stepping onto `step_to`, as
/// `lookahead_spec` says.  The what-if simulation runs on a private copy;
/// the authoritative state is untouched.
pub fn calculate_best_empty_space_after_step(
    state: &State,
    fld: &Vec<u64>,
    step_to: &Position,
) -> (r: i64)
    requires
        state.wf(),
        state.initialized(),
        state.in_bounds(*step_to),
        fld@.len() == state.cell_count(),
        forall|i: int| 0 <= i < fld@.len() ==> #[trigger] fld@[i] <= SCALE,
    ensures
        r == lookahead_spec(state.model(), fld@, *step_to),
{
    let sim = state.simulate_step(step_to);
    proof {
        assert(sim.model() == state.model().step_self(*step_to));
    }
    let ghost simm = state.model().step_self(*step_to);
    let mut best: Option<i64> = None;
    let p1 = move_by_direction(&sim.my_position, &MoveDirection::Up, &sim.game_size);
    if !sim.is_occupied(p1) {
        let reg = explore_empty_space(&sim, fld, p1);
        let v = evaluate_empty_space(&reg);
        best = Some(v);
    }
    proof {
        assert(best == opt_min(follow_score(simm, fld@, MoveDirection::Up), None));
    }
    let p2 = move_by_direction(&sim.my_position, &MoveDirection::Down, &sim.game_size);
    if !sim.is_occupied(p2) {
        let reg = explore_empty_space(&sim, fld, p2);
        let v = evaluate_empty_space(&reg);
        best = match best {
            None => Some(v),
            Some(b) => if v < b {
                Some(v)
            } else {
                Some(b)
            },
        };
    }
    let p3 = move_by_direction(&sim.my_position, &MoveDirection::Left, &sim.game_size);
    if !sim.is_occupied(p3) {
        let reg = explore_empty_space(&sim, fld, p3);
        let v = evaluate_empty_space(&reg);
        best = match best {
            None => Some(v),
            Some(b) => if v < b {
                Some(v)
            } else {
                Some(b)
            },
        };
    }
    let p4 = move_by_direction(&sim.my_position, &MoveDirection::Right, &sim.game_size);
    if !sim.is_occupied(p4) {
        let reg = explore_empty_space(&sim, fld, p4);
        let v = evaluate_empty_space(&reg);
        best = match best {
            None => Some(v),
            Some(b) => if v < b {
                Some(v)
            } else {
                Some(b)
            },
        };
    }
    match best {
        None => 0,
        Some(v) => v,
    }
}

/// The ranking key of one candidate direction, as `rank_spec` says.
pub fn rank_direction(state: &State, fld: &Vec<u64>, seed: u64, d: MoveDirection) -> (r: DirectionRanking)
    requires
        state.wf(),
        state.initialized(),
        fld@.len() == state.cell_count(),
        forall|i: int| 0 <= i < fld@.len() ==> #[trigger] fld@[i] <= SCALE,
    ensures
        r == rank_spec(state.model(), fld@, seed, d),
{
    let next_position = move_by_direction(&state.my_position, &d, &state.game_size);
    let region = explore_empty_space(state, fld, next_position);
    let head_adj = has_neighbour_head(&next_position, state);
    let wall = has_wall(&next_position, state);
    let la = calculate_best_empty_space_after_step(state, fld, &next_position);
    let nearest = min_in_vec(&region.head_dists);
    let inv: u64 = match nearest {
        None => 0,
        Some(m) => if m == 0 {
            SCALE * SCALE
        } else {
            SCALE * SCALE / (m as u64)
        },
    };
    let fs = region.field_sum;
    proof {
        assert(region@.size * SCALE <= MAX_CELLS * SCALE) by (nonlinear_arith)
            requires
                0 <= region@.size <= MAX_CELLS,
                SCALE == 1024,
        ;
        assert(fs * WALL_FACTOR <= MAX_CELLS * SCALE * WALL_FACTOR) by (nonlinear_arith)
            requires
                0 <= fs <= MAX_CELLS * SCALE,
                WALL_FACTOR == 973,
        ;
        assert(fs * HEAD_FACTOR <= MAX_CELLS * SCALE * HEAD_FACTOR) by (nonlinear_arith)
            requires
                0 <= fs <= MAX_CELLS * SCALE,
                HEAD_FACTOR == 870,
        ;
    }
    let fs2: u64 = if wall {
        fs * WALL_FACTOR / SCALE
    } else if head_adj {
        fs * HEAD_FACTOR / SCALE
    } else {
        fs
    };
    proof {
        vstd::arithmetic::div_mod::lemma_div_is_ordered(
            0,
            (fs * WALL_FACTOR) as int,
            SCALE as int,
        );
        vstd::arithmetic::div_mod::lemma_div_is_ordered(
            (fs * WALL_FACTOR) as int,
            (MAX_CELLS * SCALE * SCALE) as int,
            SCALE as int,
        );
        vstd::arithmetic::div_mod::lemma_div_is_ordered(
            0,
            (fs * HEAD_FACTOR) as int,
            SCALE as int,
        );
        vstd::arithmetic::div_mod::lemma_div_is_ordered(
            (fs * HEAD_FACTOR) as int,
            (MAX_CELLS * SCALE * SCALE) as int,
            SCALE as int,
        );
    }
    let direct: i64 = (inv as i64) - (fs2 as i64);
    let noise = tie_break_exec(seed, dir_index_exec(d));
    DirectionRanking {
        has_neighbour_head: head_adj,
        best_empty_space_score_after_step: la,
        wall_follow: wall && (match nearest {
            Some(m) => m <= WALL_HEAD_THRESHOLD,
            None => false,
        }),
        direction_score: direct,
        random: noise,
    }
}

/// The fixed slot of a direction, as `dir_index` says.
fn dir_index_exec(d: MoveDirection) -> (r: u64)
    ensures
        r == dir_index(d),
{
    match d {
        MoveDirection::Up => 0,
        MoveDirection::Down => 1,
        MoveDirection::Left => 2,
        MoveDirection::Right => 3,
    }
}

/// One tick's decision.  Before the first game-start event it abstains.
/// Otherwise it returns the move command for the best-ranked legal
/// direction, or nothing when every neighbouring cell is occupied; it
/// never selects an occupied destination, and a sole legal direction is
/// always the one chosen, whatever the scores say.
pub fn decide_action(state: &State, seed: u64) -> (r: Option<Command<'static>>)
    requires
        state.wf(),
    ensures
        decision_matches(state.model(), seed, r),
        r matches Some(Command::Move(d)) ==> state.model().initialized() && legal(
            state.model(),
            d,
        ),
        !state.model().initialized() ==> r is None,
        state.model().initialized() ==> ((r is None) <==> (!legal(state.model(), MoveDirection::Up)
            && !legal(state.model(), MoveDirection::Down) && !legal(
            state.model(),
            MoveDirection::Left,
        ) && !legal(state.model(), MoveDirection::Right))),
        forall|d: MoveDirection|
            (state.model().initialized() && #[trigger] legal(state.model(), d) && (forall|
                d2: MoveDirection,
            | d2 != d ==> !legal(state.model(), d2))) ==> (r matches Some(Command::Move(x)) && x
                == d),
{
    let ghost m = state.model();
    if !state.is_initialized() {
        return None;
    }
    let fld = taint_fields_near_heads(state);
    let mut best: Option<(MoveDirection, DirectionRanking)> = None;
    let dest_up = move_by_direction(&state.my_position, &MoveDirection::Up, &state.game_size);
    if !state.is_occupied(dest_up) {
        let k = rank_direction(state, &fld, seed, MoveDirection::Up);
        best = Some((MoveDirection::Up, k));
    }
    let ghost c1 = consider(m, fld@, seed, MoveDirection::Up, None);
    proof {
        assert(best == c1);
    }
    let dest_down = move_by_direction(&state.my_position, &MoveDirection::Down, &state.game_size);
    if !state.is_occupied(dest_down) {
        let k = rank_direction(state, &fld, seed, MoveDirection::Down);
        best = match best {
            None => Some((MoveDirection::Down, k)),
            Some(b) => if ranking_less(&k, &b.1) {
                Some((MoveDirection::Down, k))
            } else {
                Some(b)
            },
        };
    }
    let ghost c2 = consider(m, fld@, seed, MoveDirection::Down, c1);
    proof {
        assert(best == c2);
    }
    let dest_left = move_by_direction(&state.my_position, &MoveDirection::Left, &state.game_size);
    if !state.is_occupied(dest_left) {
        let k = rank_direction(state, &fld, seed, MoveDirection::Left);
        best = match best {
            None => Some((MoveDirection::Left, k)),
            Some(b) => if ranking_less(&k, &b.1) {
                Some((MoveDirection::Left, k))
            } else {
                Some(b)
            },
        };
    }
    let ghost c3 = consider(m, fld@, seed, MoveDirection::Left, c2);
    proof {
        assert(best == c3);
    }
    let dest_right = move_by_direction(&state.my_position, &MoveDirection::Right, &state.game_size);
    if !state.is_occupied(dest_right) {
        let k = rank_direction(state, &fld, seed, MoveDirection::Right);
        best = match best {
            None => Some((MoveDirection::Right, k)),
            Some(b) => if ranking_less(&k, &b.1) {
                Some((MoveDirection::Right, k))
            } else {
                Some(b)
            },
        };
    }
    let ghost c4 = consider(m, fld@, seed, MoveDirection::Right, c3);
    proof {
        assert(best == c4);
        assert forall|d: MoveDirection|
            (m.initialized() && #[trigger] legal(m, d) && (forall|d2: MoveDirection|
                d2 != d ==> !legal(m, d2))) implies (match c4 {
            Some(b) => b.0 == d,
            None => false,
        }) by {
            match d {
                MoveDirection::Up => {
                    assert(!legal(m, MoveDirection::Down));
                    assert(!legal(m, MoveDirection::Left));
                    assert(!legal(m, MoveDirection::Right));
                },
                MoveDirection::Down => {
                    assert(!legal(m, MoveDirection::Up));
                    assert(!legal(m, MoveDirection::Left));
                    assert(!legal(m, MoveDirection::Right));
                },
                MoveDirection::Left => {
                    assert(!legal(m, MoveDirection::Up));
                    assert(!legal(m, MoveDirection::Down));
                    assert(!legal(m, MoveDirection::Right));
                },
                MoveDirection::Right => {
                    assert(!legal(m, MoveDirection::Up));
                    assert(!legal(m, MoveDirection::Down));
                    assert(!legal(m, MoveDirection::Left));
                },
            }
        }
    }
    match best {
        None => None,
        Some(b) => Some(Command::Move(b.0)),
    }
}

/// The decision is deterministic: two equal grid states and the same seed
/// always yield the same chosen direction.
pub proof fn lemma_decision_deterministic(m1: GridModel, m2: GridModel, seed: u64)
    requires
        m1 == m2,
    ensures
        decide_spec(m1, seed) == decide_spec(m2, seed),
{
}

} // verus!
