//! Territory Field: one score per grid cell saying how strongly an
//! opponent could contest it.  Every cell starts at the maximum (1.0 in
//! fixed point); for each opponent head a breadth-first pass over the free
//! cells multiplies each reached cell by `1 - FIELD_DECAY^(distance + 1)`,
//! where the head's immediate free neighbours are at distance 0.  Several
//! opponents compound multiplicatively.  Rounding is upward, so a score
//! never collapses to zero: every value stays within (0, 1].

use vstd::prelude::*;

use crate::fixed::{
    lemma_mul_up_bounds, lemma_pow_fixed_bounds, mul_up, mul_up_exec, pow_fixed, pow_fixed_exec,
    FIELD_DECAY, SCALE,
};
use crate::grid::{GridModel, State};
use crate::region::{
    bfs_measure, count_false, exp_wf, init_visited, lemma_move_neighbours_in_bounds,
};
use crate::{move_by_direction, move_spec, MoveDirection, Position};

verus! {

/// The attenuation factor applied to a free cell whose head BFS depth is
/// `depth` (the head itself sits at depth 0 and is never attenuated).
pub open spec fn field_factor(depth: u32) -> int {
    SCALE - pow_fixed(FIELD_DECAY, depth as nat)
}

/// The factor of a positive depth is a fraction of (0, 1].
pub proof fn lemma_field_factor_bounds(depth: u32)
    requires
        depth >= 1,
    ensures
        1 <= field_factor(depth) <= SCALE,
{
    lemma_pow_fixed_bounds(FIELD_DECAY, depth as nat);
}

/// Enqueue a neighbour only if its cell is free and not yet marked.
pub open spec fn push1f(
    st: GridModel,
    nd: u32,
    n: Position,
    qv: (Seq<(u32, Position)>, Seq<bool>),
) -> (Seq<(u32, Position)>, Seq<bool>) {
    if qv.1[st.idx_of(n)] || st.occupied(n) {
        qv
    } else {
        (qv.0.push((nd, n)), qv.1.update(st.idx_of(n), true))
    }
}

/// Enqueue the free unmarked neighbours of `p`, in the fixed order up,
/// down, left, right.
pub open spec fn enqueue4f(
    st: GridModel,
    p: Position,
    nd: u32,
    qv: (Seq<(u32, Position)>, Seq<bool>),
) -> (Seq<(u32, Position)>, Seq<bool>) {
    let a = push1f(st, nd, move_spec(p, MoveDirection::Up, st.game_size), qv);
    let b = push1f(st, nd, move_spec(p, MoveDirection::Down, st.game_size), a);
    let c = push1f(st, nd, move_spec(p, MoveDirection::Left, st.game_size), b);
    push1f(st, nd, move_spec(p, MoveDirection::Right, st.game_size), c)
}

proof fn lemma_push1f_effects(
    st: GridModel,
    nd: u32,
    n: Position,
    q: Seq<(u32, Position)>,
    v: Seq<bool>,
)
    requires
        exp_wf(st, q, v),
        st.in_bounds(n),
    ensures
        ({
            let qv = push1f(st, nd, n, (q, v));
            &&& qv.1.len() == v.len()
            &&& q.len() <= qv.0.len() <= q.len() + 1
            &&& forall|k: int| 0 <= k < q.len() ==> qv.0[k] == q[k]
            &&& forall|k: int| q.len() <= k < qv.0.len() ==> qv.0[k] == ((nd, n))
            &&& forall|k: int| q.len() <= k < qv.0.len() ==> !st.occupied((#[trigger] qv.0[k]).1)
            &&& count_false(qv.1) == count_false(v) - (qv.0.len() - q.len())
            &&& exp_wf(st, qv.0, qv.1)
        }),
{
    st.lemma_idx(n, n);
    let i = st.idx_of(n);
    if !v[i] && !st.occupied(n) {
        crate::region::lemma_mark_update(v, st.cells(), i);
        let qv = push1f(st, nd, n, (q, v));
        assert forall|k: int| 0 <= k < qv.0.len() implies st.in_bounds((#[trigger] qv.0[k]).1)
            && qv.1[st.idx_of(qv.0[k].1)] by {
            if k < q.len() {
                assert(qv.0[k] == q[k]);
                assert(st.in_bounds(q[k].1));
                st.lemma_idx(q[k].1, q[k].1);
                assert(v[st.idx_of(q[k].1)]);
                assert(qv.1[st.idx_of(q[k].1)]);
            } else {
                assert(qv.0 == q.push((nd, n)));
                assert(q.push((nd, n))[q.len() as int] == ((nd, n)));
                assert(qv.1 == v.update(i, true));
                assert(v.update(i, true)[i] == true);
            }
        }
    }
}

proof fn lemma_enqueue4f_effects(
    st: GridModel,
    p: Position,
    nd: u32,
    q: Seq<(u32, Position)>,
    v: Seq<bool>,
)
    requires
        exp_wf(st, q, v),
        st.in_bounds(p),
    ensures
        ({
            let qv = enqueue4f(st, p, nd, (q, v));
            &&& qv.1.len() == v.len()
            &&& q.len() <= qv.0.len() <= q.len() + 4
            &&& forall|k: int| 0 <= k < q.len() ==> qv.0[k] == q[k]
            &&& forall|k: int| q.len() <= k < qv.0.len() ==> (#[trigger] qv.0[k]).0 == nd
            &&& forall|k: int|
                q.len() <= k < qv.0.len() ==> !st.occupied((#[trigger] qv.0[k]).1) && exists|
                    d: MoveDirection,
                | qv.0[k].1 == move_spec(p, d, st.game_size)
            &&& count_false(qv.1) == count_false(v) - (qv.0.len() - q.len())
            &&& exp_wf(st, qv.0, qv.1)
        }),
{
    lemma_move_neighbours_in_bounds(st, p);
    let n1 = move_spec(p, MoveDirection::Up, st.game_size);
    let n2 = move_spec(p, MoveDirection::Down, st.game_size);
    let n3 = move_spec(p, MoveDirection::Left, st.game_size);
    let n4 = move_spec(p, MoveDirection::Right, st.game_size);
    lemma_push1f_effects(st, nd, n1, q, v);
    let a = push1f(st, nd, n1, (q, v));
    lemma_push1f_effects(st, nd, n2, a.0, a.1);
    let b = push1f(st, nd, n2, a);
    lemma_push1f_effects(st, nd, n3, b.0, b.1);
    let c = push1f(st, nd, n3, b);
    lemma_push1f_effects(st, nd, n4, c.0, c.1);
    let qv = push1f(st, nd, n4, c);
    assert forall|k: int|
        q.len() <= k < qv.0.len() implies !st.occupied((#[trigger] qv.0[k]).1) && exists|
        d: MoveDirection,
    | qv.0[k].1 == move_spec(p, d, st.game_size) by {
        if k < a.0.len() {
            assert(qv.0[k] == ((nd, n1)));
            assert(qv.0[k].1 == move_spec(p, MoveDirection::Up, st.game_size));
        } else if k < b.0.len() {
            assert(qv.0[k] == ((nd, n2)));
            assert(qv.0[k].1 == move_spec(p, MoveDirection::Down, st.game_size));
        } else if k < c.0.len() {
            assert(qv.0[k] == ((nd, n3)));
            assert(qv.0[k].1 == move_spec(p, MoveDirection::Left, st.game_size));
        } else {
            assert(qv.0[k] == ((nd, n4)));
            assert(qv.0[k].1 == move_spec(p, MoveDirection::Right, st.game_size));
        }
    }
}

/// One head's pass over the field: pop a cell; if it is free and deeper
/// than the head itself, attenuate it; then spread to its free unmarked
/// neighbours.
pub open spec fn field_rec(
    st: GridModel,
    q: Seq<(u32, Position)>,
    v: Seq<bool>,
    fld: Seq<u64>,
) -> Seq<u64>
    decreases bfs_measure(q, v),
        when exp_wf(st, q, v)
        via field_rec_dec
{
    if q.len() == 0 {
        fld
    } else {
        let depth = q[0].0;
        let p = q[0].1;
        let fld2 = if !st.occupied(p) && depth >= 1 {
            fld.update(
                st.idx_of(p),
                mul_up(fld[st.idx_of(p)] as int, field_factor(depth)) as u64,
            )
        } else {
            fld
        };
        let qv = enqueue4f(st, p, (depth + 1) as u32, (q.skip(1), v));
        field_rec(st, qv.0, qv.1, fld2)
    }
}

#[via_fn]
proof fn field_rec_dec(st: GridModel, q: Seq<(u32, Position)>, v: Seq<bool>, fld: Seq<u64>) {
    if q.len() > 0 {
        let p = q[0].1;
        let rest = q.skip(1);
        let nd = (q[0].0 + 1) as u32;
        crate::region::lemma_count_false_bounds(v);
        assert(forall|k: int| 0 <= k < rest.len() ==> st.in_bounds((#[trigger] rest[k]).1));
        assert(forall|k: int| 0 <= k < rest.len() ==> v[st.idx_of((#[trigger] rest[k]).1)]);
        lemma_enqueue4f_effects(st, p, nd, rest, v);
        let qv = enqueue4f(st, p, nd, (rest, v));
        crate::region::lemma_count_false_bounds(qv.1);
    }
}

/// A head's pass keeps every score within (0, 1] and leaves every occupied
/// cell untouched.
proof fn lemma_field_rec_bounds(st: GridModel, q: Seq<(u32, Position)>, v: Seq<bool>, fld: Seq<u64>)
    requires
        exp_wf(st, q, v),
        fld.len() == st.cell_count(),
        forall|i: int| 0 <= i < fld.len() ==> 1 <= #[trigger] fld[i] <= SCALE,
    ensures
        ({
            let r = field_rec(st, q, v, fld);
            &&& r.len() == fld.len()
            &&& forall|i: int| 0 <= i < r.len() ==> 1 <= #[trigger] r[i] <= SCALE
            &&& forall|i: int|
                0 <= i < r.len() && st.cells()[i] is Some ==> #[trigger] r[i] == fld[i]
        }),
    decreases bfs_measure(q, v),
{
    crate::region::lemma_count_false_bounds(v);
    if q.len() > 0 {
        let depth = q[0].0;
        let p = q[0].1;
        let rest = q.skip(1);
        let nd = (depth + 1) as u32;
        assert(forall|k: int| 0 <= k < rest.len() ==> st.in_bounds((#[trigger] rest[k]).1));
        assert(forall|k: int| 0 <= k < rest.len() ==> v[st.idx_of((#[trigger] rest[k]).1)]);
        lemma_enqueue4f_effects(st, p, nd, rest, v);
        let qv = enqueue4f(st, p, nd, (rest, v));
        crate::region::lemma_count_false_bounds(qv.1);
        let fld2 = if !st.occupied(p) && depth >= 1 {
            fld.update(
                st.idx_of(p),
                mul_up(fld[st.idx_of(p)] as int, field_factor(depth)) as u64,
            )
        } else {
            fld
        };
        if !st.occupied(p) && depth >= 1 {
            st.lemma_idx(p, p);
            lemma_field_factor_bounds(depth);
            lemma_mul_up_bounds(fld[st.idx_of(p)] as int, field_factor(depth));
        }
        lemma_field_rec_bounds(st, qv.0, qv.1, fld2);
    }
}

/// The field after the first `k` entries of the head list have spread.
pub open spec fn field_after(st: GridModel, k: int) -> Seq<u64>
    decreases k,
{
    if k <= 0 {
        Seq::new(st.cell_count() as nat, |i: int| SCALE)
    } else {
        head_pass(st, st.heads()[k - 1], field_after(st, k - 1))
    }
}

/// One head's contribution: opponents spread from their head cell; the
/// agent's own head spreads nothing.
pub open spec fn head_pass(st: GridModel, head: (crate::PlayerId, Position), fld: Seq<u64>) -> Seq<
    u64,
> {
    if head.0 == st.my_id {
        fld
    } else {
        field_rec(st, seq![(0u32, head.1)], init_visited(st, head.1), fld)
    }
}

/// The whole territory field of the current state.
pub open spec fn field_spec(st: GridModel) -> Seq<u64> {
    field_after(st, st.heads().len() as int)
}

proof fn lemma_field_after_bounds(st: GridModel, k: int)
    requires
        st.wf(),
        st.initialized(),
        0 <= k <= st.heads().len(),
    ensures
        field_after(st, k).len() == st.cell_count(),
        forall|i: int| 0 <= i < st.cell_count() ==> 1 <= #[trigger] field_after(st, k)[i] <= SCALE,
        forall|i: int|
            0 <= i < st.cell_count() && st.cells()[i] is Some ==> #[trigger] field_after(st, k)[i]
                == SCALE,
        (forall|j: int| 0 <= j < k ==> (#[trigger] st.heads()[j]).0 == st.my_id) ==> forall|i: int|
            0 <= i < st.cell_count() ==> #[trigger] field_after(st, k)[i] == SCALE,
    decreases k,
{
    if k <= 0 {
    } else {
        lemma_field_after_bounds(st, k - 1);
        let head = st.heads()[k - 1];
        if head.0 != st.my_id {
            assert(st.in_bounds(head.1));
            st.lemma_idx(head.1, head.1);
            let q0 = seq![(0u32, head.1)];
            let v0 = init_visited(st, head.1);
            assert(v0[st.idx_of(head.1)]);
            assert(forall|j: int| 0 <= j < q0.len() ==> st.in_bounds((#[trigger] q0[j]).1));
            assert(forall|j: int| 0 <= j < q0.len() ==> v0[st.idx_of((#[trigger] q0[j]).1)]);
            lemma_field_rec_bounds(st, q0, v0, field_after(st, k - 1));
        }
    }
}

/// Territory Field values always lie in (0, 1] (here: in [1, SCALE] on the
/// fixed-point scale), occupied cells are never attenuated, and with no
/// opponent head at all every cell keeps the initial maximum.
pub proof fn lemma_field_values_in_range(st: GridModel)
    requires
        st.wf(),
        st.initialized(),
    ensures
        field_spec(st).len() == st.cell_count(),
        forall|i: int| 0 <= i < st.cell_count() ==> 1 <= #[trigger] field_spec(st)[i] <= SCALE,
        forall|i: int|
            0 <= i < st.cell_count() && st.cells()[i] is Some ==> #[trigger] field_spec(st)[i]
                == SCALE,
        (forall|j: int| 0 <= j < st.heads().len() ==> (#[trigger] st.heads()[j]).0 == st.my_id)
            ==> forall|i: int| 0 <= i < st.cell_count() ==> #[trigger] field_spec(st)[i] == SCALE,
{
    lemma_field_after_bounds(st, st.heads().len() as int);
}

/// Whether `to` can be reached from `from` within `n` steps, every step
/// landing on a free cell.
pub open spec fn free_reach(m: GridModel, from: Position, to: Position, n: nat) -> bool
    decreases n,
{
    from == to || (n > 0 && exists|d: MoveDirection|
        !m.occupied(#[trigger] move_spec(from, d, m.game_size)) && free_reach(
            m,
            move_spec(from, d, m.game_size),
            to,
            (n - 1) as nat,
        ))
}

/// A free-cell walk can always be extended by one more free step.
proof fn lemma_free_reach_extend(m: GridModel, h: Position, p: Position, d: MoveDirection, n: nat)
    requires
        free_reach(m, h, p, n),
        !m.occupied(move_spec(p, d, m.game_size)),
    ensures
        free_reach(m, h, move_spec(p, d, m.game_size), n + 1),
    decreases n,
{
    let mid = move_spec(p, d, m.game_size);
    if h == p {
        assert(free_reach(m, mid, mid, n));
        assert(!m.occupied(move_spec(h, d, m.game_size)) && free_reach(
            m,
            move_spec(h, d, m.game_size),
            mid,
            n,
        ));
    } else {
        let d0 = choose|d0: MoveDirection|
            !m.occupied(#[trigger] move_spec(h, d0, m.game_size)) && free_reach(
                m,
                move_spec(h, d0, m.game_size),
                p,
                (n - 1) as nat,
            );
        lemma_free_reach_extend(m, move_spec(h, d0, m.game_size), p, d, (n - 1) as nat);
        assert(!m.occupied(move_spec(h, d0, m.game_size)) && free_reach(
            m,
            move_spec(h, d0, m.game_size),
            mid,
            n,
        ));
    }
}

/// Whether some opponent head can reach `p` through free cells: only such
/// cells can ever be attenuated.
pub open spec fn opponent_influenced(m: GridModel, p: Position) -> bool {
    exists|k: int, n: nat|
        0 <= k < m.heads().len() && m.heads()[k].0 != m.my_id && #[trigger] free_reach(
            m,
            m.heads()[k].1,
            p,
            n,
        )
}

/// A head's pass leaves every cell outside a step-closed set of positions
/// untouched, provided the whole frontier lies inside the set.
proof fn lemma_field_rec_untouched(
    st: GridModel,
    q: Seq<(u32, Position)>,
    v: Seq<bool>,
    fld: Seq<u64>,
    pset: spec_fn(Position) -> bool,
)
    requires
        exp_wf(st, q, v),
        fld.len() == st.cell_count(),
        forall|p: Position, d: MoveDirection|
            pset(p) && !st.occupied(#[trigger] move_spec(p, d, st.game_size)) ==> pset(
                move_spec(p, d, st.game_size),
            ),
        forall|k: int| 0 <= k < q.len() ==> pset((#[trigger] q[k]).1),
    ensures
        forall|p: Position|
            st.in_bounds(p) && !pset(p) ==> #[trigger] field_rec(st, q, v, fld)[st.idx_of(p)]
                == fld[st.idx_of(p)],
    decreases bfs_measure(q, v),
{
    crate::region::lemma_count_false_bounds(v);
    if q.len() > 0 {
        let depth = q[0].0;
        let p0 = q[0].1;
        let rest = q.skip(1);
        let nd = (depth + 1) as u32;
        assert(forall|k: int| 0 <= k < rest.len() ==> st.in_bounds((#[trigger] rest[k]).1));
        assert(forall|k: int| 0 <= k < rest.len() ==> v[st.idx_of((#[trigger] rest[k]).1)]);
        assert(forall|k: int| 0 <= k < rest.len() ==> pset((#[trigger] rest[k]).1));
        st.lemma_idx(p0, p0);
        lemma_enqueue4f_effects(st, p0, nd, rest, v);
        let qv = enqueue4f(st, p0, nd, (rest, v));
        crate::region::lemma_count_false_bounds(qv.1);
        let fld2 = if !st.occupied(p0) && depth >= 1 {
            fld.update(
                st.idx_of(p0),
                mul_up(fld[st.idx_of(p0)] as int, field_factor(depth)) as u64,
            )
        } else {
            fld
        };
        assert forall|k: int| 0 <= k < qv.0.len() implies pset((#[trigger] qv.0[k]).1) by {
            if k < rest.len() {
                assert(qv.0[k] == rest[k]);
            } else {
                assert(pset(p0));
                let d = choose|d: MoveDirection| qv.0[k].1 == move_spec(p0, d, st.game_size);
                assert(!st.occupied(move_spec(p0, d, st.game_size)));
            }
        }
        lemma_field_rec_untouched(st, qv.0, qv.1, fld2, pset);
        assert forall|p: Position|
            st.in_bounds(p) && !pset(p) implies #[trigger] field_rec(st, q, v, fld)[st.idx_of(p)]
            == fld[st.idx_of(p)] by {
            assert(pset((q[0]).1));
            assert(p0 != p);
            st.lemma_idx(p, p0);
            st.lemma_idx(p0, p);
            assert(fld2[st.idx_of(p)] == fld[st.idx_of(p)]);
            assert(field_rec(st, qv.0, qv.1, fld2)[st.idx_of(p)] == fld2[st.idx_of(p)]);
        }
    }
}

proof fn lemma_field_after_untouched(m: GridModel, k: int, p: Position)
    requires
        m.wf(),
        m.initialized(),
        m.in_bounds(p),
        !opponent_influenced(m, p),
        0 <= k <= m.heads().len(),
    ensures
        field_after(m, k)[m.idx_of(p)] == SCALE,
    decreases k,
{
    m.lemma_idx(p, p);
    if k > 0 {
        lemma_field_after_untouched(m, k - 1, p);
        lemma_field_after_bounds(m, k - 1);
        let head = m.heads()[k - 1];
        if head.0 != m.my_id {
            assert(m.in_bounds(head.1));
            m.lemma_idx(head.1, head.1);
            let q0 = seq![(0u32, head.1)];
            let v0 = init_visited(m, head.1);
            assert(v0[m.idx_of(head.1)]);
            assert(forall|j: int| 0 <= j < q0.len() ==> m.in_bounds((#[trigger] q0[j]).1));
            assert(forall|j: int| 0 <= j < q0.len() ==> v0[m.idx_of((#[trigger] q0[j]).1)]);
            let pset = |pos: Position| exists|n: nat| free_reach(m, head.1, pos, n);
            assert(free_reach(m, head.1, head.1, 0nat));
            assert(forall|j: int| 0 <= j < q0.len() ==> pset((#[trigger] q0[j]).1));
            assert forall|pos: Position, d: MoveDirection|
                pset(pos) && !m.occupied(#[trigger] move_spec(pos, d, m.game_size)) implies pset(
                move_spec(pos, d, m.game_size),
            ) by {
                let n = choose|n: nat| free_reach(m, head.1, pos, n);
                lemma_free_reach_extend(m, head.1, pos, d, n);
            }
            if pset(p) {
                let n = choose|n: nat| free_reach(m, head.1, p, n);
                assert(free_reach(m, m.heads()[k - 1].1, p, n));
                assert(opponent_influenced(m, p));
            }
            lemma_field_rec_untouched(m, q0, v0, field_after(m, k - 1), pset);
        }
    }
}

/// A cell that no opponent head can reach through free cells keeps the
/// initial maximum, whatever else the field pass does.
pub proof fn lemma_uninfluenced_cell_stays_max(m: GridModel, p: Position)
    requires
        m.wf(),
        m.initialized(),
        m.in_bounds(p),
        !opponent_influenced(m, p),
    ensures
        field_spec(m)[m.idx_of(p)] == SCALE,
{
    lemma_field_after_untouched(m, m.heads().len() as int, p);
}

/// A field of `n` cells at the initial maximum.
fn scale_field(n: usize) -> (r: Vec<u64>)
    ensures
        r@.len() == n,
        forall|i: int| 0 <= i < n ==> r@[i] == SCALE,
{
    let mut r: Vec<u64> = Vec::new();
    let mut k: usize = 0;
    while k < n
        invariant
            k <= n,
            r@.len() == k,
            forall|i: int| 0 <= i < k ==> r@[i] == SCALE,
        decreases n - k,
    {
        r.push(SCALE);
        k += 1;
    }
    r
}

/// The attenuation factor of a depth, as the spec says.
fn field_factor_exec(depth: u32) -> (r: u64)
    ensures
        r as int == field_factor(depth),
        r <= SCALE,
        depth >= 1 ==> r >= 1,
{
    proof {
        lemma_pow_fixed_bounds(FIELD_DECAY, depth as nat);
    }
    let pf = pow_fixed_exec(FIELD_DECAY, depth);
    SCALE - pf
}

/// Mark and enqueue one neighbour if it is free and not yet marked,
/// exactly as the specification's `push1f` says.
fn push_neighbor_free(
    state: &State,
    visited: &mut Vec<bool>,
    queue: &mut Vec<(u32, Position)>,
    qi: usize,
    nd: u32,
    n: Position,
) -> (nothing: ())
    requires
        state.wf(),
        state.in_bounds(n),
        qi <= old(queue)@.len(),
        exp_wf(state.model(), old(queue)@.skip(qi as int), old(visited)@),
    ensures
        (final(queue)@.skip(qi as int), final(visited)@) == push1f(
            state.model(),
            nd,
            n,
            (old(queue)@.skip(qi as int), old(visited)@),
        ),
        exp_wf(state.model(), final(queue)@.skip(qi as int), final(visited)@),
        final(queue)@.len() >= old(queue)@.len(),
        qi <= final(queue)@.len(),
{
    proof {
        state.lemma_idx(n, n);
        lemma_push1f_effects(state.model(), nd, n, old(queue)@.skip(qi as int), old(visited)@);
    }
    let h = state.game_size.y as usize;
    let ni = (n.x as usize) * h + (n.y as usize);
    if !visited[ni] && !state.is_occupied(n) {
        visited.set(ni, true);
        queue.push((nd, n));
        proof {
            assert(queue@.skip(qi as int) =~= old(queue)@.skip(qi as int).push((nd, n)));
        }
    }
}

/// Computes the whole territory field of the current state, one pass per
/// opponent head, exactly as `field_spec` says.  Every value lies in
/// [1, SCALE].
pub fn taint_fields_near_heads(state: &State) -> (r: Vec<u64>)
    requires
        state.wf(),
        state.initialized(),
    ensures
        r@ == field_spec(state.model()),
        r@.len() == state.cell_count(),
        forall|i: int| 0 <= i < r@.len() ==> 1 <= #[trigger] r@[i] <= SCALE,
{
    let w = state.game_size.x as usize;
    let h = state.game_size.y as usize;
    let total = w * h;
    let mut fld: Vec<u64> = scale_field(total);
    proof {
        assert(fld@ =~= field_after(state.model(), 0));
    }
    let n = state.player_heads.len();
    let mut k: usize = 0;
    while k < n
        invariant
            state.wf(),
            state.initialized(),
            h == state.game_size.y as usize,
            total == state.cell_count(),
            k <= n,
            n == state.heads().len(),
            fld@ == field_after(state.model(), k as int),
            fld@.len() == total,
            forall|i: int| 0 <= i < fld@.len() ==> 1 <= #[trigger] fld@[i] <= SCALE,
        decreases n - k,
    {
        let entry = state.player_heads[k];
        let pid = entry.0;
        let hpos = entry.1;
        proof {
            assert(entry == state.heads()[k as int]);
            assert(state.in_bounds(hpos));
        }
        if !(pid == state.my_id) {
            let ghost fld0 = fld@;
            proof {
                state.lemma_idx(hpos, hpos);
            }
            let mut visited: Vec<bool> = crate::region::vec_false(total);
            let start_i = (hpos.x as usize) * h + (hpos.y as usize);
            proof {
                crate::region::lemma_count_false_all_false(visited@);
                crate::region::lemma_mark_update(visited@, state.cells(), state.idx_of(hpos));
            }
            visited.set(start_i, true);
            let mut queue: Vec<(u32, Position)> = Vec::new();
            queue.push((0, hpos));
            let mut qi: usize = 0;
            proof {
                assert(visited@ =~= init_visited(state.model(), hpos));
                assert(queue@.skip(0) =~= seq![(0u32, hpos)]);
            }
            let ghost target = field_rec(
                state.model(),
                seq![(0u32, hpos)],
                init_visited(state.model(), hpos),
                fld0,
            );
            while qi < queue.len()
                invariant
                    state.wf(),
                    state.initialized(),
                    h == state.game_size.y as usize,
                    total == state.cell_count(),
                    qi <= queue@.len(),
                    exp_wf(state.model(), queue@.skip(qi as int), visited@),
                    field_rec(state.model(), queue@.skip(qi as int), visited@, fld@) == target,
                    fld@.len() == total,
                    forall|i: int| 0 <= i < fld@.len() ==> 1 <= #[trigger] fld@[i] <= SCALE,
                    forall|j: int|
                        qi <= j < queue@.len() ==> (#[trigger] queue@[j]).0 < visited@.len()
                            - count_false(visited@),
                decreases bfs_measure(queue@.skip(qi as int), visited@),
            {
                let ghost q0 = queue@.skip(qi as int);
                let ghost v0 = visited@;
                let ghost f0 = fld@;
                let entry2 = queue[qi];
                let depth = entry2.0;
                let p = entry2.1;
                qi += 1;
                proof {
                    assert(q0[0] == entry2);
                    assert(queue@.skip(qi as int) =~= q0.skip(1));
                    crate::region::lemma_count_false_bounds(v0);
                }
                let occ = state.is_occupied(p);
                if !occ && depth >= 1 {
                    proof {
                        state.lemma_idx(p, p);
                        lemma_field_factor_bounds(depth);
                        lemma_mul_up_bounds(fld@[state.idx_of(p)] as int, field_factor(depth));
                    }
                    let idx = (p.x as usize) * h + (p.y as usize);
                    let cur = fld[idx];
                    let f = field_factor_exec(depth);
                    let nv = mul_up_exec(cur, f);
                    fld.set(idx, nv);
                }
                let nd = depth + 1;
                let ghost c0 = (queue@.skip(qi as int), visited@);
                push_neighbor_free(
                    state,
                    &mut visited,
                    &mut queue,
                    qi,
                    nd,
                    move_by_direction(&p, &MoveDirection::Up, &state.game_size),
                );
                push_neighbor_free(
                    state,
                    &mut visited,
                    &mut queue,
                    qi,
                    nd,
                    move_by_direction(&p, &MoveDirection::Down, &state.game_size),
                );
                push_neighbor_free(
                    state,
                    &mut visited,
                    &mut queue,
                    qi,
                    nd,
                    move_by_direction(&p, &MoveDirection::Left, &state.game_size),
                );
                push_neighbor_free(
                    state,
                    &mut visited,
                    &mut queue,
                    qi,
                    nd,
                    move_by_direction(&p, &MoveDirection::Right, &state.game_size),
                );
                proof {
                    lemma_move_neighbours_in_bounds(state.model(), p);
                    assert((queue@.skip(qi as int), visited@) == enqueue4f(state.model(), p, nd, c0));
                    lemma_enqueue4f_effects(state.model(), p, nd, c0.0, c0.1);
                    assert(field_rec(state.model(), q0, v0, f0) == field_rec(
                        state.model(),
                        queue@.skip(qi as int),
                        visited@,
                        fld@,
                    ));
                    let m = queue@.skip(qi as int).len() - c0.0.len();
                    assert(count_false(visited@) == count_false(v0) - m);
                    assert forall|j: int|
                        qi <= j < queue@.len() implies (#[trigger] queue@[j]).0 < visited@.len()
                        - count_false(visited@) by {
                        let s = queue@.skip(qi as int);
                        assert(queue@[j] == s[j - qi]);
                        if j - qi < c0.0.len() {
                            assert(s[j - qi] == c0.0[j - qi]);
                            assert(c0.0[j - qi] == q0[j - qi + 1]);
                        } else {
                            assert(s[j - qi].0 == nd);
                            assert(m >= 1);
                        }
                    }
                    crate::region::lemma_count_false_bounds(visited@);
                }
            }
            proof {
                assert(queue@.skip(qi as int) =~= Seq::<(u32, Position)>::empty());
                assert(field_rec(state.model(), queue@.skip(qi as int), visited@, fld@) == fld@);
                assert(fld@ == head_pass(state.model(), state.heads()[k as int], fld0));
            }
        }
        k += 1;
        proof {
            assert(field_after(state.model(), k as int) == head_pass(
                state.model(),
                state.heads()[k - 1],
                field_after(state.model(), k - 1),
            ));
        }
    }
    fld
}

} // verus!
