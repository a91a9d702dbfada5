//! Region Explorer: a breadth-first flood fill from a starting cell over
//! the currently-free cells.  It reports how many free cells are reachable,
//! the hop distance to every opponent head met on the way, which players'
//! trails bound the region, a distance-decayed compactness score, and the
//! integrated territory-field value of the region.
//!
//! The exec search is pinned exactly to the recursive specification
//! `explore_rec`, which processes one queue entry per unfolding; every
//! cell enters the queue at most once because it is marked visited as it
//! is enqueued.

use vstd::prelude::*;

use crate::fixed::{
    pow_fixed, pow_fixed_exec, scale_weight, scale_weight_exec, COMPACT_DECAY, SCALE,
};
use crate::grid::{GridModel, State, MAX_CELLS};
use crate::{move_by_direction, move_spec, MoveDirection, Position};

verus! {

/// How many entries of a mark vector are still false.
pub open spec fn count_false(v: Seq<bool>) -> int
    decreases v.len(),
{
    if v.len() == 0 {
        0
    } else {
        count_false(v.drop_last()) + if v.last() {
            0int
        } else {
            1int
        }
    }
}

/// How many cells are both marked visited and free.
pub open spec fn count_free_marked(v: Seq<bool>, cells: Seq<Option<u32>>) -> int
    decreases v.len(),
{
    if v.len() == 0 {
        0
    } else {
        count_free_marked(v.drop_last(), cells) + if v.last() && cells[v.len() - 1] is None {
            1int
        } else {
            0int
        }
    }
}

/// How many cells of the grid are free.
pub open spec fn count_free_cells(cells: Seq<Option<u32>>) -> int
    decreases cells.len(),
{
    if cells.len() == 0 {
        0
    } else {
        count_free_cells(cells.drop_last()) + if cells.last() is None {
            1int
        } else {
            0int
        }
    }
}

pub proof fn lemma_count_false_bounds(v: Seq<bool>)
    ensures
        0 <= count_false(v) <= v.len(),
    decreases v.len(),
{
    if v.len() > 0 {
        lemma_count_false_bounds(v.drop_last());
    }
}

proof fn lemma_count_free_marked_bounds(v: Seq<bool>, cells: Seq<Option<u32>>)
    ensures
        0 <= count_free_marked(v, cells) <= v.len(),
    decreases v.len(),
{
    if v.len() > 0 {
        lemma_count_free_marked_bounds(v.drop_last(), cells);
    }
}

/// Marking one unmarked entry lowers the false count by one and raises the
/// free-marked count exactly when that cell is free.
pub proof fn lemma_mark_update(v: Seq<bool>, cells: Seq<Option<u32>>, i: int)
    requires
        0 <= i < v.len(),
        !v[i],
    ensures
        count_false(v.update(i, true)) == count_false(v) - 1,
        count_free_marked(v.update(i, true), cells) == count_free_marked(v, cells) + if cells[i] is None {
            1int
        } else {
            0int
        },
    decreases v.len(),
{
    let v2 = v.update(i, true);
    if i == v.len() - 1 {
        assert(v2.drop_last() =~= v.drop_last());
    } else {
        assert(v2.drop_last() =~= v.drop_last().update(i, true));
        lemma_mark_update(v.drop_last(), cells, i);
        assert(v2.last() == v.last());
    }
}

/// A mark vector never marks more free cells than the grid has.
proof fn lemma_count_free_marked_le(v: Seq<bool>, cells: Seq<Option<u32>>)
    requires
        v.len() == cells.len(),
    ensures
        count_free_marked(v, cells) <= count_free_cells(cells),
    decreases v.len(),
{
    if v.len() > 0 {
        lemma_count_free_marked_agree(v.drop_last(), cells, cells.drop_last());
        lemma_count_free_marked_le(v.drop_last(), cells.drop_last());
    }
}

/// The free-marked count reads only the cells below the mark vector's length.
proof fn lemma_count_free_marked_agree(v: Seq<bool>, c1: Seq<Option<u32>>, c2: Seq<Option<u32>>)
    requires
        v.len() <= c1.len(),
        v.len() <= c2.len(),
        forall|k: int| 0 <= k < v.len() ==> c1[k] == c2[k],
    ensures
        count_free_marked(v, c1) == count_free_marked(v, c2),
    decreases v.len(),
{
    if v.len() > 0 {
        lemma_count_free_marked_agree(v.drop_last(), c1, c2);
    }
}

/// How many queued entries sit on free cells.
pub open spec fn pending_free(q: Seq<(u32, Position)>, st: GridModel) -> int
    decreases q.len(),
{
    if q.len() == 0 {
        0
    } else {
        (if st.occupied(q[0].1) {
            0int
        } else {
            1int
        }) + pending_free(q.skip(1), st)
    }
}

proof fn lemma_pending_free_bounds(q: Seq<(u32, Position)>, st: GridModel)
    ensures
        0 <= pending_free(q, st) <= q.len(),
    decreases q.len(),
{
    if q.len() > 0 {
        lemma_pending_free_bounds(q.skip(1), st);
    }
}

proof fn lemma_pending_free_push(q: Seq<(u32, Position)>, st: GridModel, e: (u32, Position))
    ensures
        pending_free(q.push(e), st) == pending_free(q, st) + if st.occupied(e.1) {
            0int
        } else {
            1int
        },
    decreases q.len(),
{
    if q.len() == 0 {
        assert(q.push(e)[0] == e);
        assert(q.push(e).skip(1) =~= Seq::<(u32, Position)>::empty());
        assert(pending_free(q.push(e).skip(1), st) == 0);
        assert(pending_free(q, st) == 0);
    } else {
        assert(q.push(e)[0] == q[0]);
        assert(q.push(e).skip(1) =~= q.skip(1).push(e));
        lemma_pending_free_push(q.skip(1), st, e);
    }
}

/// What one region exploration yields, in specification terms.
pub ghost struct RegionModel {
    /// Reachable free cells, each counted once.
    pub size: int,
    /// BFS hop distance of every opponent head met, in discovery order.
    pub head_dists: Seq<u32>,
    /// The distinct owners of the trail cells bounding the region.
    pub bounding: Seq<u32>,
    /// Sum of `COMPACT_DECAY^distance` over the free cells: wide regions
    /// near the entry score higher than long thin ones.
    pub compactness: int,
    /// Sum of the distance-weighted territory-field values of the free cells.
    pub field_sum: int,
}

/// The search frontier is well formed: every queued position lies on the
/// grid and is already marked visited.
pub open spec fn exp_wf(st: GridModel, q: Seq<(u32, Position)>, v: Seq<bool>) -> bool {
    &&& st.wf()
    &&& st.initialized()
    &&& v.len() == st.cell_count()
    &&& forall|k: int| 0 <= k < q.len() ==> st.in_bounds((#[trigger] q[k]).1)
    &&& forall|k: int| 0 <= k < q.len() ==> v[st.idx_of((#[trigger] q[k]).1)]
}

/// The termination measure of the search: marking shrinks it faster than
/// enqueuing grows it.
pub open spec fn bfs_measure(q: Seq<(u32, Position)>, v: Seq<bool>) -> int {
    5 * count_false(v) + q.len()
}

/// Enqueue `n` at distance `nd` unless its cell is already marked; marking
/// happens together with enqueuing.
pub open spec fn push1(
    st: GridModel,
    nd: u32,
    n: Position,
    qv: (Seq<(u32, Position)>, Seq<bool>),
) -> (Seq<(u32, Position)>, Seq<bool>) {
    if qv.1[st.idx_of(n)] {
        qv
    } else {
        (qv.0.push((nd, n)), qv.1.update(st.idx_of(n), true))
    }
}

/// Enqueue the four toroidal neighbours of `p`, in the fixed order up,
/// down, left, right.
pub open spec fn enqueue4(
    st: GridModel,
    p: Position,
    nd: u32,
    qv: (Seq<(u32, Position)>, Seq<bool>),
) -> (Seq<(u32, Position)>, Seq<bool>) {
    let a = push1(st, nd, move_spec(p, MoveDirection::Up, st.game_size), qv);
    let b = push1(st, nd, move_spec(p, MoveDirection::Down, st.game_size), a);
    let c = push1(st, nd, move_spec(p, MoveDirection::Left, st.game_size), b);
    push1(st, nd, move_spec(p, MoveDirection::Right, st.game_size), c)
}

/// Record the hop distance if an opponent head sits on the visited cell.
pub open spec fn acc_head(st: GridModel, p: Position, d: u32, acc: RegionModel) -> RegionModel {
    if st.opponent_head_at(p) {
        RegionModel { head_dists: acc.head_dists.push(d), ..acc }
    } else {
        acc
    }
}

/// Count a free cell: size, compactness and field integral all grow.
pub open spec fn acc_free(
    st: GridModel,
    fld: Seq<u64>,
    p: Position,
    d: u32,
    acc: RegionModel,
) -> RegionModel {
    RegionModel {
        size: acc.size + 1,
        compactness: acc.compactness + pow_fixed(COMPACT_DECAY, d as nat),
        field_sum: acc.field_sum + scale_weight(d) * fld[st.idx_of(p)] / (SCALE as int),
        ..acc
    }
}

/// Record the owner of a bounding trail cell, once per owner.
pub open spec fn acc_bound(o: u32, acc: RegionModel) -> RegionModel {
    if acc.bounding.contains(o) {
        acc
    } else {
        RegionModel { bounding: acc.bounding.push(o), ..acc }
    }
}

/// One queue entry processed per unfolding: record any opponent head on the
/// cell; expand through it if it is free or is the starting cell itself;
/// otherwise note its owner as a bounding player.
pub open spec fn explore_rec(
    st: GridModel,
    fld: Seq<u64>,
    q: Seq<(u32, Position)>,
    v: Seq<bool>,
    acc: RegionModel,
    start: Position,
) -> RegionModel
    decreases bfs_measure(q, v),
        when exp_wf(st, q, v)
        via explore_rec_dec
{
    if q.len() == 0 {
        acc
    } else {
        let d = q[0].0;
        let p = q[0].1;
        let rest = q.skip(1);
        let acc1 = acc_head(st, p, d, acc);
        if !st.occupied(p) {
            let qv = enqueue4(st, p, (d + 1) as u32, (rest, v));
            explore_rec(st, fld, qv.0, qv.1, acc_free(st, fld, p, d, acc1), start)
        } else if p == start {
            let qv = enqueue4(st, p, (d + 1) as u32, (rest, v));
            explore_rec(st, fld, qv.0, qv.1, acc1, start)
        } else {
            match st.cell(p) {
                Some(o) => explore_rec(st, fld, rest, v, acc_bound(o, acc1), start),
                None => acc1,
            }
        }
    }
}

#[via_fn]
proof fn explore_rec_dec(
    st: GridModel,
    fld: Seq<u64>,
    q: Seq<(u32, Position)>,
    v: Seq<bool>,
    acc: RegionModel,
    start: Position,
) {
    if q.len() > 0 {
        let p = q[0].1;
        let rest = q.skip(1);
        let nd = (q[0].0 + 1) as u32;
        lemma_count_false_bounds(v);
        assert(forall|k: int| 0 <= k < rest.len() ==> st.in_bounds((#[trigger] rest[k]).1));
        assert(forall|k: int| 0 <= k < rest.len() ==> v[st.idx_of((#[trigger] rest[k]).1)]);
        if !st.occupied(p) || p == start {
            lemma_enqueue4_effects(st, p, nd, rest, v);
            let qv = enqueue4(st, p, nd, (rest, v));
            lemma_count_false_bounds(qv.1);
        }
    }
}

/// What one conditional enqueue does to the frontier and the counters.
proof fn lemma_push1_effects(
    st: GridModel,
    nd: u32,
    n: Position,
    q: Seq<(u32, Position)>,
    v: Seq<bool>,
)
    requires
        exp_wf(st, q, v),
        st.in_bounds(n),
    ensures
        ({
            let qv = push1(st, nd, n, (q, v));
            &&& qv.1.len() == v.len()
            &&& q.len() <= qv.0.len() <= q.len() + 1
            &&& forall|k: int| 0 <= k < q.len() ==> qv.0[k] == q[k]
            &&& forall|k: int| q.len() <= k < qv.0.len() ==> qv.0[k] == ((nd, n))
            &&& count_false(qv.1) == count_false(v) - (qv.0.len() - q.len())
            &&& pending_free(qv.0, st) - pending_free(q, st) == count_free_marked(qv.1, st.cells())
                - count_free_marked(v, st.cells())
            &&& exp_wf(st, qv.0, qv.1)
            &&& forall|i: int| 0 <= i < v.len() && v[i] ==> qv.1[i]
        }),
{
    st.lemma_idx(n, n);
    let i = st.idx_of(n);
    if !v[i] {
        lemma_mark_update(v, st.cells(), i);
        lemma_pending_free_push(q, st, (nd, n));
        let qv = push1(st, nd, n, (q, v));
        assert(st.occupied(n) == (st.cells()[i] is Some));
        assert forall|k: int| 0 <= k < qv.0.len() implies st.in_bounds((#[trigger] qv.0[k]).1)
            && qv.1[st.idx_of(qv.0[k].1)] by {
            if k < q.len() {
                assert(qv.0[k] == q[k]);
                assert(st.in_bounds(q[k].1));
                st.lemma_idx(q[k].1, q[k].1);
                assert(v[st.idx_of(q[k].1)]);
                assert(qv.1[st.idx_of(q[k].1)]);
            } else {
                assert(qv.0 == q.push((nd, n)));
                assert(k == q.len());
                assert(q.push((nd, n))[q.len() as int] == ((nd, n)));
                assert(qv.1 == v.update(i, true));
                assert(v.update(i, true)[i] == true);
            }
        }
    }
}

/// What expanding one cell does to the frontier and the counters.
proof fn lemma_enqueue4_effects(
    st: GridModel,
    p: Position,
    nd: u32,
    q: Seq<(u32, Position)>,
    v: Seq<bool>,
)
    requires
        exp_wf(st, q, v),
        st.in_bounds(p),
    ensures
        ({
            let qv = enqueue4(st, p, nd, (q, v));
            &&& qv.1.len() == v.len()
            &&& q.len() <= qv.0.len() <= q.len() + 4
            &&& forall|k: int| 0 <= k < q.len() ==> qv.0[k] == q[k]
            &&& forall|k: int| q.len() <= k < qv.0.len() ==> (#[trigger] qv.0[k]).0 == nd
            &&& count_false(qv.1) == count_false(v) - (qv.0.len() - q.len())
            &&& pending_free(qv.0, st) - pending_free(q, st) == count_free_marked(qv.1, st.cells())
                - count_free_marked(v, st.cells())
            &&& exp_wf(st, qv.0, qv.1)
            &&& forall|i: int| 0 <= i < v.len() && v[i] ==> qv.1[i]
        }),
{
    lemma_move_neighbours_in_bounds(st, p);
    let n1 = move_spec(p, MoveDirection::Up, st.game_size);
    let n2 = move_spec(p, MoveDirection::Down, st.game_size);
    let n3 = move_spec(p, MoveDirection::Left, st.game_size);
    let n4 = move_spec(p, MoveDirection::Right, st.game_size);
    lemma_push1_effects(st, nd, n1, q, v);
    let a = push1(st, nd, n1, (q, v));
    lemma_push1_effects(st, nd, n2, a.0, a.1);
    let b = push1(st, nd, n2, a);
    lemma_push1_effects(st, nd, n3, b.0, b.1);
    let c = push1(st, nd, n3, b);
    lemma_push1_effects(st, nd, n4, c.0, c.1);
}

/// All four toroidal neighbours of an on-grid position are on the grid.
pub proof fn lemma_move_neighbours_in_bounds(st: GridModel, p: Position)
    requires
        st.initialized(),
        st.in_bounds(p),
    ensures
        st.in_bounds(move_spec(p, MoveDirection::Up, st.game_size)),
        st.in_bounds(move_spec(p, MoveDirection::Down, st.game_size)),
        st.in_bounds(move_spec(p, MoveDirection::Left, st.game_size)),
        st.in_bounds(move_spec(p, MoveDirection::Right, st.game_size)),
{
    let w = st.game_size.x as int;
    let h = st.game_size.y as int;
    vstd::arithmetic::div_mod::lemma_mod_bound(h + p.y - 1, h);
    vstd::arithmetic::div_mod::lemma_mod_bound(p.y + 1, h);
    vstd::arithmetic::div_mod::lemma_mod_bound(w + p.x - 1, w);
    vstd::arithmetic::div_mod::lemma_mod_bound(p.x + 1, w);
}

/// The mark vector at the start of a search: only the starting cell marked.
pub open spec fn init_visited(st: GridModel, start: Position) -> Seq<bool> {
    Seq::new(st.cell_count() as nat, |i: int| false).update(st.idx_of(start), true)
}

/// The empty accumulator.
pub open spec fn empty_region() -> RegionModel {
    RegionModel {
        size: 0,
        head_dists: Seq::empty(),
        bounding: Seq::empty(),
        compactness: 0,
        field_sum: 0,
    }
}

/// The whole region exploration from `start`, as one specification value.
pub open spec fn explore_spec(st: GridModel, fld: Seq<u64>, start: Position) -> RegionModel {
    explore_rec(
        st,
        fld,
        seq![(0u32, start)],
        init_visited(st, start),
        empty_region(),
        start,
    )
}

pub proof fn lemma_count_false_all_false(v: Seq<bool>)
    requires
        forall|i: int| 0 <= i < v.len() ==> !v[i],
    ensures
        count_false(v) == v.len(),
    decreases v.len(),
{
    if v.len() > 0 {
        lemma_count_false_all_false(v.drop_last());
    }
}

proof fn lemma_count_free_marked_all_false(v: Seq<bool>, cells: Seq<Option<u32>>)
    requires
        forall|i: int| 0 <= i < v.len() ==> !v[i],
    ensures
        count_free_marked(v, cells) == 0,
    decreases v.len(),
{
    if v.len() > 0 {
        lemma_count_free_marked_all_false(v.drop_last(), cells);
    }
}

/// The exec result of one region exploration.
pub struct Region {
    /// Reachable free cells, each counted once.
    pub size: u32,
    /// BFS hop distance of every opponent head met, in discovery order.
    pub head_dists: Vec<u32>,
    /// The distinct owners of the trail cells bounding the region.
    pub bounding: Vec<u32>,
    /// Sum of `COMPACT_DECAY^distance` over the free cells.
    pub compactness: u64,
    /// Sum of the distance-weighted territory-field values of the free cells.
    pub field_sum: u64,
}

impl View for Region {
    type V = RegionModel;

    open spec fn view(&self) -> RegionModel {
        RegionModel {
            size: self.size as int,
            head_dists: self.head_dists@,
            bounding: self.bounding@,
            compactness: self.compactness as int,
            field_sum: self.field_sum as int,
        }
    }
}

/// A vector of `n` unmarked cells.
pub(crate) fn vec_false(n: usize) -> (r: Vec<bool>)
    ensures
        r@.len() == n,
        forall|i: int| 0 <= i < n ==> !r@[i],
{
    let mut r: Vec<bool> = Vec::new();
    let mut k: usize = 0;
    while k < n
        invariant
            k <= n,
            r@.len() == k,
            forall|i: int| 0 <= i < k ==> !r@[i],
        decreases n - k,
    {
        r.push(false);
        k += 1;
    }
    r
}

/// A neutral territory field of `n` cells, for searches that do not read it.
pub fn zero_field(n: usize) -> (r: Vec<u64>)
    ensures
        r@.len() == n,
        forall|i: int| 0 <= i < n ==> r@[i] == 0,
{
    let mut r: Vec<u64> = Vec::new();
    let mut k: usize = 0;
    while k < n
        invariant
            k <= n,
            r@.len() == k,
            forall|i: int| 0 <= i < k ==> r@[i] == 0,
        decreases n - k,
    {
        r.push(0);
        k += 1;
    }
    r
}

/// Whether the owner list already holds `o`.
fn contains_u32(v: &Vec<u32>, o: u32) -> (r: bool)
    ensures
        r == v@.contains(o),
{
    let n = v.len();
    let mut j: usize = 0;
    while j < n
        invariant
            j <= n,
            n == v@.len(),
            forall|k: int| 0 <= k < j ==> v@[k] != o,
        decreases n - j,
    {
        if v[j] == o {
            return true;
        }
        j += 1;
    }
    false
}

/// Mark and enqueue one neighbour unless its cell is already marked,
/// exactly as the specification's `push1` says.
fn push_neighbor(
    state: &State,
    visited: &mut Vec<bool>,
    queue: &mut Vec<(u32, Position)>,
    qi: usize,
    nd: u32,
    n: Position,
) -> (nothing: ())
    requires
        state.wf(),
        state.in_bounds(n),
        qi <= old(queue)@.len(),
        exp_wf(state.model(), old(queue)@.skip(qi as int), old(visited)@),
    ensures
        (final(queue)@.skip(qi as int), final(visited)@) == push1(
            state.model(),
            nd,
            n,
            (old(queue)@.skip(qi as int), old(visited)@),
        ),
        exp_wf(state.model(), final(queue)@.skip(qi as int), final(visited)@),
        final(queue)@.len() >= old(queue)@.len(),
        qi <= final(queue)@.len(),
{
    proof {
        state.lemma_idx(n, n);
        lemma_push1_effects(state.model(), nd, n, old(queue)@.skip(qi as int), old(visited)@);
    }
    let h = state.game_size.y as usize;
    let ni = (n.x as usize) * h + (n.y as usize);
    if !visited[ni] {
        visited.set(ni, true);
        queue.push((nd, n));
        proof {
            assert(queue@.skip(qi as int) =~= old(queue)@.skip(qi as int).push((nd, n)));
        }
    }
}

/// Breadth-first flood fill from `position` over the free cells, expanding
/// through the starting cell even if it is occupied, exactly as
/// `explore_spec` describes.  The region size never exceeds the number of
/// free cells of the grid, since no cell is ever counted twice.
pub fn explore_empty_space(state: &State, fld: &Vec<u64>, position: Position) -> (r: Region)
    requires
        state.wf(),
        state.initialized(),
        state.in_bounds(position),
        fld@.len() == state.cell_count(),
        forall|i: int| 0 <= i < fld@.len() ==> #[trigger] fld@[i] <= SCALE,
    ensures
        r@ == explore_spec(state.model(), fld@, position),
        r@.size <= count_free_cells(state.cells()),
        0 <= r@.size <= state.cell_count(),
        r@.head_dists.len() <= state.cell_count(),
        r@.bounding.len() <= state.cell_count(),
        r@.compactness <= r@.size * SCALE,
        r@.field_sum <= r@.size * SCALE,
{
    let h = state.game_size.y as usize;
    let w = state.game_size.x as usize;
    let total = w * h;
    let mut visited: Vec<bool> = vec_false(total);
    proof {
        state.lemma_idx(position, position);
        lemma_count_false_all_false(visited@);
        lemma_count_free_marked_all_false(visited@, state.cells());
        lemma_mark_update(visited@, state.cells(), state.idx_of(position));
    }
    let start_i = (position.x as usize) * h + (position.y as usize);
    visited.set(start_i, true);
    let mut queue: Vec<(u32, Position)> = Vec::new();
    queue.push((0, position));
    let mut qi: usize = 0;
    let mut region = Region {
        size: 0,
        head_dists: Vec::new(),
        bounding: Vec::new(),
        compactness: 0,
        field_sum: 0,
    };
    proof {
        assert(visited@ =~= init_visited(state.model(), position));
        assert(queue@ =~= seq![(0u32, position)]);
        assert(queue@.skip(0) =~= queue@);
        assert(region@ =~= empty_region());
        assert(pending_free(queue@.skip(0).skip(1), state.model()) == 0) by {
            assert(queue@.skip(0).skip(1) =~= Seq::<(u32, Position)>::empty());
        }
        assert(region@.size + pending_free(queue@.skip(0), state.model()) == count_free_marked(
            visited@,
            state.cells(),
        ));
    }
    while qi < queue.len()
        invariant
            state.wf(),
            state.initialized(),
            state.in_bounds(position),
            fld@.len() == state.cell_count(),
            forall|i: int| 0 <= i < fld@.len() ==> #[trigger] fld@[i] <= SCALE,
            h == state.game_size.y as usize,
            qi <= queue@.len(),
            exp_wf(state.model(), queue@.skip(qi as int), visited@),
            explore_rec(state.model(), fld@, queue@.skip(qi as int), visited@, region@, position)
                == explore_spec(state.model(), fld@, position),
            region@.size + pending_free(queue@.skip(qi as int), state.model()) == count_free_marked(
                visited@,
                state.cells(),
            ),
            forall|k: int|
                qi <= k < queue@.len() ==> (#[trigger] queue@[k]).0 < visited@.len() - count_false(
                    visited@,
                ),
            region@.compactness <= region@.size * SCALE,
            region@.field_sum <= region@.size * SCALE,
            region@.size >= 0,
            region@.head_dists.len() <= qi,
            region@.bounding.len() <= qi,
            queue@.len() == visited@.len() - count_false(visited@),
        decreases bfs_measure(queue@.skip(qi as int), visited@),
    {
        let ghost q0 = queue@.skip(qi as int);
        let ghost v0 = visited@;
        let ghost m0 = region@;
        let entry = queue[qi];
        let d = entry.0;
        let p = entry.1;
        qi += 1;
        proof {
            assert(q0[0] == entry);
            assert(queue@.skip(qi as int) =~= q0.skip(1));
            lemma_count_false_bounds(v0);
            lemma_count_free_marked_bounds(v0, state.cells());
            lemma_pending_free_bounds(q0, state.model());
            lemma_pending_free_bounds(q0.skip(1), state.model());
        }
        let is_opp = state.any_opponent_head_at(p);
        if is_opp {
            region.head_dists.push(d);
        }
        let ghost m1 = acc_head(state.model(), p, d, m0);
        proof {
            assert(region@ == m1);
        }
        let occ = state.is_occupied(p);
        if !occ || p == position {
            if !occ {
                proof {
                    state.lemma_idx(p, p);
                }
                let idx = (p.x as usize) * h + (p.y as usize);
                let sw = scale_weight_exec(d);
                let fv = fld[idx];
                proof {
                    assert(sw * fv <= SCALE * SCALE) by (nonlinear_arith)
                        requires
                            sw <= SCALE,
                            fv <= SCALE,
                    ;
                    vstd::arithmetic::div_mod::lemma_div_is_ordered(
                        sw * fv,
                        SCALE * SCALE,
                        SCALE as int,
                    );
                    assert((SCALE * SCALE) / (SCALE as int) == SCALE);
                    vstd::arithmetic::div_mod::lemma_div_pos_is_pos(sw * fv, SCALE as int);
                    crate::fixed::lemma_pow_fixed_bounds(COMPACT_DECAY, d as nat);
                }
                let weighted = sw * fv / SCALE;
                let pc = pow_fixed_exec(COMPACT_DECAY, d);
                region.size = region.size + 1;
                region.compactness = region.compactness + pc;
                region.field_sum = region.field_sum + weighted;
                proof {
                    assert(region@ == acc_free(state.model(), fld@, p, d, m1));
                }
            }
            let nd = d + 1;
            let ghost c0 = (queue@.skip(qi as int), visited@);
            push_neighbor(
                state,
                &mut visited,
                &mut queue,
                qi,
                nd,
                move_by_direction(&p, &MoveDirection::Up, &state.game_size),
            );
            let ghost c1 = (queue@.skip(qi as int), visited@);
            push_neighbor(
                state,
                &mut visited,
                &mut queue,
                qi,
                nd,
                move_by_direction(&p, &MoveDirection::Down, &state.game_size),
            );
            let ghost c2 = (queue@.skip(qi as int), visited@);
            push_neighbor(
                state,
                &mut visited,
                &mut queue,
                qi,
                nd,
                move_by_direction(&p, &MoveDirection::Left, &state.game_size),
            );
            let ghost c3 = (queue@.skip(qi as int), visited@);
            push_neighbor(
                state,
                &mut visited,
                &mut queue,
                qi,
                nd,
                move_by_direction(&p, &MoveDirection::Right, &state.game_size),
            );
            proof {
                lemma_move_neighbours_in_bounds(state.model(), p);
                assert(c1 == push1(
                    state.model(),
                    nd,
                    move_spec(p, MoveDirection::Up, state.game_size),
                    c0,
                ));
                assert((queue@.skip(qi as int), visited@) == enqueue4(state.model(), p, nd, c0));
                lemma_enqueue4_effects(state.model(), p, nd, c0.0, c0.1);
                assert(explore_rec(state.model(), fld@, q0, v0, m0, position) == explore_rec(
                    state.model(),
                    fld@,
                    queue@.skip(qi as int),
                    visited@,
                    region@,
                    position,
                ));
                let m = queue@.skip(qi as int).len() - c0.0.len();
                assert(count_false(visited@) == count_false(v0) - m);
                assert forall|k: int|
                    qi <= k < queue@.len() implies (#[trigger] queue@[k]).0 < visited@.len()
                    - count_false(visited@) by {
                    let s = queue@.skip(qi as int);
                    assert(queue@[k] == s[k - qi]);
                    if k - qi < c0.0.len() {
                        assert(s[k - qi] == c0.0[k - qi]);
                        assert(c0.0[k - qi] == q0[k - qi + 1]);
                    } else {
                        assert(s[k - qi].0 == nd);
                        assert(m >= 1);
                    }
                }
                lemma_count_false_bounds(visited@);
            }
        } else {
            let ow = state.occupant_at(p);
            if let Some(o) = ow {
                if !contains_u32(&region.bounding, o) {
                    region.bounding.push(o);
                }
            }
            proof {
                assert(explore_rec(state.model(), fld@, q0, v0, m0, position) == explore_rec(
                    state.model(),
                    fld@,
                    queue@.skip(qi as int),
                    visited@,
                    region@,
                    position,
                ));
                assert forall|k: int|
                    qi <= k < queue@.len() implies (#[trigger] queue@[k]).0 < visited@.len()
                    - count_false(visited@) by {
                    assert(queue@[k] == queue@.skip(qi as int)[k - qi]);
                    assert(queue@.skip(qi as int)[k - qi] == q0[k - qi + 1]);
                }
                lemma_count_false_bounds(visited@);
            }
        }
    }
    proof {
        assert(queue@.skip(qi as int) =~= Seq::<(u32, Position)>::empty());
        assert(explore_rec(state.model(), fld@, queue@.skip(qi as int), visited@, region@, position)
            == region@);
        lemma_count_free_marked_le(visited@, state.cells());
        lemma_count_free_marked_bounds(visited@, state.cells());
        lemma_count_false_bounds(visited@);
    }
    region
}

/// The quality of a region for the agent: larger free regions with fewer
/// opponent heads inside score lower (better when sorting ascending).  The
/// square keeps the comparison faithful to dividing the size by the square
/// root of the head count without leaving the integers.
pub open spec fn eval_region_spec(m: RegionModel) -> int {
    -(m.size * m.size * (SCALE as int) / (m.head_dists.len() as int + 1))
}

/// Region quality exactly as `eval_region_spec` says.  A region with no
/// reachable opponent head divides by one, never by zero, and scores a
/// well-defined `-(size * size * SCALE)`: the uncontested best for its size.
pub fn evaluate_empty_space(r: &Region) -> (v: i64)
    requires
        0 <= r@.size <= MAX_CELLS,
        r@.head_dists.len() <= MAX_CELLS,
    ensures
        v as int == eval_region_spec(r@),
        r@.head_dists.len() == 0 ==> v as int == -(r@.size * r@.size * (SCALE as int)),
{
    let s = r.size as u64;
    proof {
        assert(s * s <= MAX_CELLS * MAX_CELLS) by (nonlinear_arith)
            requires
                0 <= s <= MAX_CELLS,
        ;
    }
    let num = s * s * SCALE;
    let den = r.head_dists.len() as u64 + 1;
    proof {
        vstd::arithmetic::div_mod::lemma_div_is_ordered_by_denominator(
            num as int,
            1,
            den as int,
        );
        vstd::arithmetic::div_mod::lemma_div_basics(num as int);
    }
    let q = num / den;
    -(q as i64)
}

/// An uncontested region is never penalized: among regions with no
/// reachable opponent head, a larger one always scores strictly better
/// (lower).
pub proof fn lemma_uncontested_bigger_is_better(a: RegionModel, b: RegionModel)
    requires
        a.head_dists.len() == 0,
        b.head_dists.len() == 0,
        0 <= a.size < b.size,
    ensures
        eval_region_spec(b) < eval_region_spec(a),
{
    assert(a.size * a.size * (SCALE as int) < b.size * b.size * (SCALE as int))
        by (nonlinear_arith)
        requires
            0 <= a.size < b.size,
            SCALE == 1024,
    ;
    vstd::arithmetic::div_mod::lemma_div_basics(a.size * a.size * (SCALE as int));
    vstd::arithmetic::div_mod::lemma_div_basics(b.size * b.size * (SCALE as int));
}

/// The minimum of a distance list, scanning left to right.
pub open spec fn min_opt(s: Seq<u32>) -> Option<u32>
    decreases s.len(),
{
    if s.len() == 0 {
        None
    } else {
        match min_opt(s.drop_last()) {
            None => Some(s.last()),
            Some(m) => if s.last() < m {
                Some(s.last())
            } else {
                Some(m)
            },
        }
    }
}

/// The smallest value of the list, if any, as `min_opt` says.
pub fn min_in_vec(v: &Vec<u32>) -> (r: Option<u32>)
    ensures
        r == min_opt(v@),
{
    let n = v.len();
    let mut best: Option<u32> = None;
    let mut i: usize = 0;
    proof {
        assert(v@.take(0) =~= Seq::<u32>::empty());
    }
    while i < n
        invariant
            i <= n,
            n == v@.len(),
            best == min_opt(v@.take(i as int)),
        decreases n - i,
    {
        let x = v[i];
        proof {
            assert(v@.take(i + 1).drop_last() =~= v@.take(i as int));
            assert(v@.take(i + 1).last() == v@[i as int]);
        }
        best = match best {
            None => Some(x),
            Some(m) => if x < m {
                Some(x)
            } else {
                Some(m)
            },
        };
        i += 1;
    }
    proof {
        assert(v@.take(n as int) =~= v@);
    }
    best
}

/// A field of zeroes: what a search reads when its caller does not care
/// about the territory contribution.
pub open spec fn neutral_field(st: GridModel) -> Seq<u64> {
    Seq::new(st.cell_count() as nat, |i: int| 0u64)
}

/// The hop distance, through free cells, to the nearest opponent head
/// reachable from `pos`; `None` when no opponent head is reachable.
pub fn distance_to_next_opponent_head(pos: &Position, game_state: &State) -> (r: Option<u32>)
    requires
        game_state.wf(),
        game_state.initialized(),
        game_state.in_bounds(*pos),
    ensures
        r == min_opt(explore_spec(game_state.model(), neutral_field(game_state.model()), *pos).head_dists),
{
    let w = game_state.game_size.x as usize;
    let h = game_state.game_size.y as usize;
    let zf = zero_field(w * h);
    proof {
        assert(zf@ =~= neutral_field(game_state.model()));
    }
    let reg = explore_empty_space(game_state, &zf, *pos);
    min_in_vec(&reg.head_dists)
}

} // verus!
