//! The grid model: a dense toroidal occupancy grid plus the most recent head
//! position of every player, mutated only by the three event-apply
//! operations and read by the search code.
//!
//! The occupancy grid itself is an `ndarray::Array2`; the engine reads and
//! writes it through the trusted wrappers at the top of this file, whose
//! contracts speak of the abstract cell sequence `grid_cells` (row-major,
//! the y axis fastest) and the shape `grid_dims`.

use vstd::prelude::*;

use crate::{move_by_direction, move_spec, MoveDirection, PlayerId, Position};

verus! {

/// The largest number of cells a grid may have.  Keeps every index, score
/// and distance comfortably inside the machine integer types used below.
pub const MAX_CELLS: u64 = 1048576;

/// The occupancy array.  It wraps an `ndarray::Array2`, whose type Verus
/// cannot declare directly (its generics carry an outside trait bound), so
/// the whole struct is opaque and is read and written only through the
/// trusted wrappers below.
#[verifier::external_body]
pub struct OccupancyGrid {
    arr: ndarray::Array2<Option<u32>>,
}

/// What the occupancy array holds: one entry per cell, row-major with the
/// y axis fastest, so cell (x, y) sits at index `x * height + y`.
pub uninterp spec fn grid_cells(a: OccupancyGrid) -> Seq<Option<u32>>;

/// The shape the occupancy array was built with, x extent first.
pub uninterp spec fn grid_dims(a: OccupancyGrid) -> (usize, usize);

/// Relies on ndarray::Array2::from_elem: builds an array of the given shape
/// with every entry equal to the given element.
#[verifier::external_body]
pub(crate) fn grid_new(w: usize, h: usize) -> (r: OccupancyGrid)
    requires
        w * h <= MAX_CELLS,
    ensures
        grid_dims(r) == (w, h),
        grid_cells(r).len() == w * h,
        forall|i: int| 0 <= i < grid_cells(r).len() ==> grid_cells(r)[i] is None,
{
    OccupancyGrid { arr: ndarray::Array2::from_elem((w, h), None) }
}

/// Relies on ndarray's Index impl for [usize; 2]: returns the element at
/// (x, y), which lives at row-major offset x * h + y.
#[verifier::external_body]
pub(crate) fn grid_get(a: &OccupancyGrid, x: usize, y: usize) -> (r: Option<u32>)
    requires
        x < grid_dims(*a).0,
        y < grid_dims(*a).1,
    ensures
        r == grid_cells(*a)[x * grid_dims(*a).1 + y],
{
    a.arr[[x, y]]
}

/// Relies on ndarray's IndexMut impl for [usize; 2]: overwrites the element
/// at (x, y) and nothing else, leaving the shape unchanged.
#[verifier::external_body]
pub(crate) fn grid_set(a: &mut OccupancyGrid, x: usize, y: usize, v: Option<u32>)
    requires
        x < grid_dims(*old(a)).0,
        y < grid_dims(*old(a)).1,
    ensures
        grid_dims(*final(a)) == grid_dims(*old(a)),
        grid_cells(*final(a)) == grid_cells(*old(a)).update(
            x * grid_dims(*old(a)).1 + y,
            v,
        ),
{
    a.arr[[x, y]] = v;
}

/// Relies on ndarray's Clone impl: the copy has the same shape and the same
/// elements as the original.
#[verifier::external_body]
pub(crate) fn grid_clone(a: &OccupancyGrid) -> (r: OccupancyGrid)
    ensures
        grid_dims(r) == grid_dims(*a),
        grid_cells(r) == grid_cells(*a),
{
    OccupancyGrid { arr: a.arr.clone() }
}

/// The specification-level image of a [`State`]: everything the search and
/// ranking code reads, as plain mathematical values.  Unlike `State` it can
/// be built inside specifications, which is how the one-ply lookahead's
/// simulated world is described.
pub ghost struct GridModel {
    pub my_id: PlayerId,
    pub my_position: Position,
    pub grid: Seq<Option<u32>>,
    pub head_list: Seq<(PlayerId, Position)>,
    pub game_size: Position,
}

impl GridModel {
    /// The cell sequence, row-major with the y axis fastest.
    pub open spec fn cells(self) -> Seq<Option<u32>> {
        self.grid
    }

    /// The head list as reported, in first-seen order.
    pub open spec fn heads(self) -> Seq<(PlayerId, Position)> {
        self.head_list
    }

    /// How many cells the grid has.
    pub open spec fn cell_count(self) -> int {
        self.game_size.x * self.game_size.y
    }

    /// The row-major index of a position.
    pub open spec fn idx_of(self, p: Position) -> int {
        p.x * self.game_size.y + p.y
    }

    /// Whether a position lies within the announced dimensions.
    pub open spec fn in_bounds(self, p: Position) -> bool {
        p.x < self.game_size.x && p.y < self.game_size.y
    }

    /// The occupant of a cell, if any.
    pub open spec fn cell(self, p: Position) -> Option<u32> {
        self.cells()[self.idx_of(p)]
    }

    /// Whether a cell holds any trail or head.
    pub open spec fn occupied(self, p: Position) -> bool {
        self.cell(p) is Some
    }

    /// Dimensions of (0, 0) signal that no game-start event has arrived yet.
    pub open spec fn initialized(self) -> bool {
        self.game_size.x >= 1 && self.game_size.y >= 1
    }

    /// Whether any player's current head sits on `p`.
    pub open spec fn head_at(self, p: Position) -> bool {
        exists|k: int| 0 <= k < self.heads().len() && self.heads()[k].1 == p
    }

    /// Whether the current head of some player other than the agent sits on `p`.
    pub open spec fn opponent_head_at(self, p: Position) -> bool {
        exists|k: int|
            0 <= k < self.heads().len() && self.heads()[k].0 != self.my_id && self.heads()[k].1
                == p
    }

    /// Well-formedness of the abstraction alone.
    pub open spec fn wf(self) -> bool {
        &&& self.cells().len() == self.cell_count()
        &&& self.cell_count() <= MAX_CELLS
        &&& forall|k: int|
            0 <= k < self.heads().len() ==> self.in_bounds((#[trigger] self.heads()[k]).1)
        &&& self.initialized() ==> self.in_bounds(self.my_position)
    }

    /// The model after the agent hypothetically occupies `pos`: the cell is
    /// owned by the agent, its head and position move there.
    pub open spec fn step_self(self, pos: Position) -> GridModel {
        GridModel {
            grid: self.grid.update(self.idx_of(pos), Some(self.my_id.0)),
            head_list: assoc_set(self.head_list, self.my_id, pos),
            my_position: pos,
            ..self
        }
    }

    /// A position within bounds has its index within the cell sequence, and
    /// distinct positions have distinct indices.
    pub proof fn lemma_idx(self, p: Position, q: Position)
        requires
            self.in_bounds(p),
            self.in_bounds(q),
        ensures
            0 <= self.idx_of(p) < self.cell_count(),
            p != q ==> self.idx_of(p) != self.idx_of(q),
    {
        let h = self.game_size.y as int;
        assert(p.x * h + p.y < self.game_size.x * h) by (nonlinear_arith)
            requires
                p.x < self.game_size.x,
                p.y < h,
                0 <= p.x,
                0 <= p.y,
                1 <= h,
        ;
        assert(p != q ==> p.x * h + p.y != q.x * h + q.y) by (nonlinear_arith)
            requires
                p.y < h,
                q.y < h,
                0 <= p.x,
                0 <= p.y,
                0 <= q.x,
                0 <= q.y,
                p == (Position { x: p.x, y: p.y }),
                q == (Position { x: q.x, y: q.y }),
        ;
    }
}

/// The in-memory model of one running game: the occupancy grid, the last
/// reported head of every player, and the agent's own identity.
pub struct State {
    pub my_id: PlayerId,
    pub my_position: Position,
    pub field_occupation: OccupancyGrid,
    pub player_heads: Vec<(PlayerId, Position)>,
    pub game_size: Position,
}

impl State {
    /// The specification-level image of this state.
    pub open spec fn model(self) -> GridModel {
        GridModel {
            my_id: self.my_id,
            my_position: self.my_position,
            grid: grid_cells(self.field_occupation),
            head_list: self.player_heads@,
            game_size: self.game_size,
        }
    }

    /// The abstract cell sequence of the occupancy grid.
    pub open spec fn cells(self) -> Seq<Option<u32>> {
        self.model().cells()
    }

    /// The head list as reported, in first-seen order.
    pub open spec fn heads(self) -> Seq<(PlayerId, Position)> {
        self.model().heads()
    }

    /// How many cells the grid has.
    pub open spec fn cell_count(self) -> int {
        self.model().cell_count()
    }

    /// The row-major index of a position.
    pub open spec fn idx_of(self, p: Position) -> int {
        self.model().idx_of(p)
    }

    /// Whether a position lies within the announced dimensions.
    pub open spec fn in_bounds(self, p: Position) -> bool {
        self.model().in_bounds(p)
    }

    /// The occupant of a cell, if any.
    pub open spec fn cell(self, p: Position) -> Option<u32> {
        self.model().cell(p)
    }

    /// Whether a cell holds any trail or head.
    pub open spec fn occupied(self, p: Position) -> bool {
        self.model().occupied(p)
    }

    /// Dimensions of (0, 0) signal that no game-start event has arrived yet.
    pub open spec fn initialized(self) -> bool {
        self.model().initialized()
    }

    /// Whether any player's current head sits on `p`.
    pub open spec fn head_at(self, p: Position) -> bool {
        self.model().head_at(p)
    }

    /// Whether the current head of some player other than the agent sits on `p`.
    pub open spec fn opponent_head_at(self, p: Position) -> bool {
        self.model().opponent_head_at(p)
    }

    /// Well-formedness: the array matches the announced dimensions and the
    /// abstraction itself is well formed.
    pub open spec fn wf(self) -> bool {
        &&& grid_dims(self.field_occupation) == ((
            self.game_size.x as usize,
            self.game_size.y as usize,
        ))
        &&& self.model().wf()
    }

    /// A position within bounds has its index within the cell sequence, and
    /// distinct positions have distinct indices.
    pub proof fn lemma_idx(self, p: Position, q: Position)
        requires
            self.in_bounds(p),
            self.in_bounds(q),
        ensures
            0 <= self.idx_of(p) < self.cell_count(),
            p != q ==> self.idx_of(p) != self.idx_of(q),
    {
        self.model().lemma_idx(p, q);
    }

    /// Pure query: is the cell at `p` occupied?
    pub fn is_occupied(&self, p: Position) -> (r: bool)
        requires
            self.wf(),
            self.in_bounds(p),
        ensures
            r == self.occupied(p),
    {
        self.occupant_at(p).is_some()
    }

    /// Pure query: who occupies the cell at `p`?
    pub fn occupant_at(&self, p: Position) -> (r: Option<u32>)
        requires
            self.wf(),
            self.in_bounds(p),
        ensures
            r == self.cell(p),
    {
        grid_get(&self.field_occupation, p.x as usize, p.y as usize)
    }

    /// Pure query: has a game-start event arrived?
    pub fn is_initialized(&self) -> (r: bool)
        ensures
            r == self.initialized(),
    {
        self.game_size.x >= 1 && self.game_size.y >= 1
    }

    /// Pure query: does any player's head sit on `p`?
    pub fn any_head_at(&self, p: Position) -> (r: bool)
        ensures
            r == self.head_at(p),
    {
        let n = self.player_heads.len();
        let mut k: usize = 0;
        while k < n
            invariant
                k <= n,
                n == self.heads().len(),
                forall|j: int| 0 <= j < k ==> self.heads()[j].1 != p,
            decreases n - k,
        {
            if self.player_heads[k].1 == p {
                return true;
            }
            k += 1;
        }
        false
    }

    /// Pure query: does the head of a player other than the agent sit on `p`?
    pub fn any_opponent_head_at(&self, p: Position) -> (r: bool)
        ensures
            r == self.opponent_head_at(p),
    {
        let n = self.player_heads.len();
        let mut k: usize = 0;
        while k < n
            invariant
                k <= n,
                n == self.heads().len(),
                forall|j: int|
                    0 <= j < k ==> !(self.heads()[j].0 != self.my_id && self.heads()[j].1 == p),
            decreases n - k,
        {
            if self.player_heads[k].1 == p && !(self.player_heads[k].0 == self.my_id) {
                return true;
            }
            k += 1;
        }
        false
    }

    /// Reinitializes the whole model for a new game: fresh all-free grid of
    /// the given dimensions, own identity set, head map cleared and the own
    /// position reset to the origin until the first position update arrives.
    pub fn apply_game_start(&mut self, size: Position, my_id: PlayerId)
        requires
            size.x * size.y <= MAX_CELLS,
        ensures
            game_start_post(*old(self), *final(self), size, my_id),
    {
        self.my_id = my_id;
        self.field_occupation = grid_new(size.x as usize, size.y as usize);
        self.game_size = size;
        self.my_position = Position { x: 0, y: 0 };
        self.player_heads = Vec::new();
    }

    /// Marks `position` occupied by `p`, records `p`'s head there, and, if
    /// `p` is the agent itself, moves the agent's own position along.
    pub fn apply_position_update(&mut self, p: PlayerId, position: Position)
        requires
            old(self).wf(),
            old(self).in_bounds(position),
        ensures
            position_update_post(*old(self), *final(self), p, position),
    {
        let ghost old_heads = self.player_heads@;
        if p == self.my_id {
            self.my_position = position;
        }
        match find_head_index(&self.player_heads, p) {
            Some(j) => {
                self.player_heads.set(j, (p, position));
                proof {
                    lemma_assoc_set_found(old_heads, p, position, j as int);
                }
            },
            None => {
                self.player_heads.push((p, position));
                proof {
                    lemma_assoc_set_absent(old_heads, p, position);
                }
            },
        }
        proof {
            assert forall|k: int|
                0 <= k < self.player_heads@.len() implies old(self).in_bounds(
                (#[trigger] self.player_heads@[k]).1,
            ) by {
                if 0 <= k < old_heads.len() {
                    assert(old_heads[k] == old(self).heads()[k]);
                    assert(old(self).in_bounds(old(self).heads()[k].1));
                }
            }
        }
        proof {
            old(self).lemma_idx(position, position);
        }
        grid_set(&mut self.field_occupation, position.x as usize, position.y as usize, Some(p.0));
    }

    /// Clears every cell owned by a dead player and drops their heads, as
    /// one atomic batch.
    pub fn apply_deaths(&mut self, dead: &Vec<PlayerId>)
        requires
            old(self).wf(),
        ensures
            deaths_post(*old(self), *final(self), dead@),
    {
        let w = self.game_size.x as usize;
        let h = self.game_size.y as usize;
        let total = w * h;
        let mut i: usize = 0;
        while i < total
            invariant
                i <= total,
                total == old(self).cell_count(),
                old(self).wf(),
                grid_dims(self.field_occupation) == grid_dims(old(self).field_occupation),
                self.cells().len() == old(self).cells().len(),
                h == old(self).game_size.y,
                w == old(self).game_size.x,
                self.my_id == old(self).my_id,
                self.my_position == old(self).my_position,
                self.game_size == old(self).game_size,
                self.player_heads == old(self).player_heads,
                forall|j: int|
                    0 <= j < i ==> self.cells()[j] == clear_cell(#[trigger] old(self).cells()[j], dead@),
                forall|j: int| i <= j < total ==> self.cells()[j] == old(self).cells()[j],
            decreases total - i,
        {
            proof {
                assert(h >= 1) by (nonlinear_arith)
                    requires
                        i < total,
                        total == w * h,
                        0 <= w,
                        0 <= h,
                ;
                vstd::arithmetic::div_mod::lemma_fundamental_div_mod(i as int, h as int);
                vstd::arithmetic::div_mod::lemma_mod_bound(i as int, h as int);
                assert(i / h < w) by (nonlinear_arith)
                    requires
                        i < w * h,
                        h >= 1,
                        i as int == h * ((i / h) as int) + ((i % h) as int),
                        0 <= i % h < h,
                        0 <= i / h,
                ;
            }
            let x = i / h;
            let y = i % h;
            proof {
                assert(grid_dims(self.field_occupation).1 == h);
                assert(x * h + y == i) by (nonlinear_arith)
                    requires
                        x == i / h,
                        y == i % h,
                        h >= 1,
                        i as int == h * ((i / h) as int) + ((i % h) as int),
                ;
                assert(i < self.cells().len());
            }
            let c = grid_get(&self.field_occupation, x, y);
            if let Some(q) = c {
                if contains_id(dead, PlayerId(q)) {
                    grid_set(&mut self.field_occupation, x, y, None);
                }
            }
            i += 1;
        }
        let ghost old_heads = self.player_heads@;
        let ghost pred = |e: (PlayerId, Position)| !dead@.contains(e.0);
        let n = self.player_heads.len();
        let mut kept: Vec<(PlayerId, Position)> = Vec::new();
        let mut k: usize = 0;
        proof {
            assert(old_heads.take(0).filter(pred) =~= Seq::<(PlayerId, Position)>::empty()) by {
                reveal_with_fuel(Seq::filter, 1);
            }
        }
        while k < n
            invariant
                k <= n,
                n == old_heads.len(),
                old(self).wf(),
                old_heads == old(self).heads(),
                self.player_heads@ == old_heads,
                self.game_size == old(self).game_size,
                kept@ == old_heads.take(k as int).filter(pred),
                forall|t: int|
                    0 <= t < kept@.len() ==> old(self).in_bounds((#[trigger] kept@[t]).1),
                pred == (|e: (PlayerId, Position)| !dead@.contains(e.0)),
            decreases n - k,
        {
            let e = self.player_heads[k];
            let keep = !contains_id(dead, e.0);
            proof {
                assert(old_heads.take(k + 1).drop_last() =~= old_heads.take(k as int));
                assert(old_heads.take(k + 1).last() == e);
                reveal_with_fuel(Seq::filter, 1);
                assert(old_heads.take(k + 1).filter(pred) == if pred(e) {
                    old_heads.take(k as int).filter(pred).push(e)
                } else {
                    old_heads.take(k as int).filter(pred)
                });
            }
            if keep {
                kept.push(e);
            }
            k += 1;
        }
        proof {
            assert(old_heads.take(n as int) =~= old_heads);
        }
        self.player_heads = kept;
        proof {
            assert forall|t: int|
                0 <= t < self.player_heads@.len() implies self.in_bounds(
                (#[trigger] self.player_heads@[t]).1,
            ) by {}
        }
    }

    /// A private what-if copy: the same game with the agent moved onto
    /// `step_to`, used by the one-ply lookahead.  The authoritative state is
    /// left untouched.
    pub fn simulate_step(&self, step_to: &Position) -> (r: State)
        requires
            self.wf(),
            self.in_bounds(*step_to),
        ensures
            position_update_post(*self, r, self.my_id, *step_to),
    {
        let mut new_state = State {
            my_id: self.my_id,
            my_position: self.my_position,
            field_occupation: grid_clone(&self.field_occupation),
            player_heads: copy_heads(&self.player_heads),
            game_size: self.game_size,
        };
        proof {
            assert forall|k: int|
                0 <= k < new_state.heads().len() implies new_state.in_bounds(
                (#[trigger] new_state.heads()[k]).1,
            ) by {
                assert(new_state.heads()[k] == self.heads()[k]);
                assert(self.in_bounds(self.heads()[k].1));
            }
        }
        new_state.apply_position_update(self.my_id, *step_to);
        new_state
    }
}

impl Default for State {
    /// The model before any game-start event: a zero-by-zero grid that
    /// reports itself uninitialized.
    fn default() -> (r: State)
        ensures
            r.wf(),
            !r.initialized(),
            r.heads().len() == 0,
            r.game_size == (Position { x: 0, y: 0 }),
            r.my_id == PlayerId(0),
            r.my_position == (Position { x: 0, y: 0 }),
    {
        State {
            my_id: PlayerId(0),
            my_position: Position { x: 0, y: 0 },
            field_occupation: grid_new(0, 0),
            player_heads: Vec::new(),
            game_size: Position { x: 0, y: 0 },
        }
    }
}

/// What one cell becomes when the players in `dead` die: cleared if one of
/// them owned it, untouched otherwise.
pub open spec fn clear_cell(c: Option<u32>, dead: Seq<PlayerId>) -> Option<u32> {
    match c {
        Some(q) => if dead.contains(PlayerId(q)) {
            None
        } else {
            c
        },
        None => None,
    }
}

/// The head list after recording `p` at `pos`: the first entry for `p` is
/// replaced, or a new entry is appended if there was none.
pub open spec fn assoc_set(
    s: Seq<(PlayerId, Position)>,
    p: PlayerId,
    pos: Position,
) -> Seq<(PlayerId, Position)>
    decreases s.len(),
{
    if s.len() == 0 {
        seq![(p, pos)]
    } else if s[0].0 == p {
        seq![(p, pos)] + s.skip(1)
    } else {
        seq![s[0]] + assoc_set(s.skip(1), p, pos)
    }
}

proof fn lemma_assoc_set_found(s: Seq<(PlayerId, Position)>, p: PlayerId, pos: Position, j: int)
    requires
        0 <= j < s.len(),
        s[j].0 == p,
        forall|k: int| 0 <= k < j ==> s[k].0 != p,
    ensures
        assoc_set(s, p, pos) == s.update(j, (p, pos)),
    decreases j,
{
    if j == 0 {
        assert(seq![(p, pos)] + s.skip(1) =~= s.update(0, (p, pos)));
    } else {
        assert(s.skip(1)[j - 1].0 == p);
        assert(forall|k: int| 0 <= k < j - 1 ==> s.skip(1)[k].0 != p);
        lemma_assoc_set_found(s.skip(1), p, pos, j - 1);
        assert(seq![s[0]] + s.skip(1).update(j - 1, (p, pos)) =~= s.update(j, (p, pos)));
    }
}

proof fn lemma_assoc_set_absent(s: Seq<(PlayerId, Position)>, p: PlayerId, pos: Position)
    requires
        forall|k: int| 0 <= k < s.len() ==> s[k].0 != p,
    ensures
        assoc_set(s, p, pos) == s.push((p, pos)),
    decreases s.len(),
{
    if s.len() == 0 {
        assert(seq![(p, pos)] =~= s.push((p, pos)));
    } else {
        assert(forall|k: int| 0 <= k < s.skip(1).len() ==> s.skip(1)[k].0 != p);
        lemma_assoc_set_absent(s.skip(1), p, pos);
        assert(seq![s[0]] + s.skip(1).push((p, pos)) =~= s.push((p, pos)));
    }
}

/// How the model changes on a game-start event.
pub open spec fn game_start_post(pre: State, post: State, size: Position, id: PlayerId) -> bool {
    &&& post.game_size == size
    &&& post.my_id == id
    &&& post.my_position == (Position { x: 0, y: 0 })
    &&& post.heads().len() == 0
    &&& post.cells().len() == post.cell_count()
    &&& forall|i: int| 0 <= i < post.cells().len() ==> post.cells()[i] is None
    &&& post.wf()
}

/// How the model changes on a position update for `p` at `pos`.
pub open spec fn position_update_post(pre: State, post: State, p: PlayerId, pos: Position) -> bool {
    &&& post.game_size == pre.game_size
    &&& post.my_id == pre.my_id
    &&& post.cells() == pre.cells().update(pre.idx_of(pos), Some(p.0))
    &&& post.heads() == assoc_set(pre.heads(), p, pos)
    &&& post.my_position == if p == pre.my_id {
        pos
    } else {
        pre.my_position
    }
    &&& post.wf()
}

/// How the model changes on a death batch.
pub open spec fn deaths_post(pre: State, post: State, dead: Seq<PlayerId>) -> bool {
    &&& post.game_size == pre.game_size
    &&& post.my_id == pre.my_id
    &&& post.my_position == pre.my_position
    &&& post.cells().len() == pre.cells().len()
    &&& forall|i: int|
        0 <= i < post.cells().len() ==> post.cells()[i] == clear_cell(
            #[trigger] pre.cells()[i],
            dead,
        )
    &&& post.heads() == pre.heads().filter(|e: (PlayerId, Position)| !dead.contains(e.0))
    &&& post.wf()
}

/// A game-start event followed at once by a death event for the very player
/// that just joined leaves the grid exactly as free as the start left it:
/// no position update intervened, so nothing was there to clear.
pub proof fn lemma_start_then_own_death_leaves_grid_free(
    s0: State,
    s1: State,
    s2: State,
    size: Position,
    id: PlayerId,
)
    requires
        game_start_post(s0, s1, size, id),
        deaths_post(s1, s2, seq![id]),
    ensures
        forall|i: int| 0 <= i < s2.cells().len() ==> s2.cells()[i] is None,
        s2.heads().len() == 0,
{
    assert forall|i: int| 0 <= i < s2.cells().len() implies s2.cells()[i] is None by {
        assert(s1.cells()[i] is None);
        assert(s2.cells()[i] == clear_cell(s1.cells()[i], seq![id]));
    }
    let pred = |e: (PlayerId, Position)| !seq![id].contains(e.0);
    s1.heads().lemma_filter_len(pred);
}

/// The first index holding an entry for `p`, if any, scanning from the front.
fn find_head_index(heads: &Vec<(PlayerId, Position)>, p: PlayerId) -> (r: Option<usize>)
    ensures
        match r {
            Some(j) => j < heads@.len() && heads@[j as int].0 == p && forall|k: int|
                0 <= k < j ==> heads@[k].0 != p,
            None => forall|k: int| 0 <= k < heads@.len() ==> heads@[k].0 != p,
        },
{
    let n = heads.len();
    let mut j: usize = 0;
    while j < n
        invariant
            j <= n,
            n == heads@.len(),
            forall|k: int| 0 <= k < j ==> heads@[k].0 != p,
        decreases n - j,
    {
        if heads[j].0 == p {
            return Some(j);
        }
        j += 1;
    }
    None
}

/// Whether the id list holds `q`.
fn contains_id(v: &Vec<PlayerId>, q: PlayerId) -> (r: bool)
    ensures
        r == v@.contains(q),
{
    let n = v.len();
    let mut j: usize = 0;
    while j < n
        invariant
            j <= n,
            n == v@.len(),
            forall|k: int| 0 <= k < j ==> v@[k] != q,
        decreases n - j,
    {
        if v[j] == q {
            return true;
        }
        j += 1;
    }
    false
}

/// An element-wise copy of the head list.
fn copy_heads(v: &Vec<(PlayerId, Position)>) -> (r: Vec<(PlayerId, Position)>)
    ensures
        r@ == v@,
{
    let n = v.len();
    let mut r: Vec<(PlayerId, Position)> = Vec::new();
    let mut j: usize = 0;
    while j < n
        invariant
            j <= n,
            n == v@.len(),
            r@ == v@.take(j as int),
        decreases n - j,
    {
        r.push(v[j]);
        proof {
            assert(v@.take(j + 1) =~= v@.take(j as int).push(v@[j as int]));
        }
        j += 1;
    }
    proof {
        assert(v@.take(n as int) =~= v@);
    }
    r
}

/// Whether a step from `pos` in direction `d` runs beside an opponent trail:
/// that neighbour is occupied and is nobody's current head.
pub open spec fn wall_at_dir(st: GridModel, pos: Position, d: MoveDirection) -> bool {
    let n = move_spec(pos, d, st.game_size);
    st.occupied(n) && !st.head_at(n)
}

/// Whether any of the four neighbours of `pos` is an occupied trail cell
/// that is not some player's current head.
pub open spec fn has_wall_spec(st: GridModel, pos: Position) -> bool {
    ||| wall_at_dir(st, pos, MoveDirection::Up)
    ||| wall_at_dir(st, pos, MoveDirection::Down)
    ||| wall_at_dir(st, pos, MoveDirection::Left)
    ||| wall_at_dir(st, pos, MoveDirection::Right)
}

/// Whether any of the four neighbours of `pos` is the current head of a
/// player other than the agent.
pub open spec fn has_neighbour_head_spec(st: GridModel, pos: Position) -> bool {
    ||| st.opponent_head_at(move_spec(pos, MoveDirection::Up, st.game_size))
    ||| st.opponent_head_at(move_spec(pos, MoveDirection::Down, st.game_size))
    ||| st.opponent_head_at(move_spec(pos, MoveDirection::Left, st.game_size))
    ||| st.opponent_head_at(move_spec(pos, MoveDirection::Right, st.game_size))
}

/// Does a cell next to `pos` hold an opponent trail (a wall)?  Head cells do
/// not count as walls.
pub fn has_wall(pos: &Position, game_state: &State) -> (r: bool)
    requires
        game_state.wf(),
        game_state.initialized(),
        game_state.in_bounds(*pos),
    ensures
        r == has_wall_spec(game_state.model(), *pos),
{
    let n_up = move_by_direction(pos, &MoveDirection::Up, &game_state.game_size);
    let n_down = move_by_direction(pos, &MoveDirection::Down, &game_state.game_size);
    let n_left = move_by_direction(pos, &MoveDirection::Left, &game_state.game_size);
    let n_right = move_by_direction(pos, &MoveDirection::Right, &game_state.game_size);
    (game_state.is_occupied(n_up) && !game_state.any_head_at(n_up)) || (game_state.is_occupied(
        n_down,
    ) && !game_state.any_head_at(n_down)) || (game_state.is_occupied(n_left)
        && !game_state.any_head_at(n_left)) || (game_state.is_occupied(n_right)
        && !game_state.any_head_at(n_right))
}

/// Is a cell next to `pos` the current head of an opponent?
pub fn has_neighbour_head(pos: &Position, game_state: &State) -> (r: bool)
    requires
        game_state.wf(),
        game_state.initialized(),
        game_state.in_bounds(*pos),
    ensures
        r == has_neighbour_head_spec(game_state.model(), *pos),
{
    let n_up = move_by_direction(pos, &MoveDirection::Up, &game_state.game_size);
    let n_down = move_by_direction(pos, &MoveDirection::Down, &game_state.game_size);
    let n_left = move_by_direction(pos, &MoveDirection::Left, &game_state.game_size);
    let n_right = move_by_direction(pos, &MoveDirection::Right, &game_state.game_size);
    game_state.any_opponent_head_at(n_up) || game_state.any_opponent_head_at(n_down)
        || game_state.any_opponent_head_at(n_left) || game_state.any_opponent_head_at(n_right)
}

} // verus!
