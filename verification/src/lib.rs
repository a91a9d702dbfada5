//! Decision engine for a multi-player light-cycle game on a toroidal grid.
//!
//! Players leave permanent trails and lose when they move into an occupied
//! cell.  The engine keeps an occupancy grid and the current head position of
//! every player, and on each tick ranks the four candidate moves by a
//! lexicographic key built from region exploration, a territory field and a
//! one-ply lookahead.  All scoring is done in fixed-point integer arithmetic
//! so that the ranking order is total and deterministic.

use vstd::prelude::*;

pub mod engine;
pub mod field;
pub mod fixed;
pub mod grid;
pub mod protocol;
pub mod region;
pub mod session;

verus! {

/// A pair of grid coordinates.  All movement arithmetic wraps around the
/// grid edges (the grid is a torus).
#[derive(Clone, Copy, PartialEq, Eq, Structural, Debug)]
pub struct Position {
    pub x: u32,
    pub y: u32,
}

impl Position {
    /// The coordinates as array dimensions, x first.
    pub fn as_dim(&self) -> (r: (usize, usize))
        ensures
            r == (self.x as usize, self.y as usize),
    {
        (self.x as usize, self.y as usize)
    }
}

/// One of the four cardinal moves a player can make each tick.
#[derive(Clone, Copy, PartialEq, Eq, Structural, Debug)]
pub enum MoveDirection {
    Up,
    Right,
    Down,
    Left,
}

/// An opaque small integer identifying a participant for one game.
#[derive(Clone, Copy, PartialEq, Eq, Structural, Debug)]
pub struct PlayerId(pub u32);

/// Where the game server is reached.  The engine itself never connects;
/// the surrounding process does.
pub struct ServerConfig {
    pub address: String,
}

/// Login data sent with the join command.
pub struct UserConfig {
    pub user: String,
    pub password: String,
}

/// Tuning selector kept for configuration compatibility.
pub struct AlgorithmConfig {
    pub algorithm: u32,
}

/// The whole process configuration.
pub struct Config {
    pub server: ServerConfig,
    pub user: UserConfig,
    pub algorithm: AlgorithmConfig,
}

/// The destination of one move from `pos` in direction `dir` on a torus of
/// the given size, as plain integer arithmetic.
pub open spec fn move_spec(pos: Position, dir: MoveDirection, game_size: Position) -> Position {
    match dir {
        MoveDirection::Up => Position {
            x: pos.x,
            y: ((pos.y + game_size.y - 1) % (game_size.y as int)) as u32,
        },
        MoveDirection::Right => Position {
            x: ((pos.x + 1) % (game_size.x as int)) as u32,
            y: pos.y,
        },
        MoveDirection::Down => Position {
            x: pos.x,
            y: ((pos.y + 1) % (game_size.y as int)) as u32,
        },
        MoveDirection::Left => Position {
            x: ((pos.x + game_size.x - 1) % (game_size.x as int)) as u32,
            y: pos.y,
        },
    }
}

/// Applies one move on the toroidal grid: coordinates wrap at the edges.
/// The result always lies within the grid, whatever `pos` holds.
pub fn move_by_direction(pos: &Position, dir: &MoveDirection, game_size: &Position) -> (r: Position)
    requires
        game_size.x >= 1,
        game_size.y >= 1,
    ensures
        r == move_spec(*pos, *dir, *game_size),
        pos.x < game_size.x ==> r.x < game_size.x,
        pos.y < game_size.y ==> r.y < game_size.y,
{
    proof {
        vstd::arithmetic::div_mod::lemma_mod_bound(
            game_size.y + pos.y - 1,
            game_size.y as int,
        );
        vstd::arithmetic::div_mod::lemma_mod_bound(pos.x + 1, game_size.x as int);
        vstd::arithmetic::div_mod::lemma_mod_bound(pos.y + 1, game_size.y as int);
        vstd::arithmetic::div_mod::lemma_mod_bound(
            game_size.x + pos.x - 1,
            game_size.x as int,
        );
    }
    match dir {
        MoveDirection::Up => {
            let yy: u64 = (game_size.y as u64 + pos.y as u64 - 1) % game_size.y as u64;
            Position { x: pos.x, y: yy as u32 }
        },
        MoveDirection::Right => {
            let xx: u64 = (pos.x as u64 + 1) % game_size.x as u64;
            Position { x: xx as u32, y: pos.y }
        },
        MoveDirection::Down => {
            let yy: u64 = (pos.y as u64 + 1) % game_size.y as u64;
            Position { x: pos.x, y: yy as u32 }
        },
        MoveDirection::Left => {
            let xx: u64 = (game_size.x as u64 + pos.x as u64 - 1) % game_size.x as u64;
            Position { x: xx as u32, y: pos.y }
        },
    }
}

/// Movement wraps around: a step off one edge lands on the opposite edge,
/// on any grid with at least one cell in each dimension.
pub proof fn lemma_move_wraps(game_size: Position, x: u32, y: u32)
    requires
        game_size.x >= 1,
        game_size.y >= 1,
        x < game_size.x,
        y < game_size.y,
    ensures
        move_spec(Position { x: 0, y }, MoveDirection::Left, game_size) == (Position {
            x: (game_size.x - 1) as u32,
            y,
        }),
        move_spec(Position { x: (game_size.x - 1) as u32, y }, MoveDirection::Right, game_size)
            == (Position { x: 0, y }),
        move_spec(Position { x, y: 0 }, MoveDirection::Up, game_size) == (Position {
            x,
            y: (game_size.y - 1) as u32,
        }),
        move_spec(Position { x, y: (game_size.y - 1) as u32 }, MoveDirection::Down, game_size)
            == (Position { x, y: 0 }),
{
    let w = game_size.x as int;
    let h = game_size.y as int;
    assert((w + 0 - 1) % w == w - 1) by {
        vstd::arithmetic::div_mod::lemma_small_mod((w - 1) as nat, w as nat);
    }
    assert(((w - 1) + 1) % w == 0) by {
        vstd::arithmetic::div_mod::lemma_mod_self_0(w);
    }
    assert((h + 0 - 1) % h == h - 1) by {
        vstd::arithmetic::div_mod::lemma_small_mod((h - 1) as nat, h as nat);
    }
    assert(((h - 1) + 1) % h == 0) by {
        vstd::arithmetic::div_mod::lemma_mod_self_0(h);
    }
}

} // verus!
