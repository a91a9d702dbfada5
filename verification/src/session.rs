//! The session step: what one received message does to the game model and
//! what the client must do in return.  The surrounding process reads and
//! writes the socket; everything it decides in between is here.

use vstd::prelude::*;

use crate::engine::{decide_action, decision_matches};
use crate::grid::{deaths_post, game_start_post, position_update_post, State, MAX_CELLS};
use crate::protocol::{contains_kicked, contains_kicked_spec, Answer, Command};

verus! {

/// What the client must do after one message: terminate the session, send
/// a command, or, when the message does not fit the model (coordinates off
/// the grid, dimensions beyond the supported size), treat it as fatal.
pub struct Reaction {
    pub terminate: bool,
    pub command: Option<Command<'static>>,
    pub rejected: bool,
}

/// A reaction that does nothing at all.
pub open spec fn no_action(r: Reaction) -> bool {
    !r.terminate && r.command is None && !r.rejected
}

/// Which messages the model can absorb: a position update must lie on the
/// grid, a game start must fit the supported cell bound; everything else
/// is always admissible.
pub open spec fn update_admissible(pre: State, answer: Answer) -> bool {
    match answer {
        Answer::Pos(_, pos) => pre.in_bounds(pos),
        Answer::Game(size, _) => size.x * size.y <= MAX_CELLS,
        _ => true,
    }
}

/// How one message changes the model: a position update, a game start and
/// a death batch mutate it as the grid operations say; every other message
/// leaves it untouched.
pub open spec fn update_post(pre: State, post: State, answer: Answer) -> bool {
    match answer {
        Answer::Pos(p, pos) => position_update_post(pre, post, p, pos),
        Answer::Game(size, id) => game_start_post(pre, post, size, id),
        Answer::Die(ids) => deaths_post(pre, post, ids@),
        _ => post == pre,
    }
}

impl State {
    /// Applies one received message to the model, as `update_post` says.
    pub fn update_from_answer(&mut self, answer: &Answer)
        requires
            old(self).wf(),
            update_admissible(*old(self), *answer),
        ensures
            final(self).wf(),
            update_post(*old(self), *final(self), *answer),
    {
        match answer {
            Answer::Pos(p, pos) => {
                self.apply_position_update(*p, *pos);
            },
            Answer::Game(size, id) => {
                self.apply_game_start(*size, *id);
            },
            Answer::Die(ids) => {
                self.apply_deaths(ids);
            },
            _ => {},
        }
    }
}

/// What handling one message means, message by message.
pub open spec fn handle_answer_post(
    pre: State,
    post: State,
    answer: Answer,
    seed: u64,
    r: Reaction,
) -> bool {
    match answer {
        Answer::Error(m) => post == pre && r.terminate == contains_kicked_spec(m@) && r.command
            is None && !r.rejected,
        Answer::Pos(p, pos) => !r.terminate && r.command is None && if pre.in_bounds(pos) {
            position_update_post(pre, post, p, pos) && !r.rejected
        } else {
            post == pre && r.rejected
        },
        Answer::Game(size, id) => !r.terminate && r.command is None && if size.x * size.y
            <= MAX_CELLS {
            game_start_post(pre, post, size, id) && !r.rejected
        } else {
            post == pre && r.rejected
        },
        Answer::Die(ids) => deaths_post(pre, post, ids@) && no_action(r),
        Answer::Tick => post == pre && !r.terminate && !r.rejected && decision_matches(
            pre.model(),
            seed,
            r.command,
        ),
        _ => post == pre && no_action(r),
    }
}

/// Applies one message to the model and says what to do next: an error
/// message about being kicked ends the session; a position update or a
/// game start mutates the model, or is rejected when it does not fit; a
/// death batch clears the dead; a tick asks the engine for the move to
/// send.  Everything else is ignored.
pub fn handle_answer(state: &mut State, answer: &Answer, seed: u64) -> (r: Reaction)
    requires
        old(state).wf(),
    ensures
        final(state).wf(),
        handle_answer_post(*old(state), *final(state), *answer, seed, r),
{
    match answer {
        Answer::Error(m) => {
            let kicked = contains_kicked(m.as_slice());
            Reaction { terminate: kicked, command: None, rejected: false }
        },
        Answer::Pos(_, pos) => {
            if pos.x < state.game_size.x && pos.y < state.game_size.y {
                state.update_from_answer(answer);
                Reaction { terminate: false, command: None, rejected: false }
            } else {
                Reaction { terminate: false, command: None, rejected: true }
            }
        },
        Answer::Game(size, _) => {
            proof {
                assert(size.x * size.y < 18446744073709551615u64) by (nonlinear_arith)
                    requires
                        size.x <= 4294967295u64,
                        size.y <= 4294967295u64,
                        0 <= size.x,
                        0 <= size.y,
                ;
            }
            if (size.x as u64) * (size.y as u64) <= MAX_CELLS {
                state.update_from_answer(answer);
                Reaction { terminate: false, command: None, rejected: false }
            } else {
                Reaction { terminate: false, command: None, rejected: true }
            }
        },
        Answer::Die(_) => {
            state.update_from_answer(answer);
            Reaction { terminate: false, command: None, rejected: false }
        },
        Answer::Tick => {
            let command = decide_action(state, seed);
            Reaction { terminate: false, command, rejected: false }
        },
        _ => Reaction { terminate: false, command: None, rejected: false },
    }
}

} // verus!
