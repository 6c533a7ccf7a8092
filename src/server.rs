//! What the server does with each client request, given the world.
//!
//! The transport, the lock around the world and the tick scheduler are
//! outside this library; they call these functions under the lock.
use crate::rpc::{CompileResult, Configuration, Response, ResponseMessage};
use crate::swarm_language::{compile_text, SwarmProgram};
use crate::world::{reprogrammed, World};
use vstd::prelude::*;

verus! {

/// The request handling of the game server.
pub struct GameServer {}

impl GameServer {
    /// Starts the server; the transport does the work.
    pub fn start() {
    }

    /// How long the tick driver sleeps before the next tick, in microseconds:
    /// the tick interval less the time the last tick took, or nothing if that
    /// tick overran.
    pub fn tick_delay(interval: u64, last_tick: u64) -> (r: u64)
        ensures
            r == if last_tick < interval {
                interval - last_tick
            } else {
                0
            },
    {
        if last_tick < interval {
            interval - last_tick
        } else {
            0
        }
    }

    /// The message that welcomes a newly connected player.
    pub fn welcome(player_id: usize) -> (r: Response)
        ensures
            r.message_type@ == "i"@,
            r.message matches ResponseMessage::CONFIG(c) && c.player_id == player_id,
    {
        Response::new(ResponseMessage::CONFIG(Configuration::new(player_id)))
    }

    /// Answers a view request with a snapshot of the world.
    pub fn handle_viewport(world: &World) -> (r: Response)
        requires
            world.wf(),
        ensures
            r.message_type@ == "w"@,
            r.message matches ResponseMessage::WORLD(st) && st.is_snapshot_of(world@),
    {
        Response::new(ResponseMessage::WORLD(world.get_state()))
    }

    /// Compiles `text` and, on success, installs it as the player's program;
    /// on failure the world is unchanged and the reason is reported.
    pub fn handle_compile(world: &mut World, player_id: usize, text: &str) -> (r: Response)
        requires
            old(world).wf(),
        ensures
            final(world).wf(),
            r.message_type@ == "c"@,
            match compile_text(text@) {
                Ok(cmds) => {
                    &&& final(world)@ == reprogrammed(old(world)@, player_id, cmds)
                    &&& r.message matches ResponseMessage::COMPILE(c) && c.success && c.error@.len()
                        == 0
                },
                Err(e) => {
                    &&& final(world)@ == old(world)@
                    &&& r.message matches ResponseMessage::COMPILE(c) && !c.success && c.error@
                        == e.message()
                },
            },
    {
        match SwarmProgram::compile(text) {
            Ok(program) => {
                world.update_program(player_id, program);
                let empty = String::new();
                Response::new(ResponseMessage::COMPILE(CompileResult::new(true, empty)))
            },
            Err(e) => Response::new(
                ResponseMessage::COMPILE(CompileResult::new(false, e.description())),
            ),
        }
    }
}

} // verus!
