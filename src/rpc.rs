//! The messages exchanged with a client, as plain values.
use crate::world::WorldState;
use vstd::prelude::*;

verus! {

/// A message to the client: its type tag and its contents.
#[derive(Debug)]
pub struct Response {
    /// The type of message: `"w"` for the world, `"i"` for the
    /// configuration, `"c"` for a compilation result.
    pub message_type: String,
    /// The contents of the message.
    pub message: ResponseMessage,
}

/// The contents of a message to the client.
#[derive(Debug)]
pub enum ResponseMessage {
    /// The world state.
    WORLD(WorldState),
    /// The player's configuration.
    CONFIG(Configuration),
    /// The result of a compilation.
    COMPILE(CompileResult),
}

/// What a client learns when it connects.
#[derive(Debug)]
pub struct Configuration {
    /// The player's id.
    pub player_id: usize,
}

/// The outcome of a compile request.
#[derive(Debug)]
pub struct CompileResult {
    /// Whether the compilation succeeded.
    pub success: bool,
    /// The reason it failed, or empty.
    pub error: String,
}

/// A request to compile and install a program.
#[derive(Debug)]
pub struct CompileRequest {
    /// The program text.
    pub program: String,
}

/// The type tag of a message.
pub open spec fn message_tag(m: ResponseMessage) -> Seq<char> {
    match m {
        ResponseMessage::WORLD(_) => "w"@,
        ResponseMessage::CONFIG(_) => "i"@,
        ResponseMessage::COMPILE(_) => "c"@,
    }
}

impl Response {
    /// Wraps contents with the type tag that belongs to them.
    pub fn new(message: ResponseMessage) -> (r: Self)
        ensures
            r.message == message,
            r.message_type@ == message_tag(message),
    {
        let message_type = match &message {
            ResponseMessage::WORLD(_) => String::from_str("w"),
            ResponseMessage::CONFIG(_) => String::from_str("i"),
            ResponseMessage::COMPILE(_) => String::from_str("c"),
        };
        Response { message_type, message }
    }
}

impl CompileResult {
    /// Constructor.
    pub fn new(success: bool, error: String) -> (r: Self)
        ensures
            r.success == success,
            r.error@ == error@,
    {
        CompileResult { success, error }
    }
}

impl Configuration {
    /// Constructor.
    pub fn new(player_id: usize) -> (r: Self)
        ensures
            r.player_id == player_id,
    {
        Configuration { player_id }
    }
}

} // verus!
