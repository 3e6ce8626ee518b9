//! Actors: their paths, the messages they are sent, the errors that actor
//! operations report, and the lifecycle of the task that runs an actor.

pub mod lifecycle;
pub mod path;

use vstd::prelude::*;
use vstd::string::*;

use self::path::ActorPath;

verus! {

/// Defines what an actor receives as a message, and what it answers with.
/// Where no answer is needed, `Response` is `()`.
pub trait Message: Clone + Send + Sync + 'static {
    /// What an actor answers when it handles this message.
    type Response: Send + Sync + 'static;
}

/// What can go wrong when actors are created or sent messages.
#[derive(Debug)]
pub enum ActorError {
    /// An actor already runs at this path.
    Exists(ActorPath),
    /// A message or its answer could not be delivered.
    SendError(String),
    /// The actor failed while it ran.
    Runtime(String),
}

/// The text that describes an error of this kind.
pub open spec fn error_text(error: ActorError) -> Seq<char> {
    match error {
        ActorError::Exists(_) => "Actor exists"@,
        ActorError::SendError(_) => "Message could not be delivered"@,
        ActorError::Runtime(_) => "Actor runtime error"@,
    }
}

impl ActorError {
    /// The text that describes this kind of error.
    pub fn description(&self) -> (text: String)
        ensures
            text@ == error_text(*self),
    {
        match self {
            ActorError::Exists(_) => String::from_str("Actor exists"),
            ActorError::SendError(_) => String::from_str("Message could not be delivered"),
            ActorError::Runtime(_) => String::from_str("Actor runtime error"),
        }
    }
}

} // verus!
