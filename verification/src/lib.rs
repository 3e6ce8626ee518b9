//! A small actor system: hierarchical actor paths, a registry of running
//! actors, a lifecycle for the task that runs an actor, and a broadcast event
//! bus shared by all actors of a system.

pub mod actor;
pub mod bus;
pub mod system;

pub use actor::path::ActorPath;
pub use actor::{ActorError, Message};
pub use bus::{EventBus, EventReceiver};
pub use system::{ActorRegistry, SystemEvent};
pub use tokio::sync::broadcast::error::RecvError as EventRecvError;
pub use tokio::sync::broadcast::error::SendError;
