//! An in-memory chat relay: frame classification, event rendering, per-peer
//! bounded outbound queues and a registry that fans events out to peers.

pub mod command;
pub mod error;
pub mod event;
pub mod laws;
pub mod queue;
pub mod registry;
pub mod session;

pub use command::{parse_frame, Command};
pub use error::{fail_with_error, BigError, MyError};
pub use event::Event;
pub use queue::{OutboundQueue, PushOutcome, QueueView, QUEUE_CAPACITY};
pub use registry::{PeerId, Registry};
pub use session::{ReadOutcome, Session, SessionStep};
