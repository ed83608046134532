use std::sync::Arc;
use vstd::prelude::*;

use crate::command::{classify, parse_frame, Command, CommandView};
use crate::event::{Event, EventView};
use crate::registry::{delivered, with_peer, without, PeerId, Peers, Registry};

verus! {

/// Whether a session reads on after a frame.
#[derive(Debug, Clone, Copy, PartialEq, Eq)]
pub enum SessionStep {
    /// The session keeps reading frames.
    Continue,
    /// The peer left; the session ends.
    Closed,
}

/// What one read of a connection's transport gave.
#[derive(Debug)]
pub enum ReadOutcome {
    /// One text frame, delimiter stripped.
    Frame(String),
    /// The peer closed the stream.
    EndOfStream,
    /// The read failed.
    Failed,
}

/// The registry after `id` completes the join handshake under `name`: it is
/// registered with a fresh queue and every other peer is offered `Joined`.
pub open spec fn joined(s: Peers, id: PeerId, name: Seq<char>) -> Peers {
    delivered(with_peer(s, id), id, EventView::Joined(name))
}

/// The registry after the peer `id`, named `name`, sends `frame`.
pub open spec fn after_frame(s: Peers, id: PeerId, name: Seq<char>, frame: Seq<char>) -> Peers {
    match classify(frame) {
        CommandView::Chat(content) => delivered(
            s,
            id,
            EventView::Chat { sender: name, content },
        ),
        CommandView::Quit => without(delivered(s, id, EventView::Left(name)), id),
        _ => s,
    }
}

/// Whether the session goes on after `frame`.
pub open spec fn step_of(frame: Seq<char>) -> SessionStep {
    match classify(frame) {
        CommandView::Quit => SessionStep::Closed,
        _ => SessionStep::Continue,
    }
}

/// The read side of one joined connection.
pub struct Session {
    pub id: PeerId,
    pub name: String,
}

impl Session {
    /// Completes the join handshake: registers `id` and announces `name` to
    /// every other peer.
    pub fn join(registry: &mut Registry, id: PeerId, name: String) -> (r: Session)
        requires
            old(registry).wf(),
        ensures
            final(registry).wf(),
            r.id == id,
            r.name@ == name@,
            final(registry)@ == joined(old(registry)@, id, name@),
    {
        registry.insert(id);
        let e = Arc::new(Event::user_joined(name.as_str()));
        registry.broadcast(id, e);
        Session { id, name }
    }

    /// The join handshake, given what the read after the prompt gave: a
    /// frame is the display name, taken as it is (empty or not), and the
    /// peer joins under it; a closed stream or a failed read ends the
    /// connection with nothing registered and nothing announced.
    pub fn handshake(registry: &mut Registry, id: PeerId, read: ReadOutcome) -> (r: Option<
        Session,
    >)
        requires
            old(registry).wf(),
        ensures
            final(registry).wf(),
            match read {
                ReadOutcome::Frame(name) => r is Some && r->Some_0.id == id && r->Some_0.name@
                    == name@ && final(registry)@ == joined(old(registry)@, id, name@),
                _ => r is None && final(registry)@ == old(registry)@,
            },
    {
        match read {
            ReadOutcome::Frame(name) => Some(Session::join(registry, id, name)),
            _ => None,
        }
    }

    /// Acts on what one read of this session's transport gave: a frame as
    /// [`Session::handle_frame`] does; a closed stream or a failed read ends
    /// the session without any announcement, leaving the peer registered
    /// until a broadcast finds its queue closed.
    pub fn on_read(&self, registry: &mut Registry, read: &ReadOutcome) -> (r: SessionStep)
        requires
            old(registry).wf(),
        ensures
            final(registry).wf(),
            match read {
                ReadOutcome::Frame(frame) => r == step_of(frame@) && final(registry)@
                    == after_frame(old(registry)@, self.id, self.name@, frame@),
                _ => r == SessionStep::Closed && final(registry)@ == old(registry)@,
            },
    {
        match read {
            ReadOutcome::Frame(frame) => self.handle_frame(registry, frame.as_str()),
            _ => SessionStep::Closed,
        }
    }

    /// Acts on one frame read from this session's transport: chat content is
    /// broadcast, `/quit` announces the departure and unregisters the peer,
    /// and an empty frame or an unknown command changes nothing.
    pub fn handle_frame(&self, registry: &mut Registry, frame: &str) -> (r: SessionStep)
        requires
            old(registry).wf(),
        ensures
            final(registry).wf(),
            r == step_of(frame@),
            final(registry)@ == after_frame(old(registry)@, self.id, self.name@, frame@),
    {
        match parse_frame(frame) {
            Command::Ignore => SessionStep::Continue,
            Command::Unknown => SessionStep::Continue,
            Command::Chat(content) => {
                let e = Arc::new(Event::chat(self.name.as_str(), content.as_str()));
                registry.broadcast(self.id, e);
                SessionStep::Continue
            },
            Command::Quit => {
                let e = Arc::new(Event::user_left(self.name.as_str()));
                registry.broadcast(self.id, e);
                registry.remove(self.id);
                SessionStep::Closed
            },
        }
    }
}

} // verus!
