use vstd::prelude::*;

verus! {

/// Something that happened in the chat, delivered to every other peer.
#[derive(Debug)]
pub enum Event {
    Joined(String),
    Left(String),
    Chat { sender: String, content: String },
}

/// The mathematical value of an [`Event`]: names and content as sequences of
/// characters.
pub enum EventView {
    Joined(Seq<char>),
    Left(Seq<char>),
    Chat { sender: Seq<char>, content: Seq<char> },
}

impl View for Event {
    type V = EventView;

    open spec fn view(&self) -> EventView {
        match self {
            Event::Joined(name) => EventView::Joined(name@),
            Event::Left(name) => EventView::Left(name@),
            Event::Chat { sender, content } => EventView::Chat {
                sender: sender@,
                content: content@,
            },
        }
    }
}

/// The text that a peer receives for an event.
pub open spec fn rendered(e: EventView) -> Seq<char> {
    match e {
        EventView::Joined(name) => "["@ + name + " joined the chat]"@,
        EventView::Left(name) => "["@ + name + " left the chat]"@,
        EventView::Chat { sender, content } => sender + ": "@ + content,
    }
}

impl Event {
    pub fn user_joined(name: &str) -> (r: Event)
        ensures
            r@ == EventView::Joined(name@),
    {
        Event::Joined(name.to_string())
    }

    pub fn user_left(name: &str) -> (r: Event)
        ensures
            r@ == EventView::Left(name@),
    {
        Event::Left(name.to_string())
    }

    pub fn chat(sender: &str, content: &str) -> (r: Event)
        ensures
            r@ == (EventView::Chat { sender: sender@, content: content@ }),
    {
        Event::Chat { sender: sender.to_string(), content: content.to_string() }
    }

    /// The frame text written to a recipient's transport.
    pub fn render(&self) -> (r: String)
        ensures
            r@ == rendered(self@),
    {
        match self {
            Event::Joined(name) => {
                let mut s = String::from_str("[");
                s.append(name.as_str());
                s.append(" joined the chat]");
                s
            },
            Event::Left(name) => {
                let mut s = String::from_str("[");
                s.append(name.as_str());
                s.append(" left the chat]");
                s
            },
            Event::Chat { sender, content } => {
                let mut s = sender.clone();
                s.append(": ");
                s.append(content.as_str());
                s
            },
        }
    }
}

} // verus!
