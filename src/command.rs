use vstd::prelude::*;

verus! {

/// What one incoming frame asks for.
#[derive(Debug)]
pub enum Command {
    /// An empty frame: nothing happens.
    Ignore,
    /// `/quit`: the peer leaves.
    Quit,
    /// Any other frame that starts with `/`: nothing is broadcast.
    Unknown,
    /// Any other non-empty frame: chat content, verbatim.
    Chat(String),
}

/// The mathematical value of a [`Command`]: chat content as a sequence of
/// characters.
pub enum CommandView {
    Ignore,
    Quit,
    Unknown,
    Chat(Seq<char>),
}

impl View for Command {
    type V = CommandView;

    open spec fn view(&self) -> CommandView {
        match self {
            Command::Ignore => CommandView::Ignore,
            Command::Quit => CommandView::Quit,
            Command::Unknown => CommandView::Unknown,
            Command::Chat(s) => CommandView::Chat(s@),
        }
    }
}

/// The one recognised command word.
pub open spec fn quit_word() -> Seq<char> {
    seq!['/', 'q', 'u', 'i', 't']
}

/// The classification of a frame's text.
pub open spec fn classify(frame: Seq<char>) -> CommandView {
    if frame.len() == 0 {
        CommandView::Ignore
    } else if frame == quit_word() {
        CommandView::Quit
    } else if frame[0] == '/' {
        CommandView::Unknown
    } else {
        CommandView::Chat(frame)
    }
}

fn is_quit(frame: &str, n: usize) -> (r: bool)
    requires
        n == frame@.len(),
    ensures
        r == (frame@ == quit_word()),
{
    if n != 5 {
        return false;
    }
    let r = frame.get_char(0) == '/' && frame.get_char(1) == 'q' && frame.get_char(2) == 'u'
        && frame.get_char(3) == 'i' && frame.get_char(4) == 't';
    if r {
        assert(frame@ =~= quit_word());
    }
    r
}

/// Classifies one text frame (delimiter already stripped).
pub fn parse_frame(frame: &str) -> (r: Command)
    ensures
        r@ == classify(frame@),
{
    let n = frame.unicode_len();
    if n == 0 {
        Command::Ignore
    } else if is_quit(frame, n) {
        Command::Quit
    } else if frame.get_char(0) == '/' {
        Command::Unknown
    } else {
        Command::Chat(frame.to_string())
    }
}

} // verus!
