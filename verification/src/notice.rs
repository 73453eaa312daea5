//! What the player is told on screen.

use crate::text::{decimal, push_decimal};
use vstd::prelude::*;
use vstd::string::*;

verus! {

/// How long a notice stays on screen.
#[derive(Clone, Copy, Debug, PartialEq, Eq, Structural)]
pub enum MessageLength {
    VeryShort,
    Short,
    Long,
}

/// A notice to the player.
#[derive(Clone, Copy, Debug, PartialEq, Eq, Structural)]
pub enum Notice {
    /// The search for the other players has begun.
    Connecting,
    /// That many player slots have no known owner yet.
    StillConnecting(usize),
    /// The input delay has become that many frames.
    InputDelay(usize),
    /// Another player has ended the session.
    SessionEnded,
    /// The session has lost a peer.
    LostConnection,
    /// The machines no longer agree on the state of the game.
    Desync,
}

impl Notice {
    /// The text of the notice.
    pub open spec fn wording(self) -> Seq<char> {
        match self {
            Notice::Connecting => "Connecting to netplay peers...\nPlease wait..."@,
            Notice::StillConnecting(n) => "Still connecting to "@ + decimal(n as nat)
                + " netplay peer(s)...\nPlease wait..."@,
            Notice::InputDelay(n) => "Input delay: "@ + decimal(n as nat),
            Notice::SessionEnded => "Player disconnected, session has ended"@,
            Notice::LostConnection => "Lost connection to peer(s)"@,
            Notice::Desync => "Desync detected"@,
        }
    }

    /// The text of the notice.
    pub fn text(&self) -> (text: String)
        ensures
            text@ == self.wording(),
    {
        match *self {
            Notice::Connecting => "Connecting to netplay peers...\nPlease wait...".to_string(),
            Notice::StillConnecting(n) => {
                let mut text = "Still connecting to ".to_string();
                push_decimal(&mut text, n as u128);
                text.append(" netplay peer(s)...\nPlease wait...");
                text
            },
            Notice::InputDelay(n) => {
                let mut text = "Input delay: ".to_string();
                push_decimal(&mut text, n as u128);
                text
            },
            Notice::SessionEnded => "Player disconnected, session has ended".to_string(),
            Notice::LostConnection => "Lost connection to peer(s)".to_string(),
            Notice::Desync => "Desync detected".to_string(),
        }
    }

    /// How long the notice stays on screen.
    pub fn length(&self) -> (length: MessageLength)
        ensures
            length == (match *self {
                Notice::Connecting | Notice::StillConnecting(_) => MessageLength::Short,
                Notice::InputDelay(_) => MessageLength::VeryShort,
                Notice::SessionEnded | Notice::LostConnection | Notice::Desync => MessageLength::Long,
            }),
    {
        match *self {
            Notice::Connecting | Notice::StillConnecting(_) => MessageLength::Short,
            Notice::InputDelay(_) => MessageLength::VeryShort,
            Notice::SessionEnded | Notice::LostConnection | Notice::Desync => MessageLength::Long,
        }
    }
}

/// A notice that counts says the number, in full, between its words.
pub proof fn law_notices_say_the_number(n: usize)
    ensures
        ({
            let head = "Still connecting to "@;
            let tail = " netplay peer(s)...\nPlease wait..."@;
            let text = Notice::StillConnecting(n).wording();
            &&& text.len() == head.len() + decimal(n as nat).len() + tail.len()
            &&& text.take(head.len() as int) == head
            &&& text.subrange(head.len() as int, text.len() - tail.len()) == decimal(n as nat)
            &&& text.skip(text.len() - tail.len()) == tail
        }),
        ({
            let head = "Input delay: "@;
            let text = Notice::InputDelay(n).wording();
            text.take(head.len() as int) == head && text.skip(head.len() as int) == decimal(
                n as nat,
            )
        }),
{
    let head = "Still connecting to "@;
    let tail = " netplay peer(s)...\nPlease wait..."@;
    let text = Notice::StillConnecting(n).wording();
    assert(text.take(head.len() as int) =~= head);
    assert(text.subrange(head.len() as int, text.len() - tail.len()) =~= decimal(n as nat));
    assert(text.skip(text.len() - tail.len()) =~= tail);
    let delay = "Input delay: "@;
    let other = Notice::InputDelay(n).wording();
    assert(other.take(delay.len() as int) =~= delay);
    assert(other.skip(delay.len() as int) =~= decimal(n as nat));
}

} // verus!
