//! The chat client's keyboard handling: editing the line and deciding what
//! to send.

use vstd::prelude::*;

use super::protocol::Packet;
use crate::easter_eggs::engine::input::Key;
use crate::text::{pop_char, push_char, str_eq, trim, trimmed};

verus! {

/// What the client does after a key.
#[derive(Debug, Clone)]
pub enum ClientAction {
    /// Nothing to send.
    Idle,
    /// Send the packet and go on.
    Send(Packet),
    /// Send the packet and leave.
    Quit(Packet),
}

/// The line being typed.
pub struct ChatInput {
    line: String,
}

impl View for ChatInput {
    type V = Seq<char>;

    closed spec fn view(&self) -> Seq<char> {
        self.line@
    }
}

/// `p` is the `Leave` packet of `user`.
pub open spec fn is_leave(p: Packet, user: Seq<char>) -> bool {
    p matches Packet::Leave { username } && username@ == user
}

/// `p` is the `Message` packet of `user` with the text `text`.
pub open spec fn is_message(p: Packet, user: Seq<char>, text: Seq<char>) -> bool {
    p matches Packet::Message { username, content } && username@ == user && content@ == text
}

impl ChatInput {
    /// An empty line.
    pub fn new() -> (r: Self)
        ensures
            r@.len() == 0,
    {
        ChatInput { line: String::new() }
    }

    /// The line being typed.
    pub fn line(&self) -> (r: String)
        ensures
            r@ == self@,
    {
        self.line.clone()
    }

    /// Handles a key typed by `username`: a character is typed, Backspace
    /// deletes the last one, Esc leaves; Enter leaves on `/quit` or `/q`
    /// (ignoring surrounding whitespace), and otherwise sends a non-empty
    /// line as a message and clears it.
    pub fn on_key(&mut self, key: Key, username: &str) -> (r: ClientAction)
        ensures
            match key {
                Key::Char(c) => final(self)@ == old(self)@.push(c) && r is Idle,
                Key::Backspace => final(self)@ == (if old(self)@.len() > 0 {
                    old(self)@.drop_last()
                } else {
                    old(self)@
                }) && r is Idle,
                Key::Esc => final(self)@ == old(self)@ && (r matches ClientAction::Quit(p) && is_leave(p, username@)),
                Key::Enter => if trimmed(old(self)@) == "/quit"@ || trimmed(old(self)@) == "/q"@ {
                    final(self)@ == old(self)@ && (r matches ClientAction::Quit(p) && is_leave(p, username@))
                } else if old(self)@.len() > 0 {
                    final(self)@.len() == 0 && (r matches ClientAction::Send(p) && is_message(
                        p,
                        username@,
                        old(self)@,
                    ))
                } else {
                    final(self)@ == old(self)@ && r is Idle
                },
                _ => final(self)@ == old(self)@ && r is Idle,
            },
    {
        match key {
            Key::Char(c) => {
                push_char(&mut self.line, c);
                ClientAction::Idle
            },
            Key::Backspace => {
                let _ = pop_char(&mut self.line);
                ClientAction::Idle
            },
            Key::Enter => {
                let t = trim(self.line.as_str());
                if str_eq(t, "/quit") || str_eq(t, "/q") {
                    return ClientAction::Quit(Packet::Leave { username: String::from_str(username) });
                }
                if self.line.as_str().unicode_len() > 0 {
                    let content = self.line.clone();
                    self.line = String::new();
                    ClientAction::Send(Packet::Message { username: String::from_str(username), content })
                } else {
                    ClientAction::Idle
                }
            },
            Key::Esc => ClientAction::Quit(Packet::Leave { username: String::from_str(username) }),
            _ => ClientAction::Idle,
        }
    }
}

/// The packet the client reports to itself when the server goes away: the
/// `server` leaves.
pub fn server_gone() -> (p: Packet)
    ensures
        is_leave(p, "server"@),
{
    Packet::Leave { username: String::from_str("server") }
}

} // verus!
