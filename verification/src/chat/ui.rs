//! What the chat window shows: the messages received and the line being typed.

use vstd::prelude::*;

use super::protocol::Packet;
use crate::text::str_eq;

verus! {

/// The message line that a packet adds: (sender, text). Joins and leaves
/// are announced by `system`.
pub open spec fn packet_line(p: Packet) -> (Seq<char>, Seq<char>) {
    match p {
        Packet::Join { username } => ("system"@, username@ + " joined"@),
        Packet::Message { username, content } => (username@, content@),
        Packet::Leave { username } => ("system"@, username@ + " left"@),
    }
}

/// How a line is shown.
#[derive(Debug, Clone, Copy, PartialEq, Eq, Structural)]
pub enum LineStyle {
    /// An announcement by `system`.
    System,
    /// A message sent by this user.
    Own,
    /// A message sent by someone else.
    Other,
}

/// A line as shown: the sender's label (empty for announcements) and the text.
pub struct ChatLine {
    pub style: LineStyle,
    pub label: String,
    pub text: String,
}

/// A quiet picture of the chat window.
pub struct ChatView {
    pub username: Seq<char>,
    pub messages: Seq<(Seq<char>, Seq<char>)>,
    pub input: Seq<char>,
}

/// The chat window's state.
pub struct ChatUI {
    username: String,
    messages: Vec<(String, String)>,
    input: String,
}

impl View for ChatUI {
    type V = ChatView;

    closed spec fn view(&self) -> ChatView {
        ChatView {
            username: self.username@,
            messages: self.messages@.map_values(|m: (String, String)| (m.0@, m.1@)),
            input: self.input@,
        }
    }
}

/// How the message (`user`, `text`) is shown to `me`: announcements as
/// `*** text ***`, messages with the sender's name and `: ` as label.
pub open spec fn shown(me: Seq<char>, user: Seq<char>, text: Seq<char>, line: ChatLine) -> bool {
    if user == "system"@ {
        &&& line.style == LineStyle::System
        &&& line.label@ == Seq::<char>::empty()
        &&& line.text@ == "*** "@ + text + " ***"@
    } else {
        &&& line.style == if user == me { LineStyle::Own } else { LineStyle::Other }
        &&& line.label@ == user + ": "@
        &&& line.text@ == text
    }
}

impl ChatUI {
    /// An empty window for `username`.
    pub fn new(username: String) -> (ui: Self)
        ensures
            ui@.username == username@,
            ui@.messages.len() == 0,
            ui@.input.len() == 0,
    {
        let ui = ChatUI { username, messages: Vec::new(), input: String::new() };
        assert(ui@.messages =~= Seq::<(Seq<char>, Seq<char>)>::empty());
        ui
    }

    /// Adds the line a received packet stands for.
    pub fn add_packet(&mut self, packet: Packet)
        ensures
            final(self)@.messages == old(self)@.messages.push(packet_line(packet)),
            final(self)@.username == old(self)@.username,
            final(self)@.input == old(self)@.input,
    {
        let ghost line = packet_line(packet);
        match packet {
            Packet::Join { username } => {
                let text = username.concat(" joined");
                self.messages.push((String::from_str("system"), text));
            },
            Packet::Message { username, content } => {
                self.messages.push((username, content));
            },
            Packet::Leave { username } => {
                let text = username.concat(" left");
                self.messages.push((String::from_str("system"), text));
            },
        }
        assert(self@.messages =~= old(self)@.messages.push(line));
    }

    /// Replaces the line being typed.
    pub fn set_input(&mut self, input: String)
        ensures
            final(self)@.input == input@,
            final(self)@.messages == old(self)@.messages,
            final(self)@.username == old(self)@.username,
    {
        self.input = input;
    }

    /// The line being typed.
    pub fn input(&self) -> (r: String)
        ensures
            r@ == self@.input,
    {
        self.input.clone()
    }

    /// The messages as shown, oldest first.
    pub fn lines(&self) -> (r: Vec<ChatLine>)
        ensures
            r@.len() == self@.messages.len(),
            forall|i: int|
                0 <= i < r@.len() ==> shown(self@.username, self@.messages[i].0, self@.messages[i].1, #[trigger] r@[i]),
    {
        let n = self.messages.len();
        let mut out: Vec<ChatLine> = Vec::new();
        let mut i: usize = 0;
        while i < n
            invariant
                n == self.messages@.len(),
                i <= n,
                out@.len() == i,
                forall|k: int|
                    0 <= k < i ==> shown(self@.username, self@.messages[k].0, self@.messages[k].1, #[trigger] out@[k]),
            decreases n - i,
        {
            let user = self.messages[i].0.as_str();
            let text = self.messages[i].1.as_str();
            let line = if str_eq(user, "system") {
                let mut t = String::from_str("*** ");
                t.append(text);
                t.append(" ***");
                ChatLine { style: LineStyle::System, label: String::new(), text: t }
            } else {
                let style = if str_eq(user, self.username.as_str()) {
                    LineStyle::Own
                } else {
                    LineStyle::Other
                };
                let label = String::from_str(user).concat(": ");
                ChatLine { style, label, text: String::from_str(text) }
            };
            out.push(line);
            i = i + 1;
        }
        out
    }
}

} // verus!
