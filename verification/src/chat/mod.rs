//! A small terminal chat: a server that relays packets to every client,
//! and a client that sends what its user types.

pub mod client;
pub mod protocol;
pub mod ui;

use vstd::prelude::*;

use crate::text::str_eq;

verus! {

/// The value of a string of decimal digits.
pub open spec fn digits_value(s: Seq<char>) -> int
    decreases s.len(),
{
    if s.len() == 0 {
        0
    } else {
        digits_value(s.drop_last()) * 10 + (s.last() as int - '0' as int)
    }
}

/// The string without a leading `+`, if it has one.
pub open spec fn unsigned_part(s: Seq<char>) -> Seq<char> {
    if s.len() > 0 && s[0] == '+' {
        s.drop_first()
    } else {
        s
    }
}

/// Every character is a decimal digit.
pub open spec fn all_digits(d: Seq<char>) -> bool {
    forall|i: int| 0 <= i < d.len() ==> '0' <= #[trigger] d[i] <= '9'
}

/// What `str::parse::<u16>` gives for a string: an optional `+` followed
/// by at least one decimal digit and nothing else, worth at most 65535.
pub open spec fn decimal_u16(s: Seq<char>) -> Option<u16> {
    let d = unsigned_part(s);
    if d.len() > 0 && all_digits(d) && digits_value(d) <= 65535 {
        Some(digits_value(d) as u16)
    } else {
        None
    }
}

/// A string of decimal digits is worth at least any of its prefixes.
proof fn lemma_digits_grow(d: Seq<char>, k: int)
    requires
        0 <= k <= d.len(),
        forall|i: int| 0 <= i < d.len() ==> '0' <= #[trigger] d[i] <= '9',
    ensures
        digits_value(d) >= 0,
        digits_value(d) >= digits_value(d.take(k)),
    decreases d.len(),
{
    if d.len() == 0 {
        assert(d.take(k) =~= d);
    } else {
        let e = d.drop_last();
        assert forall|i: int| 0 <= i < e.len() implies '0' <= #[trigger] e[i] <= '9' by {
            assert(e[i] == d[i]);
        }
        let k2 = if k < d.len() { k } else { 0 };
        lemma_digits_grow(e, k2);
        assert('0' <= d[d.len() - 1] <= '9');
        if k < d.len() {
            assert(e.take(k) =~= d.take(k));
        } else {
            assert(d.take(k) =~= d);
        }
    }
}

/// The number a string of decimal digits gives as `str::parse::<u16>`
/// reads it: an optional `+`, then at least one digit and nothing else,
/// worth at most 65535; `None` otherwise.
fn parse_u16(s: &str) -> (r: Option<u16>)
    ensures
        r == decimal_u16(s@),
{
    let n = s.unicode_len();
    let mut i: usize = 0;
    if n > 0 && s.get_char(0) == '+' {
        i = 1;
    }
    let start = i;
    let ghost d = unsigned_part(s@);
    assert(d =~= s@.skip(start as int));
    if start == n {
        return None;
    }
    let mut acc: u32 = 0;
    while i < n
        invariant
            n == s@.len(),
            start <= i <= n,
            start < n,
            d == s@.skip(start as int),
            d == unsigned_part(s@),
            forall|k: int| 0 <= k < i - start ==> '0' <= #[trigger] d[k] <= '9',
            acc == digits_value(d.take(i - start)),
            acc <= 65535,
        decreases n - i,
    {
        let c = s.get_char(i);
        assert(d[i - start] == c);
        if c < '0' || c > '9' {
            assert(!('0' <= d[i - start] <= '9'));
            assert(!all_digits(d));
            return None;
        }
        let digit = (c as u32) - ('0' as u32);
        let v: u32 = acc * 10 + digit;
        proof {
            assert(d.take(i - start + 1).drop_last() =~= d.take(i - start));
            assert(d.take(i - start + 1).last() == c);
        }
        if v > 65535 {
            proof {
                if all_digits(d) {
                    lemma_digits_grow(d, i - start + 1);
                    assert(digits_value(d.take(i - start + 1)) == v);
                }
            }
            return None;
        }
        acc = v;
        i = i + 1;
    }
    assert(d.take(n - start) =~= d);
    Some(acc as u16)
}

/// What `sorb-chat` was asked to do.
#[derive(Debug, Clone, PartialEq, Eq)]
pub enum ChatCommand {
    /// No subcommand: show how to use it.
    Usage,
    /// Run a server on the port.
    Server { port: u16 },
    /// `client` without host, port and name: show how to use it.
    ClientUsage,
    /// Connect to the host and port as the user.
    Client { host: String, port: u16, username: String },
    /// A subcommand that does not exist.
    Unknown { subcommand: String },
}

/// The port an argument names, 8080 when it names none.
pub open spec fn port_or_default(s: Seq<char>) -> u16 {
    match decimal_u16(s) {
        Some(p) => p,
        None => 8080,
    }
}

/// `r` is what the arguments ask for: `server [port]` or
/// `client <host> <port> <username>`, with 8080 for a port that does not
/// parse.
pub open spec fn is_chat_command(args: Seq<String>, r: ChatCommand) -> bool {
    if args.len() == 0 {
        r == ChatCommand::Usage
    } else if args[0]@ == "server"@ {
        r == ChatCommand::Server { port: if args.len() > 1 { port_or_default(args[1]@) } else { 8080 } }
    } else if args[0]@ == "client"@ {
        if args.len() < 4 {
            r == ChatCommand::ClientUsage
        } else {
            r matches ChatCommand::Client { host, port, username } && host@ == args[1]@ && port
                == port_or_default(args[2]@) && username@ == args[3]@
        }
    } else {
        r matches ChatCommand::Unknown { subcommand } && subcommand@ == args[0]@
    }
}

/// Reads the arguments of `sorb-chat`.
pub fn parse_chat_args(args: &Vec<String>) -> (r: ChatCommand)
    ensures
        is_chat_command(args@, r),
{
    if args.len() == 0 {
        return ChatCommand::Usage;
    }
    let sub = args[0].as_str();
    if str_eq(sub, "server") {
        let port = if args.len() > 1 {
            match parse_u16(args[1].as_str()) {
                Some(p) => p,
                None => 8080,
            }
        } else {
            8080
        };
        ChatCommand::Server { port }
    } else if str_eq(sub, "client") {
        if args.len() < 4 {
            return ChatCommand::ClientUsage;
        }
        let port = match parse_u16(args[2].as_str()) {
            Some(p) => p,
            None => 8080,
        };
        ChatCommand::Client { host: args[1].clone(), port, username: args[3].clone() }
    } else {
        ChatCommand::Unknown { subcommand: args[0].clone() }
    }
}

} // verus!
