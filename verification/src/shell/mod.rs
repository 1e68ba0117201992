//! The shell's decisions: what a typed line asks for, and the prompt.

pub mod builtins;
pub mod complete;

use vstd::prelude::*;

use crate::easter_eggs::{game_for, try_launch, GameKind};
use crate::text::{trim, trimmed};
use builtins::{builtin_for, is_builtin_for, Builtin};

verus! {

#[verifier::external_type_specification]
#[verifier::external_body]
pub struct ExParseError(shell_words::ParseError);

/// The words that `shell_words::split` makes of a line, or `None` when it
/// reports an unmatched quote.
pub uninterp spec fn shell_split(line: Seq<char>) -> Option<Seq<Seq<char>>>;

/// `shell_words::split`: splits a line into words as a POSIX shell would,
/// with quote removal and no expansions. The contract claims that it fails
/// exactly when `shell_split` gives `None`, and otherwise gives the words
/// that `shell_split` names.
#[verifier::external_body]
fn split_words(line: &str) -> (r: Result<Vec<String>, shell_words::ParseError>)
    ensures
        r is Ok <==> shell_split(line@) is Some,
        r matches Ok(v) ==> v@.map_values(|w: String| w@) == shell_split(line@).unwrap(),
{
    shell_words::split(line)
}

/// Why a line could not be split into words.
#[derive(Debug, Clone, Copy, PartialEq, Eq, Structural)]
pub enum SplitError {
    MissingClosingQuote,
}

impl SplitError {
    /// The message shown for the error.
    pub fn message(&self) -> (r: &'static str)
        ensures
            r@ == "missing closing quote"@,
    {
        "missing closing quote"
    }
}

/// What a line of words runs.
#[derive(Debug, Clone, PartialEq, Eq)]
pub enum Command {
    Builtin(Builtin),
    Game(GameKind),
    External { program: String, args: Vec<String> },
}

/// `r` is what the words run: nothing without words; else a built-in if
/// the first word names one, a game if it is a secret command, and
/// otherwise the program the first word names, with the rest as arguments.
pub open spec fn is_command_for(words: Seq<String>, r: Option<Command>) -> bool {
    if words.len() == 0 {
        r is None
    } else {
        let cmd = words[0]@;
        let rest = words.subrange(1, words.len() as int);
        if cmd == "cd"@ || cmd == "exit"@ {
            exists|b: Builtin| r == Some(Command::Builtin(b)) && is_builtin_for(cmd, rest, Some(b))
        } else if game_for(cmd) is Some {
            r == Some(Command::Game(game_for(cmd).unwrap()))
        } else {
            r matches Some(Command::External { program, args }) && program@ == cmd && args@ == rest
        }
    }
}

/// What the words of a line run (see `is_command_for`).
pub fn command_for(words: Vec<String>) -> (r: Option<Command>)
    ensures
        is_command_for(words@, r),
{
    let n = words.len();
    if n == 0 {
        return None;
    }
    let mut args: Vec<String> = Vec::new();
    let mut i: usize = 1;
    while i < n
        invariant
            n == words@.len(),
            1 <= i <= n,
            args@ == words@.subrange(1, i as int),
        decreases n - i,
    {
        args.push(words[i].clone());
        assert(args@ =~= words@.subrange(1, i + 1));
        i = i + 1;
    }
    let cmd: &str = words[0].as_str();
    match builtin_for(cmd, args.as_slice()) {
        Some(b) => {
            return Some(Command::Builtin(b));
        },
        None => {},
    }
    match try_launch(cmd) {
        Some(game) => Some(Command::Game(game)),
        None => Some(Command::External { program: words[0].clone(), args }),
    }
}

/// A line the user typed, once it is not blank.
pub struct EnteredLine {
    /// The trimmed line, for the history.
    pub history: String,
    /// What it runs: `Ok(None)` when it holds no words.
    pub outcome: Result<Option<Command>, SplitError>,
}

/// What the shell does with a typed line: nothing when it is blank after
/// trimming; otherwise the trimmed line goes to the history, is split into
/// words, and runs what the words name (see `command_for`), or reports the
/// split error.
pub fn plan_line(line: &str) -> (r: Option<EnteredLine>)
    ensures
        trimmed(line@).len() == 0 <==> r is None,
        r matches Some(e) ==> {
            &&& e.history@ == trimmed(line@)
            &&& (e.outcome is Err <==> shell_split(trimmed(line@)) is None)
            &&& (e.outcome matches Ok(c) ==> exists|words: Seq<String>|
                words.map_values(|w: String| w@) == shell_split(trimmed(line@)).unwrap() && is_command_for(words, c))
        },
{
    let input = trim(line);
    if input.is_empty() {
        return None;
    }
    let history = String::from_str(input);
    match split_words(input) {
        Ok(words) => {
            let ghost w = words@;
            let c = command_for(words);
            Some(EnteredLine { history, outcome: Ok(c) })
        },
        Err(_) => Some(EnteredLine { history, outcome: Err(SplitError::MissingClosingQuote) }),
    }
}

/// The prompt: `sorb:` in cyan, then the working directory in green when it
/// is known, then ` $ `.
pub fn prompt(cwd: Option<&str>) -> (r: String)
    ensures
        r@ == match cwd {
            Some(dir) => "\x1b[36msorb:\x1b[32m"@ + dir@ + "\x1b[0m $ "@,
            None => "\x1b[36msorb\x1b[0m $ "@,
        },
{
    match cwd {
        Some(dir) => {
            let mut p = String::from_str("\x1b[36msorb:\x1b[32m");
            p.append(dir);
            p.append("\x1b[0m $ ");
            p
        },
        None => String::from_str("\x1b[36msorb\x1b[0m $ "),
    }
}

} // verus!
