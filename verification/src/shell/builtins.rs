//! The shell's built-in commands.

use vstd::prelude::*;

use crate::text::str_eq;

verus! {

/// Where `cd` goes.
#[derive(Debug, Clone, PartialEq, Eq)]
pub enum CdTarget {
    /// The home directory (`cd` alone, or `cd ~`).
    Home,
    Path(String),
}

/// A built-in command.
#[derive(Debug, Clone, PartialEq, Eq)]
pub enum Builtin {
    Cd(CdTarget),
    Exit,
}

/// `r` is the built-in that `cmd` with `args` names: `cd` goes to its first
/// argument, home when that is `~` or missing; `exit` exits; nothing else
/// is built in.
pub open spec fn is_builtin_for(cmd: Seq<char>, args: Seq<String>, r: Option<Builtin>) -> bool {
    if cmd == "cd"@ {
        let target = if args.len() > 0 { args[0]@ } else { "~"@ };
        match r {
            Some(Builtin::Cd(CdTarget::Home)) => target == "~"@,
            Some(Builtin::Cd(CdTarget::Path(p))) => target != "~"@ && p@ == target,
            _ => false,
        }
    } else if cmd == "exit"@ {
        r == Some(Builtin::Exit)
    } else {
        r is None
    }
}

/// The built-in command that `cmd` with `args` names, if any.
pub fn builtin_for(cmd: &str, args: &[String]) -> (r: Option<Builtin>)
    ensures
        is_builtin_for(cmd@, args@, r),
{
    if str_eq(cmd, "cd") {
        let target: &str = if args.len() > 0 {
            args[0].as_str()
        } else {
            "~"
        };
        if str_eq(target, "~") {
            Some(Builtin::Cd(CdTarget::Home))
        } else {
            Some(Builtin::Cd(CdTarget::Path(String::from_str(target))))
        }
    } else if str_eq(cmd, "exit") {
        Some(Builtin::Exit)
    } else {
        None
    }
}

} // verus!
