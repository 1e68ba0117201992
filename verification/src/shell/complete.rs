//! Tab completion: which word the cursor is on, and the commands that
//! complete the first word of a line.

use vstd::prelude::*;

use crate::easter_eggs::game_for;
pub use crate::text::is_space;
use crate::text::{is_white_space, lemma_trimmed_start_skip, trimmed_start};

verus! {

/// The text before the cursor lies within the line's first word: after
/// any leading white space it holds none.
pub open spec fn on_command_word(before: Seq<char>) -> bool {
    forall|i: int| 0 <= i < trimmed_start(before).len() ==> !is_white_space(#[trigger] trimmed_start(before)[i])
}

/// What the word under the cursor is.
#[derive(Debug, Clone, PartialEq, Eq)]
pub enum CompletionTarget {
    /// The command word, typed as far as `prefix`.
    Command { prefix: String },
    /// An argument: a path.
    Argument,
}

/// Where completion is asked for, given the line's text before the cursor:
/// on the first word the command typed so far (without leading white
/// space), else an argument.
pub fn completion_target(before: &str) -> (r: CompletionTarget)
    ensures
        on_command_word(before@) <==> r is Command,
        r matches CompletionTarget::Command { prefix } ==> prefix@ == trimmed_start(before@),
{
    let n = before.unicode_len();
    let mut i: usize = 0;
    while i < n && is_space(before.get_char(i))
        invariant
            n == before@.len(),
            i <= n,
            forall|j: int| 0 <= j < i ==> is_white_space(#[trigger] before@[j]),
        decreases n - i,
    {
        i = i + 1;
    }
    let ghost rest = before@.skip(i as int);
    proof {
        lemma_trimmed_start_skip(before@, i as int);
        if i < n {
            assert(rest[0] == before@[i as int]);
        } else {
            assert(rest.len() == 0);
        }
        assert(trimmed_start(rest) == rest);
    }
    let start = i;
    while i < n
        invariant
            n == before@.len(),
            start <= i <= n,
            rest == before@.skip(start as int),
            trimmed_start(before@) == rest,
            forall|j: int| start <= j < i ==> !is_white_space(#[trigger] before@[j]),
        decreases n - i,
    {
        if is_space(before.get_char(i)) {
            assert(rest[i - start] == before@[i as int]);
            return CompletionTarget::Argument;
        }
        i = i + 1;
    }
    assert forall|k: int| 0 <= k < rest.len() implies !is_white_space(#[trigger] rest[k]) by {
        assert(rest[k] == before@[start + k]);
    }
    let prefix = before.substring_char(start, n);
    assert(prefix@ =~= rest);
    CompletionTarget::Command { prefix: String::from_str(prefix) }
}

/// The commands the shell knows by name: its built-ins, then its games.
pub open spec fn known_commands() -> Seq<Seq<char>> {
    seq![
        "cd"@,
        "exit"@,
        "sorb-test"@,
        "sorb-snake"@,
        "sorb-dino"@,
        "sorb-flappy"@,
        "sorb-tetris"@,
        "sorb-invaders"@,
    ]
}

/// The shell's built-ins and its games' secret commands.
pub fn command_names() -> (r: Vec<String>)
    ensures
        r@.map_values(|s: String| s@) == known_commands(),
{
    let r = vec![
        String::from_str("cd"),
        String::from_str("exit"),
        String::from_str("sorb-test"),
        String::from_str("sorb-snake"),
        String::from_str("sorb-dino"),
        String::from_str("sorb-flappy"),
        String::from_str("sorb-tetris"),
        String::from_str("sorb-invaders"),
    ];
    assert(r@.map_values(|s: String| s@) =~= known_commands());
    r
}

/// Every game command of `known_commands` launches a game.
pub proof fn lemma_known_games_launch()
    ensures
        forall|i: int| 2 <= i < known_commands().len() ==> game_for(#[trigger] known_commands()[i]) is Some,
{
    reveal_strlit("sorb-test");
    reveal_strlit("sorb-snake");
    reveal_strlit("sorb-dino");
    reveal_strlit("sorb-flappy");
    reveal_strlit("sorb-tetris");
    reveal_strlit("sorb-invaders");
}

/// The candidates that start with `prefix`, in order, each name once (its
/// first occurrence).
pub open spec fn matches_of(candidates: Seq<Seq<char>>, prefix: Seq<char>) -> Seq<Seq<char>>
    decreases candidates.len(),
{
    if candidates.len() == 0 {
        Seq::empty()
    } else {
        let earlier = matches_of(candidates.drop_last(), prefix);
        let c = candidates.last();
        if prefix.is_prefix_of(c) && !earlier.contains(c) {
            earlier.push(c)
        } else {
            earlier
        }
    }
}

/// Whether `s` starts with `p`.
pub fn starts_with(s: &str, p: &str) -> (r: bool)
    ensures
        r == p@.is_prefix_of(s@),
{
    let n = s.unicode_len();
    let m = p.unicode_len();
    if m > n {
        return false;
    }
    let mut i: usize = 0;
    while i < m
        invariant
            n == s@.len(),
            m == p@.len(),
            m <= n,
            i <= m,
            forall|j: int| 0 <= j < i ==> s@[j] == p@[j],
        decreases m - i,
    {
        if s.get_char(i) != p.get_char(i) {
            assert(s@.subrange(0, m as int)[i as int] != p@[i as int]);
            return false;
        }
        i = i + 1;
    }
    assert(p@ =~= s@.subrange(0, m as int));
    true
}

/// Whether one of `names` is `name`.
fn holds_name(names: &Vec<String>, name: &str) -> (r: bool)
    ensures
        r == names@.map_values(|s: String| s@).contains(name@),
{
    let ghost views = names@.map_values(|s: String| s@);
    let n = names.len();
    let mut i: usize = 0;
    while i < n
        invariant
            n == names@.len(),
            views == names@.map_values(|s: String| s@),
            i <= n,
            forall|j: int| 0 <= j < i ==> views[j] != name@,
        decreases n - i,
    {
        if crate::text::str_eq(names[i].as_str(), name) {
            assert(views[i as int] == name@);
            return true;
        }
        i = i + 1;
    }
    false
}

/// The candidates that complete `prefix`: those starting with it, in the
/// order given, each name once.
pub fn matching_commands(prefix: &str, candidates: &Vec<String>) -> (r: Vec<String>)
    ensures
        r@.map_values(|s: String| s@) == matches_of(candidates@.map_values(|s: String| s@), prefix@),
{
    let ghost all = candidates@.map_values(|s: String| s@);
    let n = candidates.len();
    let mut out: Vec<String> = Vec::new();
    let mut i: usize = 0;
    while i < n
        invariant
            n == candidates@.len(),
            all == candidates@.map_values(|s: String| s@),
            i <= n,
            out@.map_values(|s: String| s@) == matches_of(all.take(i as int), prefix@),
        decreases n - i,
    {
        let c = candidates[i].as_str();
        proof {
            assert(all.take(i + 1).drop_last() =~= all.take(i as int));
            assert(all.take(i + 1).last() == c@);
        }
        if starts_with(c, prefix) && !holds_name(&out, c) {
            let ghost before = out@;
            out.push(candidates[i].clone());
            proof {
                assert(out@.map_values(|s: String| s@) =~= before.map_values(|s: String| s@).push(c@));
            }
        }
        i = i + 1;
    }
    assert(all.take(n as int) =~= all);
    out
}

/// Completion only offers names that start with what was typed, and never
/// the same name twice.
pub proof fn lemma_matches_are_distinct_completions(candidates: Seq<Seq<char>>, prefix: Seq<char>)
    ensures
        forall|i: int|
            0 <= i < matches_of(candidates, prefix).len() ==> prefix.is_prefix_of(
                #[trigger] matches_of(candidates, prefix)[i],
            ) && candidates.contains(matches_of(candidates, prefix)[i]),
        forall|i: int, j: int|
            0 <= i < j < matches_of(candidates, prefix).len() ==> #[trigger] matches_of(candidates, prefix)[i]
                != #[trigger] matches_of(candidates, prefix)[j],
        forall|c: Seq<char>| #[trigger] candidates.contains(c) && prefix.is_prefix_of(c) ==> matches_of(
            candidates,
            prefix,
        ).contains(c),
    decreases candidates.len(),
{
    if candidates.len() > 0 {
        let rest = candidates.drop_last();
        lemma_matches_are_distinct_completions(rest, prefix);
        let earlier = matches_of(rest, prefix);
        let m = matches_of(candidates, prefix);
        assert forall|i: int| 0 <= i < m.len() implies prefix.is_prefix_of(#[trigger] m[i]) && candidates.contains(
            m[i],
        ) by {
            if i < earlier.len() {
                assert(m[i] == earlier[i]);
                let k = choose|k: int| 0 <= k < rest.len() && rest[k] == earlier[i];
                assert(candidates[k] == rest[k]);
            } else {
                assert(candidates[candidates.len() - 1] == candidates.last());
            }
        }
        assert forall|i: int, j: int| 0 <= i < j < m.len() implies #[trigger] m[i] != #[trigger] m[j] by {
            assert(m[i] == earlier[i]);
            if j < earlier.len() {
                assert(m[j] == earlier[j]);
            } else {
                assert(earlier.contains(earlier[i]));
            }
        }
        assert forall|c: Seq<char>| #[trigger] candidates.contains(c) && prefix.is_prefix_of(c) implies m.contains(
            c,
        ) by {
            let k = choose|k: int| 0 <= k < candidates.len() && candidates[k] == c;
            if k < rest.len() {
                assert(rest[k] == c);
                assert(rest.contains(c));
                let e = choose|e: int| 0 <= e < earlier.len() && earlier[e] == c;
                if m.len() > earlier.len() {
                    assert(m[e] == earlier[e]);
                }
            } else {
                if !earlier.contains(c) {
                    assert(m[m.len() - 1] == c);
                }
            }
        }
    }
}

} // verus!
