//! High scores: one best score per game, kept as a JSON object that maps
//! game names to scores.

use std::collections::HashMap;

use vstd::prelude::*;

use crate::text::str_eq;

verus! {

/// The map from game names to scores that serde_json reads from the text
/// `text` as a `HashMap<String, u32>`, or `None` when it reads no such map.
pub uninterp spec fn parsed_scores(text: Seq<char>) -> Option<Map<Seq<char>, u32>>;

/// The map from names to scores that a list of entries stands for; a later
/// entry for a name overrides an earlier one. The scores are handled as
/// such a list, each name once, rather than as a `HashMap<String, u32>`:
/// with a `String` key, Verus proves nothing of what `insert` does to the
/// map, not even its length.
pub open spec fn entries_map(entries: Seq<(String, u32)>) -> Map<Seq<char>, u32>
    decreases entries.len(),
{
    if entries.len() == 0 {
        Map::empty()
    } else {
        entries_map(entries.drop_last()).insert(entries.last().0@, entries.last().1)
    }
}

/// No name occurs twice among the entries.
pub open spec fn names_distinct(entries: Seq<(String, u32)>) -> bool {
    forall|i: int, j: int| 0 <= i < j < entries.len() ==> (#[trigger] entries[i]).0@ != (#[trigger] entries[j]).0@
}

/// The scores that the stored text holds: none when there is no text or
/// it does not read as a map of scores.
pub open spec fn stored_scores(stored: Option<Seq<char>>) -> Map<Seq<char>, u32> {
    match stored {
        Some(text) => match parsed_scores(text) {
            Some(m) => m,
            None => Map::empty(),
        },
        None => Map::empty(),
    }
}

/// The best score recorded for `game`, 0 when there is none.
pub open spec fn best_of(scores: Map<Seq<char>, u32>, game: Seq<char>) -> u32 {
    if scores.contains_key(game) {
        scores[game]
    } else {
        0
    }
}

/// Reads the score file's text with `serde_json::from_str` into a
/// `HashMap<String, u32>` and lists its entries. The contract claims that
/// the listed entries, whose order follows the map's iteration and is left
/// unsaid, are the map that `parsed_scores` names, each name once.
#[verifier::external_body]
fn parse_scores(text: &str) -> (r: Option<Vec<(String, u32)>>)
    ensures
        r is Some <==> parsed_scores(text@) is Some,
        r matches Some(v) ==> entries_map(v@) == parsed_scores(text@).unwrap() && names_distinct(v@),
{
    match serde_json::from_str::<HashMap<String, u32>>(text) {
        Ok(map) => Some(map.into_iter().collect()),
        Err(_) => None,
    }
}

/// Writes the entries with `serde_json::to_string_pretty` as a JSON object
/// (through a `HashMap<String, u32>`). The contract claims that the call
/// succeeds, as serde_json documents for maps with string keys, and that
/// `serde_json::from_str` reads the text back as the same map. The text
/// itself, whose key order follows the map's iteration, is left unsaid.
#[verifier::external_body]
fn render_scores(entries: &Vec<(String, u32)>) -> (r: Option<String>)
    requires
        names_distinct(entries@),
    ensures
        r is Some,
        r matches Some(t) ==> parsed_scores(t@) == Some(entries_map(entries@)),
{
    let map: HashMap<String, u32> = entries.iter().cloned().collect();
    serde_json::to_string_pretty(&map).ok()
}

/// The outcome of offering a score.
pub struct SavedScore {
    /// The score beats the best recorded for the game.
    pub new_best: bool,
    /// The new text of the score file, when it is to be written.
    pub contents: Option<String>,
}

proof fn lemma_entries_map_has(entries: Seq<(String, u32)>, i: int)
    requires
        names_distinct(entries),
        0 <= i < entries.len(),
    ensures
        entries_map(entries).contains_key(entries[i].0@),
        entries_map(entries)[entries[i].0@] == entries[i].1,
    decreases entries.len(),
{
    if i < entries.len() - 1 {
        lemma_entries_map_has(entries.drop_last(), i);
        assert(entries[i] == entries.drop_last()[i]);
    }
}

proof fn lemma_entries_map_lacks(entries: Seq<(String, u32)>, name: Seq<char>)
    requires
        forall|i: int| 0 <= i < entries.len() ==> (#[trigger] entries[i]).0@ != name,
    ensures
        !entries_map(entries).contains_key(name),
    decreases entries.len(),
{
    if entries.len() > 0 {
        lemma_entries_map_lacks(entries.drop_last(), name);
    }
}

proof fn lemma_entries_map_update(entries: Seq<(String, u32)>, i: int, value: u32)
    requires
        names_distinct(entries),
        0 <= i < entries.len(),
    ensures
        entries_map(entries.update(i, (entries[i].0, value))) == entries_map(entries).insert(entries[i].0@, value),
    decreases entries.len(),
{
    let updated = entries.update(i, (entries[i].0, value));
    if i == entries.len() - 1 {
        assert(updated.drop_last() =~= entries.drop_last());
        lemma_entries_map_lacks(entries.drop_last(), entries[i].0@);
        assert(entries_map(updated) =~= entries_map(entries).insert(entries[i].0@, value));
    } else {
        lemma_entries_map_update(entries.drop_last(), i, value);
        assert(updated.drop_last() =~= entries.drop_last().update(i, (entries[i].0, value)));
        assert(entries.last().0@ != entries[i].0@);
        assert(entries_map(updated) =~= entries_map(entries).insert(entries[i].0@, value));
    }
}

/// Offers `new_score` for `game_name` to the recorded scores `entries`
/// (each name once). The score is a new best when it beats the recorded
/// best (0 when there is none); then the game's entry is replaced, or
/// added at the end, and the entries are returned with `true`; otherwise
/// they come back unchanged with `false`.
pub fn offer_score(entries: Vec<(String, u32)>, game_name: &str, new_score: u32) -> (r: (bool, Vec<(String, u32)>))
    requires
        names_distinct(entries@),
    ensures
        r.0 == (new_score > best_of(entries_map(entries@), game_name@)),
        names_distinct(r.1@),
        r.0 ==> entries_map(r.1@) == entries_map(entries@).insert(game_name@, new_score),
        !r.0 ==> r.1@ == entries@,
{
    let mut entries = entries;
    let ghost before = entries@;
    let n = entries.len();
    let mut found: Option<usize> = None;
    let mut i: usize = 0;
    while i < n
        invariant
            n == entries@.len(),
            entries@ == before,
            i <= n,
            found matches Some(k) ==> k < n && entries@[k as int].0@ == game_name@,
            found is None ==> forall|j: int| 0 <= j < i ==> (#[trigger] entries@[j]).0@ != game_name@,
        decreases n - i,
    {
        if found.is_none() && str_eq(entries[i].0.as_str(), game_name) {
            found = Some(i);
        }
        i = i + 1;
    }
    let current_high: u32 = match found {
        Some(k) => {
            proof {
                lemma_entries_map_has(before, k as int);
            }
            entries[k].1
        },
        None => {
            proof {
                lemma_entries_map_lacks(before, game_name@);
            }
            0
        },
    };
    if new_score <= current_high {
        return (false, entries);
    }
    match found {
        Some(k) => {
            let name = entries[k].0.clone();
            entries.set(k, (name, new_score));
            proof {
                lemma_entries_map_update(before, k as int, new_score);
                assert(names_distinct(entries@)) by {
                    assert forall|a: int, b: int| 0 <= a < b < entries@.len() implies (#[trigger] entries@[a]).0@
                        != (#[trigger] entries@[b]).0@ by {
                        assert(entries@[a].0@ == before[a].0@ && entries@[b].0@ == before[b].0@);
                    }
                }
            }
        },
        None => {
            entries.push((game_name.to_string(), new_score));
            proof {
                broadcast use vstd::string::group_string_axioms;
                assert(entries@.drop_last() =~= before);
                assert(names_distinct(entries@)) by {
                    assert forall|a: int, b: int| 0 <= a < b < entries@.len() implies (#[trigger] entries@[a]).0@
                        != (#[trigger] entries@[b]).0@ by {
                        if b == before.len() {
                            assert(entries@[a] == before[a]);
                        } else {
                            assert(entries@[a] == before[a] && entries@[b] == before[b]);
                        }
                    }
                }
            }
        },
    }
    (true, entries)
}

/// Offers `new_score` for `game_name`, given the score file's text
/// (`None` when there is no file or it cannot be read). The score is a new
/// best when it beats the recorded best (0 when there is none, or when the
/// text does not read as scores); then the returned text holds the
/// recorded scores with this game's best replaced, and is to be written.
pub fn save_score(stored: Option<String>, game_name: &str, new_score: u32) -> (r: SavedScore)
    ensures
        ({
            let before = stored_scores(
                match stored {
                    Some(t) => Some(t@),
                    None => None,
                },
            );
            &&& r.new_best == (new_score > best_of(before, game_name@))
            &&& r.new_best ==> (r.contents matches Some(t) && parsed_scores(t@) == Some(
                before.insert(game_name@, new_score),
            ))
            &&& !r.new_best ==> r.contents is None
        }),
{
    let entries: Vec<(String, u32)> = match &stored {
        Some(text) => match parse_scores(text.as_str()) {
            Some(v) => v,
            None => Vec::new(),
        },
        None => Vec::new(),
    };
    assert(entries_map(entries@) == stored_scores(
        match stored {
            Some(t) => Some(t@),
            None => None,
        },
    )) by {
        if entries@.len() == 0 {
            assert(entries_map(entries@) =~= Map::<Seq<char>, u32>::empty());
        }
    }
    let (new_best, updated) = offer_score(entries, game_name, new_score);
    if new_best {
        let contents = render_scores(&updated);
        SavedScore { new_best: true, contents }
    } else {
        SavedScore { new_best: false, contents: None }
    }
}

/// What a read gives back of a write: when a score is saved as a new best,
/// the written text records exactly that score for the game and leaves
/// every other game's best as it was; the recorded best never decreases.
pub proof fn lemma_saved_best_reads_back(before: Map<Seq<char>, u32>, game: Seq<char>, score: u32, written: Seq<char>)
    requires
        score > best_of(before, game),
        parsed_scores(written) == Some(before.insert(game, score)),
    ensures
        best_of(stored_scores(Some(written)), game) == score,
        best_of(stored_scores(Some(written)), game) >= best_of(before, game),
        forall|other: Seq<char>| other != game ==> best_of(stored_scores(Some(written)), other) == best_of(before, other),
{
}

} // verus!
