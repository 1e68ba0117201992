use sorb::easter_eggs::engine::scores::{offer_score, save_score};
use sorb::easter_eggs::games::flappy::{difficulty_for, gap_size_halves, pipe_speed_tenths};
use sorb::easter_eggs::engine::game::Difficulty;

/// The scores a text records, sorted by name.
fn read(text: &str) -> Vec<(String, u32)> {
    let map: std::collections::HashMap<String, u32> = serde_json::from_str(text).expect("scores");
    let mut v: Vec<(String, u32)> = map.into_iter().collect();
    v.sort();
    v
}

#[test]
fn a_first_score_is_a_new_best() {
    let r = save_score(None, "Snake", 30);
    assert!(r.new_best);
    assert_eq!(read(&r.contents.expect("written")), vec![("Snake".to_string(), 30)]);
}

#[test]
fn zero_never_beats_the_default() {
    let r = save_score(None, "Snake", 0);
    assert!(!r.new_best);
    assert!(r.contents.is_none());
}

#[test]
fn a_better_score_replaces_only_its_game() {
    let stored = "{\"Snake\": 40, \"Tetris\": 900}".to_string();
    let r = save_score(Some(stored), "Snake", 41);
    assert!(r.new_best);
    assert_eq!(
        read(&r.contents.expect("written")),
        vec![("Snake".to_string(), 41), ("Tetris".to_string(), 900)]
    );
}

#[test]
fn a_new_game_is_added() {
    let stored = "{\"Tetris\": 900}".to_string();
    let r = save_score(Some(stored), "Flappy Bird", 3);
    assert!(r.new_best);
    assert_eq!(
        read(&r.contents.expect("written")),
        vec![("Flappy Bird".to_string(), 3), ("Tetris".to_string(), 900)]
    );
}

#[test]
fn an_equal_or_lower_score_is_not_written() {
    let stored = "{\"Snake\": 40}".to_string();
    let r = save_score(Some(stored.clone()), "Snake", 40);
    assert!(!r.new_best);
    assert!(r.contents.is_none());
    let r = save_score(Some(stored), "Snake", 7);
    assert!(!r.new_best);
}

#[test]
fn an_unreadable_file_counts_as_no_scores() {
    let r = save_score(Some("not json".to_string()), "Snake", 5);
    assert!(r.new_best);
    assert_eq!(read(&r.contents.expect("written")), vec![("Snake".to_string(), 5)]);
    let r = save_score(Some("{\"Snake\": -1}".to_string()), "Snake", 1);
    assert!(r.new_best);
    assert_eq!(read(&r.contents.expect("written")), vec![("Snake".to_string(), 1)]);
}

#[test]
fn the_written_text_is_pretty_json() {
    let r = save_score(None, "Tetris", 100);
    assert_eq!(r.contents.expect("written"), "{\n  \"Tetris\": 100\n}");
}

#[test]
fn flappy_difficulty_follows_the_score() {
    assert_eq!(difficulty_for(0), Difficulty::Easy);
    assert_eq!(difficulty_for(9), Difficulty::Easy);
    assert_eq!(difficulty_for(10), Difficulty::Medium);
    assert_eq!(difficulty_for(19), Difficulty::Medium);
    assert_eq!(difficulty_for(20), Difficulty::Hard);
    assert_eq!(difficulty_for(29), Difficulty::Hard);
    assert_eq!(difficulty_for(30), Difficulty::Expert);
    assert_eq!(difficulty_for(u32::MAX), Difficulty::Expert);
}

#[test]
fn flappy_pipes_speed_up_and_gaps_narrow() {
    let speeds: Vec<u32> = [0, 4, 5, 9, 10, 14, 15, 19, 20, 29, 30].iter().map(|s| pipe_speed_tenths(*s)).collect();
    assert_eq!(speeds, vec![5, 5, 6, 6, 7, 7, 8, 8, 9, 9, 10]);
    let gaps: Vec<u32> = [0, 9, 10, 19, 20, 29, 30, 1000].iter().map(|s| gap_size_halves(*s)).collect();
    assert_eq!(gaps, vec![12, 12, 11, 11, 10, 10, 9, 9]);
}

fn entries(list: &[(&str, u32)]) -> Vec<(String, u32)> {
    list.iter().map(|(n, s)| (n.to_string(), *s)).collect()
}

#[test]
fn offering_a_better_score_replaces_the_entry() {
    let (best, after) = offer_score(entries(&[("Snake", 40), ("Tetris", 900)]), "Snake", 41);
    assert!(best);
    assert_eq!(after, entries(&[("Snake", 41), ("Tetris", 900)]));
}

#[test]
fn offering_a_score_for_a_new_game_adds_it() {
    let (best, after) = offer_score(entries(&[("Tetris", 900)]), "Dino", 12);
    assert!(best);
    assert_eq!(after, entries(&[("Tetris", 900), ("Dino", 12)]));
}

#[test]
fn offering_a_lower_score_changes_nothing() {
    let (best, after) = offer_score(entries(&[("Snake", 40)]), "Snake", 40);
    assert!(!best);
    assert_eq!(after, entries(&[("Snake", 40)]));
    let (best, after) = offer_score(Vec::new(), "Snake", 0);
    assert!(!best);
    assert!(after.is_empty());
}
