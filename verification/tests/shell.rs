use sorb::shell::complete::{command_names, completion_target, is_space, matching_commands, starts_with, CompletionTarget};
use sorb::easter_eggs::GameKind;
use sorb::shell::builtins::{builtin_for, Builtin, CdTarget};
use sorb::shell::{command_for, plan_line, prompt, Command, SplitError};

fn words(ws: &[&str]) -> Vec<String> {
    ws.iter().map(|w| w.to_string()).collect()
}

#[test]
fn no_words_run_nothing() {
    assert_eq!(command_for(Vec::new()), None);
}

#[test]
fn cd_alone_goes_home() {
    assert_eq!(command_for(words(&["cd"])), Some(Command::Builtin(Builtin::Cd(CdTarget::Home))));
    assert_eq!(command_for(words(&["cd", "~"])), Some(Command::Builtin(Builtin::Cd(CdTarget::Home))));
}

#[test]
fn cd_to_a_path() {
    assert_eq!(
        command_for(words(&["cd", "/tmp", "extra"])),
        Some(Command::Builtin(Builtin::Cd(CdTarget::Path("/tmp".to_string()))))
    );
}

#[test]
fn exit_is_built_in() {
    assert_eq!(command_for(words(&["exit", "3"])), Some(Command::Builtin(Builtin::Exit)));
}

#[test]
fn secret_commands_launch_games() {
    assert_eq!(command_for(words(&["sorb-snake"])), Some(Command::Game(GameKind::Snake)));
    assert_eq!(command_for(words(&["sorb-invaders", "x"])), Some(Command::Game(GameKind::Invaders)));
}

#[test]
fn other_words_run_a_program() {
    assert_eq!(
        command_for(words(&["ls", "-la", "src"])),
        Some(Command::External { program: "ls".to_string(), args: words(&["-la", "src"]) })
    );
}

#[test]
fn builtin_for_knows_only_cd_and_exit() {
    assert_eq!(builtin_for("cd", &[]), Some(Builtin::Cd(CdTarget::Home)));
    assert_eq!(builtin_for("exit", &[]), Some(Builtin::Exit));
    assert_eq!(builtin_for("echo", &words(&["hi"])), None);
    assert_eq!(builtin_for("CD", &[]), None);
}

#[test]
fn blank_lines_are_ignored() {
    assert!(plan_line("").is_none());
    assert!(plan_line("   \t  ").is_none());
}

#[test]
fn a_line_is_trimmed_and_split_with_quotes() {
    let entered = plan_line("  echo 'a b' \"c\\\"d\" e  ").expect("not blank");
    assert_eq!(entered.history, "echo 'a b' \"c\\\"d\" e");
    assert_eq!(
        entered.outcome,
        Ok(Some(Command::External { program: "echo".to_string(), args: words(&["a b", "c\"d", "e"]) }))
    );
}

#[test]
fn a_quoted_game_name_still_launches() {
    let entered = plan_line("'sorb-tetris'").expect("not blank");
    assert_eq!(entered.outcome, Ok(Some(Command::Game(GameKind::Tetris))));
}

#[test]
fn an_unclosed_quote_is_an_error() {
    let entered = plan_line("echo 'oops").expect("not blank");
    assert_eq!(entered.history, "echo 'oops");
    assert_eq!(entered.outcome, Err(SplitError::MissingClosingQuote));
    assert_eq!(SplitError::MissingClosingQuote.message(), "missing closing quote");
}

#[test]
fn empty_quotes_make_an_empty_word() {
    let entered = plan_line("''").expect("not blank");
    assert_eq!(
        entered.outcome,
        Ok(Some(Command::External { program: String::new(), args: Vec::new() }))
    );
}

#[test]
fn prompt_shows_the_directory() {
    assert_eq!(prompt(Some("/home/me")), "\x1b[36msorb:\x1b[32m/home/me\x1b[0m $ ");
    assert_eq!(prompt(None), "\x1b[36msorb\x1b[0m $ ");
}

#[test]
fn completion_on_the_first_word_completes_commands() {
    assert_eq!(completion_target(""), CompletionTarget::Command { prefix: String::new() });
    assert_eq!(completion_target("  sorb-s"), CompletionTarget::Command { prefix: "sorb-s".to_string() });
    assert_eq!(completion_target("cd "), CompletionTarget::Argument);
    assert_eq!(completion_target("ls -la sr"), CompletionTarget::Argument);
    assert_eq!(completion_target("\tex"), CompletionTarget::Command { prefix: "ex".to_string() });
}

#[test]
fn matching_commands_keep_order_and_drop_repeats() {
    let mut candidates = command_names();
    candidates.extend(words(&["sort", "sorb-snake", "ssh", "cdrecord"]));
    assert_eq!(matching_commands("sorb-s", &candidates), words(&["sorb-snake"]));
    assert_eq!(matching_commands("cd", &candidates), words(&["cd", "cdrecord"]));
    assert_eq!(matching_commands("so", &candidates).len(), 7);
    assert_eq!(matching_commands("zzz", &candidates), Vec::<String>::new());
    assert_eq!(matching_commands("", &words(&["b", "a", "b"])), words(&["b", "a"]));
}

#[test]
fn starts_with_compares_characters() {
    assert!(starts_with("sorb-tetris", "sorb-t"));
    assert!(starts_with("abc", ""));
    assert!(!starts_with("ab", "abc"));
    assert!(!starts_with("éa", "e"));
    assert!(is_space('\u{3000}'));
    assert!(is_space('\n'));
    assert!(!is_space('x'));
    assert!(!is_space('\u{200b}'));
}

#[test]
fn trim_drops_white_space_at_both_ends() {
    assert_eq!(sorb::text::trim("  a b \t\n"), "a b");
    assert_eq!(sorb::text::trim("\u{3000}x\u{a0}"), "x");
    assert_eq!(sorb::text::trim(" \t "), "");
    assert_eq!(sorb::text::trim(""), "");
    assert_eq!(sorb::text::trim("\u{200b}y"), "\u{200b}y");
}
