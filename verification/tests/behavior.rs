use matchpick::machine::TransitionError;
use matchpick::process;

const ENTER_PAT: &str = "~>>>";
const EXIT_PAT: &str = "~<<<";

fn run(input: &str, targets: &[&str]) -> Result<String, matchpick::machine::MatchError> {
    let targets: Vec<String> = targets.iter().map(|t| (*t).to_owned()).collect();
    process(input, targets, ENTER_PAT, EXIT_PAT, None)
}

#[test]
fn empty_input() {
    assert_eq!(run("", &[]).unwrap(), "");
}

#[test]
fn no_block_passthrough() {
    assert_eq!(run("a\nb\nc", &["x"]).unwrap(), "a\nb\nc");
}

#[test]
fn trailing_newline_dropped() {
    assert_eq!(run("a\nb\n", &[]).unwrap(), "a\nb");
}

#[test]
fn crlf_line_endings() {
    assert_eq!(run("a\r\nb\r\n", &[]).unwrap(), "a\nb");
}

#[test]
fn lone_carriage_return_kept() {
    assert_eq!(run("a\rb", &[]).unwrap(), "a\rb");
}

#[test]
fn default_block_selected_without_targets() {
    let input = "a\n~>>>\nd1\nd2\n~>>> x\nbody\n~<<<\nz";
    assert_eq!(run(input, &[]).unwrap(), "a\nd1\nd2\nz");
}

#[test]
fn default_block_selected_when_nothing_matches() {
    let input = "a\n~>>>\nd1\nd2\n~>>> x\nbody\n~<<<\nz";
    assert_eq!(run(input, &["zzz"]).unwrap(), "a\nd1\nd2\nz");
}

#[test]
fn empty_default_block_still_emits_one_empty_line() {
    let input = "a\n~>>>\n~>>> x\nbody\n~<<<\nc";
    assert_eq!(run(input, &[]).unwrap(), "a\n\nc");
}

#[test]
fn first_match_wins_over_second_matching_case() {
    let input = "~>>>\nd\n~>>> t\nfirst\n~>>> t other\nsecond\n~<<<";
    assert_eq!(run(input, &["t"]).unwrap(), "first");
}

#[test]
fn label_tokens_split_on_whitespace_runs() {
    let input = "~>>>\nd\n~>>>   a\tb  \nbody\n~<<<";
    assert_eq!(run(input, &["b"]).unwrap(), "body");
    assert_eq!(run(input, &["a"]).unwrap(), "body");
    assert_eq!(run(input, &["ab"]).unwrap(), "d");
}

#[test]
fn enter_pattern_takes_priority_over_exit_pattern() {
    // the third line holds both patterns: it is a Switch, not an Exit
    let input = "~>>>\nd\n~>>> ~<<<\n~<<<";
    assert_eq!(run(input, &[]).unwrap(), "d");
}

#[test]
fn two_blocks_in_one_text() {
    let input = "a\n~>>>\nd1\n~>>> x\nb1\n~<<<\nmid\n~>>>\nd2\n~>>> x\nb2\n~<<<\nz";
    assert_eq!(run(input, &["x"]).unwrap(), "a\nb1\nmid\nb2\nz");
    assert_eq!(run(input, &[]).unwrap(), "a\nd1\nmid\nd2\nz");
}

#[test]
fn idempotent_on_reduced_text() {
    let input = "start\n~>>>\ndefault\n~>>> eggs\nfoo\n~<<<\nend";
    let once = run(input, &["eggs"]).unwrap();
    assert_eq!(once, "start\nfoo\nend");
    let twice = run(&once, &["eggs"]).unwrap();
    assert_eq!(twice, once);
}

#[test]
fn ignore_pattern_suppresses_structural_lines() {
    let input = "~>>>\nd\n~>>> t ###\nbody\n~<<< ###\n~>>> t\nreal\n~<<<";
    let targets = vec!["t".to_owned()];
    let out = process(input, targets, ENTER_PAT, EXIT_PAT, Some("###".to_owned())).unwrap();
    // the marked switch and exit lines count as content of the default case
    assert_eq!(out, "real");
}

#[test]
fn error_switch_in_normal() {
    let e = run("a\n~>>> x\nb", &[]).unwrap_err();
    assert_eq!(e.line, 2);
    assert_eq!(e.kind, TransitionError::SwitchInNormal);
    assert_eq!(e.kind.message(), "cannot start new case: need default first");
}

#[test]
fn error_exit_in_normal() {
    let e = run("a\n~<<<", &[]).unwrap_err();
    assert_eq!(e.line, 2);
    assert_eq!(e.kind, TransitionError::ExitInNormal);
    assert_eq!(e.kind.message(), "cannot end match: not in match");
}

#[test]
fn error_enter_in_default() {
    let e = run("~>>>\nd\n~>>>", &[]).unwrap_err();
    assert_eq!(e.line, 3);
    assert_eq!(e.kind, TransitionError::EnterInDefault);
    assert_eq!(
        e.kind.message(),
        "cannot start new match: in default of previous match"
    );
}

#[test]
fn error_exit_in_default() {
    let e = run("~>>>\nd\n~<<<", &[]).unwrap_err();
    assert_eq!(e.line, 3);
    assert_eq!(e.kind, TransitionError::ExitInDefault);
    assert_eq!(e.kind.message(), "ended match without alternatives");
}

#[test]
fn error_enter_in_other() {
    let e = run("~>>>\nd\n~>>> b\n~>>>", &["a"]).unwrap_err();
    assert_eq!(e.line, 4);
    assert_eq!(e.kind, TransitionError::EnterInOther);
    assert_eq!(
        e.kind.message(),
        "cannot start new match: switching previous match"
    );
}

#[test]
fn error_enter_in_matched() {
    let e = run("~>>>\nd\n~>>> a\n~>>>", &["a"]).unwrap_err();
    assert_eq!(e.line, 4);
    assert_eq!(e.kind, TransitionError::EnterInMatched);
    assert_eq!(
        e.kind.message(),
        "cannot start new match: in matched case of previous match"
    );
}

#[test]
fn error_enter_in_done() {
    let e = run("~>>>\nd\n~>>> a\n~>>>", &[]).unwrap_err();
    assert_eq!(e.line, 4);
    assert_eq!(e.kind, TransitionError::EnterInDone);
    assert_eq!(
        e.kind.message(),
        "cannot start new match: no exit of previous match"
    );
}

#[test]
fn error_aborts_whole_call_without_partial_output() {
    // valid output would already have been produced before the bad line
    let e = run("kept\n~>>> x\n", &[]).unwrap_err();
    assert_eq!(e.line, 2);
    assert_eq!(e.kind, TransitionError::SwitchInNormal);
}

#[test]
fn empty_enter_pattern_makes_every_line_structural() {
    // every line splits on the empty pattern at position zero
    let e = process("plain", Vec::new(), "", EXIT_PAT, None).unwrap_err();
    assert_eq!(e.line, 1);
    assert_eq!(e.kind, TransitionError::SwitchInNormal);
}
