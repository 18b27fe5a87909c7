//! Tests for the selection protocols: text and numeric input,
//! confirmation, command selection, and paginated list selection.

use keyprompt::command::BasicCmd;
use keyprompt::input::Key;
use keyprompt::input::NumStep;
use keyprompt::input::Step;
use keyprompt::input::TextStep;
use keyprompt::prompt::confirmation;
use keyprompt::prompt::edit_string;
use keyprompt::prompt::index_letter;
use keyprompt::prompt::input_string;
use keyprompt::prompt::input_u32;
use keyprompt::prompt::select_cmd;
use keyprompt::prompt::select_from_list;
use keyprompt::input::trim_str;
use keyprompt::Error;

fn cmd(addr: char, info: &str) -> BasicCmd {
    BasicCmd { addr, info: info.to_string() }
}

#[test]
fn input_string_trims_result() {
    let keys = vec![
        Key::Char(' '),
        Key::Char('h'),
        Key::Char('i'),
        Key::Char(' '),
        Key::Enter,
    ];
    assert_eq!(input_string(&keys), TextStep::Done("hi".to_string()));
}

#[test]
fn edit_string_keeps_old_value_on_plain_enter() {
    let keys = vec![Key::Enter];
    assert_eq!(edit_string(&keys, "old"), TextStep::Done("old".to_string()));
}

#[test]
fn input_u32_empty_fails_with_parse_error() {
    let keys = vec![Key::Enter];
    assert_eq!(input_u32(&keys), NumStep::Fail(Error::ParsingError));
}

#[test]
fn input_u32_forty_two() {
    let keys = vec![Key::Char('4'), Key::Char('2'), Key::Enter];
    assert_eq!(input_u32(&keys), NumStep::Done(42));
}

#[test]
fn confirmation_folds_uppercase_no() {
    let keys = vec![Key::Char('N')];
    assert_eq!(confirmation(&keys), Step::Done(false));
}

#[test]
fn confirmation_yes_after_ignored_letters() {
    let keys = vec![Key::Char('x'), Key::Char('7'), Key::Char('Y')];
    assert_eq!(confirmation(&keys), Step::Done(true));
}

#[test]
fn confirmation_waits_without_answer() {
    let keys = vec![Key::Char('x'), Key::Enter];
    assert_eq!(confirmation(&keys), Step::Pending);
}

#[test]
fn select_from_list_assigns_letters_in_order() {
    assert_eq!(index_letter(0), 'a');
    assert_eq!(index_letter(1), 'b');
    assert_eq!(index_letter(2), 'c');
    assert_eq!(index_letter(25), 'z');
    assert_eq!(index_letter(26), 'A');
    assert_eq!(index_letter(51), 'Z');
    let options = vec!["x".to_string(), "y".to_string(), "z".to_string()];
    let keys = vec![Key::Char('b')];
    let r = select_from_list(&keys, &options);
    assert_eq!(r, Step::Done(1));
    match r {
        Step::Done(i) => assert_eq!(options[i], "y"),
        _ => panic!("expected a selection"),
    }
}

#[test]
fn select_from_list_ignores_unassigned_letters() {
    let options = vec!["x".to_string(), "y".to_string(), "z".to_string()];
    let keys = vec![Key::Char('d'), Key::Char('1')];
    assert_eq!(select_from_list(&keys, &options), Step::Pending);
}

#[test]
fn select_cmd_matches_folded_letter() {
    let options = vec![cmd('a', "add"), cmd('b', "build")];
    let keys = vec![Key::Char('B')];
    match select_cmd(&keys, &options) {
        Step::Done(c) => {
            assert_eq!(c.addr, 'b');
            assert_eq!(c.info, "build");
        },
        _ => panic!("expected a selection"),
    }
}

#[test]
fn select_cmd_reloops_on_no_match() {
    let options = vec![cmd('a', "add")];
    let keys = vec![Key::Char('q'), Key::Char('a')];
    match select_cmd(&keys, &options) {
        Step::Done(c) => assert_eq!(c.addr, 'a'),
        _ => panic!("expected a selection"),
    }
}

#[test]
fn escape_cancels_every_protocol() {
    let esc_mid = vec![Key::Char('a'), Key::Esc];
    assert_eq!(input_string(&esc_mid), TextStep::Fail(Error::Escape));
    assert_eq!(input_u32(&esc_mid), NumStep::Fail(Error::Escape));
    assert_eq!(confirmation(&esc_mid), Step::Fail(Error::Escape));
    let options = vec!["x".to_string()];
    let esc_after_ignored = vec![Key::Char('9'), Key::Esc];
    assert_eq!(select_from_list(&esc_after_ignored, &options), Step::Fail(Error::Escape));
    let cmds = vec![cmd('q', "quit")];
    match select_cmd(&esc_mid, &cmds) {
        Step::Fail(Error::Escape) => {},
        _ => panic!("expected cancellation"),
    }
}

#[test]
fn trim_removes_surrounding_whitespace() {
    assert_eq!(trim_str("  hi\t"), "hi");
    assert_eq!(trim_str("hi"), "hi");
    assert_eq!(trim_str(" \t\r\n"), "");
    assert_eq!(trim_str("a b"), "a b");
    assert_eq!(trim_str("\u{a0}hi\u{2003}"), "hi");
    assert_eq!(trim_str("\u{3000}x"), "x");
}
