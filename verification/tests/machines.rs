//! Tests for the keystroke state machine: text, digit, and single-letter
//! accumulation over batches of key events.

use keyprompt::input::fold_char;
use keyprompt::input::parse_digits;
use keyprompt::input::process_event;
use keyprompt::input::u32_to_string;
use keyprompt::input::wait_for_cmdchar;
use keyprompt::input::wait_for_string;
use keyprompt::input::wait_for_u32;
use keyprompt::input::Key;
use keyprompt::input::NumStep;
use keyprompt::input::Step;
use keyprompt::input::TextStep;
use keyprompt::Error;

fn chars(s: &str) -> Vec<Key> {
    s.chars().map(Key::Char).collect()
}

#[test]
fn text_chars_then_enter() {
    let mut keys = chars("hi");
    keys.push(Key::Enter);
    let r = wait_for_string(&keys, "");
    assert_eq!(r, TextStep::Done("hi".to_string()));
}

#[test]
fn text_enter_trims_accumulator() {
    let keys = vec![Key::Char(' '), Key::Char('a'), Key::Char(' '), Key::Enter];
    assert_eq!(wait_for_string(&keys, ""), TextStep::Done("a".to_string()));
}

#[test]
fn text_pending_accumulator_is_untrimmed() {
    let keys = vec![Key::Char(' '), Key::Char('a')];
    assert_eq!(wait_for_string(&keys, ""), TextStep::Pending(" a".to_string()));
}

#[test]
fn text_enter_on_empty_keeps_waiting() {
    let keys = vec![Key::Enter];
    let r = wait_for_string(&keys, "");
    assert_eq!(r, TextStep::Pending(String::new()));
}

#[test]
fn text_backspace_on_empty_is_noop() {
    let keys = vec![Key::Backspace];
    let r = wait_for_string(&keys, "");
    assert_eq!(r, TextStep::Pending(String::new()));
}

#[test]
fn text_backspace_edits() {
    let keys = vec![Key::Char('a'), Key::Char('b'), Key::Backspace, Key::Enter];
    let r = wait_for_string(&keys, "");
    assert_eq!(r, TextStep::Done("a".to_string()));
}

#[test]
fn text_seeded_with_old_value() {
    let keys = vec![Key::Enter];
    let r = wait_for_string(&keys, "old");
    assert_eq!(r, TextStep::Done("old".to_string()));
}

#[test]
fn text_ignores_other_keys() {
    let keys = vec![Key::Other, Key::Char('x'), Key::Other, Key::Enter];
    let r = wait_for_string(&keys, "");
    assert_eq!(r, TextStep::Done("x".to_string()));
}

#[test]
fn text_escape_cancels() {
    let keys = vec![Key::Char('a'), Key::Esc, Key::Enter];
    let r = wait_for_string(&keys, "");
    assert_eq!(r, TextStep::Fail(Error::Escape));
}

#[test]
fn digits_empty_enter_is_parse_error() {
    let keys = vec![Key::Enter];
    let r = wait_for_u32(&keys, None);
    assert_eq!(r, NumStep::Fail(Error::ParsingError));
}

#[test]
fn digits_forty_two() {
    let keys = vec![Key::Char('4'), Key::Char('2'), Key::Enter];
    let r = wait_for_u32(&keys, None);
    assert_eq!(r, NumStep::Done(42));
}

#[test]
fn digits_filter_non_digits() {
    let keys = vec![Key::Char('x'), Key::Char('4'), Key::Char('!'), Key::Enter];
    let r = wait_for_u32(&keys, None);
    assert_eq!(r, NumStep::Done(4));
}

#[test]
fn digits_seeded_with_old_value() {
    let keys = vec![Key::Enter];
    let r = wait_for_u32(&keys, Some(42));
    assert_eq!(r, NumStep::Done(42));
}

#[test]
fn digits_backspace_on_empty_is_noop() {
    let keys = vec![Key::Backspace, Key::Char('7'), Key::Enter];
    let r = wait_for_u32(&keys, None);
    assert_eq!(r, NumStep::Done(7));
}

#[test]
fn digits_overflow_is_parse_error() {
    let mut keys = chars("4294967296");
    keys.push(Key::Enter);
    let r = wait_for_u32(&keys, None);
    assert_eq!(r, NumStep::Fail(Error::ParsingError));
}

#[test]
fn digits_max_value_parses() {
    let mut keys = chars("4294967295");
    keys.push(Key::Enter);
    let r = wait_for_u32(&keys, None);
    assert_eq!(r, NumStep::Done(u32::MAX));
}

#[test]
fn digits_escape_cancels() {
    let keys = vec![Key::Char('1'), Key::Esc, Key::Enter];
    let r = wait_for_u32(&keys, None);
    assert_eq!(r, NumStep::Fail(Error::Escape));
}

#[test]
fn cmdchar_folds_uppercase() {
    let keys = vec![Key::Char('!'), Key::Other, Key::Char('N')];
    let r = wait_for_cmdchar(&keys);
    assert_eq!(r, Step::Done('n'));
}

#[test]
fn cmdchar_escape_cancels() {
    let keys = vec![Key::Char('1'), Key::Esc];
    let r = wait_for_cmdchar(&keys);
    assert_eq!(r, Step::Fail(Error::Escape));
}

#[test]
fn cmdchar_waits_without_letter() {
    let keys = vec![Key::Char('1'), Key::Enter, Key::Backspace];
    let r = wait_for_cmdchar(&keys);
    assert_eq!(r, Step::Pending);
}

#[test]
fn fold_char_cases() {
    assert_eq!(fold_char('N'), 'n');
    assert_eq!(fold_char('A'), 'a');
    assert_eq!(fold_char('z'), 'z');
    assert_eq!(fold_char('!'), '!');
}

#[test]
fn process_event_classifies() {
    assert_eq!(process_event(&Key::Char('N')), Ok(Some('n')));
    assert_eq!(process_event(&Key::Char('q')), Ok(Some('q')));
    assert_eq!(process_event(&Key::Char('5')), Ok(Some('5')));
    assert_eq!(process_event(&Key::Char('!')), Ok(None));
    assert_eq!(process_event(&Key::Enter), Ok(None));
    assert_eq!(process_event(&Key::Backspace), Ok(None));
    assert_eq!(process_event(&Key::Esc), Err(Error::Escape));
}

#[test]
fn u32_renders_as_decimal() {
    assert_eq!(u32_to_string(0), "0");
    assert_eq!(u32_to_string(42), "42");
    assert_eq!(u32_to_string(4294967295), "4294967295");
}

#[test]
fn parse_digits_exact() {
    assert_eq!(parse_digits("12345"), Ok(12345));
    assert_eq!(parse_digits(""), Err(Error::ParsingError));
    assert_eq!(parse_digits("12a"), Err(Error::ParsingError));
    assert_eq!(parse_digits("4294967296"), Err(Error::ParsingError));
}
