//! The keystroke state machine: shared character normalization and the
//! accumulators that assemble raw key-press events into completed inputs.
//!
//! Every operation is specified against a recursive machine over a
//! sequence of [`Key`] events, so that the blocking host loop (which feeds
//! one event at a time through the `*_step` functions) and batch
//! processing (the `wait_for_*` functions) obey exactly the same rules.

use vstd::prelude::*;

use crate::Error;

verus! {

/// One discrete key-press event, as delivered by the host's event source.
///
/// Only the information this engine acts on is carried: a printable
/// character, the Enter / Escape / Backspace signals, or `Other` for any
/// key the engine uniformly ignores.
#[derive(Clone, Copy, Debug, PartialEq, Eq, Structural)]
pub enum Key {
    Char(char),
    Enter,
    Esc,
    Backspace,
    Other,
}

/// Outcome of feeding events to an accumulating machine whose in-progress
/// state is a sequence of characters.
pub enum TextModel {
    Done(Seq<char>),
    Fail(Error),
    Pending(Seq<char>),
}

/// Outcome of feeding events to the digit machine.
pub enum NumModel {
    Done(u32),
    Fail(Error),
    Pending(Seq<char>),
}

/// Outcome of a protocol that either finishes with a value, fails with an
/// error, or is still waiting for more events.
#[derive(Debug, PartialEq, Eq)]
pub enum Step<T> {
    Done(T),
    Fail(Error),
    Pending,
}

/// Result of text accumulation over a finite batch of events; `Pending`
/// carries the accumulator to resume from.
#[derive(Debug, PartialEq, Eq)]
pub enum TextStep {
    Done(String),
    Fail(Error),
    Pending(String),
}

impl View for TextStep {
    type V = TextModel;

    open spec fn view(&self) -> TextModel {
        match self {
            TextStep::Done(s) => TextModel::Done(s@),
            TextStep::Fail(e) => TextModel::Fail(*e),
            TextStep::Pending(s) => TextModel::Pending(s@),
        }
    }
}

/// Result of digit accumulation over a finite batch of events.
#[derive(Debug, PartialEq, Eq)]
pub enum NumStep {
    Done(u32),
    Fail(Error),
    Pending(String),
}

impl View for NumStep {
    type V = NumModel;

    open spec fn view(&self) -> NumModel {
        match self {
            NumStep::Done(n) => NumModel::Done(*n),
            NumStep::Fail(e) => NumModel::Fail(*e),
            NumStep::Pending(s) => NumModel::Pending(s@),
        }
    }
}

/// `c` is an ASCII lowercase letter `a..z`.
pub open spec fn is_lower(c: char) -> bool {
    'a' as u32 <= c as u32 && c as u32 <= 'z' as u32
}

/// `c` is an ASCII uppercase letter `A..Z`.
pub open spec fn is_upper(c: char) -> bool {
    'A' as u32 <= c as u32 && c as u32 <= 'Z' as u32
}

/// `c` is an ASCII decimal digit `0..9`.
pub open spec fn is_digit(c: char) -> bool {
    '0' as u32 <= c as u32 && c as u32 <= '9' as u32
}

/// Case folding applied by every selection protocol: uppercase ASCII
/// letters fold to their lowercase counterpart, everything else is kept.
pub open spec fn to_lower(c: char) -> char {
    if is_upper(c) {
        (c as u32 + 32) as char
    } else {
        c
    }
}

/// Folds an uppercase ASCII letter to lowercase.
pub fn fold_char(c: char) -> (r: char)
    ensures
        r == to_lower(c),
{
    let u = c as u32;
    if 'A' as u32 <= u && u <= 'Z' as u32 {
        let b: u8 = c as u8;
        let l: char = (b + 32) as char;
        proof {
            vstd::utf8::char_u32_cast(c, u);
        }
        l
    } else {
        c
    }
}

/// The shared normalization rule for one already-received event: the
/// normalized letter or digit, `None` for any other non-Escape key, or
/// the cancellation signal on Escape.
pub open spec fn classify(k: Key) -> Result<Option<char>, Error> {
    match k {
        Key::Esc => Err(Error::Escape),
        Key::Char(c) => if is_lower(c) || is_digit(c) {
            Ok(Some(c))
        } else if is_upper(c) {
            Ok(Some(to_lower(c)))
        } else {
            Ok(None)
        },
        _ => Ok(None),
    }
}

/// Classifies one event: letters are case-folded, digits pass through,
/// Escape cancels, everything else yields no classification.
pub fn process_event(k: &Key) -> (r: Result<Option<char>, Error>)
    ensures
        r == classify(*k),
{
    match k {
        Key::Esc => Err(Error::Escape),
        Key::Char(c) => {
            let u = *c as u32;
            if ('a' as u32 <= u && u <= 'z' as u32) || ('0' as u32 <= u && u <= '9' as u32) {
                Ok(Some(*c))
            } else if 'A' as u32 <= u && u <= 'Z' as u32 {
                Ok(Some(fold_char(*c)))
            } else {
                Ok(None)
            }
        },
        _ => Ok(None),
    }
}

/// The text accumulation machine.  Any character is appended, Backspace
/// deletes the last character if there is one, Enter finishes only once
/// the accumulator is non-empty, Escape cancels, other keys are ignored.
pub open spec fn text_machine(acc: Seq<char>, keys: Seq<Key>) -> TextModel
    decreases keys.len(),
{
    if keys.len() == 0 {
        TextModel::Pending(acc)
    } else {
        let rest = keys.drop_first();
        match keys[0] {
            Key::Char(c) => text_machine(acc.push(c), rest),
            Key::Enter => if acc.len() > 0 {
                TextModel::Done(acc)
            } else {
                text_machine(acc, rest)
            },
            Key::Esc => TextModel::Fail(Error::Escape),
            Key::Backspace => text_machine(
                if acc.len() > 0 {
                    acc.drop_last()
                } else {
                    acc
                },
                rest,
            ),
            Key::Other => text_machine(acc, rest),
        }
    }
}

/// The numeric value of a digit character.
pub open spec fn digit_val(c: char) -> nat {
    if is_digit(c) {
        (c as u32 - '0' as u32) as nat
    } else {
        0
    }
}

/// Every character of `s` is an ASCII digit.
pub open spec fn all_digits(s: Seq<char>) -> bool {
    forall|i: int| 0 <= i < s.len() ==> is_digit(#[trigger] s[i])
}

/// The unsigned value denoted by a digit string, most significant first.
pub open spec fn digits_val(s: Seq<char>) -> nat
    decreases s.len(),
{
    if s.len() == 0 {
        0
    } else {
        digits_val(s.drop_last()) * 10 + digit_val(s.last())
    }
}

/// `s` is a digit string that denotes a value representable as `u32`.
pub open spec fn valid_u32_digits(s: Seq<char>) -> bool {
    s.len() > 0 && all_digits(s) && digits_val(s) <= u32::MAX
}

/// The digit accumulation machine.  Only digit characters are appended;
/// Enter always finishes, parsing the accumulator and failing on an
/// empty or overflowing digit string.
pub open spec fn num_machine(acc: Seq<char>, keys: Seq<Key>) -> NumModel
    decreases keys.len(),
{
    if keys.len() == 0 {
        NumModel::Pending(acc)
    } else {
        let rest = keys.drop_first();
        match keys[0] {
            Key::Char(c) => num_machine(
                if is_digit(c) {
                    acc.push(c)
                } else {
                    acc
                },
                rest,
            ),
            Key::Enter => if valid_u32_digits(acc) {
                NumModel::Done(digits_val(acc) as u32)
            } else {
                NumModel::Fail(Error::ParsingError)
            },
            Key::Esc => NumModel::Fail(Error::Escape),
            Key::Backspace => num_machine(
                if acc.len() > 0 {
                    acc.drop_last()
                } else {
                    acc
                },
                rest,
            ),
            Key::Other => num_machine(acc, rest),
        }
    }
}

/// The single-letter machine: the first letter key finishes immediately
/// with its lowercase form; Escape cancels; everything else is ignored.
pub open spec fn char_machine(keys: Seq<Key>) -> Step<char>
    decreases keys.len(),
{
    if keys.len() == 0 {
        Step::Pending
    } else {
        let rest = keys.drop_first();
        match keys[0] {
            Key::Char(c) => if is_lower(c) || is_upper(c) {
                Step::Done(to_lower(c))
            } else {
                char_machine(rest)
            },
            Key::Esc => Step::Fail(Error::Escape),
            _ => char_machine(rest),
        }
    }
}

/// `c` has the Unicode white-space property, the set `str::trim` strips.
pub open spec fn is_space(c: char) -> bool {
    (9 <= c as u32 && c as u32 <= 13) || c as u32 == 0x20 || c as u32 == 0x85 || (c as u32)
        == 0xA0 || c as u32 == 0x1680 || (0x2000 <= c as u32 && c as u32 <= 0x200A) || (c as u32)
        == 0x2028 || c as u32 == 0x2029 || c as u32 == 0x202F || c as u32 == 0x205F || (c as u32)
        == 0x3000
}

/// `s` without its leading whitespace.
pub open spec fn trim_start(s: Seq<char>) -> Seq<char>
    decreases s.len(),
{
    if s.len() > 0 && is_space(s[0]) {
        trim_start(s.drop_first())
    } else {
        s
    }
}

/// `s` without its trailing whitespace.
pub open spec fn trim_end(s: Seq<char>) -> Seq<char>
    decreases s.len(),
{
    if s.len() > 0 && is_space(s.last()) {
        trim_end(s.drop_last())
    } else {
        s
    }
}

/// `s` without leading and trailing whitespace.
pub open spec fn trimmed(s: Seq<char>) -> Seq<char> {
    trim_end(trim_start(s))
}

/// Decides whether `c` is trimmed whitespace.
fn is_space_char(c: char) -> (r: bool)
    ensures
        r == is_space(c),
{
    let u = c as u32;
    (9 <= u && u <= 13) || u == 0x20 || u == 0x85 || u == 0xA0 || u == 0x1680 || (0x2000 <= u && u
        <= 0x200A) || u == 0x2028 || u == 0x2029 || u == 0x202F || u == 0x205F || u == 0x3000
}

/// Dropping leading whitespace reaches the first non-space index.
proof fn lemma_trim_start_at(s: Seq<char>, l: int)
    requires
        0 <= l <= s.len(),
        forall|k: int| 0 <= k < l ==> is_space(#[trigger] s[k]),
        l < s.len() ==> !is_space(s[l]),
    ensures
        trim_start(s) == s.skip(l),
    decreases l,
{
    if l == 0 {
        assert(s.skip(0) =~= s);
    } else {
        assert(is_space(s[0]));
        assert forall|k: int| 0 <= k < l - 1 implies is_space(#[trigger] s.drop_first()[k]) by {
            assert(s.drop_first()[k] == s[k + 1]);
        }
        assert(l - 1 < s.drop_first().len() ==> !is_space(s.drop_first()[l - 1]));
        lemma_trim_start_at(s.drop_first(), l - 1);
        assert(s.drop_first().skip(l - 1) =~= s.skip(l));
    }
}

/// Dropping trailing whitespace reaches the last non-space index.
proof fn lemma_trim_end_at(s: Seq<char>, h: int)
    requires
        0 <= h <= s.len(),
        h > 0 ==> !is_space(s[h - 1]),
        forall|k: int| h <= k < s.len() ==> is_space(#[trigger] s[k]),
    ensures
        trim_end(s) == s.take(h),
    decreases s.len(),
{
    if h == s.len() {
        if s.len() == 0 || !is_space(s.last()) {
            assert(s.take(h) =~= s);
        } else {
            assert(!is_space(s[h - 1]));
            assert(false);
        }
    } else {
        assert(is_space(s.last()));
        assert forall|k: int| h <= k < s.drop_last().len() implies is_space(
            #[trigger] s.drop_last()[k],
        ) by {
            assert(s.drop_last()[k] == s[k]);
        }
        lemma_trim_end_at(s.drop_last(), h);
        assert(s.drop_last().take(h) =~= s.take(h));
    }
}

/// Returns `s` with surrounding whitespace removed.
pub fn trim_str(s: &str) -> (r: String)
    ensures
        r@ == trimmed(s@),
{
    let n = s.unicode_len();
    let mut lo: usize = 0;
    while lo < n && is_space_char(s.get_char(lo))
        invariant
            n == s@.len(),
            lo <= n,
            forall|k: int| 0 <= k < lo ==> is_space(#[trigger] s@[k]),
        decreases n - lo,
    {
        lo += 1;
    }
    if lo == n {
        proof {
            lemma_trim_start_at(s@, n as int);
            assert(s@.skip(n as int) =~= Seq::<char>::empty());
            lemma_trim_end_at(Seq::<char>::empty(), 0);
            assert(Seq::<char>::empty().take(0) =~= Seq::<char>::empty());
        }
        return String::new();
    }
    proof {
        lemma_trim_start_at(s@, lo as int);
    }
    let mut hi: usize = n;
    while hi > lo + 1 && is_space_char(s.get_char(hi - 1))
        invariant
            n == s@.len(),
            lo < hi <= n,
            !is_space(s@[lo as int]),
            forall|k: int| hi <= k < n ==> is_space(#[trigger] s@[k]),
        decreases hi,
    {
        hi -= 1;
    }
    proof {
        let u = s@.skip(lo as int);
        let h = hi - lo as int;
        assert(u.len() == n - lo);
        assert(!is_space(u[h - 1])) by {
            assert(u[h - 1] == s@[hi - 1]);
        }
        assert forall|k: int| h <= k < u.len() implies is_space(#[trigger] u[k]) by {
            assert(u[k] == s@[k + lo]);
        }
        lemma_trim_end_at(u, h);
        assert(u.take(h) =~= s@.subrange(lo as int, hi as int));
    }
    let t = s.substring_char(lo, hi);
    t.to_owned()
}

/// What edit and input protocols hand back: the finished text is trimmed,
/// failures and pending states pass through.
pub open spec fn trim_model(m: TextModel) -> TextModel {
    match m {
        TextModel::Done(s) => TextModel::Done(trimmed(s)),
        TextModel::Fail(e) => TextModel::Fail(e),
        TextModel::Pending(a) => TextModel::Pending(a),
    }
}

/// Relies on `alloc::string::String::push`: appends the given character
/// to the end of the string.
pub assume_specification[ String::push ](s: &mut String, ch: char)
    ensures
        final(s)@ == old(s)@.push(ch),
;

/// Relies on `alloc::string::String::pop`: removes and returns the last
/// character, or returns `None` and leaves the string unchanged when it
/// is empty.
pub assume_specification[ String::pop ](s: &mut String) -> (r: Option<char>)
    ensures
        old(s)@.len() == 0 ==> r is None && final(s)@ == old(s)@,
        old(s)@.len() > 0 ==> r == Some(old(s)@.last()) && final(s)@ == old(s)@.drop_last(),
;

/// Feeds one event to the text accumulator: `None` means the machine is
/// still waiting (with `acc` updated); Enter on a non-empty accumulator
/// finalizes it, with surrounding whitespace trimmed.
pub fn string_step(acc: &mut String, k: &Key) -> (r: Option<Result<String, Error>>)
    ensures
        match r {
            None => text_machine(old(acc)@, seq![*k]) == TextModel::Pending(final(acc)@),
            Some(Ok(s)) => trim_model(text_machine(old(acc)@, seq![*k])) == TextModel::Done(s@)
                && final(acc)@ == old(acc)@,
            Some(Err(e)) => text_machine(old(acc)@, seq![*k]) == TextModel::Fail(e),
        },
{
    proof {
        reveal_with_fuel(text_machine, 2);
        assert(seq![*k].drop_first() =~= Seq::<Key>::empty());
    }
    match k {
        Key::Char(c) => {
            acc.push(*c);
            None
        },
        Key::Enter => {
            if acc.as_str().unicode_len() > 0 {
                Some(Ok(trim_str(acc.as_str())))
            } else {
                None
            }
        },
        Key::Esc => Some(Err(Error::Escape)),
        Key::Backspace => {
            acc.pop();
            None
        },
        Key::Other => None,
    }
}

/// Feeds one event to the digit accumulator.
pub fn digit_step(acc: &mut String, k: &Key) -> (r: Option<Result<u32, Error>>)
    ensures
        match r {
            None => num_machine(old(acc)@, seq![*k]) == NumModel::Pending(final(acc)@),
            Some(Ok(n)) => num_machine(old(acc)@, seq![*k]) == NumModel::Done(n) && final(acc)@
                == old(acc)@,
            Some(Err(e)) => num_machine(old(acc)@, seq![*k]) == NumModel::Fail(e) && final(acc)@
                == old(acc)@,
        },
{
    proof {
        reveal_with_fuel(num_machine, 2);
        assert(seq![*k].drop_first() =~= Seq::<Key>::empty());
    }
    match k {
        Key::Char(c) => {
            let u = *c as u32;
            if '0' as u32 <= u && u <= '9' as u32 {
                acc.push(*c);
            }
            None
        },
        Key::Enter => Some(parse_digits(acc.as_str())),
        Key::Esc => Some(Err(Error::Escape)),
        Key::Backspace => {
            acc.pop();
            None
        },
        Key::Other => None,
    }
}

/// Feeds one event to the single-letter machine.
pub fn cmdchar_step(k: &Key) -> (r: Option<Result<char, Error>>)
    ensures
        match r {
            None => char_machine(seq![*k]) == Step::<char>::Pending,
            Some(Ok(c)) => char_machine(seq![*k]) == Step::Done(c),
            Some(Err(e)) => char_machine(seq![*k]) == Step::<char>::Fail(e),
        },
{
    proof {
        reveal_with_fuel(char_machine, 2);
        assert(seq![*k].drop_first() =~= Seq::<Key>::empty());
    }
    match k {
        Key::Char(c) => {
            let u = *c as u32;
            if ('a' as u32 <= u && u <= 'z' as u32) || ('A' as u32 <= u && u <= 'Z' as u32) {
                Some(Ok(fold_char(*c)))
            } else {
                None
            }
        },
        Key::Esc => Some(Err(Error::Escape)),
        _ => None,
    }
}

/// Unfolding principle: running a machine on `[k] + rest` is one step on
/// `k` followed by the machine on `rest`.
pub proof fn lemma_text_machine_step(acc: Seq<char>, k: Key, rest: Seq<Key>)
    ensures
        match text_machine(acc, seq![k]) {
            TextModel::Pending(a2) => text_machine(acc, seq![k] + rest) == text_machine(a2, rest),
            TextModel::Done(s) => text_machine(acc, seq![k] + rest) == TextModel::Done(s),
            TextModel::Fail(e) => text_machine(acc, seq![k] + rest) == TextModel::Fail(e),
        },
{
    reveal_with_fuel(text_machine, 2);
    let full = seq![k] + rest;
    assert(full[0] == k);
    assert(full.drop_first() =~= rest);
    assert(seq![k].drop_first() =~= Seq::<Key>::empty());
}

/// Unfolding principle for the digit machine.
pub proof fn lemma_num_machine_step(acc: Seq<char>, k: Key, rest: Seq<Key>)
    ensures
        match num_machine(acc, seq![k]) {
            NumModel::Pending(a2) => num_machine(acc, seq![k] + rest) == num_machine(a2, rest),
            NumModel::Done(n) => num_machine(acc, seq![k] + rest) == NumModel::Done(n),
            NumModel::Fail(e) => num_machine(acc, seq![k] + rest) == NumModel::Fail(e),
        },
{
    reveal_with_fuel(num_machine, 2);
    let full = seq![k] + rest;
    assert(full[0] == k);
    assert(full.drop_first() =~= rest);
    assert(seq![k].drop_first() =~= Seq::<Key>::empty());
}

/// Unfolding principle for the single-letter machine.
pub proof fn lemma_char_machine_step(k: Key, rest: Seq<Key>)
    ensures
        match char_machine(seq![k]) {
            Step::Pending => char_machine(seq![k] + rest) == char_machine(rest),
            Step::Done(c) => char_machine(seq![k] + rest) == Step::Done(c),
            Step::Fail(e) => char_machine(seq![k] + rest) == Step::<char>::Fail(e),
        },
{
    reveal_with_fuel(char_machine, 2);
    let full = seq![k] + rest;
    assert(full[0] == k);
    assert(full.drop_first() =~= rest);
    assert(seq![k].drop_first() =~= Seq::<Key>::empty());
}

/// Runs text accumulation over a batch of events, starting from a
/// caller-supplied initial string (empty for fresh input).  The finished
/// text is the accumulator with surrounding whitespace trimmed.
pub fn wait_for_string(keys: &Vec<Key>, old_string: &str) -> (r: TextStep)
    ensures
        r@ == trim_model(text_machine(old_string@, keys@)),
{
    let mut acc: String = old_string.to_owned();
    let n = keys.len();
    let mut i: usize = 0;
    proof {
        assert(keys@.skip(0) =~= keys@);
    }
    while i < n
        invariant
            n == keys@.len(),
            i <= n,
            text_machine(old_string@, keys@) == text_machine(acc@, keys@.skip(i as int)),
        decreases n - i,
    {
        let k = keys[i];
        proof {
            assert(keys@.skip(i as int) =~= seq![keys@[i as int]] + keys@.skip(i as int + 1));
        }
        let ghost prev = acc@;
        let step = string_step(&mut acc, &k);
        proof {
            lemma_text_machine_step(prev, k, keys@.skip(i as int + 1));
        }
        match step {
            None => {},
            Some(Ok(s)) => {
                return TextStep::Done(s);
            },
            Some(Err(e)) => {
                return TextStep::Fail(e);
            },
        }
        i += 1;
    }
    proof {
        assert(keys@.skip(n as int) =~= Seq::<Key>::empty());
    }
    TextStep::Pending(acc)
}

/// Runs digit accumulation over a batch of events, optionally seeded with
/// an existing value rendered as its decimal digits.
pub fn wait_for_u32(keys: &Vec<Key>, old_u32: Option<u32>) -> (r: NumStep)
    ensures
        r@ == num_machine(
            match old_u32 {
                Some(v) => dec_digits(v as nat),
                None => Seq::<char>::empty(),
            },
            keys@,
        ),
{
    let mut acc: String = match old_u32 {
        Some(v) => u32_to_string(v),
        None => String::new(),
    };
    let ghost acc0 = acc@;
    let n = keys.len();
    let mut i: usize = 0;
    proof {
        assert(keys@.skip(0) =~= keys@);
        assert(acc0 == (match old_u32 {
            Some(vv) => dec_digits(vv as nat),
            None => Seq::<char>::empty(),
        }));
    }
    while i < n
        invariant
            n == keys@.len(),
            i <= n,
            acc0 == (match old_u32 {
                Some(vv) => dec_digits(vv as nat),
                None => Seq::<char>::empty(),
            }),
            num_machine(acc0, keys@) == num_machine(acc@, keys@.skip(i as int)),
        decreases n - i,
    {
        let k = keys[i];
        proof {
            assert(keys@.skip(i as int) =~= seq![keys@[i as int]] + keys@.skip(i as int + 1));
        }
        let ghost prev = acc@;
        let step = digit_step(&mut acc, &k);
        proof {
            lemma_num_machine_step(prev, k, keys@.skip(i as int + 1));
        }
        match step {
            None => {},
            Some(Ok(v)) => {
                return NumStep::Done(v);
            },
            Some(Err(e)) => {
                return NumStep::Fail(e);
            },
        }
        i += 1;
    }
    proof {
        assert(keys@.skip(n as int) =~= Seq::<Key>::empty());
    }
    NumStep::Pending(acc)
}

/// Runs the single-letter machine over a batch of events.
pub fn wait_for_cmdchar(keys: &Vec<Key>) -> (r: Step<char>)
    ensures
        r == char_machine(keys@),
{
    let n = keys.len();
    let mut i: usize = 0;
    proof {
        assert(keys@.skip(0) =~= keys@);
    }
    while i < n
        invariant
            n == keys@.len(),
            i <= n,
            char_machine(keys@) == char_machine(keys@.skip(i as int)),
        decreases n - i,
    {
        let k = keys[i];
        proof {
            assert(keys@.skip(i as int) =~= seq![keys@[i as int]] + keys@.skip(i as int + 1));
            lemma_char_machine_step(keys@[i as int], keys@.skip(i as int + 1));
        }
        match cmdchar_step(&k) {
            None => {},
            Some(Ok(c)) => {
                return Step::Done(c);
            },
            Some(Err(e)) => {
                return Step::Fail(e);
            },
        }
        i += 1;
    }
    proof {
        assert(keys@.skip(n as int) =~= Seq::<Key>::empty());
    }
    Step::Pending
}

/// The decimal digit character for a value below ten.
pub open spec fn digit_char(d: nat) -> char {
    (d + '0' as u32) as char
}

/// The decimal digit string of `n`, most significant digit first.
pub open spec fn dec_digits(n: nat) -> Seq<char>
    decreases n,
{
    if n < 10 {
        seq![digit_char(n)]
    } else {
        dec_digits(n / 10).push(digit_char(n % 10))
    }
}

/// The digit character of a value below ten is a digit and denotes it.
proof fn lemma_digit_char(d: nat)
    requires
        d < 10,
    ensures
        is_digit(digit_char(d)),
        digit_val(digit_char(d)) == d,
{
    assert(digit_char(d) as u32 == d + 48);
}

/// Renders a value below ten as its digit character.
fn digit_to_char(d: u32) -> (c: char)
    requires
        d < 10,
    ensures
        c == digit_char(d as nat),
{
    let b: u8 = (d as u8) + 48;
    let c: char = b as char;
    c
}

/// Renders `n` as its decimal digit string.
pub fn u32_to_string(n: u32) -> (r: String)
    ensures
        r@ == dec_digits(n as nat),
    decreases n,
{
    if n < 10 {
        let mut s = String::new();
        s.push(digit_to_char(n));
        proof {
            assert(s@ =~= dec_digits(n as nat));
        }
        s
    } else {
        let mut s = u32_to_string(n / 10);
        s.push(digit_to_char(n % 10));
        s
    }
}

/// Prefixes of a digit string denote values no larger than the whole.
proof fn lemma_digits_val_monotone(s: Seq<char>, i: int, j: int)
    requires
        0 <= i <= j <= s.len(),
    ensures
        digits_val(s.take(j)) >= digits_val(s.take(i)),
    decreases j - i,
{
    if i < j {
        lemma_digits_val_monotone(s, i, j - 1);
        assert(s.take(j).drop_last() =~= s.take(j - 1));
        assert(digits_val(s.take(j)) == digits_val(s.take(j - 1)) * 10 + digit_val(
            s.take(j).last(),
        ));
        assert(digits_val(s.take(j - 1)) * 10 >= digits_val(s.take(j - 1)));
    }
}

/// Parses a digit string as an unsigned 32-bit integer; fails exactly on
/// the empty string, a non-digit character, or overflow.
pub fn parse_digits(s: &str) -> (r: Result<u32, Error>)
    ensures
        valid_u32_digits(s@) ==> r == Ok::<u32, Error>(digits_val(s@) as u32),
        !valid_u32_digits(s@) ==> r == Err::<u32, Error>(Error::ParsingError),
{
    let n = s.unicode_len();
    if n == 0 {
        return Err(Error::ParsingError);
    }
    let mut val: u64 = 0;
    let mut i: usize = 0;
    while i < n
        invariant
            n == s@.len(),
            i <= n,
            all_digits(s@.take(i as int)),
            val == digits_val(s@.take(i as int)),
            val <= u32::MAX,
        decreases n - i,
    {
        let c = s.get_char(i);
        let u = c as u32;
        if !('0' as u32 <= u && u <= '9' as u32) {
            proof {
                assert(!is_digit(s@[i as int]));
            }
            return Err(Error::ParsingError);
        }
        let d: u64 = (u - 48) as u64;
        proof {
            assert(s@.take(i as int + 1).drop_last() =~= s@.take(i as int));
            assert(s@.take(i as int + 1).last() == s@[i as int]);
        }
        val = val * 10 + d;
        i += 1;
        if val > u32::MAX as u64 {
            proof {
                lemma_digits_val_monotone(s@, i as int, s@.len() as int);
                assert(s@.take(s@.len() as int) =~= s@);
            }
            return Err(Error::ParsingError);
        }
    }
    proof {
        assert(s@.take(n as int) =~= s@);
    }
    Ok(val as u32)
}

/// The rendering of any value parses back to that value: the digit string
/// is non-empty, all digits, and denotes `n`.
pub proof fn lemma_dec_digits_val(n: nat)
    ensures
        dec_digits(n).len() > 0,
        all_digits(dec_digits(n)),
        digits_val(dec_digits(n)) == n,
    decreases n,
{
    reveal_with_fuel(digits_val, 2);
    if n < 10 {
        lemma_digit_char(n);
        assert(dec_digits(n) =~= seq![digit_char(n)]);
        assert(dec_digits(n).drop_last() =~= Seq::<char>::empty());
        assert(digits_val(dec_digits(n)) == digits_val(Seq::<char>::empty()) * 10 + digit_val(
            digit_char(n),
        ));
    } else {
        lemma_dec_digits_val(n / 10);
        lemma_digit_char(n % 10);
        let s = dec_digits(n);
        assert(s == dec_digits(n / 10).push(digit_char(n % 10)));
        assert(s.drop_last() =~= dec_digits(n / 10));
        assert(s.last() == digit_char(n % 10));
        assert(forall|i: int| 0 <= i < s.len() ==> is_digit(#[trigger] s[i])) by {
            assert(forall|i: int|
                0 <= i < s.len() - 1 ==> s[i] == dec_digits(n / 10)[i] && is_digit(
                    #[trigger] s[i],
                ));
        }
        assert(digits_val(s) == (n / 10) * 10 + n % 10);
        assert((n / 10) * 10 + n % 10 == n) by (nonlinear_arith);
    }
}

/// A character key followed by more events appends to the accumulator; an
/// Enter on an empty accumulator, a Backspace on an empty accumulator,
/// and any ignored key all leave the machine waiting unchanged.
pub proof fn lemma_text_machine_ignores(acc: Seq<char>, keys: Seq<Key>)
    ensures
        acc.len() == 0 ==> text_machine(acc, seq![Key::Enter] + keys) == text_machine(acc, keys),
        acc.len() == 0 ==> text_machine(acc, seq![Key::Backspace] + keys) == text_machine(
            acc,
            keys,
        ),
        text_machine(acc, seq![Key::Other] + keys) == text_machine(acc, keys),
{
    reveal_with_fuel(text_machine, 2);
    assert(seq![Key::Enter].drop_first() =~= Seq::<Key>::empty());
    assert(seq![Key::Backspace].drop_first() =~= Seq::<Key>::empty());
    assert(seq![Key::Other].drop_first() =~= Seq::<Key>::empty());
    if acc.len() == 0 {
        lemma_text_machine_step(acc, Key::Enter, keys);
        lemma_text_machine_step(acc, Key::Backspace, keys);
    }
    lemma_text_machine_step(acc, Key::Other, keys);
}

/// Every event of `keys` is a character key.
pub open spec fn all_char_keys(keys: Seq<Key>) -> bool {
    forall|i: int| 0 <= i < keys.len() ==> (#[trigger] keys[i]) is Char
}

/// The characters carried by a sequence of character keys, in order.
pub open spec fn chars_of(keys: Seq<Key>) -> Seq<char> {
    Seq::new(keys.len(), |i: int| keys[i]->0)
}

/// Typing characters and then pressing Enter returns exactly the typed
/// characters appended to the initial accumulator; in particular an Enter
/// pressed on an empty accumulator does not terminate the operation.
pub proof fn lemma_text_chars_then_enter(acc: Seq<char>, ks: Seq<Key>)
    requires
        all_char_keys(ks),
        acc.len() + ks.len() > 0,
    ensures
        text_machine(acc, ks.push(Key::Enter)) == TextModel::Done(acc + chars_of(ks)),
    decreases ks.len(),
{
    let keys = ks.push(Key::Enter);
    if ks.len() == 0 {
        reveal_with_fuel(text_machine, 2);
        assert(keys =~= seq![Key::Enter]);
        assert(acc + chars_of(ks) =~= acc);
    } else {
        assert(keys[0] == ks[0]);
        assert(ks[0] is Char);
        let c0 = ks[0]->0;
        assert(all_char_keys(ks.drop_first())) by {
            assert forall|j: int| 0 <= j < ks.drop_first().len() implies (#[trigger] ks.drop_first()[j]) is Char by {
                assert(ks.drop_first()[j] == ks[j + 1]);
            }
        }
        lemma_text_chars_then_enter(acc.push(c0), ks.drop_first());
        assert(keys.drop_first() =~= ks.drop_first().push(Key::Enter));
        assert(acc.push(c0) + chars_of(ks.drop_first()) =~= acc + chars_of(ks)) by {
            assert(chars_of(ks)[0] == c0);
            assert forall|j: int| 0 <= j < ks.drop_first().len() implies chars_of(
                ks.drop_first(),
            )[j] == chars_of(ks)[j + 1] by {
                assert(ks.drop_first()[j] == ks[j + 1]);
            }
        }
    }
}

/// A Backspace against an empty accumulator is a no-op: the machine keeps
/// waiting with the accumulator unchanged.
pub proof fn lemma_backspace_empty(keys: Seq<Key>)
    ensures
        text_machine(Seq::<char>::empty(), seq![Key::Backspace] + keys) == text_machine(
            Seq::<char>::empty(),
            keys,
        ),
        num_machine(Seq::<char>::empty(), seq![Key::Backspace] + keys) == num_machine(
            Seq::<char>::empty(),
            keys,
        ),
{
    reveal_with_fuel(text_machine, 2);
    reveal_with_fuel(num_machine, 2);
    assert(seq![Key::Backspace].drop_first() =~= Seq::<Key>::empty());
    lemma_text_machine_step(Seq::<char>::empty(), Key::Backspace, keys);
    lemma_num_machine_step(Seq::<char>::empty(), Key::Backspace, keys);
}

/// Escape pressed while an operation is still pending cancels it: the
/// machine yields the cancellation error and no partial result.
pub proof fn lemma_escape_cancels(acc: Seq<char>, keys: Seq<Key>)
    ensures
        text_machine(acc, keys) is Pending ==> text_machine(acc, keys.push(Key::Esc))
            == TextModel::Fail(Error::Escape),
        num_machine(acc, keys) is Pending ==> num_machine(acc, keys.push(Key::Esc))
            == NumModel::Fail(Error::Escape),
        char_machine(keys) is Pending ==> char_machine(keys.push(Key::Esc)) == Step::<
            char,
        >::Fail(Error::Escape),
    decreases keys.len(),
{
    if keys.len() == 0 {
        assert(keys.push(Key::Esc) =~= seq![Key::Esc]);
    } else {
        let rest = keys.drop_first();
        assert(keys.push(Key::Esc).drop_first() =~= rest.push(Key::Esc));
        assert(keys.push(Key::Esc)[0] == keys[0]);
        match keys[0] {
            Key::Char(c) => {
                lemma_escape_cancels(acc.push(c), rest);
                lemma_escape_cancels(
                    if is_digit(c) {
                        acc.push(c)
                    } else {
                        acc
                    },
                    rest,
                );
                lemma_escape_cancels(acc, rest);
            },
            Key::Enter => {
                lemma_escape_cancels(acc, rest);
            },
            Key::Esc => {},
            Key::Backspace => {
                lemma_escape_cancels(
                    if acc.len() > 0 {
                        acc.drop_last()
                    } else {
                        acc
                    },
                    rest,
                );
                lemma_escape_cancels(acc, rest);
            },
            Key::Other => {
                lemma_escape_cancels(acc, rest);
            },
        }
    }
}

} // verus!
