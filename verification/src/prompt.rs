//! Selection protocols composed from the keystroke state machine:
//! free-text input, numeric input, yes/no confirmation, command selection
//! from a registry, and paginated selection by dynamically assigned
//! letters.  The host renders prompts and feeds key events; these
//! functions decide what each event sequence means.

use vstd::prelude::*;

use crate::command::lookup;
use crate::command::models_of;
use crate::command::Command;
use crate::command::CmdModel;
use crate::input::cmdchar_step;
use crate::input::char_machine;
use crate::input::is_lower;
use crate::input::is_upper;
use crate::input::num_machine;
use crate::input::text_machine;
use crate::input::to_lower;
use crate::input::trim_model;
use crate::input::trimmed;
use crate::input::wait_for_string;
use crate::input::wait_for_u32;
use crate::input::Key;
use crate::input::NumStep;
use crate::input::Step;
use crate::input::TextModel;
use crate::input::TextStep;
use crate::Error;

verus! {

/// Text editing seeded with an existing value: accumulates text and
/// returns the finished value with surrounding whitespace trimmed.
pub fn edit_string(keys: &Vec<Key>, old_string: &str) -> (r: TextStep)
    ensures
        r@ == trim_model(text_machine(old_string@, keys@)),
{
    wait_for_string(keys, old_string)
}

/// Free-text input: text accumulation from an empty accumulator, with
/// the finished value trimmed.
pub fn input_string(keys: &Vec<Key>) -> (r: TextStep)
    ensures
        r@ == trim_model(text_machine(Seq::<char>::empty(), keys@)),
{
    proof {
        reveal_strlit("");
        assert(""@ =~= Seq::<char>::empty());
    }
    edit_string(keys, "")
}

/// Numeric input: digit accumulation from an empty accumulator, parsed
/// as an unsigned integer on Enter.
pub fn input_u32(keys: &Vec<Key>) -> (r: NumStep)
    ensures
        r@ == num_machine(Seq::<char>::empty(), keys@),
{
    wait_for_u32(keys, None)
}

/// The confirmation machine: the first letter key that folds to `y`
/// answers yes, to `n` answers no; other letters and all other non-Escape
/// keys are ignored; Escape cancels.
pub open spec fn confirm_machine(keys: Seq<Key>) -> Step<bool>
    decreases keys.len(),
{
    if keys.len() == 0 {
        Step::Pending
    } else {
        let rest = keys.drop_first();
        match keys[0] {
            Key::Char(c) => if (is_lower(c) || is_upper(c)) && to_lower(c) == 'y' {
                Step::Done(true)
            } else if (is_lower(c) || is_upper(c)) && to_lower(c) == 'n' {
                Step::Done(false)
            } else {
                confirm_machine(rest)
            },
            Key::Esc => Step::Fail(Error::Escape),
            _ => confirm_machine(rest),
        }
    }
}

/// Yes/no confirmation: loops on single-letter selection until the
/// normalized letter answers the question; cancellation propagates.
pub fn confirmation(keys: &Vec<Key>) -> (r: Step<bool>)
    ensures
        r == confirm_machine(keys@),
{
    let n = keys.len();
    let mut i: usize = 0;
    proof {
        assert(keys@.skip(0) =~= keys@);
    }
    while i < n
        invariant
            n == keys@.len(),
            i <= n,
            confirm_machine(keys@) == confirm_machine(keys@.skip(i as int)),
        decreases n - i,
    {
        let k = keys[i];
        proof {
            reveal_with_fuel(confirm_machine, 2);
            reveal_with_fuel(char_machine, 2);
            let sk = keys@.skip(i as int);
            assert(sk =~= seq![keys@[i as int]] + sk.skip(1));
            assert(sk[0] == k);
            assert(sk.drop_first() =~= keys@.skip(i as int + 1));
            assert(seq![k].drop_first() =~= Seq::<Key>::empty());
        }
        match cmdchar_step(&k) {
            None => {},
            Some(Ok(l)) => {
                let lu = l as u32;
                proof {
                    vstd::utf8::char_u32_cast(l, lu);
                    vstd::utf8::char_u32_cast('y', 'y' as u32);
                    vstd::utf8::char_u32_cast('n', 'n' as u32);
                }
                if lu == 'y' as u32 {
                    return Step::Done(true);
                } else if lu == 'n' as u32 {
                    return Step::Done(false);
                }
            },
            Some(Err(e)) => {
                return Step::Fail(e);
            },
        }
        i += 1;
    }
    proof {
        assert(keys@.skip(n as int) =~= Seq::<Key>::empty());
    }
    Step::Pending
}

/// The command selection machine: each letter key is folded to lowercase
/// and looked up among the listed command models; the first listed match
/// finishes, no match keeps waiting, Escape cancels.
pub enum SelModel {
    Done(CmdModel),
    Fail(Error),
    Pending,
}

/// One machine step per event for command selection.
pub open spec fn select_machine(ms: Seq<CmdModel>, keys: Seq<Key>) -> SelModel
    decreases keys.len(),
{
    if keys.len() == 0 {
        SelModel::Pending
    } else {
        let rest = keys.drop_first();
        match keys[0] {
            Key::Char(c) => if is_lower(c) || is_upper(c) {
                match lookup(ms, to_lower(c)) {
                    Some(m) => SelModel::Done(m),
                    None => select_machine(ms, rest),
                }
            } else {
                select_machine(ms, rest)
            },
            Key::Esc => SelModel::Fail(Error::Escape),
            _ => select_machine(ms, rest),
        }
    }
}

/// Finds the first command whose address equals `addr`, in listed order.
fn find_cmd<C: Command>(options: &Vec<C>, addr: char) -> (r: Option<usize>)
    ensures
        match r {
            Some(i) => i < options@.len() && lookup(models_of(options@), addr) == Some(
                options@[i as int].model(),
            ),
            None => lookup(models_of(options@), addr) is None,
        },
{
    let n = options.len();
    let mut i: usize = 0;
    proof {
        assert(models_of(options@).skip(0) =~= models_of(options@));
    }
    while i < n
        invariant
            n == options@.len(),
            i <= n,
            lookup(models_of(options@), addr) == lookup(
                models_of(options@).skip(i as int),
                addr,
            ),
        decreases n - i,
    {
        let c = options[i].get_char();
        proof {
            let ms = models_of(options@);
            assert(ms.skip(i as int).len() == n - i);
            assert(ms.skip(i as int)[0] == ms[i as int]);
            assert(ms.skip(i as int).drop_first() =~= ms.skip(i as int + 1));
            vstd::utf8::char_u32_cast(c, c as u32);
            vstd::utf8::char_u32_cast(addr, addr as u32);
        }
        if c as u32 == addr as u32 {
            return Some(i);
        }
        i += 1;
    }
    proof {
        assert(models_of(options@).skip(n as int) =~= Seq::<CmdModel>::empty());
    }
    None
}

/// Command selection: loops on single-letter selection, comparing the
/// normalized letter against each command's address in listed order; the
/// first match is duplicated and returned.
pub fn select_cmd<C: Command>(keys: &Vec<Key>, options: &Vec<C>) -> (r: Step<C>)
    ensures
        match r {
            Step::Done(c) => select_machine(models_of(options@), keys@) == SelModel::Done(
                c.model(),
            ),
            Step::Fail(e) => select_machine(models_of(options@), keys@) == SelModel::Fail(e),
            Step::Pending => select_machine(models_of(options@), keys@) == SelModel::Pending,
        },
{
    let ghost ms = models_of(options@);
    let n = keys.len();
    let mut i: usize = 0;
    proof {
        assert(keys@.skip(0) =~= keys@);
    }
    while i < n
        invariant
            n == keys@.len(),
            i <= n,
            ms == models_of(options@),
            select_machine(ms, keys@) == select_machine(ms, keys@.skip(i as int)),
        decreases n - i,
    {
        let k = keys[i];
        proof {
            reveal_with_fuel(select_machine, 2);
            reveal_with_fuel(char_machine, 2);
            let sk = keys@.skip(i as int);
            assert(sk =~= seq![keys@[i as int]] + sk.skip(1));
            assert(sk[0] == k);
            assert(sk.drop_first() =~= keys@.skip(i as int + 1));
            assert(seq![k].drop_first() =~= Seq::<Key>::empty());
        }
        match cmdchar_step(&k) {
            None => {},
            Some(Ok(l)) => {
                match find_cmd(options, l) {
                    Some(j) => {
                        let c = options[j].dup();
                        return Step::Done(c);
                    },
                    None => {},
                }
            },
            Some(Err(e)) => {
                return Step::Fail(e);
            },
        }
        i += 1;
    }
    proof {
        assert(keys@.skip(n as int) =~= Seq::<Key>::empty());
    }
    Step::Pending
}


/// The letter assigned to position `i`: `a..z` then `A..Z`.
pub open spec fn letter_for(i: int) -> char {
    if i < 26 {
        ('a' as u32 + i) as char
    } else {
        ('A' as u32 + i - 26) as char
    }
}

/// Renders the selection letter for a listed position.
pub fn index_letter(i: usize) -> (c: char)
    requires
        i < 52,
    ensures
        c == letter_for(i as int),
{
    if i < 26 {
        let b: u8 = 97 + (i as u8);
        b as char
    } else {
        let b: u8 = 65 + (i as u8) - 26;
        b as char
    }
}

/// The position selected by a folded letter: `a..z` name the first 26
/// positions.  Folding means uppercase letters reach no position, exactly
/// as single-letter selection delivers only lowercase letters.
pub open spec fn letter_index(c: char) -> Option<int> {
    if is_lower(c) {
        Some(c as u32 - 'a' as u32)
    } else {
        None
    }
}

/// Outcome of paginated list selection: the index of the chosen item.
pub enum ListModel {
    Done(int),
    Fail(Error),
    Pending,
}

/// The list selection machine over `n` listed items: each letter key is
/// folded and mapped to its assigned position; a position within the list
/// finishes with that index, anything else keeps waiting, Escape cancels.
pub open spec fn list_machine(n: int, keys: Seq<Key>) -> ListModel
    decreases keys.len(),
{
    if keys.len() == 0 {
        ListModel::Pending
    } else {
        let rest = keys.drop_first();
        match keys[0] {
            Key::Char(c) => if is_lower(c) || is_upper(c) {
                match letter_index(to_lower(c)) {
                    Some(idx) => if idx < n {
                        ListModel::Done(idx)
                    } else {
                        list_machine(n, rest)
                    },
                    None => list_machine(n, rest),
                }
            } else {
                list_machine(n, rest)
            },
            Key::Esc => ListModel::Fail(Error::Escape),
            _ => list_machine(n, rest),
        }
    }
}

/// Paginated list selection: letters are assigned to the items in
/// enumeration order, and the first letter key naming a listed item
/// returns its index.  The caller duplicates the chosen item; at most 52
/// items can carry a letter.
pub fn select_from_list<T>(keys: &Vec<Key>, options: &Vec<T>) -> (r: Step<usize>)
    requires
        options@.len() <= 52,
    ensures
        match r {
            Step::Done(i) => list_machine(options@.len() as int, keys@) == ListModel::Done(
                i as int,
            ) && i < options@.len(),
            Step::Fail(e) => list_machine(options@.len() as int, keys@) == ListModel::Fail(e),
            Step::Pending => list_machine(options@.len() as int, keys@) == ListModel::Pending,
        },
{
    let ghost nn = options@.len() as int;
    let n = keys.len();
    let mut i: usize = 0;
    proof {
        assert(keys@.skip(0) =~= keys@);
    }
    while i < n
        invariant
            n == keys@.len(),
            i <= n,
            nn == options@.len() as int,
            list_machine(nn, keys@) == list_machine(nn, keys@.skip(i as int)),
        decreases n - i,
    {
        let k = keys[i];
        proof {
            reveal_with_fuel(list_machine, 2);
            reveal_with_fuel(char_machine, 2);
            let sk = keys@.skip(i as int);
            assert(sk =~= seq![keys@[i as int]] + sk.skip(1));
            assert(sk[0] == k);
            assert(sk.drop_first() =~= keys@.skip(i as int + 1));
            assert(seq![k].drop_first() =~= Seq::<Key>::empty());
        }
        match cmdchar_step(&k) {
            None => {},
            Some(Ok(l)) => {
                let lu = l as u32;
                if 'a' as u32 <= lu && lu <= 'z' as u32 {
                    let idx = (lu - 'a' as u32) as usize;
                    if idx < options.len() {
                        return Step::Done(idx);
                    }
                }
            },
            Some(Err(e)) => {
                return Step::Fail(e);
            },
        }
        i += 1;
    }
    proof {
        assert(keys@.skip(n as int) =~= Seq::<Key>::empty());
    }
    Step::Pending
}

/// Escape pressed while a selection protocol is still waiting cancels it:
/// the machine yields the cancellation error and no partial result.
pub proof fn lemma_protocol_escape(ms: Seq<CmdModel>, n: int, keys: Seq<Key>)
    ensures
        confirm_machine(keys) is Pending ==> confirm_machine(keys.push(Key::Esc)) == Step::<
            bool,
        >::Fail(Error::Escape),
        select_machine(ms, keys) is Pending ==> select_machine(ms, keys.push(Key::Esc))
            == SelModel::Fail(Error::Escape),
        list_machine(n, keys) is Pending ==> list_machine(n, keys.push(Key::Esc))
            == ListModel::Fail(Error::Escape),
    decreases keys.len(),
{
    if keys.len() == 0 {
        assert(keys.push(Key::Esc) =~= seq![Key::Esc]);
        reveal_with_fuel(confirm_machine, 2);
        reveal_with_fuel(select_machine, 2);
        reveal_with_fuel(list_machine, 2);
        assert(seq![Key::Esc].drop_first() =~= Seq::<Key>::empty());
    } else {
        let rest = keys.drop_first();
        assert(keys.push(Key::Esc).drop_first() =~= rest.push(Key::Esc));
        assert(keys.push(Key::Esc)[0] == keys[0]);
        lemma_protocol_escape(ms, n, rest);
    }
}


/// Typing characters and then pressing Enter through the text input
/// protocol returns exactly the typed characters, trimmed.
pub proof fn lemma_input_string_chars(ks: Seq<Key>)
    requires
        crate::input::all_char_keys(ks),
        ks.len() > 0,
    ensures
        trim_model(text_machine(Seq::<char>::empty(), ks.push(Key::Enter))) == TextModel::Done(
            trimmed(crate::input::chars_of(ks)),
        ),
{
    crate::input::lemma_text_chars_then_enter(Seq::<char>::empty(), ks);
    assert(Seq::<char>::empty() + crate::input::chars_of(ks) =~= crate::input::chars_of(ks));
}

} // verus!
