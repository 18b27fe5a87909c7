//! Tests for the command registry: construction, sorting, and lookup.

use keyprompt::command::BasicCmd;
use keyprompt::command::CmdList;
use keyprompt::command::Command;

fn cmd(addr: char, info: &str) -> BasicCmd {
    BasicCmd { addr, info: info.to_string() }
}

#[test]
fn lookup_unique_addresses() {
    let list = CmdList::new(vec![cmd('b', "beta"), cmd('a', "alpha"), cmd('c', "gamma")]);
    assert_eq!(list.get('a').unwrap().get_info(), "alpha");
    assert_eq!(list.get('b').unwrap().get_info(), "beta");
    assert_eq!(list.get('c').unwrap().get_info(), "gamma");
    assert!(list.get('d').is_none());
    assert!(list.get('A').is_none());
}

#[test]
fn lookup_duplicate_addresses_first_in_sort_order() {
    let list = CmdList::new(vec![cmd('a', "zulu"), cmd('a', "alpha")]);
    assert_eq!(list.get('a').unwrap().get_info(), "alpha");
    let list2 = CmdList::new(vec![cmd('a', "alpha"), cmd('a', "zulu")]);
    assert_eq!(list2.get('a').unwrap().get_info(), "alpha");
}

#[test]
fn build_is_deterministic_under_permutation() {
    let list1 = CmdList::new(vec![cmd('c', "c3"), cmd('a', "a1"), cmd('b', "b2")]);
    let list2 = CmdList::new(vec![cmd('b', "b2"), cmd('c', "c3"), cmd('a', "a1")]);
    let c1 = list1.commands();
    let c2 = list2.commands();
    assert_eq!(c1.len(), c2.len());
    for i in 0..c1.len() {
        assert_eq!(c1[i].get_char(), c2[i].get_char());
        assert_eq!(c1[i].get_info(), c2[i].get_info());
    }
    for a in ['a', 'b', 'c', 'd'] {
        let r1 = list1.get(a).map(|c| (c.get_char(), c.get_info().to_string()));
        let r2 = list2.get(a).map(|c| (c.get_char(), c.get_info().to_string()));
        assert_eq!(r1, r2);
    }
}

#[test]
fn commands_sorted_by_address_then_info() {
    let list = CmdList::new(vec![cmd('b', "x"), cmd('a', "y"), cmd('a', "x")]);
    let cs = list.commands();
    assert_eq!(cs[0].get_char(), 'a');
    assert_eq!(cs[0].get_info(), "x");
    assert_eq!(cs[1].get_char(), 'a');
    assert_eq!(cs[1].get_info(), "y");
    assert_eq!(cs[2].get_char(), 'b');
}

#[test]
fn display_form() {
    let c = cmd('q', "quit the program");
    assert_eq!(c.display_as_cmd(), "q: quit the program");
}

#[test]
fn basic_cmd_accessors_and_dup() {
    let c = cmd('x', "example");
    assert_eq!(c.get_char(), 'x');
    assert_eq!(c.get_info(), "example");
    let d = c.dup();
    assert_eq!(d.get_char(), 'x');
    assert_eq!(d.get_info(), "example");
    assert!(c.le(&d));
    assert!(cmd('a', "z").le(&cmd('b', "a")));
    assert!(!cmd('b', "a").le(&cmd('a', "z")));
}
