use accountable_safety::names::{name_before, same_name};
use accountable_safety::voting::clone_names;

fn owned(names: &[&str]) -> Vec<String> {
    names.iter().map(|name| name.to_string()).collect()
}

#[test]
fn names_are_equal_by_their_characters() {
    assert!(same_name("Alice", "Alice"));
    assert!(!same_name("Alice", "alice"));
    assert!(!same_name("Alice", "Alic"));
    assert!(!same_name("", "a"));
    assert!(same_name("", ""));
    assert!(same_name("Zoë", "Zoë"));
    assert!(!same_name("Zoë", "Zoe"));
}

#[test]
fn names_are_ordered_as_strings_are() {
    let names = ["", "A", "Alice", "Alicia", "Bob", "a", "alice", "Zoë", "Zoe", "é", "z"];
    for a in names {
        for b in names {
            assert_eq!(name_before(a, b), a < b, "{:?} before {:?}", a, b);
        }
    }
}

#[test]
fn a_prefix_comes_first() {
    assert!(name_before("Al", "Alice"));
    assert!(!name_before("Alice", "Al"));
    assert!(!name_before("Alice", "Alice"));
}

#[test]
fn clone_names_copies() {
    let names = owned(&["Alice", "Bob"]);
    assert_eq!(clone_names(&names), names);
    assert_eq!(clone_names(&[]), owned(&[]));
}
