use selector::entry::{contains_any, contains_value};
use selector::nearest::find_nearest;
use selector::order::AscendingSet;
use selector::present::filter_allowed;
use selector::Entry;

#[test]
fn entries_compare_by_what_they_hold() {
    assert_eq!(Entry::Value(240), Entry::Value(240));
    assert_ne!(Entry::Value(240), Entry::Value(360));
    assert_ne!(Entry::Value(0), Entry::Any);
    assert_eq!(Entry::Any, Entry::Any);
    assert_eq!(Entry::Value(7), Entry::Value(7).clone());
}

#[test]
fn contains_any_finds_any_wherever_it_stands() {
    assert!(contains_any(&[Entry::Any]));
    assert!(contains_any(&[Entry::Value(1), Entry::Value(2), Entry::Any]));
    assert!(contains_any(&[Entry::Any, Entry::Value(1)]));
    assert!(!contains_any(&[Entry::Value(1), Entry::Value(2)]));
    assert!(!contains_any(&[]));
}

#[test]
fn contains_value_finds_the_value_named() {
    let entries = [Entry::Value(240), Entry::Any, Entry::Value(720)];

    assert!(contains_value(&entries, 240));
    assert!(contains_value(&entries, 720));
    assert!(!contains_value(&entries, 360));
    assert!(!contains_value(&[Entry::Any], 360));
    assert!(!contains_value(&[], 360));
}

#[test]
fn filter_keeps_order_and_repeats_of_the_available_values() {
    let available = [3, 1, 3, 2];

    assert_eq!(vec![3, 3, 2], filter_allowed(&available, &[Entry::Value(2), Entry::Value(3)]));
    assert_eq!(vec![1], filter_allowed(&available, &[Entry::Value(1), Entry::Value(1)]));
    assert_eq!(Vec::<i32>::new(), filter_allowed(&available, &[Entry::Value(4)]));
    assert_eq!(Vec::<i32>::new(), filter_allowed(&available, &[]));
}

#[test]
fn filter_with_any_copies_the_available_values() {
    let available = [3, 1, 3, 2];

    assert_eq!(vec![3, 1, 3, 2], filter_allowed(&available, &[Entry::Any]));
    assert_eq!(vec![3, 1, 3, 2], filter_allowed(&available, &[Entry::Value(9), Entry::Any]));
    assert_eq!(Vec::<i32>::new(), filter_allowed(&[], &[Entry::Any]));
}

#[test]
fn nearest_is_the_value_itself_where_present() {
    assert_eq!(360, find_nearest(&[240, 360, 720], 360));
    assert_eq!(5, find_nearest(&[10, 5], 5));
}

#[test]
fn nearest_is_the_first_value_above() {
    assert_eq!(720, find_nearest(&[240, 360, 720, 1080], 361));
    assert_eq!(240, find_nearest(&[240, 360, 720], i32::MIN));
    assert_eq!(10, find_nearest(&[3, 10, 5], 4));
}

#[test]
fn nearest_is_the_last_value_where_none_is_above() {
    assert_eq!(720, find_nearest(&[240, 360, 720], 1080));
    assert_eq!(3, find_nearest(&[9, 7, 3], 10));
    assert_eq!(240, find_nearest(&[240], i32::MAX));
}

#[test]
fn empty_set_has_no_members() {
    assert_eq!(Vec::<i32>::new(), AscendingSet::new().into_vec());
}

#[test]
fn set_gives_its_members_in_ascending_order() {
    let mut set = AscendingSet::new();
    set.insert(360);
    set.insert(240);
    set.insert(1080);
    set.insert(720);
    set.insert(-1);
    assert_eq!(vec![-1, 240, 360, 720, 1080], set.into_vec());
}

#[test]
fn set_holds_a_member_once() {
    let mut set = AscendingSet::new();
    set.insert(360);
    set.insert(240);
    set.insert(360);
    set.insert(240);
    set.insert(720);
    set.insert(720);
    assert_eq!(vec![240, 360, 720], set.into_vec());
}
