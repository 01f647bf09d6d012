use lights_out::bit::Bit;
use lights_out::order::{ascending_keys, ascending_members, insert_ascending};
use lights_out::text::push_decimal;
use std::collections::{HashMap, HashSet};

#[test]
fn inserting_keeps_the_order() {
    let mut v = vec![1, 4, 9];
    insert_ascending(&mut v, 5);
    assert_eq!(v, vec![1, 4, 5, 9]);
    insert_ascending(&mut v, 0);
    assert_eq!(v, vec![0, 1, 4, 5, 9]);
    insert_ascending(&mut v, 10);
    assert_eq!(v, vec![0, 1, 4, 5, 9, 10]);
    let mut empty = Vec::new();
    insert_ascending(&mut empty, 3);
    assert_eq!(empty, vec![3]);
}

#[test]
fn members_of_a_set_in_ascending_order() {
    let set: HashSet<usize> = [12, 3, 7, 0, 100].into_iter().collect();
    assert_eq!(ascending_members(&set), vec![0, 3, 7, 12, 100]);
    assert_eq!(ascending_members(&HashSet::new()), Vec::<usize>::new());
}

#[test]
fn keys_of_a_map_in_ascending_order() {
    let map: HashMap<usize, Bit> =
        [(8, Bit::On), (2, Bit::Off), (5, Bit::On)].into_iter().collect();
    assert_eq!(ascending_keys(&map), vec![2, 5, 8]);
    assert_eq!(ascending_keys(&HashMap::<usize, Bit>::new()), Vec::<usize>::new());
}

#[test]
fn numbers_are_written_in_decimal() {
    let mut out = String::from("n=");
    push_decimal(&mut out, 0);
    assert_eq!(out, "n=0");
    push_decimal(&mut out, 7);
    push_decimal(&mut out, 10);
    push_decimal(&mut out, 9081726354);
    assert_eq!(out, "n=07109081726354");
    let mut most = String::new();
    push_decimal(&mut most, usize::MAX);
    assert_eq!(most, usize::MAX.to_string());
}
