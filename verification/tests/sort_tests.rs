use sieve_sort::sort::merge_sort;
use std::cmp::Ordering;

/// A key with a label that the comparison ignores.
#[derive(Clone, Copy, Debug)]
struct Tagged {
    key: u32,
    label: char,
}

impl PartialEq for Tagged {
    fn eq(&self, other: &Self) -> bool {
        self.key == other.key
    }
}

impl Eq for Tagged {}

impl PartialOrd for Tagged {
    fn partial_cmp(&self, other: &Self) -> Option<Ordering> {
        Some(self.cmp(other))
    }
}

impl Ord for Tagged {
    fn cmp(&self, other: &Self) -> Ordering {
        self.key.cmp(&other.key)
    }
}

fn tagged(key: u32, label: char) -> Tagged {
    Tagged { key, label }
}

fn labels(items: &[Tagged]) -> Vec<(u32, char)> {
    items.iter().map(|t| (t.key, t.label)).collect()
}

fn pseudo_random(count: usize, modulus: u64) -> Vec<u64> {
    let mut state: u64 = 0x2545_F491_4F6C_DD1D;
    let mut out = Vec::with_capacity(count);
    for _ in 0..count {
        state = state.wrapping_mul(6364136223846793005).wrapping_add(1442695040888963407);
        out.push((state >> 33) % modulus);
    }
    out
}

#[test]
fn sorts_the_sample_array() {
    let mut numbers = vec![42, 12, 88, 6, 95, 34, 1, 77, 23, 50];
    merge_sort(&mut numbers);
    assert_eq!(numbers, vec![1, 6, 12, 23, 34, 42, 50, 77, 88, 95]);
}

#[test]
fn sorts_an_empty_slice() {
    let mut empty: Vec<i32> = Vec::new();
    merge_sort(&mut empty);
    assert_eq!(empty, Vec::<i32>::new());
}

#[test]
fn sorts_a_single_element() {
    let mut one = [7u8];
    merge_sort(&mut one);
    assert_eq!(one, [7u8]);
}

#[test]
fn sorts_two_and_three_elements() {
    let mut two = [2, 1];
    merge_sort(&mut two);
    assert_eq!(two, [1, 2]);
    let mut three = [3, 1, 2];
    merge_sort(&mut three);
    assert_eq!(three, [1, 2, 3]);
}

#[test]
fn sorts_a_reversed_sequence() {
    let mut numbers: Vec<i64> = (0..101).rev().collect();
    merge_sort(&mut numbers);
    let expected: Vec<i64> = (0..101).collect();
    assert_eq!(numbers, expected);
}

#[test]
fn sorted_input_stays_as_it_is() {
    let mut numbers = vec![-5, -1, 0, 0, 3, 8, 8, 13];
    let before = numbers.clone();
    merge_sort(&mut numbers);
    assert_eq!(numbers, before);
}

#[test]
fn sorting_twice_gives_the_same_result() {
    let mut numbers = pseudo_random(257, 50);
    merge_sort(&mut numbers);
    let once = numbers.clone();
    merge_sort(&mut numbers);
    assert_eq!(numbers, once);
}

#[test]
fn equal_elements_are_left_unchanged() {
    let mut items = [tagged(4, 'a'), tagged(4, 'b'), tagged(4, 'c'), tagged(4, 'd'), tagged(4, 'e')];
    merge_sort(&mut items);
    assert_eq!(labels(&items), vec![(4, 'a'), (4, 'b'), (4, 'c'), (4, 'd'), (4, 'e')]);
}

#[test]
fn result_is_a_non_decreasing_permutation() {
    let input = pseudo_random(1000, 1000);
    let mut numbers = input.clone();
    merge_sort(&mut numbers);
    for pair in numbers.windows(2) {
        assert!(pair[0] <= pair[1]);
    }
    let mut expected = input;
    expected.sort();
    assert_eq!(numbers, expected);
}

#[test]
fn sorts_negative_numbers_and_duplicates() {
    let mut numbers = vec![3, -2, 3, 0, -2, 7, 0, -9];
    merge_sort(&mut numbers);
    assert_eq!(numbers, vec![-9, -2, -2, 0, 0, 3, 3, 7]);
}

#[test]
fn ties_keep_their_relative_order() {
    let mut items = [
        tagged(3, 'a'),
        tagged(1, 'b'),
        tagged(3, 'c'),
        tagged(2, 'd'),
        tagged(1, 'e'),
        tagged(3, 'f'),
        tagged(2, 'g'),
    ];
    merge_sort(&mut items);
    assert_eq!(
        labels(&items),
        vec![(1, 'b'), (1, 'e'), (2, 'd'), (2, 'g'), (3, 'a'), (3, 'c'), (3, 'f')]
    );
}

#[test]
fn ties_across_the_two_halves_prefer_the_left() {
    let mut items = [tagged(1, 'l'), tagged(2, 'l'), tagged(1, 'r'), tagged(2, 'r')];
    merge_sort(&mut items);
    assert_eq!(labels(&items), vec![(1, 'l'), (1, 'r'), (2, 'l'), (2, 'r')]);
}

#[test]
fn stable_on_many_ties() {
    let keys = pseudo_random(500, 7);
    let mut items: Vec<Tagged> = Vec::new();
    for (position, key) in keys.iter().enumerate() {
        let label = char::from_u32(0x100 + position as u32).unwrap();
        items.push(tagged(*key as u32, label));
    }
    merge_sort(&mut items);
    assert_eq!(items.len(), 500);
    for pair in items.windows(2) {
        assert!(pair[0].key <= pair[1].key);
        if pair[0].key == pair[1].key {
            assert!(pair[0].label < pair[1].label);
        }
    }
}

#[test]
fn sorts_pairs_by_both_parts() {
    let mut pairs = vec![(2u8, 'b'), (1, 'z'), (2, 'a'), (1, 'a')];
    merge_sort(&mut pairs);
    assert_eq!(pairs, vec![(1, 'a'), (1, 'z'), (2, 'a'), (2, 'b')]);
}

#[test]
fn sorts_a_sub_slice_only() {
    let mut numbers = [9, 8, 7, 6, 5, 4];
    merge_sort(&mut numbers[1..5]);
    assert_eq!(numbers, [9, 5, 6, 7, 8, 4]);
}
