use parallel_merge_sort::{merge_sort, merge_sort_in, scratch_len, sorted_copy, ExecutionMode};
use rand::distributions::{Distribution, Standard};
use rand::random;
use std::cmp::Ordering;
use std::fmt::Debug;

#[derive(Debug, Clone)]
struct Dropper {
    num: i32,
    is_dropped: Box<bool>,
}

impl Dropper {
    fn new(num: i32) -> Dropper {
        Dropper {
            num,
            is_dropped: Box::from(false),
        }
    }
}

impl Drop for Dropper {
    fn drop(&mut self) {
        if !*self.is_dropped {
            *self.is_dropped = true;
        } else {
            panic!();
        }
    }
}

impl Ord for Dropper {
    fn cmp(&self, other: &Dropper) -> Ordering {
        self.num.cmp(&other.num)
    }
}

impl PartialOrd for Dropper {
    fn partial_cmp(&self, other: &Dropper) -> Option<Ordering> {
        Some(self.cmp(other))
    }
}

impl PartialEq for Dropper {
    fn eq(&self, other: &Dropper) -> bool {
        self.num == other.num
    }
}

impl Eq for Dropper {}

/// An element ordered by `key` alone, with `tag` telling equal keys apart.
#[derive(Debug, Clone, Copy)]
struct Keyed {
    key: i32,
    tag: usize,
}

impl Ord for Keyed {
    fn cmp(&self, other: &Keyed) -> Ordering {
        self.key.cmp(&other.key)
    }
}

impl PartialOrd for Keyed {
    fn partial_cmp(&self, other: &Keyed) -> Option<Ordering> {
        Some(self.cmp(other))
    }
}

impl PartialEq for Keyed {
    fn eq(&self, other: &Keyed) -> bool {
        self.key == other.key
    }
}

impl Eq for Keyed {}

fn fuzzer<T>()
where
    T: Ord + Send + Clone + Debug,
    Standard: Distribution<T>,
{
    let fuzz_cap = 100;
    let mut vector = Vec::<T>::with_capacity(fuzz_cap);
    for _ in 0..fuzz_cap {
        vector.push(random());
    }

    vec_test(vector);
}

fn vec_test<T>(mut subject: Vec<T>)
where
    T: Ord + Send + Clone + Debug,
{
    let mut mine = subject.clone();

    merge_sort(&mut mine);
    subject.sort();

    assert_eq!(&mut mine, &mut subject);
}

#[test]
fn in_order() {
    vec_test(vec![1, 2]);
    vec_test(vec![1, 2, 3, 4, 5]);
    vec_test(vec![1, 2, 3, 4, 5, 6, 7, 8]);
    vec_test(vec![1, 2, 3, 4, 5, 6, 7, 8, 9, 10, 11, 12]);
    vec_test(vec![1, 2, 3, 4, 5, 6, 7, 8, 9, 10, 11, 12, 13, 14, 15]);
}

#[test]
fn reverse_order() {
    vec_test(vec![2, 1]);
    vec_test(vec![5, 4, 3, 2, 1]);
    vec_test(vec![8, 7, 6, 5, 4, 3, 2, 1]);
    vec_test(vec![12, 11, 10, 9, 8, 7, 6, 5, 4, 3, 2, 1]);
    vec_test(vec![15, 14, 13, 12, 11, 10, 9, 8, 7, 6, 5, 4, 3, 2, 1]);
}

#[test]
fn fuzz() {
    fuzzer::<char>();
    fuzzer::<i64>();
    fuzzer::<u64>();
}

#[test]
fn edge() {
    vec_test(vec![1]);
    vec_test(Vec::<u32>::new());
    vec_test(vec![
        String::from("z"),
        String::from("y"),
        String::from("x"),
        String::from("w"),
    ]);
    vec_test(vec![
        Dropper::new(0),
        Dropper::new(1),
        Dropper::new(2),
        Dropper::new(3),
        Dropper::new(4),
    ]);
}

#[test]
fn mixed_sequence() {
    let mut v = vec![9, 1, 2, 5, 6, 4, 3, 4, 7];
    merge_sort(&mut v);
    assert_eq!(v, vec![1, 2, 3, 4, 4, 5, 6, 7, 9]);
}

#[test]
fn single_and_empty() {
    let mut one = vec![1];
    merge_sort(&mut one);
    assert_eq!(one, vec![1]);
    let mut none: Vec<i32> = vec![];
    merge_sort(&mut none);
    assert_eq!(none, Vec::<i32>::new());
}

#[test]
fn two_swapped() {
    let mut v = vec![2, 1];
    merge_sort(&mut v);
    assert_eq!(v, vec![1, 2]);
}

#[test]
fn fifteen_descending() {
    let mut v: Vec<i32> = (1..=15).rev().collect();
    merge_sort(&mut v);
    let expected: Vec<i32> = (1..=15).collect();
    assert_eq!(v, expected);
}

#[test]
fn fuzz_strings() {
    let mut v: Vec<String> = Vec::new();
    for _ in 0..100 {
        let n: u32 = random();
        v.push(format!("{}", n % 1000));
    }
    vec_test(v);
}

#[test]
fn equal_keys_keep_their_order() {
    let keys = [3, 1, 3, 2, 1, 3, 2, 1, 0, 3, 2];
    let mut v: Vec<Keyed> = keys
        .iter()
        .enumerate()
        .map(|(tag, &key)| Keyed { key, tag })
        .collect();
    merge_sort(&mut v);
    let got: Vec<(i32, usize)> = v.iter().map(|k| (k.key, k.tag)).collect();
    assert_eq!(
        got,
        vec![
            (0, 8),
            (1, 1),
            (1, 4),
            (1, 7),
            (2, 3),
            (2, 6),
            (2, 10),
            (3, 0),
            (3, 2),
            (3, 5),
            (3, 9)
        ]
    );
}

#[test]
fn modes_agree() {
    let mut base: Vec<i64> = Vec::new();
    for _ in 0..1000 {
        base.push(random::<i64>() % 50);
    }
    let mut parallel = base.clone();
    let mut sequential = base.clone();
    merge_sort_in(&mut parallel, ExecutionMode::Parallel);
    merge_sort_in(&mut sequential, ExecutionMode::Sequential);
    assert_eq!(parallel, sequential);
    base.sort();
    assert_eq!(parallel, base);
}

#[test]
fn sequential_mode_sorts() {
    let mut v = vec![9, 1, 2, 5, 6, 4, 3, 4, 7];
    merge_sort_in(&mut v, ExecutionMode::Sequential);
    assert_eq!(v, vec![1, 2, 3, 4, 4, 5, 6, 7, 9]);
}

#[test]
fn sorted_input_unchanged() {
    let mut v: Vec<u32> = (0..37).collect();
    merge_sort(&mut v);
    let expected: Vec<u32> = (0..37).collect();
    assert_eq!(v, expected);
    merge_sort(&mut v);
    assert_eq!(v, expected);
}

#[test]
fn dropped_exactly_once() {
    let mut v: Vec<Dropper> = (0..33).rev().map(Dropper::new).collect();
    merge_sort_in(&mut v, ExecutionMode::Sequential);
    merge_sort(&mut v);
    let nums: Vec<i32> = v.iter().map(|d| d.num).collect();
    let expected: Vec<i32> = (0..33).collect();
    assert_eq!(nums, expected);
}

#[test]
fn scratch_sizes() {
    assert_eq!(scratch_len(0), 0);
    assert_eq!(scratch_len(1), 0);
    assert_eq!(scratch_len(2), 1);
    assert_eq!(scratch_len(3), 2);
    assert_eq!(scratch_len(5), 4);
    assert_eq!(scratch_len(8), 4);
    assert_eq!(scratch_len(9), 8);
    assert_eq!(scratch_len(15), 8);
    assert_eq!(scratch_len(16), 8);
    assert_eq!(scratch_len(17), 16);
}

#[test]
fn copy_is_sorted_and_input_kept() {
    let input = vec![String::from("b"), String::from("c"), String::from("a")];
    let out = sorted_copy(&input);
    assert_eq!(out, vec![String::from("a"), String::from("b"), String::from("c")]);
    assert_eq!(input, vec![String::from("b"), String::from("c"), String::from("a")]);
}
