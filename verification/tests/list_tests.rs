use rpn_calc::hanoi::{hanoi, Peg};
use rpn_calc::list_ops::{dedup, filter, sum};
use rpn_calc::sieve::sieve;

fn negative_predicate(x: i32) -> bool {
    x < 0
}

#[test]
fn test_sum_zero() {
    let array = [1, 2, 3, 4, 5, -5, -4, -3, -2, -1, 100, -100];
    assert_eq!(sum(&array), 0);
}

#[test]
fn test_dedup_once() {
    let vs = vec![1, 1, 1, 1, 1];
    assert_eq!(dedup(&vs), vec![1]);
}

#[test]
fn test_filter_negative() {
    let vs = vec![1, -2, 3, -4, 5];
    assert_eq!(filter(&vs, &negative_predicate), vec![-2, -4]);
}

#[test]
fn test_sum_simple() {
    let array = [10, 20, 12];
    assert_eq!(sum(&array), 42);
    let empty: [i32; 0] = [];
    assert_eq!(sum(&empty), 0);
}

#[test]
fn test_dedup_keeps_first_occurrences() {
    let vs = vec![3, 1, 3, 2, 1, 4];
    assert_eq!(dedup(&vs), vec![3, 1, 2, 4]);
    let empty: Vec<i32> = Vec::new();
    assert_eq!(dedup(&empty), Vec::<i32>::new());
}

#[test]
fn test_sieve_basic() {
    assert_eq!(vec![2, 3, 5, 7, 11], sieve(12));
}

#[test]
fn test_sieve_small_bounds() {
    assert_eq!(sieve(0), Vec::<u32>::new());
    assert_eq!(sieve(2), Vec::<u32>::new());
    assert_eq!(sieve(3), vec![2]);
}

#[test]
fn test_sieve_thirty() {
    assert_eq!(sieve(30), vec![2, 3, 5, 7, 11, 13, 17, 19, 23, 29]);
}

#[test]
fn test_hanoi_one_disc() {
    let result = hanoi(1, Peg::A, Peg::B, Peg::C);
    assert_eq!(vec![(Peg::A, Peg::C)], result);
    assert_eq!(1, result.len());
}

#[test]
fn test_hanoi_two_discs() {
    let result = hanoi(2, Peg::A, Peg::B, Peg::C);
    assert_eq!(result, vec![(Peg::A, Peg::B), (Peg::A, Peg::C), (Peg::B, Peg::C)]);
}

#[test]
fn test_hanoi_move_count() {
    assert_eq!(hanoi(0, Peg::A, Peg::B, Peg::C).len(), 0);
    assert_eq!(hanoi(5, Peg::A, Peg::B, Peg::C).len(), 31);
}
