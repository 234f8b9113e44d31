use core::cmp::Ordering;

use quests::dial::{match_instruction, part_1, part_2, part_3};
use quests::mentoring::{count, count_2, modulo};
use quests::sword::Sword;
use quests::threads::{count_centers, to_threads};

#[test]
fn modulo_wraps_negatives() {
    assert_eq!(modulo(7, 3), 1);
    assert_eq!(modulo(-5, 3), 1);
    assert_eq!(modulo(-3, 3), 0);
    assert_eq!(modulo(0, 5), 0);
}

#[test]
fn instructions_parse() {
    assert_eq!(match_instruction(b"L12"), -12);
    assert_eq!(match_instruction(b"R7"), 7);
    assert_eq!(match_instruction(b"R0"), 0);
}

fn names() -> Vec<Vec<u8>> {
    vec![b"AAA".to_vec(), b"BBB".to_vec(), b"CCC".to_vec()]
}

fn instrs() -> Vec<Vec<u8>> {
    vec![b"R1".to_vec(), b"L5".to_vec(), b"R2".to_vec()]
}

#[test]
fn dial_clamped() {
    // 0 +1 = 1, 1 -5 clamped to 0, 0 +2 = 2
    assert_eq!(part_1(&names(), &instrs()), b"CCC".to_vec());
}

#[test]
fn dial_wrapped() {
    // 0 +1 = 1, 1 -5 wraps to 2, 2 +2 wraps to 1
    assert_eq!(part_2(&names(), &instrs()), b"BBB".to_vec());
}

#[test]
fn dial_swapped() {
    // swap 0<->1, swap 0<->1, swap 0<->2
    assert_eq!(part_3(&names(), &instrs()), b"CCC".to_vec());
}

#[test]
fn mentors_and_novices() {
    // mentors at 0 and 2: the first sees novices at 1 and 3, the second
    // sees the novice at 3
    assert_eq!(count(b"AaAa", 'A', 'a'), 3);
}

#[test]
fn mentors_over_repeated_row() {
    // row "Aa" twice is "AaAa"; each novice looks one position around
    assert_eq!(count_2(b"Aa", 'A', 'a', 1, 2), 3);
}

#[test]
fn threads_from_nails() {
    assert_eq!(to_threads(&vec![1, 2, 3]), vec![(1, 2), (2, 3)]);
    assert_eq!(to_threads(&vec![5]), vec![]);
    assert_eq!(to_threads(&vec![]), vec![]);
}

#[test]
fn threads_through_center() {
    // with 4 nails, only a difference of exactly 2 crosses the centre
    assert_eq!(count_centers(&vec![(1, 3), (2, 3), (4, 2)], 4), 2);
}

#[test]
fn sword_single_blade() {
    let s = Sword::from_input(9, vec![5]);
    assert_eq!(s.quality(), 5);
}

#[test]
fn sword_edges_fill_before_chain_grows() {
    // 1 < 3 fills the left edge, 5 > 3 the right, 2 starts a new blade,
    // 4 becomes that blade's right edge
    let s = Sword::from_input(1, vec![3, 1, 5, 2, 4]);
    assert_eq!(s.quality(), 32);
    assert_eq!(s.level(), 351);
}

#[test]
fn sword_chain_quality_concatenates() {
    // equal steps never fill an edge, so each starts a new blade
    let s = Sword::from_input(1, vec![5, 5, 5]);
    assert_eq!(s.quality(), 555);
}

#[test]
fn sword_comparisons() {
    let small = Sword::from_input(1, vec![3, 1, 5]);
    let large = Sword::from_input(2, vec![7]);
    assert_eq!(small.cmp_simple(&large), Ordering::Less);
    assert_eq!(large.cmp_simple(&small), Ordering::Greater);
    assert_eq!(small.cmp_simple(&small), Ordering::Equal);
    // equal quality and level: the identifier decides
    let a = Sword::from_input(1, vec![4]);
    let b = Sword::from_input(2, vec![4]);
    assert_eq!(a.cmp_full(&b), Ordering::Less);
    assert_eq!(b.cmp_full(&a), Ordering::Greater);
    assert_eq!(a.cmp_full(&a), Ordering::Equal);
    // quality decides before the identifier
    assert_eq!(small.cmp_full(&large), Ordering::Less);
}
