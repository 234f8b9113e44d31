use quests::boxes::{part_1, part_2, part_3, unique};
use quests::engraving::{is_engraved, part_1 as engrave_three, part_2 as engrave_count, Complex};
use quests::naming::{find_valids, first_valid, is_valid, Rules};

#[test]
fn unique_keeps_first_occurrences() {
    let u = unique(&vec![3, 1, 3, 2, 1]);
    assert_eq!(u, vec![3, 1, 2]);
    assert_eq!(unique(&vec![]), Vec::<i64>::new());
}

#[test]
fn distinct_sum() {
    assert_eq!(part_1(vec![3, 1, 3, 2, 1]), 6);
    assert_eq!(part_1(vec![]), 0);
    assert_eq!(part_1(vec![-4, -4, 9]), 5);
}

#[test]
fn twenty_smallest_distinct_sum() {
    // 0..=21 with noise duplicates: the twenty smallest are 0..=19
    let mut v: Vec<i64> = (0..22).collect();
    v.push(21);
    v.push(5);
    assert_eq!(part_2(v), 190);
}

#[test]
fn clearing_rounds_is_greatest_multiplicity() {
    assert_eq!(part_3(vec![5, 5, 2, 5, 2]), 3);
    assert_eq!(part_3(vec![7]), 1);
    assert_eq!(part_3(vec![]), 0);
}

fn rules() -> Rules {
    Rules {
        keys: vec![b'a', b'b'],
        succ: vec![vec![b'b'], vec![b'a', b'b']],
    }
}

#[test]
fn name_validity() {
    assert!(is_valid(&b"abba".to_vec(), &rules()));
    assert!(!is_valid(&b"aab".to_vec(), &rules()));
    assert!(is_valid(&b"a".to_vec(), &rules()));
    assert!(is_valid(&b"".to_vec(), &rules()));
}

#[test]
fn valid_names_keep_their_positions() {
    let names = vec![b"aa".to_vec(), b"ab".to_vec(), b"bb".to_vec()];
    let found = find_valids(&names, &rules());
    assert_eq!(found, vec![(1, b"ab".to_vec()), (2, b"bb".to_vec())]);
    assert_eq!(first_valid(&names, &rules()), Some(b"ab".to_vec()));
    let none = vec![b"aa".to_vec()];
    assert_eq!(first_valid(&none, &rules()), None);
}

#[test]
fn engraving_three_iterations() {
    // r1 = a, r2 = a*a/10 + a, r3 = r2*r2/10 + a, componentwise complex
    let r = engrave_three(Complex { x: 161, y: 53 });
    // r1 = (161, 53); r1*r1 = (23112, 17066); /10 -> (2311, 1706);
    // r2 = (2472, 1759); r2*r2 = (3016703, 8696496); /10 -> (301670, 869649);
    // r3 = (301831, 869702)
    assert_eq!((r.x, r.y), (301831, 869702));
}

#[test]
fn engraved_point_stays_inside() {
    // the origin never moves, so it is engraved
    assert!(is_engraved(Complex { x: 0, y: 0 }));
    // a far point leaves the area immediately
    assert!(!is_engraved(Complex { x: 90_000_000, y: 0 }));
}

#[test]
fn engraved_grid_counts_samples() {
    // around the origin every sampled point stays small: all are engraved
    let total = engrave_count(Complex { x: -500, y: -500 }, 500);
    assert_eq!(total, 9);
}
