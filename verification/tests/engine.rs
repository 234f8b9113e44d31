use quests::dna::{get_similarity, map_char, parse_dna, unpack, KinError};
use quests::family::{build_graph, family_of, find_biggest_family, Graph};
use quests::relations::{compute_similarities, find_first_relation, find_parents, Person};

fn person(id: usize, seq: &str) -> Person {
    Person { id, dna: parse_dna(&seq.as_bytes().to_vec()).unwrap() }
}

#[test]
fn codes_are_one_hot() {
    assert_eq!(map_char(b'A'), 0b0001);
    assert_eq!(map_char(b'C'), 0b0010);
    assert_eq!(map_char(b'T'), 0b0100);
    assert_eq!(map_char(b'G'), 0b1000);
}

#[test]
fn round_trip_all_lengths() {
    // lengths below, at and above the 32-symbol word capacity,
    // including exact multiples
    let alphabet = [b'A', b'C', b'T', b'G'];
    for len in 0..130usize {
        let bytes: Vec<u8> = (0..len).map(|i| alphabet[(i * 7 + len) % 4]).collect();
        let dna = parse_dna(&bytes).expect("valid alphabet must encode");
        assert_eq!(dna.len, len);
        assert_eq!(dna.words.len(), (len + 31) / 32);
        assert_eq!(unpack(&dna), bytes);
    }
}

#[test]
fn invalid_symbol_is_rejected() {
    assert!(matches!(
        parse_dna(&b"AXCG".to_vec()),
        Err(KinError::InvalidSymbol)
    ));
    assert!(matches!(
        parse_dna(&b"acgt".to_vec()),
        Err(KinError::InvalidSymbol)
    ));
    assert!(parse_dna(&b"".to_vec()).is_ok());
}

#[test]
fn evaluator_concrete_triple() {
    // child 3 is compatible with parents 1 and 2; per-parent matches are
    // 3 and 3, so the combined score is 9
    let child = parse_dna(&b"AACT".to_vec()).unwrap();
    let pa = parse_dna(&b"AACC".to_vec()).unwrap();
    let pb = parse_dna(&b"AATT".to_vec()).unwrap();
    assert_eq!(get_similarity(&child, &pa, &pb), Some(9));
}

#[test]
fn evaluator_symmetric_in_parents() {
    let child = parse_dna(&b"AACT".to_vec()).unwrap();
    let pa = parse_dna(&b"AACC".to_vec()).unwrap();
    let pb = parse_dna(&b"AATT".to_vec()).unwrap();
    assert_eq!(
        get_similarity(&child, &pa, &pb),
        get_similarity(&child, &pb, &pa)
    );
    let other = parse_dna(&b"GGGG".to_vec()).unwrap();
    assert_eq!(
        get_similarity(&child, &pa, &other),
        get_similarity(&child, &other, &pa)
    );
}

#[test]
fn incompatible_triple_has_no_verdict() {
    let child = parse_dna(&b"GGGG".to_vec()).unwrap();
    let pa = parse_dna(&b"AACC".to_vec()).unwrap();
    let pb = parse_dna(&b"AATT".to_vec()).unwrap();
    assert_eq!(get_similarity(&child, &pa, &pb), None);
}

#[test]
fn length_mismatch_never_verdicts() {
    let s3 = parse_dna(&b"ACT".to_vec()).unwrap();
    let s4 = parse_dna(&b"ACTG".to_vec()).unwrap();
    let s5 = parse_dna(&b"ACTGA".to_vec()).unwrap();
    let all = [&s3, &s4, &s5];
    for c in all.iter() {
        for a in all.iter() {
            for b in all.iter() {
                if c.len != a.len || c.len != b.len {
                    assert_eq!(get_similarity(c, a, b), None);
                }
            }
        }
    }
}

#[test]
fn parent_search_concrete_population() {
    let people = vec![person(1, "AACC"), person(2, "AATT"), person(3, "AACT")];
    // individuals 1 and 2 find no parents; 3 finds (1, 2) with score 9
    assert_eq!(find_parents(&people[0], &people), None);
    assert_eq!(find_parents(&people[1], &people), None);
    assert_eq!(find_parents(&people[2], &people), Some((1, 2, 9)));
    assert_eq!(find_first_relation(&people), Some((3, 1, 2, 9)));
    assert_eq!(compute_similarities(&people), Some(9));
}

#[test]
fn parent_search_empty_and_single() {
    let people: Vec<Person> = Vec::new();
    assert_eq!(find_first_relation(&people), None);
    assert_eq!(compute_similarities(&people), Some(0));
    let one = vec![person(7, "ACTG")];
    assert_eq!(find_parents(&one[0], &one), None);
}

#[test]
fn graph_and_biggest_family() {
    let people = vec![person(1, "AACC"), person(2, "AATT"), person(3, "AACT")];
    let g = build_graph(&people);
    // child 3 linked to both parents; everyone ends up in one family
    let fam1 = family_of(&g, 1);
    let fam3 = family_of(&g, 3);
    let mut s1 = fam1.clone();
    let mut s3 = fam3.clone();
    s1.sort();
    s3.sort();
    assert_eq!(s1, vec![1, 2, 3]);
    assert_eq!(s1, s3);
    assert_eq!(find_biggest_family(&g), Ok(6));
}

#[test]
fn unrelated_population_gives_empty_graph() {
    // five individuals of pairwise different lengths: no triple can have
    // equal lengths, so no relation is ever confirmed
    let people = vec![
        person(1, "A"),
        person(2, "AC"),
        person(3, "ACT"),
        person(4, "ACTG"),
        person(5, "AACTG"),
    ];
    let g = build_graph(&people);
    assert_eq!(g.nodes.len(), 0);
    assert_eq!(find_biggest_family(&g), Err(KinError::EmptyGraph));
}

#[test]
fn biggest_family_stable_under_reordering() {
    let a = vec![person(1, "AACC"), person(2, "AATT"), person(3, "AACT")];
    let b = vec![person(3, "AACT"), person(1, "AACC"), person(2, "AATT")];
    let c = vec![person(2, "AATT"), person(3, "AACT"), person(1, "AACC")];
    let ga = build_graph(&a);
    let gb = build_graph(&b);
    let gc = build_graph(&c);
    assert_eq!(find_biggest_family(&ga), Ok(6));
    assert_eq!(find_biggest_family(&gb), Ok(6));
    assert_eq!(find_biggest_family(&gc), Ok(6));
}

#[test]
fn graph_edges_are_symmetric() {
    let mut g = Graph::new();
    g.add_edge(4, 9);
    g.add_edge(9, 4);
    g.add_edge(4, 9);
    // the symmetric pair is stored once in each direction
    assert_eq!(g.links.len(), 2);
    assert!(g.links.contains(&(4, 9)));
    assert!(g.links.contains(&(9, 4)));
    assert_eq!(g.nodes.len(), 2);
}

#[test]
fn family_of_isolated_start_is_itself() {
    let g = Graph::new();
    assert_eq!(family_of(&g, 42), vec![42]);
}
