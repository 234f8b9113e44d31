//! Searching a population for confirmed parent pairs.
//!
//! For a candidate child, every unordered pair of other individuals is tried
//! in the population's own order, and the first pair that the evaluator
//! confirms is reported together with its combined score.

use vstd::prelude::*;

use crate::dna::{combined_score, get_similarity, verdict_present, Dna};

verus! {

/// One individual: a unique unsigned identifier paired with one sequence.
pub struct Person {
    pub id: usize,
    pub dna: Dna,
}

/// Every sequence of the population is well formed.
pub open spec fn population_wf(ppl: Seq<Person>) -> bool {
    forall|i: int| 0 <= i < ppl.len() ==> (#[trigger] ppl[i]).dna.wf()
}

/// Positions `a <= b` name a candidate parent pair for `child`: neither slot
/// is the child itself (by identifier), and the evaluator confirms the
/// triple.  A single individual may fill both slots.
pub open spec fn pair_ok(child: Person, ppl: Seq<Person>, a: int, b: int) -> bool {
    &&& ppl[a].id != child.id
    &&& ppl[b].id != child.id
    &&& verdict_present(child.dna, ppl[a].dna, ppl[b].dna)
}

/// Pair `(a2, b2)` is enumerated before pair `(a, b)`.
pub open spec fn lex_before(a2: int, b2: int, a: int, b: int) -> bool {
    a2 < a || (a2 == a && b2 < b)
}

/// Positions `a <= b` are the first confirmed pair in enumeration order.
pub open spec fn is_first_pair(child: Person, ppl: Seq<Person>, a: int, b: int) -> bool {
    &&& 0 <= a <= b < ppl.len()
    &&& pair_ok(child, ppl, a, b)
    &&& forall|a2: int, b2: int|
        0 <= a2 <= b2 < ppl.len() && lex_before(a2, b2, a, b) ==> !#[trigger] pair_ok(
            child,
            ppl,
            a2,
            b2,
        )
}

/// Some confirmed parent pair exists for `child` in the population.
pub open spec fn has_parents(child: Person, ppl: Seq<Person>) -> bool {
    exists|a: int, b: int| 0 <= a <= b < ppl.len() && #[trigger] pair_ok(child, ppl, a, b)
}

/// At most one pair can be first.
pub proof fn lemma_first_pair_unique(child: Person, ppl: Seq<Person>, a1: int, b1: int, a2: int, b2: int)
    requires
        is_first_pair(child, ppl, a1, b1),
        is_first_pair(child, ppl, a2, b2),
    ensures
        a1 == a2 && b1 == b2,
{
    if lex_before(a1, b1, a2, b2) {
        assert(!pair_ok(child, ppl, a1, b1));
    } else if lex_before(a2, b2, a1, b1) {
        assert(!pair_ok(child, ppl, a2, b2));
    }
}

/// What the parent search returns for `child`: the identifiers of the first
/// confirmed pair together with its combined score, or nothing when no pair
/// is confirmed.
pub open spec fn parents_result(child: Person, ppl: Seq<Person>) -> Option<(usize, usize, u128)> {
    if has_parents(child, ppl) {
        let (a, b) = choose|a: int, b: int| is_first_pair(child, ppl, a, b);
        Some(
            (
                ppl[a].id,
                ppl[b].id,
                combined_score(child.dna, ppl[a].dna, ppl[b].dna) as u128,
            ),
        )
    } else {
        None
    }
}

/// Among the confirmed pairs at or before `(a, b)` there is a first one.
proof fn lemma_first_pair_below(child: Person, ppl: Seq<Person>, a: int, b: int)
    requires
        0 <= a <= b < ppl.len(),
        pair_ok(child, ppl, a, b),
    ensures
        exists|a2: int, b2: int| #[trigger] is_first_pair(child, ppl, a2, b2),
    decreases a * (ppl.len() + 1) + b,
{
    if is_first_pair(child, ppl, a, b) {
    } else {
        let (a2, b2) = choose|a2: int, b2: int|
            0 <= a2 <= b2 < ppl.len() && lex_before(a2, b2, a, b) && #[trigger] pair_ok(
                child,
                ppl,
                a2,
                b2,
            );
        assert(a2 * (ppl.len() + 1) + b2 < a * (ppl.len() + 1) + b) by (nonlinear_arith)
            requires
                0 <= a2 <= b2 < ppl.len(),
                0 <= a <= b < ppl.len(),
                a2 < a || (a2 == a && b2 < b),
        ;
        lemma_first_pair_below(child, ppl, a2, b2);
    }
}

/// Whenever some pair is confirmed, a first confirmed pair exists.
pub proof fn lemma_first_pair_exists(child: Person, ppl: Seq<Person>)
    requires
        has_parents(child, ppl),
    ensures
        exists|a: int, b: int| #[trigger] is_first_pair(child, ppl, a, b),
{
    let (a, b) = choose|a: int, b: int|
        0 <= a <= b < ppl.len() && #[trigger] pair_ok(child, ppl, a, b);
    lemma_first_pair_below(child, ppl, a, b);
}

/// The parent identifiers the search reports belong to the population.
pub proof fn lemma_parents_are_population_ids(child: Person, ppl: Seq<Person>)
    requires
        parents_result(child, ppl) is Some,
    ensures
        parents_result(child, ppl) matches Some((id_a, id_b, _)) ==> (exists|j: int|
            0 <= j < ppl.len() && (#[trigger] ppl[j]).id == id_a) && (exists|j: int|
            0 <= j < ppl.len() && (#[trigger] ppl[j]).id == id_b),
{
    lemma_first_pair_exists(child, ppl);
    let (a, b) = choose|a: int, b: int| is_first_pair(child, ppl, a, b);
    assert(0 <= a <= b < ppl.len());
    assert((ppl[a]).id == ppl[a].id);
    assert((ppl[b]).id == ppl[b].id);
}

/// A first pair exists whenever any confirmed pair exists.
proof fn lemma_has_parents_first(child: Person, ppl: Seq<Person>, a: int, b: int)
    requires
        0 <= a <= b < ppl.len(),
        pair_ok(child, ppl, a, b),
        forall|a2: int, b2: int|
            0 <= a2 <= b2 < ppl.len() && lex_before(a2, b2, a, b) ==> !#[trigger] pair_ok(
                child,
                ppl,
                a2,
                b2,
            ),
    ensures
        parents_result(child, ppl) == Some(
            (
                ppl[a].id,
                ppl[b].id,
                combined_score(child.dna, ppl[a].dna, ppl[b].dna) as u128,
            ),
        ),
{
    assert(pair_ok(child, ppl, a, b));
    assert(has_parents(child, ppl));
    let (ax, bx) = choose|ax: int, bx: int| is_first_pair(child, ppl, ax, bx);
    lemma_first_pair_unique(child, ppl, a, b, ax, bx);
}

/// Searches all unordered pairs of other individuals, in population order,
/// and returns the first pair the evaluator confirms, with its score.
pub fn find_parents(child: &Person, everyone: &Vec<Person>) -> (r: Option<(usize, usize, u128)>)
    requires
        child.dna.wf(),
        population_wf(everyone@),
    ensures
        r == parents_result(*child, everyone@),
        r is Some <==> has_parents(*child, everyone@),
{
    let n = everyone.len();
    let mut a: usize = 0;
    while a < n
        invariant
            n == everyone@.len(),
            a <= n,
            child.dna.wf(),
            population_wf(everyone@),
            forall|a2: int, b2: int|
                0 <= a2 <= b2 < n && a2 < a ==> !#[trigger] pair_ok(*child, everyone@, a2, b2),
        decreases n - a,
    {
        let mut b: usize = a;
        while b < n
            invariant
                n == everyone@.len(),
                a < n,
                a <= b <= n,
                child.dna.wf(),
                population_wf(everyone@),
                forall|a2: int, b2: int|
                    0 <= a2 <= b2 < n && a2 < a ==> !#[trigger] pair_ok(*child, everyone@, a2, b2),
                forall|b2: int|
                    a <= b2 < b ==> !#[trigger] pair_ok(*child, everyone@, a as int, b2),
            decreases n - b,
        {
            let id_a = everyone[a].id;
            let id_b = everyone[b].id;
            if id_a != child.id && id_b != child.id {
                let verdict = get_similarity(&child.dna, &everyone[a].dna, &everyone[b].dna);
                if let Some(score) = verdict {
                    proof {
                        lemma_has_parents_first(*child, everyone@, a as int, b as int);
                    }
                    return Some((id_a, id_b, score));
                }
            }
            b = b + 1;
        }
        a = a + 1;
    }
    proof {
        if has_parents(*child, everyone@) {
            let (ax, bx) = choose|ax: int, bx: int|
                0 <= ax <= bx < everyone@.len() && pair_ok(*child, everyone@, ax, bx);
            assert(!pair_ok(*child, everyone@, ax, bx));
        }
    }
    None
}

/// Any two confirmed pairs for `child` name the same two parent
/// identifiers, in one slot order or the other.
pub open spec fn unambiguous_parents(child: Person, ppl: Seq<Person>) -> bool {
    forall|a: int, b: int, a2: int, b2: int|
        0 <= a <= b < ppl.len() && 0 <= a2 <= b2 < ppl.len() && #[trigger] pair_ok(
            child,
            ppl,
            a,
            b,
        ) && #[trigger] pair_ok(child, ppl, a2, b2) ==> ((ppl[a].id == ppl[a2].id && ppl[b].id
            == ppl[b2].id) || (ppl[a].id == ppl[b2].id && ppl[b].id == ppl[a2].id))
}

/// The two parent identifiers the search reports for `child`, as a set;
/// empty when no pair is confirmed.
pub open spec fn parent_id_set(child: Person, ppl: Seq<Person>) -> Set<usize> {
    match parents_result(child, ppl) {
        Some((id_a, id_b, _)) => Set::empty().insert(id_a).insert(id_b),
        None => Set::empty(),
    }
}

/// A pair confirmed in one population is confirmed in any rearrangement
/// of it, with the same two individuals in its slots.
proof fn lemma_pair_ok_permuted(p1: Seq<Person>, p2: Seq<Person>, c: Person, a: int, b: int)
    requires
        p1.to_multiset() == p2.to_multiset(),
        0 <= a <= b < p1.len(),
        pair_ok(c, p1, a, b),
    ensures
        exists|a2: int, b2: int|
            0 <= a2 <= b2 < p2.len() && #[trigger] pair_ok(c, p2, a2, b2) && ((p2[a2] == p1[a]
                && p2[b2] == p1[b]) || (p2[a2] == p1[b] && p2[b2] == p1[a])),
{
    p1.to_multiset_ensures();
    p2.to_multiset_ensures();
    assert(p1.contains(p1[a]) && p1.contains(p1[b]));
    assert(p2.to_multiset().count(p1[a]) > 0 && p2.to_multiset().count(p1[b]) > 0);
    assert(p2.contains(p1[a]) && p2.contains(p1[b]));
    let i = choose|i: int| 0 <= i < p2.len() && p2[i] == p1[a];
    let j = choose|j: int| 0 <= j < p2.len() && p2[j] == p1[b];
    crate::dna::lemma_parent_symmetry(c.dna, p1[a].dna, p1[b].dna);
    if i <= j {
        assert(pair_ok(c, p2, i, j));
    } else {
        assert(pair_ok(c, p2, j, i));
    }
}

/// On populations holding the same individuals, a child whose confirmed
/// pair is unambiguous is reported the same two parent identifiers, in
/// whichever order the individuals are listed.
pub proof fn lemma_parents_result_permuted(p1: Seq<Person>, p2: Seq<Person>, c: Person)
    requires
        p1.to_multiset() == p2.to_multiset(),
        unambiguous_parents(c, p1),
    ensures
        has_parents(c, p1) <==> has_parents(c, p2),
        parent_id_set(c, p1) == parent_id_set(c, p2),
{
    p1.to_multiset_ensures();
    p2.to_multiset_ensures();
    if has_parents(c, p1) {
        let (a, b) = choose|a: int, b: int|
            0 <= a <= b < p1.len() && #[trigger] pair_ok(c, p1, a, b);
        lemma_pair_ok_permuted(p1, p2, c, a, b);
    }
    if has_parents(c, p2) {
        let (a, b) = choose|a: int, b: int|
            0 <= a <= b < p2.len() && #[trigger] pair_ok(c, p2, a, b);
        lemma_pair_ok_permuted(p2, p1, c, a, b);
    }
    if has_parents(c, p1) {
        lemma_first_pair_exists(c, p1);
        lemma_first_pair_exists(c, p2);
        let (a1, b1) = choose|a: int, b: int| is_first_pair(c, p1, a, b);
        let (a2, b2) = choose|a: int, b: int| is_first_pair(c, p2, a, b);
        // carry the second population's reported pair back to the first
        lemma_pair_ok_permuted(p2, p1, c, a2, b2);
        let (a3, b3) = choose|a3: int, b3: int|
            0 <= a3 <= b3 < p1.len() && #[trigger] pair_ok(c, p1, a3, b3) && ((p1[a3] == p2[a2]
                && p1[b3] == p2[b2]) || (p1[a3] == p2[b2] && p1[b3] == p2[a2]));
        assert((p1[a1].id == p1[a3].id && p1[b1].id == p1[b3].id) || (p1[a1].id == p1[b3].id
            && p1[b1].id == p1[a3].id));
        assert(parent_id_set(c, p1) =~= parent_id_set(c, p2));
    } else {
        assert(parent_id_set(c, p1) =~= parent_id_set(c, p2));
    }
}

/// The index of the first individual with a confirmed parent pair.
pub open spec fn is_first_child(ppl: Seq<Person>, i: int) -> bool {
    &&& 0 <= i < ppl.len()
    &&& has_parents(ppl[i], ppl)
    &&& forall|j: int| 0 <= j < i ==> !has_parents(#[trigger] ppl[j], ppl)
}

/// Scans the population in order and reports the first individual with a
/// confirmed parent pair: its identifier, the two parent identifiers and the
/// combined score.
pub fn find_first_relation(people: &Vec<Person>) -> (r: Option<(usize, usize, usize, u128)>)
    requires
        population_wf(people@),
    ensures
        r is Some <==> exists|i: int|
            0 <= i < people@.len() && has_parents(#[trigger] people@[i], people@),
        r matches Some((id, id_a, id_b, score)) ==> exists|i: int|
            #[trigger] is_first_child(people@, i) && id == people@[i].id && parents_result(
                people@[i],
                people@,
            ) == Some((id_a, id_b, score)),
{
    let n = people.len();
    let mut i: usize = 0;
    while i < n
        invariant
            n == people@.len(),
            i <= n,
            population_wf(people@),
            forall|j: int| 0 <= j < i ==> !has_parents(#[trigger] people@[j], people@),
        decreases n - i,
    {
        let child = &people[i];
        if let Some((id_a, id_b, score)) = find_parents(child, people) {
            proof {
                assert(is_first_child(people@, i as int));
            }
            return Some((child.id, id_a, id_b, score));
        }
        i = i + 1;
    }
    None
}

/// The summed combined scores over the first `n` individuals; an individual
/// with no confirmed parents contributes zero.
pub open spec fn total_score(ppl: Seq<Person>, n: int) -> int
    decreases n,
{
    if n <= 0 {
        0
    } else {
        total_score(ppl, n - 1) + match parents_result(ppl[n - 1], ppl) {
            Some((_, _, score)) => score as int,
            None => 0,
        }
    }
}

/// Runs the parent search for every individual and sums the combined scores
/// of all individuals that found parents.  Reports nothing only when the
/// exact total does not fit the result type.
pub fn compute_similarities(everyone: &Vec<Person>) -> (r: Option<u128>)
    requires
        population_wf(everyone@),
    ensures
        r is Some <==> total_score(everyone@, everyone@.len() as int) <= u128::MAX,
        r matches Some(total) ==> total == total_score(everyone@, everyone@.len() as int),
{
    let n = everyone.len();
    let mut total: u128 = 0;
    let mut i: usize = 0;
    while i < n
        invariant
            n == everyone@.len(),
            i <= n,
            population_wf(everyone@),
            total == total_score(everyone@, i as int),
        decreases n - i,
    {
        if let Some((_, _, score)) = find_parents(&everyone[i], everyone) {
            if score > u128::MAX - total {
                proof {
                    lemma_total_score_monotonic(everyone@, i as int + 1, n as int);
                }
                return None;
            }
            total = total + score;
        }
        i = i + 1;
    }
    Some(total)
}

/// Partial sums of the scores never decrease as the prefix grows.
proof fn lemma_total_score_monotonic(ppl: Seq<Person>, n: int, m: int)
    requires
        0 <= n <= m,
    ensures
        total_score(ppl, n) <= total_score(ppl, m),
    decreases m - n,
{
    if n < m {
        lemma_total_score_monotonic(ppl, n, m - 1);
    }
}

} // verus!
