//! Counting mentor-novice pairings along a row of people.
//!
//! A mentor teaches every matching novice standing at their position or
//! later.  The second counter works on the row repeated many times, with a
//! maximal teaching distance, and exploits the repetition: it counts one
//! full period and multiplies, handling the two ends separately.

use vstd::prelude::*;

verus! {

/// The least non-negative residue of `a` modulo `b`.
pub fn modulo(a: i64, b: i64) -> (r: i64)
    requires
        b > 0,
        a > i64::MIN,
    ensures
        r == (a as int) % (b as int),
{
    if a >= 0 {
        a % b
    } else {
        let m = (-a) % b;
        proof {
            let x = (-a) as int;
            let d = b as int;
            vstd::arithmetic::div_mod::lemma_fundamental_div_mod(x, d);
            vstd::arithmetic::div_mod::lemma_mod_pos_bound(x, d);
            assert(m == x % d);
            assert(x == d * (x / d) + m);
            assert(d * (x / d) == (x / d) * d) by (nonlinear_arith);
            assert((-(x / d)) * d == -((x / d) * d)) by (nonlinear_arith);
            assert((-(x / d) - 1) * d == -((x / d) * d) - d) by (nonlinear_arith);
            if m == 0 {
                vstd::arithmetic::div_mod::lemma_fundamental_div_mod_converse(
                    a as int,
                    d,
                    -(x / d),
                    0,
                );
            } else {
                vstd::arithmetic::div_mod::lemma_fundamental_div_mod_converse(
                    a as int,
                    d,
                    -(x / d) - 1,
                    d - m,
                );
            }
        }
        if m == 0 {
            0
        } else {
            b - m
        }
    }
}

/// How many entries at position `from` or later equal `c`.
pub open spec fn count_from(people: Seq<u8>, c: u8, from: int) -> int
    decreases people.len() - from,
{
    if from < 0 || from >= people.len() {
        0
    } else {
        count_from(people, c, from + 1) + if people[from] == c {
            1int
        } else {
            0int
        }
    }
}

/// The mentor-novice pairs among the first `upto` positions: for every
/// mentor there, one pair per novice at the mentor's position or later.
pub open spec fn mentor_pairs(people: Seq<u8>, m: u8, nv: u8, upto: int) -> int
    decreases upto,
{
    if upto <= 0 {
        0
    } else {
        mentor_pairs(people, m, nv, upto - 1) + if 0 <= upto - 1 < people.len() && people[upto - 1]
            == m {
            count_from(people, nv, upto - 1)
        } else {
            0int
        }
    }
}

proof fn lemma_count_from_bound(people: Seq<u8>, c: u8, from: int)
    ensures
        0 <= count_from(people, c, from),
        count_from(people, c, from) <= imax(people.len() - from, 0),
        count_from(people, c, from) <= people.len(),
    decreases people.len() - from,
{
    if 0 <= from < people.len() {
        lemma_count_from_bound(people, c, from + 1);
    }
}

proof fn lemma_mentor_pairs_bound(people: Seq<u8>, m: u8, nv: u8, upto: int)
    requires
        upto >= 0,
    ensures
        0 <= mentor_pairs(people, m, nv, upto) <= upto * people.len(),
    decreases upto,
{
    if upto > 0 {
        lemma_mentor_pairs_bound(people, m, nv, upto - 1);
        lemma_count_from_bound(people, nv, upto - 1);
        assert((upto - 1) * people.len() + people.len() == upto * people.len())
            by (nonlinear_arith);
    }
}

/// Counts every mentor-novice pair in the row: a mentor at position `i`
/// pairs with every novice at position `i` or later.
pub fn count(people: &[u8], mentor: char, novice: char) -> (r: i64)
    requires
        people@.len() < 0x8000_0000,
    ensures
        r == mentor_pairs(people@, mentor as u8, novice as u8, people@.len() as int),
{
    let mb = mentor as u8;
    let nb = novice as u8;
    let n = people.len();
    let mut total: i64 = 0;
    let mut i: usize = 0;
    while i < n
        invariant
            n == people@.len(),
            n < 0x8000_0000,
            i <= n,
            total == mentor_pairs(people@, mb, nb, i as int),
        decreases n - i,
    {
        proof {
            lemma_mentor_pairs_bound(people@, mb, nb, i as int);
        }
        if people[i] == mb {
            let mut cnt: i64 = 0;
            let mut j: usize = i;
            proof {
                lemma_count_from_bound(people@, nb, i as int);
            }
            while j < n
                invariant
                    n == people@.len(),
                    n < 0x8000_0000,
                    i <= j <= n,
                    cnt == count_from(people@, nb, i as int) - count_from(people@, nb, j as int),
                    0 <= cnt <= n,
                decreases n - j,
            {
                proof {
                    lemma_count_from_bound(people@, nb, i as int);
                    lemma_count_from_bound(people@, nb, j as int);
                    lemma_count_from_bound(people@, nb, j as int + 1);
                }
                if people[j] == nb {
                    cnt = cnt + 1;
                }
                j = j + 1;
            }
            proof {
                lemma_count_from_bound(people@, nb, i as int);
                assert(0 <= total + cnt <= 0x4000_0000_0000_0000) by (nonlinear_arith)
                    requires
                        0 <= total <= (i as int) * people@.len(),
                        0 <= cnt <= people@.len(),
                        i as int + 1 <= people@.len() < 0x8000_0000,
                ;
            }
            total = total + cnt;
        }
        i = i + 1;
    }
    total
}

/// How many positions in the inclusive window `[lo, hi]` of the repeated
/// row carry `c`; positions wrap around the base row.
pub open spec fn window_count(people: Seq<u8>, c: u8, lo: int, hi: int) -> int
    decreases hi - lo + 1,
{
    if lo > hi {
        0
    } else {
        window_count(people, c, lo, hi - 1) + if people[hi % (people.len() as int)] == c {
            1int
        } else {
            0int
        }
    }
}

/// The greater of two numbers.
pub open spec fn imax(a: int, b: int) -> int {
    if a >= b {
        a
    } else {
        b
    }
}

/// The lesser of two numbers.
pub open spec fn imin(a: int, b: int) -> int {
    if a <= b {
        a
    } else {
        b
    }
}

/// The mentor-novice pairs contributed by the novices standing at
/// positions `[from, to)` of the repeated row: each pairs with every
/// mentor within `d` positions, the row's end respected.
pub open spec fn range_pairs(
    people: Seq<u8>,
    m: u8,
    nv: u8,
    d: int,
    total_len: int,
    from: int,
    to: int,
) -> int
    decreases to - from,
{
    if to <= from {
        0
    } else {
        range_pairs(people, m, nv, d, total_len, from, to - 1) + if people[(to - 1) % (
        people.len() as int)] == nv {
            window_count(people, m, imax(to - 1 - d, 0), imin(to - 1 + d, total_len - 1))
        } else {
            0int
        }
    }
}

proof fn lemma_window_count_bound(people: Seq<u8>, c: u8, lo: int, hi: int)
    ensures
        0 <= window_count(people, c, lo, hi) <= imax(hi - lo + 1, 0),
    decreases hi - lo + 1,
{
    if lo <= hi {
        lemma_window_count_bound(people, c, lo, hi - 1);
    }
}

proof fn lemma_range_pairs_bound(
    people: Seq<u8>,
    m: u8,
    nv: u8,
    d: int,
    total_len: int,
    from: int,
    to: int,
)
    requires
        d >= 0,
    ensures
        0 <= range_pairs(people, m, nv, d, total_len, from, to) <= imax(to - from, 0) * (2 * d
            + 1),
    decreases to - from,
{
    if to > from {
        lemma_range_pairs_bound(people, m, nv, d, total_len, from, to - 1);
        lemma_window_count_bound(
            people,
            m,
            imax(to - 1 - d, 0),
            imin(to - 1 + d, total_len - 1),
        );
        assert(imax(to - 1 - from, 0) * (2 * d + 1) + (2 * d + 1) == imax(to - from, 0) * (2 * d
            + 1)) by (nonlinear_arith)
            requires
                to > from,
                imax(to - 1 - from, 0) == to - 1 - from,
                imax(to - from, 0) == to - from,
        ;
        assert(window_count(people, m, imax(to - 1 - d, 0), imin(to - 1 + d, total_len - 1))
            <= 2 * d + 1);
    }
}

/// Counts the pairs contributed by novices at positions `[from, to)` of
/// the repeated row, each paired with the mentors within `distance`.
fn range_count(
    people: &[u8],
    mentor_b: u8,
    novice_b: u8,
    distance: i64,
    total_len: i64,
    from: i64,
    to: i64,
) -> (r: i64)
    requires
        1 <= people@.len() <= 0x80000,
        0 <= distance <= 0x80000,
        people@.len() <= total_len,
        total_len <= 0x40_0000_0000,
        -0x200000 <= from,
        to <= 0x41_0000_0000,
        to - from <= 0x41_0000_0000,
    ensures
        r == range_pairs(
            people@,
            mentor_b,
            novice_b,
            distance as int,
            total_len as int,
            from as int,
            to as int,
        ),
{
    let len = people.len() as i64;
    let mut total: i64 = 0;
    let mut i: i64 = from;
    if to <= from {
        return 0;
    }
    while i < to
        invariant
            1 <= len == people@.len() <= 0x80000,
            0 <= distance <= 0x80000,
            people@.len() <= total_len <= 0x40_0000_0000,
            -0x200000 <= from <= i <= to <= 0x41_0000_0000,
            to - from <= 0x41_0000_0000,
            total == range_pairs(
                people@,
                mentor_b,
                novice_b,
                distance as int,
                total_len as int,
                from as int,
                i as int,
            ),
            0 <= total,
        decreases to - i,
    {
        proof {
            lemma_range_pairs_bound(
                people@,
                mentor_b,
                novice_b,
                distance as int,
                total_len as int,
                from as int,
                i as int,
            );
        }
        let pos = modulo(i, len);
        if people[pos as usize] == novice_b {
            let start_j: i64 = if i - distance >= 0 {
                i - distance
            } else {
                0
            };
            let end_j: i64 = if i + distance <= total_len - 1 {
                i + distance
            } else {
                total_len - 1
            };
            let mut cnt: i64 = 0;
            if start_j <= end_j {
                let mut j: i64 = start_j;
                while j <= end_j
                    invariant
                        1 <= len == people@.len(),
                        start_j <= j <= end_j + 1,
                        end_j - start_j <= 2 * distance,
                        end_j <= 0x42_0000_0000,
                        0 <= distance <= 0x80000,
                        0 <= start_j,
                        cnt == window_count(people@, mentor_b, start_j as int, j as int - 1),
                        0 <= cnt <= j - start_j,
                    decreases end_j + 1 - j,
                {
                    let pj = modulo(j, len);
                    if people[pj as usize] == mentor_b {
                        cnt = cnt + 1;
                    }
                    j = j + 1;
                }
            }
            proof {
                assert(cnt == window_count(
                    people@,
                    mentor_b,
                    imax(i as int - distance, 0),
                    imin(i as int + distance, total_len as int - 1),
                ));
                lemma_window_count_bound(
                    people@,
                    mentor_b,
                    imax(i as int - distance, 0),
                    imin(i as int + distance, total_len as int - 1),
                );
                lemma_range_pairs_bound(
                    people@,
                    mentor_b,
                    novice_b,
                    distance as int,
                    total_len as int,
                    from as int,
                    i as int,
                );
                assert(total + cnt <= (i as int + 1 - from) * (2 * distance + 1))
                    by (nonlinear_arith)
                    requires
                        total <= imax(i as int - from, 0) * (2 * distance + 1),
                        i as int >= from,
                        imax(i as int - from, 0) == i as int - from,
                        cnt <= 2 * distance + 1,
                        0 <= total,
                        0 <= cnt,
                ;
                assert((i as int + 1 - from) * (2 * distance + 1) <= 0x42_0000_0000 * (2 * 0x80000
                    + 1)) by (nonlinear_arith)
                    requires
                        0 <= i as int + 1 - from <= 0x42_0000_0000,
                        0 <= distance <= 0x80000,
                ;
            }
            total = total + cnt;
        }
        i = i + 1;
    }
    total
}

/// Counts every mentor-novice pair over the row repeated `repeat` times,
/// pairing only within `distance` positions: the two rims are counted
/// directly, one middle period is counted once and multiplied out, and a
/// partial period picks up the remainder.
pub fn count_2(people: &[u8], mentor: char, novice: char, distance: i64, repeat: i64) -> (r: i64)
    requires
        1 <= people@.len() <= 0x80000,
        1 <= distance <= 0x80000,
        1 <= repeat <= 0x80000,
        2 * distance <= people@.len() * repeat,
    ensures
        ({
            let len = people@.len() as int;
            let total_len = len * repeat;
            let d = distance as int;
            let mb = mentor as u8;
            let nb = novice as u8;
            let middle_len = total_len - 2 * d;
            r == range_pairs(people@, mb, nb, d, total_len, 0, d) + range_pairs(
                people@,
                mb,
                nb,
                d,
                total_len,
                d,
                d + len,
            ) * (middle_len / len) + range_pairs(
                people@,
                mb,
                nb,
                d,
                total_len,
                d + len,
                d + len + middle_len % len,
            ) + range_pairs(people@, mb, nb, d, total_len, total_len - d, total_len)
        }),
{
    let len = people.len() as i64;
    proof {
        assert(len <= len * repeat <= 0x40_0000_0000) by (nonlinear_arith)
            requires
                1 <= len <= 0x80000,
                1 <= repeat <= 0x80000,
        ;
    }
    let total_len = len * repeat;
    let mb = mentor as u8;
    let nb = novice as u8;

    let mut total: i64 = 0;

    // the opening rim
    let head = range_count(people, mb, nb, distance, total_len, 0, distance);

    // one full period inside the middle
    let middle_len = total_len - (distance + distance);
    let segment_total = range_count(people, mb, nb, distance, total_len, distance, distance + len);
    let segment_count = middle_len / len;

    // the part of the middle that whole periods do not cover
    let remainder = middle_len % len;
    let rest = range_count(
        people,
        mb,
        nb,
        distance,
        total_len,
        distance + len,
        distance + len + remainder,
    );

    // the closing rim
    let tail = range_count(people, mb, nb, distance, total_len, total_len - distance, total_len);

    proof {
        let d = distance as int;
        lemma_range_pairs_bound(people@, mb, nb, d, total_len as int, 0, d);
        lemma_range_pairs_bound(people@, mb, nb, d, total_len as int, d, d + len);
        lemma_range_pairs_bound(
            people@,
            mb,
            nb,
            d,
            total_len as int,
            d + len,
            d + len + remainder,
        );
        lemma_range_pairs_bound(
            people@,
            mb,
            nb,
            d,
            total_len as int,
            total_len as int - d,
            total_len as int,
        );
        assert(0 <= segment_count <= repeat) by (nonlinear_arith)
            requires
                segment_count == (total_len - 2 * d) / (len as int),
                0 <= total_len - 2 * d <= total_len,
                total_len == len * repeat,
                1 <= len,
                1 <= repeat,
        ;
        assert(0 <= head <= 0x20_0000_0000_0000) by (nonlinear_arith)
            requires
                0 <= head <= imax(d, 0) * (2 * d + 1),
                1 <= d <= 0x80000,
        ;
        assert(0 <= tail <= 0x20_0000_0000_0000) by (nonlinear_arith)
            requires
                0 <= tail <= imax(d, 0) * (2 * d + 1),
                1 <= d <= 0x80000,
        ;
        assert(0 <= rest <= 0x20_0000_0000_0000) by (nonlinear_arith)
            requires
                0 <= rest <= imax(remainder as int, 0) * (2 * d + 1),
                0 <= remainder <= len,
                1 <= len <= 0x80000,
                1 <= d <= 0x80000,
        ;
        assert(0 <= segment_total * segment_count <= 0x2000_0000_0000_0000) by (nonlinear_arith)
            requires
                0 <= segment_total <= imax(len as int, 0) * (2 * d + 1),
                0 <= segment_count <= repeat,
                1 <= len <= 0x80000,
                1 <= d <= 0x80000,
                1 <= repeat <= 0x80000,
        ;
    }
    total = head;
    total = total + segment_total * segment_count;
    total = total + rest;
    total = total + tail;

    total
}

} // verus!
