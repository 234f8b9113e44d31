//! Packed DNA sequences over the alphabet {A, C, T, G}.
//!
//! Each symbol is encoded as a distinct single active bit inside a 4-bit
//! field, and the fields are packed least-significant-field-first into
//! `u128` words of 32 fields each.  The one-hot codes let the compatibility
//! test of the evaluator work by bitwise intersection of fields.

use vstd::prelude::*;

verus! {

/// Errors of the relationship engine.
#[derive(Debug, Clone, Copy, PartialEq, Eq, Structural)]
pub enum KinError {
    /// A sequence held a byte outside the alphabet {A, C, T, G}.
    InvalidSymbol,
    /// The largest family was asked of a graph with no members.
    EmptyGraph,
}

/// The four ASCII bytes 'A', 'C', 'T' and 'G' that may compose a sequence.
pub open spec fn is_base(b: u8) -> bool {
    b == 65 || b == 67 || b == 84 || b == 71
}

/// The one-hot 4-bit code of a base: A -> 0001, C -> 0010, T -> 0100, G -> 1000.
pub open spec fn code_of(b: u8) -> u128 {
    if b == 65 {
        1
    } else if b == 67 {
        2
    } else if b == 84 {
        4
    } else {
        8
    }
}

/// The base whose one-hot code is `c`; the inverse of `code_of` on one-hot fields.
pub open spec fn base_of(c: u128) -> u8 {
    if c == 1 {
        65
    } else if c == 2 {
        67
    } else if c == 4 {
        84
    } else {
        71
    }
}

/// A 4-bit field holding exactly one active bit.
pub open spec fn one_hot(c: u128) -> bool {
    c == 1 || c == 2 || c == 4 || c == 8
}

/// The `i`-th 4-bit field of a word sequence, fields packed 32 to a word,
/// least significant first.
pub open spec fn field_at(words: Seq<u128>, i: int) -> u128 {
    (words[i / 32] >> ((4 * (i % 32)) as u128)) & 0xf
}

/// A sequence of symbols, kept as its original symbol count plus the packed
/// one-hot fields.
pub struct Dna {
    pub len: usize,
    pub words: Vec<u128>,
}

impl Dna {
    /// The code stored at symbol position `i`.
    pub open spec fn sym(self, i: int) -> u128 {
        field_at(self.words@, i)
    }

    /// A well-formed packing: exactly enough words for `len` symbols, a
    /// one-hot field at every position below `len`, and zeroed fields after.
    pub open spec fn wf(self) -> bool {
        &&& self.words@.len() == (self.len + 31) / 32
        &&& forall|i: int| 0 <= i < self.len ==> one_hot(#[trigger] field_at(self.words@, i))
        &&& forall|i: int|
            self.len <= i < self.words@.len() * 32 ==> #[trigger] field_at(self.words@, i) == 0
    }

    /// This packing encodes exactly the byte sequence `s`.
    pub open spec fn encodes(self, s: Seq<u8>) -> bool {
        &&& self.wf()
        &&& self.len == s.len()
        &&& forall|i: int| 0 <= i < s.len() ==> self.sym(i) == code_of(#[trigger] s[i])
    }
}

/// The one-hot code of one base character.
pub fn map_char(c: u8) -> (r: u128)
    requires
        is_base(c),
    ensures
        r == code_of(c),
        one_hot(r),
{
    if c == 65 {
        1
    } else if c == 67 {
        2
    } else if c == 84 {
        4
    } else {
        8
    }
}

/// Bits strictly below field `m` of an accumulator word are untouched when a
/// small code is placed at field `m`.
proof fn lemma_or_keeps_low(acc: u128, code: u128, m: u128, j: u128)
    requires
        m < 32,
        j < m,
        code < 16,
    ensures
        ((acc | (code << (4 * m))) >> (4 * j)) & 0xf == (acc >> (4 * j)) & 0xf,
{
    assert(((acc | (code << (4 * m))) >> (4 * j)) & 0xf == (acc >> (4 * j)) & 0xf)
        by (bit_vector)
        requires
            m < 32,
            j < m,
            code < 16,
    ;
}

/// Placing a small code at field `m` of a word whose bits from field `m` up
/// are clear stores exactly that code at field `m`.
proof fn lemma_or_sets_field(acc: u128, code: u128, m: u128)
    requires
        m < 32,
        code < 16,
        acc >> (4 * m) == 0,
    ensures
        ((acc | (code << (4 * m))) >> (4 * m)) & 0xf == code,
        m < 31 ==> (acc | (code << (4 * m))) >> (4 * (m + 1)) == 0,
{
    assert(((acc | (code << (4 * m))) >> (4 * m)) & 0xf == code) by (bit_vector)
        requires
            m < 32,
            code < 16,
            acc >> (4 * m) == 0,
    ;
    if m < 31 {
        assert((acc | (code << (4 * m))) >> (4 * (m + 1)) == 0) by (bit_vector)
            requires
                m < 31,
                code < 16,
                acc >> (4 * m) == 0,
        ;
    }
}

/// Every field at or above field `m` of a word whose bits from field `m` up
/// are clear reads as zero.
proof fn lemma_high_fields_zero(acc: u128, m: u128, j: u128)
    requires
        m <= j < 32,
        acc >> (4 * m) == 0,
    ensures
        (acc >> (4 * j)) & 0xf == 0,
{
    assert((acc >> (4 * j)) & 0xf == 0) by (bit_vector)
        requires
            m <= j < 32,
            acc >> (4 * m) == 0,
    ;
}

/// Two one-hot fields intersect exactly when they are equal.
proof fn lemma_one_hot_meet(x: u128, y: u128)
    requires
        one_hot(x),
        one_hot(y),
    ensures
        (x & y != 0) <==> x == y,
{
    assert((x & y != 0) <==> x == y) by (bit_vector)
        requires
            (x == 1 || x == 2 || x == 4 || x == 8) && (y == 1 || y == 2 || y == 4 || y == 8),
    ;
}

/// A cleared word reads as zero under any shift.
proof fn lemma_zero_shift(sh: u128)
    ensures
        (0 as u128) >> sh == 0,
{
    assert((0 as u128) >> sh == 0) by (bit_vector);
}

/// Packs a byte sequence into a `Dna` value, 32 one-hot fields per word.
/// Rejects any byte outside the alphabet.
pub fn parse_dna(s: &Vec<u8>) -> (r: Result<Dna, KinError>)
    ensures
        r is Ok <==> (forall|i: int| 0 <= i < s@.len() ==> is_base(#[trigger] s@[i])),
        r is Err ==> r == Err::<Dna, KinError>(KinError::InvalidSymbol),
        r matches Ok(d) ==> d.encodes(s@),
{
    let n = s.len();
    let mut words: Vec<u128> = Vec::new();
    let mut acc: u128 = 0;
    let mut i: usize = 0;
    proof {
        lemma_zero_shift((4 * (i % 32)) as u128);
    }
    while i < n
        invariant
            n == s@.len(),
            i <= n,
            words@.len() == i / 32,
            forall|j: int| 0 <= j < i ==> is_base(#[trigger] s@[j]),
            forall|j: int|
                0 <= j < words@.len() * 32 ==> #[trigger] field_at(words@, j) == code_of(s@[j]),
            acc >> ((4 * (i % 32)) as u128) == 0,
            forall|j: int|
                words@.len() * 32 <= j < i ==> (acc >> ((4 * (j % 32)) as u128)) & 0xf == code_of(
                    #[trigger] s@[j],
                ),
        decreases n - i,
    {
        let c = s[i];
        if !(c == 65 || c == 67 || c == 84 || c == 71) {
            return Err(KinError::InvalidSymbol);
        }
        let code = map_char(c);
        let m = i % 32;
        proof {
            let ghost acc0 = acc;
            assert forall|j: int| words@.len() * 32 <= j < i implies ((acc0 | (code << ((4 * (
                i % 32)) as u128))) >> ((4 * (j % 32)) as u128)) & 0xf == code_of(s@[j]) by {
                lemma_or_keeps_low(acc0, code, (i % 32) as u128, (j % 32) as u128);
            }
            lemma_or_sets_field(acc, code, (i % 32) as u128);
        }
        acc = acc | (code << ((4 * m) as u128));
        i = i + 1;
        proof {
            if i % 32 != 0 {
                assert(i % 32 == m + 1);
            }
        }
        if i % 32 == 0 {
            proof {
                let ghost w2 = words@.push(acc);
                assert forall|j: int| 0 <= j < w2.len() * 32 implies #[trigger] field_at(w2, j)
                    == code_of(s@[j]) by {
                    if j < words@.len() * 32 {
                        assert(w2[j / 32] == words@[j / 32]);
                        assert(field_at(words@, j) == code_of(s@[j]));
                    } else {
                        assert(j / 32 == words@.len());
                        assert(w2[j / 32] == acc);
                    }
                }
            }
            words.push(acc);
            acc = 0;
            assert(words@.len() == i / 32);
            proof {
                lemma_zero_shift((4 * (i % 32)) as u128);
            }
        }
    }
    if i % 32 != 0 {
        proof {
            let ghost w2 = words@.push(acc);
            assert forall|j: int| 0 <= j < n implies #[trigger] field_at(w2, j) == code_of(
                s@[j],
            ) by {
                if j < words@.len() * 32 {
                    assert(w2[j / 32] == words@[j / 32]);
                    assert(field_at(words@, j) == code_of(s@[j]));
                } else {
                    assert(j / 32 == words@.len());
                    assert(w2[j / 32] == acc);
                }
            }
            assert forall|j: int| n <= j < w2.len() * 32 implies #[trigger] field_at(w2, j)
                == 0 by {
                assert(j / 32 == words@.len());
                assert(w2[j / 32] == acc);
                lemma_high_fields_zero(acc, (n % 32) as u128, (j % 32) as u128);
            }
        }
        words.push(acc);
    }
    let d = Dna { len: n, words };
    proof {
        assert(d.words@.len() == (n + 31) / 32);
        assert forall|j: int| 0 <= j < n implies one_hot(#[trigger] field_at(d.words@, j)) by {
            assert(field_at(d.words@, j) == code_of(s@[j]));
        }
    }
    Ok(d)
}

/// Unpacks a `Dna` value back into the byte sequence it encodes.
pub fn unpack(d: &Dna) -> (r: Vec<u8>)
    requires
        d.wf(),
    ensures
        r@.len() == d.len,
        forall|i: int| 0 <= i < d.len ==> #[trigger] r@[i] == base_of(d.sym(i)),
{
    let mut out: Vec<u8> = Vec::new();
    let mut i: usize = 0;
    while i < d.len
        invariant
            d.wf(),
            i <= d.len,
            out@.len() == i,
            forall|j: int| 0 <= j < i ==> #[trigger] out@[j] == base_of(d.sym(j)),
        decreases d.len - i,
    {
        proof {
            assert(i / 32 < d.words@.len()) by (nonlinear_arith)
                requires
                    i < d.len,
                    d.words@.len() == (d.len + 31) / 32,
            ;
        }
        let w = d.words[i / 32];
        let f = (w >> ((4 * (i % 32)) as u128)) & 0xf;
        assert(f == d.sym(i as int));
        let b: u8 = if f == 1 {
            65
        } else if f == 2 {
            67
        } else if f == 4 {
            84
        } else {
            71
        };
        out.push(b);
        i = i + 1;
    }
    out
}

/// The child code at every position is also carried by at least one of the
/// two parents at the same position: no position rules the triple out.
pub open spec fn all_compatible(c: Dna, a: Dna, b: Dna) -> bool {
    forall|i: int| 0 <= i < c.len ==> #[trigger] c.sym(i) == a.sym(i) || c.sym(i) == b.sym(i)
}

/// The evaluator produces a verdict exactly when the three symbol counts
/// agree and no position is incompatible.
pub open spec fn verdict_present(c: Dna, a: Dna, b: Dna) -> bool {
    c.len == a.len && c.len == b.len && all_compatible(c, a, b)
}

/// How many of the first `n` positions of `c` carry the same code in `p`.
pub open spec fn match_count(c: Dna, p: Dna, n: int) -> int
    decreases n,
{
    if n <= 0 {
        0
    } else {
        match_count(c, p, n - 1) + if c.sym(n - 1) == p.sym(n - 1) {
            1int
        } else {
            0int
        }
    }
}

/// The combined relationship score of a confirmed triple: the per-parent
/// match counts multiplied together.
pub open spec fn combined_score(c: Dna, a: Dna, b: Dna) -> int {
    match_count(c, a, c.len as int) * match_count(c, b, c.len as int)
}

/// A prefix match count never exceeds the prefix length.
pub proof fn lemma_match_count_bound(c: Dna, p: Dna, n: int)
    requires
        n >= 0,
    ensures
        0 <= match_count(c, p, n) <= n,
    decreases n,
{
    if n > 0 {
        lemma_match_count_bound(c, p, n - 1);
    }
}

/// Compares a candidate child against two candidate parents.  Returns the
/// combined score when every position of the child is compatible with at
/// least one parent, and no verdict when the lengths differ or some position
/// is compatible with neither.
pub fn get_similarity(c: &Dna, a: &Dna, b: &Dna) -> (r: Option<u128>)
    requires
        c.wf(),
        a.wf(),
        b.wf(),
    ensures
        r is Some <==> verdict_present(*c, *a, *b),
        r matches Some(score) ==> score == combined_score(*c, *a, *b),
{
    if c.len != a.len || c.len != b.len {
        return None;
    }
    let n = c.len;
    let mut score_a: usize = 0;
    let mut score_b: usize = 0;
    let mut i: usize = 0;
    while i < n
        invariant
            c.wf(),
            a.wf(),
            b.wf(),
            n == c.len && n == a.len && n == b.len,
            i <= n,
            forall|j: int| 0 <= j < i ==> #[trigger] c.sym(j) == a.sym(j) || c.sym(j) == b.sym(j),
            score_a == match_count(*c, *a, i as int),
            score_b == match_count(*c, *b, i as int),
        decreases n - i,
    {
        proof {
            assert(i / 32 < c.words@.len()) by (nonlinear_arith)
                requires
                    i < n,
                    c.words@.len() == (n + 31) / 32,
            ;
            lemma_match_count_bound(*c, *a, i as int);
            lemma_match_count_bound(*c, *b, i as int);
        }
        let sh = (4 * (i % 32)) as u128;
        let ci = (c.words[i / 32] >> sh) & 0xf;
        let ai = (a.words[i / 32] >> sh) & 0xf;
        let bi = (b.words[i / 32] >> sh) & 0xf;
        assert(ci == c.sym(i as int) && ai == a.sym(i as int) && bi == b.sym(i as int));
        if (ci & ai) == 0 && (ci & bi) == 0 {
            proof {
                lemma_one_hot_meet(ci, ai);
                lemma_one_hot_meet(ci, bi);
            }
            return None;
        }
        proof {
            lemma_one_hot_meet(ci, ai);
            lemma_one_hot_meet(ci, bi);
        }
        if ai == ci {
            score_a = score_a + 1;
        }
        if bi == ci {
            score_b = score_b + 1;
        }
        i = i + 1;
    }
    proof {
        lemma_match_count_bound(*c, *a, n as int);
        lemma_match_count_bound(*c, *b, n as int);
    }
    let wide_a = score_a as u128;
    let wide_b = score_b as u128;
    proof {
        assert(wide_a * wide_b <= u128::MAX) by (nonlinear_arith)
            requires
                wide_a < 0x1_0000_0000_0000_0000,
                wide_b < 0x1_0000_0000_0000_0000,
        ;
    }
    Some(wide_a * wide_b)
}

/// The verdict is symmetric in the two parents: swapping them neither
/// creates nor destroys a verdict, and the combined score is unchanged,
/// because the per-parent match counts merely trade places.
pub proof fn lemma_parent_symmetry(c: Dna, a: Dna, b: Dna)
    ensures
        verdict_present(c, a, b) <==> verdict_present(c, b, a),
        combined_score(c, a, b) == combined_score(c, b, a),
{
}

/// Sequences of unequal symbol counts never produce a verdict.
pub proof fn lemma_length_mismatch_absent(c: Dna, a: Dna, b: Dna)
    requires
        c.len != a.len || c.len != b.len,
    ensures
        !verdict_present(c, a, b),
{
}

/// Round trip of the encoding: a well-formed packing that encodes a byte
/// sequence over the alphabet decodes, position by position, to exactly that
/// sequence, whatever its length.
pub proof fn lemma_encode_round_trip(d: Dna, s: Seq<u8>)
    requires
        d.encodes(s),
        forall|i: int| 0 <= i < s.len() ==> is_base(#[trigger] s[i]),
    ensures
        forall|i: int| 0 <= i < s.len() ==> base_of(d.sym(i)) == s[i],
{
    assert forall|i: int| 0 <= i < s.len() implies base_of(d.sym(i)) == s[i] by {
        assert(d.sym(i) == code_of(s[i]));
    }
}

} // verus!
