//! The dial puzzle in its fallible flavour: instructions may carry a sign
//! and a malformed one is reported instead of refused up front, and a name
//! list too long for the position arithmetic is an error of its own.

use vstd::prelude::*;

use crate::dial::{copy_bytes, dec_val, is_digit, lemma_dec_val_nonneg, lemma_dec_val_prefix};
use crate::mentoring::{imax, imin, modulo};

verus! {

/// What can go wrong while spinning the dial.
#[derive(Debug, Clone, Copy, PartialEq, Eq, Structural)]
pub enum SpinError {
    /// An instruction's number part is not a number the arithmetic can
    /// hold.
    BadNumber,
    /// An instruction starts with neither direction letter.
    BadDirection,
    /// The name list is too long for the position arithmetic.
    TooManyNames,
}

/// The byte string parses as a 32-bit number: an optional sign, then at
/// least one digit, within the type's bounds.
pub open spec fn num_ok(s: Seq<u8>) -> bool {
    if s.len() == 0 {
        false
    } else if s[0] == 43 {
        all_digits(s.drop_first()) && dec_val(s.drop_first()) <= i32::MAX
    } else if s[0] == 45 {
        all_digits(s.drop_first()) && dec_val(s.drop_first()) <= 0x8000_0000
    } else {
        all_digits(s) && dec_val(s) <= i32::MAX
    }
}

/// At least one byte, all of them digits.
pub open spec fn all_digits(s: Seq<u8>) -> bool {
    s.len() >= 1 && (forall|i: int| 0 <= i < s.len() ==> is_digit(#[trigger] s[i]))
}

/// The number the byte string spells, sign honoured.
pub open spec fn num_val(s: Seq<u8>) -> int {
    if s.len() > 0 && s[0] == 45 {
        -dec_val(s.drop_first())
    } else if s.len() > 0 && s[0] == 43 {
        dec_val(s.drop_first())
    } else {
        dec_val(s)
    }
}

/// The one offset the position arithmetic cannot negate: a left turn by
/// the most negative 32-bit number.
pub open spec fn spin_instr_fits(s: Seq<u8>) -> bool {
    s.len() >= 1 ==> (s[0] == 76 ==> num_val(s.subrange(1, s.len() as int)) != -0x8000_0000)
}

/// The instruction parses: a direction letter and then a 32-bit number.
pub open spec fn spin_instr_ok(s: Seq<u8>) -> bool {
    s.len() >= 1 && num_ok(s.subrange(1, s.len() as int)) && (s[0] == 76 || s[0] == 82)
}

/// The signed offset of a parsed instruction.
pub open spec fn spin_instr_val(s: Seq<u8>) -> int {
    if s[0] == 76 {
        -num_val(s.subrange(1, s.len() as int))
    } else {
        num_val(s.subrange(1, s.len() as int))
    }
}

/// Parses the digit bytes of `digs`, reporting a number out of the given
/// bound or a byte that is no digit.
fn parse_digits(i: &Vec<u8>, dstart: usize, cap: i64) -> (r: Result<i64, SpinError>)
    requires
        1 <= dstart <= i@.len(),
        0 < cap <= 0x8000_0000,
    ensures
        ({
            let digs = i@.subrange(dstart as int, i@.len() as int);
            &&& r is Ok <==> all_digits(digs) && dec_val(digs) <= cap
            &&& r is Err ==> r == Err::<i64, SpinError>(SpinError::BadNumber)
            &&& r matches Ok(v) ==> v == dec_val(digs)
        }),
{
    let ghost digs = i@.subrange(dstart as int, i@.len() as int);
    let n = i.len();
    if dstart == n {
        return Err(SpinError::BadNumber);
    }
    let mut v: i64 = 0;
    let mut k: usize = dstart;
    proof {
        assert(digs.subrange(0, 0) =~= Seq::<u8>::empty());
    }
    while k < n
        invariant
            n == i@.len(),
            dstart <= k <= n,
            1 <= dstart,
            0 < cap <= 0x8000_0000,
            digs == i@.subrange(dstart as int, n as int),
            forall|j: int| 0 <= j < k - dstart ==> is_digit(#[trigger] digs[j]),
            v == dec_val(digs.subrange(0, k - dstart)),
            0 <= v <= cap,
        decreases n - k,
    {
        let d = i[k];
        if !(48 <= d && d <= 57) {
            proof {
                assert(digs[k - dstart] == i@[k as int]);
                assert(!is_digit(digs[k - dstart]));
            }
            return Err(SpinError::BadNumber);
        }
        proof {
            let m = k - dstart;
            let p = digs.subrange(0, m + 1);
            assert(p.drop_last() =~= digs.subrange(0, m));
            assert(p.last() == digs[m] == i@[k as int]);
        }
        let next = v * 10 + ((d - 48) as i64);
        if next > cap {
            proof {
                let m = k - dstart;
                assert(forall|j: int|
                    0 <= j < m + 1 ==> is_digit(#[trigger] digs.subrange(0, m + 1)[j]));
                if all_digits(digs) {
                    lemma_dec_val_prefix(digs, m + 1);
                }
            }
            return Err(SpinError::BadNumber);
        }
        v = next;
        k = k + 1;
    }
    proof {
        assert(digs.subrange(0, n - dstart) =~= digs);
    }
    Ok(v)
}

/// Reads one signed instruction; a malformed number or direction is
/// reported, not refused up front.
pub fn match_instruction(i: &Vec<u8>) -> (r: Result<i32, SpinError>)
    requires
        i@.len() >= 1,
        spin_instr_fits(i@),
    ensures
        r is Ok <==> spin_instr_ok(i@),
        r matches Ok(v) ==> v == spin_instr_val(i@),
        r is Err ==> !spin_instr_ok(i@),
        !num_ok(i@.subrange(1, i@.len() as int)) ==> r == Err::<i32, SpinError>(
            SpinError::BadNumber,
        ),
        num_ok(i@.subrange(1, i@.len() as int)) && !(i@[0] == 76 || i@[0] == 82) ==> r
            == Err::<i32, SpinError>(SpinError::BadDirection),
{
    let n = i.len();
    let ghost rest = i@.subrange(1, n as int);
    if n == 1 {
        return Err(SpinError::BadNumber);
    }
    let first = i[1];
    let neg = first == 45;
    let signed = neg || first == 43;
    let dstart: usize = if signed {
        2
    } else {
        1
    };
    let cap: i64 = if neg {
        0x8000_0000
    } else {
        0x7fff_ffff
    };
    proof {
        if signed {
            assert(rest.drop_first() =~= i@.subrange(2, n as int));
        } else {
            assert(rest =~= i@.subrange(1, n as int));
        }
        assert(rest[0] == i@[1]);
    }
    let v = match parse_digits(i, dstart, cap) {
        Ok(v) => v,
        Err(e) => {
            return Err(e);
        },
    };
    proof {
        if signed {
            lemma_dec_val_nonneg(i@.subrange(2, n as int));
        } else {
            lemma_dec_val_nonneg(i@.subrange(1, n as int));
        }
        assert(v >= 0);
    }
    let value: i32 = if neg {
        (-v) as i32
    } else {
        v as i32
    };
    proof {
        assert(rest == i@.subrange(1, i@.len() as int));
        if neg {
            assert(rest[0] == 45);
            assert(num_val(rest) == -dec_val(i@.subrange(2, n as int)));
            assert(value as int == num_val(rest));
        } else if signed {
            assert(rest[0] == 43);
            assert(num_val(rest) == dec_val(i@.subrange(2, n as int)));
            assert(value as int == num_val(rest));
        } else {
            assert(num_val(rest) == dec_val(rest));
            assert(value as int == num_val(rest));
        }
    }
    let d = i[0];
    if d == 76 {
        Ok(0i32 - value)
    } else if d == 82 {
        Ok(value)
    } else {
        Err(SpinError::BadDirection)
    }
}

/// The signed offsets of a parsed instruction list.
pub open spec fn spin_offsets(instrs: Seq<Seq<u8>>) -> Seq<int> {
    instrs.map_values(|s: Seq<u8>| spin_instr_val(s))
}

/// The dial position after folding the offsets together, the first offset
/// as the seed and each later one clamped into the name list.
pub open spec fn clamp_reduce(vals: Seq<int>, k: int, len: int) -> int
    decreases k,
{
    if k <= 1 {
        vals[0]
    } else {
        imin(imax(clamp_reduce(vals, k - 1, len) + vals[k - 1], 0), len - 1)
    }
}

/// The dial position after folding the offsets together, the first offset
/// as the seed and each later one wrapped around the name list.
pub open spec fn wrap_reduce(vals: Seq<int>, k: int, len: int) -> int
    decreases k,
{
    if k <= 1 {
        vals[0]
    } else {
        (wrap_reduce(vals, k - 1, len) + vals[k - 1]) % len
    }
}

/// Every instruction of the list parses and its offset fits.
pub open spec fn spin_instrs_ok(instrs: Seq<Seq<u8>>) -> bool {
    forall|i: int|
        0 <= i < instrs.len() ==> spin_instr_ok(#[trigger] instrs[i]) && spin_instr_fits(
            instrs[i],
        )
}

/// Folds all offsets with clamping and names the name the dial rests on;
/// a name list too long for the position arithmetic is reported instead.
pub fn part_1(names: &Vec<Vec<u8>>, instrs: &Vec<Vec<u8>>) -> (r: Result<
    Vec<u8>,
    SpinError,
>)
    requires
        instrs@.len() >= 1,
        names@.len() <= 0x7fff_ffff ==> spin_instrs_ok(instrs@.map_values(|v: Vec<u8>| v@)),
        names@.len() <= 0x7fff_ffff ==> 0 <= clamp_reduce(
            spin_offsets(instrs@.map_values(|v: Vec<u8>| v@)),
            instrs@.len() as int,
            names@.len() as int,
        ) < names@.len(),
    ensures
        r is Err <==> names@.len() > 0x7fff_ffff,
        r is Err ==> r == Err::<Vec<u8>, SpinError>(SpinError::TooManyNames),
        r matches Ok(nm) ==> nm@ == names@[clamp_reduce(
            spin_offsets(instrs@.map_values(|v: Vec<u8>| v@)),
            instrs@.len() as int,
            names@.len() as int,
        )]@,
{
    if names.len() > 0x7fff_ffff {
        return Err(SpinError::TooManyNames);
    }
    let ghost vals = spin_offsets(instrs@.map_values(|v: Vec<u8>| v@));
    let len = names.len() as i64;
    let n = instrs.len();
    proof {
        assert(instrs@.map_values(|v: Vec<u8>| v@)[0] == instrs@[0]@);
    }
    let first = match match_instruction(&instrs[0]) {
        Ok(v) => v,
        Err(_) => {
            proof {
                assert(spin_instr_ok(instrs@.map_values(|v: Vec<u8>| v@)[0]));
            }
            // unreachable: the first instruction parses by the precondition
            return Err(SpinError::TooManyNames);
        },
    };
    proof {
        assert(vals[0] == spin_instr_val(instrs@.map_values(|v: Vec<u8>| v@)[0]));
    }
    let mut idx: i64 = first as i64;
    let mut k: usize = 1;
    while k < n
        invariant
            n == instrs@.len(),
            vals == spin_offsets(instrs@.map_values(|v: Vec<u8>| v@)),
            spin_instrs_ok(instrs@.map_values(|v: Vec<u8>| v@)),
            1 <= len,
            len == names@.len() <= 0x7fff_ffff,
            1 <= k <= n,
            idx == clamp_reduce(vals, k as int, len as int),
            k == 1 ==> -0x8000_0000 <= idx <= 0x7fff_ffff,
            k > 1 ==> 0 <= idx <= len - 1,
        decreases n - k,
    {
        proof {
            assert(instrs@.map_values(|v: Vec<u8>| v@)[k as int] == instrs@[k as int]@);
            assert(vals[k as int] == spin_instr_val(instrs@[k as int]@));
        }
        let v = match match_instruction(&instrs[k]) {
            Ok(v) => v,
            Err(_) => {
                return Err(SpinError::TooManyNames);
            },
        };
        let mut t = idx + v as i64;
        if t < 0 {
            t = 0;
        }
        if t > len - 1 {
            t = len - 1;
        }
        idx = t;
        k = k + 1;
    }
    let chosen = idx as usize;
    Ok(copy_bytes(&names[chosen]))
}

/// Folds all offsets with wrapping and names the name the dial rests on;
/// a name list too long for the position arithmetic is reported instead.
pub fn part_2(names: &Vec<Vec<u8>>, instrs: &Vec<Vec<u8>>) -> (r: Result<
    Vec<u8>,
    SpinError,
>)
    requires
        instrs@.len() >= 1,
        names@.len() >= 1,
        names@.len() <= 0x7fff_ffff ==> spin_instrs_ok(instrs@.map_values(|v: Vec<u8>| v@)),
        names@.len() <= 0x7fff_ffff ==> 0 <= wrap_reduce(
            spin_offsets(instrs@.map_values(|v: Vec<u8>| v@)),
            instrs@.len() as int,
            names@.len() as int,
        ) < names@.len(),
    ensures
        r is Err <==> names@.len() > 0x7fff_ffff,
        r is Err ==> r == Err::<Vec<u8>, SpinError>(SpinError::TooManyNames),
        r matches Ok(nm) ==> nm@ == names@[wrap_reduce(
            spin_offsets(instrs@.map_values(|v: Vec<u8>| v@)),
            instrs@.len() as int,
            names@.len() as int,
        )]@,
{
    if names.len() > 0x7fff_ffff {
        return Err(SpinError::TooManyNames);
    }
    let ghost vals = spin_offsets(instrs@.map_values(|v: Vec<u8>| v@));
    let len = names.len() as i64;
    let n = instrs.len();
    proof {
        assert(instrs@.map_values(|v: Vec<u8>| v@)[0] == instrs@[0]@);
    }
    proof {
        assert(instrs@.map_values(|v: Vec<u8>| v@)[0] == instrs@[0]@);
    }
    let first = match match_instruction(&instrs[0]) {
        Ok(v) => v,
        Err(_) => {
            proof {
                assert(spin_instr_ok(instrs@.map_values(|v: Vec<u8>| v@)[0]));
            }
            // unreachable: the first instruction parses by the precondition
            return Err(SpinError::TooManyNames);
        },
    };
    proof {
        assert(vals[0] == spin_instr_val(instrs@.map_values(|v: Vec<u8>| v@)[0]));
    }
    let mut idx: i64 = first as i64;
    let mut k: usize = 1;
    while k < n
        invariant
            n == instrs@.len(),
            vals == spin_offsets(instrs@.map_values(|v: Vec<u8>| v@)),
            spin_instrs_ok(instrs@.map_values(|v: Vec<u8>| v@)),
            1 <= len && len == names@.len() <= 0x7fff_ffff,
            1 <= k <= n,
            idx == wrap_reduce(vals, k as int, len as int),
            k == 1 ==> -0x8000_0000 <= idx <= 0x7fff_ffff,
            k > 1 ==> 0 <= idx <= len - 1,
        decreases n - k,
    {
        proof {
            assert(instrs@.map_values(|v: Vec<u8>| v@)[k as int] == instrs@[k as int]@);
            assert(vals[k as int] == spin_instr_val(instrs@[k as int]@));
            vstd::arithmetic::div_mod::lemma_mod_bound(idx + vals[k as int], len as int);
        }
        let v = match match_instruction(&instrs[k]) {
            Ok(v) => v,
            Err(_) => {
                return Err(SpinError::TooManyNames);
            },
        };
        idx = modulo(idx + v as i64, len);
        k = k + 1;
    }
    let chosen = idx as usize;
    Ok(copy_bytes(&names[chosen]))
}

/// The arrangement of name positions after `k` offsets, each swapping the
/// front name with the one its wrapped offset points at.
pub open spec fn swap_fold(vals: Seq<int>, k: int, len: int) -> Seq<int>
    decreases k,
{
    if k <= 0 {
        Seq::new(len as nat, |i: int| i)
    } else {
        let prev = swap_fold(vals, k - 1, len);
        let target = vals[k - 1] % len;
        prev.update(0, prev[target]).update(target, prev[0])
    }
}

proof fn lemma_swap_fold_range(vals: Seq<int>, k: int, len: int)
    requires
        k >= 0,
        len >= 1,
    ensures
        swap_fold(vals, k, len).len() == len,
        forall|i: int| 0 <= i < len ==> 0 <= #[trigger] swap_fold(vals, k, len)[i] <= len - 1,
    decreases k,
{
    if k > 0 {
        lemma_swap_fold_range(vals, k - 1, len);
        vstd::arithmetic::div_mod::lemma_mod_bound(vals[k - 1], len);
    }
}

/// Follows every offset, swapping the front name with the one the wrapped
/// offset points at, and names the name left at the front; a name list too
/// long for the position arithmetic is reported instead.
pub fn part_3(names: &Vec<Vec<u8>>, instrs: &Vec<Vec<u8>>) -> (r: Result<Vec<u8>, SpinError>)
    requires
        names@.len() >= 1,
        names@.len() <= 0x7fff_ffff ==> spin_instrs_ok(instrs@.map_values(|v: Vec<u8>| v@)),
    ensures
        r is Err <==> names@.len() > 0x7fff_ffff,
        r is Err ==> r == Err::<Vec<u8>, SpinError>(SpinError::TooManyNames),
        r matches Ok(nm) ==> nm@ == names@[swap_fold(
            spin_offsets(instrs@.map_values(|v: Vec<u8>| v@)),
            instrs@.len() as int,
            names@.len() as int,
        )[0]]@,
{
    if names.len() > 0x7fff_ffff {
        return Err(SpinError::TooManyNames);
    }
    let ghost vals = spin_offsets(instrs@.map_values(|v: Vec<u8>| v@));
    let len = names.len();
    let n = instrs.len();
    let mut order: Vec<usize> = Vec::new();
    let mut i: usize = 0;
    while i < len
        invariant
            i <= len,
            order@.len() == i,
            forall|j: int| 0 <= j < i ==> #[trigger] order@[j] == j,
        decreases len - i,
    {
        order.push(i);
        i = i + 1;
    }
    proof {
        assert(order@.map_values(|x: usize| x as int) =~= swap_fold(vals, 0, len as int));
    }
    let mut k: usize = 0;
    while k < n
        invariant
            n == instrs@.len(),
            vals == spin_offsets(instrs@.map_values(|v: Vec<u8>| v@)),
            spin_instrs_ok(instrs@.map_values(|v: Vec<u8>| v@)),
            1 <= len == names@.len() <= 0x7fff_ffff,
            k <= n,
            order@.len() == len,
            order@.map_values(|x: usize| x as int) == swap_fold(vals, k as int, len as int),
            forall|j: int| 0 <= j < len ==> #[trigger] order@[j] < len,
        decreases n - k,
    {
        proof {
            assert(instrs@.map_values(|v: Vec<u8>| v@)[k as int] == instrs@[k as int]@);
            assert(vals[k as int] == spin_instr_val(instrs@[k as int]@));
            vstd::arithmetic::div_mod::lemma_mod_bound(vals[k as int], len as int);
        }
        let v = match match_instruction(&instrs[k]) {
            Ok(v) => v,
            Err(_) => {
                return Err(SpinError::TooManyNames);
            },
        };
        let target = modulo(v as i64, len as i64) as usize;
        let front = order[0];
        let chosen = order[target];
        order[0] = chosen;
        order[target] = front;
        proof {
            let prev = swap_fold(vals, k as int, len as int);
            let cur = swap_fold(vals, k as int + 1, len as int);
            assert(cur == prev.update(0, prev[target as int]).update(target as int, prev[0]));
            assert(order@.map_values(|x: usize| x as int) =~= cur);
        }
        k = k + 1;
    }
    let front = order[0];
    proof {
        lemma_swap_fold_range(vals, n as int, len as int);
        assert(order@.map_values(|x: usize| x as int)[0] == front as int);
    }
    Ok(copy_bytes(&names[front]))
}

} // verus!
