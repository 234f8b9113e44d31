//! Spinning a dial of names with left/right instructions.
//!
//! Each instruction is a letter `L` or `R` followed by decimal digits.  The
//! three parts interpret the offsets differently: clamped to the name list,
//! wrapped around it, or used to swap names to the front.

use vstd::prelude::*;

use crate::mentoring::{imax, imin, modulo};

verus! {

/// An ASCII decimal digit.
pub open spec fn is_digit(b: u8) -> bool {
    48 <= b <= 57
}

/// The number the digit bytes spell, most significant first.
pub open spec fn dec_val(s: Seq<u8>) -> int
    decreases s.len(),
{
    if s.len() == 0 {
        0
    } else {
        dec_val(s.drop_last()) * 10 + (s.last() - 48)
    }
}

/// A well-formed instruction: a direction letter, then at least one digit,
/// spelling a number the result type can hold.
pub open spec fn instr_ok(s: Seq<u8>) -> bool {
    &&& s.len() >= 2
    &&& (s[0] == 76 || s[0] == 82)
    &&& (forall|i: int| 1 <= i < s.len() ==> is_digit(#[trigger] s[i]))
    &&& dec_val(s.subrange(1, s.len() as int)) <= i32::MAX
}

/// The signed offset an instruction stands for: `L` turns the number
/// negative, `R` keeps it positive.
pub open spec fn instr_val(s: Seq<u8>) -> int {
    if s[0] == 76 {
        -dec_val(s.subrange(1, s.len() as int))
    } else {
        dec_val(s.subrange(1, s.len() as int))
    }
}

/// A digit string's value is non-negative.
pub(crate) proof fn lemma_dec_val_nonneg(s: Seq<u8>)
    requires
        forall|i: int| 0 <= i < s.len() ==> is_digit(#[trigger] s[i]),
    ensures
        dec_val(s) >= 0,
    decreases s.len(),
{
    if s.len() > 0 {
        lemma_dec_val_nonneg(s.drop_last());
        assert(forall|i: int|
            0 <= i < s.drop_last().len() ==> is_digit(#[trigger] s.drop_last()[i]));
    }
}

/// A digit string's value only grows as digits are appended.
pub(crate) proof fn lemma_dec_val_prefix(s: Seq<u8>, n: int)
    requires
        forall|i: int| 0 <= i < s.len() ==> is_digit(#[trigger] s[i]),
        0 <= n <= s.len(),
    ensures
        0 <= dec_val(s.subrange(0, n)) <= dec_val(s),
    decreases s.len() - n,
{
    if n == s.len() {
        assert(s.subrange(0, n) =~= s);
        lemma_dec_val_nonneg(s);
    } else {
        lemma_dec_val_prefix(s, n + 1);
        let p = s.subrange(0, n + 1);
        assert(p.drop_last() =~= s.subrange(0, n));
        assert(p.last() == s[n]);
        lemma_dec_val_nonneg(s.subrange(0, n));
        assert(dec_val(s.subrange(0, n)) <= dec_val(p));
    }
}

/// Reads one instruction: the direction letter's sign applied to the
/// number its digits spell.
pub fn match_instruction(i: &[u8]) -> (r: i32)
    requires
        instr_ok(i@),
    ensures
        r == instr_val(i@),
{
    let n = i.len();
    let ghost digs = i@.subrange(1, n as int);
    let mut v: i64 = 0;
    let mut k: usize = 1;
    proof {
        assert(digs.subrange(0, 0) =~= Seq::<u8>::empty());
        assert(forall|j: int| 0 <= j < digs.len() ==> is_digit(#[trigger] digs[j]));
    }
    while k < n
        invariant
            n == i@.len(),
            1 <= k <= n,
            digs == i@.subrange(1, n as int),
            forall|j: int| 0 <= j < digs.len() ==> is_digit(#[trigger] digs[j]),
            dec_val(digs) <= i32::MAX,
            v == dec_val(digs.subrange(0, k - 1)),
            0 <= v <= i32::MAX,
        decreases n - k,
    {
        proof {
            lemma_dec_val_prefix(digs, k as int);
            let p = digs.subrange(0, k as int);
            assert(p.drop_last() =~= digs.subrange(0, k - 1));
            assert(p.last() == digs[k - 1] == i@[k as int]);
        }
        let d = i[k];
        v = v * 10 + ((d - 48) as i64);
        k = k + 1;
    }
    proof {
        assert(digs.subrange(0, n - 1) =~= digs);
    }
    let val = v as i32;
    if i[0] == 76 {
        -val
    } else {
        val
    }
}

/// Every instruction in the list is well formed.
pub open spec fn instrs_ok(instrs: Seq<Seq<u8>>) -> bool {
    forall|i: int| 0 <= i < instrs.len() ==> instr_ok(#[trigger] instrs[i])
}

/// The dial position after the first `k` instructions, each offset clamped
/// to the name list's ends.
pub open spec fn clamped_index(instrs: Seq<Seq<u8>>, k: int, len: int) -> int
    decreases k,
{
    if k <= 0 {
        0
    } else {
        imin(imax(clamped_index(instrs, k - 1, len) + instr_val(instrs[k - 1]), 0), len - 1)
    }
}

/// A copy of a byte string.
pub fn copy_bytes(v: &Vec<u8>) -> (r: Vec<u8>)
    ensures
        r@ == v@,
{
    let mut out: Vec<u8> = Vec::new();
    let n = v.len();
    let mut i: usize = 0;
    while i < n
        invariant
            n == v@.len(),
            i <= n,
            out@ =~= v@.subrange(0, i as int),
        decreases n - i,
    {
        out.push(v[i]);
        i = i + 1;
    }
    proof {
        assert(v@.subrange(0, n as int) =~= v@);
    }
    out
}

/// Follows every instruction with the offsets clamped to the list's ends
/// and names the name the dial rests on.
pub fn part_1(names: &Vec<Vec<u8>>, instrs: &Vec<Vec<u8>>) -> (r: Vec<u8>)
    requires
        1 <= names@.len() <= 0x7fff_ffff,
        instrs_ok(instrs@.map_values(|v: Vec<u8>| v@)),
    ensures
        r@ == names@[clamped_index(
            instrs@.map_values(|v: Vec<u8>| v@),
            instrs@.len() as int,
            names@.len() as int,
        )]@,
{
    let ghost ghost_instrs = instrs@.map_values(|v: Vec<u8>| v@);
    let len = names.len();
    let n = instrs.len();
    let mut idx: i64 = 0;
    let mut k: usize = 0;
    while k < n
        invariant
            n == instrs@.len(),
            ghost_instrs == instrs@.map_values(|v: Vec<u8>| v@),
            1 <= len == names@.len() <= 0x7fff_ffff,
            instrs_ok(ghost_instrs),
            k <= n,
            idx == clamped_index(ghost_instrs, k as int, len as int),
            0 <= idx <= len - 1,
        decreases n - k,
    {
        proof {
            assert(ghost_instrs[k as int] == instrs@[k as int]@);
        }
        let v = match_instruction(instrs[k].as_slice()) as i64;
        let mut t = idx + v;
        if t < 0 {
            t = 0;
        }
        if t > (len as i64) - 1 {
            t = (len as i64) - 1;
        }
        idx = t;
        k = k + 1;
    }
    copy_bytes(&names[idx as usize])
}

/// The dial position after the first `k` instructions, each offset wrapped
/// around the name list.
pub open spec fn wrapped_index(instrs: Seq<Seq<u8>>, k: int, len: int) -> int
    decreases k,
{
    if k <= 0 {
        0
    } else {
        (wrapped_index(instrs, k - 1, len) + instr_val(instrs[k - 1])) % len
    }
}

/// Follows every instruction with the offsets wrapped around the list and
/// names the name the dial rests on.
pub fn part_2(names: &Vec<Vec<u8>>, instrs: &Vec<Vec<u8>>) -> (r: Vec<u8>)
    requires
        1 <= names@.len() <= 0x7fff_ffff,
        instrs_ok(instrs@.map_values(|v: Vec<u8>| v@)),
    ensures
        r@ == names@[wrapped_index(
            instrs@.map_values(|v: Vec<u8>| v@),
            instrs@.len() as int,
            names@.len() as int,
        )]@,
{
    let ghost ghost_instrs = instrs@.map_values(|v: Vec<u8>| v@);
    let len = names.len();
    let n = instrs.len();
    let mut idx: i64 = 0;
    let mut k: usize = 0;
    while k < n
        invariant
            n == instrs@.len(),
            ghost_instrs == instrs@.map_values(|v: Vec<u8>| v@),
            1 <= len == names@.len() <= 0x7fff_ffff,
            instrs_ok(ghost_instrs),
            k <= n,
            idx == wrapped_index(ghost_instrs, k as int, len as int),
            0 <= idx <= len - 1,
        decreases n - k,
    {
        proof {
            assert(ghost_instrs[k as int] == instrs@[k as int]@);
            vstd::arithmetic::div_mod::lemma_mod_bound(
                idx + instr_val(ghost_instrs[k as int]),
                len as int,
            );
        }
        let v = match_instruction(instrs[k].as_slice()) as i64;
        idx = modulo(idx + v, len as i64);
        k = k + 1;
    }
    copy_bytes(&names[idx as usize])
}

/// The arrangement of name positions after the first `k` instructions:
/// each instruction swaps the front name with the one its wrapped offset
/// points at.
pub open spec fn swapped_order(instrs: Seq<Seq<u8>>, k: int, len: int) -> Seq<int>
    decreases k,
{
    if k <= 0 {
        Seq::new(len as nat, |i: int| i)
    } else {
        let prev = swapped_order(instrs, k - 1, len);
        let target = instr_val(instrs[k - 1]) % len;
        prev.update(0, prev[target]).update(target, prev[0])
    }
}

proof fn lemma_swapped_order_range(instrs: Seq<Seq<u8>>, k: int, len: int)
    requires
        k >= 0,
        len >= 1,
    ensures
        swapped_order(instrs, k, len).len() == len,
        forall|i: int|
            0 <= i < len ==> 0 <= #[trigger] swapped_order(instrs, k, len)[i] <= len - 1,
    decreases k,
{
    if k > 0 {
        lemma_swapped_order_range(instrs, k - 1, len);
        vstd::arithmetic::div_mod::lemma_mod_bound(instr_val(instrs[k - 1]), len);
    }
}

/// Follows every instruction, swapping the front name with the one the
/// wrapped offset points at, and names the name left at the front.
pub fn part_3(names: &Vec<Vec<u8>>, instrs: &Vec<Vec<u8>>) -> (r: Vec<u8>)
    requires
        1 <= names@.len() <= 0x7fff_ffff,
        instrs_ok(instrs@.map_values(|v: Vec<u8>| v@)),
    ensures
        r@ == names@[swapped_order(
            instrs@.map_values(|v: Vec<u8>| v@),
            instrs@.len() as int,
            names@.len() as int,
        )[0]]@,
{
    let ghost ghost_instrs = instrs@.map_values(|v: Vec<u8>| v@);
    let len = names.len();
    let n = instrs.len();
    let mut order: Vec<usize> = Vec::new();
    let mut i: usize = 0;
    while i < len
        invariant
            i <= len,
            order@.len() == i,
            forall|j: int| 0 <= j < i ==> #[trigger] order@[j] == j,
        decreases len - i,
    {
        order.push(i);
        i = i + 1;
    }
    let mut k: usize = 0;
    proof {
        assert(order@.map_values(|x: usize| x as int) =~= swapped_order(
            ghost_instrs,
            0,
            len as int,
        ));
    }
    while k < n
        invariant
            n == instrs@.len(),
            ghost_instrs == instrs@.map_values(|v: Vec<u8>| v@),
            1 <= len == names@.len() <= 0x7fff_ffff,
            instrs_ok(ghost_instrs),
            k <= n,
            order@.len() == len,
            order@.map_values(|x: usize| x as int) == swapped_order(
                ghost_instrs,
                k as int,
                len as int,
            ),
            forall|j: int| 0 <= j < len ==> #[trigger] order@[j] < len,
        decreases n - k,
    {
        proof {
            assert(ghost_instrs[k as int] == instrs@[k as int]@);
            vstd::arithmetic::div_mod::lemma_mod_bound(
                instr_val(ghost_instrs[k as int]),
                len as int,
            );
        }
        let v = match_instruction(instrs[k].as_slice()) as i64;
        let target = modulo(v, len as i64) as usize;
        let front = order[0];
        let chosen = order[target];
        order[0] = chosen;
        order[target] = front;
        proof {
            let prev = swapped_order(ghost_instrs, k as int, len as int);
            let cur = swapped_order(ghost_instrs, k as int + 1, len as int);
            assert(cur == prev.update(0, prev[target as int]).update(
                target as int,
                prev[0],
            ));
            assert(order@.map_values(|x: usize| x as int) =~= cur);
        }
        k = k + 1;
    }
    let front = order[0];
    proof {
        lemma_swapped_order_range(ghost_instrs, n as int, len as int);
        assert(order@.map_values(|x: usize| x as int)[0] == front as int);
    }
    copy_bytes(&names[front])
}

} // verus!
