//! Stacking numbered boxes: sums over the distinct numbers, and how many
//! rounds it takes to clear the pile when every round removes one box of
//! each number still present.

use vstd::prelude::*;

use crate::family::{lemma_contains_push, lemma_push_no_duplicates};

verus! {

/// How often `v` occurs in the list.
pub open spec fn count_val(s: Seq<i64>, v: i64) -> int
    decreases s.len(),
{
    if s.len() == 0 {
        0
    } else {
        count_val(s.drop_last(), v) + if s.last() == v {
            1int
        } else {
            0int
        }
    }
}

/// A value that never occurs counts zero times.
proof fn lemma_count_val_absent(s: Seq<i64>, v: i64)
    requires
        !s.contains(v),
    ensures
        count_val(s, v) == 0,
    decreases s.len(),
{
    if s.len() > 0 {
        assert(s.last() != v);
        assert forall|i: int| 0 <= i < s.drop_last().len() implies s.drop_last()[i] != v by {
            assert(s[i] == s.drop_last()[i]);
        }
        lemma_count_val_absent(s.drop_last(), v);
    }
}

proof fn lemma_count_val_bounds(s: Seq<i64>, v: i64)
    ensures
        0 <= count_val(s, v) <= s.len(),
        s.contains(v) ==> count_val(s, v) >= 1,
    decreases s.len(),
{
    if s.len() > 0 {
        lemma_count_val_bounds(s.drop_last(), v);
        if s.contains(v) && s.last() != v {
            let i = choose|i: int| 0 <= i < s.len() && s[i] == v;
            assert(s.drop_last()[i] == v);
        }
    }
}

/// Does the list contain `x`?
fn contains_val(xs: &Vec<i64>, x: i64) -> (r: bool)
    ensures
        r <==> xs@.contains(x),
{
    let n = xs.len();
    let mut i: usize = 0;
    while i < n
        invariant
            n == xs@.len(),
            i <= n,
            forall|j: int| 0 <= j < i ==> xs@[j] != x,
        decreases n - i,
    {
        if xs[i] == x {
            return true;
        }
        i = i + 1;
    }
    false
}

/// The distinct numbers of the pile, each once, in first-occurrence order.
pub fn unique(crates: &Vec<i64>) -> (r: Vec<i64>)
    ensures
        r@.no_duplicates(),
        forall|v: i64| r@.contains(v) <==> crates@.contains(v),
{
    let n = crates.len();
    let mut out: Vec<i64> = Vec::new();
    let mut i: usize = 0;
    while i < n
        invariant
            n == crates@.len(),
            i <= n,
            out@.no_duplicates(),
            forall|v: i64| out@.contains(v) <==> crates@.subrange(0, i as int).contains(v),
        decreases n - i,
    {
        let c = crates[i];
        let ghost pre = crates@.subrange(0, i as int);
        let ghost post = crates@.subrange(0, i as int + 1);
        proof {
            assert(post =~= pre.push(crates@[i as int]));
        }
        if !contains_val(&out, c) {
            let ghost out0 = out@;
            out.push(c);
            proof {
                lemma_push_no_duplicates(out0, c);
                assert forall|v: i64| out@.contains(v) <==> post.contains(v) by {
                    lemma_contains_push(out0, c, v);
                    lemma_contains_push(pre, crates@[i as int], v);
                }
            }
        } else {
            proof {
                assert forall|v: i64| out@.contains(v) <==> post.contains(v) by {
                    lemma_contains_push(pre, crates@[i as int], v);
                }
            }
        }
        i = i + 1;
    }
    proof {
        assert(crates@.subrange(0, n as int) =~= crates@);
    }
    out
}

/// The folding step of a box-number sum.
pub open spec fn val_add() -> spec_fn(int, i64) -> int {
    |acc: int, x: i64| acc + x
}

/// The sum of a set of box numbers.
pub open spec fn val_sum(s: Set<i64>) -> int {
    s.fold(0, val_add())
}

/// The sum of a list of box numbers, last first.
pub open spec fn seq_val_sum(s: Seq<i64>) -> int
    decreases s.len(),
{
    if s.len() == 0 {
        0
    } else {
        seq_val_sum(s.drop_last()) + s.last()
    }
}

/// On a duplicate-free list, the list sum is the set sum of its members.
proof fn lemma_seq_val_sum_set(s: Seq<i64>)
    requires
        s.no_duplicates(),
    ensures
        seq_val_sum(s) == val_sum(s.to_set()),
    decreases s.len(),
{
    assert(vstd::set::fold::is_fun_commutative(val_add()));
    if s.len() == 0 {
        assert(s.to_set() =~= Set::<i64>::empty());
        vstd::set::fold::lemma_fold_empty(0int, val_add());
    } else {
        let q = s.drop_last();
        let x = s.last();
        lemma_seq_val_sum_set(q);
        assert(s =~= q.push(x));
        assert forall|y: i64| s.to_set().contains(y) <==> q.to_set().contains(y) || y == x by {
            lemma_contains_push(q, x, y);
        }
        assert(s.to_set() =~= q.to_set().insert(x));
        assert(!q.contains(x));
        broadcast use vstd::seq_lib::seq_to_set_is_finite;

        vstd::set::fold::lemma_fold_insert(q.to_set(), 0int, val_add(), x);
    }
}

/// Sums each distinct box number once.
pub fn part_1(crates: Vec<i64>) -> (r: i128)
    ensures
        r == val_sum(crates@.to_set()),
{
    let distinct = unique(&crates);
    let n = distinct.len();
    let mut t: i128 = 0;
    let mut i: usize = 0;
    proof {
        assert(distinct@.subrange(0, 0) =~= Seq::<i64>::empty());
    }
    while i < n
        invariant
            n == distinct@.len(),
            i <= n,
            t == seq_val_sum(distinct@.subrange(0, i as int)),
            -((i as int) * 0x8000_0000_0000_0000) <= t <= (i as int) * 0x8000_0000_0000_0000,
        decreases n - i,
    {
        let x = distinct[i];
        proof {
            let pre = distinct@.subrange(0, i as int);
            let post = distinct@.subrange(0, i as int + 1);
            assert(post.drop_last() =~= pre);
            assert(post.last() == distinct@[i as int]);
            assert(-((i as int + 1) * 0x8000_0000_0000_0000) <= t + x <= (i as int + 1)
                * 0x8000_0000_0000_0000) by (nonlinear_arith)
                requires
                    -((i as int) * 0x8000_0000_0000_0000) <= t <= (i as int)
                        * 0x8000_0000_0000_0000,
                    -0x8000_0000_0000_0000 <= x <= 0x8000_0000_0000_0000,
            ;
            assert((i as int + 1) * 0x8000_0000_0000_0000 <= 0x7fff_ffff_ffff_ffff_8000_0000_0000_0000)
                by (nonlinear_arith)
                requires
                    0 <= i as int + 1 <= 0xffff_ffff_ffff_ffff,
            ;
        }
        t = t + (x as i128);
        i = i + 1;
    }
    proof {
        assert(distinct@.subrange(0, n as int) =~= distinct@);
        lemma_seq_val_sum_set(distinct@);
        assert forall|v: i64| distinct@.to_set().contains(v) <==> crates@.to_set().contains(
            v,
        ) by {}
        assert(distinct@.to_set() =~= crates@.to_set());
    }
    t
}

/// Swapping two entries keeps the members and the freedom from
/// duplicates.
proof fn lemma_swap_preserves(s: Seq<i64>, k: int, m: int)
    requires
        0 <= k < s.len(),
        0 <= m < s.len(),
        s.no_duplicates(),
    ensures
        s.update(k, s[m]).update(m, s[k]).no_duplicates(),
        s.update(k, s[m]).update(m, s[k]).to_set() == s.to_set(),
{
    let t = s.update(k, s[m]).update(m, s[k]);
    assert forall|x: i64| t.to_set().contains(x) <==> s.to_set().contains(x) by {
        if t.contains(x) {
            let i = choose|i: int| 0 <= i < t.len() && t[i] == x;
            if i == m {
                assert(s[k] == x);
            } else if i == k {
                assert(s[m] == x);
            } else {
                assert(s[i] == x);
            }
        }
        if s.contains(x) {
            let i = choose|i: int| 0 <= i < s.len() && s[i] == x;
            if i == k {
                assert(t[m] == x);
            } else if i == m {
                if k == m {
                    assert(t[m] == x);
                } else {
                    assert(t[k] == x);
                }
            } else {
                assert(t[i] == x);
            }
        }
    }
    assert(t.to_set() =~= s.to_set());
    assert forall|i: int, j: int|
        0 <= i < t.len() && 0 <= j < t.len() && i != j implies t[i] != t[j] by {
        let oi: int = if i == k {
            m
        } else if i == m {
            k
        } else {
            i
        };
        let oj: int = if j == k {
            m
        } else if j == m {
            k
        } else {
            j
        };
        assert(t[i] == s[oi] && t[j] == s[oj]);
    }
}

/// A correct twenty-smallest sum: some ordering of the distinct numbers
/// opens with its twenty smallest, in rising order, and `r` is their sum.
pub open spec fn twenty_smallest_report(values: Set<i64>, r: int) -> bool {
    exists|ss: Seq<i64>|
        {
            &&& #[trigger] ss.no_duplicates()
            &&& ss.to_set() == values
            &&& forall|i: int, j: int| 0 <= i < j < 20 ==> ss[i] <= ss[j]
            &&& forall|i: int, j: int| 0 <= i < 20 <= j < ss.len() ==> ss[i] <= ss[j]
            &&& r == seq_val_sum(ss.subrange(0, 20))
        }
}

/// Sums the twenty smallest distinct box numbers.
pub fn part_2(crates: Vec<i64>) -> (r: i128)
    requires
        crates@.to_set().len() >= 20,
    ensures
        twenty_smallest_report(crates@.to_set(), r as int),
{
    let mut d = unique(&crates);
    proof {
        assert forall|v: i64| d@.to_set().contains(v) <==> crates@.to_set().contains(v) by {}
        assert(d@.to_set() =~= crates@.to_set());
        d@.unique_seq_to_set();
    }
    let n = d.len();
    let mut k: usize = 0;
    while k < 20
        invariant
            20 <= n == d@.len(),
            k <= 20,
            d@.no_duplicates(),
            d@.to_set() == crates@.to_set(),
            forall|i: int, j: int| 0 <= i < j < k ==> d@[i] <= d@[j],
            forall|i: int, j: int| 0 <= i < k <= j < n ==> d@[i] <= d@[j],
        decreases 20 - k,
    {
        let mut m: usize = k;
        let mut j: usize = k + 1;
        while j < n
            invariant
                n == d@.len(),
                k <= m < n,
                k < j <= n,
                k < n,
                forall|i: int| k <= i < j ==> d@[m as int] <= d@[i],
            decreases n - j,
        {
            if d[j] < d[m] {
                m = j;
            }
            j = j + 1;
        }
        let ghost before = d@;
        let vk = d[k];
        let vm = d[m];
        d[k] = vm;
        d[m] = vk;
        proof {
            assert(d@ == before.update(k as int, before[m as int]).update(
                m as int,
                before[k as int],
            ));
            lemma_swap_preserves(before, k as int, m as int);
            assert forall|i: int, j2: int| 0 <= i < k + 1 <= j2 < n implies d@[i] <= d@[j2] by {
                if i < k {
                    assert(before[i] <= before[j2] && before[i] <= before[k as int]);
                }
            }
        }
        k = k + 1;
    }
    // sum the selected prefix
    let mut t: i128 = 0;
    let mut i: usize = 0;
    let ghost prefix = d@.subrange(0, 20);
    proof {
        assert(prefix.subrange(0, 0) =~= Seq::<i64>::empty());
    }
    while i < 20
        invariant
            20 <= d@.len(),
            prefix == d@.subrange(0, 20),
            i <= 20,
            t == seq_val_sum(prefix.subrange(0, i as int)),
            -((i as int) * 0x8000_0000_0000_0000) <= t <= (i as int) * 0x8000_0000_0000_0000,
        decreases 20 - i,
    {
        let x = d[i];
        proof {
            let pre = prefix.subrange(0, i as int);
            let post = prefix.subrange(0, i as int + 1);
            assert(post.drop_last() =~= pre);
            assert(post.last() == prefix[i as int] == d@[i as int]);
            assert(-((i as int + 1) * 0x8000_0000_0000_0000) <= t + x <= (i as int + 1)
                * 0x8000_0000_0000_0000) by (nonlinear_arith)
                requires
                    -((i as int) * 0x8000_0000_0000_0000) <= t <= (i as int)
                        * 0x8000_0000_0000_0000,
                    -0x8000_0000_0000_0000 <= x <= 0x8000_0000_0000_0000,
            ;
        }
        t = t + (x as i128);
        i = i + 1;
    }
    proof {
        assert(prefix.subrange(0, 20) =~= prefix);
        assert(d@.no_duplicates() && d@.to_set() == crates@.to_set() && (forall|i: int, j: int|
            0 <= i < j < 20 ==> d@[i] <= d@[j]) && (forall|i: int, j: int|
            0 <= i < 20 <= j < d@.len() ==> d@[i] <= d@[j]) && t as int == seq_val_sum(
            d@.subrange(0, 20),
        ));
    }
    t
}

/// Counts how often `v` occurs in the pile.
fn occurrences(crates: &Vec<i64>, v: i64) -> (r: usize)
    ensures
        r == count_val(crates@, v),
{
    let n = crates.len();
    let mut c: usize = 0;
    let mut i: usize = 0;
    proof {
        assert(crates@.subrange(0, 0) =~= Seq::<i64>::empty());
        lemma_count_val_bounds(crates@, v);
    }
    while i < n
        invariant
            n == crates@.len(),
            i <= n,
            c == count_val(crates@.subrange(0, i as int), v),
            c <= i,
        decreases n - i,
    {
        proof {
            let pre = crates@.subrange(0, i as int);
            let post = crates@.subrange(0, i as int + 1);
            assert(post.drop_last() =~= pre);
            assert(post.last() == crates@[i as int]);
        }
        if crates[i] == v {
            c = c + 1;
        }
        i = i + 1;
    }
    proof {
        assert(crates@.subrange(0, n as int) =~= crates@);
    }
    c
}

/// How many rounds it takes to clear the pile when each round removes one
/// box of every number still present: the greatest multiplicity of any
/// number, zero for an empty pile.
pub fn part_3(crates: Vec<i64>) -> (r: usize)
    ensures
        forall|v: i64| count_val(crates@, v) <= r,
        crates@.len() == 0 ==> r == 0,
        crates@.len() > 0 ==> exists|v: i64|
            crates@.contains(v) && count_val(crates@, v) == r,
{
    let n = crates.len();
    let mut best: usize = 0;
    let ghost mut best_v: i64 = 0;
    let mut i: usize = 0;
    while i < n
        invariant
            n == crates@.len(),
            i <= n,
            i > 0 ==> crates@.contains(best_v) && count_val(crates@, best_v) == best,
            i == 0 ==> best == 0,
            forall|j: int| 0 <= j < i ==> count_val(crates@, #[trigger] crates@[j]) <= best,
        decreases n - i,
    {
        proof {
            assert(crates@.contains(crates@[i as int]));
            lemma_count_val_bounds(crates@, crates@[i as int]);
        }
        let c = occurrences(&crates, crates[i]);
        if c > best {
            best = c;
            proof {
                best_v = crates@[i as int];
            }
        }
        i = i + 1;
    }
    proof {
        assert forall|v: i64| count_val(crates@, v) <= best by {
            if crates@.contains(v) {
                let j = choose|j: int| 0 <= j < crates@.len() && crates@[j] == v;
                assert(count_val(crates@, crates@[j]) <= best);
            } else {
                lemma_count_val_absent(crates@, v);
            }
        }
    }
    best
}

} // verus!
