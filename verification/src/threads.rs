//! Threads strung between nails on a circle.
//!
//! An ordered list of nail numbers describes one thread between each pair
//! of consecutive nails.  A thread crossing the circle's centre joins two
//! nails exactly half the circle apart.

use vstd::prelude::*;

verus! {

/// The consecutive pairs of the nail list: one thread per adjacent pair.
pub fn to_threads(input: &Vec<usize>) -> (r: Vec<(usize, usize)>)
    ensures
        input@.len() == 0 ==> r@.len() == 0,
        input@.len() > 0 ==> r@.len() == input@.len() - 1,
        forall|i: int|
            0 <= i < r@.len() ==> #[trigger] r@[i] == (input@[i], input@[i + 1]),
{
    let mut out: Vec<(usize, usize)> = Vec::new();
    if input.len() == 0 {
        return out;
    }
    let n = input.len() - 1;
    let mut i: usize = 0;
    while i < n
        invariant
            n + 1 == input@.len(),
            i <= n,
            out@.len() == i,
            forall|j: int| 0 <= j < i ==> #[trigger] out@[j] == (input@[j], input@[j + 1]),
        decreases n - i,
    {
        out.push((input[i], input[i + 1]));
        i = i + 1;
    }
    out
}

/// Whether one thread joins two nails exactly half the circle apart.
pub open spec fn is_center(t: (usize, usize), nails: int) -> bool {
    imax_u(t.0 as int, t.1 as int) - imin_u(t.0 as int, t.1 as int) == nails / 2
}

/// The greater of two numbers.
pub open spec fn imax_u(a: int, b: int) -> int {
    if a >= b {
        a
    } else {
        b
    }
}

/// The lesser of two numbers.
pub open spec fn imin_u(a: int, b: int) -> int {
    if a <= b {
        a
    } else {
        b
    }
}

/// How many of the first `n` threads cross the centre.
pub open spec fn center_count(threads: Seq<(usize, usize)>, nails: int, n: int) -> int
    decreases n,
{
    if n <= 0 {
        0
    } else {
        center_count(threads, nails, n - 1) + if is_center(threads[n - 1], nails) {
            1int
        } else {
            0int
        }
    }
}

/// Counts the threads that join two nails exactly half the circle apart.
pub fn count_centers(threads: &Vec<(usize, usize)>, nails: usize) -> (r: usize)
    requires
        nails > 0,
    ensures
        r == center_count(threads@, nails as int, threads@.len() as int),
{
    let n = threads.len();
    let mut total: usize = 0;
    let mut i: usize = 0;
    while i < n
        invariant
            n == threads@.len(),
            i <= n,
            total == center_count(threads@, nails as int, i as int),
            total <= i,
        decreases n - i,
    {
        proof {
            lemma_center_count_bound(threads@, nails as int, i as int);
        }
        let (a, b) = threads[i];
        let hi = if a >= b {
            a
        } else {
            b
        };
        let lo = if a <= b {
            a
        } else {
            b
        };
        if hi - lo == nails / 2 {
            total = total + 1;
        }
        i = i + 1;
    }
    total
}

proof fn lemma_center_count_bound(threads: Seq<(usize, usize)>, nails: int, n: int)
    requires
        n >= 0,
    ensures
        0 <= center_count(threads, nails, n) <= n,
    decreases n,
{
    if n > 0 {
        lemma_center_count_bound(threads, nails, n - 1);
    }
}

} // verus!
