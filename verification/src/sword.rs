//! Forged swords: a chain of blades, each with a spine value and optional
//! left and right edge values.
//!
//! Forging steps are folded into the chain one by one: a step smaller than
//! the spine fills a free left edge, a larger one a free right edge, and
//! anything else is passed down the chain, growing it by a new blade at the
//! end.  A sword's quality and level are read off as decimal
//! concatenations of those values.

use vstd::prelude::*;

use core::cmp::Ordering;

verus! {

/// One chain of blades.  The identifier tags the whole sword; each link
/// carries a spine and the optional edge values.
pub struct Sword {
    pub id: i64,
    pub spine: i64,
    pub left: Option<i64>,
    pub right: Option<i64>,
    pub next: Option<Box<Sword>>,
}

/// Ten to the `n`-th power.
pub open spec fn pow10(n: nat) -> int
    decreases n,
{
    if n == 0 {
        1
    } else {
        10 * pow10((n - 1) as nat)
    }
}

/// How many decimal digits a positive number has.
pub open spec fn digits(b: int) -> nat
    recommends
        b >= 1,
    decreases b,
{
    if b < 10 {
        1
    } else {
        1 + digits(b / 10)
    }
}

/// Writing `hi` before `lo` in decimal: `hi` shifted left by the digit
/// count of `lo`, plus `lo`.
pub open spec fn concat_dec(hi: int, lo: int) -> int {
    hi * pow10(digits(lo)) + lo
}

proof fn lemma_pow10_pos(n: nat)
    ensures
        pow10(n) >= 1,
    decreases n,
{
    if n > 0 {
        lemma_pow10_pos((n - 1) as nat);
    }
}

proof fn lemma_pow10_mono(a: nat, b: nat)
    requires
        a <= b,
    ensures
        pow10(a) <= pow10(b),
    decreases b,
{
    if a < b {
        lemma_pow10_mono(a, (b - 1) as nat);
        lemma_pow10_pos((b - 1) as nat);
    }
}

/// A positive number lies between the powers of ten that its digit count
/// names.
proof fn lemma_digits_bounds(b: int)
    requires
        b >= 1,
    ensures
        pow10((digits(b) - 1) as nat) <= b < pow10(digits(b)),
    decreases b,
{
    if b < 10 {
    } else {
        lemma_digits_bounds(b / 10);
        let d = digits(b / 10);
        assert(pow10((d - 1) as nat) <= b / 10 < pow10(d));
        assert(b < 10 * pow10(d)) by (nonlinear_arith)
            requires
                b / 10 < pow10(d),
                b >= 10,
        ;
        assert(10 * pow10((d - 1) as nat) <= b) by (nonlinear_arith)
            requires
                pow10((d - 1) as nat) <= b / 10,
                b >= 10,
        ;
    }
}

/// The digit count is the only exponent whose power-of-ten window holds
/// the number.
proof fn lemma_digits_unique(b: int, k: nat)
    requires
        b >= 1,
        k >= 1,
        pow10((k - 1) as nat) <= b < pow10(k),
    ensures
        k == digits(b),
{
    lemma_digits_bounds(b);
    if k < digits(b) {
        lemma_pow10_mono(k, (digits(b) - 1) as nat);
    }
    if k > digits(b) {
        lemma_pow10_mono(digits(b), (k - 1) as nat);
    }
}

/// A decimal concatenation is at least as large as either part.
proof fn lemma_concat_bounds(hi: int, lo: int)
    requires
        hi >= 1,
        lo >= 1,
    ensures
        concat_dec(hi, lo) >= lo + 1,
        concat_dec(hi, lo) >= hi,
        concat_dec(hi, lo) >= 1,
{
    lemma_digits_bounds(lo);
    lemma_pow10_pos(digits(lo));
    assert(hi * pow10(digits(lo)) >= pow10(digits(lo))) by (nonlinear_arith)
        requires
            hi >= 1,
            pow10(digits(lo)) >= 1,
    ;
    assert(hi * pow10(digits(lo)) >= hi) by (nonlinear_arith)
        requires
            hi >= 1,
            pow10(digits(lo)) >= 1,
    ;
}

/// Computes `concat_dec(hi, lo)` without overflow.
fn shift_dec(hi: i64, lo: i64) -> (r: i64)
    requires
        hi >= 1,
        lo >= 1,
        concat_dec(hi as int, lo as int) <= i64::MAX,
    ensures
        r == concat_dec(hi as int, lo as int),
{
    proof {
        lemma_digits_bounds(lo as int);
        lemma_concat_bounds(hi as int, lo as int);
    }
    let mut p: i64 = 1;
    let ghost mut k: nat = 0;
    while p <= lo
        invariant
            hi >= 1,
            lo >= 1,
            concat_dec(hi as int, lo as int) <= i64::MAX,
            p >= 1,
            p == pow10(k),
            k == 0 || pow10((k - 1) as nat) <= lo,
            k <= digits(lo as int),
        decreases digits(lo as int) - k,
    {
        proof {
            // p has not yet passed lo, so k is below the digit count and
            // the next power still fits
            lemma_digits_bounds(lo as int);
            if k >= digits(lo as int) {
                lemma_pow10_mono(digits(lo as int), k);
            }
            assert(k < digits(lo as int));
            lemma_pow10_mono((k + 1) as nat, digits(lo as int));
            assert(pow10(digits(lo as int)) <= concat_dec(hi as int, lo as int)) by {
                lemma_pow10_pos(digits(lo as int));
                assert(hi * pow10(digits(lo as int)) >= pow10(digits(lo as int)))
                    by (nonlinear_arith)
                    requires
                        hi >= 1,
                        pow10(digits(lo as int)) >= 1,
                ;
            }
            assert(pow10((k + 1) as nat) == 10 * pow10(k));
            assert(10 * pow10(k) <= pow10(digits(lo as int)));
            assert((p as int) * 10 == 10 * pow10(k));
            assert((p as int) * 10 <= i64::MAX);
        }
        p = p * 10;
        proof {
            k = k + 1;
            assert(pow10(k) == 10 * pow10((k - 1) as nat));
        }
    }
    proof {
        lemma_digits_unique(lo as int, k);
        assert(hi * (p as int) + lo == concat_dec(hi as int, lo as int));
        assert(hi * (p as int) >= 1) by (nonlinear_arith)
            requires
                hi >= 1,
                p as int >= 1,
        ;
    }
    hi * p + lo
}

impl Sword {
    /// Every spine and edge value along the chain is positive.
    pub open spec fn wf(self) -> bool
        decreases self,
    {
        &&& self.spine >= 1
        &&& (self.left matches Some(l) ==> l >= 1)
        &&& (self.right matches Some(r) ==> r >= 1)
        &&& (self.next matches Some(n) ==> n.wf())
    }

    /// The quality read off the chain: the spines of all blades written
    /// one after another in decimal, head first.
    pub open spec fn quality_spec(self) -> int
        decreases self,
    {
        match self.next {
            Some(n) => concat_dec(self.spine as int, n.quality_spec()),
            None => self.spine as int,
        }
    }

    /// The level of the head blade: spine, right edge and left edge
    /// written together in decimal.
    pub open spec fn level_spec(self) -> int {
        let with_right = match self.right {
            Some(r) => concat_dec(self.spine as int, r as int),
            None => self.spine as int,
        };
        match self.left {
            Some(l) => concat_dec(with_right, l as int),
            None => with_right,
        }
    }

    /// Every blade's quality and level along the chain fit the result
    /// type.
    pub open spec fn bounded(self) -> bool
        decreases self,
    {
        &&& self.quality_spec() <= i64::MAX
        &&& self.level_spec() <= i64::MAX
        &&& (self.next matches Some(n) ==> n.bounded())
    }

    /// A positive chain has a positive quality.
    pub proof fn lemma_quality_pos(self)
        requires
            self.wf(),
        ensures
            self.quality_spec() >= 1,
        decreases self,
    {
        if let Some(n) = self.next {
            n.lemma_quality_pos();
            lemma_concat_bounds(self.spine as int, n.quality_spec());
        }
    }

    /// A positive chain has a positive level at its head.
    pub proof fn lemma_level_pos(self)
        requires
            self.wf(),
        ensures
            self.level_spec() >= 1,
    {
        if let Some(r) = self.right {
            lemma_concat_bounds(self.spine as int, r as int);
        }
        if let Some(l) = self.left {
            let with_right = match self.right {
                Some(r) => concat_dec(self.spine as int, r as int),
                None => self.spine as int,
            };
            lemma_concat_bounds(with_right, l as int);
        }
    }

    /// A fresh single-blade sword.
    pub fn new(id: i64, spine: i64) -> (r: Sword)
        ensures
            r == (Sword { id, spine, left: None, right: None, next: None }),
    {
        Sword { id, spine, left: None, right: None, next: None }
    }

    /// Builds a sword from its forging steps: the first step is the first
    /// blade's spine, the rest are folded in one by one.
    pub fn from_input(id: i64, steps: Vec<i64>) -> (r: Sword)
        requires
            steps@.len() > 0,
        ensures
            r == spec_forge(id, steps@),
    {
        let mut sword = Sword::new(id, steps[0]);
        let n = steps.len();
        proof {
            assert(steps@.drop_first() =~= steps@.subrange(1, n as int));
        }
        let mut i: usize = 1;
        while i < n
            invariant
                n == steps@.len(),
                1 <= i <= n,
                spec_forge(id, steps@) == spec_apply_steps(
                    sword,
                    steps@.subrange(i as int, n as int),
                ),
            decreases n - i,
        {
            proof {
                let rest = steps@.subrange(i as int, n as int);
                assert(rest[0] == steps@[i as int]);
                assert(rest.drop_first() =~= steps@.subrange(i as int + 1, n as int));
            }
            sword = sword.process_step(steps[i]);
            i = i + 1;
        }
        proof {
            assert(steps@.subrange(n as int, n as int) =~= Seq::<i64>::empty());
        }
        sword
    }

    /// A copy with the left edge filled.
    fn add_left(&self, left: i64) -> (r: Sword)
        ensures
            r == (Sword {
                left: Some(left),
                id: self.id,
                spine: self.spine,
                right: self.right,
                next: self.next,
            }),
    {
        Sword {
            left: Some(left),
            id: self.id,
            spine: self.spine,
            right: self.right,
            next: clone_next(&self.next),
        }
    }

    /// A copy with the right edge filled.
    fn add_right(&self, right: i64) -> (r: Sword)
        ensures
            r == (Sword {
                right: Some(right),
                id: self.id,
                spine: self.spine,
                left: self.left,
                next: self.next,
            }),
    {
        Sword {
            right: Some(right),
            id: self.id,
            spine: self.spine,
            left: self.left,
            next: clone_next(&self.next),
        }
    }

    /// A copy with the tail chain replaced.
    fn add_next(&self, next: Sword) -> (r: Sword)
        ensures
            r == (Sword {
                next: Some(Box::new(next)),
                id: self.id,
                spine: self.spine,
                left: self.left,
                right: self.right,
            }),
    {
        Sword {
            next: Some(Box::new(next)),
            id: self.id,
            spine: self.spine,
            left: self.left,
            right: self.right,
        }
    }

    /// Folds one forging step into the chain.
    pub fn process_step(&self, step: i64) -> (r: Sword)
        ensures
            r == spec_process_step(*self, step),
        decreases *self,
    {
        if self.left.is_none() && step < self.spine {
            return self.add_left(step);
        }
        if self.right.is_none() && step > self.spine {
            return self.add_right(step);
        }
        match &self.next {
            None => self.add_next(Sword::new(self.id, step)),
            Some(n) => self.add_next(n.process_step(step)),
        }
    }

    /// Folds a list of forging steps into the chain, in order.
    pub fn process_steps(&self, steps: &Vec<i64>) -> (r: Sword)
        ensures
            r == spec_apply_steps(*self, steps@),
    {
        let mut sword = clone_sword(self);
        let n = steps.len();
        proof {
            assert(steps@.subrange(0, n as int) =~= steps@);
        }
        let mut i: usize = 0;
        while i < n
            invariant
                n == steps@.len(),
                i <= n,
                spec_apply_steps(*self, steps@) == spec_apply_steps(
                    sword,
                    steps@.subrange(i as int, n as int),
                ),
            decreases n - i,
        {
            proof {
                let rest = steps@.subrange(i as int, n as int);
                assert(rest[0] == steps@[i as int]);
                assert(rest.drop_first() =~= steps@.subrange(i as int + 1, n as int));
            }
            sword = sword.process_step(steps[i]);
            i = i + 1;
        }
        proof {
            assert(steps@.subrange(n as int, n as int) =~= Seq::<i64>::empty());
        }
        sword
    }

    /// The quality of the whole sword: the decimal concatenation of every
    /// spine along the chain.
    pub fn quality(&self) -> (r: i64)
        requires
            self.wf(),
            self.bounded(),
        ensures
            r == self.quality_spec(),
        decreases *self,
    {
        match &self.next {
            Some(n) => {
                proof {
                    n.lemma_quality_pos();
                    lemma_concat_bounds(self.spine as int, n.quality_spec());
                }
                let q = n.quality();
                shift_dec(self.spine, q)
            },
            None => self.spine,
        }
    }

    /// The level of the head blade: spine, right edge, left edge written
    /// together in decimal.
    pub fn level(&self) -> (r: i64)
        requires
            self.wf(),
            self.level_spec() <= i64::MAX,
        ensures
            r == self.level_spec(),
    {
        let with_right = match self.right {
            Some(rv) => {
                proof {
                    lemma_concat_bounds(self.spine as int, rv as int);
                    if let Some(l) = self.left {
                        lemma_concat_bounds(concat_dec(self.spine as int, rv as int), l as int);
                    }
                }
                shift_dec(self.spine, rv)
            },
            None => self.spine,
        };
        match self.left {
            Some(l) => {
                proof {
                    if self.right is None {
                        lemma_concat_bounds(self.spine as int, l as int);
                    }
                }
                shift_dec(with_right, l)
            },
            None => with_right,
        }
    }

    /// Orders two swords by quality alone.
    pub fn cmp_simple(&self, rhs: &Sword) -> (r: Ordering)
        requires
            self.wf(),
            self.bounded(),
            rhs.wf(),
            rhs.bounded(),
        ensures
            r == ord_spec(self.quality_spec(), rhs.quality_spec()),
    {
        let a = self.quality();
        let b = rhs.quality();
        if a < b {
            Ordering::Less
        } else if a == b {
            Ordering::Equal
        } else {
            Ordering::Greater
        }
    }

    /// Orders two swords by quality, then head level, then the tail
    /// chains, and finally by identifier.
    pub fn cmp_full(&self, rhs: &Sword) -> (r: Ordering)
        requires
            self.wf(),
            self.bounded(),
            rhs.wf(),
            rhs.bounded(),
        ensures
            r == spec_cmp_full(*self, *rhs),
        decreases *self,
    {
        let quality_cmp = self.cmp_simple(rhs);
        if !matches!(quality_cmp, Ordering::Equal) {
            return quality_cmp;
        }
        let a = self.level();
        let b = rhs.level();
        if a != b {
            return if a < b {
                Ordering::Less
            } else {
                Ordering::Greater
            };
        }
        match (&self.next, &rhs.next) {
            (Some(n1), (Some(n2))) => n1.cmp_full(n2),
            _ => {
                if self.id < rhs.id {
                    Ordering::Less
                } else if self.id == rhs.id {
                    Ordering::Equal
                } else {
                    Ordering::Greater
                }
            },
        }
    }
}

/// The order of two numbers.
pub open spec fn ord_spec(a: int, b: int) -> Ordering {
    if a < b {
        Ordering::Less
    } else if a == b {
        Ordering::Equal
    } else {
        Ordering::Greater
    }
}

/// What folding one step into a chain yields.
pub open spec fn spec_process_step(s: Sword, step: i64) -> Sword
    decreases s,
{
    if s.left is None && step < s.spine {
        Sword { left: Some(step), id: s.id, spine: s.spine, right: s.right, next: s.next }
    } else if s.right is None && step > s.spine {
        Sword { right: Some(step), id: s.id, spine: s.spine, left: s.left, next: s.next }
    } else {
        match s.next {
            None => Sword {
                next: Some(
                    Box::new(Sword { id: s.id, spine: step, left: None, right: None, next: None }),
                ),
                id: s.id,
                spine: s.spine,
                left: s.left,
                right: s.right,
            },
            Some(n) => Sword {
                next: Some(Box::new(spec_process_step(*n, step))),
                id: s.id,
                spine: s.spine,
                left: s.left,
                right: s.right,
            },
        }
    }
}

/// What folding a list of steps into a chain yields, first step first.
pub open spec fn spec_apply_steps(s: Sword, steps: Seq<i64>) -> Sword
    decreases steps.len(),
{
    if steps.len() == 0 {
        s
    } else {
        spec_apply_steps(spec_process_step(s, steps[0]), steps.drop_first())
    }
}

/// The sword that a forging-step list builds: the first step seeds the
/// first blade, the rest are folded in.
pub open spec fn spec_forge(id: i64, steps: Seq<i64>) -> Sword {
    spec_apply_steps(
        Sword { id, spine: steps[0], left: None, right: None, next: None },
        steps.drop_first(),
    )
}

/// Quality first, then head level, then the tail chains, then the
/// identifier.
pub open spec fn spec_cmp_full(a: Sword, b: Sword) -> Ordering
    decreases a,
{
    if a.quality_spec() != b.quality_spec() {
        ord_spec(a.quality_spec(), b.quality_spec())
    } else if a.level_spec() != b.level_spec() {
        ord_spec(a.level_spec(), b.level_spec())
    } else {
        match (a.next, b.next) {
            (Some(n1), Some(n2)) => spec_cmp_full(*n1, *n2),
            _ => ord_spec(a.id as int, b.id as int),
        }
    }
}

/// A deep copy of a chain, equal to the source value.
fn clone_sword(s: &Sword) -> (r: Sword)
    ensures
        r == *s,
    decreases *s,
{
    Sword {
        id: s.id,
        spine: s.spine,
        left: s.left,
        right: s.right,
        next: clone_next(&s.next),
    }
}

/// A deep copy of an optional tail chain, equal to the source value.
fn clone_next(n: &Option<Box<Sword>>) -> (r: Option<Box<Sword>>)
    ensures
        r == *n,
    decreases *n,
{
    match n {
        Some(b) => Some(Box::new(clone_sword(&**b))),
        None => None,
    }
}

} // verus!
