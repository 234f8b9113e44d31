//! Valid names under succession rules.
//!
//! A rule set says, for each letter, which letters may follow it.  A name
//! is valid when every adjacent pair of letters obeys the rules.

use vstd::prelude::*;

verus! {

/// Succession rules: for each listed letter, the letters allowed after
/// it.  Letters are kept in first-listing order, each once.
pub struct Rules {
    pub keys: Vec<u8>,
    pub succ: Vec<Vec<u8>>,
}

impl Rules {
    /// Each letter is listed once, with one successor list.
    pub open spec fn wf(self) -> bool {
        &&& self.keys@.no_duplicates()
        &&& self.succ@.len() == self.keys@.len()
    }

    /// Letter `b` may follow letter `a`.
    pub open spec fn allowed(self, a: u8, b: u8) -> bool {
        exists|i: int|
            0 <= i < self.keys@.len() && self.keys@[i] == a && #[trigger] self.succ@[i]@.contains(
                b,
            )
    }

    /// Finds whether `b` may follow `a` under these rules.
    pub fn allows(&self, a: u8, b: u8) -> (r: bool)
        requires
            self.wf(),
        ensures
            r <==> self.allowed(a, b),
    {
        let n = self.keys.len();
        let mut i: usize = 0;
        while i < n
            invariant
                self.wf(),
                n == self.keys@.len(),
                i <= n,
                forall|j: int|
                    0 <= j < i ==> !(self.keys@[j] == a && #[trigger] self.succ@[j]@.contains(b)),
            decreases n - i,
        {
            if self.keys[i] == a {
                let row = &self.succ[i];
                let m = row.len();
                let mut k: usize = 0;
                while k < m
                    invariant
                        self.wf(),
                        0 <= i < self.keys@.len(),
                        self.keys@[i as int] == a,
                        row@ == self.succ@[i as int]@,
                        m == row@.len(),
                        k <= m,
                        forall|j: int| 0 <= j < k ==> row@[j] != b,
                    decreases m - k,
                {
                    if row[k] == b {
                        proof {
                            assert(self.succ@[i as int]@[k as int] == b);
                            assert(self.succ@[i as int]@.contains(b));
                            assert(self.keys@[i as int] == a);
                        }
                        return true;
                    }
                    k = k + 1;
                }
            }
            i = i + 1;
        }
        false
    }
}

/// Every adjacent pair of the name's letters obeys the rules.
pub open spec fn name_valid(name: Seq<u8>, rules: Rules) -> bool {
    forall|i: int| 0 <= i < name.len() - 1 ==> #[trigger] rules.allowed(name[i], name[i + 1])
}

/// Checks one name against the rules, pair of adjacent letters by pair.
pub fn is_valid(name: &Vec<u8>, rules: &Rules) -> (r: bool)
    requires
        rules.wf(),
    ensures
        r <==> name_valid(name@, *rules),
{
    let n = name.len();
    if n < 2 {
        return true;
    }
    let mut i: usize = 0;
    while i < n - 1
        invariant
            rules.wf(),
            n == name@.len(),
            n >= 2,
            i <= n - 1,
            forall|j: int| 0 <= j < i ==> #[trigger] rules.allowed(name@[j], name@[j + 1]),
        decreases n - i,
    {
        if !rules.allows(name[i], name[i + 1]) {
            return false;
        }
        i = i + 1;
    }
    true
}

/// The indices of the valid names among the first `n`.
pub open spec fn valid_indices(names: Seq<Seq<u8>>, rules: Rules, n: int) -> Seq<int>
    decreases n,
{
    if n <= 0 {
        Seq::empty()
    } else if name_valid(names[n - 1], rules) {
        valid_indices(names, rules, n - 1).push(n - 1)
    } else {
        valid_indices(names, rules, n - 1)
    }
}

/// Filters the names down to the valid ones, each with its position,
/// keeping the input order.
pub fn find_valids(names: &Vec<Vec<u8>>, rules: &Rules) -> (r: Vec<(usize, Vec<u8>)>)
    requires
        rules.wf(),
    ensures
        ({
            let idx = valid_indices(names@.map_values(|v: Vec<u8>| v@), *rules, names@.len() as int);
            &&& r@.len() == idx.len()
            &&& forall|k: int|
                0 <= k < idx.len() ==> #[trigger] r@[k].0 == idx[k] && r@[k].1@ == names@[idx[k]]@
        }),
{
    let ghost gnames = names@.map_values(|v: Vec<u8>| v@);
    let n = names.len();
    let mut out: Vec<(usize, Vec<u8>)> = Vec::new();
    let mut i: usize = 0;
    while i < n
        invariant
            rules.wf(),
            n == names@.len(),
            gnames == names@.map_values(|v: Vec<u8>| v@),
            i <= n,
            out@.len() == valid_indices(gnames, *rules, i as int).len(),
            forall|k: int|
                0 <= k < out@.len() ==> #[trigger] out@[k].0 == valid_indices(
                    gnames,
                    *rules,
                    i as int,
                )[k] && out@[k].1@ == names@[valid_indices(gnames, *rules, i as int)[k]]@,
        decreases n - i,
    {
        proof {
            assert(gnames[i as int] == names@[i as int]@);
        }
        if is_valid(&names[i], rules) {
            let copy = crate::dial::copy_bytes(&names[i]);
            out.push((i, copy));
        }
        proof {
            let prev = valid_indices(gnames, *rules, i as int);
            let cur = valid_indices(gnames, *rules, i as int + 1);
            if name_valid(gnames[i as int], *rules) {
                assert(cur == prev.push(i as int));
            } else {
                assert(cur == prev);
            }
        }
        i = i + 1;
    }
    out
}

/// The first valid name, where there is one.
pub fn first_valid(names: &Vec<Vec<u8>>, rules: &Rules) -> (r: Option<Vec<u8>>)
    requires
        rules.wf(),
    ensures
        r is Some <==> exists|i: int|
            0 <= i < names@.len() && name_valid(#[trigger] names@[i]@, *rules),
        r matches Some(nm) ==> exists|i: int|
            0 <= i < names@.len() && #[trigger] name_valid(names@[i]@, *rules) && nm@ == names@[i]@
                && (forall|j: int| 0 <= j < i ==> !name_valid(#[trigger] names@[j]@, *rules)),
{
    let n = names.len();
    let mut i: usize = 0;
    while i < n
        invariant
            rules.wf(),
            n == names@.len(),
            i <= n,
            forall|j: int| 0 <= j < i ==> !name_valid(#[trigger] names@[j]@, *rules),
        decreases n - i,
    {
        if is_valid(&names[i], rules) {
            return Some(crate::dial::copy_bytes(&names[i]));
        }
        i = i + 1;
    }
    None
}

} // verus!
