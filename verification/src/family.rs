//! The relationship graph and its families.
//!
//! Confirmed parent pairs are recorded as symmetric links between
//! identifiers.  A family is everything reachable from a starting identifier
//! across those links; the grouper reports the identifier sum of a largest
//! family.

use vstd::prelude::*;

use crate::dna::KinError;
use crate::relations::{find_parents, parents_result, population_wf, Person};

verus! {

/// Membership in a sequence after a push: the old members plus the new one.
pub(crate) proof fn lemma_contains_push<A>(s: Seq<A>, e: A, p: A)
    ensures
        s.push(e).contains(p) <==> s.contains(p) || p == e,
{
    if s.push(e).contains(p) {
        let i = choose|i: int| 0 <= i < s.push(e).len() && s.push(e)[i] == p;
        if i < s.len() {
            assert(s[i] == p);
        }
    }
    if s.contains(p) {
        let i = choose|i: int| 0 <= i < s.len() && s[i] == p;
        assert(s.push(e)[i] == p);
    }
    assert(s.push(e)[s.len() as int] == e);
}

/// Pushing an element that is not yet present keeps a sequence free of
/// duplicates.
pub(crate) proof fn lemma_push_no_duplicates<A>(s: Seq<A>, e: A)
    requires
        s.no_duplicates(),
        !s.contains(e),
    ensures
        s.push(e).no_duplicates(),
{
    assert forall|i: int, j: int|
        0 <= i < s.push(e).len() && 0 <= j < s.push(e).len() && i != j implies s.push(e)[i]
        != s.push(e)[j] by {
        if i < s.len() && j < s.len() {
        } else if i < s.len() {
            assert(s.push(e)[j] == e);
            assert(s[i] == s.push(e)[i]);
        } else {
            assert(s.push(e)[i] == e);
            assert(s[j] == s.push(e)[j]);
        }
    }
}

/// A symmetric adjacency structure over individual identifiers: the
/// identifiers seen so far, in first-touch order, and the directed links,
/// kept in both directions.
pub struct Graph {
    pub nodes: Vec<usize>,
    pub links: Vec<(usize, usize)>,
}

impl Graph {
    /// `v` is directly related to `u`.
    pub open spec fn edge(self, u: usize, v: usize) -> bool {
        self.links@.contains((u, v))
    }

    /// The identifiers present in the graph.
    pub open spec fn node_set(self) -> Set<usize> {
        self.nodes@.to_set()
    }

    /// Well-formedness: no identifier or link twice, every link mirrored,
    /// and both ends of every link among the identifiers.
    pub open spec fn wf(self) -> bool {
        &&& self.nodes@.no_duplicates()
        &&& self.links@.no_duplicates()
        &&& forall|p: (usize, usize)| #[trigger]
            self.links@.contains(p) ==> self.links@.contains((p.1, p.0))
        &&& forall|p: (usize, usize)| #[trigger]
            self.links@.contains(p) ==> self.node_set().contains(p.0) && self.node_set().contains(
                p.1,
            )
    }

    /// An empty graph: no identifiers, no links.
    pub fn new() -> (g: Graph)
        ensures
            g.wf(),
            g.nodes@.len() == 0,
            g.links@.len() == 0,
    {
        Graph { nodes: Vec::new(), links: Vec::new() }
    }

    /// Records `u` as an identifier of the graph if it is new.
    fn ensure_node(&mut self, u: usize)
        requires
            old(self).wf(),
        ensures
            final(self).wf(),
            final(self).links@ == old(self).links@,
            final(self).node_set() == old(self).node_set().insert(u),
            final(self).nodes@.contains(u),
    {
        if !contains_id(&self.nodes, u) {
            let ghost before = self.nodes@;
            self.nodes.push(u);
            proof {
                lemma_push_no_duplicates(before, u);
                assert forall|x: usize| self.nodes@.contains(x) <==> before.contains(x) || x
                    == u by {
                    lemma_contains_push(before, u, x);
                }
                assert(self.node_set() =~= old(self).node_set().insert(u));
            }
        } else {
            proof {
                assert(self.node_set() =~= old(self).node_set().insert(u));
            }
        }
    }

    /// Is the directed link `(u, v)` already recorded?
    fn has_link(&self, u: usize, v: usize) -> (r: bool)
        ensures
            r <==> self.links@.contains((u, v)),
    {
        let n = self.links.len();
        let mut i: usize = 0;
        while i < n
            invariant
                n == self.links@.len(),
                i <= n,
                forall|j: int| 0 <= j < i ==> #[trigger] self.links@[j] != (u, v),
            decreases n - i,
        {
            let (a, b) = self.links[i];
            if a == u && b == v {
                return true;
            }
            i = i + 1;
        }
        false
    }

    /// Records the symmetric relation `u <-> v`; recording an existing
    /// relation changes nothing.
    pub fn add_edge(&mut self, u: usize, v: usize)
        requires
            old(self).wf(),
        ensures
            final(self).wf(),
            final(self).node_set() == old(self).node_set().insert(u).insert(v),
            forall|x: usize, y: usize|
                final(self).edge(x, y) <==> old(self).edge(x, y) || (x == u && y == v) || (x == v
                    && y == u),
    {
        self.ensure_node(u);
        let ghost nmid = self.nodes@;
        self.ensure_node(v);
        proof {
            assert(nmid.to_set().contains(u));
            assert(self.node_set().contains(u) && self.node_set().contains(v));
            assert(self.nodes@.contains(u) && self.nodes@.contains(v));
        }
        let ghost l0 = self.links@;
        if !self.has_link(u, v) {
            self.links.push((u, v));
            proof {
                lemma_push_no_duplicates(l0, (u, v));
            }
        }
        let ghost l1 = self.links@;
        proof {
            assert forall|p: (usize, usize)| l1.contains(p) <==> l0.contains(p) || p == (
            u,
            v,
            ) by {
                lemma_contains_push(l0, (u, v), p);
            }
            assert(l1.contains((u, v)));
        }
        if !self.has_link(v, u) {
            self.links.push((v, u));
            proof {
                lemma_push_no_duplicates(l1, (v, u));
            }
        }
        proof {
            assert forall|p: (usize, usize)| self.links@.contains(p) <==> l1.contains(p) || p
                == (v, u) by {
                lemma_contains_push(l1, (v, u), p);
            }
            assert(self.links@.contains((v, u)));
            assert(self.node_set() =~= old(self).node_set().insert(u).insert(v));
            assert forall|p: (usize, usize)| #[trigger]
                self.links@.contains(p) implies self.links@.contains((p.1, p.0)) by {
                if l0.contains(p) {
                    assert(l0.contains((p.1, p.0)));
                }
            }
            assert forall|p: (usize, usize)| #[trigger]
                self.links@.contains(p) implies self.node_set().contains(p.0)
                && self.node_set().contains(p.1) by {
                if l0.contains(p) {
                    assert(old(self).node_set().contains(p.0));
                    assert(old(self).node_set().contains(p.1));
                } else {
                    assert(p == (u, v) || p == (v, u));
                }
            }
        }
    }
}

/// Consecutive entries of `p` are linked in `g`.
pub open spec fn is_path(g: Graph, p: Seq<usize>) -> bool {
    forall|i: int| 0 <= i < p.len() - 1 ==> #[trigger] g.edge(p[i], p[i + 1])
}

/// `p` is a walk through `g` from `x` to `y`.
pub open spec fn connects(g: Graph, p: Seq<usize>, x: usize, y: usize) -> bool {
    &&& p.len() > 0
    &&& p.first() == x
    &&& p.last() == y
    &&& is_path(g, p)
}

/// `y` belongs to the family of `x`: some walk over the links joins them.
pub open spec fn reaches(g: Graph, x: usize, y: usize) -> bool {
    exists|p: Seq<usize>| #[trigger] connects(g, p, x, y)
}

/// The family of `x`: every identifier reachable from `x`, `x` included.
pub open spec fn family(g: Graph, x: usize) -> Set<usize> {
    Set::new(|y: usize| reaches(g, x, y))
}

/// Reaching is reflexive.
pub proof fn lemma_reach_refl(g: Graph, x: usize)
    ensures
        reaches(g, x, x),
{
    let p = seq![x];
    assert(p.len() == 1 && p.first() == x && p.last() == x);
    assert(connects(g, p, x, x));
}

/// One more link extends a reach.
pub proof fn lemma_reach_step(g: Graph, x: usize, z: usize, y: usize)
    requires
        reaches(g, x, z),
        g.edge(z, y),
    ensures
        reaches(g, x, y),
{
    let p = choose|p: Seq<usize>| #[trigger] connects(g, p, x, z);
    let q = p.push(y);
    assert forall|i: int| 0 <= i < q.len() - 1 implies #[trigger] g.edge(q[i], q[i + 1]) by {
        if i < p.len() - 1 {
            assert(g.edge(p[i], p[i + 1]));
        } else {
            assert(q[i] == p.last() && q[i + 1] == y);
        }
    }
    assert(q.last() == y && q.first() == x);
    assert(connects(g, q, x, y));
}

/// Reaching is transitive.
pub proof fn lemma_reach_trans(g: Graph, x: usize, y: usize, z: usize)
    requires
        reaches(g, x, y),
        reaches(g, y, z),
    ensures
        reaches(g, x, z),
{
    let p1 = choose|p: Seq<usize>| #[trigger] connects(g, p, x, y);
    let p2 = choose|p: Seq<usize>| #[trigger] connects(g, p, y, z);
    if p2.len() == 1 {
        assert(connects(g, p1, x, z));
    } else {
        let q = p1 + p2.subrange(1, p2.len() as int);
        assert forall|i: int| 0 <= i < q.len() - 1 implies #[trigger] g.edge(q[i], q[i + 1]) by {
            if i < p1.len() - 1 {
                assert(g.edge(p1[i], p1[i + 1]));
            } else if i == p1.len() - 1 {
                assert(q[i] == p1.last());
                assert(q[i + 1] == p2[1]);
                assert(g.edge(p2[0], p2[1]));
            } else {
                let j = i - p1.len();
                assert(q[i] == p2[j + 1] && q[i + 1] == p2[j + 2]);
                assert(g.edge(p2[j + 1], p2[j + 2]));
            }
        }
        assert(q.first() == x && q.last() == z && q.len() > 0);
        assert(connects(g, q, x, z));
    }
}

/// In a well-formed graph the links are symmetric, so reaching is too.
pub proof fn lemma_reach_sym(g: Graph, x: usize, y: usize)
    requires
        g.wf(),
        reaches(g, x, y),
    ensures
        reaches(g, y, x),
{
    let p = choose|p: Seq<usize>| #[trigger] connects(g, p, x, y);
    let q = p.reverse();
    assert forall|i: int| 0 <= i < q.len() - 1 implies #[trigger] g.edge(q[i], q[i + 1]) by {
        let n = p.len() as int;
        let j = n - 2 - i;
        assert(q[i] == p[j + 1] && q[i + 1] == p[j]);
        assert(g.edge(p[j], p[j + 1]));
        assert(g.links@.contains((p[j], p[j + 1])));
        assert(g.links@.contains((p[j + 1], p[j])));
    }
    assert(q.first() == y && q.last() == x && q.len() > 0);
    assert(connects(g, q, y, x));
}

/// Family membership is transitive and symmetric: any two identifiers in
/// the same connected component have exactly the same family, whichever of
/// them the traversal starts from.
pub proof fn lemma_family_shared(g: Graph, x: usize, y: usize)
    requires
        g.wf(),
        reaches(g, x, y),
    ensures
        family(g, x) == family(g, y),
{
    lemma_reach_sym(g, x, y);
    assert forall|z: usize| family(g, x).contains(z) <==> family(g, y).contains(z) by {
        if reaches(g, x, z) {
            lemma_reach_trans(g, y, x, z);
        }
        if reaches(g, y, z) {
            lemma_reach_trans(g, x, y, z);
        }
    }
    assert(family(g, x) =~= family(g, y));
}

/// Anything reached from `x` is `x` itself or one of the graph's
/// identifiers.
proof fn lemma_reach_in_nodes(g: Graph, x: usize, y: usize)
    requires
        g.wf(),
        reaches(g, x, y),
    ensures
        y == x || g.node_set().contains(y),
{
    let p = choose|p: Seq<usize>| #[trigger] connects(g, p, x, y);
    if p.len() == 1 {
    } else {
        let j = p.len() - 2;
        assert(g.edge(p[j], p[j + 1]));
        assert(p[j + 1] == y);
        assert(g.links@.contains((p[j], p[j + 1])));
    }
}

/// A set that contains the head of a walk and is closed under the links
/// contains the walk's last identifier.
proof fn lemma_closed_contains_path(g: Graph, s: Set<usize>, p: Seq<usize>)
    requires
        p.len() > 0,
        s.contains(p.first()),
        forall|v: usize, w: usize| s.contains(v) && #[trigger] g.edge(v, w) ==> s.contains(w),
        is_path(g, p),
    ensures
        s.contains(p.last()),
    decreases p.len(),
{
    if p.len() > 1 {
        let q = p.drop_last();
        assert forall|i: int| 0 <= i < q.len() - 1 implies #[trigger] g.edge(q[i], q[i + 1]) by {
            assert(g.edge(p[i], p[i + 1]));
        }
        assert(q.first() == p.first());
        lemma_closed_contains_path(g, s, q);
        let j = p.len() - 2;
        assert(g.edge(p[j], p[j + 1]));
        assert(s.contains(p[j]));
        assert(p[j + 1] == p.last());
    }
}

/// A set that contains `start` and is closed under the links contains
/// everything reachable from `start`.
proof fn lemma_closed_contains_reach(g: Graph, s: Set<usize>, start: usize, y: usize)
    requires
        s.contains(start),
        forall|v: usize, w: usize| s.contains(v) && #[trigger] g.edge(v, w) ==> s.contains(w),
        reaches(g, start, y),
    ensures
        s.contains(y),
{
    let p = choose|p: Seq<usize>| #[trigger] connects(g, p, start, y);
    lemma_closed_contains_path(g, s, p);
}

/// Collects the family of `start`: every identifier reachable from it over
/// the links, each exactly once, by a worklist traversal with an explicit
/// visited list.
pub fn family_of(g: &Graph, start: usize) -> (r: Vec<usize>)
    requires
        g.wf(),
    ensures
        r@.no_duplicates(),
        forall|y: usize| r@.contains(y) <==> reaches(*g, start, y),
        r@.to_set() == family(*g, start),
{
    let mut visited: Vec<usize> = Vec::new();
    let mut stack: Vec<usize> = Vec::new();
    stack.push(start);
    proof {
        lemma_reach_refl(*g, start);
        assert(stack@.len() == 1 && stack@[0] == start);
        assert(stack@.contains(start));
    }
    let ghost bound = g.nodes@.len() + 1;
    while stack.len() > 0
        invariant
            g.wf(),
            visited@.no_duplicates(),
            forall|y: usize| visited@.contains(y) ==> reaches(*g, start, y),
            forall|y: usize| stack@.contains(y) ==> reaches(*g, start, y),
            visited@.contains(start) || stack@.contains(start),
            forall|v: usize, w: usize|
                visited@.contains(v) && #[trigger] g.edge(v, w) ==> visited@.contains(w)
                    || stack@.contains(w),
            bound == g.nodes@.len() + 1,
            visited@.len() <= bound,
        decreases bound - visited@.len(), stack@.len(),
    {
        let ghost stack0 = stack@;
        let ghost visited0 = visited@;
        let x = stack[stack.len() - 1];
        stack.pop();
        proof {
            assert(stack0.contains(x));
            assert(stack@ == stack0.drop_last());
            assert forall|y: usize| stack@.contains(y) implies stack0.contains(y) by {
                let i = choose|i: int| 0 <= i < stack@.len() && stack@[i] == y;
                assert(stack0[i] == y);
            }
            assert forall|y: usize| stack0.contains(y) implies stack@.contains(y) || y == x by {
                let i = choose|i: int| 0 <= i < stack0.len() && stack0[i] == y;
                if i < stack0.len() - 1 {
                    assert(stack@[i] == y);
                }
            }
        }
        if !contains_id(&visited, x) {
            visited.push(x);
            proof {
                lemma_push_no_duplicates(visited0, x);
                assert forall|y: usize| visited@.contains(y) <==> visited0.contains(y) || y
                    == x by {
                    lemma_contains_push(visited0, x, y);
                }
                // the visited list stays within the graph's identifiers plus the start
                assert(visited@.to_set().subset_of(g.node_set().insert(start))) by {
                    assert forall|y: usize| visited@.to_set().contains(y) implies g.node_set()
                        .insert(start).contains(y) by {
                        lemma_reach_in_nodes(*g, start, y);
                    }
                }
                broadcast use vstd::seq_lib::seq_to_set_is_finite;

                visited@.unique_seq_to_set();
                vstd::set_lib::lemma_len_subset(visited@.to_set(), g.node_set().insert(start));
                assert(g.node_set().insert(start).len() <= g.node_set().len() + 1);
                assert(g.node_set().len() <= g.nodes@.len()) by {
                    g.nodes@.lemma_cardinality_of_set();
                }
            }
            // hand every direct relation of x to the worklist
            let n = g.links.len();
            let mut i: usize = 0;
            while i < n
                invariant
                    g.wf(),
                    n == g.links@.len(),
                    i <= n,
                    visited@.no_duplicates(),
                    forall|y: usize| visited@.contains(y) ==> reaches(*g, start, y),
                    forall|y: usize| stack@.contains(y) ==> reaches(*g, start, y),
                    visited@.contains(start) || stack@.contains(start),
                    visited@.contains(x),
                    reaches(*g, start, x),
                    forall|v: usize, w: usize|
                        visited@.contains(v) && v != x && #[trigger] g.edge(v, w)
                            ==> visited@.contains(w) || stack@.contains(w),
                    forall|j: int|
                        0 <= j < i && (#[trigger] g.links@[j]).0 == x ==> visited@.contains(
                            g.links@[j].1,
                        ) || stack@.contains(g.links@[j].1),
                    visited@.len() <= bound,
                    bound == g.nodes@.len() + 1,
                decreases n - i,
            {
                let (a, b) = g.links[i];
                let ghost stack1 = stack@;
                if a == x {
                    stack.push(b);
                    proof {
                        assert(g.links@.contains((a, b)));
                        lemma_reach_step(*g, start, x, b);
                        assert forall|y: usize| stack@.contains(y) implies stack1.contains(y)
                            || y == b by {
                            lemma_contains_push(stack1, b, y);
                        }
                        assert(stack@.contains(b)) by {
                            lemma_contains_push(stack1, b, b);
                        }
                        assert forall|y: usize| stack1.contains(y) implies stack@.contains(
                            y,
                        ) by {
                            lemma_contains_push(stack1, b, y);
                        }
                    }
                }
                i = i + 1;
            }
            proof {
                assert forall|v: usize, w: usize|
                    visited@.contains(v) && #[trigger] g.edge(v, w) implies visited@.contains(w)
                    || stack@.contains(w) by {
                    if v == x {
                        let j = choose|j: int|
                            0 <= j < g.links@.len() && g.links@[j] == (v, w);
                        assert(g.links@[j].0 == x && g.links@[j].1 == w);
                    }
                }
            }
        }
    }
    proof {
        assert forall|y: usize| visited@.contains(y) <==> reaches(*g, start, y) by {
            if reaches(*g, start, y) {
                lemma_closed_contains_reach(*g, visited@.to_set(), start, y);
            }
        }
        assert(visited@.to_set() =~= family(*g, start));
    }
    visited
}

/// The folding step of an identifier sum.
pub open spec fn id_add() -> spec_fn(int, usize) -> int {
    |acc: int, x: usize| acc + x
}

/// The sum of the identifiers in a set.
pub open spec fn id_sum(s: Set<usize>) -> int {
    s.fold(0, id_add())
}

proof fn lemma_id_add_commutative()
    ensures
        vstd::set::fold::is_fun_commutative(id_add()),
{
}

/// The sum of the identifiers in a sequence, last first.
pub open spec fn seq_id_sum(s: Seq<usize>) -> int
    decreases s.len(),
{
    if s.len() == 0 {
        0
    } else {
        seq_id_sum(s.drop_last()) + s.last()
    }
}

/// On a duplicate-free sequence, the sequence sum is the set sum of its
/// members.
proof fn lemma_seq_id_sum_set(s: Seq<usize>)
    requires
        s.no_duplicates(),
    ensures
        seq_id_sum(s) == id_sum(s.to_set()),
    decreases s.len(),
{
    lemma_id_add_commutative();
    if s.len() == 0 {
        assert(s.to_set() =~= Set::<usize>::empty());
        vstd::set::fold::lemma_fold_empty(0int, id_add());
    } else {
        let q = s.drop_last();
        let x = s.last();
        lemma_seq_id_sum_set(q);
        assert(s =~= q.push(x));
        assert forall|y: usize| s.to_set().contains(y) <==> q.to_set().contains(y) || y == x by {
            lemma_contains_push(q, x, y);
        }
        assert(s.to_set() =~= q.to_set().insert(x));
        assert(!q.contains(x));
        q.lemma_cardinality_of_set();
        broadcast use vstd::seq_lib::seq_to_set_is_finite;

        vstd::set::fold::lemma_fold_insert(q.to_set(), 0int, id_add(), x);
    }
}

/// Sums the identifiers of a duplicate-free list.
fn sum_ids(v: &Vec<usize>) -> (t: u128)
    requires
        v@.no_duplicates(),
    ensures
        t == id_sum(v@.to_set()),
{
    let n = v.len();
    let mut t: u128 = 0;
    let mut i: usize = 0;
    proof {
        assert(v@.subrange(0, 0) =~= Seq::<usize>::empty());
    }
    while i < n
        invariant
            n == v@.len(),
            i <= n,
            t == seq_id_sum(v@.subrange(0, i as int)),
            t <= (i as int) * (usize::MAX as int),
        decreases n - i,
    {
        let x = v[i];
        proof {
            let pre = v@.subrange(0, i as int);
            let post = v@.subrange(0, i as int + 1);
            assert(post.drop_last() =~= pre);
            assert(post.last() == v@[i as int]);
            assert(t + x <= (i as int + 1) * (usize::MAX as int)) by (nonlinear_arith)
                requires
                    t <= (i as int) * (usize::MAX as int),
                    0 <= x <= usize::MAX as int,
            ;
            assert((i as int + 1) * (usize::MAX as int) < u128::MAX) by (nonlinear_arith)
                requires
                    i as int + 1 <= 0x1_0000_0000_0000_0000,
                    usize::MAX as int <= 0xffff_ffff_ffff_ffff,
            ;
        }
        t = t + (x as u128);
        i = i + 1;
    }
    proof {
        assert(v@.subrange(0, n as int) =~= v@);
        lemma_seq_id_sum_set(v@);
    }
    t
}

/// How many identifiers the family of `x` holds.
pub open spec fn family_size(g: Graph, x: usize) -> nat {
    family(g, x).len()
}

/// A correct largest-family answer: the identifier sum of the family of the
/// first identifier, in first-touch order, whose family no other identifier
/// outsizes.
pub open spec fn biggest_family_report(g: Graph, total: int) -> bool {
    exists|k: int|
        0 <= k < g.nodes@.len() && total == id_sum(family(g, #[trigger] g.nodes@[k])) && (
        forall|j: int|
            0 <= j < g.nodes@.len() ==> family_size(g, #[trigger] g.nodes@[j]) <= family_size(
                g,
                g.nodes@[k],
            )) && (forall|j: int|
            0 <= j < k ==> family_size(g, #[trigger] g.nodes@[j]) < family_size(g, g.nodes@[k]))
}

/// Reports the identifier sum of a largest family: the first identifier (in
/// first-touch order) whose family is not outsized by any other starts the
/// counted family.  A graph with no identifiers has no largest family and
/// signals that instead of answering zero.
pub fn find_biggest_family(g: &Graph) -> (r: Result<u128, KinError>)
    requires
        g.wf(),
    ensures
        r is Err <==> g.nodes@.len() == 0,
        r is Err ==> r == Err::<u128, KinError>(KinError::EmptyGraph),
        r matches Ok(total) ==> biggest_family_report(*g, total as int),
{
    let n = g.nodes.len();
    if n == 0 {
        return Err(KinError::EmptyGraph);
    }
    let start0 = g.nodes[0];
    let fam0 = family_of(g, start0);
    let mut best_size: usize = fam0.len();
    let mut best_sum: u128 = sum_ids(&fam0);
    let ghost mut best_k: int = 0;
    proof {
        fam0@.unique_seq_to_set();
    }
    let mut k: usize = 1;
    while k < n
        invariant
            g.wf(),
            n == g.nodes@.len(),
            1 <= k <= n,
            0 <= best_k < k,
            best_size == family_size(*g, g.nodes@[best_k]),
            best_sum == id_sum(family(*g, g.nodes@[best_k])),
            forall|j: int|
                0 <= j < k ==> family_size(*g, #[trigger] g.nodes@[j]) <= family_size(
                    *g,
                    g.nodes@[best_k],
                ),
            forall|j: int|
                0 <= j < best_k ==> family_size(*g, #[trigger] g.nodes@[j]) < family_size(
                    *g,
                    g.nodes@[best_k],
                ),
        decreases n - k,
    {
        let startk = g.nodes[k];
        let fam = family_of(g, startk);
        proof {
            fam@.unique_seq_to_set();
        }
        if fam.len() > best_size {
            best_size = fam.len();
            best_sum = sum_ids(&fam);
            proof {
                best_k = k as int;
            }
        }
        k = k + 1;
    }
    proof {
        let k = best_k;
        assert(0 <= k < g.nodes@.len() && best_sum as int == id_sum(
            family(*g, g.nodes@[k]),
        ) && (forall|j: int|
            0 <= j < g.nodes@.len() ==> family_size(*g, #[trigger] g.nodes@[j]) <= family_size(
                *g,
                g.nodes@[k],
            )) && (forall|j: int|
            0 <= j < k ==> family_size(*g, #[trigger] g.nodes@[j]) < family_size(
                *g,
                g.nodes@[k],
            )));
    }
    Ok(best_sum)
}

/// The search for individual `i` confirmed parents and would record the
/// symmetric link `u <-> v`.
pub open spec fn child_links(ppl: Seq<Person>, i: int, u: usize, v: usize) -> bool {
    match parents_result(ppl[i], ppl) {
        Some((id_a, id_b, _)) => {
            let id = ppl[i].id;
            (u == id && v == id_a) || (u == id_a && v == id) || (u == id && v == id_b) || (u
                == id_b && v == id)
        },
        None => false,
    }
}

/// Some individual among the first `n` contributes the link `u -> v`.
pub open spec fn link_upto(ppl: Seq<Person>, n: int, u: usize, v: usize) -> bool {
    exists|i: int| 0 <= i <= n - 1 && #[trigger] child_links(ppl, i, u, v)
}

/// The search for individual `i` confirmed parents and touches identifier
/// `x` (as child or as parent).
pub open spec fn child_nodes(ppl: Seq<Person>, i: int, x: usize) -> bool {
    match parents_result(ppl[i], ppl) {
        Some((id_a, id_b, _)) => x == ppl[i].id || x == id_a || x == id_b,
        None => false,
    }
}

/// Some individual among the first `n` brings `x` into the graph.
pub open spec fn node_upto(ppl: Seq<Person>, n: int, x: usize) -> bool {
    exists|i: int| 0 <= i <= n - 1 && #[trigger] child_nodes(ppl, i, x)
}

/// Runs the parent search for every individual and records, for each that
/// found parents, the symmetric links from the child to both parents.  The
/// graph holds exactly those links and exactly the identifiers they touch.
pub fn build_graph(everyone: &Vec<Person>) -> (g: Graph)
    requires
        population_wf(everyone@),
    ensures
        g.wf(),
        forall|u: usize, v: usize|
            #[trigger] g.edge(u, v) <==> link_upto(everyone@, everyone@.len() as int, u, v),
        forall|x: usize|
            g.node_set().contains(x) <==> node_upto(everyone@, everyone@.len() as int, x),
{
    let n = everyone.len();
    let mut g = Graph::new();
    proof {
        assert forall|u: usize, v: usize| !g.edge(u, v) by {
            if g.links@.contains((u, v)) {
                let i = choose|i: int| 0 <= i < g.links@.len() && g.links@[i] == (u, v);
            }
        }
        assert forall|x: usize| !g.node_set().contains(x) by {
            if g.nodes@.to_set().contains(x) {
                let i = choose|i: int| 0 <= i < g.nodes@.len() && g.nodes@[i] == x;
            }
        }
    }
    let mut i: usize = 0;
    while i < n
        invariant
            n == everyone@.len(),
            i <= n,
            population_wf(everyone@),
            g.wf(),
            forall|u: usize, v: usize|
                #[trigger] g.edge(u, v) <==> link_upto(everyone@, i as int, u, v),
            forall|x: usize| g.node_set().contains(x) <==> node_upto(everyone@, i as int, x),
        decreases n - i,
    {
        let ghost g0 = g;
        if let Some((id_a, id_b, _score)) = find_parents(&everyone[i], everyone) {
            let id = everyone[i].id;
            g.add_edge(id, id_a);
            g.add_edge(id, id_b);
            proof {
                assert forall|u: usize, v: usize|
                    #[trigger] g.edge(u, v) <==> link_upto(everyone@, i as int + 1, u, v) by {
                    if g.edge(u, v) {
                        if g0.edge(u, v) {
                            let j = choose|j: int|
                                0 <= j <= i - 1 && #[trigger] child_links(everyone@, j, u, v);
                            assert(0 <= j <= i as int + 1 - 1);
                        } else {
                            assert(child_links(everyone@, i as int, u, v));
                        }
                    }
                    if link_upto(everyone@, i as int + 1, u, v) {
                        let j = choose|j: int|
                            0 <= j <= i as int && #[trigger] child_links(everyone@, j, u, v);
                        if j <= i - 1 {
                            assert(link_upto(everyone@, i as int, u, v));
                        } else {
                            assert(child_links(everyone@, i as int, u, v));
                        }
                    }
                }
                assert forall|x: usize|
                    g.node_set().contains(x) <==> node_upto(everyone@, i as int + 1, x) by {
                    if g.node_set().contains(x) {
                        if g0.node_set().contains(x) {
                            let j = choose|j: int|
                                0 <= j <= i - 1 && #[trigger] child_nodes(everyone@, j, x);
                            assert(0 <= j <= i as int + 1 - 1);
                        } else {
                            assert(x == id || x == id_a || x == id_b);
                            assert(child_nodes(everyone@, i as int, x));
                        }
                    }
                    if node_upto(everyone@, i as int + 1, x) {
                        let j = choose|j: int|
                            0 <= j <= i as int && #[trigger] child_nodes(everyone@, j, x);
                        if j <= i - 1 {
                            assert(node_upto(everyone@, i as int, x));
                        } else {
                            assert(child_nodes(everyone@, i as int, x));
                        }
                    }
                }
            }
        } else {
            proof {
                assert forall|u: usize, v: usize|
                    #[trigger] g.edge(u, v) <==> link_upto(everyone@, i as int + 1, u, v) by {
                    if g.edge(u, v) {
                        let j = choose|j: int|
                            0 <= j <= i - 1 && #[trigger] child_links(everyone@, j, u, v);
                        assert(0 <= j <= i as int + 1 - 1);
                    }
                    if link_upto(everyone@, i as int + 1, u, v) {
                        let j = choose|j: int|
                            0 <= j <= i as int && #[trigger] child_links(everyone@, j, u, v);
                        assert(j <= i - 1);
                    }
                }
                assert forall|x: usize|
                    g.node_set().contains(x) <==> node_upto(everyone@, i as int + 1, x) by {
                    if g.node_set().contains(x) {
                        let j = choose|j: int|
                            0 <= j <= i - 1 && #[trigger] child_nodes(everyone@, j, x);
                        assert(0 <= j <= i as int + 1 - 1);
                    }
                    if node_upto(everyone@, i as int + 1, x) {
                        let j = choose|j: int|
                            0 <= j <= i as int && #[trigger] child_nodes(everyone@, j, x);
                        assert(j <= i - 1);
                    }
                }
            }
        }
        i = i + 1;
    }
    g
}

/// The relationship graph never holds an identifier that the population
/// it was built from does not: every identifier a child's search brings
/// into the graph is some individual's.
pub proof fn lemma_graph_ids_from_population(ppl: Seq<Person>, x: usize)
    requires
        node_upto(ppl, ppl.len() as int, x),
    ensures
        exists|j: int| 0 <= j < ppl.len() && (#[trigger] ppl[j]).id == x,
{
    let i = choose|i: int| 0 <= i <= ppl.len() - 1 && #[trigger] child_nodes(ppl, i, x);
    if x == ppl[i].id {
        assert((ppl[i]).id == x);
    } else {
        crate::relations::lemma_parents_are_population_ids(ppl[i], ppl);
    }
}

/// Reordering the population does not change which links the graph
/// records, as long as every child's confirmed pair is unambiguous: the
/// same symmetric relations and the same identifiers arise from any
/// arrangement of the same individuals.
pub proof fn lemma_build_links_permuted(p1: Seq<Person>, p2: Seq<Person>)
    requires
        p1.to_multiset() == p2.to_multiset(),
        forall|i: int|
            0 <= i < p1.len() ==> crate::relations::unambiguous_parents(#[trigger] p1[i], p1),
    ensures
        forall|u: usize, v: usize|
            #[trigger] link_upto(p1, p1.len() as int, u, v) <==> link_upto(
                p2,
                p2.len() as int,
                u,
                v,
            ),
        forall|x: usize|
            #[trigger] node_upto(p1, p1.len() as int, x) <==> node_upto(p2, p2.len() as int, x),
{
    p1.to_multiset_ensures();
    p2.to_multiset_ensures();
    assert forall|u: usize, v: usize|
        #[trigger] link_upto(p1, p1.len() as int, u, v) implies link_upto(
        p2,
        p2.len() as int,
        u,
        v,
    ) by {
        let i = choose|i: int| 0 <= i <= p1.len() - 1 && #[trigger] child_links(p1, i, u, v);
        lemma_one_child_links(p1, p2, i, u, v);
    }
    assert forall|u: usize, v: usize|
        link_upto(p1, p1.len() as int, u, v) <== #[trigger] link_upto(
        p2,
        p2.len() as int,
        u,
        v,
    ) by {
        if link_upto(p2, p2.len() as int, u, v) {
            let i = choose|i: int| 0 <= i <= p2.len() - 1 && #[trigger] child_links(p2, i, u, v);
            lemma_one_child_links_back(p1, p2, i, u, v);
        }
    }
    assert forall|x: usize|
        #[trigger] node_upto(p1, p1.len() as int, x) implies node_upto(
        p2,
        p2.len() as int,
        x,
    ) by {
        let i = choose|i: int| 0 <= i <= p1.len() - 1 && #[trigger] child_nodes(p1, i, x);
        lemma_one_child_nodes(p1, p2, i, x);
    }
    assert forall|x: usize|
        node_upto(p1, p1.len() as int, x) <== #[trigger] node_upto(p2, p2.len() as int, x) by {
        if node_upto(p2, p2.len() as int, x) {
            let i = choose|i: int| 0 <= i <= p2.len() - 1 && #[trigger] child_nodes(p2, i, x);
            lemma_one_child_nodes_back(p1, p2, i, x);
        }
    }
}

/// One child's links carry over into the rearranged population.
proof fn lemma_one_child_links(p1: Seq<Person>, p2: Seq<Person>, i: int, u: usize, v: usize)
    requires
        p1.to_multiset() == p2.to_multiset(),
        forall|k: int|
            0 <= k < p1.len() ==> crate::relations::unambiguous_parents(#[trigger] p1[k], p1),
        0 <= i < p1.len(),
        child_links(p1, i, u, v),
    ensures
        link_upto(p2, p2.len() as int, u, v),
{
    p1.to_multiset_ensures();
    p2.to_multiset_ensures();
    let c = p1[i];
    assert(p1.contains(c));
    assert(p2.to_multiset().count(c) > 0);
    let i2 = choose|i2: int| 0 <= i2 < p2.len() && p2[i2] == c;
    crate::relations::lemma_parents_result_permuted(p1, p2, c);
    let ids1 = crate::relations::parent_id_set(c, p1);
    let ids2 = crate::relations::parent_id_set(c, p2);
    assert(ids1 == ids2);
    assert(child_links(p2, i2, u, v)) by {
        if u == c.id {
            assert(ids1.contains(v));
            assert(ids2.contains(v));
        } else {
            assert(v == c.id && ids1.contains(u));
            assert(ids2.contains(u));
        }
    }
}

/// One child's links in the rearranged population come from the first.
proof fn lemma_one_child_links_back(p1: Seq<Person>, p2: Seq<Person>, i2: int, u: usize, v: usize)
    requires
        p1.to_multiset() == p2.to_multiset(),
        forall|k: int|
            0 <= k < p1.len() ==> crate::relations::unambiguous_parents(#[trigger] p1[k], p1),
        0 <= i2 < p2.len(),
        child_links(p2, i2, u, v),
    ensures
        link_upto(p1, p1.len() as int, u, v),
{
    p1.to_multiset_ensures();
    p2.to_multiset_ensures();
    let c = p2[i2];
    assert(p2.contains(c));
    assert(p1.to_multiset().count(c) > 0);
    let i = choose|i: int| 0 <= i < p1.len() && p1[i] == c;
    crate::relations::lemma_parents_result_permuted(p1, p2, c);
    let ids1 = crate::relations::parent_id_set(c, p1);
    let ids2 = crate::relations::parent_id_set(c, p2);
    assert(ids1 == ids2);
    assert(child_links(p1, i, u, v)) by {
        if u == c.id {
            assert(ids2.contains(v));
            assert(ids1.contains(v));
        } else {
            assert(v == c.id && ids2.contains(u));
            assert(ids1.contains(u));
        }
    }
}

/// One child's identifiers carry over into the rearranged population.
proof fn lemma_one_child_nodes(p1: Seq<Person>, p2: Seq<Person>, i: int, x: usize)
    requires
        p1.to_multiset() == p2.to_multiset(),
        forall|k: int|
            0 <= k < p1.len() ==> crate::relations::unambiguous_parents(#[trigger] p1[k], p1),
        0 <= i < p1.len(),
        child_nodes(p1, i, x),
    ensures
        node_upto(p2, p2.len() as int, x),
{
    p1.to_multiset_ensures();
    p2.to_multiset_ensures();
    let c = p1[i];
    assert(p1.contains(c));
    assert(p2.to_multiset().count(c) > 0);
    let i2 = choose|i2: int| 0 <= i2 < p2.len() && p2[i2] == c;
    crate::relations::lemma_parents_result_permuted(p1, p2, c);
    let ids1 = crate::relations::parent_id_set(c, p1);
    let ids2 = crate::relations::parent_id_set(c, p2);
    assert(ids1 == ids2);
    assert(child_nodes(p2, i2, x)) by {
        if x != c.id {
            assert(ids1.contains(x));
            assert(ids2.contains(x));
        }
    }
}

/// One child's identifiers in the rearranged population come from the
/// first.
proof fn lemma_one_child_nodes_back(p1: Seq<Person>, p2: Seq<Person>, i2: int, x: usize)
    requires
        p1.to_multiset() == p2.to_multiset(),
        forall|k: int|
            0 <= k < p1.len() ==> crate::relations::unambiguous_parents(#[trigger] p1[k], p1),
        0 <= i2 < p2.len(),
        child_nodes(p2, i2, x),
    ensures
        node_upto(p1, p1.len() as int, x),
{
    p1.to_multiset_ensures();
    p2.to_multiset_ensures();
    let c = p2[i2];
    assert(p2.contains(c));
    assert(p1.to_multiset().count(c) > 0);
    let i = choose|i: int| 0 <= i < p1.len() && p1[i] == c;
    crate::relations::lemma_parents_result_permuted(p1, p2, c);
    let ids1 = crate::relations::parent_id_set(c, p1);
    let ids2 = crate::relations::parent_id_set(c, p2);
    assert(ids1 == ids2);
    assert(child_nodes(p1, i, x)) by {
        if x != c.id {
            assert(ids2.contains(x));
            assert(ids1.contains(x));
        }
    }
}

/// Two graphs with the same links give every identifier the same family.
proof fn lemma_same_links_same_family(g1: Graph, g2: Graph, x: usize)
    requires
        forall|u: usize, v: usize| #[trigger] g1.edge(u, v) <==> #[trigger] g2.edge(u, v),
    ensures
        family(g1, x) == family(g2, x),
        family_size(g1, x) == family_size(g2, x),
{
    assert forall|y: usize| reaches(g1, x, y) <==> reaches(g2, x, y) by {
        if reaches(g1, x, y) {
            let p = choose|p: Seq<usize>| #[trigger] connects(g1, p, x, y);
            assert forall|i: int| 0 <= i < p.len() - 1 implies #[trigger] g2.edge(
                p[i],
                p[i + 1],
            ) by {
                assert(g1.edge(p[i], p[i + 1]));
            }
            assert(connects(g2, p, x, y));
        }
        if reaches(g2, x, y) {
            let p = choose|p: Seq<usize>| #[trigger] connects(g2, p, x, y);
            assert forall|i: int| 0 <= i < p.len() - 1 implies #[trigger] g1.edge(
                p[i],
                p[i + 1],
            ) by {
                assert(g2.edge(p[i], p[i + 1]));
            }
            assert(connects(g1, p, x, y));
        }
    }
    assert(family(g1, x) =~= family(g2, x));
}

/// The reported largest-family sum depends only on which identifiers the
/// graph holds and which are linked, not on the order they were recorded
/// in, as long as one family of maximal size exists: two graphs with the
/// same identifiers and the same links, where all maximal-size starting
/// points agree on their family, report the same sum.
pub proof fn lemma_biggest_family_order_independent(g1: Graph, g2: Graph, t1: int, t2: int)
    requires
        g1.wf(),
        g2.wf(),
        g1.node_set() == g2.node_set(),
        forall|u: usize, v: usize| #[trigger] g1.edge(u, v) <==> #[trigger] g2.edge(u, v),
        forall|x: usize, y: usize|
            g1.node_set().contains(x) && g1.node_set().contains(y) && (forall|z: usize|
                g1.node_set().contains(z) ==> family_size(g1, z) <= family_size(g1, x)) && (
            forall|z: usize|
                g1.node_set().contains(z) ==> family_size(g1, z) <= family_size(g1, y))
                ==> #[trigger] family(g1, x) == #[trigger] family(g1, y),
        biggest_family_report(g1, t1),
        biggest_family_report(g2, t2),
    ensures
        t1 == t2,
{
    let k1 = choose|k: int|
        0 <= k < g1.nodes@.len() && t1 == id_sum(family(g1, #[trigger] g1.nodes@[k])) && (
        forall|j: int|
            0 <= j < g1.nodes@.len() ==> family_size(g1, #[trigger] g1.nodes@[j]) <= family_size(
                g1,
                g1.nodes@[k],
            )) && (forall|j: int|
            0 <= j < k ==> family_size(g1, #[trigger] g1.nodes@[j]) < family_size(
                g1,
                g1.nodes@[k],
            ));
    let k2 = choose|k: int|
        0 <= k < g2.nodes@.len() && t2 == id_sum(family(g2, #[trigger] g2.nodes@[k])) && (
        forall|j: int|
            0 <= j < g2.nodes@.len() ==> family_size(g2, #[trigger] g2.nodes@[j]) <= family_size(
                g2,
                g2.nodes@[k],
            )) && (forall|j: int|
            0 <= j < k ==> family_size(g2, #[trigger] g2.nodes@[j]) < family_size(
                g2,
                g2.nodes@[k],
            ));
    let x1 = g1.nodes@[k1];
    let x2 = g2.nodes@[k2];
    assert(g1.node_set().contains(x1));
    assert(g2.node_set().contains(x2));
    // every identifier of either graph is outsized by both picks
    assert forall|z: usize| g1.node_set().contains(z) implies family_size(g1, z) <= family_size(
        g1,
        x1,
    ) by {
        let j = choose|j: int| 0 <= j < g1.nodes@.len() && g1.nodes@[j] == z;
    }
    assert forall|z: usize| g1.node_set().contains(z) implies family_size(g1, z) <= family_size(
        g1,
        x2,
    ) by {
        assert(g2.node_set().contains(z));
        let j = choose|j: int| 0 <= j < g2.nodes@.len() && g2.nodes@[j] == z;
        assert(family_size(g2, z) <= family_size(g2, x2));
        lemma_same_links_same_family(g1, g2, z);
        lemma_same_links_same_family(g1, g2, x2);
    }
    assert(g1.node_set().contains(x2));
    assert(family(g1, x1) == family(g1, x2));
    lemma_same_links_same_family(g1, g2, x2);
    assert(t1 == id_sum(family(g1, x1)));
    assert(t2 == id_sum(family(g2, x2)));
}

/// Largest-family selection is stable under reordering of the input
/// population: when the two populations hold the same individuals, every
/// child's confirmed pair is unambiguous, and the graph's maximal-size
/// starting points agree on one family, two correct largest-family answers
/// over graphs built from the two orders are the same sum.  An ambiguous
/// pair or a tie between families of different members can change the
/// answer, which is why those inputs are left out.
pub proof fn lemma_biggest_family_permuted(
    p1: Seq<Person>,
    p2: Seq<Person>,
    g1: Graph,
    g2: Graph,
    t1: int,
    t2: int,
)
    requires
        p1.to_multiset() == p2.to_multiset(),
        forall|i: int|
            0 <= i < p1.len() ==> crate::relations::unambiguous_parents(#[trigger] p1[i], p1),
        g1.wf(),
        g2.wf(),
        forall|u: usize, v: usize|
            #[trigger] g1.edge(u, v) <==> link_upto(p1, p1.len() as int, u, v),
        forall|x: usize|
            g1.node_set().contains(x) <==> node_upto(p1, p1.len() as int, x),
        forall|u: usize, v: usize|
            #[trigger] g2.edge(u, v) <==> link_upto(p2, p2.len() as int, u, v),
        forall|x: usize|
            g2.node_set().contains(x) <==> node_upto(p2, p2.len() as int, x),
        forall|x: usize, y: usize|
            g1.node_set().contains(x) && g1.node_set().contains(y) && (forall|z: usize|
                g1.node_set().contains(z) ==> family_size(g1, z) <= family_size(g1, x)) && (
            forall|z: usize|
                g1.node_set().contains(z) ==> family_size(g1, z) <= family_size(g1, y))
                ==> #[trigger] family(g1, x) == #[trigger] family(g1, y),
        biggest_family_report(g1, t1),
        biggest_family_report(g2, t2),
    ensures
        t1 == t2,
{
    lemma_build_links_permuted(p1, p2);
    assert(g1.node_set() =~= g2.node_set());
    assert forall|u: usize, v: usize| #[trigger] g1.edge(u, v) <==> #[trigger] g2.edge(
        u,
        v,
    ) by {
        assert(g1.edge(u, v) <==> link_upto(p1, p1.len() as int, u, v));
        assert(g2.edge(u, v) <==> link_upto(p2, p2.len() as int, u, v));
        assert(link_upto(p1, p1.len() as int, u, v) <==> link_upto(p2, p2.len() as int, u, v));
    }
    lemma_biggest_family_order_independent(g1, g2, t1, t2);
}

/// Does the identifier list contain `x`?
fn contains_id(xs: &Vec<usize>, x: usize) -> (r: bool)
    ensures
        r <==> xs@.contains(x),
{
    let n = xs.len();
    let mut i: usize = 0;
    while i < n
        invariant
            n == xs@.len(),
            i <= n,
            forall|j: int| 0 <= j < i ==> xs@[j] != x,
        decreases n - i,
    {
        if xs[i] == x {
            return true;
        }
        i = i + 1;
    }
    false
}

} // verus!
