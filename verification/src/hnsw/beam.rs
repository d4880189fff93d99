//! Scored candidates and the state of one layer's beam search.

use crate::floats::{f32_rank, f32_total_rank, F32_INFINITY};
use std::collections::HashSet;
use vstd::prelude::*;

verus! {

/// A scored candidate: a distance, as `f32` bits, and a node id.
#[derive(Debug, Clone, Copy, PartialEq, Eq, Structural)]
pub struct Cand {
    pub dist: u32,
    pub id: usize,
}

/// Nearer first, then the smaller id. Distances stand in the IEEE total order,
/// so every two candidates compare.
pub open spec fn cand_le(a: Cand, b: Cand) -> bool {
    f32_rank(a.dist) < f32_rank(b.dist) || (f32_rank(a.dist) == f32_rank(b.dist) && a.id <= b.id)
}

/// Candidates in order, nearest first.
pub open spec fn ascending(s: Seq<Cand>) -> bool {
    forall|i: int, j: int| 0 <= i <= j < s.len() ==> cand_le(#[trigger] s[i], #[trigger] s[j])
}

/// `c` put in its place among candidates in order.
pub open spec fn insert_asc(s: Seq<Cand>, c: Cand) -> Seq<Cand>
    decreases s.len(),
{
    if s.len() == 0 || cand_le(s.last(), c) {
        s.push(c)
    } else {
        insert_asc(s.drop_last(), c).push(s.last())
    }
}

/// Where everything before `p` is not after `c` and everything from `p` on is,
/// `c` belongs at `p`.
pub proof fn lemma_insert_at(s: Seq<Cand>, c: Cand, p: int)
    requires
        0 <= p <= s.len(),
        forall|i: int| 0 <= i < p ==> cand_le(#[trigger] s[i], c),
        forall|i: int| p <= i < s.len() ==> !cand_le(#[trigger] s[i], c),
    ensures
        insert_asc(s, c) == s.insert(p, c),
    decreases s.len(),
{
    if p == s.len() {
        assert(s.insert(p, c) =~= s.push(c));
    } else {
        lemma_insert_at(s.drop_last(), c, p);
        assert(s.insert(p, c) =~= s.drop_last().insert(p, c).push(s.last()));
    }
}

/// An insertion makes the list one longer.
pub proof fn lemma_insert_asc_len(s: Seq<Cand>, c: Cand)
    ensures
        insert_asc(s, c).len() == s.len() + 1,
    decreases s.len(),
{
    if s.len() > 0 {
        lemma_insert_asc_len(s.drop_last(), c);
    }
}

/// Putting a candidate in its place keeps the order and adds just that one.
pub proof fn lemma_insert_asc(s: Seq<Cand>, c: Cand)
    requires
        ascending(s),
    ensures
        ascending(insert_asc(s, c)),
        insert_asc(s, c).len() == s.len() + 1,
        insert_asc(s, c).to_multiset() == s.to_multiset().insert(c),
        forall|x: Cand| #[trigger]
            insert_asc(s, c).contains(x) <==> s.contains(x) || x == c,
    decreases s.len(),
{
    broadcast use vstd::seq_lib::group_to_multiset_ensures;

    let t = insert_asc(s, c);
    if s.len() == 0 || cand_le(s.last(), c) {
        assert(ascending(t));
    } else {
        let head = s.drop_last();
        lemma_insert_asc(head, c);
        assert(s =~= head.push(s.last()));
        let u = insert_asc(head, c);
        assert forall|i: int, j: int| 0 <= i <= j < t.len() implies cand_le(
            #[trigger] t[i],
            #[trigger] t[j],
        ) by {
            if j == t.len() - 1 {
                if i < j {
                    assert(u.contains(u[i]));
                    if t[i] != c {
                        let k = choose|k: int| 0 <= k < head.len() && head[k] == t[i];
                        assert(cand_le(s[k], s[s.len() - 1]));
                    }
                }
            } else {
                assert(cand_le(u[i], u[j]));
            }
        }
        assert(t.to_multiset() =~= s.to_multiset().insert(c));
    }
    assert forall|x: Cand| #[trigger] t.contains(x) <==> s.contains(x) || x == c by {
        assert(t.contains(x) <==> t.to_multiset().count(x) > 0);
        assert(s.contains(x) <==> s.to_multiset().count(x) > 0);
    }
}

/// Whether `a` comes no later than `b`.
pub fn cand_not_after(a: &Cand, b: &Cand) -> (r: bool)
    ensures
        r == cand_le(*a, *b),
{
    let ra: i64 = f32_total_rank(a.dist);
    let rb: i64 = f32_total_rank(b.dist);
    ra < rb || (ra == rb && a.id <= b.id)
}

/// Put `c` in its place among candidates in order.
pub fn insert_sorted(v: &mut Vec<Cand>, c: Cand)
    requires
        ascending(old(v)@),
    ensures
        final(v)@ == insert_asc(old(v)@, c),
        ascending(final(v)@),
{
    let mut lo: usize = 0;
    let mut hi: usize = v.len();
    while lo < hi
        invariant
            v@ == old(v)@,
            ascending(v@),
            lo <= hi <= v@.len(),
            forall|i: int| 0 <= i < lo ==> cand_le(#[trigger] v@[i], c),
            forall|i: int| hi <= i < v@.len() ==> !cand_le(#[trigger] v@[i], c),
        decreases hi - lo,
    {
        let mid: usize = lo + (hi - lo) / 2;
        if cand_not_after(&v[mid], &c) {
            proof {
                assert forall|i: int| 0 <= i < mid + 1 implies cand_le(#[trigger] v@[i], c) by {
                    assert(cand_le(v@[i], v@[mid as int]));
                }
            }
            lo = mid + 1;
        } else {
            proof {
                assert forall|i: int| mid <= i < v@.len() implies !cand_le(
                    #[trigger] v@[i],
                    c,
                ) by {
                    assert(cand_le(v@[mid as int], v@[i]));
                }
            }
            hi = mid;
        }
    }
    proof {
        lemma_insert_at(v@, c, lo as int);
        lemma_insert_asc(v@, c);
    }
    v.insert(lo, c);
}

/// Candidates put in order, nearest first.
pub open spec fn sorted(s: Seq<Cand>) -> Seq<Cand>
    decreases s.len(),
{
    if s.len() == 0 {
        s
    } else {
        insert_asc(sorted(s.drop_last()), s.last())
    }
}

/// Putting candidates in order is just that: the result is in order and holds
/// the same candidates.
pub proof fn lemma_sorted(s: Seq<Cand>)
    ensures
        ascending(sorted(s)),
        sorted(s).len() == s.len(),
        sorted(s).to_multiset() == s.to_multiset(),
        forall|x: Cand| #[trigger] sorted(s).contains(x) <==> s.contains(x),
    decreases s.len(),
{
    broadcast use vstd::seq_lib::group_to_multiset_ensures;

    if s.len() > 0 {
        lemma_sorted(s.drop_last());
        lemma_insert_asc(sorted(s.drop_last()), s.last());
        assert(s =~= s.drop_last().push(s.last()));
    }
    assert forall|x: Cand| #[trigger] sorted(s).contains(x) <==> s.contains(x) by {
        assert(sorted(s).contains(x) <==> sorted(s).to_multiset().count(x) > 0);
        assert(s.contains(x) <==> s.to_multiset().count(x) > 0);
    }
}

/// There is only one way to put candidates in order: two candidates that tie
/// are the same candidate.
pub proof fn lemma_order_is_unique(a: Seq<Cand>, b: Seq<Cand>)
    requires
        ascending(a),
        ascending(b),
        a.to_multiset() == b.to_multiset(),
    ensures
        a == b,
    decreases a.len(),
{
    broadcast use vstd::seq_lib::group_to_multiset_ensures;

    assert(a.to_multiset().len() == a.len() && b.to_multiset().len() == b.len());
    if a.len() == 0 {
        assert(a =~= b);
    } else {
        let (x, y) = (a.last(), b.last());
        assert(a.contains(x) && b.contains(y));
        assert(b.to_multiset().count(x) > 0 && a.to_multiset().count(y) > 0);
        assert(b.contains(x) && a.contains(y));
        let i = choose|i: int| 0 <= i < b.len() && b[i] == x;
        let j = choose|j: int| 0 <= j < a.len() && a[j] == y;
        assert(cand_le(b[i], b[b.len() - 1]));
        assert(cand_le(a[j], a[a.len() - 1]));
        assert(x == y);
        assert(a =~= a.drop_last().push(x));
        assert(b =~= b.drop_last().push(y));
        assert(a.drop_last().to_multiset() =~= a.to_multiset().remove(x));
        assert(b.drop_last().to_multiset() =~= b.to_multiset().remove(y));
        lemma_order_is_unique(a.drop_last(), b.drop_last());
    }
}

/// Candidates in order, nearest first.
pub fn sort(v: &[Cand]) -> (out: Vec<Cand>)
    ensures
        out@ == sorted(v@),
        ascending(out@),
{
    let mut out: Vec<Cand> = Vec::new();
    let mut i: usize = 0;
    assert(v@.take(0) =~= Seq::<Cand>::empty());
    while i < v.len()
        invariant
            i <= v@.len(),
            out@ == sorted(v@.take(i as int)),
            ascending(out@),
        decreases v@.len() - i,
    {
        proof {
            assert(v@.take(i + 1).drop_last() =~= v@.take(i as int));
        }
        insert_sorted(&mut out, v[i]);
        i += 1;
    }
    assert(v@.take(v@.len() as int) =~= v@);
    out
}

/// The state of one layer's beam search.
#[verifier::ext_equal]
pub struct BeamState {
    /// Every node already considered.
    pub visited: Set<usize>,
    /// Nodes still to expand, nearest first.
    pub frontier: Seq<Cand>,
    /// Answers held, nearest first, at most `ef`.
    pub results: Seq<Cand>,
    pub ef: nat,
    /// How many more non-matching nodes the walk may route through.
    pub detours: nat,
}

impl BeamState {
    /// Nothing considered yet.
    pub open spec fn new(ef: nat, detours: nat) -> BeamState {
        BeamState {
            visited: Set::empty(),
            frontier: Seq::empty(),
            results: Seq::empty(),
            ef,
            detours,
        }
    }

    /// Distance of the farthest answer held; infinity while none are held.
    pub open spec fn farthest(self) -> u32 {
        if self.results.len() == 0 {
            F32_INFINITY
        } else {
            self.results.last().dist
        }
    }

    /// Queue a candidate, recording it as an answer only when `admissible`. The
    /// farthest answer gives way when there are more than `ef`.
    pub open spec fn push(self, c: Cand, admissible: bool) -> BeamState {
        let more = insert_asc(self.results, c);
        BeamState {
            frontier: insert_asc(self.frontier, c),
            results: if !admissible {
                self.results
            } else if more.len() > self.ef {
                more.drop_last()
            } else {
                more
            },
            ..self
        }
    }

    /// The nearest queued candidate taken off.
    pub open spec fn pop(self) -> BeamState {
        BeamState { frontier: self.frontier.drop_first(), ..self }
    }

    /// `id` has been considered.
    pub open spec fn see(self, id: usize) -> BeamState {
        BeamState { visited: self.visited.insert(id), ..self }
    }

    /// Room left: nodes not yet considered, plus those queued. A pop uses up one
    /// unit, and considering a node never makes more.
    pub open spec fn slack(self, n: nat) -> int {
        n - self.visited.len() + self.frontier.len()
    }

    /// Both queues are in order, and every node considered is one of the first
    /// `n`.
    pub open spec fn ok(self, n: nat) -> bool {
        &&& ascending(self.frontier)
        &&& ascending(self.results)
        &&& self.visited.finite()
        &&& forall|id: usize| #[trigger] self.visited.contains(id) ==> id < n
        &&& forall|i: int|
            0 <= i < self.frontier.len() ==> self.visited.contains((#[trigger] self.frontier[i]).id)
        &&& forall|i: int|
            0 <= i < self.results.len() ==> self.visited.contains((#[trigger] self.results[i]).id)
    }

    /// Considering a new node keeps the state in order.
    pub proof fn lemma_see(self, id: usize, n: nat)
        requires
            self.ok(n),
            id < n,
            !self.visited.contains(id),
        ensures
            self.see(id).ok(n),
            self.see(id).slack(n) == self.slack(n) - 1,
    {
    }

    /// Queueing a node that has been considered keeps the state in order.
    pub proof fn lemma_push(self, c: Cand, admissible: bool, n: nat)
        requires
            self.ok(n),
            self.visited.contains(c.id),
        ensures
            self.push(c, admissible).ok(n),
            self.push(c, admissible).slack(n) == self.slack(n) + 1,
            self.results.len() <= self.ef ==> self.push(c, admissible).results.len() <= self.ef,
    {
        lemma_insert_asc(self.frontier, c);
        lemma_insert_asc(self.results, c);
        let after = self.push(c, admissible);
        assert forall|i: int| 0 <= i < after.frontier.len() implies self.visited.contains(
            (#[trigger] after.frontier[i]).id,
        ) by {
            assert(insert_asc(self.frontier, c).contains(after.frontier[i]));
            if after.frontier[i] != c {
                let k = choose|k: int|
                    0 <= k < self.frontier.len() && self.frontier[k] == after.frontier[i];
                assert(self.visited.contains(self.frontier[k].id));
            }
        }
        let more = insert_asc(self.results, c);
        assert forall|i: int| 0 <= i < after.results.len() implies self.visited.contains(
            (#[trigger] after.results[i]).id,
        ) by {
            if admissible {
                assert(more.contains(more[i]));
                if more[i] != c {
                    let k = choose|k: int|
                        0 <= k < self.results.len() && self.results[k] == more[i];
                    assert(self.visited.contains(self.results[k].id));
                }
            }
        }
    }

    /// Taking the nearest candidate off keeps the state in order.
    pub proof fn lemma_pop(self, n: nat)
        requires
            self.ok(n),
            self.frontier.len() > 0,
        ensures
            self.pop().ok(n),
            self.pop().slack(n) == self.slack(n) - 1,
            self.frontier[0].id < n,
    {
        let after = self.pop();
        assert forall|i: int| 0 <= i < after.frontier.len() implies self.visited.contains(
            (#[trigger] after.frontier[i]).id,
        ) by {
            assert(after.frontier[i] == self.frontier[i + 1]);
        }
        assert(self.visited.contains(self.frontier[0].id));
    }
}

/// Beam-search state over ordinary collections.
pub struct Beam {
    pub visited: HashSet<usize>,
    pub frontier: Vec<Cand>,
    pub results: Vec<Cand>,
    pub ef: usize,
    pub detours: usize,
}

impl View for Beam {
    type V = BeamState;

    open spec fn view(&self) -> BeamState {
        BeamState {
            visited: self.visited@,
            frontier: self.frontier@,
            results: self.results@,
            ef: self.ef as nat,
            detours: self.detours as nat,
        }
    }
}

impl Beam {
    /// An empty beam with budget `ef` and a detour allowance.
    pub fn new(ef: usize, detours: usize) -> (b: Beam)
        ensures
            b@ == BeamState::new(ef as nat, detours as nat),
            forall|n: nat| #[trigger] b@.ok(n),
    {
        broadcast use vstd::std_specs::hash::group_hash_axioms;

        let b = Beam {
            visited: HashSet::new(),
            frontier: Vec::new(),
            results: Vec::new(),
            ef,
            detours,
        };
        assert(b@ =~= BeamState::new(ef as nat, detours as nat));
        b
    }

    /// Distance of the farthest answer held, or infinity while none are held.
    pub fn farthest(&self) -> (d: u32)
        ensures
            d == self@.farthest(),
    {
        if self.results.len() == 0 {
            F32_INFINITY
        } else {
            self.results[self.results.len() - 1].dist
        }
    }

    /// Mark `id` as considered; false if it already was.
    pub fn see(&mut self, id: usize) -> (fresh: bool)
        ensures
            fresh == !old(self)@.visited.contains(id),
            final(self)@ == old(self)@.see(id),
    {
        broadcast use vstd::std_specs::hash::group_hash_axioms;

        let fresh = self.visited.insert(id);
        assert(self@ =~= old(self)@.see(id));
        fresh
    }

    /// Queue `cand` for expansion, recording it as an answer only when
    /// `admissible`.
    pub fn push(&mut self, cand: Cand, admissible: bool)
        requires
            ascending(old(self)@.frontier),
            ascending(old(self)@.results),
        ensures
            final(self)@ == old(self)@.push(cand, admissible),
    {
        insert_sorted(&mut self.frontier, cand);
        if admissible {
            proof {
                lemma_insert_asc(self.results@, cand);
            }
            insert_sorted(&mut self.results, cand);
            if self.results.len() > self.ef {
                self.results.pop();
            }
        }
        assert(self@ =~= old(self)@.push(cand, admissible));
    }

    /// Take the nearest queued candidate off.
    pub fn pop(&mut self) -> (c: Option<Cand>)
        ensures
            match c {
                Some(c) => {
                    &&& old(self)@.frontier.len() > 0
                    &&& c == old(self)@.frontier[0]
                    &&& final(self)@ == old(self)@.pop()
                },
                None => old(self)@.frontier.len() == 0 && final(self)@ == old(self)@,
            },
    {
        if self.frontier.len() == 0 {
            return None;
        }
        let c = self.frontier.remove(0);
        assert(self@ =~= old(self)@.pop());
        Some(c)
    }
}

} // verus!
