//! Hybrid ranking fusion.
//!
//! Ranked id lists from several sources become one ranking. Fusion is a
//! pluggable [`FusionStrategy`]; Reciprocal Rank Fusion is the rank-only,
//! zero-tuning default. Scores are `f64` bits, and their arithmetic comes from
//! the caller as two functions: a contribution `1 / (k + rank)`, and a sum.

use crate::floats::{f64_is_finite, f64_rank, f64_total_rank, f64_value, F64_INFINITY, F64_SIGN};
use std::collections::HashMap;
use vstd::prelude::*;

verus! {

/// Error returned by fusion for malformed parameters.
#[derive(Debug, Clone, Copy)]
pub enum FusionError {
    /// `k` must be finite and non-negative, so that every contribution is finite
    /// and positive. Carries the bits of the offending value.
    InvalidK { k: u64 },
}

impl FusionError {
    /// The text a user sees, given how the offending value prints.
    pub fn message(&self, value: &str) -> (s: String)
        ensures
            s@ == "invalid RRF k: "@ + value@ + " (must be finite and >= 0)"@,
    {
        let mut s = String::new();
        s.append("invalid RRF k: ");
        s.append(value);
        s.append(" (must be finite and >= 0)");
        assert(s@ =~= "invalid RRF k: "@ + value@ + " (must be finite and >= 0)"@);
        s
    }
}

/// The bits of `60.0`, a robust default for `k`.
pub const DEFAULT_RRF_K: u64 = 0x404E_0000_0000_0000;

/// A binary function on bits answers every question, and always the same way.
pub open spec fn binary_ok<F: Fn(u64, u64) -> u64>(f: F) -> bool {
    &&& forall|a: u64, b: u64| #[trigger] call_requires(f, (a, b))
    &&& forall|a: u64, b: u64, x: u64, y: u64| #[trigger]
        call_ensures(f, (a, b), x) && #[trigger] call_ensures(f, (a, b), y) ==> x == y
}

/// What a binary function on bits answers.
pub open spec fn binary_value<F: Fn(u64, u64) -> u64>(f: F, a: u64, b: u64) -> u64 {
    choose|x: u64| call_ensures(f, (a, b), x)
}

/// Score arithmetic: the contribution of a rank, and a sum.
pub struct Arithmetic {
    pub contribute: spec_fn(u64, u64) -> u64,
    pub sum: spec_fn(u64, u64) -> u64,
}

/// The arithmetic two functions make.
pub open spec fn arithmetic<C: Fn(u64, u64) -> u64, A: Fn(u64, u64) -> u64>(
    contribute: C,
    sum: A,
) -> Arithmetic {
    Arithmetic {
        contribute: |k: u64, rank: u64| binary_value(contribute, k, rank),
        sum: |a: u64, b: u64| binary_value(sum, a, b),
    }
}

/// Where `id` first occurs in a list.
pub open spec fn position(list: Seq<u64>, id: u64) -> Option<nat>
    decreases list.len(),
{
    if list.len() == 0 {
        None
    } else {
        match position(list.drop_last(), id) {
            Some(p) => Some(p),
            None => if list.last() == id {
                Some((list.len() - 1) as nat)
            } else {
                None
            },
        }
    }
}

impl Arithmetic {
    /// The fused score of `id`: the sum, list by list, of the contribution of its
    /// best rank there. `None` when no list has it.
    pub open spec fn score(self, lists: Seq<Seq<u64>>, k: u64, id: u64) -> Option<u64>
        decreases lists.len(),
    {
        if lists.len() == 0 {
            None
        } else {
            let before = self.score(lists.drop_last(), k, id);
            match position(lists.last(), id) {
                None => before,
                Some(p) => {
                    let part = (self.contribute)(k, (p + 1) as u64);
                    match before {
                        None => Some(part),
                        Some(s) => Some((self.sum)(s, part)),
                    }
                },
            }
        }
    }
}

/// `a` ranks above `b`: the higher score, in the total order, then the smaller
/// id.
pub open spec fn outranks(a: (u64, u64), b: (u64, u64)) -> bool {
    f64_rank(a.1) > f64_rank(b.1) || (f64_rank(a.1) == f64_rank(b.1) && a.0 < b.0)
}

/// Best first, every id once.
pub open spec fn ranked(fused: Seq<(u64, u64)>) -> bool {
    forall|i: int, j: int|
        0 <= i < j < fused.len() ==> outranks(#[trigger] fused[i], #[trigger] fused[j])
}

/// `fused` is the fusion of `lists`: best first, and holding every id of every
/// list with its score, and nothing else.
pub open spec fn fuses(ops: Arithmetic, lists: Seq<Seq<u64>>, k: u64, fused: Seq<(u64, u64)>) -> bool {
    &&& ranked(fused)
    &&& forall|i: int|
        0 <= i < fused.len() ==> ops.score(lists, k, (#[trigger] fused[i]).0) == Some(fused[i].1)
    &&& forall|id: u64|
        (#[trigger] ops.score(lists, k, id)) is Some ==> fused.contains(
            (id, ops.score(lists, k, id)->0),
        )
}

/// A usable `k`: finite and not negative.
pub open spec fn valid_k(k: u64) -> bool {
    f64_is_finite(k) && f64_value(k) >= 0
}

/// Rankings as sequences.
pub open spec fn list_views(rankings: Seq<&[u64]>) -> Seq<Seq<u64>> {
    Seq::new(rankings.len(), |i: int| rankings[i]@)
}

/// A strategy for fusing per-source rankings into one combined ranking.
pub trait FusionStrategy {
    /// Whether the strategy's parameters are usable.
    spec fn usable(&self) -> bool;

    /// Fuse ranked id lists, best first and ranks starting at 1, into
    /// `(id, score)` pairs, best first. Fails exactly on unusable parameters.
    fn fuse<C: Fn(u64, u64) -> u64, A: Fn(u64, u64) -> u64>(
        &self,
        contribute: &C,
        sum: &A,
        rankings: &[&[u64]],
    ) -> (r: Result<Vec<(u64, u64)>, FusionError>)
        requires
            binary_ok(*contribute),
            binary_ok(*sum),
        ensures
            r is Ok <==> self.usable(),
            r matches Ok(v) ==> ranked(v@),
    ;
}

/// Reciprocal Rank Fusion: an id scores the sum over lists of `1 / (k + rank)`.
#[derive(Debug, Clone, Copy)]
pub struct Rrf {
    /// Dampening constant, as `f64` bits; larger values flatten the gap between
    /// ranks.
    pub k: u64,
}

impl Default for Rrf {
    fn default() -> (r: Self)
        ensures
            r.k == DEFAULT_RRF_K,
    {
        Rrf { k: DEFAULT_RRF_K }
    }
}

impl FusionStrategy for Rrf {
    open spec fn usable(&self) -> bool {
        valid_k(self.k)
    }

    fn fuse<C: Fn(u64, u64) -> u64, A: Fn(u64, u64) -> u64>(
        &self,
        contribute: &C,
        sum: &A,
        rankings: &[&[u64]],
    ) -> (r: Result<Vec<(u64, u64)>, FusionError>)
        ensures
            r matches Ok(v) ==> fuses(
                arithmetic(*contribute, *sum),
                list_views(rankings@),
                self.k,
                v@,
            ),
            r matches Err(e) ==> e == (FusionError::InvalidK { k: self.k }),
    {
        rrf(contribute, sum, rankings, self.k)
    }
}

/// An id on the way to its fused score.
struct Entry {
    id: u64,
    score: u64,
    /// The last list that contributed.
    last: usize,
}

/// Whether `k` is usable.
fn check_k(k: u64) -> (r: bool)
    ensures
        r == valid_k(k),
{
    proof {
        crate::floats::lemma_f64_value_order(k, 0);
        crate::floats::lemma_scaled_zero(52);
    }
    if k >= F64_SIGN {
        k == F64_SIGN
    } else {
        k < F64_INFINITY
    }
}

/// What is known of the entries after some lists and part of the next.
spec fn tallied(
    ops: Arithmetic,
    k: u64,
    done: Seq<Seq<u64>>,
    part: Seq<u64>,
    entries: Seq<Entry>,
    index: Map<u64, usize>,
) -> bool {
    let lists = done.push(part);
    &&& forall|i: int|
        0 <= i < entries.len() ==> {
            let e = #[trigger] entries[i];
            &&& ops.score(lists, k, e.id) == Some(e.score)
            &&& e.last <= done.len()
            &&& e.last == done.len() <==> position(part, e.id) is Some
            &&& index.dom().contains(e.id)
            &&& index[e.id] == i
        }
    &&& forall|id: u64| #[trigger]
        index.dom().contains(id) ==> 0 <= index[id] < entries.len() && entries[index[id] as int].id
            == id
    &&& forall|id: u64| (#[trigger] ops.score(lists, k, id)) is Some ==> index.dom().contains(id)
}

/// One more id of a list changes at most that id's score, and only on its first
/// occurrence.
proof fn lemma_score_push(ops: Arithmetic, k: u64, done: Seq<Seq<u64>>, part: Seq<u64>, id: u64)
    ensures
        forall|other: u64|
            other != id ==> #[trigger] ops.score(done.push(part.push(id)), k, other) == ops.score(
                done.push(part),
                k,
                other,
            ),
        forall|other: u64|
            other != id ==> #[trigger] position(part.push(id), other) == position(part, other),
        position(part, id) is Some ==> ops.score(done.push(part.push(id)), k, id) == ops.score(
            done.push(part),
            k,
            id,
        ) && position(part.push(id), id) == position(part, id),
        position(part, id) is None ==> position(part.push(id), id) == Some(part.len()) && ops.score(
            done.push(part),
            k,
            id,
        ) == ops.score(done, k, id),
{
    let more = part.push(id);
    assert(more.drop_last() =~= part);
    assert(done.push(more).drop_last() =~= done);
    assert(done.push(part).drop_last() =~= done);
}

/// Fuse ranked id lists with Reciprocal Rank Fusion.
///
/// Each list is read best first with ranks starting at 1; an id accumulates
/// `1 / (k + rank)` from every list it appears in. A duplicate within one list
/// counts once, at its best rank. A non-finite or negative `k` is refused: it
/// would make contributions infinite or negative and invert the ranking.
pub fn rrf<C: Fn(u64, u64) -> u64, A: Fn(u64, u64) -> u64>(
    contribute: &C,
    sum: &A,
    rankings: &[&[u64]],
    k: u64,
) -> (r: Result<Vec<(u64, u64)>, FusionError>)
    requires
        binary_ok(*contribute),
        binary_ok(*sum),
    ensures
        match r {
            Ok(v) => valid_k(k) && fuses(
                arithmetic(*contribute, *sum),
                list_views(rankings@),
                k,
                v@,
            ),
            Err(e) => !valid_k(k) && e == (FusionError::InvalidK { k }),
        },
{
    broadcast use vstd::std_specs::hash::group_hash_axioms;

    if !check_k(k) {
        return Err(FusionError::InvalidK { k });
    }
    let ghost ops = arithmetic(*contribute, *sum);
    let ghost lists = list_views(rankings@);
    let mut entries: Vec<Entry> = Vec::new();
    let mut index: HashMap<u64, usize> = HashMap::new();
    let mut li: usize = 0;
    proof {
        let none = Seq::<Seq<u64>>::empty();
        assert(none.push(Seq::<u64>::empty()).drop_last() =~= none);
        assert(lists.take(0) =~= none);
        assert forall|x: u64| (#[trigger] ops.score(
            none.push(Seq::<u64>::empty()),
            k,
            x,
        )) is None by {
            assert(ops.score(none, k, x) is None);
        }
    }
    while li < rankings.len()
        invariant
            binary_ok(*contribute),
            binary_ok(*sum),
            ops == arithmetic(*contribute, *sum),
            lists == list_views(rankings@),
            li <= rankings@.len(),
            tallied(ops, k, lists.take(li as int), Seq::empty(), entries@, index@),
        decreases rankings@.len() - li,
    {
        let list: &[u64] = rankings[li];
        let ghost done = lists.take(li as int);
        let mut pos: usize = 0;
        assert(list@.take(0) =~= Seq::<u64>::empty());
        while pos < list.len()
            invariant
                binary_ok(*contribute),
                binary_ok(*sum),
                ops == arithmetic(*contribute, *sum),
                li < rankings@.len(),
                done.len() == li,
                pos <= list@.len(),
                tallied(ops, k, done, list@.take(pos as int), entries@, index@),
            decreases list@.len() - pos,
        {
            let id: u64 = list[pos];
            let ghost part = list@.take(pos as int);
            let ghost before = entries@;
            let ghost known = index@;
            proof {
                assert(list@.take(pos + 1) =~= part.push(id));
                lemma_score_push(ops, k, done, part, id);
                assert(done.push(part.push(id)).drop_last() =~= done);
            }
            let gain: u64 = contribute(k, pos as u64 + 1);
            assert(gain == (ops.contribute)(k, (pos + 1) as u64)) by {
                assert(call_ensures(
                    *contribute,
                    (k, (pos + 1) as u64),
                    binary_value(*contribute, k, (pos + 1) as u64),
                ));
            }
            let found: Option<usize> = match index.get(&id) {
                Some(i) => Some(*i),
                None => None,
            };
            match found {
                Some(i) => {
                    if entries[i].last != li {
                        let old_score: u64 = entries[i].score;
                        let score: u64 = sum(old_score, gain);
                        assert(score == (ops.sum)(old_score, gain)) by {
                            assert(call_ensures(
                                *sum,
                                (old_score, gain),
                                binary_value(*sum, old_score, gain),
                            ));
                        }
                        entries.set(i, Entry { id, score, last: li });
                        proof {
                            assert(ops.score(done.push(part.push(id)), k, id) == Some(score));
                        }
                    }
                },
                None => {
                    let at: usize = entries.len();
                    entries.push(Entry { id, score: gain, last: li });
                    index.insert(id, at);
                    proof {
                        assert(ops.score(done.push(part), k, id) is None);
                        assert(position(part, id) is None) by {
                            if position(part, id) is Some {
                                assert(done.push(part).drop_last() =~= done);
                                assert(ops.score(done.push(part), k, id) is Some);
                            }
                        }
                        assert(ops.score(done.push(part.push(id)), k, id) == Some(gain));
                    }
                },
            }
            proof {
                let now = entries@;
                let lists2 = done.push(part.push(id));
                assert forall|i: int| 0 <= i < now.len() implies {
                    let e = #[trigger] now[i];
                    &&& ops.score(lists2, k, e.id) == Some(e.score)
                    &&& e.last <= done.len()
                    &&& e.last == done.len() <==> position(part.push(id), e.id) is Some
                    &&& index@.dom().contains(e.id)
                    &&& index@[e.id] == i
                } by {
                    if i < before.len() {
                        assert(before[i].id == now[i].id);
                        if before[i].id == id {
                            assert(index@[id] == i);
                        }
                    }
                }
                assert forall|x: u64| (#[trigger] ops.score(lists2, k, x)) is Some implies
                    index@.dom().contains(x) by {
                    if x != id {
                        assert(ops.score(done.push(part), k, x) is Some);
                    }
                }
            }
            pos += 1;
        }
        proof {
            let part = list@;
            assert(list@.take(list@.len() as int) =~= part);
            let next = lists.take(li + 1);
            assert(next =~= done.push(part));
            let fresh = next.push(Seq::<u64>::empty());
            assert(fresh.drop_last() =~= next);
            assert forall|x: u64| #[trigger] ops.score(fresh, k, x) == ops.score(next, k, x) by {}
        }
        li += 1;
    }
    proof {
        assert(lists.take(lists.len() as int) =~= lists);
        let fresh = lists.push(Seq::<u64>::empty());
        assert(fresh.drop_last() =~= lists);
        assert forall|x: u64| #[trigger] ops.score(fresh, k, x) == ops.score(lists, k, x) by {}
    }
    let fused = rank_entries(&entries);
    proof {
        assert forall|id: u64| (#[trigger] ops.score(lists, k, id)) is Some implies fused@.contains(
            (id, ops.score(lists, k, id)->0),
        ) by {
            let fresh = lists.push(Seq::<u64>::empty());
            assert(ops.score(fresh, k, id) is Some);
            let i = index@[id] as int;
            assert(entries@[i].id == id);
            assert(fused@.contains((entries@[i].id, entries@[i].score)));
        }
        assert forall|i: int| 0 <= i < fused@.len() implies ops.score(
            lists,
            k,
            (#[trigger] fused@[i]).0,
        ) == Some(fused@[i].1) by {
            assert(came_from(fused@[i], entries@, entries@.len() as int));
            let j = choose|j: int|
                0 <= j < entries@.len() && fused@[i] == (
                    (#[trigger] entries@[j]).id,
                    entries@[j].score,
                );
            assert(ops.score(lists.push(Seq::<u64>::empty()), k, entries@[j].id) == Some(
                entries@[j].score,
            ));
        }
    }
    Ok(fused)
}

/// Whether `a` ranks above `b`.
fn is_above(a: &(u64, u64), b: &(u64, u64)) -> (r: bool)
    ensures
        r == outranks(*a, *b),
{
    let ra: i128 = f64_total_rank(a.1);
    let rb: i128 = f64_total_rank(b.1);
    ra > rb || (ra == rb && a.0 < b.0)
}

/// The pair is one of the first `n` entries.
spec fn came_from(item: (u64, u64), entries: Seq<Entry>, n: int) -> bool {
    exists|j: int| 0 <= j < n && item == ((#[trigger] entries[j]).id, entries[j].score)
}

/// Ids and scores, best first.
fn rank_entries(entries: &Vec<Entry>) -> (out: Vec<(u64, u64)>)
    requires
        forall|i: int, j: int|
            0 <= i < j < entries@.len() ==> (#[trigger] entries@[i]).id != (
            #[trigger] entries@[j]).id,
    ensures
        ranked(out@),
        forall|i: int|
            0 <= i < entries@.len() ==> out@.contains(
                ((#[trigger] entries@[i]).id, entries@[i].score),
            ),
        forall|i: int|
            0 <= i < out@.len() ==> came_from(
                #[trigger] out@[i],
                entries@,
                entries@.len() as int,
            ),
{
    let mut out: Vec<(u64, u64)> = Vec::new();
    let mut n: usize = 0;
    while n < entries.len()
        invariant
            n <= entries@.len(),
            forall|i: int, j: int|
                0 <= i < j < entries@.len() ==> (#[trigger] entries@[i]).id != (
                #[trigger] entries@[j]).id,
            ranked(out@),
            forall|i: int|
                0 <= i < n ==> out@.contains(((#[trigger] entries@[i]).id, entries@[i].score)),
            forall|i: int|
                0 <= i < out@.len() ==> came_from(#[trigger] out@[i], entries@, n as int),
        decreases entries@.len() - n,
    {
        let item: (u64, u64) = (entries[n].id, entries[n].score);
        let mut at: usize = 0;
        while at < out.len() && is_above(&out[at], &item)
            invariant
                at <= out@.len(),
                forall|i: int| 0 <= i < at ==> outranks(#[trigger] out@[i], item),
            decreases out@.len() - at,
        {
            at += 1;
        }
        let ghost before = out@;
        proof {
            assert forall|i: int| at <= i < before.len() implies outranks(
                item,
                #[trigger] before[i],
            ) by {
                assert(came_from(before[i], entries@, n as int));
                let j = choose|j: int|
                    0 <= j < n && before[i] == ((#[trigger] entries@[j]).id, entries@[j].score);
                assert(entries@[j].id != entries@[n as int].id);
                if i > at {
                    assert(outranks(before[at as int], before[i]));
                    assert(came_from(before[at as int], entries@, n as int));
                    let x = choose|x: int|
                        0 <= x < n && before[at as int] == (
                            (#[trigger] entries@[x]).id,
                            entries@[x].score,
                        );
                    assert(entries@[x].id != entries@[n as int].id);
                }
            }
        }
        out.insert(at, item);
        proof {
            let now = out@;
            assert(now == before.insert(at as int, item));
            assert forall|i: int, j: int| 0 <= i < j < now.len() implies outranks(
                #[trigger] now[i],
                #[trigger] now[j],
            ) by {
                let x = if i < at { i } else { i - 1 };
                let y = if j < at { j } else { j - 1 };
                if i != at && j != at {
                    assert(outranks(before[x], before[y]));
                }
            }
            assert forall|i: int| 0 <= i < n + 1 implies now.contains(
                ((#[trigger] entries@[i]).id, entries@[i].score),
            ) by {
                if i < n {
                    let x = choose|x: int|
                        0 <= x < before.len() && before[x] == (entries@[i].id, entries@[i].score);
                    if x < at {
                        assert(now[x] == before[x]);
                    } else {
                        assert(now[x + 1] == before[x]);
                    }
                } else {
                    assert(now[at as int] == item);
                }
            }
            assert forall|i: int| 0 <= i < now.len() implies came_from(
                #[trigger] now[i],
                entries@,
                n + 1,
            ) by {
                if i == at {
                    assert(now[i] == (entries@[n as int].id, entries@[n as int].score));
                } else {
                    let x = if i < at { i } else { i - 1 };
                    assert(came_from(before[x], entries@, n as int));
                    let j = choose|j: int|
                        0 <= j < n && before[x] == ((#[trigger] entries@[j]).id, entries@[j].score);
                    assert(now[i] == (entries@[j].id, entries@[j].score));
                }
            }
        }
        n += 1;
    }
    out
}

/// There is one fusion only: the contract leaves no choice.
pub proof fn fusion_is_unique(
    ops: Arithmetic,
    lists: Seq<Seq<u64>>,
    k: u64,
    a: Seq<(u64, u64)>,
    b: Seq<(u64, u64)>,
)
    requires
        fuses(ops, lists, k, a),
        fuses(ops, lists, k, b),
    ensures
        a == b,
{
    assert forall|i: int| 0 <= i < a.len() && i < b.len() implies a[i] == b[i] by {
        lemma_same_upto(ops, lists, k, a, b, i);
    }
    lemma_no_longer(ops, lists, k, b, a);
    lemma_no_longer(ops, lists, k, a, b);
    assert(a =~= b);
}

proof fn lemma_member(
    ops: Arithmetic,
    lists: Seq<Seq<u64>>,
    k: u64,
    a: Seq<(u64, u64)>,
    b: Seq<(u64, u64)>,
    i: int,
) -> (j: int)
    requires
        fuses(ops, lists, k, a),
        fuses(ops, lists, k, b),
        0 <= i < a.len(),
    ensures
        0 <= j < b.len(),
        b[j] == a[i],
{
    assert(ops.score(lists, k, a[i].0) == Some(a[i].1));
    assert(b.contains((a[i].0, a[i].1)));
    choose|j: int| 0 <= j < b.len() && b[j] == (a[i].0, a[i].1)
}

proof fn lemma_same_upto(
    ops: Arithmetic,
    lists: Seq<Seq<u64>>,
    k: u64,
    a: Seq<(u64, u64)>,
    b: Seq<(u64, u64)>,
    i: int,
)
    requires
        fuses(ops, lists, k, a),
        fuses(ops, lists, k, b),
        0 <= i < a.len(),
        i < b.len(),
    ensures
        a[i] == b[i],
    decreases i,
{
    assert forall|x: int| 0 <= x < i implies a[x] == b[x] by {
        lemma_same_upto(ops, lists, k, a, b, x);
    }
    let j = lemma_member(ops, lists, k, a, b, i);
    let l = lemma_member(ops, lists, k, b, a, i);
    if j < i {
        assert(a[j] == b[j]);
        assert(outranks(a[j], a[i]));
    }
    if l < i {
        assert(a[l] == b[l]);
        assert(outranks(b[l], b[i]));
    }
    if j > i && l > i {
        assert(outranks(b[i], b[j]));
        assert(outranks(a[i], a[l]));
    }
}

proof fn lemma_no_longer(
    ops: Arithmetic,
    lists: Seq<Seq<u64>>,
    k: u64,
    a: Seq<(u64, u64)>,
    b: Seq<(u64, u64)>,
)
    requires
        fuses(ops, lists, k, a),
        fuses(ops, lists, k, b),
    ensures
        a.len() <= b.len(),
{
    if b.len() < a.len() {
        let i = b.len() as int;
        let j = lemma_member(ops, lists, k, a, b, i);
        lemma_same_upto(ops, lists, k, a, b, j);
        assert(outranks(a[j], a[i]));
    }
}

/// A duplicate within a list counts once, at its best rank: dropping every later
/// occurrence changes no score.
pub proof fn later_duplicates_do_not_count(
    ops: Arithmetic,
    before: Seq<Seq<u64>>,
    list: Seq<u64>,
    id: u64,
    k: u64,
    other: u64,
)
    requires
        list.contains(id),
    ensures
        ops.score(before.push(list.push(id)), k, other) == ops.score(before.push(list), k, other),
{
    lemma_position_of_member(list, id);
    lemma_score_push(ops, k, before, list, id);
    if other != id {
        assert(ops.score(before.push(list.push(id)), k, other) == ops.score(
            before.push(list),
            k,
            other,
        ));
    }
}

proof fn lemma_position_of_member(list: Seq<u64>, id: u64)
    requires
        list.contains(id),
    ensures
        position(list, id) is Some,
    decreases list.len(),
{
    let i = choose|i: int| 0 <= i < list.len() && list[i] == id;
    if i < list.len() - 1 {
        assert(list.drop_last()[i] == id);
        lemma_position_of_member(list.drop_last(), id);
    }
}

/// Of the first `n` ranks, a better one contributes more.
pub open spec fn falls(ops: Arithmetic, k: u64, n: nat) -> bool {
    forall|p: u64, q: u64|
        1 <= p < q <= n ==> f64_rank(#[trigger] (ops.contribute)(k, p)) > f64_rank(
            #[trigger] (ops.contribute)(k, q),
        )
}

/// Only the list at `at` has any ids.
pub open spec fn lone(lists: Seq<Seq<u64>>, at: int) -> bool {
    &&& 0 <= at < lists.len()
    &&& forall|i: int| 0 <= i < lists.len() && i != at ==> (#[trigger] lists[i]).len() == 0
}

proof fn lemma_score_of_none(ops: Arithmetic, lists: Seq<Seq<u64>>, k: u64, id: u64)
    requires
        forall|i: int| 0 <= i < lists.len() ==> (#[trigger] lists[i]).len() == 0,
    ensures
        ops.score(lists, k, id) is None,
    decreases lists.len(),
{
    if lists.len() > 0 {
        let head = lists.drop_last();
        assert forall|i: int| 0 <= i < head.len() implies (#[trigger] head[i]).len() == 0 by {
            assert(head[i] == lists[i]);
        }
        lemma_score_of_none(ops, head, k, id);
        assert(lists[lists.len() - 1].len() == 0);
    }
}

proof fn lemma_score_of_lone(ops: Arithmetic, lists: Seq<Seq<u64>>, at: int, k: u64, id: u64)
    requires
        lone(lists, at),
    ensures
        ops.score(lists, k, id) == (match position(lists[at], id) {
            None => None,
            Some(p) => Some((ops.contribute)(k, (p + 1) as u64)),
        }),
    decreases lists.len(),
{
    let head = lists.drop_last();
    let last = lists.len() - 1;
    if at == last {
        assert forall|i: int| 0 <= i < head.len() implies (#[trigger] head[i]).len() == 0 by {
            assert(head[i] == lists[i]);
        }
        lemma_score_of_none(ops, head, k, id);
    } else {
        assert(lone(head, at)) by {
            assert forall|i: int| 0 <= i < head.len() && i != at implies (
            #[trigger] head[i]).len() == 0 by {
                assert(head[i] == lists[i]);
            }
        }
        lemma_score_of_lone(ops, head, at, k, id);
        assert(lists[last].len() == 0);
    }
}

pub(crate) proof fn lemma_position_is_index(list: Seq<u64>, id: u64)
    requires
        list.no_duplicates(),
    ensures
        match position(list, id) {
            None => !list.contains(id),
            Some(p) => p < list.len() && list[p as int] == id,
        },
        forall|i: int| 0 <= i < list.len() && list[i] == id ==> position(list, id) == Some(
            i as nat,
        ),
    decreases list.len(),
{
    if list.len() > 0 {
        let head = list.drop_last();
        assert(head.no_duplicates()) by {
            assert forall|i: int, j: int|
                0 <= i < head.len() && 0 <= j < head.len() && i != j implies head[i] != head[j] by {
                assert(list[i] != list[j]);
            }
        }
        lemma_position_is_index(head, id);
        assert forall|i: int| 0 <= i < list.len() && list[i] == id implies position(list, id)
            == Some(i as nat) by {
            if i < head.len() {
                assert(head[i] == id);
            } else if position(head, id) is Some {
                let p = position(head, id)->0 as int;
                assert(list[p] != list[i]);
            }
        }
        if position(list, id) is None {
            assert(!list.contains(id));
        }
    }
}

/// When only one source found anything, fusion reduces to that source: its ids
/// come out in its own order, each with the contribution of its rank.
pub proof fn a_lone_list_keeps_its_order(
    ops: Arithmetic,
    lists: Seq<Seq<u64>>,
    at: int,
    k: u64,
    fused: Seq<(u64, u64)>,
)
    requires
        fuses(ops, lists, k, fused),
        falls(ops, k, lists[at].len()),
        lone(lists, at),
        lists[at].no_duplicates(),
        lists[at].len() < u64::MAX,
    ensures
        fused == Seq::new(
            lists[at].len(),
            |i: int| (lists[at][i], (ops.contribute)(k, (i + 1) as u64)),
        ),
{
    let list = lists[at];
    let own = Seq::new(list.len(), |i: int| (list[i], (ops.contribute)(k, (i + 1) as u64)));
    assert forall|i: int, j: int| 0 <= i < j < own.len() implies outranks(
        #[trigger] own[i],
        #[trigger] own[j],
    ) by {
        let (p, q) = ((i + 1) as u64, (j + 1) as u64);
        assert(f64_rank((ops.contribute)(k, p)) > f64_rank((ops.contribute)(k, q)));
    }
    assert forall|i: int| 0 <= i < own.len() implies ops.score(
        lists,
        k,
        (#[trigger] own[i]).0,
    ) == Some(own[i].1) by {
        lemma_score_of_lone(ops, lists, at, k, list[i]);
        lemma_position_is_index(list, list[i]);
    }
    assert forall|id: u64| (#[trigger] ops.score(lists, k, id)) is Some implies own.contains(
        (id, ops.score(lists, k, id)->0),
    ) by {
        lemma_score_of_lone(ops, lists, at, k, id);
        lemma_position_is_index(list, id);
        let p = position(list, id)->0 as int;
        assert(own[p] == (id, ops.score(lists, k, id)->0));
    }
    fusion_is_unique(ops, lists, k, fused, own);
}

/// Where an id stands first, and that its position says so.
proof fn lemma_first_position(list: Seq<u64>, p: int)
    requires
        0 <= p < list.len(),
        forall|j: int| 0 <= j < p ==> list[j] != list[p],
    ensures
        position(list, list[p]) == Some(p as nat),
    decreases list.len(),
{
    let head = list.drop_last();
    if p == list.len() - 1 {
        if position(head, list[p]) is Some {
            lemma_position_holds(head, list[p]);
        }
    } else {
        assert forall|j: int| 0 <= j < p implies head[j] != head[p] by {
            assert(list[j] != list[p]);
        }
        lemma_first_position(head, p);
    }
}

/// An id stands at its position.
pub(crate) proof fn lemma_position_holds(list: Seq<u64>, id: u64)
    ensures
        position(list, id) matches Some(p) ==> p < list.len() && list[p as int] == id && (forall|
            j: int,
        |
            0 <= j < p ==> #[trigger] list[j] != id),
        position(list, id) is Some <==> list.contains(id),
    decreases list.len(),
{
    if list.len() > 0 {
        let head = list.drop_last();
        lemma_position_holds(head, id);
        if position(head, id) is Some {
            let p = position(head, id)->0;
            assert(list[p as int] == id);
            assert forall|j: int| 0 <= j < p implies #[trigger] list[j] != id by {
                assert(head[j] != id);
            }
        } else if list.contains(id) {
            let i = choose|i: int| 0 <= i < list.len() && list[i] == id;
            if i < head.len() {
                assert(head[i] == id);
            }
            assert forall|j: int| 0 <= j < head.len() implies #[trigger] list[j] != id by {
                assert(!head.contains(id));
                assert(head[j] == list[j]);
            }
        }
    }
}

/// An id has a score exactly when a list has it.
pub(crate) proof fn lemma_scored_are_listed(ops: Arithmetic, lists: Seq<Seq<u64>>, k: u64, id: u64)
    ensures
        ops.score(lists, k, id) is Some <==> exists|l: int|
            0 <= l < lists.len() && (#[trigger] lists[l]).contains(id),
    decreases lists.len(),
{
    if lists.len() > 0 {
        let head = lists.drop_last();
        let last = lists.len() - 1;
        lemma_scored_are_listed(ops, head, k, id);
        lemma_position_holds(lists.last(), id);
        if exists|l: int| 0 <= l < head.len() && (#[trigger] head[l]).contains(id) {
            let l = choose|l: int| 0 <= l < head.len() && (#[trigger] head[l]).contains(id);
            assert(lists[l].contains(id));
        }
        if exists|l: int| 0 <= l < lists.len() && (#[trigger] lists[l]).contains(id) {
            let l = choose|l: int| 0 <= l < lists.len() && (#[trigger] lists[l]).contains(id);
            if l < last {
                assert(head[l].contains(id));
            }
        }
        if lists.last().contains(id) {
            assert(lists[last].contains(id));
        }
    }
}

/// A pair is in a fusion exactly when it is an id with its score.
pub(crate) proof fn lemma_fused_pair(
    ops: Arithmetic,
    lists: Seq<Seq<u64>>,
    k: u64,
    fused: Seq<(u64, u64)>,
    id: u64,
    s: u64,
)
    requires
        fuses(ops, lists, k, fused),
    ensures
        fused.contains((id, s)) <==> ops.score(lists, k, id) == Some(s),
{
    if fused.contains((id, s)) {
        let i = choose|i: int| 0 <= i < fused.len() && fused[i] == (id, s);
        assert(ops.score(lists, k, fused[i].0) == Some(fused[i].1));
    }
}

/// Fusion keeps the ids of its lists, every one of them and no others, each
/// once; the higher score comes first, and of two equal scores the smaller id.
pub proof fn fusion_holds_the_listed_ids<C: Fn(u64, u64) -> u64, A: Fn(u64, u64) -> u64>(
    contribute: C,
    sum: A,
    rankings: Seq<&[u64]>,
    k: u64,
    fused: Seq<(u64, u64)>,
    id: u64,
)
    requires
        fuses(arithmetic(contribute, sum), list_views(rankings), k, fused),
    ensures
        (exists|i: int| 0 <= i < fused.len() && (#[trigger] fused[i]).0 == id) <==> (exists|l: int|
            0 <= l < rankings.len() && #[trigger] rankings[l]@.contains(id)),
        forall|i: int, j: int|
            0 <= i < j < fused.len() ==> {
                &&& (#[trigger] fused[i]).0 != (#[trigger] fused[j]).0
                &&& f64_rank(fused[i].1) > f64_rank(fused[j].1) || (f64_rank(fused[i].1)
                    == f64_rank(fused[j].1) && fused[i].0 < fused[j].0)
            },
{
    let ops = arithmetic(contribute, sum);
    let lists = list_views(rankings);
    lemma_scored_are_listed(ops, lists, k, id);
    if exists|i: int| 0 <= i < fused.len() && (#[trigger] fused[i]).0 == id {
        let i = choose|i: int| 0 <= i < fused.len() && (#[trigger] fused[i]).0 == id;
        assert(ops.score(lists, k, fused[i].0) == Some(fused[i].1));
        let l = choose|l: int| 0 <= l < lists.len() && (#[trigger] lists[l]).contains(id);
        assert(rankings[l]@.contains(id));
    }
    if exists|l: int| 0 <= l < rankings.len() && #[trigger] rankings[l]@.contains(id) {
        let l = choose|l: int| 0 <= l < rankings.len() && #[trigger] rankings[l]@.contains(id);
        assert(lists[l].contains(id));
        let s = ops.score(lists, k, id)->0;
        assert(fused.contains((id, s)));
        let i = choose|i: int| 0 <= i < fused.len() && fused[i] == (id, s);
        assert(fused[i].0 == id);
    }
    assert forall|i: int, j: int| 0 <= i < j < fused.len() implies {
        &&& (#[trigger] fused[i]).0 != (#[trigger] fused[j]).0
        &&& f64_rank(fused[i].1) > f64_rank(fused[j].1) || (f64_rank(fused[i].1) == f64_rank(
            fused[j].1,
        ) && fused[i].0 < fused[j].0)
    } by {
        assert(outranks(fused[i], fused[j]));
        assert(ops.score(lists, k, fused[i].0) == Some(fused[i].1));
        assert(ops.score(lists, k, fused[j].0) == Some(fused[j].1));
    }
}

/// Another list adds its share, whatever the rank: an id that stands first at
/// position `p` of it gains the contribution of rank `p + 1`, on top of its score
/// so far or as its first score.
pub proof fn another_list_adds_its_share<C: Fn(u64, u64) -> u64, A: Fn(u64, u64) -> u64>(
    contribute: C,
    sum: A,
    before: Seq<&[u64]>,
    list: &[u64],
    k: u64,
    prior: Seq<(u64, u64)>,
    fused: Seq<(u64, u64)>,
    p: int,
    share: u64,
)
    requires
        binary_ok(contribute),
        binary_ok(sum),
        fuses(arithmetic(contribute, sum), list_views(before), k, prior),
        fuses(arithmetic(contribute, sum), list_views(before.push(list)), k, fused),
        0 <= p < list@.len() <= u64::MAX,
        forall|j: int| 0 <= j < p ==> list@[j] != list@[p],
        call_ensures(contribute, (k, (p + 1) as u64), share),
    ensures
        forall|score: u64, total: u64|
            prior.contains((list@[p], score)) && #[trigger] call_ensures(
                sum,
                (score, share),
                total,
            ) ==> fused.contains((list@[p], total)),
        (forall|l: int| 0 <= l < before.len() ==> !(#[trigger] before[l]@.contains(list@[p])))
            ==> fused.contains((list@[p], share)),
{
    let ops = arithmetic(contribute, sum);
    let lists = list_views(before);
    let more = list_views(before.push(list));
    let id = list@[p];
    assert(more.drop_last() =~= lists);
    assert(more.last() == list@);
    lemma_first_position(list@, p);
    let rank = (p + 1) as u64;
    assert(call_ensures(contribute, (k, rank), binary_value(contribute, k, rank)));
    assert((ops.contribute)(k, rank) == share);
    assert forall|score: u64, total: u64|
        prior.contains((id, score)) && #[trigger] call_ensures(
            sum,
            (score, share),
            total,
        ) implies fused.contains((id, total)) by {
        lemma_fused_pair(ops, lists, k, prior, id, score);
        assert(call_ensures(sum, (score, share), binary_value(sum, score, share)));
        assert((ops.sum)(score, share) == total);
        lemma_fused_pair(ops, more, k, fused, id, total);
    }
    if forall|l: int| 0 <= l < before.len() ==> !(#[trigger] before[l]@.contains(id)) {
        lemma_scored_are_listed(ops, lists, k, id);
        if ops.score(lists, k, id) is Some {
            let l = choose|l: int| 0 <= l < lists.len() && (#[trigger] lists[l]).contains(id);
            assert(before[l]@.contains(id));
        }
        lemma_fused_pair(ops, more, k, fused, id, share);
    }
}

/// A list changes no score but those of its own ids.
pub proof fn a_list_leaves_other_ids_alone<C: Fn(u64, u64) -> u64, A: Fn(u64, u64) -> u64>(
    contribute: C,
    sum: A,
    before: Seq<&[u64]>,
    list: &[u64],
    k: u64,
    prior: Seq<(u64, u64)>,
    fused: Seq<(u64, u64)>,
    id: u64,
    score: u64,
)
    requires
        fuses(arithmetic(contribute, sum), list_views(before), k, prior),
        fuses(arithmetic(contribute, sum), list_views(before.push(list)), k, fused),
        !list@.contains(id),
    ensures
        fused.contains((id, score)) <==> prior.contains((id, score)),
{
    let ops = arithmetic(contribute, sum);
    let lists = list_views(before);
    let more = list_views(before.push(list));
    assert(more.drop_last() =~= lists);
    assert(more.last() == list@);
    lemma_position_holds(list@, id);
    lemma_fused_pair(ops, lists, k, prior, id, score);
    lemma_fused_pair(ops, more, k, fused, id, score);
}

/// Any `k` from zero up to the largest finite number will do, and negative zero;
/// nothing else will.
pub proof fn usable_ks(k: u64)
    ensures
        valid_k(k) <==> k < 0x7FF0_0000_0000_0000 || k == 0x8000_0000_0000_0000,
{
    crate::floats::lemma_f64_value_order(k, 0);
    crate::floats::lemma_scaled_zero(52);
}

} // verus!
