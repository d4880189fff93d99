//! Index scans: `ORDER BY` distance, answered from the graph, and plain filters,
//! answered from every row.
//!
//! An ordered scan runs one search, at the session's candidate budget, and hands
//! out its results nearest first. Then it ends, even if the caller wanted more: a
//! wider search is no superset of a narrower one, so going on could turn up a row
//! nearer than one already handed over, and nothing downstream would repair the
//! order. A row without a vector has no place in a ranking and is left out.
//!
//! A scan without an ordering reads every node and tests the predicate, and does
//! the same with the rows that have no vector: its purpose is to return every
//! matching row.

use super::attrs::{flagged, SK_ISNULL};
use super::storage::TidPair;
use super::stored::{unranked_rows, Index, UnrankedRow};
use crate::distance::{kernel_ok, Kernel};
use crate::filter::Predicate;
use crate::floats::f32_rank;
use crate::guc::ef_search;
use crate::hnsw::beam::cand_le;
use crate::hnsw::complete::{
    among, connected_indexes_are_searched_in_full, eligible, eligible_ids, precedes, proper, selective,
};
use crate::hnsw::found::answers_are_sound;
use crate::hnsw::graph::Graph;
use crate::hnsw::search::{answer, distances, search_result, Walk};
use crate::hnsw::{Hnsw, HnswError};
use crate::text::{decimal, push_decimal};
use vstd::prelude::*;

verus! {

/// Errors raised while producing scan results.
#[derive(Debug, Clone, Copy, PartialEq, Eq, Structural)]
pub enum ScanError {
    Search(HnswError),
    /// The graph returned a node the address table doesn't cover, which only a
    /// corrupted index can produce.
    UnmappedNode(usize),
}

impl ScanError {
    /// The text a user sees.
    pub open spec fn text(self) -> Seq<char> {
        match self {
            ScanError::Search(e) => e.text(),
            ScanError::UnmappedNode(id) => "corrupted index: node "@ + decimal(id as nat)
                + " has no heap pointer"@,
        }
    }

    /// The text a user sees.
    pub fn message(&self) -> (s: String)
        ensures
            s@ == self.text(),
    {
        match self {
            ScanError::Search(e) => e.message(),
            ScanError::UnmappedNode(id) => {
                let mut s = String::new();
                s.append("corrupted index: node ");
                push_decimal(&mut s, *id as u64);
                s.append(" has no heap pointer");
                assert(s@ =~= self.text());
                s
            },
        }
    }
}

impl From<HnswError> for ScanError {
    fn from(e: HnswError) -> (r: Self) {
        ScanError::Search(e)
    }
}

impl vstd::std_specs::convert::FromSpecImpl<HnswError> for ScanError {
    open spec fn obeys_from_spec() -> bool {
        true
    }

    open spec fn from_spec(e: HnswError) -> Self {
        ScanError::Search(e)
    }
}

/// The search behind one scan, and how far its results have been handed out.
pub struct ScanSearch {
    index: Index,
    query: Vec<u32>,
    results: Vec<TidPair>,
    cursor: usize,
}

/// A scan as a value.
pub struct Scan {
    pub graph: Graph,
    /// Heap address of each node.
    pub tids: Seq<TidPair>,
    /// Rows without a vector.
    pub unranked: Seq<UnrankedRow>,
    pub query: Seq<u32>,
    /// What was found, as heap addresses, nearest first in an ordered scan.
    pub results: Seq<TidPair>,
    /// How many of them have been handed out.
    pub cursor: nat,
}

/// How many results, from the front, name a node with an address.
pub open spec fn mapped(found: Seq<(u32, usize)>, tids: Seq<TidPair>) -> nat
    decreases found.len(),
{
    if found.len() == 0 {
        0
    } else if found[0].1 < tids.len() {
        1 + mapped(found.drop_first(), tids)
    } else {
        0
    }
}

/// The addresses of search results.
pub open spec fn addresses(found: Seq<(u32, usize)>, tids: Seq<TidPair>) -> Seq<TidPair> {
    Seq::new(found.len(), |i: int| tids[found[i].1 as int])
}

/// Addresses of the live nodes that satisfy `p`, among the first `upto`.
pub open spec fn matching_nodes(
    graph: Graph,
    tids: Seq<TidPair>,
    p: Predicate,
    upto: int,
) -> Seq<TidPair>
    decreases upto,
{
    if upto <= 0 {
        Seq::empty()
    } else {
        let before = matching_nodes(graph, tids, p, upto - 1);
        if matching_node(graph, p, upto - 1) {
            before.push(tids[upto - 1])
        } else {
            before
        }
    }
}

/// Node `id` is live and satisfies `p`.
pub open spec fn matching_node(graph: Graph, p: Predicate, id: int) -> bool {
    !graph.nodes[id].deleted && p.holds(graph.attrs(id))
}

/// Addresses of the rows without a vector that satisfy `p`, among the first
/// `upto`.
pub open spec fn matching_unranked(rows: Seq<UnrankedRow>, p: Predicate, upto: int) -> Seq<TidPair>
    decreases upto,
{
    if upto <= 0 {
        Seq::empty()
    } else {
        let before = matching_unranked(rows, p, upto - 1);
        if p.holds(rows[upto - 1].attrs) {
            before.push(rows[upto - 1].tid)
        } else {
            before
        }
    }
}

/// The first live node from `from` on that satisfies `p`; past the end if there
/// is none.
pub open spec fn next_matching(graph: Graph, p: Predicate, from: int) -> int
    decreases graph.nodes.len() - from,
{
    if from >= graph.nodes.len() || matching_node(graph, p, from) {
        from
    } else {
        next_matching(graph, p, from + 1)
    }
}

impl Scan {
    /// What a scan without an ordering answers: every matching row, nodes first,
    /// each kind as it was stored. A matching node without an address is an
    /// error.
    pub open spec fn every_match(self, p: Predicate) -> Result<Seq<TidPair>, ScanError> {
        let n = self.graph.nodes.len() as int;
        let lost = next_matching(self.graph, p, self.tids.len() as int);
        if lost < n {
            Err(ScanError::UnmappedNode(lost as usize))
        } else {
            Ok(
                matching_nodes(self.graph, self.tids, p, n) + matching_unranked(
                    self.unranked,
                    p,
                    self.unranked.len() as int,
                ),
            )
        }
    }

    /// The scan restarted for `query`, given what the search answered. Results
    /// up to the first node without an address are kept.
    pub open spec fn started(
        self,
        query: Seq<u32>,
        found: Result<Seq<(u32, usize)>, HnswError>,
    ) -> Scan {
        Scan {
            query,
            cursor: 0,
            results: match found {
                Err(_) => Seq::empty(),
                Ok(f) => addresses(f.take(mapped(f, self.tids) as int), self.tids),
            },
            ..self
        }
    }

    /// What starting the scan answers.
    pub open spec fn outcome(self, found: Result<Seq<(u32, usize)>, HnswError>) -> Result<
        (),
        ScanError,
    > {
        match found {
            Err(e) => Err(ScanError::Search(e)),
            Ok(f) => if mapped(f, self.tids) < f.len() {
                Err(ScanError::UnmappedNode(f[mapped(f, self.tids) as int].1))
            } else {
                Ok(())
            },
        }
    }
}

/// What a scan of `graph` searches for, within the budget of a setting.
pub open spec fn scan_search<K: Fn(Kernel, &[u32], &[u32]) -> u32>(
    graph: Graph,
    kernel: K,
    query: Seq<u32>,
    predicate: Option<Predicate>,
    setting: i32,
) -> Result<Seq<(u32, usize)>, HnswError> {
    search_result(
        Walk { graph, dist: distances(kernel, graph.metric), query, filter: predicate },
        budget(setting),
        budget(setting),
    )
}

/// The candidate budget a setting stands for.
pub open spec fn budget(setting: i32) -> nat {
    if setting < 1 {
        1
    } else {
        setting as nat
    }
}

proof fn lemma_mapped(found: Seq<(u32, usize)>, tids: Seq<TidPair>)
    ensures
        mapped(found, tids) <= found.len(),
        forall|i: int| 0 <= i < mapped(found, tids) ==> (#[trigger] found[i]).1 < tids.len(),
        mapped(found, tids) < found.len() ==> found[mapped(found, tids) as int].1 >= tids.len(),
    decreases found.len(),
{
    if found.len() > 0 {
        let rest = found.drop_first();
        lemma_mapped(rest, tids);
        if found[0].1 < tids.len() {
            assert forall|i: int| 0 <= i < mapped(found, tids) implies (#[trigger] found[i]).1
                < tids.len() by {
                if i > 0 {
                    assert(found[i] == rest[i - 1]);
                }
            }
        }
    }
}

impl View for ScanSearch {
    type V = Scan;

    closed spec fn view(&self) -> Scan {
        Scan {
            graph: self.index@.graph,
            tids: self.index@.tids,
            unranked: self.index@.unranked,
            query: self.query@,
            results: self.results@,
            cursor: self.cursor as nat,
        }
    }
}

impl ScanSearch {
    /// The graph is sound, and no more has been handed out than was found.
    pub closed spec fn wf(&self) -> bool {
        &&& self.index.hnsw.wf()
        &&& self.cursor <= self.results@.len()
    }

    /// A scan of a graph, in which every row has a vector, that has not been
    /// started.
    pub fn new(hnsw: Hnsw, tids: Vec<TidPair>) -> (r: Self)
        requires
            hnsw.wf(),
        ensures
            r.wf(),
            r@ == (Scan {
                graph: hnsw@,
                tids: tids@,
                unranked: Seq::empty(),
                query: Seq::empty(),
                results: Seq::empty(),
                cursor: 0,
            }),
    {
        let r = ScanSearch::over(Index { hnsw, tids, unranked: Vec::new() });
        assert(r@.unranked =~= Seq::<UnrankedRow>::empty());
        r
    }

    /// A scan of an index that has not been started.
    pub fn over(index: Index) -> (r: Self)
        requires
            index.hnsw.wf(),
        ensures
            r.wf(),
            r@ == (Scan {
                graph: index@.graph,
                tids: index@.tids,
                unranked: index@.unranked,
                query: Seq::empty(),
                results: Seq::empty(),
                cursor: 0,
            }),
    {
        ScanSearch { index, query: Vec::new(), results: Vec::new(), cursor: 0 }
    }

    /// Begin or restart the scan for `query`, running its one search at the
    /// session's current budget.
    pub fn start<K: Fn(Kernel, &[u32], &[u32]) -> u32>(
        &mut self,
        kernel: &K,
        query: Vec<u32>,
        setting: i32,
    ) -> (r: Result<(), ScanError>)
        requires
            old(self).wf(),
            kernel_ok(*kernel),
        ensures
            final(self).wf(),
            ({
                let found = scan_search(old(self)@.graph, *kernel, query@, None, setting);
                &&& r == old(self)@.outcome(found)
                &&& final(self)@ == old(self)@.started(query@, found)
            }),
    {
        let size: usize = ef_search(setting);
        let found = self.index.hnsw.search(kernel, query.as_slice(), size, size);
        let ghost want = scan_search(self@.graph, *kernel, query@, None, setting);
        assert(answer(found) == want);
        self.resume(query, found)
    }

    /// Begin or restart the scan for `query` among the rows that satisfy
    /// `predicate`.
    pub fn start_filtered<K: Fn(Kernel, &[u32], &[u32]) -> u32>(
        &mut self,
        kernel: &K,
        query: Vec<u32>,
        predicate: &Predicate,
        setting: i32,
    ) -> (r: Result<(), ScanError>)
        requires
            old(self).wf(),
            kernel_ok(*kernel),
        ensures
            final(self).wf(),
            ({
                let found = scan_search(
                    old(self)@.graph,
                    *kernel,
                    query@,
                    Some(*predicate),
                    setting,
                );
                &&& r == old(self)@.outcome(found)
                &&& final(self)@ == old(self)@.started(query@, found)
            }),
    {
        let size: usize = ef_search(setting);
        let found = self.index.hnsw.search_filtered(
            kernel,
            query.as_slice(),
            size,
            size,
            predicate,
        );
        let ghost want = scan_search(self@.graph, *kernel, query@, Some(*predicate), setting);
        assert(answer(found) == want);
        self.resume(query, found)
    }

    /// Begin or restart the scan without an ordering: every row that satisfies
    /// `predicate`, whether it has a vector or not.
    pub fn start_unordered(&mut self, predicate: &Predicate) -> (r: Result<(), ScanError>)
        requires
            old(self).wf(),
        ensures
            final(self).wf(),
            ({
                let found = old(self)@.every_match(*predicate);
                &&& r == (match found {
                    Ok(_) => Ok(()),
                    Err(e) => Err(e),
                })
                &&& final(self)@ == (Scan {
                    query: Seq::empty(),
                    results: match found {
                        Ok(tids) => tids,
                        Err(_) => Seq::empty(),
                    },
                    cursor: 0,
                    ..old(self)@
                })
            }),
    {
        let ghost p = *predicate;
        let ghost s = self.index@;
        let ghost n = s.graph.nodes.len() as int;
        self.query = Vec::new();
        self.results = Vec::new();
        self.cursor = 0;
        let mut found: Vec<TidPair> = Vec::new();
        let mut id: usize = 0;
        while id < self.index.hnsw.len()
            invariant
                self.index == old(self).index,
                self.index.hnsw.wf(),
                self.query@.len() == 0,
                self.results@.len() == 0,
                self.cursor == 0,
                p == *predicate,
                s == self.index@,
                n == s.graph.nodes.len(),
                id <= n,
                found@ == matching_nodes(s.graph, s.tids, p, id as int),
                id > s.tids.len() ==> next_matching(s.graph, p, s.tids.len() as int)
                    == next_matching(s.graph, p, id as int),
            decreases n - id,
        {
            assert(s.graph.node_ok(id as int));
            if !self.index.hnsw.is_deleted(id) && predicate.matches(self.index.hnsw.attrs(id)) {
                assert(matching_node(s.graph, p, id as int));
                if id >= self.index.tids.len() {
                    assert(next_matching(s.graph, p, id as int) == id);
                    assert(self@.query =~= Seq::<u32>::empty());
                    assert(self@.results =~= Seq::<TidPair>::empty());
                    return Err(ScanError::UnmappedNode(id));
                }
                found.push(self.index.tids[id]);
            } else {
                assert(!matching_node(s.graph, p, id as int));
            }
            id += 1;
        }
        let ghost nodes = found@;
        let ghost rows = s.unranked;
        let mut i: usize = 0;
        assert(nodes + matching_unranked(rows, p, 0) =~= nodes);
        while i < self.index.unranked.len()
            invariant
                self.index == old(self).index,
                self.index.hnsw.wf(),
                self.query@.len() == 0,
                self.results@.len() == 0,
                self.cursor == 0,
                p == *predicate,
                rows == unranked_rows(self.index.unranked@),
                i <= rows.len(),
                found@ == nodes + matching_unranked(rows, p, i as int),
            decreases rows.len() - i,
        {
            let row = &self.index.unranked[i];
            assert(rows[i as int] == row@);
            if predicate.matches(row.attrs.as_slice()) {
                let ghost before = matching_unranked(rows, p, i as int);
                found.push(row.tid);
                assert(found@ =~= nodes + before.push(row.tid));
            }
            i += 1;
        }
        self.results = found;
        proof {
            assert(self@.query =~= Seq::<u32>::empty());
            assert(next_matching(s.graph, p, s.tids.len() as int) >= n) by {
                if s.tids.len() < n {
                    assert(next_matching(s.graph, p, n) == n);
                }
            }
        }
        Ok(())
    }

    /// Put a search's answer in place of the previous results. These are gone
    /// even when the search failed: they must not sit under the new query.
    fn resume(&mut self, query: Vec<u32>, found: Result<Vec<(u32, usize)>, HnswError>) -> (r:
        Result<(), ScanError>)
        requires
            old(self).wf(),
        ensures
            final(self).wf(),
            r == old(self)@.outcome(answer(found)),
            final(self)@ == old(self)@.started(query@, answer(found)),
    {
        self.query = query;
        self.cursor = 0;
        self.results = Vec::new();
        let list = match found {
            Err(e) => {
                return Err(ScanError::from(e));
            },
            Ok(list) => list,
        };
        proof {
            lemma_mapped(list@, self.index.tids@);
        }
        let ghost upto = mapped(list@, self.index.tids@) as int;
        let mut i: usize = 0;
        while i < list.len()
            invariant
                answer(found) == Ok::<Seq<(u32, usize)>, HnswError>(list@),
                self.index == old(self).index,
                self.index.hnsw.wf(),
                self.query@ == query@,
                self.cursor == 0,
                upto == mapped(list@, self.index.tids@),
                0 <= upto <= list@.len(),
                forall|k: int| 0 <= k < upto ==> (#[trigger] list@[k]).1 < self.index.tids@.len(),
                upto < list@.len() ==> list@[upto].1 >= self.index.tids@.len(),
                i <= upto,
                self.results@ == addresses(list@.take(i as int), self.index.tids@),
            decreases list@.len() - i,
        {
            let id: usize = list[i].1;
            if id < self.index.tids.len() {
                self.results.push(self.index.tids[id]);
                assert(self.results@ =~= addresses(list@.take(i + 1), self.index.tids@));
            } else {
                return Err(ScanError::UnmappedNode(id));
            }
            i += 1;
        }
        Ok(())
    }

    /// End the scan without returning anything.
    pub fn stop(&mut self)
        requires
            old(self).wf(),
        ensures
            final(self).wf(),
            final(self)@ == (Scan {
                query: Seq::empty(),
                results: Seq::empty(),
                cursor: 0,
                ..old(self)@
            }),
    {
        self.query = Vec::new();
        self.results = Vec::new();
        self.cursor = 0;
    }

    /// The next heap address, nearest first, or `None` once the results are
    /// spent.
    pub fn next(&mut self) -> (r: Result<Option<TidPair>, ScanError>)
        requires
            old(self).wf(),
        ensures
            final(self).wf(),
            ({
                let scan = old(self)@;
                if scan.cursor < scan.results.len() {
                    &&& r == Ok::<Option<TidPair>, ScanError>(
                        Some(scan.results[scan.cursor as int]),
                    )
                    &&& final(self)@ == (Scan { cursor: scan.cursor + 1, ..scan })
                } else {
                    r == Ok::<Option<TidPair>, ScanError>(None) && final(self)@ == scan
                }
            }),
    {
        assert(self.results.len() == self.results@.len());
        if self.cursor < self.results.len() {
            let tid = self.results[self.cursor];
            self.cursor = self.cursor + 1;
            Ok(Some(tid))
        } else {
            Ok(None)
        }
    }
}

/// What restarting a scan calls for.
#[derive(Debug, Clone, Copy, PartialEq, Eq, Structural)]
pub enum Rescan {
    /// There is nothing to order by: every matching row is read.
    Unordered,
    /// Nothing ranks against a `NULL` query vector: the scan ends.
    Stop,
    /// The search runs.
    Start,
}

/// What restarting a scan with `norderbys` ordering keys calls for, going by the
/// flags of the first.
pub fn rescan(norderbys: i32, flags: u32) -> (r: Rescan)
    ensures
        r == (if norderbys < 1 {
            Rescan::Unordered
        } else if flagged(flags, SK_ISNULL) {
            Rescan::Stop
        } else {
            Rescan::Start
        }),
{
    if norderbys < 1 {
        Rescan::Unordered
    } else if flags % 2 == 1 {
        Rescan::Stop
    } else {
        Rescan::Start
    }
}

/// A scan yields no more rows than its budget, and each of them is the address
/// of a live node that satisfies the predicate, in order of distance.
pub proof fn scans_stay_within_their_budget<K: Fn(Kernel, &[u32], &[u32]) -> u32>(
    scan: Scan,
    kernel: K,
    query: Seq<u32>,
    predicate: Option<Predicate>,
    setting: i32,
)
    requires
        scan.graph.valid(),
    ensures
        ({
            let found = scan_search(scan.graph, kernel, query, predicate, setting);
            let results = scan.started(query, found).results;
            &&& results.len() <= budget(setting)
            &&& found matches Ok(f) ==> {
                &&& results.len() <= f.len()
                &&& forall|i: int|
                    0 <= i < results.len() ==> {
                        &&& #[trigger] results[i] == scan.tids[f[i].1 as int]
                        &&& f[i].1 < scan.graph.nodes.len()
                        &&& !scan.graph.nodes[f[i].1 as int].deleted
                        &&& predicate matches Some(p) ==> p.holds(
                            scan.graph.attrs(f[i].1 as int),
                        )
                        &&& f[i].0 == distances(kernel, scan.graph.metric)(
                            query,
                            scan.graph.nodes[f[i].1 as int].vector,
                        )
                    }
                &&& forall|i: int, j: int|
                    0 <= i < j < results.len() ==> f32_rank((#[trigger] f[i]).0) <= f32_rank(
                        (#[trigger] f[j]).0,
                    )
            }
        }),
{
    let w = Walk {
        graph: scan.graph,
        dist: distances(kernel, scan.graph.metric),
        query,
        filter: predicate,
    };
    let b = budget(setting);
    let found = scan_search(scan.graph, kernel, query, predicate, setting);
    if let Ok(f) = found {
        lemma_mapped(f, scan.tids);
        if scan.graph.entry_point is Some && query.len() == scan.graph.dim {
            answers_are_sound(w, b, b);
            let near = w.nearest(b, b);
            assert forall|i: int| 0 <= i < f.len() implies {
                &&& (#[trigger] f[i]).1 < scan.graph.nodes.len()
                &&& !scan.graph.nodes[f[i].1 as int].deleted
                &&& w.matches(f[i].1 as int)
                &&& f[i].0 == (w.dist)(query, scan.graph.nodes[f[i].1 as int].vector)
            } by {
                assert(f[i] == (near[i].dist, near[i].id));
            }
            assert forall|i: int, j: int| 0 <= i < j < f.len() implies f32_rank(
                (#[trigger] f[i]).0,
            ) <= f32_rank((#[trigger] f[j]).0) by {
                assert(cand_le(near[i], near[j]));
            }
        }
    }
}

/// A scan without an ordering returns every matching row and nothing else: the
/// address of each live node and of each row without a vector that satisfies the
/// predicate.
pub proof fn unordered_scans_return_every_match(scan: Scan, p: Predicate)
    ensures
        scan.every_match(p) matches Ok(found) ==> {
            &&& forall|id: int|
                0 <= id < scan.graph.nodes.len() && #[trigger] matching_node(scan.graph, p, id)
                    ==> found.contains(scan.tids[id])
            &&& forall|i: int|
                0 <= i < scan.unranked.len() && p.holds((#[trigger] scan.unranked[i]).attrs)
                    ==> found.contains(scan.unranked[i].tid)
            &&& forall|k: int|
                0 <= k < found.len() ==> from_a_match(scan, p, #[trigger] found[k])
        },
{
    let n = scan.graph.nodes.len() as int;
    let m = scan.unranked.len() as int;
    if let Ok(found) = scan.every_match(p) {
        lemma_matching_nodes(scan, p, n);
        lemma_matching_unranked(scan, p, m);
        let nodes = matching_nodes(scan.graph, scan.tids, p, n);
        let rows = matching_unranked(scan.unranked, p, m);
        assert forall|id: int|
            0 <= id < n && #[trigger] matching_node(scan.graph, p, id) implies found.contains(
            scan.tids[id],
        ) by {
            let k = choose|k: int| 0 <= k < nodes.len() && nodes[k] == scan.tids[id];
            assert(found[k] == scan.tids[id]);
        }
        assert forall|i: int|
            0 <= i < m && p.holds((#[trigger] scan.unranked[i]).attrs) implies found.contains(
            scan.unranked[i].tid,
        ) by {
            let k = choose|k: int| 0 <= k < rows.len() && rows[k] == scan.unranked[i].tid;
            assert(found[nodes.len() + k] == scan.unranked[i].tid);
        }
        assert forall|k: int| 0 <= k < found.len() implies from_a_match(
            scan,
            p,
            #[trigger] found[k],
        ) by {
            if k < nodes.len() {
                assert(found[k] == nodes[k]);
            } else {
                assert(found[k] == rows[k - nodes.len()]);
            }
        }
    }
}

/// An address belongs to a live node, or to a row without a vector, that
/// satisfies `p`.
pub open spec fn from_a_match(scan: Scan, p: Predicate, tid: TidPair) -> bool {
    ||| exists|id: int|
        0 <= id < scan.graph.nodes.len() && #[trigger] matching_node(scan.graph, p, id)
            && scan.tids[id] == tid
    ||| exists|i: int|
        0 <= i < scan.unranked.len() && p.holds((#[trigger] scan.unranked[i]).attrs)
            && scan.unranked[i].tid == tid
}

proof fn lemma_matching_nodes(scan: Scan, p: Predicate, upto: int)
    requires
        0 <= upto <= scan.graph.nodes.len(),
    ensures
        forall|id: int|
            0 <= id < upto && #[trigger] matching_node(scan.graph, p, id) ==> matching_nodes(
                scan.graph,
                scan.tids,
                p,
                upto,
            ).contains(scan.tids[id]),
        forall|k: int|
            0 <= k < matching_nodes(scan.graph, scan.tids, p, upto).len() ==> from_a_match(
                scan,
                p,
                #[trigger] matching_nodes(scan.graph, scan.tids, p, upto)[k],
            ),
    decreases upto,
{
    if upto > 0 {
        lemma_matching_nodes(scan, p, upto - 1);
        let before = matching_nodes(scan.graph, scan.tids, p, upto - 1);
        let all = matching_nodes(scan.graph, scan.tids, p, upto);
        assert forall|id: int|
            0 <= id < upto && #[trigger] matching_node(scan.graph, p, id) implies all.contains(
            scan.tids[id],
        ) by {
            if id < upto - 1 {
                let k = choose|k: int| 0 <= k < before.len() && before[k] == scan.tids[id];
                assert(all[k] == scan.tids[id]);
            } else {
                assert(all[all.len() - 1] == scan.tids[id]);
            }
        }
        assert forall|k: int| 0 <= k < all.len() implies from_a_match(
            scan,
            p,
            #[trigger] all[k],
        ) by {
            if k < before.len() {
                assert(all[k] == before[k]);
            } else {
                assert(matching_node(scan.graph, p, upto - 1));
            }
        }
    }
}

proof fn lemma_matching_unranked(scan: Scan, p: Predicate, upto: int)
    requires
        0 <= upto <= scan.unranked.len(),
    ensures
        forall|i: int|
            0 <= i < upto && p.holds((#[trigger] scan.unranked[i]).attrs) ==> matching_unranked(
                scan.unranked,
                p,
                upto,
            ).contains(scan.unranked[i].tid),
        forall|k: int|
            0 <= k < matching_unranked(scan.unranked, p, upto).len() ==> from_a_match(
                scan,
                p,
                #[trigger] matching_unranked(scan.unranked, p, upto)[k],
            ),
    decreases upto,
{
    if upto > 0 {
        lemma_matching_unranked(scan, p, upto - 1);
        let before = matching_unranked(scan.unranked, p, upto - 1);
        let all = matching_unranked(scan.unranked, p, upto);
        assert forall|i: int|
            0 <= i < upto && p.holds((#[trigger] scan.unranked[i]).attrs) implies all.contains(
            scan.unranked[i].tid,
        ) by {
            if i < upto - 1 {
                let k = choose|k: int| 0 <= k < before.len() && before[k] == scan.unranked[i].tid;
                assert(all[k] == scan.unranked[i].tid);
            } else {
                assert(all[all.len() - 1] == scan.unranked[i].tid);
            }
        }
        assert forall|k: int| 0 <= k < all.len() implies from_a_match(
            scan,
            p,
            #[trigger] all[k],
        ) by {
            if k < before.len() {
                assert(all[k] == before[k]);
            } else {
                assert(p.holds(scan.unranked[upto - 1].attrs));
            }
        }
    }
}

/// An ordered scan runs one search, at the session's setting, or at one where that
/// is less.
pub proof fn scans_search_at_the_setting<K: Fn(Kernel, &[u32], &[u32]) -> u32>(
    h: &Hnsw,
    kernel: K,
    query: Seq<u32>,
    predicate: Option<&Predicate>,
    setting: i32,
)
    ensures
        ({
            let size: nat = if setting < 1 {
                1
            } else {
                setting as nat
            };
            scan_search(
                h@,
                kernel,
                query,
                match predicate {
                    Some(p) => Some(*p),
                    None => None,
                },
                setting,
            ) == search_result(h.walk(kernel, query, predicate), size, size)
        }),
{
}

/// An ordered scan hands out every answer of its search, in order, by its address.
/// A node without an address ends it with an error that names the node; what comes
/// before that is kept.
pub proof fn scans_hand_out_every_answer(
    scan: Scan,
    query: Seq<u32>,
    found: Seq<(u32, usize)>,
    lost: int,
)
    requires
        0 <= lost <= found.len(),
        forall|i: int| 0 <= i < lost ==> (#[trigger] found[i]).1 < scan.tids.len(),
        lost < found.len() ==> found[lost].1 >= scan.tids.len(),
    ensures
        ({
            let after = scan.started(query, Ok(found));
            &&& after.results.len() == lost
            &&& after.cursor == 0
            &&& after.graph == scan.graph && after.tids == scan.tids && after.unranked
                == scan.unranked
            &&& forall|i: int|
                0 <= i < lost ==> #[trigger] after.results[i] == scan.tids[found[i].1 as int]
            &&& lost == found.len() ==> scan.outcome(Ok(found)) == Ok::<(), ScanError>(())
            &&& lost < found.len() ==> scan.outcome(Ok(found)) == Err::<(), ScanError>(
                ScanError::UnmappedNode(found[lost].1),
            )
        }),
{
    lemma_mapped(found, scan.tids);
    let m = mapped(found, scan.tids) as int;
    if m < lost {
        assert(found[m].1 < scan.tids.len());
    }
    if lost < m {
        assert(found[lost].1 < scan.tids.len());
    }
}

/// A failed search fails the scan with its error, and hands out nothing.
pub proof fn failed_searches_fail_the_scan(scan: Scan, query: Seq<u32>, e: HnswError)
    ensures
        scan.started(query, Err(e)).results.len() == 0,
        scan.outcome(Err(e)) == Err::<(), ScanError>(ScanError::Search(e)),
{
}

/// A scan of an index whose bottom layer is connected, and whose every node has an
/// address, hands out as many rows as its setting says, or as many as may answer
/// if those are fewer; all of them where they are no more than the setting.
pub proof fn scans_of_connected_indexes_are_full<K: Fn(Kernel, &[u32], &[u32]) -> u32>(
    h: &Hnsw,
    scan: Scan,
    kernel: K,
    query: Seq<u32>,
    predicate: Option<&Predicate>,
    setting: i32,
)
    requires
        h.wf(),
        h@.nodes.len() > 0,
        scan.graph == h@,
        scan.tids.len() >= h@.nodes.len(),
        query.len() == h@.dim,
        setting >= 1,
        h@.connected(!selective(predicate)),
        selective(predicate) ==> {
            &&& h@.nodes.len() <= 4 * setting
            &&& (h@.max_layer + 1) * h@.nodes.len() <= 16 * setting
            &&& (h@.max_layer + 1) * h@.nodes.len() <= usize::MAX
        },
    ensures
        ({
            let found = scan_search(
                h@,
                kernel,
                query,
                match predicate {
                    Some(p) => Some(*p),
                    None => None,
                },
                setting,
            );
            let all = eligible_ids(h@, predicate);
            let after = scan.started(query, found);
            &&& scan.outcome(found) == Ok::<(), ScanError>(())
            &&& after.results.len() == (if all.len() < setting {
                all.len() as int
            } else {
                setting as int
            })
            &&& all.len() <= setting ==> forall|id: int| #[trigger]
                all.contains(id) ==> after.results.contains(scan.tids[id])
        }),
{
    let size = setting as nat;
    scans_search_at_the_setting(h, kernel, query, predicate, setting);
    connected_indexes_are_searched_in_full(h, kernel, query, predicate, size, size);
    let r = search_result(h.walk(kernel, query, predicate), size, size);
    let found = r->Ok_0;
    let all = eligible_ids(h@, predicate);
    assert forall|i: int| 0 <= i < found.len() implies (#[trigger] found[i]).1
        < scan.tids.len() by {
        assert(eligible(h@, predicate, found[i].1 as int));
    }
    scans_hand_out_every_answer(scan, query, found, found.len() as int);
    let after = scan.started(query, Ok(found));
    if all.len() <= setting {
        lemma_found_all(h@, kernel, query, predicate, found);
        assert forall|id: int| #[trigger] all.contains(id) implies after.results.contains(
            scan.tids[id],
        ) by {
            assert(among(found, id));
            let i = choose|i: int| 0 <= i < found.len() && (#[trigger] found[i]).1 == id;
            assert(after.results[i] == scan.tids[id]);
        }
    }
}

/// As many different answers as may answer are all of those.
proof fn lemma_found_all<K: Fn(Kernel, &[u32], &[u32]) -> u32>(
    g: Graph,
    kernel: K,
    query: Seq<u32>,
    predicate: Option<&Predicate>,
    found: Seq<(u32, usize)>,
)
    requires
        proper(g, kernel, query, predicate, found),
        eligible_ids(g, predicate).finite(),
        found.len() == eligible_ids(g, predicate).len(),
    ensures
        forall|id: int| #[trigger]
            eligible_ids(g, predicate).contains(id) ==> among(found, id),
{
    let all = eligible_ids(g, predicate);
    let ids = Seq::new(found.len(), |i: int| found[i].1 as int);
    assert(forall|i: int, j: int| 0 <= i < j < found.len() ==> found[i].1 != found[j].1) by {
        assert forall|i: int, j: int| 0 <= i < j < found.len() implies found[i].1
            != found[j].1 by {
            assert(precedes(found[i], found[j]));
        }
    }
    assert(ids.no_duplicates());
    ids.unique_seq_to_set();
    let some = ids.to_set();
    assert(some.subset_of(all)) by {
        assert forall|id: int| some.contains(id) implies all.contains(id) by {
            let i = choose|i: int| 0 <= i < ids.len() && ids[i] == id;
            assert(eligible(g, predicate, found[i].1 as int));
        }
    }
    vstd::set_lib::lemma_subset_equality(some, all);
    assert forall|id: int| #[trigger] all.contains(id) implies among(found, id) by {
        assert(some.contains(id));
        let i = choose|i: int| 0 <= i < ids.len() && ids[i] == id;
        assert(found[i].1 == id);
    }
}

/// A scan without an ordering returns each row that satisfies the predicate, and
/// each once: the live nodes, whatever else their rows hold, and the rows without
/// a vector. It fails exactly when such a node has no address, and names the first.
pub proof fn unordered_scans_return_each_match_once(scan: Scan, p: Predicate)
    requires
        scan.graph.nodes.len() <= usize::MAX,
    ensures
        ({
            let g = scan.graph;
            let nodes = Set::new(
                |id: int|
                    0 <= id < g.nodes.len() && !g.nodes[id].deleted && p.holds(g.nodes[id].attrs),
            );
            let rows = Set::new(
                |i: int| 0 <= i < scan.unranked.len() && p.holds(scan.unranked[i].attrs),
            );
            match scan.every_match(p) {
                Ok(found) => {
                    &&& forall|id: int| #[trigger]
                        nodes.contains(id) ==> id < scan.tids.len() && found.contains(scan.tids[id])
                    &&& forall|i: int| #[trigger]
                        rows.contains(i) ==> found.contains(scan.unranked[i].tid)
                    &&& nodes.finite() && rows.finite()
                    &&& found.len() == nodes.len() + rows.len()
                },
                Err(e) => exists|id: int|
                    {
                        &&& #[trigger] nodes.contains(id)
                        &&& id >= scan.tids.len()
                        &&& e == ScanError::UnmappedNode(id as usize)
                        &&& forall|other: int| #[trigger]
                            nodes.contains(other) && other >= scan.tids.len() ==> id <= other
                    },
            }
        }),
{
    let g = scan.graph;
    let n = g.nodes.len() as int;
    let m = scan.unranked.len() as int;
    let nodes = Set::new(
        |id: int| 0 <= id < g.nodes.len() && !g.nodes[id].deleted && p.holds(g.nodes[id].attrs),
    );
    let rows = Set::new(|i: int| 0 <= i < scan.unranked.len() && p.holds(scan.unranked[i].attrs));
    assert forall|id: int| 0 <= id < n implies matching_node(g, p, id) == #[trigger] nodes.contains(
        id,
    ) by {}
    let start = scan.tids.len() as int;
    lemma_next_matching(g, p, start);
    let lost = next_matching(g, p, start);
    lemma_matching_nodes_counted(g, scan.tids, p, n);
    lemma_matching_unranked_counted(scan.unranked, p, m);
    assert(nodes =~= Set::new(|id: int| 0 <= id < n && matching_node(g, p, id)));
    assert(rows =~= Set::new(|i: int| 0 <= i < m && p.holds(scan.unranked[i].attrs)));
    unordered_scans_return_every_match(scan, p);
    match scan.every_match(p) {
        Ok(found) => {
            assert forall|id: int| #[trigger] nodes.contains(id) implies id < scan.tids.len()
                && found.contains(scan.tids[id]) by {
                assert(matching_node(g, p, id));
            }
            assert forall|i: int| #[trigger] rows.contains(i) implies found.contains(
                scan.unranked[i].tid,
            ) by {
                assert(p.holds(scan.unranked[i].attrs));
            }
        },
        Err(e) => {
            assert(nodes.contains(lost));
        },
    }
}

/// Where the search for a matching node ends, nothing before it matches.
proof fn lemma_next_matching(g: Graph, p: Predicate, from: int)
    ensures
        next_matching(g, p, from) >= from,
        next_matching(g, p, from) < g.nodes.len() ==> matching_node(
            g,
            p,
            next_matching(g, p, from),
        ),
        forall|id: int|
            from <= id < next_matching(g, p, from) && id < g.nodes.len() ==> !(
            #[trigger] matching_node(g, p, id)),
    decreases g.nodes.len() - from,
{
    if !(from >= g.nodes.len() || matching_node(g, p, from)) {
        lemma_next_matching(g, p, from + 1);
    }
}

proof fn lemma_matching_nodes_counted(g: Graph, tids: Seq<TidPair>, p: Predicate, upto: int)
    requires
        0 <= upto,
    ensures
        Set::new(|id: int| 0 <= id < upto && matching_node(g, p, id)).finite(),
        matching_nodes(g, tids, p, upto).len() == Set::new(
            |id: int| 0 <= id < upto && matching_node(g, p, id),
        ).len(),
    decreases upto,
{
    let all = Set::new(|id: int| 0 <= id < upto && matching_node(g, p, id));
    if upto == 0 {
        assert(all =~= Set::<int>::empty());
    } else {
        lemma_matching_nodes_counted(g, tids, p, upto - 1);
        let some = Set::new(|id: int| 0 <= id < upto - 1 && matching_node(g, p, id));
        if matching_node(g, p, upto - 1) {
            assert(all =~= some.insert(upto - 1));
        } else {
            assert(all =~= some);
        }
    }
}

proof fn lemma_matching_unranked_counted(rows: Seq<UnrankedRow>, p: Predicate, upto: int)
    requires
        0 <= upto,
    ensures
        Set::new(|i: int| 0 <= i < upto && p.holds(rows[i].attrs)).finite(),
        matching_unranked(rows, p, upto).len() == Set::new(
            |i: int| 0 <= i < upto && p.holds(rows[i].attrs),
        ).len(),
    decreases upto,
{
    let all = Set::new(|i: int| 0 <= i < upto && p.holds(rows[i].attrs));
    if upto == 0 {
        assert(all =~= Set::<int>::empty());
    } else {
        lemma_matching_unranked_counted(rows, p, upto - 1);
        let some = Set::new(|i: int| 0 <= i < upto - 1 && p.holds(rows[i].attrs));
        if p.holds(rows[upto - 1].attrs) {
            assert(all =~= some.insert(upto - 1));
        } else {
            assert(all =~= some);
        }
    }
}

} // verus!
