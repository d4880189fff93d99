//! Building, extending and vacuuming an index.

use super::opclass::VectorKind;
use super::payload::TidPair;
use super::pending::{
    apply_one, borrowed, builder_for, current_generation, load_writable, owned_components, writable,
    ApplyError, Flush, RowValue, StageError,
};
use super::storage::{
    fetch_ok, load_index, loaded, meta_of, pages_of, Fork, LoadError, MetaError,
};
use super::stored::{unranked_rows, Index, Stored, Unranked, UnrankedRow};
use crate::distance::{kernel_ok, Kernel};
use crate::filter::AttrValue;
use crate::hnsw::graph::{deleted_in, Graph, Node};
use crate::hnsw::insert::level_ok;
use crate::hnsw::{Hnsw, HnswParams};
use vstd::prelude::*;
use vstd::slice::slice_to_vec;

verus! {

/// An index being built.
pub struct BuildState {
    index: Index,
    kind: VectorKind,
}

impl View for BuildState {
    type V = Stored;

    closed spec fn view(&self) -> Stored {
        self.index@
    }
}

impl BuildState {
    /// The graph is sound, its links stay within their layers, and every node
    /// has an address.
    pub closed spec fn wf(&self) -> bool {
        self.index.hnsw.wf() && self@.in_step() && self@.graph.layered()
    }

    /// The type of the indexed column.
    pub closed spec fn spec_kind(&self) -> VectorKind {
        self.kind
    }

    /// An empty index.
    pub fn new(params: HnswParams, kind: VectorKind) -> (r: Self)
        requires
            params.m <= usize::MAX / 2,
        ensures
            r.wf(),
            r.spec_kind() == kind,
            r@ == (Stored {
                graph: Graph::empty(params),
                tids: Seq::empty(),
                unranked: Seq::empty(),
            }),
    {
        BuildState { index: Index::empty(params), kind }
    }

    /// The type of the indexed column.
    pub fn kind(&self) -> (r: VectorKind)
        ensures
            r == self.spec_kind(),
    {
        self.kind
    }

    /// Add one heap row. A `NULL` vector does not become a node: a distance scan
    /// cannot rank it. Its row is kept beside the graph.
    pub fn add_row<K: Fn(Kernel, &[u32], &[u32]) -> u32, L: Fn(u64, usize) -> usize>(
        &mut self,
        kernel: &K,
        level: &L,
        vector: Option<Vec<u32>>,
        attrs: Vec<AttrValue>,
        tid: TidPair,
    ) -> (r: Result<(), ApplyError>)
        requires
            old(self).wf(),
            kernel_ok(*kernel),
            level_ok(*level),
        ensures
            final(self).wf(),
            final(self).spec_kind() == old(self).spec_kind(),
            ({
                let (s, want) = old(self)@.apply(
                    builder_for(*kernel, *level, old(self)@.graph.metric),
                    (RowValue { vector: owned_components(vector), attrs: attrs@, tid }),
                );
                &&& final(self)@ == s
                &&& r == want
            }),
    {
        proof {
            super::pending::lemma_apply(
                self@,
                builder_for(*kernel, *level, self@.graph.metric),
                RowValue { vector: owned_components(vector), attrs: attrs@, tid },
            );
        }
        apply_one(kernel, level, &mut self.index, borrowed(&vector), attrs.as_slice(), tid)
    }

    /// Rows stored so far, those without a vector included.
    pub fn index_tuples(&self) -> (r: u128)
        ensures
            r == self@.tids.len() + self@.unranked.len(),
    {
        self.index.tids.len() as u128 + self.index.unranked.len() as u128
    }

    /// The image to store.
    pub fn blob(&self) -> (r: Vec<u8>)
        requires
            self.wf(),
        ensures
            r@ == self@.image(),
    {
        self.index.image()
    }
}

/// The image of an empty index, which an unlogged one is reset to after a crash.
pub fn empty_index(params: HnswParams) -> (r: Vec<u8>)
    requires
        params.m <= usize::MAX / 2,
    ensures
        r@ == (Stored {
            graph: Graph::empty(params),
            tids: Seq::empty(),
            unranked: Seq::empty(),
        }).image(),
{
    let index = Index::empty(params);
    index.image()
}

/// What adding a heap row to the stored index comes to: an image and the
/// generation it replaces.
pub open spec fn row_added<
    K: Fn(Kernel, &[u32], &[u32]) -> u32,
    L: Fn(u64, usize) -> usize,
>(
    row: RowValue,
    fork: Fork,
    pages: spec_fn(u32) -> Seq<u8>,
    kernel: K,
    level: L,
) -> Result<(Seq<u8>, u64), StageError> {
    match (meta_of(fork, pages(0)), writable(fork, pages)) {
        (Err(e), _) => Err(StageError::Load(LoadError::Meta(e))),
        (Ok(_), Err(e)) => Err(e),
        (Ok((_, generation)), Ok(s)) => match s.apply(
            builder_for(kernel, level, s.graph.metric),
            row,
        ) {
            (_, Err(e)) => Err(StageError::Apply(e)),
            (t, Ok(_)) => Ok((t.image(), generation)),
        },
    }
}

/// Add one heap row to the stored index: read it back whole, insert, and give
/// the image that replaces it. The graph is exactly the one that a build in the
/// same order would have.
pub fn insert_row<
    F: Fn(u32) -> Vec<u8>,
    K: Fn(Kernel, &[u32], &[u32]) -> u32,
    L: Fn(u64, usize) -> usize,
>(
    fork: Fork,
    fetch: &F,
    kernel: &K,
    level: &L,
    vector: Option<Vec<u32>>,
    attrs: Vec<AttrValue>,
    tid: TidPair,
) -> (r: Result<Flush, StageError>)
    requires
        fetch_ok(*fetch),
        kernel_ok(*kernel),
        level_ok(*level),
    ensures
        ({
            let row = RowValue { vector: owned_components(vector), attrs: attrs@, tid };
            match (r, row_added(row, fork, pages_of(*fetch), *kernel, *level)) {
                (Ok(f), Ok((blob, generation))) => f.blob@ == blob && f.generation == generation,
                (Err(e), Err(f)) => e == f,
                _ => false,
            }
        }),
{
    let generation: u64 = match current_generation(fork, fetch) {
        Err(e) => {
            return Err(StageError::Load(e));
        },
        Ok(generation) => generation,
    };
    let mut index = match load_writable(fork, fetch) {
        Err(e) => {
            return Err(e);
        },
        Ok(index) => index,
    };
    match apply_one(kernel, level, &mut index, borrowed(&vector), attrs.as_slice(), tid) {
        Err(e) => Err(StageError::Apply(e)),
        Ok(_) => {
            let blob = index.image();
            Ok(Flush { blob, generation })
        },
    }
}

/// The graph with the nodes of dead rows tombstoned.
pub open spec fn swept(g: Graph, dead: Seq<bool>) -> Graph {
    Graph {
        nodes: Seq::new(
            g.nodes.len(),
            |i: int|
                Node {
                    deleted: g.nodes[i].deleted || (i < dead.len() && dead[i]),
                    ..g.nodes[i]
                },
        ),
        ..g
    }
}

/// Live nodes of dead rows among the first `upto`.
pub open spec fn newly_dead(g: Graph, dead: Seq<bool>, upto: int) -> nat
    decreases upto,
{
    if upto <= 0 {
        0
    } else {
        newly_dead(g, dead, upto - 1) + (if dead[upto - 1] && !g.nodes[upto - 1].deleted {
            1nat
        } else {
            0
        })
    }
}

proof fn lemma_swept_count(g: Graph, dead: Seq<bool>, upto: int)
    requires
        0 <= upto <= g.nodes.len(),
        dead.len() == g.nodes.len(),
    ensures
        deleted_in(swept(g, dead).nodes.take(upto)) == deleted_in(g.nodes.take(upto))
            + newly_dead(g, dead, upto),
    decreases upto,
{
    let h = swept(g, dead);
    if upto > 0 {
        lemma_swept_count(g, dead, upto - 1);
        assert(h.nodes.take(upto).drop_last() =~= h.nodes.take(upto - 1));
        assert(g.nodes.take(upto).drop_last() =~= g.nodes.take(upto - 1));
    }
}

/// Tombstone every node whose heap row is dead, and return how many that are
/// new. The space behind a dead row is reused once every index has dropped it,
/// so a node left pointing there would later resolve to another row.
pub fn bulk_delete(hnsw: &mut Hnsw, dead: &[bool]) -> (removed: usize)
    requires
        old(hnsw).wf(),
        dead@.len() == old(hnsw)@.nodes.len(),
    ensures
        final(hnsw).wf(),
        final(hnsw)@ == swept(old(hnsw)@, dead@),
        removed == newly_dead(old(hnsw)@, dead@, dead@.len() as int),
        removed == final(hnsw)@.deleted_count() - old(hnsw)@.deleted_count(),
{
    let ghost g = hnsw@;
    let before: usize = hnsw.deleted_count();
    let mut id: usize = 0;
    assert(hnsw@.nodes =~= swept(g, dead@.take(0)).nodes);
    while id < dead.len()
        invariant
            g == old(hnsw)@,
            hnsw.wf(),
            dead@.len() == g.nodes.len(),
            id <= dead@.len(),
            hnsw@ == swept(g, dead@.take(id as int)),
        decreases dead@.len() - id,
    {
        if dead[id] {
            let ghost now = hnsw@;
            let _ = hnsw.delete(id);
            assert(hnsw@ == now.with_deleted(id as int));
        }
        assert(hnsw@.nodes =~= swept(g, dead@.take(id + 1)).nodes);
        id += 1;
    }
    proof {
        assert(dead@.take(dead@.len() as int) =~= dead@);
        lemma_swept_count(g, dead@, dead@.len() as int);
        assert(g.nodes.take(g.nodes.len() as int) =~= g.nodes);
        assert(hnsw@.nodes.take(g.nodes.len() as int) =~= hnsw@.nodes);
    }
    hnsw.deleted_count() - before
}

/// Vacuuming leaves links, vectors and rows alone: only the flags of dead rows'
/// nodes change, so every live row is still returned exactly as before. Doing it
/// again removes nothing.
pub proof fn vacuum_only_marks(g: Graph, dead: Seq<bool>)
    requires
        g.valid(),
        dead.len() == g.nodes.len(),
    ensures
        swept(g, dead).valid(),
        g.layered() ==> swept(g, dead).layered(),
        forall|i: int|
            0 <= i < g.nodes.len() ==> (#[trigger] swept(g, dead).nodes[i]).deleted == (
            g.nodes[i].deleted || dead[i]),
        forall|i: int|
            0 <= i < g.nodes.len() && !dead[i] ==> #[trigger] swept(g, dead).nodes[i]
                == g.nodes[i],
        swept(swept(g, dead), dead) == swept(g, dead),
        newly_dead(swept(g, dead), dead, dead.len() as int) == 0,
{
    let h = swept(g, dead);
    assert forall|id: int| 0 <= id < h.nodes.len() implies #[trigger] h.node_ok(id) by {
        assert(g.node_ok(id));
        assert forall|layer: int| 0 <= layer < h.nodes[id].layers.len() implies h.list_ok(
            layer,
            #[trigger] h.nodes[id].layers[layer],
        ) by {
            assert(g.list_ok(layer, g.nodes[id].layers[layer]));
        }
    }
    if g.layered() {
        assert forall|id: int, layer: int, i: int|
            0 <= id < h.nodes.len() && 0 <= layer < h.nodes[id].layers.len() && 0 <= i
                < h.nodes[id].layers[layer].len() implies h.on_layer(
            #[trigger] h.nodes[id].layers[layer][i] as int,
            layer,
        ) by {
            assert(g.on_layer(g.nodes[id].layers[layer][i] as int, layer));
        }
    }
    assert(swept(h, dead).nodes =~= h.nodes);
    lemma_none_left(h, dead, dead.len() as int);
}

proof fn lemma_none_left(h: Graph, dead: Seq<bool>, upto: int)
    requires
        0 <= upto <= dead.len(),
        forall|i: int| 0 <= i < dead.len() && dead[i] ==> (#[trigger] h.nodes[i]).deleted,
    ensures
        newly_dead(h, dead, upto) == 0,
    decreases upto,
{
    if upto > 0 {
        lemma_none_left(h, dead, upto - 1);
        assert(dead[upto - 1] ==> h.nodes[upto - 1].deleted);
    }
}

/// The rows without a vector that are left when some are gone.
pub open spec fn survivors(rows: Seq<UnrankedRow>, gone: Seq<bool>) -> Seq<UnrankedRow>
    decreases rows.len(),
{
    if rows.len() == 0 {
        rows
    } else {
        let before = survivors(rows.drop_last(), gone);
        if gone[rows.len() - 1] {
            before
        } else {
            before.push(rows.last())
        }
    }
}

/// Addresses of rows without a vector.
pub open spec fn unranked_tids(rows: Seq<UnrankedRow>) -> Seq<TidPair> {
    Seq::new(rows.len(), |i: int| rows[i].tid)
}

/// A row is one of those that stay.
pub open spec fn stays(rows: Seq<UnrankedRow>, gone: Seq<bool>, row: UnrankedRow) -> bool {
    exists|i: int| 0 <= i < rows.len() && !gone[i] && #[trigger] rows[i] == row
}

/// Dead rows without a vector leave; the others stay, as they are, and nothing
/// else comes in. Where none is dead, nothing changes.
pub proof fn only_dead_unranked_rows_leave(rows: Seq<UnrankedRow>, gone: Seq<bool>)
    ensures
        survivors(rows, gone).len() <= rows.len(),
        forall|i: int|
            0 <= i < rows.len() && !gone[i] ==> survivors(rows, gone).contains(#[trigger] rows[i]),
        forall|k: int|
            0 <= k < survivors(rows, gone).len() ==> stays(
                rows,
                gone,
                #[trigger] survivors(rows, gone)[k],
            ),
        (forall|i: int| 0 <= i < rows.len() ==> !(#[trigger] gone[i])) ==> survivors(rows, gone)
            == rows,
{
    lemma_survivors_stay(rows, gone);
    lemma_survivors_kept(rows, gone);
    if forall|i: int| 0 <= i < rows.len() ==> !(#[trigger] gone[i]) {
        lemma_all_survive(rows, gone);
    }
}

proof fn lemma_survivors_kept(rows: Seq<UnrankedRow>, gone: Seq<bool>)
    ensures
        survivors(rows, gone).len() <= rows.len(),
        forall|i: int|
            0 <= i < rows.len() && !gone[i] ==> survivors(rows, gone).contains(#[trigger] rows[i]),
    decreases rows.len(),
{
    if rows.len() > 0 {
        let (head, last) = (rows.drop_last(), rows.len() - 1);
        lemma_survivors_kept(head, gone);
        let before = survivors(head, gone);
        let all = survivors(rows, gone);
        assert forall|i: int| 0 <= i < rows.len() && !gone[i] implies all.contains(
            #[trigger] rows[i],
        ) by {
            if i < last {
                assert(before.contains(head[i]));
                let k = choose|k: int| 0 <= k < before.len() && before[k] == head[i];
                assert(all[k] == rows[i]);
            } else {
                assert(all[all.len() - 1] == rows[i]);
            }
        }
    }
}

proof fn lemma_survivors_stay(rows: Seq<UnrankedRow>, gone: Seq<bool>)
    ensures
        forall|k: int|
            0 <= k < survivors(rows, gone).len() ==> stays(
                rows,
                gone,
                #[trigger] survivors(rows, gone)[k],
            ),
    decreases rows.len(),
{
    if rows.len() > 0 {
        let (head, last) = (rows.drop_last(), rows.len() - 1);
        lemma_survivors_stay(head, gone);
        let before = survivors(head, gone);
        let all = survivors(rows, gone);
        assert forall|k: int| 0 <= k < all.len() implies stays(rows, gone, #[trigger] all[k]) by {
            if k < before.len() {
                assert(stays(head, gone, before[k]));
                let i = choose|i: int| 0 <= i < head.len() && !gone[i] && head[i] == before[k];
                assert(rows[i] == all[k]);
            } else {
                assert(rows[last] == all[k]);
            }
        }
    }
}

proof fn lemma_all_survive(rows: Seq<UnrankedRow>, gone: Seq<bool>)
    requires
        forall|i: int| 0 <= i < rows.len() ==> !(#[trigger] gone[i]),
    ensures
        survivors(rows, gone) == rows,
    decreases rows.len(),
{
    if rows.len() > 0 {
        lemma_all_survive(rows.drop_last(), gone);
        assert(!gone[rows.len() - 1]);
        assert(survivors(rows, gone) =~= rows);
    }
}

/// Leave out the rows that are gone.
fn keep_survivors(rows: &[Unranked], gone: &[bool]) -> (kept: Vec<Unranked>)
    requires
        gone@.len() == rows@.len(),
    ensures
        unranked_rows(kept@) == survivors(unranked_rows(rows@), gone@),
        kept@.len() <= rows@.len(),
{
    let ghost all = unranked_rows(rows@);
    let mut kept: Vec<Unranked> = Vec::new();
    let mut i: usize = 0;
    assert(unranked_rows(kept@) =~= survivors(all.take(0), gone@));
    while i < rows.len()
        invariant
            gone@.len() == rows@.len(),
            i <= rows@.len(),
            kept@.len() <= i,
            all == unranked_rows(rows@),
            unranked_rows(kept@) == survivors(all.take(i as int), gone@),
        decreases rows@.len() - i,
    {
        let ghost before = unranked_rows(kept@);
        let row = &rows[i];
        proof {
            let next = all.take(i + 1);
            assert(next.drop_last() =~= all.take(i as int));
            assert(next.last() == row@);
        }
        if !gone[i] {
            let copy = Unranked { tid: row.tid, attrs: slice_to_vec(row.attrs.as_slice()) };
            kept.push(copy);
            assert(unranked_rows(kept@) =~= before.push(row@));
        }
        i += 1;
    }
    assert(all.take(all.len() as int) =~= all);
    kept
}

/// What one pass of a vacuum came to.
pub struct VacuumPass {
    /// Rows removed from the index.
    pub removed: u128,
    /// Rows left in it.
    pub live: u128,
    /// The image to store, when anything was removed.
    pub rewrite: Option<Flush>,
}

/// `dead` is what a verdict says of each address.
pub open spec fn judged<D: Fn(u32, u16) -> bool>(
    verdict: D,
    tids: Seq<TidPair>,
    dead: Seq<bool>,
) -> bool {
    &&& dead.len() == tids.len()
    &&& forall|i: int|
        0 <= i < tids.len() ==> call_ensures(verdict, (tids[i].0, tids[i].1), #[trigger] dead[i])
}

/// The pass does what these verdicts ask for: `dead` of the nodes' rows, and
/// `gone` of the rows without a vector.
pub open spec fn vacuumed(
    pass: VacuumPass,
    s: Stored,
    generation: u64,
    dead: Seq<bool>,
    gone: Seq<bool>,
) -> bool {
    let t = Stored {
        graph: swept(s.graph, dead),
        unranked: survivors(s.unranked, gone),
        ..s
    };
    &&& pass.removed == newly_dead(s.graph, dead, dead.len() as int) + s.unranked.len()
        - t.unranked.len()
    &&& pass.live == t.graph.nodes.len() - t.graph.deleted_count() + t.unranked.len()
    &&& match pass.rewrite {
        None => pass.removed == 0,
        Some(f) => {
            &&& pass.removed > 0
            &&& f.blob@ == t.image()
            &&& f.generation == generation
        },
    }
}

/// Ask for the verdict on each address.
fn judge<D: Fn(u32, u16) -> bool>(verdict: &D, tids: &[TidPair]) -> (dead: Vec<bool>)
    requires
        forall|block: u32, offset: u16| #[trigger] call_requires(*verdict, (block, offset)),
    ensures
        judged(*verdict, tids@, dead@),
{
    let mut dead: Vec<bool> = Vec::new();
    let mut i: usize = 0;
    while i < tids.len()
        invariant
            forall|block: u32, offset: u16| #[trigger] call_requires(*verdict, (block, offset)),
            i <= tids@.len(),
            judged(*verdict, tids@.take(i as int), dead@),
        decreases tids@.len() - i,
    {
        let (block, offset) = tids[i];
        let answer: bool = verdict(block, offset);
        let ghost before = dead@;
        dead.push(answer);
        proof {
            let seen = tids@.take(i + 1);
            assert forall|k: int| 0 <= k < seen.len() implies call_ensures(
                *verdict,
                (seen[k].0, seen[k].1),
                #[trigger] dead@[k],
            ) by {
                if k < i {
                    assert(dead@[k] == before[k]);
                    assert(tids@.take(i as int)[k] == seen[k]);
                }
            }
        }
        i += 1;
    }
    assert(tids@.take(tids@.len() as int) =~= tids@);
    dead
}

/// The addresses of rows without a vector.
fn addresses_of(rows: &[Unranked]) -> (tids: Vec<TidPair>)
    ensures
        tids@ == unranked_tids(unranked_rows(rows@)),
{
    let mut tids: Vec<TidPair> = Vec::new();
    let mut i: usize = 0;
    while i < rows.len()
        invariant
            i <= rows@.len(),
            tids@.len() == i,
            forall|k: int| 0 <= k < i ==> #[trigger] tids@[k] == rows@[k].tid,
        decreases rows@.len() - i,
    {
        tids.push(rows[i].tid);
        i += 1;
    }
    assert(tids@ =~= unranked_tids(unranked_rows(rows@)));
    tids
}

/// One pass of a vacuum over the stored index. `verdict` says whether the heap
/// row at an address is dead. Nothing is rewritten when nothing was removed.
pub fn vacuum_pass<F: Fn(u32) -> Vec<u8>, D: Fn(u32, u16) -> bool>(
    fork: Fork,
    fetch: &F,
    verdict: &D,
) -> (r: Result<VacuumPass, LoadError>)
    requires
        fetch_ok(*fetch),
        forall|block: u32, offset: u16| #[trigger] call_requires(*verdict, (block, offset)),
    ensures
        match (r, meta_of(fork, pages_of(*fetch)(0)), loaded(fork, pages_of(*fetch))) {
            (Err(e), Err(f), _) => e == LoadError::Meta(f),
            (Err(e), Ok(_), Err(f)) => e == f,
            (Ok(pass), Ok((_, generation)), Ok(s)) => exists|dead: Seq<bool>, gone: Seq<bool>|
                #[trigger] judged(*verdict, s.tids, dead) && #[trigger] judged(
                    *verdict,
                    unranked_tids(s.unranked),
                    gone,
                ) && vacuumed(pass, s, generation, dead, gone),
            _ => false,
        },
{
    let generation: u64 = match current_generation(fork, fetch) {
        Err(e) => {
            return Err(e);
        },
        Ok(generation) => generation,
    };
    let mut index = match load_index(fork, fetch) {
        Err(e) => {
            return Err(e);
        },
        Ok(index) => index,
    };
    let ghost s = index@;
    let dead = judge(verdict, index.tids.as_slice());
    let gone = judge(verdict, addresses_of(index.unranked.as_slice()).as_slice());
    let kept = keep_survivors(index.unranked.as_slice(), gone.as_slice());
    let swept_out: usize = index.unranked.len() - kept.len();
    let marked: usize = bulk_delete(&mut index.hnsw, dead.as_slice());
    index.unranked = kept;
    let removed: u128 = marked as u128 + swept_out as u128;
    let live: u128 = index.hnsw.live_len() as u128 + index.unranked.len() as u128;
    let rewrite = if removed > 0 {
        Some(Flush { blob: index.image(), generation })
    } else {
        None
    };
    let pass = VacuumPass { removed, live, rewrite };
    proof {
        assert(judged(*verdict, s.tids, dead@));
        assert(judged(*verdict, unranked_tids(s.unranked), gone@));
        assert(vacuumed(pass, s, generation, dead@, gone@));
    }
    Ok(pass)
}

/// What a vacuum's last step reports.
#[derive(Debug, Clone, Copy, PartialEq, Eq, Structural)]
pub enum CleanupReport {
    /// What came in, as it is.
    Unchanged,
    /// The page count.
    Pages,
    /// The page count, and the heap's row count as the index's.
    PagesAndRows,
}

/// What to report at the end of a vacuum. An analyze-only pass touches nothing.
/// Rows are only counted when no earlier pass did: every live heap row has an
/// index entry, so the heap's count is the index's.
pub fn cleanup_report(analyze_only: bool, counted: bool) -> (r: CleanupReport)
    ensures
        r == (if analyze_only {
            CleanupReport::Unchanged
        } else if counted {
            CleanupReport::Pages
        } else {
            CleanupReport::PagesAndRows
        }),
{
    if analyze_only {
        CleanupReport::Unchanged
    } else if counted {
        CleanupReport::Pages
    } else {
        CleanupReport::PagesAndRows
    }
}

/// The rows that a vacuum counts as removed are the live nodes of dead rows and
/// the dead rows without a vector, each once; those it counts as live are the
/// rest. It rewrites the image exactly when something was removed, at the
/// generation it read, and writes everything as it was but for those.
pub proof fn vacuums_count_and_write_what_they_remove(
    pass: VacuumPass,
    s: Stored,
    generation: u64,
    dead: Seq<bool>,
    gone: Seq<bool>,
    t: Stored,
)
    requires
        vacuumed(pass, s, generation, dead, gone),
        s.in_step(),
        dead.len() == s.graph.nodes.len(),
        gone.len() == s.unranked.len(),
        t.tids == s.tids,
        t.graph == (Graph { nodes: t.graph.nodes, ..s.graph }),
        t.graph.nodes.len() == s.graph.nodes.len(),
        forall|i: int|
            0 <= i < s.graph.nodes.len() ==> #[trigger] t.graph.nodes[i] == (Node {
                deleted: s.graph.nodes[i].deleted || dead[i],
                ..s.graph.nodes[i]
            }),
        t.unranked == survivors(s.unranked, gone),
    ensures
        ({
            let n = s.graph.nodes.len();
            let nodes = Set::new(|i: int| 0 <= i < n && dead[i] && !s.graph.nodes[i].deleted);
            let rows = Set::new(|i: int| 0 <= i < s.unranked.len() && gone[i]);
            &&& nodes.finite() && rows.finite()
            &&& pass.removed == nodes.len() + rows.len()
            &&& pass.live == n - s.graph.deleted_count() - nodes.len() + s.unranked.len()
                - rows.len()
            &&& pass.removed == 0 ==> pass.rewrite is None
            &&& pass.removed > 0 ==> (pass.rewrite matches Some(f) && f.generation == generation
                && f.blob@ == t.image())
        }),
{
    let n = s.graph.nodes.len() as int;
    let swept_graph = swept(s.graph, dead);
    assert(t.graph.nodes =~= swept_graph.nodes);
    assert(t.graph == swept_graph);
    lemma_newly_dead_counted(s.graph, dead, n);
    lemma_survivors_counted(s.unranked, gone);
    lemma_swept_count(s.graph, dead, n);
    assert(s.graph.nodes.take(n) =~= s.graph.nodes);
    assert(swept_graph.nodes.take(n) =~= swept_graph.nodes);
    assert(t == (Stored {
        graph: swept(s.graph, dead),
        unranked: survivors(s.unranked, gone),
        ..s
    }));
}

proof fn lemma_newly_dead_counted(g: Graph, dead: Seq<bool>, upto: int)
    requires
        0 <= upto,
    ensures
        Set::new(|i: int| 0 <= i < upto && dead[i] && !g.nodes[i].deleted).finite(),
        newly_dead(g, dead, upto) == Set::new(
            |i: int| 0 <= i < upto && dead[i] && !g.nodes[i].deleted,
        ).len(),
    decreases upto,
{
    let all = Set::new(|i: int| 0 <= i < upto && dead[i] && !g.nodes[i].deleted);
    if upto == 0 {
        assert(all =~= Set::<int>::empty());
    } else {
        lemma_newly_dead_counted(g, dead, upto - 1);
        let some = Set::new(|i: int| 0 <= i < upto - 1 && dead[i] && !g.nodes[i].deleted);
        if dead[upto - 1] && !g.nodes[upto - 1].deleted {
            assert(all =~= some.insert(upto - 1));
        } else {
            assert(all =~= some);
        }
    }
}

proof fn lemma_survivors_counted(rows: Seq<UnrankedRow>, gone: Seq<bool>)
    ensures
        Set::new(|i: int| 0 <= i < rows.len() && gone[i]).finite(),
        survivors(rows, gone).len() + Set::new(|i: int| 0 <= i < rows.len() && gone[i]).len()
            == rows.len(),
    decreases rows.len(),
{
    let all = Set::new(|i: int| 0 <= i < rows.len() && gone[i]);
    if rows.len() == 0 {
        assert(all =~= Set::<int>::empty());
    } else {
        let head = rows.drop_last();
        let last = rows.len() - 1;
        lemma_survivors_counted(head, gone);
        let some = Set::new(|i: int| 0 <= i < head.len() && gone[i]);
        if gone[last] {
            assert(all =~= some.insert(last));
        } else {
            assert(all =~= some);
        }
    }
}

/// The rows without a vector that outlive a vacuum keep their order: taking one
/// more row into account adds it at the end, unless it is gone.
pub proof fn survivors_keep_their_order(rows: Seq<UnrankedRow>, gone: Seq<bool>, row: UnrankedRow)
    ensures
        survivors(Seq::empty(), gone).len() == 0,
        gone[rows.len() as int] ==> survivors(rows.push(row), gone) == survivors(rows, gone),
        !gone[rows.len() as int] ==> survivors(rows.push(row), gone) == survivors(
            rows,
            gone,
        ).push(row),
{
    assert(rows.push(row).drop_last() =~= rows);
}

/// Adding a row to the stored index writes what replaying that row onto it gives,
/// at the generation that was read.
pub proof fn inserting_a_row_is_replaying_it<
    K: Fn(Kernel, &[u32], &[u32]) -> u32,
    L: Fn(u64, usize) -> usize,
>(
    row: RowValue,
    fork: Fork,
    pages: spec_fn(u32) -> Seq<u8>,
    kernel: K,
    level: L,
    len: usize,
    generation: u64,
    s: Stored,
)
    requires
        meta_of(fork, pages(0)) == Ok::<(usize, u64), MetaError>((len, generation)),
        loaded(fork, pages) == Ok::<Stored, LoadError>(s),
    ensures
        row_added(row, fork, pages, kernel, level) == (match s.replay(
            builder_for(kernel, level, s.graph.metric),
            seq![row],
        ) {
            (t, Ok(_)) => Ok::<(Seq<u8>, u64), StageError>((t.image(), generation)),
            (_, Err(e)) => Err(StageError::Apply(e)),
        }),
{
    let b = builder_for(kernel, level, s.graph.metric);
    assert(seq![row].drop_last() =~= Seq::<RowValue>::empty());
    assert(s.replay(b, Seq::<RowValue>::empty()) == (s, Ok::<(), ApplyError>(())));
}

} // verus!
