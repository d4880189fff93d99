//! Deferred writes.
//!
//! Every write replaces the whole stored image, so a transaction's inserts go to
//! a graph in memory and are written back once, when it ends. The rows are kept
//! beside the graph: if another writer was there in between, they are replayed
//! onto its image rather than written over it.
//!
//! A savepoint forces no write-back. Rolling back to it undoes the rows that are
//! still pending; what was written back by then stays. An index that is rebuilt
//! has what was pending for it set aside, and gets it back if the rebuild is
//! undone.

use super::cache::CacheKey;
use super::payload::TidPair;
use super::storage::{
    fetch_ok, load_index, loaded, meta_of, pages_of, read_meta, Fork, LoadError, MetaError,
};
use super::stored::{Index, Stored, Unranked, UnrankedRow};
use crate::distance::{kernel_ok, Kernel};
use crate::filter::AttrValue;
use crate::hnsw::insert::{draws, level_ok, Builder};
use crate::hnsw::laws::insert_adds_one_node;
use crate::hnsw::search::distances;
use crate::hnsw::HnswError;
use crate::vector::Metric;
use vstd::prelude::*;
use vstd::slice::slice_to_vec;

verus! {

/// A row as a value. A row without a vector goes beside the graph.
pub struct RowValue {
    pub vector: Option<Seq<u32>>,
    pub attrs: Seq<AttrValue>,
    pub tid: TidPair,
}

/// Why a row cannot be added.
#[derive(Debug, Clone, Copy, PartialEq, Eq, Structural)]
pub enum ApplyError {
    Insert(HnswError),
    /// The graph and the address table differ in length.
    OutOfStep,
    /// The graph would outgrow its arrays.
    NoRoom,
    /// The row would be linked, on some layer, to a node that a stray link of the
    /// graph led to and that has no list there to link back from.
    Strays,
}

impl ApplyError {
    /// The text a user sees.
    pub open spec fn text(self) -> Seq<char> {
        match self {
            ApplyError::Insert(e) => e.text(),
            ApplyError::OutOfStep => "index graph and heap-pointer table are out of step"@,
            ApplyError::NoRoom => "index graph cannot grow any further"@,
            ApplyError::Strays => "corrupted index: a link leaves its layer"@,
        }
    }

    /// The text a user sees.
    pub fn message(&self) -> (s: String)
        ensures
            s@ == self.text(),
    {
        let mut s = String::new();
        match self {
            ApplyError::Insert(e) => {
                return e.message();
            },
            ApplyError::OutOfStep => {
                s.append("index graph and heap-pointer table are out of step");
            },
            ApplyError::NoRoom => {
                s.append("index graph cannot grow any further");
            },
            ApplyError::Strays => {
                s.append("corrupted index: a link leaves its layer");
            },
        }
        assert(s@ =~= self.text());
        s
    }
}

/// Distances and level draws for graphs of a metric.
pub open spec fn builder_for<
    K: Fn(Kernel, &[u32], &[u32]) -> u32,
    L: Fn(u64, usize) -> usize,
>(kernel: K, level: L, metric: Metric) -> Builder {
    Builder { dist: distances(kernel, metric), level: draws(level) }
}

impl Stored {
    /// The index with a row added, and what adding it answers.
    pub open spec fn apply(self, b: Builder, row: RowValue) -> (Stored, Result<(), ApplyError>) {
        match row.vector {
            None => {
                let more = UnrankedRow { tid: row.tid, attrs: row.attrs };
                (Stored { unranked: self.unranked.push(more), ..self }, Ok(()))
            },
            Some(vector) => self.place(b, vector, row.attrs, row.tid),
        }
    }

    /// The index with a row placed in the graph, and what placing it answers.
    pub open spec fn place(
        self,
        b: Builder,
        vector: Seq<u32>,
        attrs: Seq<AttrValue>,
        tid: TidPair,
    ) -> (Stored, Result<(), ApplyError>) {
        let grown = b.inserted(self.graph, vector, attrs);
        if !b.has_room(self.graph, vector) {
            (self, Err(ApplyError::NoRoom))
        } else {
            match b.insert_result(self.graph, vector) {
                Err(e) => (Stored { graph: grown, ..self }, Err(ApplyError::Insert(e))),
                Ok(id) => if b.strays(self.graph, vector, attrs) {
                    (Stored { graph: grown, ..self }, Err(ApplyError::Strays))
                } else if id != self.tids.len() {
                    (Stored { graph: grown, ..self }, Err(ApplyError::OutOfStep))
                } else {
                    (Stored { graph: grown, tids: self.tids.push(tid), ..self }, Ok(()))
                },
            }
        }
    }

    /// The index with rows added one after the other, up to the first that
    /// cannot be.
    pub open spec fn replay(self, b: Builder, rows: Seq<RowValue>) -> (
        Stored,
        Result<(), ApplyError>,
    )
        decreases rows.len(),
    {
        if rows.len() == 0 {
            (self, Ok(()))
        } else {
            let (before, r) = self.replay(b, rows.drop_last());
            match r {
                Err(e) => (before, Err(e)),
                Ok(_) => before.apply(b, rows.last()),
            }
        }
    }
}

/// Adding a row to an index in step leaves it in step unless the insert strays,
/// and an index whose links stay within their layers has no such inserts.
pub proof fn lemma_apply(s: Stored, b: Builder, row: RowValue)
    requires
        s.graph.valid(),
    ensures
        s.apply(b, row).0.graph.valid(),
        s.apply(b, row).0.graph.metric == s.graph.metric,
        s.graph.layered() ==> {
            &&& s.apply(b, row).0.graph.layered()
            &&& s.apply(b, row).1 != Err::<(), ApplyError>(ApplyError::Strays)
        },
        s.in_step() ==> s.apply(b, row).1 != Err::<(), ApplyError>(ApplyError::OutOfStep),
        s.in_step() && s.apply(b, row).1 != Err::<(), ApplyError>(ApplyError::Strays) ==> s.apply(
            b,
            row,
        ).0.in_step(),
{
    if let Some(vector) = row.vector {
        b.lemma_inserted(s.graph, vector, row.attrs);
        insert_adds_one_node(b, s.graph, vector, row.attrs);
    }
}

/// The rows that have a vector, in order.
pub open spec fn ranked(rows: Seq<RowValue>) -> Seq<RowValue>
    decreases rows.len(),
{
    if rows.len() == 0 {
        rows
    } else if rows.last().vector is Some {
        ranked(rows.drop_last()).push(rows.last())
    } else {
        ranked(rows.drop_last())
    }
}

/// The rows that have none, in order.
pub open spec fn unranked(rows: Seq<RowValue>) -> Seq<UnrankedRow>
    decreases rows.len(),
{
    if rows.len() == 0 {
        Seq::empty()
    } else if rows.last().vector is Some {
        unranked(rows.drop_last())
    } else {
        unranked(rows.drop_last()).push(
            UnrankedRow { tid: rows.last().tid, attrs: rows.last().attrs },
        )
    }
}

/// A failed row fails the whole replay.
proof fn lemma_replay_fails(s: Stored, b: Builder, rows: Seq<RowValue>, upto: int)
    requires
        0 <= upto <= rows.len(),
        s.replay(b, rows.take(upto)).1 is Err,
    ensures
        s.replay(b, rows) == s.replay(b, rows.take(upto)),
    decreases rows.len(),
{
    if upto == rows.len() {
        assert(rows.take(upto) =~= rows);
    } else {
        assert(rows.drop_last().take(upto) =~= rows.take(upto));
        lemma_replay_fails(s, b, rows.drop_last(), upto);
    }
}

/// Replaying rows keeps everything that was stored, another writer's rows
/// included, and adds exactly the rows, in order: each that has a vector as a
/// node with its address, and each that has none beside the graph.
pub proof fn replays_keep_what_was_stored(s: Stored, b: Builder, rows: Seq<RowValue>)
    requires
        s.in_step(),
        s.replay(b, rows).1 is Ok,
    ensures
        ({
            let (t, n) = (s.replay(b, rows).0, s.tids.len() as int);
            let placed = ranked(rows);
            &&& t.in_step()
            &&& t.tids == s.tids + Seq::new(placed.len(), |i: int| placed[i].tid)
            &&& t.unranked == s.unranked + unranked(rows)
            &&& forall|k: int|
                0 <= k < n ==> {
                    &&& (#[trigger] t.graph.nodes[k]).vector == s.graph.nodes[k].vector
                    &&& t.graph.nodes[k].attrs == s.graph.nodes[k].attrs
                    &&& t.graph.nodes[k].deleted == s.graph.nodes[k].deleted
                }
            &&& forall|k: int|
                n <= k < n + placed.len() ==> {
                    &&& Some((#[trigger] t.graph.nodes[k]).vector) == placed[k - n].vector
                    &&& t.graph.nodes[k].attrs == placed[k - n].attrs
                    &&& !t.graph.nodes[k].deleted
                }
        }),
    decreases rows.len(),
{
    let n = s.tids.len() as int;
    let t = s.replay(b, rows).0;
    let placed = ranked(rows);
    if rows.len() > 0 {
        let head = rows.drop_last();
        replays_keep_what_was_stored(s, b, head);
        let before = s.replay(b, head).0;
        let row = rows.last();
        lemma_apply(before, b, row);
        if let Some(vector) = row.vector {
            insert_adds_one_node(b, before.graph, vector, row.attrs);
            let earlier = ranked(head);
            assert forall|k: int| n <= k < n + placed.len() implies {
                &&& Some((#[trigger] t.graph.nodes[k]).vector) == placed[k - n].vector
                &&& t.graph.nodes[k].attrs == placed[k - n].attrs
                &&& !t.graph.nodes[k].deleted
            } by {
                if k < n + earlier.len() {
                    assert(Some(before.graph.nodes[k].vector) == earlier[k - n].vector);
                }
            }
        }
    }
    assert(t.tids =~= s.tids + Seq::new(placed.len(), |i: int| placed[i].tid));
    assert(t.unranked =~= s.unranked + unranked(rows));
}

/// Add one row to an index, keeping its graph and its addresses in step. A row
/// without a vector goes beside the graph.
pub fn apply_one<K: Fn(Kernel, &[u32], &[u32]) -> u32, L: Fn(u64, usize) -> usize>(
    kernel: &K,
    level: &L,
    index: &mut Index,
    vector: Option<&[u32]>,
    attrs: &[AttrValue],
    tid: TidPair,
) -> (r: Result<(), ApplyError>)
    requires
        old(index).hnsw.wf(),
        kernel_ok(*kernel),
        level_ok(*level),
    ensures
        final(index).hnsw.wf(),
        final(index)@.graph.metric == old(index)@.graph.metric,
        ({
            let (s, want) = old(index)@.apply(
                builder_for(*kernel, *level, old(index)@.graph.metric),
                (RowValue { vector: components(vector), attrs: attrs@, tid }),
            );
            &&& r == want
            &&& final(index)@ == s
        }),
{
    let ghost start = index@;
    let ghost b = index.hnsw.builder(*kernel, *level);
    proof {
        lemma_apply(start, b, RowValue { vector: components(vector), attrs: attrs@, tid });
    }
    let v = match vector {
        None => {
            let row = Unranked { tid, attrs: slice_to_vec(attrs) };
            let ghost more = row@;
            index.unranked.push(row);
            assert(index@.unranked =~= start.unranked.push(more));
            return Ok(());
        },
        Some(v) => v,
    };
    if !index.hnsw.can_insert(level, v) {
        assert(!b.has_room(start.graph, v@));
        return Err(ApplyError::NoRoom);
    }
    assert(b.has_room(start.graph, v@));
    match index.hnsw.insert_or_stray(kernel, level, slice_to_vec(v), slice_to_vec(attrs)) {
        Err(e) => Err(ApplyError::Insert(e)),
        Ok(None) => Err(ApplyError::Strays),
        Ok(Some(id)) => {
            if id != index.tids.len() {
                return Err(ApplyError::OutOfStep);
            }
            index.tids.push(tid);
            Ok(())
        },
    }
}

/// The components of an optional vector.
pub open spec fn components(vector: Option<&[u32]>) -> Option<Seq<u32>> {
    match vector {
        None => None,
        Some(v) => Some(v@),
    }
}

/// The components of an optional vector.
pub(crate) fn borrowed(vector: &Option<Vec<u32>>) -> (r: Option<&[u32]>)
    ensures
        components(r) == owned_components(*vector),
{
    match vector {
        None => None,
        Some(v) => Some(v.as_slice()),
    }
}

/// The components of an optional vector.
pub open spec fn owned_components(vector: Option<Vec<u32>>) -> Option<Seq<u32>> {
    match vector {
        None => None,
        Some(v) => Some(v@),
    }
}

/// A row applied to a pending graph.
pub struct StagedRow {
    pub vector: Option<Vec<u32>>,
    pub attrs: Vec<AttrValue>,
    pub tid: TidPair,
}

impl View for StagedRow {
    type V = RowValue;

    open spec fn view(&self) -> RowValue {
        RowValue { vector: owned_components(self.vector), attrs: self.attrs@, tid: self.tid }
    }
}

/// Rows as values.
pub open spec fn row_values(rows: Seq<StagedRow>) -> Seq<RowValue> {
    Seq::new(rows.len(), |i: int| rows[i]@)
}

/// Why pending rows cannot be staged or written back.
#[derive(Debug, Clone, Copy, PartialEq, Eq)]
pub enum StageError {
    Load(LoadError),
    Apply(ApplyError),
}

impl StageError {
    /// The text a user sees.
    pub open spec fn text(self) -> Seq<char> {
        match self {
            StageError::Load(e) => e.text(),
            StageError::Apply(e) => e.text(),
        }
    }

    /// The text a user sees.
    pub fn message(&self) -> (s: String)
        ensures
            s@ == self.text(),
    {
        match self {
            StageError::Load(e) => e.message(),
            StageError::Apply(e) => e.message(),
        }
    }
}

/// The index that pages hold, in a state to be added to.
pub open spec fn writable(fork: Fork, pages: spec_fn(u32) -> Seq<u8>) -> Result<
    Stored,
    StageError,
> {
    match loaded(fork, pages) {
        Err(e) => Err(StageError::Load(e)),
        Ok(s) => Ok(s),
    }
}

/// Load an index in order to add to it.
pub(crate) fn load_writable<F: Fn(u32) -> Vec<u8>>(fork: Fork, fetch: &F) -> (r: Result<
    Index,
    StageError,
>)
    requires
        fetch_ok(*fetch),
    ensures
        match (r, writable(fork, pages_of(*fetch))) {
            (Ok(index), Ok(s)) => index.hnsw.wf() && index@ == s && s.in_step(),
            (Err(e), Err(f)) => e == f,
            _ => false,
        },
{
    match load_index(fork, fetch) {
        Err(e) => Err(StageError::Load(e)),
        Ok(index) => Ok(index),
    }
}

/// The generation a metapage carries.
pub(crate) fn current_generation<F: Fn(u32) -> Vec<u8>>(fork: Fork, fetch: &F) -> (r: Result<
    u64,
    LoadError,
>)
    requires
        fetch_ok(*fetch),
    ensures
        r == (match meta_of(fork, pages_of(*fetch)(0)) {
            Err(e) => Err(LoadError::Meta(e)),
            Ok((_, generation)) => Ok(generation),
        }),
{
    if fork.nblocks == 0 {
        return Err(LoadError::Meta(MetaError::NoPages));
    }
    let meta = fetch(0);
    proof {
        assert(call_ensures(
            *fetch,
            (0u32,),
            choose|v: Vec<u8>| call_ensures(*fetch, (0u32,), v),
        ));
        assert(meta@ == pages_of(*fetch)(0));
    }
    match read_meta(fork, meta.as_slice()) {
        Err(e) => Err(LoadError::Meta(e)),
        Ok((_, generation)) => Ok(generation),
    }
}

/// Inserts a transaction has made to one index but not yet written back.
pub struct PendingWrite {
    key: CacheKey,
    /// The index is reopened by this when the rows are written back.
    index_oid: u32,
    /// The generation the graph was derived from.
    base_generation: u64,
    /// The stored index with the rows added. After some of them were undone it is
    /// derived again when it is next needed.
    index: Option<Index>,
    applied: Vec<StagedRow>,
}

/// A pending write as a value.
pub struct Staged {
    pub key: CacheKey,
    pub index_oid: u32,
    pub base_generation: u64,
    /// The index with the rows added, unless it has to be derived again.
    pub stored: Option<Stored>,
    pub rows: Seq<RowValue>,
}

impl View for PendingWrite {
    type V = Staged;

    closed spec fn view(&self) -> Staged {
        Staged {
            key: self.key,
            index_oid: self.index_oid,
            base_generation: self.base_generation,
            stored: match self.index {
                None => None,
                Some(index) => Some(index@),
            },
            rows: row_values(self.applied@),
        }
    }
}

/// The stored index with rows added, and the generation it has.
pub open spec fn derived<
    K: Fn(Kernel, &[u32], &[u32]) -> u32,
    L: Fn(u64, usize) -> usize,
>(
    rows: Seq<RowValue>,
    fork: Fork,
    pages: spec_fn(u32) -> Seq<u8>,
    kernel: K,
    level: L,
) -> Result<(Stored, u64), StageError> {
    match meta_of(fork, pages(0)) {
        Err(e) => Err(StageError::Load(LoadError::Meta(e))),
        Ok((_, generation)) => match writable(fork, pages) {
            Err(e) => Err(e),
            Ok(s) => match s.replay(builder_for(kernel, level, s.graph.metric), rows) {
                (_, Err(e)) => Err(StageError::Apply(e)),
                (t, Ok(_)) => Ok((t, generation)),
            },
        },
    }
}

/// What writing a pending graph back comes to: nothing when the index is gone or
/// has been rebuilt, and otherwise an image and the generation it replaces.
pub open spec fn flushed<
    K: Fn(Kernel, &[u32], &[u32]) -> u32,
    L: Fn(u64, usize) -> usize,
>(
    w: Staged,
    current: Option<CacheKey>,
    fork: Fork,
    pages: spec_fn(u32) -> Seq<u8>,
    kernel: K,
    level: L,
) -> Result<Option<(Seq<u8>, u64)>, StageError> {
    if current != Some(w.key) {
        Ok(None)
    } else {
        match (meta_of(fork, pages(0)), w.stored) {
            (Ok((_, generation)), Some(s)) if generation == w.base_generation => Ok(
                Some((s.image(), generation)),
            ),
            _ => match derived(w.rows, fork, pages, kernel, level) {
                Err(e) => Err(e),
                Ok((t, generation)) => Ok(Some((t.image(), generation))),
            },
        }
    }
}

/// A write staged on `base` by adding its rows, with these distances and draws.
pub open spec fn staged_on(w: Staged, base: Stored, b: Builder) -> bool {
    w.stored matches Some(s) ==> base.replay(b, w.rows) == (s, Ok::<(), ApplyError>(()))
}

/// Writing back is replaying: whatever is stored by then, what a flush writes is
/// that index with the rows added. Whether the graph staged in memory is used as
/// it is, or the rows are applied once more, makes no difference, as long as a
/// generation names one image.
pub proof fn flushing_is_replaying<
    K: Fn(Kernel, &[u32], &[u32]) -> u32,
    L: Fn(u64, usize) -> usize,
>(
    w: Staged,
    base: Stored,
    fork: Fork,
    pages: spec_fn(u32) -> Seq<u8>,
    kernel: K,
    level: L,
    generation: u64,
    stored: Stored,
)
    requires
        staged_on(w, base, builder_for(kernel, level, base.graph.metric)),
        meta_of(fork, pages(0)) matches Ok((_, g)) && g == generation,
        writable(fork, pages) == Ok::<Stored, StageError>(stored),
        generation == w.base_generation ==> stored == base,
    ensures
        flushed(w, Some(w.key), fork, pages, kernel, level) == (match stored.replay(
            builder_for(kernel, level, stored.graph.metric),
            w.rows,
        ) {
            (t, Ok(_)) => Ok(Some((t.image(), generation))),
            (_, Err(e)) => Err(StageError::Apply(e)),
        }),
{
}

/// What a flush writes.
pub struct Flush {
    pub blob: Vec<u8>,
    /// The generation that the write replaces.
    pub generation: u64,
}

impl PendingWrite {
    /// The graph, where there is one, is sound, and every node has an address.
    pub closed spec fn wf(&self) -> bool {
        self.index matches Some(index) ==> index.hnsw.wf() && index@.in_step()
    }

    /// The relation the rows belong to.
    pub fn index_oid(&self) -> (r: u32)
        ensures
            r == self@.index_oid,
    {
        self.index_oid
    }

    /// Work out what to write back. `current` identifies the relation that the
    /// write's oid opens by now, if there is one.
    pub fn flush<
        F: Fn(u32) -> Vec<u8>,
        K: Fn(Kernel, &[u32], &[u32]) -> u32,
        L: Fn(u64, usize) -> usize,
    >(
        &self,
        current: Option<CacheKey>,
        fork: Fork,
        fetch: &F,
        kernel: &K,
        level: &L,
    ) -> (r: Result<Option<Flush>, StageError>)
        requires
            self.wf(),
            fetch_ok(*fetch),
            kernel_ok(*kernel),
            level_ok(*level),
        ensures
            match (r, flushed(self@, current, fork, pages_of(*fetch), *kernel, *level)) {
                (Ok(Some(f)), Ok(Some((blob, generation)))) => f.blob@ == blob && f.generation
                    == generation,
                (Ok(None), Ok(None)) => true,
                (Err(e), Err(f)) => e == f,
                _ => false,
            },
    {
        // A rebuild keeps the oid and starts counting generations again, so only
        // the file number tells that the rows have nowhere left to go.
        match current {
            None => {
                return Ok(None);
            },
            Some(key) => {
                if key.0 != self.key.0 || key.1 != self.key.1 || key.2 != self.key.2 {
                    return Ok(None);
                }
            },
        }
        let generation: u64 = match current_generation(fork, fetch) {
            Err(e) => {
                return Err(StageError::Load(e));
            },
            Ok(generation) => generation,
        };
        if generation == self.base_generation {
            if let Some(index) = &self.index {
                return Ok(Some(Flush { blob: index.image(), generation }));
            }
        }
        // Another writer was here, or rows were undone: the stored image is the
        // one to build on.
        match self.derive(fork, fetch, kernel, level) {
            Err(e) => Err(e),
            Ok((index, generation)) => Ok(Some(Flush { blob: index.image(), generation })),
        }
    }

    /// The stored index with the rows added, and the generation it has.
    fn derive<
        F: Fn(u32) -> Vec<u8>,
        K: Fn(Kernel, &[u32], &[u32]) -> u32,
        L: Fn(u64, usize) -> usize,
    >(&self, fork: Fork, fetch: &F, kernel: &K, level: &L) -> (r: Result<(Index, u64), StageError>)
        requires
            fetch_ok(*fetch),
            kernel_ok(*kernel),
            level_ok(*level),
        ensures
            match (r, derived(self@.rows, fork, pages_of(*fetch), *kernel, *level)) {
                (Ok((index, g)), Ok((s, generation))) => {
                    &&& index.hnsw.wf()
                    &&& index@ == s
                    &&& s.in_step()
                    &&& g == generation
                },
                (Err(e), Err(f)) => e == f,
                _ => false,
            },
    {
        let generation: u64 = match current_generation(fork, fetch) {
            Err(e) => {
                return Err(StageError::Load(e));
            },
            Ok(generation) => generation,
        };
        let mut index = match load_writable(fork, fetch) {
            Err(e) => {
                return Err(e);
            },
            Ok(index) => index,
        };
        let ghost s = index@;
        match self.replay_onto(&mut index, kernel, level) {
            Err(e) => Err(StageError::Apply(e)),
            Ok(_) => {
                proof {
                    replays_keep_what_was_stored(
                        s,
                        builder_for(*kernel, *level, s.graph.metric),
                        self@.rows,
                    );
                }
                Ok((index, generation))
            },
        }
    }

    /// Add the rows to another index.
    fn replay_onto<K: Fn(Kernel, &[u32], &[u32]) -> u32, L: Fn(u64, usize) -> usize>(
        &self,
        index: &mut Index,
        kernel: &K,
        level: &L,
    ) -> (r: Result<(), ApplyError>)
        requires
            old(index).hnsw.wf(),
            kernel_ok(*kernel),
            level_ok(*level),
        ensures
            final(index).hnsw.wf(),
            ({
                let (s, want) = old(index)@.replay(
                    builder_for(*kernel, *level, old(index)@.graph.metric),
                    self@.rows,
                );
                &&& r == want
                &&& final(index)@ == s
            }),
    {
        let ghost start = index@;
        let ghost b = builder_for(*kernel, *level, index@.graph.metric);
        let ghost rows = self@.rows;
        let mut i: usize = 0;
        assert(rows.take(0) =~= Seq::<RowValue>::empty());
        while i < self.applied.len()
            invariant
                i <= self.applied@.len(),
                rows == row_values(self.applied@),
                rows == self@.rows,
                kernel_ok(*kernel),
                level_ok(*level),
                index.hnsw.wf(),
                index@.graph.metric == old(index)@.graph.metric,
                b == builder_for(*kernel, *level, old(index)@.graph.metric),
                start == old(index)@,
                start.replay(b, rows.take(i as int)) == (index@, Ok::<(), ApplyError>(())),
            decreases self.applied@.len() - i,
        {
            let row = &self.applied[i];
            proof {
                let next = rows.take(i + 1);
                assert(next.drop_last() =~= rows.take(i as int));
                assert(next.last() == row@);
            }
            match apply_one(
                kernel,
                level,
                index,
                borrowed(&row.vector),
                row.attrs.as_slice(),
                row.tid,
            ) {
                Err(e) => {
                    proof {
                        lemma_replay_fails(start, b, rows, i + 1);
                    }
                    return Err(e);
                },
                Ok(_) => {},
            }
            i += 1;
        }
        assert(rows.take(rows.len() as int) =~= rows);
        Ok(())
    }

    /// Start staging on the stored index.
    fn open<F: Fn(u32) -> Vec<u8>>(key: CacheKey, index_oid: u32, fork: Fork, fetch: &F) -> (r:
        Result<PendingWrite, StageError>)
        requires
            fetch_ok(*fetch),
        ensures
            match (r, fresh(key, index_oid, fork, pages_of(*fetch))) {
                (Ok(w), Ok(s)) => w.wf() && w@ == s,
                (Err(e), Err(f)) => e == f,
                _ => false,
            },
    {
        let base_generation: u64 = match current_generation(fork, fetch) {
            Err(e) => {
                return Err(StageError::Load(e));
            },
            Ok(generation) => generation,
        };
        match load_writable(fork, fetch) {
            Err(e) => Err(e),
            Ok(index) => {
                let w = PendingWrite {
                    key,
                    index_oid,
                    base_generation,
                    index: Some(index),
                    applied: Vec::new(),
                };
                assert(w@.rows =~= Seq::<RowValue>::empty());
                Ok(w)
            },
        }
    }

    /// Keep the first `count` rows and undo the others.
    fn cut(self, count: usize) -> (r: Option<PendingWrite>)
        requires
            self.wf(),
        ensures
            r matches Some(w) ==> w.wf(),
            written(r) == cut(Some(self@), count as nat),
    {
        if count >= self.applied.len() {
            return Some(self);
        }
        if count == 0 {
            return None;
        }
        let ghost rows = self@.rows;
        let mut applied = self.applied;
        applied.truncate(count);
        assert(row_values(applied@) =~= rows.take(count as int));
        Some(
            PendingWrite {
                key: self.key,
                index_oid: self.index_oid,
                base_generation: self.base_generation,
                index: None,
                applied,
            },
        )
    }
}

/// A pending write as a value, if there is one.
pub open spec fn written(w: Option<PendingWrite>) -> Option<Staged> {
    match w {
        None => None,
        Some(w) => Some(w@),
    }
}

/// A write with only its first `count` rows kept. Its graph has to be derived
/// again if any are undone.
pub open spec fn cut(w: Option<Staged>, count: nat) -> Option<Staged> {
    match w {
        None => None,
        Some(s) => if count >= s.rows.len() {
            Some(s)
        } else if count == 0 {
            None
        } else {
            Some(Staged { rows: s.rows.take(count as int), stored: None, ..s })
        },
    }
}

/// The write that a first row is staged on: the stored index with no rows yet.
pub open spec fn fresh(
    key: CacheKey,
    index_oid: u32,
    fork: Fork,
    pages: spec_fn(u32) -> Seq<u8>,
) -> Result<Staged, StageError> {
    match meta_of(fork, pages(0)) {
        Err(e) => Err(StageError::Load(LoadError::Meta(e))),
        Ok((_, base_generation)) => match writable(fork, pages) {
            Err(e) => Err(e),
            Ok(s) => Ok(
                Staged { key, index_oid, base_generation, stored: Some(s), rows: Seq::empty() },
            ),
        },
    }
}

/// The write that a row is staged on, and its index: what is pending, with the
/// index derived again if need be, or the stored index with no rows yet.
pub open spec fn opened<
    K: Fn(Kernel, &[u32], &[u32]) -> u32,
    L: Fn(u64, usize) -> usize,
>(
    pending: Option<Staged>,
    key: CacheKey,
    index_oid: u32,
    fork: Fork,
    pages: spec_fn(u32) -> Seq<u8>,
    kernel: K,
    level: L,
) -> Result<(Staged, Stored), StageError> {
    match pending {
        Some(w) => match w.stored {
            Some(s) => Ok((w, s)),
            None => match derived(w.rows, fork, pages, kernel, level) {
                Err(e) => Err(e),
                Ok((s, base_generation)) => Ok((Staged { base_generation, ..w }, s)),
            },
        },
        None => match fresh(key, index_oid, fork, pages) {
            Err(e) => Err(e),
            Ok(w) => Ok((w, w.stored->0)),
        },
    }
}

/// Staging keeps the promise that flushing rests on: if what is pending was
/// staged on `base`, so is what is pending after one more row.
pub proof fn staging_adds_to_the_rows(
    w: Staged,
    s: Stored,
    base: Stored,
    b: Builder,
    row: RowValue,
)
    requires
        staged_on(Staged { stored: Some(s), ..w }, base, b),
        s.apply(b, row).1 is Ok,
    ensures
        staged_on(
            Staged { stored: Some(s.apply(b, row).0), rows: w.rows.push(row), ..w },
            base,
            b,
        ),
{
    assert(w.rows.push(row).drop_last() =~= w.rows);
}

/// A write that a rebuild of its index set aside, and where that happened.
pub struct SetAside {
    /// How many subtransactions were open.
    depth: usize,
    write: PendingWrite,
    /// How many of the rows were staged before each of them.
    marks: Vec<usize>,
}

/// A write set aside, as a value.
pub struct Aside {
    pub depth: nat,
    pub write: Staged,
    pub marks: Seq<usize>,
}

impl View for SetAside {
    type V = Aside;

    closed spec fn view(&self) -> Aside {
        Aside { depth: self.depth as nat, write: self.write@, marks: self.marks@ }
    }
}

/// What a transaction has not yet written back. One index at a time: a write to
/// another one flushes the first.
pub struct Pending {
    write: Option<PendingWrite>,
    /// For every open subtransaction, outermost first, how many of the pending
    /// rows were staged before it.
    marks: Vec<usize>,
    /// Writes set aside by rebuilds that may yet be undone, oldest first.
    aside: Vec<SetAside>,
}

/// What a transaction has not yet written back, as a value.
#[verifier::ext_equal]
pub struct Unwritten {
    pub write: Option<Staged>,
    pub marks: Seq<usize>,
    pub aside: Seq<Aside>,
}

/// Writes set aside, as values.
pub open spec fn asides(aside: Seq<SetAside>) -> Seq<Aside> {
    Seq::new(aside.len(), |i: int| aside[i]@)
}

impl View for Pending {
    type V = Unwritten;

    closed spec fn view(&self) -> Unwritten {
        Unwritten {
            write: written(self.write),
            marks: self.marks@,
            aside: asides(self.aside@),
        }
    }
}

/// No row was staged before any of `depth` subtransactions.
pub open spec fn no_marks(depth: nat) -> Seq<usize> {
    Seq::new(depth, |i: int| 0usize)
}

/// The oldest write set aside inside the `depth`-th subtransaction; past the end
/// if there is none.
pub open spec fn first_aside(aside: Seq<Aside>, depth: nat, from: int) -> int
    decreases aside.len() - from,
{
    if from >= aside.len() || aside[from].depth >= depth {
        from
    } else {
        first_aside(aside, depth, from + 1)
    }
}

impl Unwritten {
    /// Nothing pending.
    pub open spec fn nothing() -> Unwritten {
        Unwritten { write: None, marks: Seq::empty(), aside: Seq::empty() }
    }

    /// How many rows are pending.
    pub open spec fn count(self) -> nat {
        match self.write {
            None => 0,
            Some(w) => w.rows.len(),
        }
    }

    /// What is left once the pending rows are written back. They cannot be taken
    /// out again.
    pub open spec fn taken(self) -> Unwritten {
        Unwritten { write: None, marks: no_marks(self.marks.len()), ..self }
    }

    /// A subtransaction starts.
    pub open spec fn started(self) -> Unwritten {
        Unwritten { marks: self.marks.push(self.count() as usize), ..self }
    }

    /// The innermost subtransaction ends well: what it staged and set aside is now
    /// its parent's. Outside all subtransactions no rebuild is undone on its own,
    /// so nothing is kept aside.
    pub open spec fn joined(self) -> Unwritten {
        let depth = self.marks.len();
        if depth == 0 {
            self
        } else {
            Unwritten {
                marks: self.marks.drop_last(),
                aside: lowered(self.aside, (depth - 1) as nat),
                ..self
            }
        }
    }

    /// The innermost subtransaction is rolled back: the rows it staged are undone.
    /// If an index was rebuilt in it, what was pending then comes back. A
    /// subtransaction that was not seen to start is the one everything was staged
    /// in.
    pub open spec fn rolled_back(self) -> Unwritten {
        let depth = self.marks.len();
        let at = first_aside(self.aside, depth, 0);
        if depth == 0 {
            Unwritten::nothing()
        } else if at < self.aside.len() {
            let a = self.aside[at];
            Unwritten {
                write: cut(Some(a.write), a.marks[depth - 1] as nat),
                marks: a.marks.take(depth - 1),
                aside: self.aside.take(at),
            }
        } else {
            Unwritten {
                write: cut(self.write, self.marks[depth - 1] as nat),
                marks: self.marks.drop_last(),
                ..self
            }
        }
    }

    /// An index is rebuilt: what was pending for it has nowhere to go, unless the
    /// rebuild is undone.
    pub open spec fn rebuilt(self, index_oid: u32) -> Unwritten {
        let depth = self.marks.len();
        match self.write {
            Some(w) if w.index_oid == index_oid => Unwritten {
                aside: if depth == 0 {
                    self.aside
                } else {
                    self.aside.push(Aside { depth, write: w, marks: self.marks })
                },
                ..self.taken()
            },
            _ => self,
        }
    }

    /// Marks count pending rows, more of them the further in; a write set aside
    /// has its own.
    pub open spec fn marked(self) -> bool {
        &&& self.count() <= usize::MAX
        &&& marks_ok(self.marks, self.count())
        &&& forall|i: int|
            0 <= i < self.aside.len() ==> {
                let a = #[trigger] self.aside[i];
                &&& 1 <= a.depth <= self.marks.len()
                &&& a.depth <= a.marks.len()
                &&& marks_ok(a.marks, a.write.rows.len())
            }
        &&& forall|i: int, j: int|
            0 <= i <= j < self.aside.len() ==> (#[trigger] self.aside[i]).depth <= (
            #[trigger] self.aside[j]).depth
    }
}

/// Marks grow inwards and never past the rows there are.
pub open spec fn marks_ok(marks: Seq<usize>, count: nat) -> bool {
    &&& forall|i: int| 0 <= i < marks.len() ==> (#[trigger] marks[i]) <= count
    &&& forall|i: int, j: int|
        0 <= i <= j < marks.len() ==> (#[trigger] marks[i]) <= (#[trigger] marks[j])
}

/// Writes set aside, none of them deeper than `depth`; none at all at depth zero.
pub open spec fn lowered(aside: Seq<Aside>, depth: nat) -> Seq<Aside> {
    if depth == 0 {
        Seq::empty()
    } else {
        Seq::new(
            aside.len(),
            |i: int|
                Aside {
                    depth: if aside[i].depth > depth {
                        depth
                    } else {
                        aside[i].depth
                    },
                    ..aside[i]
                },
        )
    }
}

impl Pending {
    /// What is pending, and what is set aside, is sound.
    pub closed spec fn wf(&self) -> bool {
        &&& self@.marked()
        &&& self.write matches Some(w) ==> w.wf()
        &&& forall|i: int| 0 <= i < self.aside@.len() ==> (#[trigger] self.aside@[i]).write.wf()
    }

    /// Nothing pending.
    pub fn new() -> (r: Self)
        ensures
            r.wf(),
            r@ == Unwritten::nothing(),
    {
        let r = Pending { write: None, marks: Vec::new(), aside: Vec::new() };
        assert(r@ =~= Unwritten::nothing());
        r
    }

    /// Take out what is pending, to be written back.
    pub fn take(&mut self) -> (r: Option<PendingWrite>)
        requires
            old(self).wf(),
        ensures
            final(self).wf(),
            final(self)@ == old(self)@.taken(),
            match (r, old(self)@.write) {
                (Some(w), Some(s)) => w.wf() && w@ == s,
                (None, None) => true,
                _ => false,
            },
    {
        let r = self.write.take();
        self.clear_marks();
        assert(self@ =~= old(self)@.taken());
        r
    }

    /// Start counting staged rows again.
    fn clear_marks(&mut self)
        ensures
            final(self).write == old(self).write,
            final(self).aside == old(self).aside,
            final(self).marks@ == no_marks(old(self).marks@.len()),
    {
        let depth: usize = self.marks.len();
        let mut marks: Vec<usize> = Vec::new();
        let mut i: usize = 0;
        while i < depth
            invariant
                i <= depth,
                marks@ == no_marks(i as nat),
            decreases depth - i,
        {
            marks.push(0);
            i += 1;
            assert(marks@ =~= no_marks(i as nat));
        }
        self.marks = marks;
    }

    /// Drop what is pending: since nothing was written, that is the rollback.
    pub fn discard(&mut self)
        ensures
            final(self).wf(),
            final(self)@ == Unwritten::nothing(),
    {
        self.write = None;
        self.marks = Vec::new();
        self.aside = Vec::new();
        assert(self@ =~= Unwritten::nothing());
    }

    /// How many rows are pending.
    fn count(&self) -> (r: usize)
        ensures
            r == self@.count(),
    {
        match &self.write {
            None => 0,
            Some(w) => w.applied.len(),
        }
    }

    /// A subtransaction starts.
    pub fn sub_started(&mut self)
        requires
            old(self).wf(),
        ensures
            final(self).wf(),
            final(self)@ == old(self)@.started(),
    {
        let count: usize = self.count();
        self.marks.push(count);
        assert(self@ =~= old(self)@.started());
    }

    /// The innermost subtransaction ends well.
    pub fn sub_committed(&mut self)
        requires
            old(self).wf(),
        ensures
            final(self).wf(),
            final(self)@ == old(self)@.joined(),
    {
        if self.marks.len() == 0 {
            return;
        }
        let _ = self.marks.pop();
        let depth: usize = self.marks.len();
        if depth == 0 {
            self.aside = Vec::new();
            assert(self@ =~= old(self)@.joined());
            return;
        }
        let ghost before = old(self)@.aside;
        let mut i: usize = 0;
        while i < self.aside.len()
            invariant
                depth == self.marks@.len(),
                depth > 0,
                i <= self.aside@.len(),
                self.write == old(self).write,
                self.marks@ == old(self).marks@.drop_last(),
                before == asides(old(self).aside@),
                self.aside@.len() == before.len(),
                forall|k: int|
                    0 <= k < self.aside@.len() ==> {
                        &&& (#[trigger] self.aside@[k]).write.wf()
                        &&& k >= i ==> self.aside@[k]@ == before[k]
                        &&& k < i ==> self.aside@[k]@ == lowered(before, depth as nat)[k]
                    },
            decreases self.aside@.len() - i,
        {
            if self.aside[i].depth > depth {
                self.aside[i].depth = depth;
            }
            i += 1;
        }
        assert(asides(self.aside@) =~= lowered(before, depth as nat));
        assert(self@ =~= old(self)@.joined());
        proof {
            old(self)@.lemma_joined();
        }
    }
}

impl Pending {
    /// Where the oldest write set aside at `depth` or deeper is.
    fn find_aside(&self, depth: usize) -> (r: usize)
        ensures
            r == first_aside(self@.aside, depth as nat, 0),
            r <= self.aside@.len(),
    {
        let mut i: usize = 0;
        while i < self.aside.len()
            invariant
                i <= self.aside@.len(),
                self@.aside == asides(self.aside@),
                first_aside(self@.aside, depth as nat, 0) == first_aside(
                    self@.aside,
                    depth as nat,
                    i as int,
                ),
            decreases self.aside@.len() - i,
        {
            assert(self@.aside[i as int] == self.aside@[i as int]@);
            if self.aside[i].depth >= depth {
                return i;
            }
            i += 1;
        }
        i
    }

    /// The innermost subtransaction is rolled back.
    pub fn sub_aborted(&mut self)
        requires
            old(self).wf(),
        ensures
            final(self).wf(),
            final(self)@ == old(self)@.rolled_back(),
    {
        let depth: usize = self.marks.len();
        if depth == 0 {
            self.discard();
            return;
        }
        let ghost p = self@;
        let ghost writes = self.aside@;
        let at: usize = self.find_aside(depth);
        proof {
            lemma_first_aside(p.aside, depth as nat, 0);
            p.lemma_rolled_back();
        }
        if at < self.aside.len() {
            assert(p.aside[at as int] == writes[at as int]@);
            let a = self.aside.remove(at);
            self.aside.truncate(at);
            let ghost taken = a@;
            let count: usize = a.marks[depth - 1];
            let mut marks = a.marks;
            marks.truncate(depth - 1);
            self.write = a.write.cut(count);
            self.marks = marks;
            proof {
                assert(self.aside@ =~= writes.take(at as int));
                assert(asides(self.aside@) =~= p.aside.take(at as int));
                assert(self.marks@ =~= taken.marks.take(depth - 1));
                assert(self@ =~= p.rolled_back());
            }
        } else {
            let count: usize = self.marks[depth - 1];
            let _ = self.marks.pop();
            self.write = match self.write.take() {
                None => None,
                Some(w) => w.cut(count),
            };
            assert(self@ =~= p.rolled_back());
        }
    }

    /// An index is rebuilt. What was pending for it must not be written over the
    /// rebuild, but belongs to the state that comes back if that is undone.
    pub fn set_aside(&mut self, index_oid: u32)
        requires
            old(self).wf(),
        ensures
            final(self).wf(),
            final(self)@ == old(self)@.rebuilt(index_oid),
    {
        let ghost p = self@;
        let own = match &self.write {
            None => false,
            Some(w) => w.index_oid == index_oid,
        };
        if !own {
            return;
        }
        proof {
            p.lemma_rebuilt(index_oid);
        }
        let depth: usize = self.marks.len();
        let mut marks: Vec<usize> = Vec::new();
        std::mem::swap(&mut marks, &mut self.marks);
        let ghost old_marks = marks@;
        let ghost writes = self.aside@;
        if let Some(write) = self.write.take() {
            let mut i: usize = 0;
            while i < depth
                invariant
                    i <= depth,
                    self.marks@ == no_marks(i as nat),
                    self.aside@ == writes,
                    self.write is None,
                decreases depth - i,
            {
                self.marks.push(0);
                i += 1;
                assert(self.marks@ =~= no_marks(i as nat));
            }
            if depth > 0 {
                let a = SetAside { depth, write, marks };
                let ghost more = a@;
                self.aside.push(a);
                assert(asides(self.aside@) =~= p.aside.push(more));
            }
            assert(self@ =~= p.rebuilt(index_oid));
        }
    }

    /// Take out what is pending for another relation, which has to be written
    /// back before a row of this one is staged.
    pub fn displaced(&mut self, key: CacheKey) -> (r: Option<PendingWrite>)
        requires
            old(self).wf(),
        ensures
            final(self).wf(),
            match old(self)@.write {
                Some(s) => if s.key == key {
                    r is None && final(self)@ == old(self)@
                } else {
                    &&& final(self)@ == old(self)@.taken()
                    &&& r matches Some(w) && w.wf() && w@ == s
                },
                None => r is None && final(self)@ == old(self)@,
            },
    {
        let other = match &self.write {
            None => false,
            Some(w) => w.key.0 != key.0 || w.key.1 != key.1 || w.key.2 != key.2,
        };
        if other {
            self.take()
        } else {
            None
        }
    }

    /// Apply one row to the transaction's pending graph, loading it on first
    /// use. A row whose insert strays leaves nothing pending: its transaction
    /// cannot go on.
    pub fn pending_insert<
        F: Fn(u32) -> Vec<u8>,
        K: Fn(Kernel, &[u32], &[u32]) -> u32,
        L: Fn(u64, usize) -> usize,
    >(
        &mut self,
        key: CacheKey,
        index_oid: u32,
        fork: Fork,
        fetch: &F,
        kernel: &K,
        level: &L,
        row: StagedRow,
    ) -> (r: Result<(), StageError>)
        requires
            old(self).wf(),
            old(self)@.write matches Some(s) ==> s.key == key,
            fetch_ok(*fetch),
            kernel_ok(*kernel),
            level_ok(*level),
        ensures
            final(self).wf(),
            match opened(
                old(self)@.write,
                key,
                index_oid,
                fork,
                pages_of(*fetch),
                *kernel,
                *level,
            ) {
                Err(e) => r == Err::<(), StageError>(e) && final(self)@ == old(self)@,
                Ok((w, s)) => {
                    let (t, want) = s.apply(
                        builder_for(*kernel, *level, s.graph.metric),
                        row@,
                    );
                    match want {
                        Err(ApplyError::Strays) => {
                            &&& r == Err::<(), StageError>(StageError::Apply(ApplyError::Strays))
                            &&& final(self)@ == old(self)@.taken()
                        },
                        Err(e) => {
                            &&& r == Err::<(), StageError>(StageError::Apply(e))
                            &&& final(self)@ == (Unwritten {
                                write: Some(Staged { stored: Some(t), ..w }),
                                ..old(self)@
                            })
                        },
                        Ok(_) => {
                            &&& r == Ok::<(), StageError>(())
                            &&& final(self)@ == (Unwritten {
                                write: Some(
                                    Staged { stored: Some(t), rows: w.rows.push(row@), ..w },
                                ),
                                ..old(self)@
                            })
                        },
                    }
                },
            },
    {
        let ghost p = self@;
        let mut write = match self.write.take() {
            Some(w) => w,
            None => match PendingWrite::open(key, index_oid, fork, fetch) {
                Err(e) => {
                    assert(self@ =~= p);
                    return Err(e);
                },
                Ok(w) => w,
            },
        };
        let mut index = match write.index.take() {
            Some(index) => index,
            None => match write.derive(fork, fetch, kernel, level) {
                Err(e) => {
                    self.write = Some(write);
                    assert(self@ =~= p);
                    return Err(e);
                },
                Ok((index, generation)) => {
                    write.base_generation = generation;
                    index
                },
            },
        };
        let ghost before = write@;
        let ghost s = index@;
        proof {
            lemma_apply(s, builder_for(*kernel, *level, s.graph.metric), row@);
        }
        let done = apply_one(
            kernel,
            level,
            &mut index,
            borrowed(&row.vector),
            row.attrs.as_slice(),
            row.tid,
        );
        match done {
            Err(ApplyError::Strays) => {
                self.clear_marks();
                proof {
                    assert(self@ =~= p.taken());
                    p.lemma_taken();
                }
                Err(StageError::Apply(ApplyError::Strays))
            },
            Err(e) => {
                write.index = Some(index);
                self.write = Some(write);
                assert(self@.aside == p.aside);
                Err(StageError::Apply(e))
            },
            Ok(_) => {
                write.applied.push(row);
                write.index = Some(index);
                let rows: usize = write.applied.len();
                assert(write@.rows =~= before.rows.push(row@));
                assert(rows == write@.rows.len());
                self.write = Some(write);
                assert(self@.aside == p.aside);
                Ok(())
            },
        }
    }

    /// The transaction's own view of an index it has written to: a scan must see
    /// rows that its own transaction inserted. There is none once rows have been
    /// undone, until another is staged.
    pub fn pending_view(&self, key: CacheKey) -> (r: Option<&Index>)
        requires
            self.wf(),
        ensures
            match r {
                Some(index) => {
                    &&& index.hnsw.wf()
                    &&& self@.write matches Some(s) && s.key == key && s.stored == Some(index@)
                },
                None => !(self@.write matches Some(s) && s.key == key && s.stored is Some),
            },
    {
        match &self.write {
            None => None,
            Some(w) => {
                if w.key.0 == key.0 && w.key.1 == key.1 && w.key.2 == key.2 {
                    match &w.index {
                        None => None,
                        Some(index) => Some(index),
                    }
                } else {
                    None
                }
            },
        }
    }
}

proof fn lemma_first_aside(aside: Seq<Aside>, depth: nat, from: int)
    requires
        0 <= from <= aside.len(),
    ensures
        from <= first_aside(aside, depth, from) <= aside.len(),
        forall|i: int|
            from <= i < first_aside(aside, depth, from) ==> (#[trigger] aside[i]).depth < depth,
        first_aside(aside, depth, from) < aside.len() ==> aside[first_aside(
            aside,
            depth,
            from,
        )].depth >= depth,
    decreases aside.len() - from,
{
    if from < aside.len() && aside[from].depth < depth {
        lemma_first_aside(aside, depth, from + 1);
    }
}

/// The first entry deep enough is the one before which none is.
proof fn lemma_first_aside_is(aside: Seq<Aside>, depth: nat, from: int, at: int)
    requires
        0 <= from <= at <= aside.len(),
        forall|i: int| from <= i < at ==> (#[trigger] aside[i]).depth < depth,
        at < aside.len() ==> aside[at].depth >= depth,
    ensures
        first_aside(aside, depth, from) == at,
    decreases at - from,
{
    if from < at {
        assert(aside[from].depth < depth);
        lemma_first_aside_is(aside, depth, from + 1, at);
    }
}

impl Unwritten {
    proof fn lemma_taken(self)
        requires
            self.marked(),
        ensures
            self.taken().marked(),
    {
        let q = self.taken();
        assert forall|i: int| 0 <= i < q.aside.len() implies {
            let a = #[trigger] q.aside[i];
            &&& 1 <= a.depth <= q.marks.len()
            &&& a.depth <= a.marks.len()
            &&& marks_ok(a.marks, a.write.rows.len())
        } by {
            assert(q.aside[i] == self.aside[i]);
        }
    }

    proof fn lemma_joined(self)
        requires
            self.marked(),
        ensures
            self.joined().marked(),
    {
        let q = self.joined();
        if self.marks.len() > 0 {
            let depth = (self.marks.len() - 1) as nat;
            assert forall|i: int| 0 <= i < q.aside.len() implies {
                let a = #[trigger] q.aside[i];
                &&& 1 <= a.depth <= q.marks.len()
                &&& a.depth <= a.marks.len()
                &&& marks_ok(a.marks, a.write.rows.len())
            } by {
                let b = self.aside[i];
                assert(q.aside[i].marks == b.marks);
            }
            assert forall|i: int, j: int| 0 <= i <= j < q.aside.len() implies (
            #[trigger] q.aside[i]).depth <= (#[trigger] q.aside[j]).depth by {
                assert(self.aside[i].depth <= self.aside[j].depth);
            }
        }
    }

    proof fn lemma_rebuilt(self, index_oid: u32)
        requires
            self.marked(),
        ensures
            self.rebuilt(index_oid).marked(),
    {
        self.lemma_taken();
        let q = self.rebuilt(index_oid);
        assert forall|i: int| 0 <= i < q.aside.len() implies {
            let a = #[trigger] q.aside[i];
            &&& 1 <= a.depth <= q.marks.len()
            &&& a.depth <= a.marks.len()
            &&& marks_ok(a.marks, a.write.rows.len())
        } by {
            if i < self.aside.len() {
                assert(q.aside[i] == self.aside[i]);
            }
        }
        assert forall|i: int, j: int| 0 <= i <= j < q.aside.len() implies (
        #[trigger] q.aside[i]).depth <= (#[trigger] q.aside[j]).depth by {
            if i < self.aside.len() {
                assert(q.aside[i] == self.aside[i]);
            }
            if j < self.aside.len() {
                assert(q.aside[j] == self.aside[j]);
            }
        }
    }

    proof fn lemma_rolled_back(self)
        requires
            self.marked(),
            self.marks.len() > 0,
        ensures
            self.rolled_back().marked(),
            ({
                let at = first_aside(self.aside, self.marks.len(), 0);
                at < self.aside.len() ==> self.marks.len() <= self.aside[at].marks.len()
            }),
    {
        let depth = self.marks.len();
        let at = first_aside(self.aside, depth, 0);
        let q = self.rolled_back();
        lemma_first_aside(self.aside, depth, 0);
        if at < self.aside.len() {
            let a = self.aside[at];
            assert(a.marks[depth - 1] <= a.write.rows.len());
            assert forall|i: int| 0 <= i < q.marks.len() implies (#[trigger] q.marks[i])
                <= q.count() by {
                assert(q.marks[i] == a.marks[i]);
                assert(a.marks[i] <= a.marks[depth - 1]);
            }
            assert forall|i: int, j: int| 0 <= i <= j < q.marks.len() implies (
            #[trigger] q.marks[i]) <= (#[trigger] q.marks[j]) by {
                assert(a.marks[i] <= a.marks[j]);
            }
        } else {
            assert forall|i: int| 0 <= i < q.marks.len() implies (#[trigger] q.marks[i])
                <= q.count() by {
                assert(q.marks[i] == self.marks[i]);
                assert(self.marks[i] <= self.marks[depth - 1]);
            }
        }
        assert forall|i: int| 0 <= i < q.aside.len() implies {
            let b = #[trigger] q.aside[i];
            &&& 1 <= b.depth <= q.marks.len()
            &&& b.depth <= b.marks.len()
            &&& marks_ok(b.marks, b.write.rows.len())
        } by {
            assert(q.aside[i] == self.aside[i]);
            assert(self.aside[i].depth < depth);
        }
        assert forall|i: int, j: int| 0 <= i <= j < q.aside.len() implies (
        #[trigger] q.aside[i]).depth <= (#[trigger] q.aside[j]).depth by {
            assert(self.aside[i].depth <= self.aside[j].depth);
        }
    }

    /// What rolling back to inside `depth` subtransactions brings back.
    pub open spec fn remembered(self, depth: nat) -> Option<Staged>
        recommends
            depth < self.marks.len(),
    {
        let at = first_aside(self.aside, depth + 1, 0);
        if at < self.aside.len() {
            cut(Some(self.aside[at].write), self.aside[at].marks[depth as int] as nat)
        } else {
            cut(self.write, self.marks[depth as int] as nat)
        }
    }
}

/// Which rows are pending, and for what; nothing where there are none.
pub open spec fn pending_rows(w: Option<Staged>) -> Option<(CacheKey, u32, Seq<RowValue>)> {
    match w {
        Some(s) => if s.rows.len() > 0 {
            Some((s.key, s.index_oid, s.rows))
        } else {
            None
        },
        None => None,
    }
}

proof fn lemma_cut_again(w: Option<Staged>, first: nat, second: nat)
    requires
        second <= first,
    ensures
        pending_rows(cut(cut(w, first), second)) == pending_rows(cut(w, second)),
{
    if let Some(s) = w {
        if 0 < second && first < s.rows.len() {
            assert(s.rows.take(first as int).take(second as int) =~= s.rows.take(second as int));
            assert(s.rows.take(first as int).take(first as int) =~= s.rows.take(first as int));
        }
    }
}

/// A savepoint remembers what is pending when it is set, and leaves alone what
/// the ones around it remember.
pub proof fn savepoints_remember_what_is_pending(p: Unwritten, depth: nat)
    requires
        p.marked(),
        depth <= p.marks.len(),
    ensures
        depth == p.marks.len() ==> p.started().remembered(depth) == p.write,
        depth < p.marks.len() ==> p.started().remembered(depth) == p.remembered(depth),
{
    if depth == p.marks.len() {
        assert forall|i: int| 0 <= i < p.aside.len() implies (#[trigger] p.aside[i]).depth < depth
            + 1 by {}
        lemma_first_aside_is(p.aside, depth + 1, 0, p.aside.len() as int);
    }
}

/// Rolling back to a savepoint brings back just the rows that it remembers, and
/// leaves alone what the ones around it remember.
pub proof fn rollbacks_bring_back_what_is_remembered(p: Unwritten, depth: nat)
    requires
        p.marked(),
        depth < p.marks.len(),
    ensures
        depth + 1 == p.marks.len() ==> p.rolled_back().write == p.remembered(depth),
        depth + 1 < p.marks.len() ==> pending_rows(p.rolled_back().remembered(depth))
            == pending_rows(p.remembered(depth)),
{
    let top = p.marks.len();
    if depth + 1 < top {
        let at = first_aside(p.aside, top, 0);
        let near = first_aside(p.aside, depth + 1, 0);
        let q = p.rolled_back();
        lemma_first_aside(p.aside, top, 0);
        lemma_first_aside(p.aside, depth + 1, 0);
        p.lemma_rolled_back();
        assert(near <= at) by {
            if at < near {
                assert(p.aside[at].depth < depth + 1);
            }
        }
        if at < p.aside.len() {
            let a = p.aside[at];
            assert(a.marks[depth as int] <= a.marks[top - 1]);
            lemma_cut_again(Some(a.write), a.marks[top - 1] as nat, a.marks[depth as int] as nat);
            assert forall|i: int| 0 <= i < near implies (#[trigger] q.aside[i]).depth < depth
                + 1 by {
                assert(q.aside[i] == p.aside[i]);
            }
            lemma_first_aside_is(q.aside, depth + 1, 0, near);
        } else {
            assert(p.marks[depth as int] <= p.marks[top - 1]);
            lemma_cut_again(p.write, p.marks[top - 1] as nat, p.marks[depth as int] as nat);
        }
    }
}

/// What happens inside a savepoint does not change what it remembers: neither an
/// inner one that ends well, nor the rebuild of an index.
pub proof fn inner_events_leave_what_is_remembered(p: Unwritten, depth: nat, index_oid: u32)
    requires
        p.marked(),
        depth < p.marks.len(),
    ensures
        depth + 1 < p.marks.len() ==> p.joined().remembered(depth) == p.remembered(depth),
        p.rebuilt(index_oid).remembered(depth) == p.remembered(depth),
{
    let near = first_aside(p.aside, depth + 1, 0);
    lemma_first_aside(p.aside, depth + 1, 0);
    if depth + 1 < p.marks.len() {
        let q = p.joined();
        assert forall|i: int| 0 <= i < near implies (#[trigger] q.aside[i]).depth < depth + 1 by {
            assert(p.aside[i].depth < depth + 1);
        }
        lemma_first_aside_is(q.aside, depth + 1, 0, near);
    }
    let r = p.rebuilt(index_oid);
    if r != p {
        assert forall|i: int| 0 <= i < near implies (#[trigger] r.aside[i]).depth < depth + 1 by {
            assert(r.aside[i] == p.aside[i]);
        }
        lemma_first_aside_is(r.aside, depth + 1, 0, near);
    }
}

/// Nor does a row staged inside it.
pub proof fn staging_leaves_what_is_remembered(
    p: Unwritten,
    depth: nat,
    w: Staged,
    row: RowValue,
)
    requires
        p.marked(),
        depth < p.marks.len(),
        p.write matches Some(s) ==> {
            &&& w.key == s.key
            &&& w.index_oid == s.index_oid
            &&& w.rows == s.rows.push(row)
        },
    ensures
        pending_rows((Unwritten { write: Some(w), ..p }).remembered(depth)) == pending_rows(
            p.remembered(depth),
        ),
{
    let m = p.marks[depth as int];
    assert(m <= p.count());
    if let Some(s) = p.write {
        assert(w.rows.take(m as int) =~= s.rows.take(m as int));
        assert(s.rows.take(s.rows.len() as int) =~= s.rows);
    }
}

/// Transaction events.
#[derive(Debug, Clone, Copy, PartialEq, Eq, Structural)]
pub enum XactEvent {
    Commit,
    ParallelCommit,
    Abort,
    ParallelAbort,
    Prepare,
    PreCommit,
    ParallelPreCommit,
    PrePrepare,
}

/// Subtransaction events.
#[derive(Debug, Clone, Copy, PartialEq, Eq, Structural)]
pub enum SubXactEvent {
    StartSub,
    CommitSub,
    AbortSub,
    PreCommitSub,
}

/// What becomes of the pending rows.
#[derive(Debug, Clone, Copy, PartialEq, Eq, Structural)]
pub enum PendingAction {
    Flush,
    Discard,
    Keep,
}

/// Write back before a commit or a prepare, discard on abort. A prepared
/// transaction may never come back here, so its rows are written then.
pub fn on_xact(event: XactEvent) -> (r: PendingAction)
    ensures
        r == (match event {
            XactEvent::PreCommit | XactEvent::ParallelPreCommit | XactEvent::PrePrepare =>
                PendingAction::Flush,
            XactEvent::Abort | XactEvent::ParallelAbort => PendingAction::Discard,
            _ => PendingAction::Keep,
        }),
{
    match event {
        XactEvent::PreCommit | XactEvent::ParallelPreCommit | XactEvent::PrePrepare =>
            PendingAction::Flush,
        XactEvent::Abort | XactEvent::ParallelAbort => PendingAction::Discard,
        _ => PendingAction::Keep,
    }
}

impl Pending {
    /// Follow a subtransaction. A savepoint forces no write-back: rolling back to
    /// it undoes the rows that are still pending and were staged after it.
    pub fn on_subxact(&mut self, event: SubXactEvent)
        requires
            old(self).wf(),
        ensures
            final(self).wf(),
            final(self)@ == (match event {
                SubXactEvent::StartSub => old(self)@.started(),
                SubXactEvent::CommitSub => old(self)@.joined(),
                SubXactEvent::AbortSub => old(self)@.rolled_back(),
                SubXactEvent::PreCommitSub => old(self)@,
            }),
    {
        match event {
            SubXactEvent::StartSub => self.sub_started(),
            SubXactEvent::CommitSub => self.sub_committed(),
            SubXactEvent::AbortSub => self.sub_aborted(),
            SubXactEvent::PreCommitSub => {},
        }
    }
}

/// Adding a row without a vector always succeeds, and keeps its address and its
/// attributes beside the graph. Adding one with a vector that the graph takes
/// succeeds where there is room: the row becomes the last node, live, with its
/// vector, its attributes and its address, and nothing else that is stored changes
/// but links.
pub proof fn rows_are_added_as_they_are(s: Stored, b: Builder, row: RowValue)
    requires
        s.in_step(),
        s.graph.layered(),
    ensures
        ({
            let (t, r) = s.apply(b, row);
            let n = s.graph.nodes.len() as int;
            &&& row.vector is None ==> {
                &&& r is Ok
                &&& t.graph == s.graph && t.tids == s.tids
                &&& t.unranked.len() == s.unranked.len() + 1
                &&& t.unranked.last().tid == row.tid
                &&& t.unranked.last().attrs == row.attrs
                &&& t.unranked.drop_last() == s.unranked
            }
            &&& row.vector matches Some(v) ==> {
                &&& t.unranked == s.unranked
                &&& !b.has_room(s.graph, v) ==> t == s && r == Err::<(), ApplyError>(
                    ApplyError::NoRoom,
                )
                &&& b.has_room(s.graph, v) && 1 <= v.len() <= 16_000 && (s.graph.dim == 0
                    || v.len() == s.graph.dim) && n < 0xffff_ffff ==> {
                    &&& r is Ok
                    &&& t.tids == s.tids.push(row.tid)
                    &&& t.graph.nodes.len() == n + 1
                    &&& t.graph.nodes[n].vector == v
                    &&& t.graph.nodes[n].attrs == row.attrs
                    &&& !t.graph.nodes[n].deleted
                    &&& forall|k: int|
                        0 <= k < n ==> {
                            &&& (#[trigger] t.graph.nodes[k]).vector == s.graph.nodes[k].vector
                            &&& t.graph.nodes[k].attrs == s.graph.nodes[k].attrs
                            &&& t.graph.nodes[k].deleted == s.graph.nodes[k].deleted
                        }
                }
                &&& b.has_room(s.graph, v) && !(1 <= v.len() <= 16_000 && (s.graph.dim == 0
                    || v.len() == s.graph.dim)) ==> {
                    &&& t == s
                    &&& r is Err && r->Err_0 is Insert
                }
            }
        }),
{
    if let Some(vector) = row.vector {
        b.lemma_inserted(s.graph, vector, row.attrs);
        insert_adds_one_node(b, s.graph, vector, row.attrs);
    } else {
        let more = UnrankedRow { tid: row.tid, attrs: row.attrs };
        assert(s.unranked.push(more).drop_last() =~= s.unranked);
    }
}

/// Rows are told apart by whether they have a vector, and by nothing else; both
/// kinds keep their order.
pub proof fn rows_are_told_apart_by_their_vector(rows: Seq<RowValue>)
    ensures
        ranked(rows) == rows.filter(|r: RowValue| r.vector is Some),
        unranked(rows).len() == rows.filter(|r: RowValue| r.vector is None).len(),
        forall|i: int|
            0 <= i < unranked(rows).len() ==> {
                let row = rows.filter(|r: RowValue| r.vector is None)[i];
                &&& (#[trigger] unranked(rows)[i]).tid == row.tid
                &&& unranked(rows)[i].attrs == row.attrs
            },
    decreases rows.len(),
{
    reveal(Seq::filter);
    if rows.len() > 0 {
        rows_are_told_apart_by_their_vector(rows.drop_last());
    }
}

/// Replaying rows one by one, in any number of steps, is replaying them at once.
pub proof fn replays_go_on(s: Stored, b: Builder, first: Seq<RowValue>, more: Seq<RowValue>)
    requires
        s.replay(b, first).1 is Ok,
    ensures
        s.replay(b, first + more) == s.replay(b, first).0.replay(b, more),
    decreases more.len(),
{
    if more.len() == 0 {
        assert(first + more =~= first);
    } else {
        replays_go_on(s, b, first, more.drop_last());
        assert((first + more).drop_last() =~= first + more.drop_last());
    }
}

/// Whatever is staged after a savepoint is undone by rolling back to it, and only
/// that: the rows pending before come back, none missing and none left over.
pub proof fn rolling_back_undoes_what_was_staged(p: Unwritten, w: Staged)
    requires
        p.marked(),
        p.write matches Some(s) ==> {
            &&& w.key == s.key
            &&& w.index_oid == s.index_oid
            &&& s.rows.len() <= w.rows.len()
            &&& w.rows.take(s.rows.len() as int) == s.rows
        },
    ensures
        ({
            let after = (Unwritten { write: Some(w), ..p.started() }).rolled_back();
            &&& pending_rows(after.write) == pending_rows(p.write)
            &&& after.marks == p.marks
            &&& after.aside == p.aside
        }),
{
    let q = Unwritten { write: Some(w), ..p.started() };
    assert forall|i: int| 0 <= i < p.aside.len() implies (#[trigger] p.aside[i]).depth
        < q.marks.len() by {}
    lemma_first_aside_is(p.aside, q.marks.len(), 0, p.aside.len() as int);
    assert(q.marks.drop_last() =~= p.marks);
    if let Some(s) = p.write {
        assert(w.rows.take(w.rows.len() as int) =~= w.rows);
    }
}

/// A savepoint that ends well changes no pending row; what it staged is then
/// undone with what is around it.
pub proof fn ending_a_savepoint_keeps_its_rows(p: Unwritten, w: Staged)
    requires
        p.marked(),
        p.write matches Some(s) ==> {
            &&& w.key == s.key
            &&& w.index_oid == s.index_oid
            &&& s.rows.len() <= w.rows.len()
            &&& w.rows.take(s.rows.len() as int) == s.rows
        },
    ensures
        ({
            let inner = (Unwritten { write: Some(w), ..p.started().started() }).joined();
            &&& inner.write == Some(w)
            &&& inner.marks.len() == p.marks.len() + 1
            &&& pending_rows(inner.rolled_back().write) == pending_rows(p.write)
        }),
{
    let q = p.started();
    let inner = (Unwritten { write: Some(w), ..q.started() }).joined();
    assert(q.started().marks.drop_last() =~= q.marks);
    assert(inner.aside =~= p.aside) by {
        assert forall|i: int| 0 <= i < p.aside.len() implies #[trigger] inner.aside[i]
            == p.aside[i] by {
            assert(p.aside[i].depth <= p.marks.len());
        }
    }
    assert(inner == (Unwritten { write: Some(w), ..q }));
    rolling_back_undoes_what_was_staged(p, w);
}

/// Rebuilding an index leaves nothing pending for it, and touches nothing pending
/// for another. Undone with the savepoint it happened in, it brings back what was
/// pending.
pub proof fn rebuilds_are_undone_with_their_savepoint(p: Unwritten, index_oid: u32)
    requires
        p.marked(),
    ensures
        p.write matches Some(s) && s.index_oid != index_oid ==> p.rebuilt(index_oid) == p,
        p.write matches Some(s) && s.index_oid == index_oid ==> p.rebuilt(index_oid).write is None,
        pending_rows(p.started().rebuilt(index_oid).rolled_back().write) == pending_rows(p.write),
        p.started().rebuilt(index_oid).rolled_back().marks == p.marks,
{
    let q = p.started();
    let depth = q.marks.len();
    let r = q.rebuilt(index_oid);
    assert(q.marks.drop_last() =~= p.marks);
    assert(q.marks.take(depth - 1) =~= p.marks);
    assert forall|i: int| 0 <= i < p.aside.len() implies (#[trigger] r.aside[i]).depth < depth by {
        assert(r.aside[i] == p.aside[i]);
        assert(p.aside[i].depth <= p.marks.len());
    }
    lemma_first_aside_is(r.aside, depth, 0, p.aside.len() as int);
}

/// A row is staged on what is pending for its index, or on the index as stored if
/// nothing is. Where the graph in memory was given up, it is the stored index with
/// the pending rows added again.
pub proof fn staging_goes_on_from_what_is_pending<
    K: Fn(Kernel, &[u32], &[u32]) -> u32,
    L: Fn(u64, usize) -> usize,
>(
    pending: Option<Staged>,
    key: CacheKey,
    index_oid: u32,
    fork: Fork,
    pages: spec_fn(u32) -> Seq<u8>,
    kernel: K,
    level: L,
    len: usize,
    generation: u64,
    stored: Stored,
)
    requires
        meta_of(fork, pages(0)) == Ok::<(usize, u64), MetaError>((len, generation)),
        loaded(fork, pages) == Ok::<Stored, LoadError>(stored),
    ensures
        pending is None ==> (opened(pending, key, index_oid, fork, pages, kernel, level) matches Ok(
            (w, s),
        ) && {
            &&& s == stored && w.stored == Some(stored)
            &&& w.key == key && w.index_oid == index_oid
            &&& w.base_generation == generation
            &&& w.rows.len() == 0
        }),
        pending matches Some(p) ==> p.stored matches Some(s) ==> opened(
            pending,
            key,
            index_oid,
            fork,
            pages,
            kernel,
            level,
        ) == Ok::<(Staged, Stored), StageError>((p, s)),
        pending matches Some(p) ==> p.stored is None ==> {
            let (t, r) = stored.replay(builder_for(kernel, level, stored.graph.metric), p.rows);
            match opened(pending, key, index_oid, fork, pages, kernel, level) {
                Ok((w, s)) => {
                    &&& r is Ok
                    &&& s == t && w.rows == p.rows
                    &&& w.key == p.key && w.index_oid == p.index_oid
                    &&& w.base_generation == generation
                },
                Err(e) => r matches Err(f) && e == StageError::Apply(f),
            }
        },
{
}

/// Nothing is written back to an index that is gone or has been rebuilt.
pub proof fn rebuilt_indexes_are_not_written_to<
    K: Fn(Kernel, &[u32], &[u32]) -> u32,
    L: Fn(u64, usize) -> usize,
>(
    w: Staged,
    current: Option<CacheKey>,
    fork: Fork,
    pages: spec_fn(u32) -> Seq<u8>,
    kernel: K,
    level: L,
)
    requires
        current matches Some(key) ==> key != w.key,
    ensures
        flushed(w, current, fork, pages, kernel, level) == Ok::<
            Option<(Seq<u8>, u64)>,
            StageError,
        >(None),
{
}

/// Pending rows are written back before their transaction commits or prepares,
/// dropped when it aborts, and kept through everything else.
pub proof fn pending_rows_go_with_their_transaction(event: XactEvent, r: PendingAction)
    requires
        call_ensures(on_xact, (event,), r),
    ensures
        r is Flush <==> event is PreCommit || event is ParallelPreCommit || event is PrePrepare,
        r is Discard <==> event is Abort || event is ParallelAbort,
        r is Keep <==> event is Commit || event is ParallelCommit || event is Prepare,
{
}

} // verus!
