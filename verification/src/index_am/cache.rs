//! Decoded indexes kept for reuse.
//!
//! Decoding is where a query's time goes, so a decoded copy is kept per index,
//! good while the generation it was decoded at still matches the metapage. All
//! copies together stay under a ceiling.

use super::payload::TidPair;
use super::storage::{
    fetch_ok, load_index, loaded, meta_of, pages_of, read_meta, Fork, LoadError, MetaError,
};
use super::stored::{unranked_rows, Index, Stored, Unranked};
use crate::hnsw::Hnsw;
use std::rc::Rc;
use vstd::prelude::*;

verus! {

/// Identifies the physical relation: tablespace, database and file number. A
/// rebuild writes a new file, so it is never mistaken for the index a copy came
/// from.
pub type CacheKey = (u32, u32, u32);

/// A decoded index.
pub struct CachedIndex {
    /// The generation it was decoded at.
    pub generation: u64,
    /// Its resident size.
    pub bytes: usize,
    pub decoded: Index,
}

impl CachedIndex {
    /// The index as a value.
    pub open spec fn index(self) -> Stored {
        self.decoded@
    }
}

/// A copy and the relation it belongs to. Readers share the copy: dropping it
/// from the cache leaves theirs alone.
pub struct Entry {
    pub key: CacheKey,
    pub index: Rc<CachedIndex>,
}

/// What a reader gets: a shared copy, the writing transaction's own graph, or a
/// decode of its own.
pub enum IndexHandle<'a> {
    Cached(Rc<CachedIndex>),
    Pending(&'a Index),
    Fresh(Box<Index>),
}

impl<'a> IndexHandle<'a> {
    /// The index behind the handle.
    pub open spec fn index(self) -> Stored {
        match self {
            IndexHandle::Cached(c) => c.index(),
            IndexHandle::Pending(index) => index@,
            IndexHandle::Fresh(owned) => owned@,
        }
    }

    /// The graph behind the handle is sound.
    pub open spec fn sound(self) -> bool {
        match self {
            IndexHandle::Cached(c) => c.decoded.hnsw.wf(),
            IndexHandle::Pending(index) => index.hnsw.wf(),
            IndexHandle::Fresh(owned) => owned.hnsw.wf(),
        }
    }

    /// The graph behind the handle.
    pub fn graph(&self) -> (r: &Hnsw)
        ensures
            r@ == self.index().graph,
            self.sound() ==> r.wf(),
    {
        match self {
            IndexHandle::Cached(c) => &c.decoded.hnsw,
            IndexHandle::Pending(index) => &index.hnsw,
            IndexHandle::Fresh(owned) => &owned.hnsw,
        }
    }

    /// The heap address of each node.
    pub fn tids(&self) -> (r: &[TidPair])
        ensures
            r@ == self.index().tids,
    {
        match self {
            IndexHandle::Cached(c) => c.decoded.tids.as_slice(),
            IndexHandle::Pending(index) => index.tids.as_slice(),
            IndexHandle::Fresh(owned) => owned.tids.as_slice(),
        }
    }

    /// The rows without a vector.
    pub fn unranked(&self) -> (r: &[Unranked])
        ensures
            unranked_rows(r@) == self.index().unranked,
    {
        match self {
            IndexHandle::Cached(c) => c.decoded.unranked.as_slice(),
            IndexHandle::Pending(index) => index.unranked.as_slice(),
            IndexHandle::Fresh(owned) => owned.unranked.as_slice(),
        }
    }
}

/// Resident size of copies.
pub open spec fn total(entries: Seq<Entry>) -> nat
    decreases entries.len(),
{
    if entries.len() == 0 {
        0
    } else {
        total(entries.drop_last()) + entries.last().index.bytes as nat
    }
}

/// No relation has two copies.
pub open spec fn keys_distinct(entries: Seq<Entry>) -> bool {
    forall|i: int, j: int|
        0 <= i < j < entries.len() ==> (#[trigger] entries[i]).key != (#[trigger] entries[j]).key
}

/// The oldest entry from `from` on that is not `keep`'s; past the end if there is
/// none.
pub open spec fn victim(entries: Seq<Entry>, keep: Option<CacheKey>, from: int) -> int
    decreases entries.len() - from,
{
    if from >= entries.len() {
        entries.len() as int
    } else if Some(entries[from].key) != keep {
        from
    } else {
        victim(entries, keep, from + 1)
    }
}

/// Drop the oldest copies but `keep`'s until the rest fits in `room`.
pub open spec fn evicted(entries: Seq<Entry>, keep: Option<CacheKey>, room: nat) -> Seq<Entry>
    decreases entries.len(),
{
    let at = victim(entries, keep, 0);
    if total(entries) <= room || !(0 <= at < entries.len()) {
        entries
    } else {
        evicted(entries.remove(at), keep, room)
    }
}

/// Where a relation's copy is; past the end if it has none.
pub open spec fn position(entries: Seq<Entry>, key: CacheKey, from: int) -> int
    decreases entries.len() - from,
{
    if from >= entries.len() {
        entries.len() as int
    } else if entries[from].key == key {
        from
    } else {
        position(entries, key, from + 1)
    }
}

/// The copies left, and the one found, when a relation's copy is asked for. A
/// ceiling of zero gives up every copy. A lowered ceiling binds at once. A copy
/// of another generation, or one over the ceiling, is dropped.
pub open spec fn looked_up(
    entries: Seq<Entry>,
    key: CacheKey,
    generation: u64,
    ceiling: nat,
) -> (Seq<Entry>, Option<CachedIndex>) {
    let kept = evicted(entries, Some(key), ceiling);
    let at = position(kept, key, 0);
    if ceiling == 0 {
        (Seq::empty(), None)
    } else if at >= kept.len() {
        (kept, None)
    } else if kept[at].index.generation != generation || kept[at].index.bytes > ceiling {
        (kept.remove(at), None)
    } else {
        (kept, Some(*kept[at].index))
    }
}

/// The copies left when a new one is put in: the oldest make room, and it takes
/// the place of its relation's previous one.
pub open spec fn filled(entries: Seq<Entry>, entry: Entry, ceiling: nat) -> Seq<Entry> {
    let kept = evicted(entries, None, (ceiling - entry.index.bytes) as nat);
    let at = position(kept, entry.key, 0);
    if at < kept.len() {
        kept.remove(at).push(entry)
    } else {
        kept.push(entry)
    }
}

/// Every copy of this relation at this generation is this index.
pub open spec fn faithful(
    entries: Seq<Entry>,
    key: CacheKey,
    generation: u64,
    index: Stored,
) -> bool {
    forall|i: int|
        0 <= i < entries.len() && (#[trigger] entries[i]).key == key
            && entries[i].index.generation == generation ==> entries[i].index.index() == index
}

proof fn lemma_total_remove(entries: Seq<Entry>, at: int)
    requires
        0 <= at < entries.len(),
    ensures
        total(entries.remove(at)) == total(entries) - entries[at].index.bytes,
    decreases entries.len(),
{
    if at == entries.len() - 1 {
        assert(entries.remove(at) =~= entries.drop_last());
    } else {
        lemma_total_remove(entries.drop_last(), at);
        assert(entries.remove(at).drop_last() =~= entries.drop_last().remove(at));
        assert(entries.remove(at).last() == entries.last());
    }
}

proof fn lemma_total_bound(entries: Seq<Entry>)
    ensures
        total(entries) <= entries.len() * usize::MAX,
    decreases entries.len(),
{
    if entries.len() > 0 {
        lemma_total_bound(entries.drop_last());
        assert(entries.len() * usize::MAX == (entries.len() - 1) * usize::MAX + usize::MAX)
            by (nonlinear_arith);
    }
}

proof fn lemma_victim(entries: Seq<Entry>, keep: Option<CacheKey>, from: int)
    requires
        0 <= from <= entries.len(),
    ensures
        from <= victim(entries, keep, from) <= entries.len(),
        forall|i: int|
            from <= i < victim(entries, keep, from) ==> Some((#[trigger] entries[i]).key) == keep,
        victim(entries, keep, from) < entries.len() ==> Some(
            entries[victim(entries, keep, from)].key,
        ) != keep,
    decreases entries.len() - from,
{
    if from < entries.len() && Some(entries[from].key) == keep {
        lemma_victim(entries, keep, from + 1);
    }
}

proof fn lemma_position(entries: Seq<Entry>, key: CacheKey, from: int)
    requires
        0 <= from <= entries.len(),
    ensures
        from <= position(entries, key, from) <= entries.len(),
        forall|i: int|
            from <= i < position(entries, key, from) ==> (#[trigger] entries[i]).key != key,
        position(entries, key, from) < entries.len() ==> entries[position(
            entries,
            key,
            from,
        )].key == key,
    decreases entries.len() - from,
{
    if from < entries.len() && entries[from].key != key {
        lemma_position(entries, key, from + 1);
    }
}

/// Everything in `part` is in `whole`.
spec fn drawn_from(part: Seq<Entry>, whole: Seq<Entry>) -> bool {
    forall|i: int| 0 <= i < part.len() ==> whole.contains(#[trigger] part[i])
}

proof fn lemma_remove(entries: Seq<Entry>, at: int)
    requires
        0 <= at < entries.len(),
    ensures
        drawn_from(entries.remove(at), entries),
        keys_distinct(entries) ==> keys_distinct(entries.remove(at)),
{
    let rest = entries.remove(at);
    assert forall|i: int| 0 <= i < rest.len() implies entries.contains(#[trigger] rest[i]) by {
        if i < at {
            assert(rest[i] == entries[i]);
        } else {
            assert(rest[i] == entries[i + 1]);
        }
    }
}

/// Evicting keeps only what was there, and gets under `room` unless nothing but
/// the kept copy is left.
proof fn lemma_evicted(entries: Seq<Entry>, keep: Option<CacheKey>, room: nat)
    ensures
        drawn_from(evicted(entries, keep, room), entries),
        keys_distinct(entries) ==> keys_distinct(evicted(entries, keep, room)),
        total(evicted(entries, keep, room)) > room ==> forall|i: int|
            0 <= i < evicted(entries, keep, room).len() ==> Some(
                (#[trigger] evicted(entries, keep, room)[i]).key,
            ) == keep,
    decreases entries.len(),
{
    let at = victim(entries, keep, 0);
    lemma_victim(entries, keep, 0);
    if total(entries) <= room || at >= entries.len() {
        assert forall|i: int| 0 <= i < entries.len() implies entries.contains(
            #[trigger] entries[i],
        ) by {}
    } else {
        let rest = entries.remove(at);
        lemma_remove(entries, at);
        lemma_evicted(rest, keep, room);
        let kept = evicted(rest, keep, room);
        assert forall|i: int| 0 <= i < kept.len() implies entries.contains(
            #[trigger] kept[i],
        ) by {
            let k = choose|k: int| 0 <= k < rest.len() && rest[k] == kept[i];
            assert(entries.contains(rest[k]));
        }
    }
}

/// The ceiling binds: the copies left after asking for one, and after putting one
/// in, are within it, whatever it was before.
pub proof fn the_ceiling_binds(
    entries: Seq<Entry>,
    key: CacheKey,
    generation: u64,
    entry: Entry,
    ceiling: nat,
)
    requires
        keys_distinct(entries),
    ensures
        total(looked_up(entries, key, generation, ceiling).0) <= ceiling,
        entry.index.bytes <= ceiling ==> total(filled(entries, entry, ceiling)) <= ceiling,
{
    let kept = evicted(entries, Some(key), ceiling);
    lemma_evicted(entries, Some(key), ceiling);
    lemma_position(kept, key, 0);
    let at = position(kept, key, 0);
    if at < kept.len() {
        lemma_total_remove(kept, at);
    }
    if total(kept) > ceiling {
        if kept.len() > 1 {
            assert(kept[0].key == key && kept[1].key == key);
        }
        assert(kept.len() == 1) by {
            if kept.len() == 0 {
                assert(total(kept) == 0);
            }
        }
        assert(kept[0].key == key);
        assert(kept.drop_last().len() == 0);
        assert(total(kept) == kept[0].index.bytes);
    }
    if entry.index.bytes <= ceiling {
        let room = (ceiling - entry.index.bytes) as nat;
        let left = evicted(entries, None, room);
        lemma_evicted(entries, None, room);
        if total(left) > room && left.len() > 0 {
            assert(Some(left[0].key) == None::<CacheKey>);
        }
        lemma_position(left, entry.key, 0);
        let pos = position(left, entry.key, 0);
        if pos < left.len() {
            lemma_total_remove(left, pos);
            assert(left.remove(pos).push(entry).drop_last() =~= left.remove(pos));
        } else {
            assert(left.push(entry).drop_last() =~= left);
        }
    }
}

/// No relation ever has two copies.
pub proof fn keys_stay_distinct(
    entries: Seq<Entry>,
    key: CacheKey,
    generation: u64,
    entry: Entry,
    ceiling: nat,
)
    requires
        keys_distinct(entries),
    ensures
        keys_distinct(looked_up(entries, key, generation, ceiling).0),
        keys_distinct(filled(entries, entry, ceiling)),
{
    let kept = evicted(entries, Some(key), ceiling);
    lemma_evicted(entries, Some(key), ceiling);
    lemma_position(kept, key, 0);
    let at = position(kept, key, 0);
    if at < kept.len() {
        lemma_remove(kept, at);
    }
    let room = (ceiling - entry.index.bytes) as nat;
    let left = evicted(entries, None, room);
    lemma_evicted(entries, None, room);
    lemma_position(left, entry.key, 0);
    let pos = position(left, entry.key, 0);
    if pos < left.len() {
        lemma_remove(left, pos);
        let rest = left.remove(pos);
        assert forall|i: int| 0 <= i < rest.len() implies (#[trigger] rest[i]).key
            != entry.key by {
            if i < pos {
                assert(rest[i] == left[i]);
            } else {
                assert(rest[i] == left[i + 1]);
                assert(left[pos].key == entry.key);
            }
        }
    }
}

/// A copy that is found is the index itself: the one whose generation the
/// metapage still carries. Faithful copies stay so when asked for.
pub proof fn found_copies_are_current(
    entries: Seq<Entry>,
    key: CacheKey,
    generation: u64,
    ceiling: nat,
    index: Stored,
)
    requires
        faithful(entries, key, generation, index),
    ensures
        looked_up(entries, key, generation, ceiling).1 matches Some(c) ==> c.index() == index
            && c.generation == generation,
        faithful(looked_up(entries, key, generation, ceiling).0, key, generation, index),
{
    let kept = evicted(entries, Some(key), ceiling);
    lemma_evicted(entries, Some(key), ceiling);
    assert(faithful(kept, key, generation, index)) by {
        assert forall|i: int|
            0 <= i < kept.len() && (#[trigger] kept[i]).key == key && kept[i].index.generation
                == generation implies kept[i].index.index() == index by {
            let k = choose|k: int| 0 <= k < entries.len() && entries[k] == kept[i];
            assert(entries[k].key == key);
        }
    }
    lemma_position(kept, key, 0);
    let at = position(kept, key, 0);
    if at < kept.len() {
        lemma_remove(kept, at);
        let rest = kept.remove(at);
        assert(faithful(rest, key, generation, index)) by {
            assert forall|i: int|
                0 <= i < rest.len() && (#[trigger] rest[i]).key == key && rest[i].index.generation
                    == generation implies rest[i].index.index() == index by {
                let k = choose|k: int| 0 <= k < kept.len() && kept[k] == rest[i];
                assert(kept[k].key == key);
            }
        }
    }
}

/// The ceiling in bytes that a setting in megabytes stands for.
pub fn ceiling_of(mb: u32) -> (r: u64)
    ensures
        r == mb * 0x10_0000,
{
    mb as u64 * 0x10_0000
}

/// The decoded indexes at hand, oldest first.
pub struct Cache {
    entries: Vec<Entry>,
}

impl View for Cache {
    type V = Seq<Entry>;

    closed spec fn view(&self) -> Seq<Entry> {
        self.entries@
    }
}

impl Cache {
    /// Every copy's graph is sound, and no relation has two.
    pub open spec fn wf(&self) -> bool {
        &&& keys_distinct(self@)
        &&& forall|i: int| 0 <= i < self@.len() ==> (#[trigger] self@[i]).index.decoded.hnsw.wf()
    }

    /// No copies.
    pub fn new() -> (r: Self)
        ensures
            r.wf(),
            r@ == Seq::<Entry>::empty(),
    {
        Cache { entries: Vec::new() }
    }

    /// Resident size of all copies.
    fn total(&self) -> (r: u128)
        ensures
            r == total(self@),
    {
        let mut sum: u128 = 0;
        let mut i: usize = 0;
        assert(self@.take(0) =~= Seq::<Entry>::empty());
        assert(self.entries.len() == self.entries@.len());
        while i < self.entries.len()
            invariant
                i <= self@.len() <= usize::MAX,
                self@ == self.entries@,
                sum == total(self@.take(i as int)),
            decreases self@.len() - i,
        {
            proof {
                let next = self@.take(i + 1);
                assert(next.drop_last() =~= self@.take(i as int));
                lemma_total_bound(self@.take(i as int));
                assert(i * usize::MAX <= 0xffff_ffff_ffff_ffff * 0xffff_ffff_ffff_ffff)
                    by (nonlinear_arith)
                    requires
                        0 <= i <= 0xffff_ffff_ffff_ffff,
                        0 <= usize::MAX <= 0xffff_ffff_ffff_ffff,
                ;
            }
            sum = sum + self.entries[i].index.bytes as u128;
            i += 1;
        }
        assert(self@.take(self@.len() as int) =~= self@);
        sum
    }

    /// Where to look for the oldest copy but `keep`'s.
    fn victim(&self, keep: Option<CacheKey>) -> (r: usize)
        ensures
            r == victim(self@, keep, 0),
    {
        let mut i: usize = 0;
        while i < self.entries.len()
            invariant
                i <= self@.len(),
                self@ == self.entries@,
                victim(self@, keep, 0) == victim(self@, keep, i as int),
            decreases self@.len() - i,
        {
            let kept = match keep {
                None => false,
                Some(key) => {
                    let own = self.entries[i].key;
                    own.0 == key.0 && own.1 == key.1 && own.2 == key.2
                },
            };
            if !kept {
                return i;
            }
            i += 1;
        }
        i
    }

    /// Where a relation's copy is.
    fn position(&self, key: CacheKey) -> (r: usize)
        ensures
            r == position(self@, key, 0),
    {
        let mut i: usize = 0;
        while i < self.entries.len()
            invariant
                i <= self@.len(),
                self@ == self.entries@,
                position(self@, key, 0) == position(self@, key, i as int),
            decreases self@.len() - i,
        {
            let own = self.entries[i].key;
            if own.0 == key.0 && own.1 == key.1 && own.2 == key.2 {
                return i;
            }
            i += 1;
        }
        i
    }

    /// Drop the oldest copies but `keep`'s until the rest fits.
    fn evict(&mut self, keep: Option<CacheKey>, room: u64)
        requires
            old(self).wf(),
        ensures
            final(self).wf(),
            final(self)@ == evicted(old(self)@, keep, room as nat),
    {
        while self.total() > room as u128
            invariant_except_break
                self.wf(),
                evicted(self@, keep, room as nat) == evicted(old(self)@, keep, room as nat),
            ensures
                self.wf(),
                self@ == evicted(old(self)@, keep, room as nat),
            decreases self@.len(),
        {
            let at: usize = self.victim(keep);
            proof {
                lemma_victim(self@, keep, 0);
            }
            if at >= self.entries.len() {
                break;
            }
            let ghost before = self@;
            let _ = self.entries.remove(at);
            proof {
                lemma_remove(before, at as int);
                assert(self@ =~= before.remove(at as int));
                assert forall|i: int| 0 <= i < self@.len() implies (
                #[trigger] self@[i]).index.decoded.hnsw.wf() by {
                    let k = choose|k: int| 0 <= k < before.len() && before[k] == self@[i];
                    assert(before[k].index.decoded.hnsw.wf());
                }
            }
        }
    }

    /// The copy of a relation that is still current, if there is one.
    pub fn lookup(&mut self, key: CacheKey, generation: u64, ceiling: u64) -> (r: Option<
        Rc<CachedIndex>,
    >)
        requires
            old(self).wf(),
        ensures
            final(self).wf(),
            ({
                let (left, hit) = looked_up(old(self)@, key, generation, ceiling as nat);
                &&& final(self)@ == left
                &&& match (r, hit) {
                    (Some(c), Some(d)) => *c == d && c.decoded.hnsw.wf(),
                    (None, None) => true,
                    _ => false,
                }
            }),
    {
        if ceiling == 0 {
            self.entries = Vec::new();
            return None;
        }
        self.evict(Some(key), ceiling);
        let at: usize = self.position(key);
        proof {
            lemma_position(self@, key, 0);
        }
        if at >= self.entries.len() {
            return None;
        }
        if self.entries[at].index.generation != generation || self.entries[at].index.bytes as u64
            > ceiling {
            let ghost before = self@;
            let _ = self.entries.remove(at);
            proof {
                lemma_remove(before, at as int);
                assert(self@ =~= before.remove(at as int));
                assert forall|i: int| 0 <= i < self@.len() implies (
                #[trigger] self@[i]).index.decoded.hnsw.wf() by {
                    let k = choose|k: int| 0 <= k < before.len() && before[k] == self@[i];
                    assert(before[k].index.decoded.hnsw.wf());
                }
            }
            return None;
        }
        assert(self@[at as int].index.decoded.hnsw.wf());
        Some(Rc::clone(&self.entries[at].index))
    }

    /// Put a copy in, making room for it under the ceiling.
    pub fn fill(&mut self, key: CacheKey, index: Rc<CachedIndex>, ceiling: u64)
        requires
            old(self).wf(),
            index.decoded.hnsw.wf(),
            index.bytes <= ceiling,
        ensures
            final(self).wf(),
            final(self)@ == filled(old(self)@, (Entry { key, index }), ceiling as nat),
    {
        let ghost entry = Entry { key, index };
        proof {
            keys_stay_distinct(self@, key, 0, entry, ceiling as nat);
        }
        self.evict(None, ceiling - index.bytes as u64);
        let at: usize = self.position(key);
        proof {
            lemma_position(self@, key, 0);
        }
        let ghost before = self@;
        if at < self.entries.len() {
            let _ = self.entries.remove(at);
            proof {
                lemma_remove(before, at as int);
            }
        } else {
            assert(drawn_from(before, before)) by {
                assert forall|i: int| 0 <= i < before.len() implies before.contains(
                    #[trigger] before[i],
                ) by {}
            }
        }
        let ghost rest = self@;
        self.entries.push(Entry { key, index });
        proof {
            assert(drawn_from(rest, before));
            assert(self@ =~= filled(old(self)@, entry, ceiling as nat));
            assert forall|i: int| 0 <= i < self@.len() implies (
            #[trigger] self@[i]).index.decoded.hnsw.wf() by {
                if i < rest.len() {
                    assert(before.contains(rest[i]));
                    let k = choose|k: int| 0 <= k < before.len() && before[k] == rest[i];
                    assert(before[k].index.decoded.hnsw.wf());
                }
            }
        }
    }
}

/// A decode of its own, or the copy just put in, for a reader that found none.
pub open spec fn kept_as<Z: Fn(&Index) -> usize>(
    handle: IndexHandle,
    measure: Z,
    key: CacheKey,
    generation: u64,
    ceiling: nat,
    left: Seq<Entry>,
    after: Seq<Entry>,
) -> bool {
    match handle {
        IndexHandle::Cached(c) => {
            &&& c.generation == generation
            &&& call_ensures(measure, (&c.decoded,), c.bytes)
            &&& ceiling > 0 && c.bytes <= ceiling
            &&& after == filled(left, (Entry { key, index: c }), ceiling)
        },
        IndexHandle::Fresh(owned) => {
            &&& after == left
            &&& ceiling == 0 || too_large(measure, *owned, ceiling)
        },
        IndexHandle::Pending(_) => false,
    }
}

/// A decoded index is over the ceiling.
pub open spec fn too_large<Z: Fn(&Index) -> usize>(
    measure: Z,
    index: Index,
    ceiling: nat,
) -> bool {
    exists|bytes: usize| #[trigger]
        call_ensures(measure, (&index,), bytes) && bytes > ceiling
}

/// Keep a decoded index if it fits under the ceiling.
fn keep<'a, Z: Fn(&Index) -> usize>(
    cache: &mut Cache,
    key: CacheKey,
    generation: u64,
    ceiling: u64,
    decoded: Index,
    measure: &Z,
) -> (r: IndexHandle<'a>)
    requires
        old(cache).wf(),
        decoded.hnsw.wf(),
        forall|x: &Index| #[trigger] call_requires(*measure, (x,)),
    ensures
        final(cache).wf(),
        r.sound(),
        r.index() == decoded@,
        kept_as(r, *measure, key, generation, ceiling as nat, old(cache)@, final(cache)@),
{
    let bytes: usize = measure(&decoded);
    if ceiling == 0 || bytes as u64 > ceiling {
        assert(ceiling > 0 ==> too_large(*measure, decoded, ceiling as nat));
        return IndexHandle::Fresh(Box::new(decoded));
    }
    let index = Rc::new(CachedIndex { generation, bytes, decoded });
    cache.fill(key, Rc::clone(&index), ceiling);
    IndexHandle::Cached(index)
}

/// The decoded index: the copy at hand when it is still current, and otherwise a
/// decode of the pages, kept if it fits under the ceiling. `measure` gives a
/// decoded index's resident size.
pub fn cached_index<
    'a,
    F: Fn(u32) -> Vec<u8>,
    Z: Fn(&Index) -> usize,
>(
    cache: &mut Cache,
    key: CacheKey,
    cache_mb: u32,
    fork: Fork,
    fetch: &F,
    measure: &Z,
) -> (r: Result<IndexHandle<'a>, LoadError>)
    requires
        old(cache).wf(),
        fetch_ok(*fetch),
        forall|x: &Index| #[trigger] call_requires(*measure, (x,)),
    ensures
        final(cache).wf(),
        r matches Ok(handle) ==> handle.sound(),
        ({
            let ceiling = (cache_mb * 0x10_0000) as nat;
            let before = old(cache)@;
            match meta_of(fork, pages_of(*fetch)(0)) {
                Err(e) => {
                    &&& final(cache)@ == before
                    &&& r matches Err(f) && f == LoadError::Meta(e)
                },
                Ok((_, generation)) => {
                    let (left, hit) = looked_up(before, key, generation, ceiling);
                    match (hit, loaded(fork, pages_of(*fetch))) {
                        (Some(c), _) => {
                            &&& final(cache)@ == left
                            &&& r matches Ok(IndexHandle::Cached(d)) && *d == c
                        },
                        (None, Err(e)) => {
                            &&& final(cache)@ == left
                            &&& r matches Err(f) && f == e
                        },
                        (None, Ok(index)) => {
                            &&& r matches Ok(handle)
                            &&& handle.index() == index
                            &&& kept_as(
                                handle,
                                *measure,
                                key,
                                generation,
                                ceiling,
                                left,
                                final(cache)@,
                            )
                        },
                    }
                },
            }
        }),
{
    let ceiling: u64 = ceiling_of(cache_mb);
    if fork.nblocks == 0 {
        return Err(LoadError::Meta(MetaError::NoPages));
    }
    let meta = fetch(0);
    proof {
        assert(call_ensures(
            *fetch,
            (0u32,),
            choose|v: Vec<u8>| call_ensures(*fetch, (0u32,), v),
        ));
        assert(meta@ == pages_of(*fetch)(0));
    }
    let generation: u64 = match read_meta(fork, meta.as_slice()) {
        Err(e) => {
            return Err(LoadError::Meta(e));
        },
        Ok((_, generation)) => generation,
    };
    if let Some(hit) = cache.lookup(key, generation, ceiling) {
        return Ok(IndexHandle::Cached(hit));
    }
    match load_index(fork, fetch) {
        Err(e) => Err(e),
        Ok(decoded) => Ok(keep(cache, key, generation, ceiling, decoded, measure)),
    }
}

/// A copy put in is found again, as long as its generation is asked for and it
/// fits under the ceiling.
pub proof fn copies_put_in_are_found(entries: Seq<Entry>, entry: Entry, ceiling: nat)
    requires
        keys_distinct(entries),
        entry.index.bytes <= ceiling,
        ceiling > 0,
    ensures
        looked_up(
            filled(entries, entry, ceiling),
            entry.key,
            entry.index.generation,
            ceiling,
        ) == (filled(entries, entry, ceiling), Some(*entry.index)),
{
    let now = filled(entries, entry, ceiling);
    the_ceiling_binds(entries, entry.key, entry.index.generation, entry, ceiling);
    keys_stay_distinct(entries, entry.key, entry.index.generation, entry, ceiling);
    let last = now.len() - 1;
    assert(now[last] == entry);
    lemma_position(now, entry.key, 0);
    let at = position(now, entry.key, 0);
    if at < now.len() {
        if at < last {
            assert(now[at].key != now[last].key);
        }
    } else {
        assert(now[last].key != entry.key);
    }
}

/// While all copies fit, asking for one drops none but an outdated one of the same
/// relation: a relation's copy of the generation asked for is found, and the
/// others stay.
pub proof fn copies_that_fit_stay(
    entries: Seq<Entry>,
    key: CacheKey,
    generation: u64,
    ceiling: nat,
    i: int,
)
    requires
        keys_distinct(entries),
        total(entries) <= ceiling,
        ceiling > 0,
        0 <= i < entries.len(),
    ensures
        entries[i].key == key && entries[i].index.generation == generation ==> looked_up(
            entries,
            key,
            generation,
            ceiling,
        ) == (entries, Some(*entries[i].index)),
        entries[i].key == key && entries[i].index.generation != generation ==> looked_up(
            entries,
            key,
            generation,
            ceiling,
        ) == (entries.remove(i), None::<CachedIndex>),
        entries[i].key != key ==> looked_up(entries, key, generation, ceiling).0.contains(
            entries[i],
        ),
{
    lemma_position(entries, key, 0);
    let at = position(entries, key, 0);
    assert(evicted(entries, Some(key), ceiling) == entries);
    if entries[i].key == key {
        if at < entries.len() && at != i {
            if at < i {
                assert(entries[at].key != entries[i].key);
            } else {
                assert(entries[i].key != entries[at].key);
            }
        }
        lemma_total_at_least(entries, i);
    } else if at < entries.len() {
        let rest = entries.remove(at);
        if i < at {
            assert(rest[i] == entries[i]);
        } else {
            assert(rest[i - 1] == entries[i]);
        }
        lemma_total_at_least(entries, at);
        assert(entries.contains(entries[i]));
    } else {
        assert(entries.contains(entries[i]));
    }
}

/// One copy is no larger than all of them.
proof fn lemma_total_at_least(entries: Seq<Entry>, i: int)
    requires
        0 <= i < entries.len(),
    ensures
        entries[i].index.bytes <= total(entries),
    decreases entries.len(),
{
    if i < entries.len() - 1 {
        lemma_total_at_least(entries.drop_last(), i);
        assert(entries.drop_last()[i] == entries[i]);
    }
}

/// The oldest copies make room for a new one, and no more of them than it takes:
/// where what is left without the first `d` fits beside it, and what is left
/// without one less does not, those `d` go.
pub proof fn the_oldest_copies_make_room(entries: Seq<Entry>, entry: Entry, ceiling: nat, d: int)
    requires
        0 <= d <= entries.len(),
        entry.index.bytes <= ceiling,
        total(entries.skip(d)) + entry.index.bytes <= ceiling,
        d > 0 ==> total(entries.skip(d - 1)) + entry.index.bytes > ceiling,
        forall|i: int| 0 <= i < entries.len() ==> (#[trigger] entries[i]).key != entry.key,
    ensures
        filled(entries, entry, ceiling) == entries.skip(d).push(entry),
{
    let room = (ceiling - entry.index.bytes) as nat;
    lemma_oldest_go(entries, room, d);
    let kept = entries.skip(d);
    lemma_position(kept, entry.key, 0);
    let at = position(kept, entry.key, 0);
    if at < kept.len() {
        assert(kept[at] == entries[d + at]);
    }
}

proof fn lemma_oldest_go(entries: Seq<Entry>, room: nat, d: int)
    requires
        0 <= d <= entries.len(),
        total(entries.skip(d)) <= room,
        d > 0 ==> total(entries.skip(d - 1)) > room,
    ensures
        evicted(entries, None, room) == entries.skip(d),
        total(entries.skip(d)) <= total(entries),
        d > 0 ==> total(entries) > room,
    decreases entries.len(),
{
    assert(entries.skip(0) =~= entries);
    if d > 0 {
        let rest = entries.remove(0);
        assert(rest =~= entries.skip(1));
        assert(rest.skip(d - 1) =~= entries.skip(d));
        lemma_total_remove(entries, 0);
        if d > 1 {
            assert(rest.skip(d - 2) =~= entries.skip(d - 1));
        }
        lemma_oldest_go(rest, room, d - 1);
        assert(victim(entries, None, 0) == 0);
    }
}

/// A lowered ceiling binds at once, on the oldest copies first: asking for a
/// relation without a copy drops as many of the oldest as it takes for the rest to
/// fit, and no more.
pub proof fn a_lowered_ceiling_drops_the_oldest(
    entries: Seq<Entry>,
    key: CacheKey,
    generation: u64,
    ceiling: nat,
    d: int,
)
    requires
        0 <= d <= entries.len(),
        ceiling > 0,
        total(entries.skip(d)) <= ceiling,
        d > 0 ==> total(entries.skip(d - 1)) > ceiling,
        forall|i: int| 0 <= i < entries.len() ==> (#[trigger] entries[i]).key != key,
    ensures
        looked_up(entries, key, generation, ceiling) == (entries.skip(d), None::<CachedIndex>),
{
    lemma_oldest_go(entries, ceiling, d);
    lemma_absent_keeps_nothing(entries, key, ceiling);
    let kept = entries.skip(d);
    lemma_position(kept, key, 0);
    let at = position(kept, key, 0);
    if at < kept.len() {
        assert(kept[at] == entries[d + at]);
    }
}

/// Holding on to a relation without a copy is holding on to nothing.
proof fn lemma_absent_keeps_nothing(entries: Seq<Entry>, key: CacheKey, room: nat)
    requires
        forall|i: int| 0 <= i < entries.len() ==> (#[trigger] entries[i]).key != key,
    ensures
        evicted(entries, Some(key), room) == evicted(entries, None, room),
    decreases entries.len(),
{
    if entries.len() > 0 {
        assert(Some(entries[0].key) != Some(key));
        assert(victim(entries, Some(key), 0) == 0);
        assert(victim(entries, None, 0) == 0);
        let rest = entries.remove(0);
        assert forall|i: int| 0 <= i < rest.len() implies (#[trigger] rest[i]).key != key by {
            assert(rest[i] == entries[i + 1]);
        }
        lemma_absent_keeps_nothing(rest, key, room);
    }
}

} // verus!
