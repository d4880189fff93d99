//! Neighbor lists name each neighbor once, and never their own node.

use super::beam::{sorted, Cand};
use super::found::{distinct, lemma_sorted_distinct};
use super::graph::{Graph, Hnsw};
use super::insert::{ids_of, lemma_entry_for_insert, lemma_next_entry, narrow, Builder, Row};
use super::params::HnswParams;
use super::search::Walk;
use crate::filter::AttrValue;
use vstd::prelude::*;

verus! {

/// A list of node `id`: no node twice, and not `id` itself.
pub open spec fn names_others(id: int, list: Seq<u32>) -> bool {
    &&& list.no_duplicates()
    &&& forall|i: int| 0 <= i < list.len() ==> (#[trigger] list[i]) != id
}

impl Graph {
    /// Every neighbor list names each neighbor once, and not its own node.
    pub open spec fn simple(self) -> bool {
        forall|id: int, layer: int|
            0 <= id < self.nodes.len() && 0 <= layer < self.nodes[id].layers.len()
                ==> names_others(id, #[trigger] self.nodes[id].layers[layer])
    }

    /// No list on the layers up to `top` names `id`.
    pub open spec fn unlinked(self, id: int, top: int) -> bool {
        forall|k: int, layer: int, i: int|
            0 <= k < self.nodes.len() && 0 <= layer <= top && layer < self.nodes[k].layers.len()
                && 0 <= i < self.nodes[k].layers[layer].len() ==> (
            #[trigger] self.nodes[k].layers[layer][i]) != id
    }

    /// A walk of a layer that starts elsewhere does not come upon a node that no
    /// list names.
    pub proof fn lemma_unlinked_closed(self, id: int, top: int, layer: int)
        requires
            self.unlinked(id, top),
            layer <= top,
        ensures
            self.closed_under_links(|x: int| x != id, layer),
    {
        let p = |x: int| x != id;
        assert forall|k: int, i: int|
            p(k) && 0 <= i < self.neighbors(k, layer).len() implies p(
            #[trigger] self.neighbors(k, layer)[i] as int,
        ) by {
            assert(self.nodes[k].layers[layer][i] != id);
        }
    }
}

impl Builder {
    pub(crate) proof fn lemma_diverse_distinct(self, g: Graph, cands: Seq<Cand>, m: nat)
        requires
            distinct(cands),
        ensures
            self.diverse(g, cands, m).no_duplicates(),
        decreases cands.len(),
    {
        if cands.len() > 0 {
            let head = cands.drop_last();
            assert(distinct(head)) by {
                assert forall|i: int, j: int|
                    0 <= i < head.len() && 0 <= j < head.len() && i != j implies (
                #[trigger] head[i]).id != (#[trigger] head[j]).id by {
                    assert(cands[i].id != cands[j].id);
                }
            }
            self.lemma_diverse_distinct(g, head, m);
            self.lemma_diverse_members(g, head, m);
            let before = self.diverse(g, head, m);
            let all = self.diverse(g, cands, m);
            assert forall|i: int, j: int|
                0 <= i < all.len() && 0 <= j < all.len() && i != j implies all[i] != all[j] by {
                let k = if i < j {
                    i
                } else {
                    j
                };
                let l = if i < j {
                    j
                } else {
                    i
                };
                if l < before.len() {
                    assert(before[k] != before[l]);
                } else {
                    assert(ids_of(head).contains(before[k]));
                    let x = choose|x: int|
                        0 <= x < ids_of(head).len() && ids_of(head)[x] == before[k];
                    assert(cands[x].id != cands[cands.len() - 1].id);
                }
            }
        }
    }

    proof fn lemma_backfill_distinct(self, cands: Seq<Cand>, selected: Seq<usize>, m: nat)
        requires
            selected.no_duplicates(),
        ensures
            self.backfill(cands, selected, m).no_duplicates(),
        decreases cands.len(),
    {
        if cands.len() > 0 {
            self.lemma_backfill_distinct(cands.drop_last(), selected, m);
        }
    }

    /// A selection from different candidates names none twice.
    pub proof fn lemma_select_distinct(self, g: Graph, cands: Seq<Cand>, m: nat)
        requires
            distinct(cands),
        ensures
            self.select(g, cands, m).no_duplicates(),
    {
        let near = sorted(cands);
        lemma_sorted_distinct(cands);
        self.lemma_diverse_distinct(g, near, m);
        self.lemma_backfill_distinct(near, self.diverse(g, near, m), m);
    }

    /// Appending a new id, and pruning if need be, leaves a list proper.
    proof fn lemma_appended_simple(self, g: Graph, n: int, id: u32, layer: int)
        requires
            g.valid(),
            g.on_layer(n, layer),
            layer >= 0,
            names_others(n, g.nodes[n].layers[layer]),
            !g.nodes[n].layers[layer].contains(id),
            id != n,
        ensures
            names_others(n, self.appended(g, n, id, layer)),
    {
        let was = g.nodes[n].layers[layer];
        let list = was.push(id);
        assert forall|i: int, j: int|
            0 <= i < list.len() && 0 <= j < list.len() && i != j implies list[i] != list[j] by {
            if i < was.len() && j < was.len() {
                assert(was[i] != was[j]);
            }
        }
        assert(names_others(n, list));
        if list.len() > g.cap(layer) {
            let cands = self.scored(g, n, list);
            assert(distinct(cands)) by {
                assert forall|i: int, j: int|
                    0 <= i < cands.len() && 0 <= j < cands.len() && i != j implies (
                #[trigger] cands[i]).id != (#[trigger] cands[j]).id by {
                    assert(list[i] != list[j]);
                }
            }
            self.lemma_select_distinct(g, cands, g.cap(layer));
            self.lemma_select_members(g, cands, g.cap(layer));
            let kept = self.select(g, cands, g.cap(layer));
            assert forall|i: int| 0 <= i < kept.len() implies (#[trigger] narrow(kept)[i]) as usize
                == kept[i] && list.contains(narrow(kept)[i]) by {
                assert(ids_of(cands).contains(kept[i]));
                let k = choose|k: int| 0 <= k < ids_of(cands).len() && ids_of(cands)[k] == kept[i];
                assert(list[k] == narrow(kept)[i]);
            }
            assert forall|i: int, j: int|
                0 <= i < kept.len() && 0 <= j < kept.len() && i != j implies narrow(kept)[i]
                != narrow(kept)[j] by {
                assert(kept[i] != kept[j]);
            }
            assert forall|i: int| 0 <= i < kept.len() implies (#[trigger] narrow(kept)[i])
                != n by {
                let k = choose|k: int| 0 <= k < list.len() && list[k] == narrow(kept)[i];
                assert(list[k] != n);
            }
        }
    }

    /// Linking back leaves lists proper, and touches none but those of the chosen
    /// nodes on the one layer.
    pub proof fn lemma_link_back_simple(self, g: Graph, chosen: Seq<usize>, id: u32, layer: int)
        requires
            g.valid(),
            g.layered(),
            g.simple(),
            layer >= 0,
            g.on_layer(id as int, layer),
            g.all_on_layer(chosen, layer),
            chosen.no_duplicates(),
            forall|i: int|
                0 <= i < chosen.len() ==> (#[trigger] chosen[i]) != id
                    && !g.nodes[chosen[i] as int].layers[layer].contains(id),
        ensures
            self.link_back(g, chosen, id, layer).simple(),
            forall|k: int|
                0 <= k < g.nodes.len() && !chosen.contains(k as usize) ==> #[trigger] self.link_back(
                    g,
                    chosen,
                    id,
                    layer,
                ).nodes[k] == g.nodes[k],
            forall|k: int, l: int|
                0 <= k < g.nodes.len() && 0 <= l < g.nodes[k].layers.len() && l != layer ==> (
                #[trigger] self.link_back(g, chosen, id, layer).nodes[k].layers[l])
                    == g.nodes[k].layers[l],
        decreases chosen.len(),
    {
        if chosen.len() > 0 {
            let head = chosen.drop_last();
            assert forall|i: int| 0 <= i < head.len() implies (#[trigger] head[i]) != id
                && !g.nodes[head[i] as int].layers[layer].contains(id) && g.on_layer(
                head[i] as int,
                layer,
            ) by {
                assert(head[i] == chosen[i]);
                assert(g.on_layer(chosen[i] as int, layer));
            }
            assert(head.no_duplicates()) by {
                assert forall|i: int, j: int|
                    0 <= i < head.len() && 0 <= j < head.len() && i != j implies head[i]
                    != head[j] by {
                    assert(chosen[i] != chosen[j]);
                }
            }
            self.lemma_link_back_simple(g, head, id, layer);
            self.lemma_link_back(g, head, id, layer);
            let h = self.link_back(g, head, id, layer);
            let last = chosen.len() - 1;
            let n = chosen[last] as int;
            assert(g.on_layer(chosen[last] as int, layer));
            assert(!head.contains(n as usize)) by {
                if head.contains(n as usize) {
                    let k = choose|k: int| 0 <= k < head.len() && head[k] == n as usize;
                    assert(chosen[k] != chosen[last]);
                }
            }
            assert(h.nodes[n] == g.nodes[n]);
            assert(names_others(n, g.nodes[n].layers[layer]));
            assert(chosen[last] != id);
            let list = self.appended(h, n, id, layer);
            self.lemma_appended_simple(h, n, id, layer);
            let after = h.with_links(n, layer, list);
            assert(after == self.link_back(g, chosen, id, layer));
            assert forall|k: int, l: int|
                0 <= k < after.nodes.len() && 0 <= l
                    < after.nodes[k].layers.len() implies names_others(
                k,
                #[trigger] after.nodes[k].layers[l],
            ) by {
                if !(k == n && l == layer) {
                    assert(after.nodes[k].layers[l] == h.nodes[k].layers[l]);
                }
            }
            assert forall|k: int|
                0 <= k < g.nodes.len() && !chosen.contains(
                    k as usize,
                ) implies #[trigger] after.nodes[k] == g.nodes[k] by {
                assert(chosen.contains(chosen[last]));
                assert(k != n);
                if head.contains(k as usize) {
                    let x = choose|x: int| 0 <= x < head.len() && head[x] == k as usize;
                    assert(chosen[x] == k as usize);
                }
                assert(h.nodes[k] == g.nodes[k]);
            }
            assert forall|k: int, l: int|
                0 <= k < g.nodes.len() && 0 <= l < g.nodes[k].layers.len() && l != layer implies (
            #[trigger] after.nodes[k].layers[l]) == g.nodes[k].layers[l] by {
                assert(h.nodes[k].layers[l] == g.nodes[k].layers[l]);
                assert(h.nodes[k].layers.len() == g.nodes[k].layers.len());
            }
        }
    }

    /// What connecting on one layer chooses: other nodes, each once.
    pub proof fn lemma_chosen(self, g: Graph, id: int, eps: Seq<usize>, layer: int)
        requires
            g.valid(),
            g.layered(),
            layer >= 0,
            g.on_layer(id, layer),
            g.all_on_layer(eps, layer),
            g.unlinked(id, layer),
            forall|i: int| 0 <= i < eps.len() ==> (#[trigger] eps[i]) != id,
        ensures
            ({
                let found = self.around(g, id).layer(eps, g.ef_construction, layer);
                let chosen = self.select(g, found, g.cap(layer));
                &&& distinct(found)
                &&& chosen.no_duplicates()
                &&& forall|i: int| 0 <= i < found.len() ==> (#[trigger] found[i]).id != id
                &&& forall|i: int| 0 <= i < chosen.len() ==> (#[trigger] chosen[i]) != id
            }),
    {
        let w = self.around(g, id);
        let found = w.layer(eps, g.ef_construction, layer);
        g.lemma_unlinked_closed(id, layer, layer);
        assert forall|i: int| 0 <= i < eps.len() implies (#[trigger] eps[i]) < g.nodes.len() by {
            assert(g.on_layer(eps[i] as int, layer));
        }
        w.lemma_layer_found(eps, g.ef_construction, layer, |x: int| x != id);
        assert forall|i: int| 0 <= i < found.len() implies (#[trigger] found[i]).id != id by {
            let c = w.layer(eps, g.ef_construction, layer)[i];
        }
        self.lemma_select_distinct(g, found, g.cap(layer));
        self.lemma_select_members(g, found, g.cap(layer));
        let chosen = self.select(g, found, g.cap(layer));
        assert forall|i: int| 0 <= i < chosen.len() implies (#[trigger] chosen[i]) != id by {
            assert(ids_of(found).contains(chosen[i]));
            let k = choose|k: int| 0 <= k < ids_of(found).len() && ids_of(found)[k] == chosen[i];
            assert(found[k].id != id);
        }
    }

    /// Linking a new node to chosen neighbors and back leaves lists proper, and
    /// the layers below alone.
    pub proof fn lemma_link_simple(self, g: Graph, chosen: Seq<usize>, id: int, layer: int)
        requires
            g.valid(),
            g.layered(),
            g.simple(),
            layer >= 0,
            g.on_layer(id, layer),
            g.all_on_layer(chosen, layer),
            chosen.len() <= g.cap(layer),
            g.unlinked(id, layer),
            chosen.no_duplicates(),
            forall|i: int| 0 <= i < chosen.len() ==> (#[trigger] chosen[i]) != id,
        ensures
            g.with_links(id, layer, narrow(chosen)).simple(),
            self.link(g, chosen, id, layer).simple(),
            self.link(g, chosen, id, layer).unlinked(id, layer - 1),
            forall|k: int, l: int|
                0 <= k < g.nodes.len() && 0 <= l < g.nodes[k].layers.len() && l != layer ==> (
                #[trigger] self.link(g, chosen, id, layer).nodes[k].layers[l])
                    == g.nodes[k].layers[l],
    {
        let list = narrow(chosen);
        self.lemma_link(g, chosen, id, layer);
        assert forall|i: int| 0 <= i < chosen.len() implies (#[trigger] list[i]) == chosen[i] by {
            assert(g.on_layer(chosen[i] as int, layer));
        }
        assert forall|i: int, j: int|
            0 <= i < list.len() && 0 <= j < list.len() && i != j implies list[i] != list[j] by {
            assert(chosen[i] != chosen[j]);
        }
        assert forall|i: int| 0 <= i < list.len() implies (#[trigger] list[i]) != id by {
            assert(chosen[i] != id);
        }
        assert(names_others(id, list));
        let h = g.with_links(id, layer, list);
        assert forall|k: int, l: int|
            0 <= k < h.nodes.len() && 0 <= l < h.nodes[k].layers.len() implies names_others(
            k,
            #[trigger] h.nodes[k].layers[l],
        ) by {
            if !(k == id && l == layer) {
                assert(h.nodes[k].layers[l] == g.nodes[k].layers[l]);
            }
        }
        assert forall|i: int| 0 <= i < chosen.len() implies (#[trigger] chosen[i]) != id as u32
            && !h.nodes[chosen[i] as int].layers[layer].contains(id as u32) by {
            assert(g.on_layer(chosen[i] as int, layer));
            let c = chosen[i] as int;
            assert(h.nodes[c] == g.nodes[c]);
            if g.nodes[c].layers[layer].contains(id as u32) {
                let k = choose|k: int|
                    0 <= k < g.nodes[c].layers[layer].len() && g.nodes[c].layers[layer][k]
                        == id as u32;
                assert(g.nodes[c].layers[layer][k] != id);
            }
        }
        assert(h.nodes[id].layers.len() == g.nodes[id].layers.len());
        self.lemma_link_back_simple(h, chosen, id as u32, layer);
        let after = self.link(g, chosen, id, layer);
        assert forall|k: int, l: int|
            0 <= k < g.nodes.len() && 0 <= l < g.nodes[k].layers.len() && l != layer implies (
        #[trigger] after.nodes[k].layers[l]) == g.nodes[k].layers[l] by {
            assert(h.nodes[k].layers[l] == g.nodes[k].layers[l]);
        }
        assert forall|k: int, l: int, i: int|
            0 <= k < after.nodes.len() && 0 <= l <= layer - 1 && l < after.nodes[k].layers.len()
                && 0 <= i < after.nodes[k].layers[l].len() implies (
        #[trigger] after.nodes[k].layers[l][i]) != id by {
            assert(after.nodes[k].layers.len() == g.nodes[k].layers.len());
            assert(after.nodes[k].layers[l] == g.nodes[k].layers[l]);
            assert(g.nodes[k].layers[l][i] != id);
        }
    }

    /// Connecting a new node leaves lists proper.
    proof fn lemma_connect_simple(
        self,
        g: Graph,
        id: int,
        eps: Seq<usize>,
        entry: usize,
        layer: int,
    )
        requires
            g.valid(),
            g.layered(),
            g.simple(),
            g.on_layer(id, layer),
            g.all_on_layer(eps, layer),
            g.on_layer(entry as int, layer),
            g.unlinked(id, layer),
            forall|i: int| 0 <= i < eps.len() ==> (#[trigger] eps[i]) != id,
            entry != id,
        ensures
            self.connect(g, id, eps, entry, layer).simple(),
        decreases layer + 1,
    {
        if layer >= 0 {
            let w = self.around(g, id);
            let found = w.layer(eps, g.ef_construction, layer);
            let chosen = self.select(g, found, g.cap(layer));
            self.lemma_found_on_layer(w, eps, g.ef_construction, layer);
            self.lemma_chosen(g, id, eps, layer);
            self.lemma_link(g, chosen, id, layer);
            self.lemma_link_simple(g, chosen, id, layer);
            let h = self.link(g, chosen, id, layer);
            let next = if found.len() == 0 {
                seq![entry]
            } else {
                ids_of(found)
            };
            lemma_next_entry(g, h, found, entry, layer);
            assert forall|i: int| 0 <= i < next.len() implies (#[trigger] next[i]) != id by {
                if found.len() > 0 {
                    assert(found[i].id != id);
                }
            }
            self.lemma_connect_simple(h, id, next, entry, layer - 1);
        }
    }

    /// A descent that starts elsewhere does not end on a node that no list names.
    pub proof fn lemma_descend_elsewhere(
        self,
        w: Walk,
        eps: Seq<usize>,
        top: int,
        bottom: int,
        id: int,
    )
        requires
            w.graph.valid(),
            w.graph.unlinked(id, top),
            eps.len() == 1,
            eps[0] < w.graph.nodes.len(),
            eps[0] != id,
        ensures
            w.descend(eps, top, bottom).len() == 1,
            w.descend(eps, top, bottom)[0] != id,
        decreases top - bottom + 1,
    {
        if top >= bottom {
            let found = w.layer(eps, 1, top);
            w.graph.lemma_unlinked_closed(id, top, top);
            w.lemma_layer_found(eps, 1, top, |x: int| x != id);
            let next = if found.len() > 0 {
                seq![found[0].id]
            } else {
                eps
            };
            if found.len() > 0 {
                let c = w.layer(eps, 1, top)[0];
            }
            assert(w.graph.unlinked(id, top - 1));
            self.lemma_descend_elsewhere(w, next, top - 1, bottom, id);
        }
    }

    /// A node just placed is in no list, and the lists are as proper as before.
    pub proof fn lemma_placed_unlinked(
        self,
        g: Graph,
        vector: Seq<u32>,
        attrs: Seq<AttrValue>,
        top: int,
    )
        requires
            g.valid(),
            g.simple(),
            g.nodes.len() < Hnsw::MAX_NODES,
        ensures
            ({
                let with = self.placed(
                    self.drawn(g, vector.len()),
                    vector,
                    attrs,
                    self.next_level(g),
                );
                &&& with.simple()
                &&& with.unlinked(g.nodes.len() as int, top)
            }),
    {
        let with = self.placed(self.drawn(g, vector.len()), vector, attrs, self.next_level(g));
        let n = g.nodes.len() as int;
        assert forall|k: int, l: int|
            0 <= k < with.nodes.len() && 0 <= l < with.nodes[k].layers.len() implies names_others(
            k,
            #[trigger] with.nodes[k].layers[l],
        ) by {
            if k < n {
                assert(with.nodes[k] == g.nodes[k]);
                assert(names_others(k, g.nodes[k].layers[l]));
            }
        }
        assert forall|k: int, l: int, i: int|
            0 <= k < with.nodes.len() && 0 <= l <= top && l < with.nodes[k].layers.len() && 0 <= i
                < with.nodes[k].layers[l].len() implies (#[trigger] with.nodes[k].layers[l][i])
            != n by {
            if k < n {
                assert(with.nodes[k] == g.nodes[k]);
                assert(g.node_ok(k));
                assert(g.list_ok(l, g.nodes[k].layers[l]));
                assert(g.nodes[k].layers[l][i] < n);
            }
        }
    }
}

/// Inserts keep every neighbor list free of repeats and of its own node's id.
pub proof fn inserts_keep_lists_simple(
    b: Builder,
    g: Graph,
    vector: Seq<u32>,
    attrs: Seq<AttrValue>,
)
    requires
        g.valid(),
        g.layered(),
        g.simple(),
    ensures
        b.inserted(g, vector, attrs).simple(),
{
    if b.refusal(g, vector) is None {
        let ready = b.drawn(g, vector.len());
        assert(ready.nodes == g.nodes);
        assert(ready.simple()) by {
            assert forall|k: int, l: int|
                0 <= k < ready.nodes.len() && 0 <= l
                    < ready.nodes[k].layers.len() implies names_others(
                k,
                #[trigger] ready.nodes[k].layers[l],
            ) by {
                assert(names_others(k, g.nodes[k].layers[l]));
            }
        }
        if g.nodes.len() < Hnsw::MAX_NODES {
            let level = b.next_level(g);
            let with = b.placed(ready, vector, attrs, level);
            b.lemma_placed_unlinked(g, vector, attrs, g.max_layer as int);
            if let Some(e) = g.entry_point {
                lemma_entry_for_insert(b, g, vector, attrs);
                let id = g.nodes.len() as int;
                let w = b.around(with, id);
                let eps = w.descend(seq![e], g.max_layer as int, level as int + 1);
                b.lemma_descend_elsewhere(w, seq![e], g.max_layer as int, level as int + 1, id);
                let top = if level < g.max_layer {
                    level as int
                } else {
                    g.max_layer as int
                };
                assert(with.unlinked(id, top));
                b.lemma_connect_simple(with, id, eps, e, top);
            }
        }
    }
}

/// Whatever is built from nothing has proper lists, is sound, and keeps its
/// links within their layers.
pub proof fn builds_are_simple(b: Builder, params: HnswParams, rows: Seq<Row>)
    requires
        params.m <= usize::MAX / 2,
    ensures
        b.insert_all(Graph::empty(params), rows).valid(),
        b.insert_all(Graph::empty(params), rows).layered(),
        b.insert_all(Graph::empty(params), rows).simple(),
    decreases rows.len(),
{
    if rows.len() > 0 {
        builds_are_simple(b, params, rows.drop_last());
        let before = b.insert_all(Graph::empty(params), rows.drop_last());
        b.lemma_inserted(before, rows.last().vector, rows.last().attrs);
        inserts_keep_lists_simple(b, before, rows.last().vector, rows.last().attrs);
    } else {
        super::laws::lemma_empty(params);
    }
}

/// Deleting touches no list, so it keeps them proper.
pub proof fn deletes_keep_lists_simple(g: Graph, id: int)
    requires
        g.simple(),
        0 <= id < g.nodes.len(),
    ensures
        g.with_deleted(id).simple(),
{
    let h = g.with_deleted(id);
    assert forall|k: int, l: int|
        0 <= k < h.nodes.len() && 0 <= l < h.nodes[k].layers.len() implies names_others(
        k,
        #[trigger] h.nodes[k].layers[l],
    ) by {
        assert(h.nodes[k].layers == g.nodes[k].layers);
        assert(names_others(k, g.nodes[k].layers[l]));
    }
}

/// A rebuild has proper lists, whatever the graph it came from.
pub proof fn compactions_are_simple(b: Builder, g: Graph)
    requires
        g.valid(),
    ensures
        b.compacted(g).simple(),
{
    builds_are_simple(b, g.rebuild_params(), super::insert::live_rows(g.nodes));
}

} // verus!
