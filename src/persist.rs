//! The persisted form of a store.
//!
//! A document holds the dimension, the degree cap, the layers from 0 upward,
//! the texts and the sources. Each layer lists the nodes that inhabit it as
//! records `{ id, vector, neighbors }`, where `neighbors` are the identifiers
//! of the node's links at that layer. A node's vector is the one of its
//! layer-0 record.
use vstd::prelude::*;
use crate::graph::{GraphModel, NodeModel};
use crate::store::StoreModel;

verus! {

/// A node as one layer lists it.
pub struct NodeRecord<T> {
    pub id: u128,
    pub vector: Vec<T>,
    pub neighbors: Vec<u128>,
}

/// The document that `save` writes and `load` reads.
pub struct StoreDocument<T> {
    pub dim: Option<usize>,
    pub max_connections: usize,
    pub layers: Vec<Vec<NodeRecord<T>>>,
    pub texts: Vec<(u128, String)>,
    pub sources: Vec<(u128, String)>,
}

pub struct RecordModel<T> {
    pub id: u128,
    pub vector: Seq<T>,
    pub neighbors: Seq<u128>,
}

pub struct DocModel<T> {
    pub dim: Option<nat>,
    pub max_links: nat,
    pub layers: Seq<Seq<RecordModel<T>>>,
    pub texts: Seq<(u128, Seq<char>)>,
    pub sources: Seq<(u128, Seq<char>)>,
}

impl<T> View for NodeRecord<T> {
    type V = RecordModel<T>;

    open spec fn view(&self) -> RecordModel<T> {
        RecordModel { id: self.id, vector: self.vector@, neighbors: self.neighbors@ }
    }
}

pub open spec fn layer_view<T>(l: Vec<NodeRecord<T>>) -> Seq<RecordModel<T>> {
    l@.map_values(|r: NodeRecord<T>| r@)
}

pub open spec fn pair_view(p: (u128, String)) -> (u128, Seq<char>) {
    (p.0, p.1@)
}

impl<T> View for StoreDocument<T> {
    type V = DocModel<T>;

    open spec fn view(&self) -> DocModel<T> {
        DocModel {
            dim: match self.dim {
                Some(d) => Some(d as nat),
                None => None,
            },
            max_links: self.max_connections as nat,
            layers: self.layers@.map_values(|l: Vec<NodeRecord<T>>| layer_view(l)),
            texts: self.texts@.map_values(|p: (u128, String)| pair_view(p)),
            sources: self.sources@.map_values(|p: (u128, String)| pair_view(p)),
        }
    }
}

impl<T> DocModel<T> {
    /// The number of nodes: the size of layer 0.
    pub open spec fn n(self) -> nat {
        if self.layers.len() == 0 {
            0
        } else {
            self.layers[0].len()
        }
    }

    pub open spec fn rid(self, l: int, r: int) -> u128 {
        self.layers[l][r].id
    }

    pub open spec fn expected_dim(self) -> nat {
        match self.dim {
            Some(d) => d,
            None => 0,
        }
    }

    /// Layer `l` lists a record with identifier `id`.
    pub open spec fn member(self, l: int, id: u128) -> bool {
        0 <= l < self.layers.len() && exists|r: int| 0 <= r < self.layers[l].len() && #[trigger] self.rid(l, r) == id
    }

    /// The position in layer `l` of the record with identifier `id`.
    pub open spec fn slot(self, l: int, id: u128) -> int {
        choose|r: int| 0 <= r < self.layers[l].len() && #[trigger] self.rid(l, r) == id
    }

    /// The number of layers below `u` that list `id`.
    pub open spec fn height(self, id: u128, u: nat) -> nat
        decreases u,
    {
        if u == 0 {
            0
        } else {
            self.height(id, (u - 1) as nat) + if self.member(u - 1, id) {
                1nat
            } else {
                0nat
            }
        }
    }

    /// Neighbor identifiers as positions in layer 0.
    pub open spec fn resolve(self, ids: Seq<u128>) -> Seq<usize> {
        ids.map_values(|x: u128| self.slot(0, x) as usize)
    }

    /// The record at `(l, r)` names at most `M` neighbors, each once, none
    /// itself, each listed in layer `l`.
    pub open spec fn links_valid(self, l: int, r: int) -> bool {
        let nb = self.layers[l][r].neighbors;
        &&& nb.len() <= self.max_links
        &&& nb.no_duplicates()
        &&& forall|k: int| 0 <= k < nb.len() ==> #[trigger] nb[k] != self.rid(l, r) && self.member(l, nb[k])
    }

    pub open spec fn has_text(self, id: u128) -> bool {
        exists|k: int| 0 <= k < self.texts.len() && #[trigger] self.texts[k].0 == id
    }

    pub open spec fn has_source(self, id: u128) -> bool {
        exists|k: int| 0 <= k < self.sources.len() && #[trigger] self.sources[k].0 == id
    }

    pub open spec fn text_of(self, id: u128) -> Seq<char> {
        self.texts[choose|k: int| 0 <= k < self.texts.len() && #[trigger] self.texts[k].0 == id].1
    }

    pub open spec fn source_of(self, id: u128) -> Option<Seq<char>> {
        if self.has_source(id) {
            Some(self.sources[choose|k: int| 0 <= k < self.sources.len() && #[trigger] self.sources[k].0 == id].1)
        } else {
            None
        }
    }

    /// The last position in layer 0 among the nodes of the top layer, for
    /// the first `u` records of the top layer.
    pub open spec fn top_entry(self, u: nat) -> int
        decreases u,
    {
        if u == 0 {
            0
        } else {
            let e = self.top_entry((u - 1) as nat);
            let p = self.slot(0, self.rid(self.layers.len() - 1, u - 1));
            if p > e {
                p
            } else {
                e
            }
        }
    }

    /// The checks of `load`: a degree cap of at least 2; no empty layer; no
    /// identifier twice in a layer; every node of a layer above 0 also in the
    /// layer below; a dimension exactly when there are nodes, which every
    /// vector has; valid neighbor lists; one text per node and at most one
    /// source, each for a node of layer 0.
    pub open spec fn valid(self) -> bool {
        &&& self.max_links >= 2
        &&& forall|l: int| 0 <= l < self.layers.len() ==> #[trigger] self.layers[l].len() > 0
        &&& forall|l: int, r1: int, r2: int|
            0 <= l < self.layers.len() && 0 <= r1 < self.layers[l].len() && 0 <= r2 < self.layers[l].len() && r1
                != r2 ==> #[trigger] self.rid(l, r1) != #[trigger] self.rid(l, r2)
        &&& forall|l: int, r: int|
            1 <= l < self.layers.len() && 0 <= r < self.layers[l].len() ==> self.member(l - 1, #[trigger] self.rid(l, r))
        &&& (self.n() == 0 <==> self.dim is None)
        &&& forall|l: int, r: int|
            0 <= l < self.layers.len() && 0 <= r < self.layers[l].len() ==> (#[trigger] self.layers[l][r]).vector.len()
                == self.expected_dim()
        &&& forall|l: int, r: int|
            0 <= l < self.layers.len() && 0 <= r < self.layers[l].len() ==> #[trigger] self.links_valid(l, r)
        &&& forall|k: int| 0 <= k < self.texts.len() ==> self.member(0, #[trigger] self.texts[k].0)
        &&& forall|k1: int, k2: int|
            0 <= k1 < self.texts.len() && 0 <= k2 < self.texts.len() && k1 != k2 ==> #[trigger] self.texts[k1].0
                != #[trigger] self.texts[k2].0
        &&& forall|r: int| 0 <= r < self.n() ==> self.has_text(#[trigger] self.rid(0, r))
        &&& forall|k: int| 0 <= k < self.sources.len() ==> self.member(0, #[trigger] self.sources[k].0)
        &&& forall|k1: int, k2: int|
            0 <= k1 < self.sources.len() && 0 <= k2 < self.sources.len() && k1 != k2 ==> #[trigger] self.sources[k1].0
                != #[trigger] self.sources[k2].0
    }

    /// The store that a valid document describes.
    pub open spec fn decoded(self) -> StoreModel<T> {
        let h = self.layers.len();
        StoreModel {
            graph: GraphModel {
                nodes: Seq::new(
                    self.n(),
                    |i: int|
                        NodeModel {
                            id: self.rid(0, i),
                            vector: self.layers[0][i].vector,
                            links: Seq::new(
                                self.height(self.rid(0, i), h),
                                |l: int| self.resolve(self.layers[l][self.slot(l, self.rid(0, i))].neighbors),
                            ),
                        },
                ),
                entry: if h == 0 {
                    0
                } else {
                    self.top_entry(self.layers[h - 1].len())
                },
                max_links: self.max_links,
            },
            texts: Seq::new(self.n(), |i: int| self.text_of(self.rid(0, i))),
            sources: Seq::new(self.n(), |i: int| self.source_of(self.rid(0, i))),
            dim: self.dim,
        }
    }
}

/// Each layer below `u`, above 0, lists only nodes of the layer below it.
pub open spec fn nested_below<T>(doc: DocModel<T>, u: int) -> bool {
    forall|l: int, r: int|
        1 <= l < u && l < doc.layers.len() && 0 <= r < doc.layers[l].len() ==> doc.member(l - 1, #[trigger] doc.rid(l, r))
}

/// Layer `l` lists no identifier twice.
pub open spec fn distinct_in<T>(doc: DocModel<T>, l: int) -> bool {
    forall|r1: int, r2: int|
        0 <= r1 < doc.layers[l].len() && 0 <= r2 < doc.layers[l].len() && r1 != r2 ==> #[trigger] doc.rid(l, r1)
            != #[trigger] doc.rid(l, r2)
}

pub proof fn lemma_slot<T>(doc: DocModel<T>, l: int, r: int)
    requires
        0 <= l < doc.layers.len(),
        0 <= r < doc.layers[l].len(),
        distinct_in(doc, l),
    ensures
        doc.slot(l, doc.rid(l, r)) == r,
        doc.member(l, doc.rid(l, r)),
{
    let s = doc.slot(l, doc.rid(l, r));
    assert(0 <= s < doc.layers[l].len() && doc.rid(l, s) == doc.rid(l, r));
}

pub proof fn lemma_member_down<T>(doc: DocModel<T>, id: u128, a: int, b: int, u: int)
    requires
        0 <= b <= a < u,
        u <= doc.layers.len(),
        nested_below(doc, u),
        doc.member(a, id),
    ensures
        doc.member(b, id),
    decreases a - b,
{
    if a > b {
        let r = choose|r: int| 0 <= r < doc.layers[a].len() && #[trigger] doc.rid(a, r) == id;
        assert(doc.member(a - 1, doc.rid(a, r)));
        lemma_member_down(doc, id, a - 1, b, u);
    }
}

/// Where the layers below `u` nest, the layers below `u` that list `id` are
/// the first `height(id, u)` of them.
pub proof fn lemma_height_prefix<T>(doc: DocModel<T>, id: u128, u: nat)
    requires
        u <= doc.layers.len(),
        nested_below(doc, u as int),
    ensures
        doc.height(id, u) <= u,
        forall|j: int| 0 <= j < doc.height(id, u) ==> doc.member(j, id),
        forall|j: int| doc.height(id, u) <= j < u ==> !doc.member(j, id),
    decreases u,
{
    if u > 0 {
        lemma_height_prefix(doc, id, (u - 1) as nat);
        let h = doc.height(id, (u - 1) as nat);
        if doc.member(u - 1, id) && h < u - 1 {
            lemma_member_down(doc, id, u - 1, h as int, u as int);
        }
    }
}

pub proof fn lemma_top_entry<T>(d: DocModel<T>, u: nat)
    requires
        d.valid(),
        d.layers.len() > 0,
        u <= d.layers[d.layers.len() - 1].len(),
    ensures
        0 <= d.top_entry(u) < d.n(),
        u > 0 ==> exists|r: int| 0 <= r < u && d.top_entry(u) == #[trigger] d.slot(0, d.rid(d.layers.len() - 1, r)),
        forall|r: int| 0 <= r < u ==> d.slot(0, #[trigger] d.rid(d.layers.len() - 1, r)) <= d.top_entry(u),
    decreases u,
{
    let h = d.layers.len();
    assert(d.layers[0].len() > 0);
    if u > 0 {
        lemma_top_entry(d, (u - 1) as nat);
        let y = d.rid(h - 1, u - 1);
        assert(d.member(h - 1, y));
        lemma_member_down(d, y, h - 1, 0, h as int);
        let q = d.slot(0, y);
        assert(0 <= q < d.layers[0].len() && d.rid(0, q) == y);
        if d.top_entry(u) == q {
            assert(d.top_entry(u) == d.slot(0, d.rid(h - 1, u - 1)));
        }
    }
}

/// A valid document describes a store that meets the store's invariants.
pub proof fn lemma_decoded_wf<T>(d: DocModel<T>)
    requires
        d.valid(),
        d.n() <= usize::MAX,
    ensures
        d.decoded().wf(),
{
    let s = d.decoded();
    let g = s.graph;
    let h = d.layers.len();
    let n = d.n();
    assert(nested_below(d, h as int));
    if h == 0 {
        return;
    }
    assert(d.layers[0].len() > 0);
    assert forall|i: int| 0 <= i < n implies {
        &&& 1 <= #[trigger] d.height(d.rid(0, i), h) <= h
        &&& forall|l: int| 0 <= l < h ==> (d.member(l, d.rid(0, i)) <==> l < d.height(d.rid(0, i), h))
    } by {
        lemma_height_prefix(d, d.rid(0, i), h);
        lemma_slot(d, 0, i);
    }
    assert forall|i: int| 0 <= i < g.len() implies #[trigger] g.nodes[i].links.len() >= 1 by {
        assert(1 <= d.height(d.rid(0, i), h));
    }
    assert forall|i: int, l: int| g.in_layer(i, l) implies #[trigger] g.links_ok(i, l) by {
        let x = d.rid(0, i);
        assert(1 <= d.height(x, h) <= h);
        assert(d.member(l, x));
        let r = d.slot(l, x);
        assert(0 <= r < d.layers[l].len() && d.rid(l, r) == x);
        assert(d.links_valid(l, r));
        let nb = d.layers[l][r].neighbors;
        let list = g.nodes[i].links[l];
        assert(list == d.resolve(nb));
        assert forall|k: int| 0 <= k < list.len() implies {
            &&& 0 <= #[trigger] list[k] < n
            &&& d.rid(0, list[k] as int) == nb[k]
            &&& list[k] != i
            &&& g.in_layer(list[k] as int, l)
        } by {
            let y = nb[k];
            assert(y != d.rid(l, r) && d.member(l, y));
            lemma_member_down(d, y, l, 0, h as int);
            let q = d.slot(0, y);
            assert(0 <= q < d.layers[0].len() && d.rid(0, q) == y);
            assert(list[k] == q as usize);
            assert(list[k] as int == q);
            assert(1 <= d.height(d.rid(0, q), h) <= h);
        }
        assert forall|a: int, b: int| 0 <= a < list.len() && 0 <= b < list.len() && a != b implies list[a] != list[b] by {
            assert(d.rid(0, list[a] as int) == nb[a]);
            assert(d.rid(0, list[b] as int) == nb[b]);
        }
    }
    let top_len = d.layers[h - 1].len();
    lemma_top_entry(d, top_len);
    let e = g.entry;
    let r0 = choose|r: int| 0 <= r < top_len && e == #[trigger] d.slot(0, d.rid(h - 1, r));
    let y0 = d.rid(h - 1, r0);
    assert(d.member(h - 1, y0));
    lemma_member_down(d, y0, h - 1, 0, h as int);
    assert(d.rid(0, e) == y0);
    assert(1 <= d.height(d.rid(0, e), h) <= h);
    assert(g.top() == h - 1);
    assert forall|i: int| 0 <= i < g.len() implies #[trigger] g.level(i) <= g.top() by {
        assert(1 <= d.height(d.rid(0, i), h) <= h);
    }
    assert forall|i: int| g.entry < i < g.len() implies #[trigger] g.level(i) < g.top() by {
        let x = d.rid(0, i);
        assert(1 <= d.height(x, h) <= h);
        if d.height(x, h) == h {
            assert(d.member(h - 1, x));
            let r = choose|r: int| 0 <= r < d.layers[h - 1].len() && #[trigger] d.rid(h - 1, r) == x;
            lemma_slot(d, 0, i);
            assert(d.slot(0, d.rid(h - 1, r)) <= e);
        }
    }
    assert forall|i: int, j: int| 0 <= i < s.len() && 0 <= j < s.len() && i != j implies s.id(i) != s.id(j) by {
        assert(d.rid(0, i) != d.rid(0, j));
    }
    assert forall|i: int| 0 <= i < s.len() implies (#[trigger] s.graph.nodes[i]).vector.len() == s.expected_dim() by {
        assert(d.layers[0][i].vector.len() == d.expected_dim());
    }
}

proof fn lemma_members<T>(g: GraphModel<T>, l: int, u: nat)
    ensures
        forall|a: int, b: int| 0 <= a < b < layer_members(g, l, u).len() ==> layer_members(g, l, u)[a] < layer_members(g, l, u)[b],
        forall|k: int| 0 <= k < layer_members(g, l, u).len() ==> 0 <= #[trigger] layer_members(g, l, u)[k] < u && g.level(layer_members(g, l, u)[k]) >= l,
        forall|i: int| 0 <= i < u && g.level(i) >= l ==> exists|k: int| 0 <= k < layer_members(g, l, u).len() && #[trigger] layer_members(g, l, u)[k] == i,
    decreases u,
{
    if u > 0 {
        lemma_members(g, l, (u - 1) as nat);
        let rest = layer_members(g, l, (u - 1) as nat);
        let m = layer_members(g, l, u);
        assert forall|i: int| 0 <= i < u && g.level(i) >= l implies exists|k: int| 0 <= k < m.len() && #[trigger] m[k] == i by {
            if i == u - 1 {
                assert(m[m.len() - 1] == i);
            } else {
                let k = choose|k: int| 0 <= k < rest.len() && #[trigger] rest[k] == i;
                assert(m[k] == i);
            }
        }
    }
}

proof fn lemma_members_all<T>(g: GraphModel<T>, u: nat)
    requires
        g.wf(),
        u <= g.len(),
    ensures
        layer_members(g, 0, u) == Seq::new(u, |i: int| i),
    decreases u,
{
    if u > 0 {
        lemma_members_all(g, (u - 1) as nat);
        assert(g.nodes[u - 1].links.len() >= 1);
        assert(layer_members(g, 0, u) =~= Seq::new(u, |i: int| i));
    }
}

proof fn lemma_saved_height<T>(s: StoreModel<T>, i: int, u: nat)
    requires
        s.wf(),
        s.len() > 0,
        0 <= i < s.len(),
        u <= s.graph.top() + 1,
    ensures
        saved(s).height(s.id(i), u) == if s.graph.level(i) + 1 < u { s.graph.level(i) + 1 } else { u as int },
    decreases u,
{
    if u > 0 {
        lemma_saved_height(s, i, (u - 1) as nat);
        lemma_saved_member(s, u - 1, i);
        assert(s.graph.nodes[i].links.len() >= 1);
    }
}

proof fn lemma_saved_member<T>(s: StoreModel<T>, l: int, i: int)
    requires
        s.wf(),
        s.len() > 0,
        0 <= i < s.len(),
        0 <= l <= s.graph.top(),
    ensures
        saved(s).member(l, s.id(i)) <==> s.graph.level(i) >= l,
        s.graph.level(i) >= l ==> {
            let r = saved(s).slot(l, s.id(i));
            &&& 0 <= r < saved(s).layers[l].len()
            &&& layer_members(s.graph, l, s.len())[r] == i
        },
{
    let g = s.graph;
    let d = saved(s);
    let m = layer_members(g, l, g.len());
    lemma_members(g, l, g.len());
    assert(d.layers[l] == m.map_values(|x: int| record_at(s, l, x)));
    if d.member(l, s.id(i)) {
        let r = choose|r: int| 0 <= r < d.layers[l].len() && #[trigger] d.rid(l, r) == s.id(i);
        assert(d.rid(l, r) == s.id(m[r]));
        assert(0 <= m[r] < g.len());
        assert(m[r] == i);
    }
    if g.level(i) >= l {
        let k = choose|k: int| 0 <= k < m.len() && #[trigger] m[k] == i;
        assert(d.rid(l, k) == s.id(i));
        let r = d.slot(l, s.id(i));
        assert(0 <= r < d.layers[l].len() && d.rid(l, r) == s.id(i));
        assert(d.rid(l, r) == s.id(m[r]));
        assert(0 <= m[r] < g.len());
    }
}

proof fn lemma_source_pairs<T>(s: StoreModel<T>, u: nat)
    requires
        s.wf(),
        u <= s.len(),
    ensures
        forall|k: int| 0 <= k < source_pairs(s, u).len() ==> exists|i: int|
            0 <= i < u && #[trigger] s.id(i) == (#[trigger] source_pairs(s, u)[k]).0 && s.sources[i] == Some(source_pairs(s, u)[k].1),
        forall|i: int| #![trigger s.sources[i]] 0 <= i < u && s.sources[i] is Some ==> exists|k: int|
            0 <= k < source_pairs(s, u).len() && (#[trigger] source_pairs(s, u)[k]).0 == s.id(i),
        forall|k1: int, k2: int| 0 <= k1 < source_pairs(s, u).len() && 0 <= k2 < source_pairs(s, u).len() && k1 != k2
            ==> (#[trigger] source_pairs(s, u)[k1]).0 != (#[trigger] source_pairs(s, u)[k2]).0,
    decreases u,
{
    if u > 0 {
        lemma_source_pairs(s, (u - 1) as nat);
        let rest = source_pairs(s, (u - 1) as nat);
        let sp = source_pairs(s, u);
        let j = u - 1;
        assert forall|k: int| 0 <= k < sp.len() implies exists|i: int|
            0 <= i < u && #[trigger] s.id(i) == (#[trigger] sp[k]).0 && s.sources[i] == Some(sp[k].1) by {
            if k < rest.len() {
                assert(sp[k] == rest[k]);
                let i = choose|i: int| 0 <= i < u - 1 && #[trigger] s.id(i) == (#[trigger] rest[k]).0 && s.sources[i] == Some(rest[k].1);
                assert(s.id(i) == sp[k].0);
            } else {
                assert(s.sources[j] is Some);
                assert(sp[k] == (s.id(j), s.sources[j]->Some_0));
                assert(s.id(j) == sp[k].0);
            }
        }
        assert forall|i: int| #![trigger s.sources[i]] 0 <= i < u && s.sources[i] is Some implies exists|k: int|
            0 <= k < sp.len() && (#[trigger] sp[k]).0 == s.id(i) by {
            if i < j {
                let k = choose|k: int| 0 <= k < rest.len() && (#[trigger] rest[k]).0 == s.id(i);
                assert(sp[k] == rest[k]);
                assert(sp[k].0 == s.id(i));
            } else {
                assert(sp[rest.len() as int] == (s.id(j), s.sources[j]->Some_0));
                assert(sp[rest.len() as int].0 == s.id(i));
            }
        }
        assert forall|k1: int, k2: int| 0 <= k1 < sp.len() && 0 <= k2 < sp.len() && k1 != k2
            implies (#[trigger] sp[k1]).0 != (#[trigger] sp[k2]).0 by {
            if k1 < rest.len() && k2 < rest.len() {
                assert(sp[k1] == rest[k1] && sp[k2] == rest[k2]);
            } else if k1 < rest.len() {
                assert(sp[k1] == rest[k1]);
                let i = choose|i: int| 0 <= i < u - 1 && #[trigger] s.id(i) == (#[trigger] rest[k1]).0 && s.sources[i] == Some(rest[k1].1);
                assert(s.id(i) != s.id(j));
            } else {
                assert(sp[k2] == rest[k2]);
                let i = choose|i: int| 0 <= i < u - 1 && #[trigger] s.id(i) == (#[trigger] rest[k2]).0 && s.sources[i] == Some(rest[k2].1);
                assert(s.id(i) != s.id(j));
            }
        }
    }
}

proof fn lemma_saved_top_entry<T>(s: StoreModel<T>, u: nat)
    requires
        s.wf(),
        s.len() > 0,
        1 <= u <= layer_members(s.graph, s.graph.top(), s.len()).len(),
    ensures
        saved(s).top_entry(u) == layer_members(s.graph, s.graph.top(), s.len())[u - 1],
    decreases u,
{
    let g = s.graph;
    let m = layer_members(g, g.top(), g.len());
    lemma_members(g, g.top(), g.len());
    let d = saved(s);
    assert(d.layers.len() - 1 == g.top());
    assert(d.layers[g.top()] == m.map_values(|x: int| record_at(s, g.top(), x)));
    let i = m[u - 1];
    assert(d.rid(g.top(), u - 1) == s.id(i));
    lemma_saved_member(s, 0, i);
    lemma_members_all(g, g.len());
    assert(d.slot(0, s.id(i)) == i);
    assert(d.slot(0, d.rid(d.layers.len() - 1, u - 1)) == i);
    if u > 1 {
        lemma_saved_top_entry(s, (u - 1) as nat);
        assert(m[u - 2] < m[u - 1]);
    }
    assert(d.top_entry(u) == {
        let e = d.top_entry((u - 1) as nat);
        let p = d.slot(0, d.rid(d.layers.len() - 1, u - 1));
        if p > e {
            p
        } else {
            e
        }
    });
}

/// Round trip: the document that `save` writes for a well-formed store
/// passes every check of `load` and describes that same store: the same
/// nodes, links, entry point, texts, sources and parameters.
pub proof fn lemma_round_trip<T>(s: StoreModel<T>)
    requires
        s.wf(),
    ensures
        saved(s).valid(),
        saved(s).decoded() == s,
{
    let g = s.graph;
    let d = saved(s);
    let n = s.len();
    lemma_source_pairs(s, n);
    if n == 0 {
        assert(d.decoded().graph.nodes =~= g.nodes);
        assert(d.decoded().texts =~= s.texts);
        assert(d.decoded().sources =~= s.sources);
        return;
    }
    let h = d.layers.len();
    assert(h == g.top() + 1);
    lemma_members_all(g, n);
    assert forall|l: int| 0 <= l < h implies #[trigger] d.layers[l] == layer_members(g, l, n).map_values(|x: int| record_at(s, l, x)) by {}
    assert forall|l: int| 0 <= l < h implies #[trigger] d.layers[l].len() > 0 by {
        lemma_members(g, l, n);
        assert(g.level(g.entry) >= l);
    }
    assert forall|l: int, r1: int, r2: int|
        0 <= l < h && 0 <= r1 < d.layers[l].len() && 0 <= r2 < d.layers[l].len() && r1 != r2 implies #[trigger] d.rid(l, r1) != #[trigger] d.rid(l, r2) by {
        lemma_members(g, l, n);
        let m = layer_members(g, l, n);
        assert(d.rid(l, r1) == s.id(m[r1]) && d.rid(l, r2) == s.id(m[r2]));
        assert(m[r1] != m[r2]);
    }
    assert forall|l: int, r: int| 1 <= l < h && 0 <= r < d.layers[l].len() implies d.member(l - 1, #[trigger] d.rid(l, r)) by {
        lemma_members(g, l, n);
        let m = layer_members(g, l, n);
        assert(d.rid(l, r) == s.id(m[r]));
        lemma_saved_member(s, l - 1, m[r]);
    }
    assert forall|l: int, r: int| 0 <= l < h && 0 <= r < d.layers[l].len() implies (#[trigger] d.layers[l][r]).vector.len() == d.expected_dim() by {
        lemma_members(g, l, n);
        let m = layer_members(g, l, n);
        assert(s.graph.nodes[m[r]].vector.len() == s.expected_dim());
    }
    assert forall|l: int, r: int| 0 <= l < h && 0 <= r < d.layers[l].len() implies #[trigger] d.links_valid(l, r) by {
        lemma_members(g, l, n);
        let m = layer_members(g, l, n);
        let i = m[r];
        assert(g.in_layer(i, l));
        assert(g.links_ok(i, l));
        let links = g.nodes[i].links[l];
        let nb = d.layers[l][r].neighbors;
        assert(nb == links.map_values(|j: usize| s.id(j as int)));
        assert forall|k: int| 0 <= k < nb.len() implies #[trigger] nb[k] != d.rid(l, r) && d.member(l, nb[k]) by {
            assert(links[k] != i && g.in_layer(links[k] as int, l));
            assert(d.rid(l, r) == s.id(i));
            lemma_saved_member(s, l, links[k] as int);
        }
        assert forall|a: int, b: int| 0 <= a < nb.len() && 0 <= b < nb.len() && a != b implies nb[a] != nb[b] by {
            assert(g.in_layer(links[a] as int, l) && g.in_layer(links[b] as int, l));
            assert(links[a] != links[b]);
        }
    }
    assert forall|k: int| 0 <= k < d.texts.len() implies d.member(0, #[trigger] d.texts[k].0) by {
        lemma_saved_member(s, 0, k);
    }
    assert forall|r: int| 0 <= r < d.n() implies d.has_text(#[trigger] d.rid(0, r)) by {
        assert(d.rid(0, r) == s.id(r));
        assert(d.texts[r].0 == s.id(r));
    }
    assert forall|k: int| 0 <= k < d.sources.len() implies d.member(0, #[trigger] d.sources[k].0) by {
        let i = choose|i: int| 0 <= i < n && #[trigger] s.id(i) == (#[trigger] d.sources[k]).0 && s.sources[i] == Some(d.sources[k].1);
        lemma_saved_member(s, 0, i);
    }
    assert(d.valid());
    let e = d.decoded();
    assert forall|i: int| 0 <= i < n implies #[trigger] e.graph.nodes[i] == g.nodes[i] by {
        assert(d.rid(0, i) == s.id(i));
        lemma_saved_height(s, i, h as nat);
        assert(g.nodes[i].links.len() >= 1);
        assert(g.level(i) <= g.top());
        let el = e.graph.nodes[i].links;
        assert forall|l: int| 0 <= l < el.len() implies el[l] == g.nodes[i].links[l] by {
            lemma_saved_member(s, l, i);
            let m = layer_members(g, l, n);
            let r = d.slot(l, s.id(i));
            assert(m[r] == i);
            let links = g.nodes[i].links[l];
            assert(g.links_ok(i, l));
            assert(d.layers[l][r].neighbors == links.map_values(|j: usize| s.id(j as int)));
            assert forall|k: int| 0 <= k < links.len() implies #[trigger] d.resolve(d.layers[l][r].neighbors)[k] == links[k] by {
                assert(g.in_layer(links[k] as int, l));
                lemma_saved_member(s, 0, links[k] as int);
            }
            assert(d.resolve(d.layers[l][r].neighbors) =~= links);
        }
        assert(el =~= g.nodes[i].links);
    }
    assert(e.graph.nodes =~= g.nodes);
    let mt = layer_members(g, g.top(), n);
    lemma_members(g, g.top(), n);
    lemma_saved_top_entry(s, mt.len());
    assert(g.level(g.entry) >= g.top());
    let ke = choose|k: int| 0 <= k < mt.len() && #[trigger] mt[k] == g.entry;
    if ke < mt.len() - 1 {
        assert(mt[mt.len() - 1] > g.entry);
        assert(g.level(mt[mt.len() - 1]) >= g.top());
    }
    assert(e.graph.entry == g.entry);
    assert forall|i: int| 0 <= i < n implies #[trigger] e.texts[i] == s.texts[i] by {
        assert(d.rid(0, i) == s.id(i));
        let c = choose|c: int| 0 <= c < d.texts.len() && #[trigger] d.texts[c].0 == s.id(i);
        assert(s.id(c) == s.id(i));
    }
    assert(e.texts =~= s.texts);
    assert forall|i: int| 0 <= i < n implies #[trigger] e.sources[i] == s.sources[i] by {
        assert(d.rid(0, i) == s.id(i));
        if d.has_source(s.id(i)) {
            let c = choose|c: int| 0 <= c < d.sources.len() && #[trigger] d.sources[c].0 == s.id(i);
            let i2 = choose|i2: int| 0 <= i2 < n && #[trigger] s.id(i2) == (#[trigger] d.sources[c]).0 && s.sources[i2] == Some(d.sources[c].1);
            assert(i2 == i);
        } else {
            if s.sources[i] is Some {
                let k = choose|k: int| 0 <= k < d.sources.len() && (#[trigger] d.sources[k]).0 == s.id(i);
                assert(d.has_source(s.id(i)));
            }
        }
    }
    assert(e.sources =~= s.sources);
}

/// The nodes among the first `u` that inhabit layer `l`, in insertion order.
pub open spec fn layer_members<T>(g: GraphModel<T>, l: int, u: nat) -> Seq<int>
    decreases u,
{
    if u == 0 {
        Seq::empty()
    } else {
        let rest = layer_members(g, l, (u - 1) as nat);
        if g.level(u - 1) >= l {
            rest.push(u - 1)
        } else {
            rest
        }
    }
}

/// The record of node `i` at layer `l`.
pub open spec fn record_at<T>(s: StoreModel<T>, l: int, i: int) -> RecordModel<T> {
    RecordModel {
        id: s.id(i),
        vector: s.graph.nodes[i].vector,
        neighbors: s.graph.nodes[i].links[l].map_values(|j: usize| s.id(j as int)),
    }
}

/// The nodes that carry a source, with it, in insertion order, among the first `u`.
pub open spec fn source_pairs<T>(s: StoreModel<T>, u: nat) -> Seq<(u128, Seq<char>)>
    decreases u,
{
    if u == 0 {
        Seq::empty()
    } else {
        let rest = source_pairs(s, (u - 1) as nat);
        match s.sources[u - 1] {
            Some(t) => rest.push((s.id(u - 1), t)),
            None => rest,
        }
    }
}

/// The document that `save` writes for the store `s`: layers `0..=top`, each
/// listing its nodes in insertion order with their links as identifiers; a
/// text pair for every node and a source pair for every node with a source,
/// in insertion order.
pub open spec fn saved<T>(s: StoreModel<T>) -> DocModel<T> {
    let g = s.graph;
    DocModel {
        dim: s.dim,
        max_links: g.max_links,
        layers: Seq::new(
            if g.len() == 0 {
                0nat
            } else {
                (g.top() + 1) as nat
            },
            |l: int| layer_members(g, l, g.len()).map_values(|i: int| record_at(s, l, i)),
        ),
        texts: Seq::new(s.len(), |i: int| (s.id(i), s.texts[i])),
        sources: source_pairs(s, s.len()),
    }
}

} // verus!
