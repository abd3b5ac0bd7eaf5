//! The index facade: the graph, the text and source of each node, the
//! identifier side table and the store-wide vector dimension.
use vstd::prelude::*;
use std::collections::HashMap;
use crate::distance::kernel_is_pure;
use crate::entropy::{fresh_node_id, level_draw};
use crate::graph::{Graph, GraphModel, Node, inserted, key_table, nearest};
use crate::level::{level_for_draw, level_of};
use crate::sources::{char_seqs, distinct_source_files, source_files};
use crate::persist::{
    DocModel, NodeRecord, StoreDocument, distinct_in, layer_members, layer_view, lemma_decoded_wf, lemma_height_prefix, lemma_member_down,
    lemma_slot, nested_below, pair_view, record_at, saved, source_pairs,
};

verus! {

broadcast use vstd::std_specs::hash::group_hash_axioms;

/// The errors of the store.
#[derive(Debug, Clone, Copy, PartialEq, Eq)]
pub enum StoreError {
    /// A vector's length differs from the store's dimension.
    DimensionMismatch { expected: usize, found: usize },
    /// The identifier drawn for a new node is taken already.
    DuplicateId,
    /// A document fails the structural checks of `load`.
    CorruptStore,
}

/// One query result: the node, its text, its distance key to the query and
/// its source tag.
pub struct QueryHit {
    pub id: u128,
    pub text: String,
    pub distance: u32,
    pub source: Option<String>,
}

/// A vector ready to be stored, with the file it was taken from and an
/// identifier of its own.
pub struct StoredEmbedding<T> {
    pub filename: String,
    pub id: u128,
    pub vector: Vec<T>,
}

/// A copy of `v`.
pub fn copy_vector<T: Copy>(v: &Vec<T>) -> (r: Vec<T>)
    ensures
        r@ == v@,
{
    let mut r: Vec<T> = Vec::new();
    let mut i: usize = 0;
    while i < v.len()
        invariant
            i <= v@.len(),
            r@ == v@.take(i as int),
        decreases v@.len() - i,
    {
        r.push(v[i]);
        i = i + 1;
        assert(r@ =~= v@.take(i as int));
    }
    assert(v@.take(v@.len() as int) =~= v@);
    r
}

impl<T: Copy> StoredEmbedding<T> {
    /// A stored embedding of `vector` taken from `filename`, under a fresh
    /// random identifier.
    pub fn new(filename: String, vector: Vec<T>) -> (r: Self)
        ensures
            r.filename@ == filename@,
            r.vector@ == vector@,
            (r.id >> 76u128) & 0xFu128 == 4,
            (r.id >> 62u128) & 0x3u128 == 2,
    {
        StoredEmbedding { filename, id: fresh_node_id(), vector }
    }
}

/// The contents of an optional string.
pub open spec fn opt_chars(s: Option<String>) -> Option<Seq<char>> {
    match s {
        Some(t) => Some(t@),
        None => None,
    }
}

/// The mathematical form of the store.
pub struct StoreModel<T> {
    pub graph: GraphModel<T>,
    pub texts: Seq<Seq<char>>,
    pub sources: Seq<Option<Seq<char>>>,
    pub dim: Option<nat>,
}

impl<T> StoreModel<T> {
    pub open spec fn len(self) -> nat {
        self.graph.len()
    }

    pub open spec fn id(self, i: int) -> u128 {
        self.graph.nodes[i].id
    }

    /// Some node carries the identifier `id`.
    pub open spec fn holds_id(self, id: u128) -> bool {
        exists|i: int| 0 <= i < self.len() && self.id(i) == id
    }

    /// The position of the node with identifier `id`.
    pub open spec fn position(self, id: u128) -> int {
        choose|i: int| 0 <= i < self.len() && self.id(i) == id
    }

    /// A vector of length `n` fits the store: its dimension is unset or `n`.
    pub open spec fn fits(self, n: nat) -> bool {
        match self.dim {
            Some(d) => d == n,
            None => true,
        }
    }

    pub open spec fn expected_dim(self) -> nat {
        match self.dim {
            Some(d) => d,
            None => 0,
        }
    }

    /// The store's invariants: those of the graph, a text and a source slot per
    /// node, distinct identifiers, and one dimension for all vectors, set
    /// exactly when the store holds a node.
    pub open spec fn wf(self) -> bool {
        &&& self.graph.wf()
        &&& self.graph.max_links >= 2
        &&& self.texts.len() == self.len()
        &&& self.sources.len() == self.len()
        &&& forall|i: int, j: int| 0 <= i < self.len() && 0 <= j < self.len() && i != j ==> self.id(i) != self.id(j)
        &&& (self.len() == 0 <==> self.dim is None)
        &&& forall|i: int| 0 <= i < self.len() ==> (#[trigger] self.graph.nodes[i]).vector.len() == self.expected_dim()
    }
}

/// The empty store with degree cap `m`.
pub open spec fn empty_store<T>(m: nat) -> StoreModel<T> {
    StoreModel {
        graph: GraphModel { nodes: Seq::empty(), entry: 0, max_links: m },
        texts: Seq::empty(),
        sources: Seq::empty(),
        dim: None,
    }
}

/// The store after adding the vector `v` with its text and source under the
/// identifier `id`, at the top layer that `draw` decides; `d` holds the key
/// of each existing node to `v`.
pub open spec fn added<T>(
    s: StoreModel<T>,
    v: Seq<T>,
    text: Seq<char>,
    source: Option<Seq<char>>,
    id: u128,
    draw: u32,
    d: Seq<u32>,
) -> StoreModel<T> {
    StoreModel {
        graph: inserted(s.graph, id, v, level_of(draw, s.graph.max_links), d),
        texts: s.texts.push(text),
        sources: s.sources.push(source),
        dim: Some(v.len()),
    }
}

/// The store's answer to a query for the `k` nearest nodes, as positions.
pub open spec fn answer<T>(s: StoreModel<T>, d: Seq<u32>, k: int) -> Seq<usize> {
    nearest(s.graph, d, k)
}

/// `h` reports node `i` of `s` at key `key`.
pub open spec fn reports<T>(s: StoreModel<T>, h: QueryHit, i: int, key: u32) -> bool {
    &&& h.id == s.id(i)
    &&& h.text@ == s.texts[i]
    &&& h.distance == key
    &&& opt_chars(h.source) == s.sources[i]
}

/// The vector store.
pub struct VectorStore<T> {
    graph: Graph<T>,
    texts: Vec<String>,
    sources: Vec<Option<String>>,
    positions: HashMap<u128, usize>,
    dim: Option<usize>,
}

impl<T> View for VectorStore<T> {
    type V = StoreModel<T>;

    closed spec fn view(&self) -> StoreModel<T> {
        StoreModel {
            graph: self.graph@,
            texts: self.texts@.map_values(|t: String| t@),
            sources: self.sources@.map_values(|s: Option<String>| opt_chars(s)),
            dim: match self.dim {
                Some(d) => Some(d as nat),
                None => None,
            },
        }
    }
}

fn copy_text(s: &Option<String>) -> (r: Option<String>)
    ensures
        opt_chars(r) == opt_chars(*s),
{
    match s {
        Some(t) => Some(t.clone()),
        None => None,
    }
}

/// `m` maps each identifier of layer `l` to its position there, and holds
/// no other key.
pub open spec fn indexes<T>(m: Map<u128, usize>, d: DocModel<T>, l: int) -> bool {
    &&& forall|i: int| 0 <= i < d.layers[l].len() ==> #[trigger] m.contains_key(d.rid(l, i)) && m[d.rid(l, i)] == i
    &&& forall|k: u128| #[trigger] m.contains_key(k) <==> d.member(l, k)
}

/// Maps each identifier of layer `l` to its position, or `None` when the
/// layer lists an identifier twice.
fn index_layer<T>(doc: &StoreDocument<T>, l: usize) -> (r: Option<HashMap<u128, usize>>)
    requires
        l < doc.layers@.len(),
    ensures
        r is Some <==> distinct_in(doc@, l as int),
        r matches Some(m) ==> indexes(m@, doc@, l as int),
{
    let ghost d = doc@;
    let layer = &doc.layers[l];
    let mut m: HashMap<u128, usize> = HashMap::new();
    let mut i: usize = 0;
    while i < layer.len()
        invariant
            d == doc@,
            layer@.len() == d.layers[l as int].len(),
            forall|j: int| 0 <= j < layer@.len() ==> layer@[j].id == d.rid(l as int, j),
            i <= layer@.len(),
            forall|j: int| 0 <= j < i ==> #[trigger] m@.contains_key(d.rid(l as int, j)) && m@[d.rid(l as int, j)] == j,
            forall|k: u128| #[trigger] m@.contains_key(k) ==> exists|j: int| 0 <= j < i && d.rid(l as int, j) == k,
            forall|j1: int, j2: int| 0 <= j1 < i && 0 <= j2 < i && j1 != j2 ==> #[trigger] d.rid(l as int, j1) != #[trigger] d.rid(l as int, j2),
        decreases layer@.len() - i,
    {
        let id = layer[i].id;
        if m.contains_key(&id) {
            proof {
                let j = choose|j: int| 0 <= j < i && d.rid(l as int, j) == id;
                assert(d.rid(l as int, j) == d.rid(l as int, i as int));
            }
            return None;
        }
        let ghost old_m = m@;
        m.insert(id, i);
        proof {
            assert forall|k: u128| #[trigger] m@.contains_key(k) implies exists|j: int| 0 <= j < i + 1 && d.rid(l as int, j) == k by {
                if k == id {
                    assert(d.rid(l as int, i as int) == k);
                } else {
                    assert(old_m.contains_key(k));
                }
            }
        }
        i = i + 1;
    }
    proof {
        assert forall|k: u128| #[trigger] m@.contains_key(k) <==> d.member(l as int, k) by {
            if d.member(l as int, k) {
                let j = choose|j: int| 0 <= j < d.layers[l as int].len() && #[trigger] d.rid(l as int, j) == k;
                assert(m@.contains_key(d.rid(l as int, j)));
            }
        }
    }
    Some(m)
}

/// Whether the record at `(l, r)` has valid neighbor lists, where `members`
/// holds exactly the identifiers of layer `l`.
#[verifier::loop_isolation(false)]
fn links_check<T>(doc: &StoreDocument<T>, l: usize, r: usize, members: &HashMap<u128, usize>) -> (ok: bool)
    requires
        l < doc.layers@.len(),
        r < doc.layers@[l as int]@.len(),
        forall|k: u128| #[trigger] members@.contains_key(k) <==> doc@.member(l as int, k),
    ensures
        ok == doc@.links_valid(l as int, r as int),
{
    let ghost d = doc@;
    let rec = &doc.layers[l][r];
    let nb = &rec.neighbors;
    assert(nb@ == d.layers[l as int][r as int].neighbors);
    assert(rec.id == d.rid(l as int, r as int));
    if nb.len() > doc.max_connections {
        return false;
    }
    let mut k: usize = 0;
    while k < nb.len()
        invariant
            d == doc@,
            nb@ == d.layers[l as int][r as int].neighbors,
            rec.id == d.rid(l as int, r as int),
            forall|x: u128| #[trigger] members@.contains_key(x) <==> d.member(l as int, x),
            k <= nb@.len(),
            forall|j: int| 0 <= j < k ==> #[trigger] nb@[j] != d.rid(l as int, r as int) && d.member(l as int, nb@[j]),
            forall|j1: int, j2: int| 0 <= j1 < k && 0 <= j2 < k && j1 != j2 ==> #[trigger] nb@[j1] != #[trigger] nb@[j2],
        decreases nb@.len() - k,
    {
        let x = nb[k];
        if x == rec.id || !members.contains_key(&x) {
            assert(nb@[k as int] == x);
            assert(!d.links_valid(l as int, r as int));
            return false;
        }
        let mut j: usize = 0;
        while j < k
            invariant
                k < nb@.len(),
                x == nb@[k as int],
                j <= k,
                forall|j1: int| 0 <= j1 < j ==> nb@[j1] != x,
            decreases k - j,
        {
            if nb[j] == x {
                assert(nb@[j as int] == nb@[k as int]);
                assert(!nb@.no_duplicates());
                return false;
            }
            j = j + 1;
        }
        k = k + 1;
    }
    true
}

/// The layer-0 positions of the identifiers `ids`.
#[verifier::loop_isolation(false)]
fn resolve_ids<T>(doc: &StoreDocument<T>, ids: &Vec<u128>, pos0: &HashMap<u128, usize>) -> (r: Vec<usize>)
    requires
        doc@.layers.len() > 0,
        distinct_in(doc@, 0),
        indexes(pos0@, doc@, 0),
        forall|j: int| 0 <= j < ids@.len() ==> doc@.member(0, #[trigger] ids@[j]),
    ensures
        r@ == doc@.resolve(ids@),
        forall|j: int| 0 <= j < r@.len() ==> (#[trigger] r@[j]) < doc@.layers[0].len() && doc@.rid(0, r@[j] as int) == ids@[j],
{
    let mut r: Vec<usize> = Vec::new();
    let mut j: usize = 0;
    while j < ids.len()
        invariant
            j <= ids@.len(),
            r@ == doc@.resolve(ids@.take(j as int)),
            forall|i: int| 0 <= i < r@.len() ==> (#[trigger] r@[i]) < doc@.layers[0].len() && doc@.rid(0, r@[i] as int) == ids@[i],
        decreases ids@.len() - j,
    {
        let x = ids[j];
        assert(doc@.member(0, x));
        let ghost q = doc@.slot(0, x);
        proof {
            lemma_slot(doc@, 0, q);
        }
        assert(pos0@.contains_key(doc@.rid(0, q)));
        let p = match pos0.get(&x) {
            Some(p) => *p,
            None => 0,
        };
        assert(p == q);
        r.push(p);
        j = j + 1;
        assert(r@ =~= doc@.resolve(ids@.take(j as int)));
    }
    assert(ids@.take(ids@.len() as int) =~= ids@);
    r
}

impl<T: Copy> VectorStore<T> {
    /// The invariants of the model, and a side table that maps each node's
    /// identifier to its position.
    pub closed spec fn wf(&self) -> bool {
        &&& self@.wf()
        &&& forall|i: int| 0 <= i < self@.len() ==> #[trigger] self.positions@.contains_key(self@.id(i)) && self.positions@[self@.id(i)] == i
        &&& forall|k: u128| #[trigger] self.positions@.contains_key(k) ==> self@.holds_id(k)
    }

    /// An empty store whose nodes keep at most `max_connections` neighbors per layer.
    pub fn new(max_connections: usize) -> (r: Self)
        requires
            max_connections >= 2,
        ensures
            r.wf(),
            r@.wf(),
            r@ == empty_store::<T>(max_connections as nat),
    {
        let r = VectorStore {
            graph: Graph { nodes: Vec::new(), entry: 0, max_links: max_connections },
            texts: Vec::new(),
            sources: Vec::new(),
            positions: HashMap::new(),
            dim: None,
        };
        assert(r@.graph.nodes =~= Seq::<crate::graph::NodeModel<T>>::empty());
        assert(r@.texts =~= Seq::<Seq<char>>::empty());
        assert(r@.sources =~= Seq::<Option<Seq<char>>>::empty());
        r
    }

    /// The number of stored nodes.
    pub fn text_count(&self) -> (r: usize)
        requires
            self.wf(),
        ensures
            r == self@.len(),
    {
        self.texts.len()
    }

    /// The degree cap `M`.
    pub fn max_connections(&self) -> (r: usize)
        ensures
            r == self@.graph.max_links,
    {
        self.graph.max_links
    }

    /// The dimension of the stored vectors, unset while the store is empty.
    pub fn dimension(&self) -> (r: Option<usize>)
        ensures
            match r {
                Some(d) => self@.dim == Some(d as nat),
                None => self@.dim is None,
            },
    {
        self.dim
    }

    /// The identifiers of all nodes in insertion order.
    pub fn get_all_ids(&self) -> (r: Vec<u128>)
        requires
            self.wf(),
        ensures
            r@ == Seq::new(self@.len(), |i: int| self@.id(i)),
    {
        let mut r: Vec<u128> = Vec::new();
        let mut i: usize = 0;
        while i < self.graph.nodes.len()
            invariant
                i <= self.graph.nodes@.len(),
                self@.len() == self.graph.nodes@.len(),
                r@ == Seq::new(i as nat, |j: int| self@.id(j)),
            decreases self.graph.nodes@.len() - i,
        {
            r.push(self.graph.nodes[i].id);
            proof {
                assert(self@.id(i as int) == self.graph.nodes@[i as int].id);
            }
            i = i + 1;
            assert(r@ =~= Seq::new(i as nat, |j: int| self@.id(j)));
        }
        r
    }

    /// The text and source of the node with identifier `id`, if there is one.
    pub fn get_embedding(&self, id: &u128) -> (r: Option<(String, Option<String>)>)
        requires
            self.wf(),
        ensures
            r is Some <==> self@.holds_id(*id),
            r matches Some((t, s)) ==> t@ == self@.texts[self@.position(*id)] && opt_chars(s)
                == self@.sources[self@.position(*id)],
    {
        match self.positions.get(id) {
            Some(p) => {
                let p = *p;
                proof {
                    let q = self@.position(*id);
                    assert(self.positions@[self@.id(q)] == q);
                }
                Some((self.texts[p].clone(), copy_text(&self.sources[p])))
            },
            None => {
                proof {
                    if self@.holds_id(*id) {
                        let q = self@.position(*id);
                        assert(self.positions@.contains_key(self@.id(q)));
                    }
                }
                None
            },
        }
    }

    /// The distinct files that the nodes' source tags name (the text of a
    /// tag before its first `#`), each once.
    pub fn source_files(&self) -> (r: Vec<Vec<char>>)
        requires
            self.wf(),
        ensures
            char_seqs(r@).no_duplicates(),
            char_seqs(r@).to_set() == source_files(self@.sources),
            r@.len() == source_files(self@.sources).len(),
    {
        distinct_source_files(&self.sources)
    }

    /// Adds `vector` with its text and source under the identifier `id`, at
    /// the top layer that `draw` decides. Fails, leaving the store as it was,
    /// when the vector's length differs from the store's dimension or the
    /// identifier is taken.
    pub fn add_drawn<F: Fn(&Vec<T>, &Vec<T>) -> u32>(
        &mut self,
        vector: Vec<T>,
        text: String,
        source: Option<String>,
        id: u128,
        draw: u32,
        kernel: &F,
    ) -> (r: Result<u128, StoreError>)
        requires
            old(self).wf(),
            kernel_is_pure(kernel),
            old(self)@.len() < usize::MAX,
        ensures
            final(self).wf(),
            final(self)@.wf(),
            !old(self)@.fits(vector@.len()) ==> r == Err::<u128, StoreError>(
                StoreError::DimensionMismatch {
                    expected: old(self)@.expected_dim() as usize,
                    found: vector@.len() as usize,
                },
            ),
            old(self)@.fits(vector@.len()) && old(self)@.holds_id(id) ==> r == Err::<u128, StoreError>(
                StoreError::DuplicateId,
            ),
            old(self)@.fits(vector@.len()) && !old(self)@.holds_id(id) ==> r == Ok::<u128, StoreError>(id),
            r is Ok ==> final(self)@ == added(
                old(self)@,
                vector@,
                text@,
                opt_chars(source),
                id,
                draw,
                key_table(old(self)@.graph, vector@, kernel),
            ),
            r matches Ok(id) ==> {
                let n = old(self)@.len() as int;
                &&& final(self)@.len() == n + 1
                &&& final(self)@.id(n) == id
                &&& final(self)@.graph.nodes[n].vector == vector@
                &&& final(self)@.texts[n] == text@
            },
            r is Err ==> final(self)@ == old(self)@,
    {
        match self.dim {
            Some(d) => {
                if vector.len() != d {
                    return Err(StoreError::DimensionMismatch { expected: d, found: vector.len() });
                }
            },
            None => {},
        }
        if self.positions.contains_key(&id) {
            proof {
                assert(self@.holds_id(id));
            }
            return Err(StoreError::DuplicateId);
        }
        proof {
            if self@.holds_id(id) {
                let q = self@.position(id);
                assert(self.positions@.contains_key(self@.id(q)));
            }
        }
        let ghost before = self@;
        let ghost old_positions = self.positions@;
        let n = self.graph.nodes.len();
        let top = level_for_draw(draw, self.graph.max_links);
        let len = vector.len();
        self.graph.insert(id, vector, top, kernel);
        self.texts.push(text);
        self.sources.push(source);
        self.positions.insert(id, n);
        self.dim = Some(len);
        proof {
            let want = added(before, vector@, text@, opt_chars(source), id, draw, key_table(before.graph, vector@, kernel));
            assert(self@.texts =~= want.texts);
            assert(self@.sources =~= want.sources);
            let s = self@;
            assert forall|i: int| 0 <= i < s.len() implies (#[trigger] s.graph.nodes[i]).vector.len() == s.expected_dim() by {
                if i < n {
                    assert(before.graph.nodes[i].vector.len() == before.expected_dim());
                }
            }
            assert forall|i: int, j: int| 0 <= i < s.len() && 0 <= j < s.len() && i != j implies s.id(i) != s.id(j) by {
                if i < n && j < n {
                    assert(before.id(i) != before.id(j));
                } else if i < n {
                    assert(before.id(i) != id);
                } else if j < n {
                    assert(before.id(j) != id);
                }
            }
            assert forall|i: int| 0 <= i < s.len() implies #[trigger] self.positions@.contains_key(s.id(i)) && self.positions@[s.id(i)] == i by {
                if i < n {
                    assert(before.id(i) != id);
                    assert(old_positions.contains_key(before.id(i)));
                }
            }
            assert forall|k: u128| #[trigger] self.positions@.contains_key(k) implies s.holds_id(k) by {
                if k == id {
                    assert(s.id(n as int) == id);
                } else {
                    assert(old_positions.contains_key(k));
                    assert(before.holds_id(k));
                    let q = before.position(k);
                    assert(s.id(q) == k);
                }
            }
        }
        Ok(id)
    }

    /// Adds `vector` with its text and optional source under a fresh random
    /// identifier, at a randomly drawn top layer, and returns the identifier.
    /// Fails with `DimensionMismatch`, leaving the store as it was, exactly
    /// when the vector's length differs from the store's dimension; a vector
    /// that fits fails only with `DuplicateId`, when the drawn identifier is
    /// taken, which cannot happen on an empty store. The vector's contents
    /// play no part: any vector of the right length, the zero vector too, is
    /// accepted.
    pub fn add_with_filename<F: Fn(&Vec<T>, &Vec<T>) -> u32>(
        &mut self,
        vector: Vec<T>,
        text: String,
        filename: Option<String>,
        kernel: &F,
    ) -> (r: Result<u128, StoreError>)
        requires
            old(self).wf(),
            kernel_is_pure(kernel),
            old(self)@.len() < usize::MAX,
        ensures
            final(self).wf(),
            final(self)@.wf(),
            !old(self)@.fits(vector@.len()) <==> r matches Err(StoreError::DimensionMismatch { .. }),
            !old(self)@.fits(vector@.len()) ==> r == Err::<u128, StoreError>(
                StoreError::DimensionMismatch {
                    expected: old(self)@.expected_dim() as usize,
                    found: vector@.len() as usize,
                },
            ),
            r matches Ok(id) ==> !old(self)@.holds_id(id) && exists|draw: u32|
                final(self)@ == added(
                    old(self)@,
                    vector@,
                    text@,
                    opt_chars(filename),
                    id,
                    draw,
                    key_table(old(self)@.graph, vector@, kernel),
                ),
            r matches Ok(id) ==> {
                let n = old(self)@.len() as int;
                &&& final(self)@.len() == n + 1
                &&& final(self)@.id(n) == id
                &&& final(self)@.graph.nodes[n].vector == vector@
                &&& final(self)@.texts[n] == text@
            },
            old(self)@.len() == 0 ==> r is Ok,
            old(self)@.fits(vector@.len()) && r is Err ==> r == Err::<u128, StoreError>(StoreError::DuplicateId),
            r is Err ==> final(self)@ == old(self)@,
    {
        let id = fresh_node_id();
        let draw = level_draw();
        let ghost pre = self@;
        let ghost v = vector@;
        let ghost t = text@;
        let ghost f = opt_chars(filename);
        let r = self.add_drawn(vector, text, filename, id, draw, kernel);
        proof {
            if r is Ok {
                assert(pre.fits(v.len()));
                assert(!pre.holds_id(id));
                assert(r == Ok::<u128, StoreError>(id));
                assert(self@ == added(pre, v, t, f, id, draw, key_table(pre.graph, v, kernel)));
                assert(exists|dr: u32| self@ == added(pre, v, t, f, id, dr, key_table(pre.graph, v, kernel)));
            }
        }
        r
    }

    /// Adds the vector of `stored` with the text `text`, its file name as the
    /// source; see `add_with_filename`.
    pub fn add_stored_embedding<F: Fn(&Vec<T>, &Vec<T>) -> u32>(
        &mut self,
        stored: &StoredEmbedding<T>,
        text: String,
        kernel: &F,
    ) -> (r: Result<u128, StoreError>)
        requires
            old(self).wf(),
            kernel_is_pure(kernel),
            old(self)@.len() < usize::MAX,
        ensures
            final(self).wf(),
            final(self)@.wf(),
            !old(self)@.fits(stored.vector@.len()) <==> r matches Err(StoreError::DimensionMismatch { .. }),
            r matches Ok(id) ==> !old(self)@.holds_id(id) && exists|draw: u32|
                final(self)@ == added(
                    old(self)@,
                    stored.vector@,
                    text@,
                    Some(stored.filename@),
                    id,
                    draw,
                    key_table(old(self)@.graph, stored.vector@, kernel),
                ),
            r matches Ok(id) ==> {
                let n = old(self)@.len() as int;
                &&& final(self)@.len() == n + 1
                &&& final(self)@.id(n) == id
                &&& final(self)@.graph.nodes[n].vector == stored.vector@
                &&& final(self)@.texts[n] == text@
            },
            old(self)@.len() == 0 ==> r is Ok,
            old(self)@.fits(stored.vector@.len()) && r is Err ==> r == Err::<u128, StoreError>(StoreError::DuplicateId),
            r is Err ==> final(self)@ == old(self)@,
    {
        let vector = copy_vector(&stored.vector);
        self.add_with_filename(vector, text, Some(stored.filename.clone()), kernel)
    }

    /// Adds `vector` with its text and no source; see `add_with_filename`.
    pub fn add<F: Fn(&Vec<T>, &Vec<T>) -> u32>(&mut self, vector: Vec<T>, text: String, kernel: &F) -> (r: Result<u128, StoreError>)
        requires
            old(self).wf(),
            kernel_is_pure(kernel),
            old(self)@.len() < usize::MAX,
        ensures
            final(self).wf(),
            final(self)@.wf(),
            !old(self)@.fits(vector@.len()) <==> r matches Err(StoreError::DimensionMismatch { .. }),
            r matches Ok(id) ==> !old(self)@.holds_id(id) && exists|draw: u32|
                final(self)@ == added(
                    old(self)@,
                    vector@,
                    text@,
                    None,
                    id,
                    draw,
                    key_table(old(self)@.graph, vector@, kernel),
                ),
            r matches Ok(id) ==> {
                let n = old(self)@.len() as int;
                &&& final(self)@.len() == n + 1
                &&& final(self)@.id(n) == id
                &&& final(self)@.graph.nodes[n].vector == vector@
                &&& final(self)@.texts[n] == text@
            },
            old(self)@.len() == 0 ==> r is Ok,
            old(self)@.fits(vector@.len()) && r is Err ==> r == Err::<u128, StoreError>(StoreError::DuplicateId),
            r is Err ==> final(self)@ == old(self)@,
    {
        self.add_with_filename(vector, text, None, kernel)
    }

    /// The `k` nearest nodes to `query` that the index finds, nearest first,
    /// with their texts, distance keys and sources. An empty store answers
    /// with no results; a query whose length differs from the store's
    /// dimension fails with `DimensionMismatch`.
    pub fn query<F: Fn(&Vec<T>, &Vec<T>) -> u32>(&self, query: &Vec<T>, k: usize, kernel: &F) -> (r: Result<Vec<QueryHit>, StoreError>)
        requires
            self.wf(),
            kernel_is_pure(kernel),
        ensures
            !self@.fits(query@.len()) ==> r == Err::<Vec<QueryHit>, StoreError>(
                StoreError::DimensionMismatch {
                    expected: self@.expected_dim() as usize,
                    found: query@.len() as usize,
                },
            ),
            self@.fits(query@.len()) ==> (r matches Ok(hits) && {
                let d = key_table(self@.graph, query@, kernel);
                let a = answer(self@, d, k as int);
                &&& hits@.len() == a.len()
                &&& forall|i: int| 0 <= i < a.len() ==> reports(self@, #[trigger] hits@[i], a[i] as int, d[a[i] as int])
            }),
    {
        match self.dim {
            Some(d) => {
                if query.len() != d {
                    return Err(StoreError::DimensionMismatch { expected: d, found: query.len() });
                }
            },
            None => {},
        }
        let found = self.graph.nearest(query, k, kernel);
        let ghost d = key_table(self@.graph, query@, kernel);
        let ghost a = answer(self@, d, k as int);
        let mut hits: Vec<QueryHit> = Vec::new();
        let mut i: usize = 0;
        while i < found.len()
            invariant
                self.wf(),
                i <= found@.len(),
                found@.len() == a.len(),
                forall|j: int| 0 <= j < found@.len() ==> {
                    &&& (#[trigger] found@[j]).0 == a[j]
                    &&& found@[j].1 == d[found@[j].0 as int]
                    &&& self@.graph.in_layer(found@[j].0 as int, 0)
                },
                hits@.len() == i,
                forall|j: int| 0 <= j < i ==> reports(self@, #[trigger] hits@[j], a[j] as int, d[a[j] as int]),
            decreases found@.len() - i,
        {
            let (p, key) = found[i];
            assert(self@.graph.in_layer(p as int, 0));
            let hit = QueryHit {
                id: self.graph.nodes[p].id,
                text: self.texts[p].clone(),
                distance: key,
                source: copy_text(&self.sources[p]),
            };
            hits.push(hit);
            i = i + 1;
        }
        Ok(hits)
    }

    /// The document that persists this store; see `persist::saved`.
    pub fn save(&self) -> (doc: StoreDocument<T>)
        requires
            self.wf(),
        ensures
            doc@ == saved(self@),
    {
        let ghost s = self@;
        let ghost g = self@.graph;
        let n = self.graph.nodes.len();
        let mut layers: Vec<Vec<NodeRecord<T>>> = Vec::new();
        let height: usize = if n == 0 {
            0
        } else {
            assert(g.nodes[g.entry].links.len() >= 1);
            self.graph.nodes[self.graph.entry].links.len()
        };
        let mut l: usize = 0;
        while l < height
            invariant
                self.wf(),
                s == self@,
                g == s.graph,
                n == g.len(),
                height == saved(s).layers.len(),
                l <= height,
                layers@.len() == l,
                forall|j: int| 0 <= j < l ==> layer_view(#[trigger] layers@[j]) == saved(s).layers[j],
            decreases height - l,
        {
            let mut layer: Vec<NodeRecord<T>> = Vec::new();
            let mut i: usize = 0;
            while i < n
                invariant
                    self.wf(),
                    s == self@,
                    g == s.graph,
                    n == g.len(),
                    i <= n,
                    layer_view(layer) == layer_members(g, l as int, i as nat).map_values(|x: int| record_at(s, l as int, x)),
                decreases n - i,
            {
                let node = &self.graph.nodes[i];
                assert(g.nodes[i as int].links.len() >= 1);
                if node.links.len() > l {
                    let links = &node.links[l];
                    assert(g.links_ok(i as int, l as int));
                    let mut nb: Vec<u128> = Vec::new();
                    let mut k: usize = 0;
                    while k < links.len()
                        invariant
                            self.wf(),
                            s == self@,
                            g == s.graph,
                            i < n,
                            l < g.nodes[i as int].links.len(),
                            links@ == g.nodes[i as int].links[l as int],
                            g.links_ok(i as int, l as int),
                            k <= links@.len(),
                            nb@ == links@.take(k as int).map_values(|j: usize| s.id(j as int)),
                        decreases links@.len() - k,
                    {
                        let j = links[k];
                        assert(g.in_layer(j as int, l as int));
                        nb.push(self.graph.nodes[j].id);
                        k = k + 1;
                        assert(nb@ =~= links@.take(k as int).map_values(|j: usize| s.id(j as int)));
                    }
                    assert(links@.take(links@.len() as int) =~= links@);
                    let rec = NodeRecord { id: node.id, vector: copy_vector(&node.vector), neighbors: nb };
                    let ghost before = layer_view(layer);
                    layer.push(rec);
                    proof {
                        assert(rec@ == record_at(s, l as int, i as int));
                        assert(layer_view(layer) =~= before.push(rec@));
                        let m = layer_members(g, l as int, (i + 1) as nat);
                        assert(m == layer_members(g, l as int, i as nat).push(i as int));
                        assert(layer_view(layer) =~= m.map_values(|x: int| record_at(s, l as int, x)));
                    }
                }
                i = i + 1;
            }
            let ghost lv = layer_view(layer);
            layers.push(layer);
            proof {
                assert(lv =~= saved(s).layers[l as int]);
                assert forall|j: int| 0 <= j < l + 1 implies layer_view(#[trigger] layers@[j]) == saved(s).layers[j] by {}
            }
            l = l + 1;
        }
        let mut texts: Vec<(u128, String)> = Vec::new();
        let mut i: usize = 0;
        while i < n
            invariant
                self.wf(),
                s == self@,
                n == s.len(),
                i <= n,
                texts@.map_values(|p: (u128, String)| pair_view(p)) == Seq::new(i as nat, |j: int| (s.id(j), s.texts[j])),
            decreases n - i,
        {
            let ghost before = texts@.map_values(|p: (u128, String)| pair_view(p));
            let t = self.texts[i].clone();
            assert(s.id(i as int) == self.graph.nodes@[i as int].id);
            assert(s.texts[i as int] == t@);
            texts.push((self.graph.nodes[i].id, t));
            assert(texts@.map_values(|p: (u128, String)| pair_view(p)) =~= before.push((s.id(i as int), s.texts[i as int])));
            i = i + 1;
            assert(texts@.map_values(|p: (u128, String)| pair_view(p)) =~= Seq::new(i as nat, |j: int| (s.id(j), s.texts[j])));
        }
        let mut sources: Vec<(u128, String)> = Vec::new();
        let mut i: usize = 0;
        while i < n
            invariant
                self.wf(),
                s == self@,
                n == s.len(),
                i <= n,
                sources@.map_values(|p: (u128, String)| pair_view(p)) == source_pairs(s, i as nat),
            decreases n - i,
        {
            let ghost before = sources@.map_values(|p: (u128, String)| pair_view(p));
            match &self.sources[i] {
                Some(t) => {
                    sources.push((self.graph.nodes[i].id, t.clone()));
                    assert(sources@.map_values(|p: (u128, String)| pair_view(p)) =~= before.push((s.id(i as int), t@)));
                },
                None => {},
            }
            i = i + 1;
        }
        let doc = StoreDocument { dim: self.dim, max_connections: self.graph.max_links, layers, texts, sources };
        proof {
            assert(doc@.layers =~= saved(s).layers);
        }
        doc
    }

    /// The store that `doc` describes, or `CorruptStore` when `doc` fails
    /// one of the checks of `persist::DocModel::valid`.
    #[verifier::loop_isolation(false)]
    #[verifier::rlimit(40)]
    pub fn load(doc: &StoreDocument<T>) -> (r: Result<Self, StoreError>)
        ensures
            r is Ok <==> doc@.valid(),
            r matches Ok(s) ==> s.wf() && s@.wf() && s@ == doc@.decoded(),
            r matches Err(e) ==> e == StoreError::CorruptStore,
    {
        let ghost d = doc@;
        let m = doc.max_connections;
        if m < 2 {
            return Err(StoreError::CorruptStore);
        }
        let h = doc.layers.len();
        if h == 0 {
            if doc.dim.is_some() || doc.texts.len() > 0 || doc.sources.len() > 0 {
                proof {
                    if doc.texts.len() > 0 {
                        assert(!d.member(0, d.texts[0].0));
                    }
                    if doc.sources.len() > 0 {
                        assert(!d.member(0, d.sources[0].0));
                    }
                }
                return Err(StoreError::CorruptStore);
            }
            let s = VectorStore::new(m);
            proof {
                let want = d.decoded();
                assert(want.graph.nodes =~= s@.graph.nodes);
                assert(want.texts =~= s@.texts);
                assert(want.sources =~= s@.sources);
            }
            return Ok(s);
        }
        let pos0 = match index_layer(doc, 0) {
            Some(p) => p,
            None => {
                return Err(StoreError::CorruptStore);
            },
        };
        let n = doc.layers[0].len();
        if n == 0 {
            assert(d.layers[0].len() == 0);
            return Err(StoreError::CorruptStore);
        }
        let dim = match doc.dim {
            Some(x) => x,
            None => {
                return Err(StoreError::CorruptStore);
            },
        };
        let mut nodes: Vec<Node<T>> = Vec::new();
        let mut i: usize = 0;
        while i < n
            invariant
                i <= n,
                nodes@.len() == i,
                forall|p: int| 0 <= p < i ==> {
                    &&& (#[trigger] nodes@[p]).id == d.rid(0, p)
                    &&& nodes@[p].vector@ == d.layers[0][p].vector
                    &&& nodes@[p].links@.len() == 0
                },
                forall|r: int| 0 <= r < i ==> (#[trigger] d.layers[0][r]).vector.len() == dim,
            decreases n - i,
        {
            let rec = &doc.layers[0][i];
            if rec.vector.len() != dim {
                assert(d.layers[0][i as int].vector.len() != d.expected_dim());
                return Err(StoreError::CorruptStore);
            }
            nodes.push(Node { id: rec.id, vector: copy_vector(&rec.vector), links: Vec::new() });
            i = i + 1;
        }
        let mut prev: HashMap<u128, usize> = HashMap::new();
        let mut l: usize = 0;
        while l < h
            invariant
                d == doc@,
                h == d.layers.len(),
                n == d.n(),
                n > 0,
                d.dim == Some(dim as nat),
                d.max_links >= 2,
                distinct_in(d, 0),
                indexes(pos0@, d, 0),
                l <= h,
                l > 0 ==> forall|k: u128| #[trigger] prev@.contains_key(k) <==> d.member(l - 1, k),
                forall|j: int| 0 <= j < l ==> #[trigger] d.layers[j].len() > 0 && distinct_in(d, j),
                nested_below(d, l as int),
                forall|j: int, r: int| 0 <= j < l && 0 <= r < d.layers[j].len() ==> (#[trigger] d.layers[j][r]).vector.len() == dim,
                forall|j: int, r: int| 0 <= j < l && 0 <= r < d.layers[j].len() ==> #[trigger] d.links_valid(j, r),
                nodes@.len() == n,
                forall|p: int| 0 <= p < n ==> {
                    &&& (#[trigger] nodes@[p]).id == d.rid(0, p)
                    &&& nodes@[p].vector@ == d.layers[0][p].vector
                    &&& nodes@[p].links@.len() == d.height(d.rid(0, p), l as nat)
                    &&& forall|j: int| 0 <= j < nodes@[p].links@.len() ==> (#[trigger] nodes@[p].links@[j])@ == d.resolve(d.layers[j][d.slot(j, d.rid(0, p))].neighbors)
                },
            decreases h - l,
        {
            let layer = &doc.layers[l];
            if layer.len() == 0 {
                assert(d.layers[l as int].len() == 0);
                return Err(StoreError::CorruptStore);
            }
            let cur = match index_layer(doc, l) {
                Some(c) => c,
                None => {
                    return Err(StoreError::CorruptStore);
                },
            };
            let mut r: usize = 0;
            while r < layer.len()
                invariant
                    r <= layer@.len(),
                    layer@.len() == d.layers[l as int].len(),
                    forall|q: int| 0 <= q < r ==> (#[trigger] d.layers[l as int][q]).vector.len() == dim,
                    l > 0 ==> forall|q: int| 0 <= q < r ==> d.member(l - 1, #[trigger] d.rid(l as int, q)),
                decreases layer@.len() - r,
            {
                let rec = &layer[r];
                assert(rec.id == d.rid(l as int, r as int));
                if l > 0 && !prev.contains_key(&rec.id) {
                    return Err(StoreError::CorruptStore);
                }
                if rec.vector.len() != dim {
                    assert(d.layers[l as int][r as int].vector.len() != d.expected_dim());
                    return Err(StoreError::CorruptStore);
                }
                r = r + 1;
            }
            assert(nested_below(d, l + 1));
            let ghost base = nodes@;
            let mut r: usize = 0;
            while r < layer.len()
                invariant
                    r <= layer@.len(),
                    layer@.len() == d.layers[l as int].len(),
                    nested_below(d, l + 1),
                    distinct_in(d, l as int),
                    forall|k: u128| #[trigger] cur@.contains_key(k) <==> d.member(l as int, k),
                    forall|q: int| 0 <= q < r ==> #[trigger] d.links_valid(l as int, q),
                    nodes@.len() == n,
                    forall|p: int| 0 <= p < n ==> {
                        &&& (#[trigger] nodes@[p]).id == base[p].id
                        &&& nodes@[p].vector == base[p].vector
                        &&& nodes@[p].links@.len() == base[p].links@.len() + if d.member(l as int, d.rid(0, p)) && d.slot(l as int, d.rid(0, p)) < r { 1int } else { 0int }
                        &&& forall|j: int| 0 <= j < base[p].links@.len() ==> #[trigger] nodes@[p].links@[j] == base[p].links@[j]
                        &&& (d.member(l as int, d.rid(0, p)) && d.slot(l as int, d.rid(0, p)) < r) ==> nodes@[p].links@[base[p].links@.len() as int]@ == d.resolve(d.layers[l as int][d.slot(l as int, d.rid(0, p))].neighbors)
                    },
                decreases layer@.len() - r,
            {
                let rec = &layer[r];
                assert(rec.id == d.rid(l as int, r as int));
                if !links_check(doc, l, r, &cur) {
                    return Err(StoreError::CorruptStore);
                }
                let x = rec.id;
                proof {
                    lemma_slot(d, l as int, r as int);
                    lemma_member_down(d, x, l as int, 0, l + 1);
                    assert forall|k: int| 0 <= k < rec.neighbors@.len() implies d.member(0, #[trigger] rec.neighbors@[k]) by {
                        assert(rec.neighbors@ == d.layers[l as int][r as int].neighbors);
                        assert(d.links_valid(l as int, r as int));
                        lemma_member_down(d, rec.neighbors@[k], l as int, 0, l + 1);
                    }
                }
                let ghost q = d.slot(0, x);
                proof {
                    lemma_slot(d, 0, q);
                    lemma_height_prefix(d, x, (l + 1) as nat);
                }
                assert(pos0@.contains_key(d.rid(0, q)));
                let p = match pos0.get(&x) {
                    Some(p) => *p,
                    None => 0,
                };
                assert(p == q);
                let resolved = resolve_ids(doc, &rec.neighbors, &pos0);
                let ghost before = nodes@;
                assert(nodes@[p as int].links@.len() == base[p as int].links@.len());
                nodes[p].links.push(resolved);
                proof {
                    assert forall|p2: int| 0 <= p2 < n implies {
                        &&& (#[trigger] nodes@[p2]).id == base[p2].id
                        &&& nodes@[p2].vector == base[p2].vector
                        &&& nodes@[p2].links@.len() == base[p2].links@.len() + if d.member(l as int, d.rid(0, p2)) && d.slot(l as int, d.rid(0, p2)) < r + 1 { 1int } else { 0int }
                        &&& forall|j: int| 0 <= j < base[p2].links@.len() ==> #[trigger] nodes@[p2].links@[j] == base[p2].links@[j]
                        &&& (d.member(l as int, d.rid(0, p2)) && d.slot(l as int, d.rid(0, p2)) < r + 1) ==> nodes@[p2].links@[base[p2].links@.len() as int]@ == d.resolve(d.layers[l as int][d.slot(l as int, d.rid(0, p2))].neighbors)
                    } by {
                        if p2 != p {
                            assert(nodes@[p2] == before[p2]);
                            assert(d.rid(0, p2) != x);
                        } else {
                            assert(d.rid(0, p2) == x);
                        }
                    }
                }
                r = r + 1;
            }
            proof {
                assert forall|p: int| 0 <= p < n implies {
                    &&& (#[trigger] nodes@[p]).id == d.rid(0, p)
                    &&& nodes@[p].vector@ == d.layers[0][p].vector
                    &&& nodes@[p].links@.len() == d.height(d.rid(0, p), (l + 1) as nat)
                    &&& forall|j: int| 0 <= j < nodes@[p].links@.len() ==> (#[trigger] nodes@[p].links@[j])@ == d.resolve(d.layers[j][d.slot(j, d.rid(0, p))].neighbors)
                } by {
                    let x = d.rid(0, p);
                    lemma_height_prefix(d, x, (l + 1) as nat);
                    if d.member(l as int, x) {
                        let q = d.slot(l as int, x);
                        assert(0 <= q < d.layers[l as int].len());
                        assert(d.height(x, l as nat) == l);
                    }
                }
            }
            prev = cur;
            l = l + 1;
        }
        let top_layer = &doc.layers[h - 1];
        let mut e: usize = 0;
        let mut r: usize = 0;
        while r < top_layer.len()
            invariant
                r <= top_layer@.len(),
                top_layer@.len() == d.layers[h - 1].len(),
                e as int == d.top_entry(r as nat),
            decreases top_layer@.len() - r,
        {
            let x = top_layer[r].id;
            assert(x == d.rid(h - 1, r as int));
            proof {
                lemma_slot(d, h - 1, r as int);
                lemma_member_down(d, x, h - 1, 0, h as int);
                let q = d.slot(0, x);
                lemma_slot(d, 0, q);
            }
            let p = match pos0.get(&x) {
                Some(p) => *p,
                None => 0,
            };
            assert(p as int == d.slot(0, x));
            if p > e {
                e = p;
            }
            r = r + 1;
        }
        let mut topt: Vec<Option<String>> = Vec::new();
        let mut i: usize = 0;
        while i < n
            invariant
                i <= n,
                topt@.len() == i,
                forall|p: int| 0 <= p < i ==> topt@[p] is None,
            decreases n - i,
        {
            topt.push(None);
            i = i + 1;
        }
        let mut k: usize = 0;
        while k < doc.texts.len()
            invariant
                k <= d.texts.len(),
                topt@.len() == n,
                forall|j: int| 0 <= j < k ==> d.member(0, #[trigger] d.texts[j].0),
                forall|j1: int, j2: int| 0 <= j1 < k && 0 <= j2 < k && j1 != j2 ==> #[trigger] d.texts[j1].0 != #[trigger] d.texts[j2].0,
                forall|p: int| 0 <= p < n ==> (topt@[p] is Some <==> exists|j: int| 0 <= j < k && #[trigger] d.texts[j].0 == d.rid(0, p)),
                forall|p: int, j: int| #![trigger d.texts[j], d.rid(0, p)] 0 <= p < n && 0 <= j < k && d.texts[j].0 == d.rid(0, p) ==> (topt@[p] matches Some(t) && t@ == d.texts[j].1),
            decreases d.texts.len() - k,
        {
            let id = doc.texts[k].0;
            assert(id == d.texts[k as int].0);
            let p = match pos0.get(&id) {
                Some(p) => *p,
                None => {
                    return Err(StoreError::CorruptStore);
                },
            };
            proof {
                let q = d.slot(0, id);
                lemma_slot(d, 0, q);
            }
            assert(d.rid(0, p as int) == id);
            if topt[p].is_some() {
                proof {
                    let j = choose|j: int| 0 <= j < k && #[trigger] d.texts[j].0 == d.rid(0, p as int);
                    assert(d.texts[j].0 == d.texts[k as int].0);
                }
                return Err(StoreError::CorruptStore);
            }
            let t = doc.texts[k].1.clone();
            assert(t@ == d.texts[k as int].1);
            let ghost before = topt@;
            topt.set(p, Some(t));
            proof {
                assert forall|p2: int| 0 <= p2 < n implies (topt@[p2] is Some <==> exists|j: int| 0 <= j < k + 1 && #[trigger] d.texts[j].0 == d.rid(0, p2)) by {
                    if p2 == p {
                        assert(d.texts[k as int].0 == d.rid(0, p2));
                    } else {
                        assert(d.rid(0, p2) != d.rid(0, p as int));
                        if exists|j: int| 0 <= j < k + 1 && #[trigger] d.texts[j].0 == d.rid(0, p2) {
                            let j = choose|j: int| 0 <= j < k + 1 && #[trigger] d.texts[j].0 == d.rid(0, p2);
                            assert(j != k);
                        }
                    }
                }
                assert forall|p2: int, j: int| #![trigger d.texts[j], d.rid(0, p2)] 0 <= p2 < n && 0 <= j < k + 1 && d.texts[j].0 == d.rid(0, p2) implies (topt@[p2] matches Some(t) && t@ == d.texts[j].1) by {
                    if j < k {
                        assert(p2 != p);
                    } else {
                        assert(d.rid(0, p2) == d.rid(0, p as int));
                        assert(p2 == p);
                    }
                }
            }
            k = k + 1;
        }
        let mut texts: Vec<String> = Vec::new();
        let mut i: usize = 0;
        while i < n
            invariant
                i <= n,
                topt@.len() == n,
                texts@.len() == i,
                forall|p: int| 0 <= p < i ==> #[trigger] d.has_text(d.rid(0, p)) && texts@[p]@ == d.text_of(d.rid(0, p)),
            decreases n - i,
        {
            match &topt[i] {
                Some(t) => {
                    proof {
                        let j = choose|j: int| 0 <= j < d.texts.len() && #[trigger] d.texts[j].0 == d.rid(0, i as int);
                        let c = choose|c: int| 0 <= c < d.texts.len() && #[trigger] d.texts[c].0 == d.rid(0, i as int);
                        assert(d.text_of(d.rid(0, i as int)) == d.texts[c].1);
                        assert(d.has_text(d.rid(0, i as int)));
                    }
                    texts.push(t.clone());
                },
                None => {
                    assert(!d.has_text(d.rid(0, i as int)));
                    return Err(StoreError::CorruptStore);
                },
            }
            i = i + 1;
        }
        let mut sopt: Vec<Option<String>> = Vec::new();
        let mut i: usize = 0;
        while i < n
            invariant
                i <= n,
                sopt@.len() == i,
                forall|p: int| 0 <= p < i ==> sopt@[p] is None,
            decreases n - i,
        {
            sopt.push(None);
            i = i + 1;
        }
        let mut k: usize = 0;
        while k < doc.sources.len()
            invariant
                k <= d.sources.len(),
                sopt@.len() == n,
                forall|j: int| 0 <= j < k ==> d.member(0, #[trigger] d.sources[j].0),
                forall|j1: int, j2: int| 0 <= j1 < k && 0 <= j2 < k && j1 != j2 ==> #[trigger] d.sources[j1].0 != #[trigger] d.sources[j2].0,
                forall|p: int| 0 <= p < n ==> (sopt@[p] is Some <==> exists|j: int| 0 <= j < k && #[trigger] d.sources[j].0 == d.rid(0, p)),
                forall|p: int, j: int| #![trigger d.sources[j], d.rid(0, p)] 0 <= p < n && 0 <= j < k && d.sources[j].0 == d.rid(0, p) ==> (sopt@[p] matches Some(t) && t@ == d.sources[j].1),
            decreases d.sources.len() - k,
        {
            let id = doc.sources[k].0;
            assert(id == d.sources[k as int].0);
            let p = match pos0.get(&id) {
                Some(p) => *p,
                None => {
                    return Err(StoreError::CorruptStore);
                },
            };
            proof {
                let q = d.slot(0, id);
                lemma_slot(d, 0, q);
            }
            assert(d.rid(0, p as int) == id);
            if sopt[p].is_some() {
                proof {
                    let j = choose|j: int| 0 <= j < k && #[trigger] d.sources[j].0 == d.rid(0, p as int);
                    assert(d.sources[j].0 == d.sources[k as int].0);
                }
                return Err(StoreError::CorruptStore);
            }
            let t = doc.sources[k].1.clone();
            assert(t@ == d.sources[k as int].1);
            sopt.set(p, Some(t));
            proof {
                assert forall|p2: int| 0 <= p2 < n implies (sopt@[p2] is Some <==> exists|j: int| 0 <= j < k + 1 && #[trigger] d.sources[j].0 == d.rid(0, p2)) by {
                    if p2 == p {
                        assert(d.sources[k as int].0 == d.rid(0, p2));
                    } else {
                        assert(d.rid(0, p2) != d.rid(0, p as int));
                        if exists|j: int| 0 <= j < k + 1 && #[trigger] d.sources[j].0 == d.rid(0, p2) {
                            let j = choose|j: int| 0 <= j < k + 1 && #[trigger] d.sources[j].0 == d.rid(0, p2);
                            assert(j != k);
                        }
                    }
                }
                assert forall|p2: int, j: int| #![trigger d.sources[j], d.rid(0, p2)] 0 <= p2 < n && 0 <= j < k + 1 && d.sources[j].0 == d.rid(0, p2) implies (sopt@[p2] matches Some(t) && t@ == d.sources[j].1) by {
                    if j < k {
                        assert(p2 != p);
                    } else {
                        assert(d.rid(0, p2) == d.rid(0, p as int));
                        assert(p2 == p);
                    }
                }
            }
            k = k + 1;
        }
        let graph = Graph { nodes, entry: e, max_links: m };
        let store = VectorStore { graph, texts, sources: sopt, positions: pos0, dim: Some(dim) };
        proof {
            assert(d.valid());
            lemma_decoded_wf(d);
            let want = d.decoded();
            assert forall|i: int| 0 <= i < n implies #[trigger] store@.graph.nodes[i] == want.graph.nodes[i] by {
                assert(store@.graph.nodes[i].links =~= want.graph.nodes[i].links);
            }
            assert(store@.graph.nodes =~= want.graph.nodes);
            assert(store@.texts =~= want.texts);
            assert forall|i: int| 0 <= i < n implies #[trigger] store@.sources[i] == want.sources[i] by {
                let x = d.rid(0, i);
                if d.has_source(x) {
                    let c = choose|c: int| 0 <= c < d.sources.len() && #[trigger] d.sources[c].0 == x;
                    assert(d.source_of(x) == Some(d.sources[c].1));
                }
            }
            assert(store@.sources =~= want.sources);
            assert(store@ == want);
            assert forall|i: int| 0 <= i < store@.len() implies #[trigger] store.positions@.contains_key(store@.id(i)) && store.positions@[store@.id(i)] == i by {
                assert(store@.id(i) == d.rid(0, i));
            }
            assert forall|key: u128| #[trigger] store.positions@.contains_key(key) implies store@.holds_id(key) by {
                assert(d.member(0, key));
                let r = choose|r: int| 0 <= r < d.layers[0].len() && #[trigger] d.rid(0, r) == key;
                assert(store@.id(r) == key);
            }
        }
        Ok(store)
    }
}

} // verus!
