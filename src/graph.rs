//! The layered proximity graph.
//!
//! Nodes live in one arena in insertion order; a node's position is its
//! internal handle. A node of top layer `t` inhabits layers `0..=t` and keeps
//! one neighbor list per layer. Distances come from a caller-supplied kernel
//! (see `distance`), and ties between equal keys go to the node inserted first.
use vstd::prelude::*;
use crate::distance::{kernel_is_pure, kernel_key, distance_key};

verus! {

/// One node: its identifier, its vector and one neighbor list per layer it
/// inhabits (`links[l]` holds arena positions of its neighbors at layer `l`).
pub struct Node<T> {
    pub id: u128,
    pub vector: Vec<T>,
    pub links: Vec<Vec<usize>>,
}

/// The mathematical form of a node.
pub struct NodeModel<T> {
    pub id: u128,
    pub vector: Seq<T>,
    pub links: Seq<Seq<usize>>,
}

impl<T> View for Node<T> {
    type V = NodeModel<T>;

    open spec fn view(&self) -> NodeModel<T> {
        NodeModel {
            id: self.id,
            vector: self.vector@,
            links: self.links@.map_values(|l: Vec<usize>| l@),
        }
    }
}

/// The graph: the node arena, the global entry point and the degree cap `M`.
pub struct Graph<T> {
    pub nodes: Vec<Node<T>>,
    pub entry: usize,
    pub max_links: usize,
}

/// The mathematical form of the graph.
pub struct GraphModel<T> {
    pub nodes: Seq<NodeModel<T>>,
    pub entry: int,
    pub max_links: nat,
}

impl<T> View for Graph<T> {
    type V = GraphModel<T>;

    open spec fn view(&self) -> GraphModel<T> {
        GraphModel {
            nodes: self.nodes@.map_values(|n: Node<T>| n@),
            entry: self.entry as int,
            max_links: self.max_links as nat,
        }
    }
}

impl<T> GraphModel<T> {
    pub open spec fn len(self) -> nat {
        self.nodes.len()
    }

    /// The top layer of node `i`.
    pub open spec fn level(self, i: int) -> int {
        self.nodes[i].links.len() - 1
    }

    /// Node `i` inhabits layer `l`.
    pub open spec fn in_layer(self, i: int, l: int) -> bool {
        0 <= i < self.len() && 0 <= l <= self.level(i)
    }

    /// The neighbors of node `i` at layer `l` (none where it does not inhabit `l`).
    pub open spec fn nbrs(self, i: int, l: int) -> Seq<usize> {
        if self.in_layer(i, l) {
            self.nodes[i].links[l]
        } else {
            Seq::empty()
        }
    }

    /// The highest non-empty layer.
    pub open spec fn top(self) -> int {
        self.level(self.entry)
    }

    /// Every neighbor reference at layer `l` resolves to another node of layer
    /// `l`, a list holds no reference twice, and holds at most `M` of them.
    pub open spec fn links_ok(self, i: int, l: int) -> bool {
        let s = self.nodes[i].links[l];
        &&& s.len() <= self.max_links
        &&& s.no_duplicates()
        &&& forall|k: int| 0 <= k < s.len() ==> #[trigger] s[k] != i && self.in_layer(s[k] as int, l)
    }

    /// The structural invariants of the graph.
    pub open spec fn wf(self) -> bool {
        &&& self.max_links >= 1
        &&& forall|i: int| 0 <= i < self.len() ==> #[trigger] self.nodes[i].links.len() >= 1
        &&& forall|i: int, l: int| self.in_layer(i, l) ==> #[trigger] self.links_ok(i, l)
        &&& self.len() == 0 ==> self.entry == 0
        &&& self.len() > 0 ==> {
            &&& 0 <= self.entry < self.len()
            &&& forall|i: int| 0 <= i < self.len() ==> #[trigger] self.level(i) <= self.top()
            &&& forall|i: int| self.entry < i < self.len() ==> #[trigger] self.level(i) < self.top()
        }
    }
}

/// Node `a` ranks before node `b` for keys `d`: a smaller key, or an equal
/// key and an earlier insertion.
pub open spec fn ranks_before(d: Seq<u32>, a: int, b: int) -> bool {
    d[a] < d[b] || (d[a] == d[b] && a < b)
}

/// Inserts `x` into `s` before the first element that does not rank before it.
pub open spec fn ranked_insert(s: Seq<usize>, x: usize, d: Seq<u32>) -> Seq<usize>
    decreases s.len(),
{
    if s.len() == 0 {
        seq![x]
    } else if ranks_before(d, s[0] as int, x as int) {
        seq![s[0]] + ranked_insert(s.drop_first(), x, d)
    } else {
        seq![x] + s
    }
}

/// Visits `x`: a node not seen yet joins the ranked queue.
pub open spec fn visit(s: Seq<usize>, x: usize, d: Seq<u32>) -> Seq<usize> {
    if s.contains(x) {
        s
    } else {
        ranked_insert(s, x, d)
    }
}

/// Visits each of `xs` in order.
pub open spec fn visit_all(s: Seq<usize>, xs: Seq<usize>, d: Seq<u32>) -> Seq<usize>
    decreases xs.len(),
{
    if xs.len() == 0 {
        s
    } else {
        visit(visit_all(s, xs.drop_last(), d), xs.last(), d)
    }
}

/// One pass of the walk: the head of the queue has its neighbors at layer `l` visited.
pub open spec fn expand_head<T>(g: GraphModel<T>, l: int, d: Seq<u32>, s: Seq<usize>) -> Seq<usize> {
    if s.len() == 0 {
        s
    } else {
        visit_all(s, g.nbrs(s[0] as int, l), d)
    }
}

/// The queue after `k` passes.
pub open spec fn walk<T>(g: GraphModel<T>, l: int, d: Seq<u32>, s: Seq<usize>, k: nat) -> Seq<usize>
    decreases k,
{
    if k == 0 {
        s
    } else {
        expand_head(g, l, d, walk(g, l, d, s, (k - 1) as nat))
    }
}

/// Greedy best-first search at layer `l` from `start`: every node that the
/// walk visits, ranked by key. The walk stops once a pass visits nothing new;
/// each pass that goes on visits a new node, so `len()` passes reach that point.
pub open spec fn greedy<T>(g: GraphModel<T>, l: int, d: Seq<u32>, start: usize) -> Seq<usize> {
    walk(g, l, d, seq![start], g.len())
}

/// The key of each node of `g` to the vector `q`.
pub open spec fn key_table<T, F: Fn(&Vec<T>, &Vec<T>) -> u32>(
    g: GraphModel<T>,
    q: Seq<T>,
    f: &F,
) -> Seq<u32> {
    Seq::new(g.len(), |i: int| kernel_key(f, q, g.nodes[i].vector))
}

/// The first elements of `s`, at most `k` of them.
pub open spec fn first_k<A>(s: Seq<A>, k: int) -> Seq<A> {
    if k < s.len() {
        s.take(k)
    } else {
        s
    }
}

/// The entry point for layer `lo`: starting at `ep`, each layer from `hi`
/// down to `lo` runs a greedy search with width one, and the node it finds
/// starts the search one layer down.
pub open spec fn descend<T>(g: GraphModel<T>, d: Seq<u32>, ep: usize, hi: int, lo: int) -> usize
    decreases hi - lo + 1,
{
    if lo > hi {
        ep
    } else {
        greedy(g, lo, d, descend(g, d, ep, hi, lo + 1))[0]
    }
}

/// The highest layer at which a node of top layer `t` is linked on insertion
/// (`-1` when the graph is empty).
pub open spec fn link_top<T>(g: GraphModel<T>, t: nat) -> int {
    if g.len() == 0 {
        -1
    } else if t < g.top() {
        t as int
    } else {
        g.top()
    }
}

/// For each layer where the new node is linked, the node it links to: the
/// nearest node that the descent from the entry point finds at that layer.
pub open spec fn link_targets<T>(g: GraphModel<T>, d: Seq<u32>, t: nat) -> Seq<usize> {
    Seq::new((link_top(g, t) + 1) as nat, |l: int| descend(g, d, g.entry as usize, g.top(), l))
}

/// The lists of node `i` after the new node `x` is linked at the layers below
/// `upto`: a target takes `x` while its list holds fewer than `M` neighbors.
pub open spec fn grown_links<T>(
    g: GraphModel<T>,
    targets: Seq<usize>,
    x: usize,
    i: int,
    upto: int,
) -> Seq<Seq<usize>> {
    Seq::new(
        g.nodes[i].links.len(),
        |l: int|
            if l < upto && l < targets.len() && targets[l] == i && g.nodes[i].links[l].len()
                < g.max_links {
                g.nodes[i].links[l].push(x)
            } else {
                g.nodes[i].links[l]
            },
    )
}

/// The new node's own lists: one link to the target at each linked layer,
/// none above.
pub open spec fn fresh_links(targets: Seq<usize>, t: nat) -> Seq<Seq<usize>> {
    Seq::new(t + 1, |l: int| if l < targets.len() { seq![targets[l]] } else { Seq::empty() })
}

/// The graph after inserting a node with identifier `id`, vector `v` and top
/// layer `t`, where `d` holds the key of each existing node to `v`. The new
/// node becomes the entry point when its top layer reaches the current one.
pub open spec fn inserted<T>(g: GraphModel<T>, id: u128, v: Seq<T>, t: nat, d: Seq<u32>) -> GraphModel<T> {
    let n = g.len();
    let targets = link_targets(g, d, t);
    GraphModel {
        nodes: Seq::new(
            n + 1,
            |i: int|
                if i == n {
                    NodeModel { id, vector: v, links: fresh_links(targets, t) }
                } else {
                    NodeModel {
                        id: g.nodes[i].id,
                        vector: g.nodes[i].vector,
                        links: grown_links(g, targets, n as usize, i, targets.len() as int),
                    }
                },
        ),
        entry: if n == 0 || t >= g.top() {
            n as int
        } else {
            g.entry
        },
        max_links: g.max_links,
    }
}

/// Inserting keeps the structural invariants when each link target inhabits
/// its layer.
pub proof fn lemma_inserted_wf<T>(g: GraphModel<T>, id: u128, v: Seq<T>, t: nat, d: Seq<u32>)
    requires
        g.wf(),
        g.len() < usize::MAX,
        forall|j: int|
            0 <= j < link_targets(g, d, t).len() ==> g.in_layer(#[trigger] link_targets(g, d, t)[j] as int, j),
    ensures
        inserted(g, id, v, t, d).wf(),
{
    let h = inserted(g, id, v, t, d);
    let n = g.len();
    let targets = link_targets(g, d, t);
    assert forall|i: int| 0 <= i < h.len() implies #[trigger] h.nodes[i].links.len() >= 1 by {}
    assert forall|i: int, l: int| h.in_layer(i, l) implies #[trigger] h.links_ok(i, l) by {
        let s = h.nodes[i].links[l];
        if i == n {
            if l < targets.len() {
                assert(g.in_layer(targets[l] as int, l));
                assert(s =~= seq![targets[l]]);
                assert(s[0] == targets[l]);
            }
        } else {
            assert(g.links_ok(i, l));
            let o = g.nodes[i].links[l];
            if s != o {
                assert(l < targets.len() && targets[l] == i && o.len() < g.max_links);
                assert(s == o.push(n as usize));
                assert forall|k: int| 0 <= k < s.len() implies #[trigger] s[k] != i && h.in_layer(s[k] as int, l) by {
                    if k < o.len() {
                        assert(o[k] == s[k]);
                    }
                }
                assert forall|a: int, b: int| 0 <= a < s.len() && 0 <= b < s.len() && a != b implies s[a] != s[b] by {
                    if a < o.len() && b < o.len() {
                        assert(o[a] == s[a] && o[b] == s[b]);
                    } else if a < o.len() {
                        assert(o[a] == s[a]);
                        assert(g.in_layer(o[a] as int, l));
                    } else {
                        assert(o[b] == s[b]);
                        assert(g.in_layer(o[b] as int, l));
                    }
                }
            } else {
                assert forall|k: int| 0 <= k < s.len() implies #[trigger] s[k] != i && h.in_layer(s[k] as int, l) by {
                    assert(g.in_layer(o[k] as int, l));
                }
            }
        }
    }
    if n > 0 {
        assert forall|i: int| 0 <= i < h.len() implies #[trigger] h.level(i) <= h.top() by {
            if i < n {
                assert(g.level(i) <= g.top());
            }
        }
        assert forall|i: int| h.entry < i < h.len() implies #[trigger] h.level(i) < h.top() by {
            if i < n {
                assert(g.level(i) < g.top());
            }
        }
    }
}

/// The `k` nearest nodes that a query finds: greedy searches of width one
/// from the entry point down to layer 1, then a greedy search at layer 0
/// whose first `k` nodes are kept.
pub open spec fn nearest<T>(g: GraphModel<T>, d: Seq<u32>, k: int) -> Seq<usize> {
    if g.len() == 0 || k <= 0 {
        Seq::empty()
    } else {
        first_k(greedy(g, 0, d, descend(g, d, g.entry as usize, g.top(), 1)), k)
    }
}

pub proof fn lemma_ranked_insert_at(s: Seq<usize>, x: usize, d: Seq<u32>, p: int)
    requires
        0 <= p <= s.len(),
        forall|i: int| 0 <= i < p ==> ranks_before(d, s[i] as int, x as int),
        p < s.len() ==> !ranks_before(d, s[p] as int, x as int),
    ensures
        ranked_insert(s, x, d) == s.insert(p, x),
    decreases s.len(),
{
    if s.len() == 0 {
        assert(s.insert(p, x) =~= seq![x]);
    } else if p == 0 {
        assert(s.insert(p, x) =~= seq![x] + s);
    } else {
        let r = s.drop_first();
        assert forall|i: int| 0 <= i < p - 1 implies ranks_before(d, r[i] as int, x as int) by {
            assert(r[i] == s[i + 1]);
        }
        lemma_ranked_insert_at(r, x, d, p - 1);
        assert(s.insert(p, x) =~= seq![s[0]] + r.insert(p - 1, x));
    }
}

pub proof fn lemma_walk_stable<T>(g: GraphModel<T>, l: int, d: Seq<u32>, s: Seq<usize>, p: nat, k: nat)
    requires
        p <= k,
        expand_head(g, l, d, walk(g, l, d, s, p)) == walk(g, l, d, s, p),
    ensures
        walk(g, l, d, s, k) == walk(g, l, d, s, p),
    decreases k,
{
    if k > p {
        lemma_walk_stable(g, l, d, s, p, (k - 1) as nat);
    }
}

impl<T> Graph<T> {
    pub open spec fn wf(&self) -> bool {
        self@.wf()
    }

    /// Greedy best-first search at layer `l` from `start` for the query `q`:
    /// the visited nodes ranked by key, each with its key.
    pub fn search<F: Fn(&Vec<T>, &Vec<T>) -> u32>(&self, q: &Vec<T>, l: usize, start: usize, kernel: &F) -> (r: Vec<(usize, u32)>)
        requires
            self.wf(),
            kernel_is_pure(kernel),
            self@.in_layer(start as int, l as int),
        ensures
            r@.len() == greedy(self@, l as int, key_table(self@, q@, kernel), start).len(),
            r@.len() >= 1,
            forall|i: int| 0 <= i < r@.len() ==> {
                &&& (#[trigger] r@[i]).0 == greedy(self@, l as int, key_table(self@, q@, kernel), start)[i]
                &&& r@[i].1 == key_table(self@, q@, kernel)[r@[i].0 as int]
                &&& self@.in_layer(r@[i].0 as int, l as int)
            },
    {
        let ghost g = self@;
        let ghost d = key_table(self@, q@, kernel);
        let n = self.nodes.len();
        let mut seen: Vec<bool> = Vec::new();
        let mut i: usize = 0;
        while i < n
            invariant
                i <= n,
                seen@.len() == i,
                forall|j: int| 0 <= j < i ==> seen@[j] == (j == start),
            decreases n - i,
        {
            seen.push(i == start);
            i = i + 1;
        }
        let d0 = distance_key(kernel, q, &self.nodes[start].vector);
        let mut best: Vec<(usize, u32)> = Vec::new();
        best.push((start, d0));
        let ghost s0: Seq<usize> = seq![start];
        assert(best@.map_values(|p: (usize, u32)| p.0) =~= s0);
        assert forall|j: int| 0 <= j < n implies (#[trigger] seen@[j] <==> s0.contains(j as usize)) by {
            if j == start {
                assert(s0[0] == start);
            }
        }
        let mut passes: usize = 0;
        let mut done = false;
        while passes < n && !done
            invariant
                self.wf(),
                kernel_is_pure(kernel),
                g == self@,
                d == key_table(self@, q@, kernel),
                n == g.len(),
                0 <= l,
                passes <= n,
                seen@.len() == n,
                best@.len() >= 1,
                best@.map_values(|p: (usize, u32)| p.0) == walk(g, l as int, d, s0, passes as nat),
                forall|k: int| 0 <= k < best@.len() ==> {
                    &&& (#[trigger] best@[k]).1 == d[best@[k].0 as int]
                    &&& g.in_layer(best@[k].0 as int, l as int)
                },
                forall|j: int| 0 <= j < n ==> (#[trigger] seen@[j] <==> best@.map_values(|p: (usize, u32)| p.0).contains(j as usize)),
                done ==> expand_head(g, l as int, d, walk(g, l as int, d, s0, passes as nat)) == walk(g, l as int, d, s0, passes as nat),
            decreases n - passes + (if done { 0int } else { 1int }),
        {
            let ghost before = best@.map_values(|p: (usize, u32)| p.0);
            let h = best[0].0;
            assert(before[0] == h);
            let links = &self.nodes[h].links[l];
            assert(links@ == g.nbrs(h as int, l as int));
            let mut improved = false;
            let mut j: usize = 0;
            while j < links.len()
                invariant
                    self.wf(),
                    kernel_is_pure(kernel),
                    g == self@,
                    d == key_table(self@, q@, kernel),
                    n == g.len(),
                    0 <= l,
                    g.in_layer(h as int, l as int),
                    links@ == g.nbrs(h as int, l as int),
                    j <= links@.len(),
                    seen@.len() == n,
                    best@.len() >= 1,
                    best@.map_values(|p: (usize, u32)| p.0) == visit_all(before, links@.take(j as int), d),
                    forall|k: int| 0 <= k < best@.len() ==> {
                        &&& (#[trigger] best@[k]).1 == d[best@[k].0 as int]
                        &&& g.in_layer(best@[k].0 as int, l as int)
                    },
                    forall|m: int| 0 <= m < n ==> (#[trigger] seen@[m] <==> best@.map_values(|p: (usize, u32)| p.0).contains(m as usize)),
                    !improved ==> best@.map_values(|p: (usize, u32)| p.0) == before,
                decreases links@.len() - j,
            {
                let x = links[j];
                let ghost cur = best@.map_values(|p: (usize, u32)| p.0);
                assert(g.links_ok(h as int, l as int));
                assert(links@[j as int] == x);
                assert(g.in_layer(x as int, l as int));
                assert(links@.take(j + 1).drop_last() =~= links@.take(j as int));
                assert(links@.take(j + 1).last() == x);
                if !seen[x] {
                    assert(!cur.contains(x));
                    let dx = distance_key(kernel, q, &self.nodes[x].vector);
                    assert(dx == d[x as int]);
                    let mut p: usize = 0;
                    while p < best.len() && (best[p].1 < dx || (best[p].1 == dx && best[p].0 < x))
                        invariant
                            p <= best@.len(),
                            forall|k: int| 0 <= k < best@.len() ==> (#[trigger] best@[k]).1 == d[best@[k].0 as int],
                            forall|k: int| 0 <= k < p ==> ranks_before(d, #[trigger] best@[k].0 as int, x as int),
                            dx == d[x as int],
                        decreases best@.len() - p,
                    {
                        p = p + 1;
                    }
                    proof {
                        assert forall|k: int| 0 <= k < p implies ranks_before(d, cur[k] as int, x as int) by {
                            assert(cur[k] == best@[k].0);
                        }
                        if p < best@.len() {
                            assert(cur[p as int] == best@[p as int].0);
                        }
                        lemma_ranked_insert_at(cur, x, d, p as int);
                    }
                    best.insert(p, (x, dx));
                    seen.set(x, true);
                    improved = true;
                    proof {
                        let nxt = best@.map_values(|p: (usize, u32)| p.0);
                        assert(nxt =~= cur.insert(p as int, x));
                        assert forall|m: int| 0 <= m < n implies (#[trigger] seen@[m] <==> nxt.contains(m as usize)) by {
                            if m == x {
                                assert(nxt[p as int] == x);
                            } else {
                                if seen@[m] {
                                    assert(cur.contains(m as usize));
                                    let k = choose|k: int| 0 <= k < cur.len() && cur[k] == m as usize;
                                    if k < p {
                                        assert(nxt[k] == m as usize);
                                    } else {
                                        assert(nxt[k + 1] == m as usize);
                                    }
                                }
                                if nxt.contains(m as usize) {
                                    let k = choose|k: int| 0 <= k < nxt.len() && nxt[k] == m as usize;
                                    if k < p {
                                        assert(cur[k] == m as usize);
                                    } else {
                                        assert(k != p);
                                        assert(cur[k - 1] == m as usize);
                                    }
                                }
                            }
                        }
                    }
                } else {
                    assert(cur.contains(x));
                }
                j = j + 1;
            }
            proof {
                assert(links@.take(links@.len() as int) =~= links@);
            }
            if !improved {
                done = true;
            } else {
                passes = passes + 1;
            }
        }
        proof {
            if done {
                lemma_walk_stable(g, l as int, d, s0, passes as nat, n as nat);
            }
        }
        best
    }

    /// Appends `x` to the list of node `i` at layer `l`.
    fn push_link(&mut self, i: usize, l: usize, x: usize)
        requires
            i < old(self).nodes@.len(),
            l < old(self).nodes@[i as int].links@.len(),
        ensures
            final(self).entry == old(self).entry,
            final(self).max_links == old(self).max_links,
            final(self).nodes@.len() == old(self).nodes@.len(),
            forall|j: int| 0 <= j < old(self).nodes@.len() && j != i ==> final(self).nodes@[j] == old(self).nodes@[j],
            final(self).nodes@[i as int].id == old(self).nodes@[i as int].id,
            final(self).nodes@[i as int].vector == old(self).nodes@[i as int].vector,
            final(self).nodes@[i as int].links@.len() == old(self).nodes@[i as int].links@.len(),
            forall|k: int| 0 <= k < old(self).nodes@[i as int].links@.len() && k != l ==>
                final(self).nodes@[i as int].links@[k] == old(self).nodes@[i as int].links@[k],
            final(self).nodes@[i as int].links@[l as int]@ == old(self).nodes@[i as int].links@[l as int]@.push(x),
    {
        self.nodes[i].links[l].push(x);
    }

    /// Inserts a node with identifier `id`, vector `vector` and top layer
    /// `top`, linking it at each layer up to the current top to the nearest
    /// node that the descent finds there.
    pub fn insert<F: Fn(&Vec<T>, &Vec<T>) -> u32>(&mut self, id: u128, vector: Vec<T>, top: usize, kernel: &F)
        requires
            old(self).wf(),
            kernel_is_pure(kernel),
            old(self).nodes@.len() < usize::MAX,
            top < usize::MAX,
        ensures
            final(self)@ == inserted(old(self)@, id, vector@, top as nat, key_table(old(self)@, vector@, kernel)),
            final(self).wf(),
    {
        let ghost g = self@;
        let ghost d = key_table(self@, vector@, kernel);
        let ghost targets = link_targets(g, d, top as nat);
        let n = self.nodes.len();
        let old_top: usize = if n > 0 { self.nodes[self.entry].links.len() - 1 } else { 0 };
        let mut chosen: Vec<usize> = Vec::new();
        if n > 0 {
            let cur_top = self.nodes[self.entry].links.len() - 1;
            let low = if top < cur_top { top } else { cur_top };
            let mut i: usize = 0;
            while i <= low
                invariant
                    low < usize::MAX,
                    i <= low + 1,
                    chosen@.len() == i,
                    forall|j: int| 0 <= j < i ==> chosen@[j] == 0,
                decreases low + 1 - i,
            {
                chosen.push(0);
                i = i + 1;
            }
            let mut ep = self.entry;
            let mut lv: usize = cur_top + 1;
            while lv > 0
                invariant
                    self.wf(),
                    self@ == g,
                    kernel_is_pure(kernel),
                    d == key_table(g, vector@, kernel),
                    n == g.len(),
                    n > 0,
                    cur_top == g.top(),
                    low == link_top(g, top as nat),
                    targets == link_targets(g, d, top as nat),
                    lv <= cur_top + 1,
                    lv > 0 ==> g.in_layer(ep as int, lv - 1),
                    ep == descend(g, d, g.entry as usize, g.top(), lv as int),
                    chosen@.len() == low + 1,
                    forall|j: int| lv <= j <= low ==> chosen@[j] == targets[j] && g.in_layer(targets[j] as int, j),
                decreases lv,
            {
                lv = lv - 1;
                let r = self.search(&vector, lv, ep, kernel);
                ep = r[0].0;
                assert(ep == descend(g, d, g.entry as usize, g.top(), lv as int));
                if lv <= low {
                    chosen.set(lv, ep);
                }
            }
            assert(chosen@ =~= targets);
        } else {
            assert(chosen@ =~= targets);
        }
        let mut own: Vec<Vec<usize>> = Vec::new();
        let mut l: usize = 0;
        while l <= top
            invariant
                top < usize::MAX,
                l <= top + 1,
                own@.len() == l,
                chosen@ == targets,
                forall|j: int| 0 <= j < l ==> (#[trigger] own@[j])@ == fresh_links(targets, top as nat)[j],
            decreases top + 1 - l,
        {
            if l < chosen.len() {
                let mut one: Vec<usize> = Vec::new();
                one.push(chosen[l]);
                assert(one@ =~= seq![targets[l as int]]);
                own.push(one);
            } else {
                let none: Vec<usize> = Vec::new();
                assert(none@ =~= Seq::<usize>::empty());
                own.push(none);
            }
            l = l + 1;
        }
        let mut l: usize = 0;
        while l < chosen.len()
            invariant
                g.wf(),
                n == g.len(),
                chosen@ == targets,
                forall|j: int| 0 <= j < targets.len() ==> g.in_layer(targets[j] as int, j),
                l <= chosen@.len(),
                self.nodes@.len() == n,
                self.entry == g.entry,
                self.max_links == g.max_links,
                forall|i: int| 0 <= i < n ==> {
                    &&& (#[trigger] self@.nodes[i]).id == g.nodes[i].id
                    &&& self@.nodes[i].vector == g.nodes[i].vector
                    &&& self@.nodes[i].links == grown_links(g, targets, n, i, l as int)
                },
            decreases chosen@.len() - l,
        {
            let t = chosen[l];
            assert(g.in_layer(t as int, l as int));
            assert(self@.nodes[t as int].links[l as int] == g.nodes[t as int].links[l as int]);
            let ghost before = self@;
            let ghost old_nodes = self.nodes@;
            let pushed = self.nodes[t].links[l].len() < self.max_links;
            if pushed {
                self.push_link(t, l, n);
            }
            proof {
                assert forall|i: int| 0 <= i < n implies {
                    &&& (#[trigger] self@.nodes[i]).id == g.nodes[i].id
                    &&& self@.nodes[i].vector == g.nodes[i].vector
                    &&& self@.nodes[i].links == grown_links(g, targets, n, i, l + 1)
                } by {
                    let want = grown_links(g, targets, n, i, l + 1);
                    let was = grown_links(g, targets, n, i, l as int);
                    assert(before.nodes[i].links == was);
                    if i != t || !pushed {
                        assert(self.nodes@[i] == old_nodes[i]);
                        assert(self@.nodes[i] == before.nodes[i]);
                        assert forall|l2: int| 0 <= l2 < was.len() implies was[l2] == want[l2] by {
                            if l2 == l && i == t {
                                assert(was[l2] == g.nodes[i].links[l2]);
                            }
                        }
                        assert(was =~= want);
                    } else {
                        assert forall|l2: int| 0 <= l2 < want.len() implies self@.nodes[i].links[l2] == want[l2] by {
                            assert(self@.nodes[i].links[l2] == self.nodes@[i].links@[l2]@);
                            assert(before.nodes[i].links[l2] == old_nodes[i].links@[l2]@);
                            if l2 != l {
                                assert(self.nodes@[i].links@[l2] == old_nodes[i].links@[l2]);
                            } else {
                                assert(was[l2] == g.nodes[i].links[l2]);
                            }
                        }
                        assert(self@.nodes[i].links =~= want);
                    }
                }
            }
            l = l + 1;
        }
        let node = Node { id, vector, links: own };
        assert(node@.links =~= fresh_links(targets, top as nat));
        let ghost pre = self@;
        self.nodes.push(node);
        if n == 0 || top >= old_top {
            self.entry = n;
        }
        proof {
            let want = inserted(g, id, node@.vector, top as nat, d);
            assert forall|i: int| 0 <= i < n + 1 implies self@.nodes[i] == want.nodes[i] by {
                if i < n {
                    assert(self@.nodes[i] == pre.nodes[i]);
                    assert(pre.nodes[i].links == grown_links(g, targets, n, i, targets.len() as int));
                }
            }
            assert(self@.nodes =~= want.nodes);
            lemma_inserted_wf(g, id, node@.vector, top as nat, d);
        }
    }

    /// The `k` nearest nodes to `q` that the layered search finds, ranked,
    /// each with its key.
    pub fn nearest<F: Fn(&Vec<T>, &Vec<T>) -> u32>(&self, q: &Vec<T>, k: usize, kernel: &F) -> (r: Vec<(usize, u32)>)
        requires
            self.wf(),
            kernel_is_pure(kernel),
        ensures
            r@.len() == nearest(self@, key_table(self@, q@, kernel), k as int).len(),
            forall|i: int| 0 <= i < r@.len() ==> {
                &&& (#[trigger] r@[i]).0 == nearest(self@, key_table(self@, q@, kernel), k as int)[i]
                &&& r@[i].1 == key_table(self@, q@, kernel)[r@[i].0 as int]
                &&& self@.in_layer(r@[i].0 as int, 0)
            },
    {
        let ghost g = self@;
        let ghost d = key_table(self@, q@, kernel);
        if self.nodes.len() == 0 || k == 0 {
            return Vec::new();
        }
        assert(g.nodes[g.entry].links.len() >= 1);
        assert(self.nodes@[self.entry as int].links@.len() == g.nodes[g.entry].links.len());
        let top = self.nodes[self.entry].links.len() - 1;
        let mut ep = self.entry;
        let mut lv = top;
        while lv > 0
            invariant
                self.wf(),
                self@ == g,
                kernel_is_pure(kernel),
                d == key_table(g, q@, kernel),
                g.len() > 0,
                top == g.top(),
                lv <= top,
                g.in_layer(ep as int, lv as int),
                ep == descend(g, d, g.entry as usize, g.top(), lv + 1),
            decreases lv,
        {
            let r = self.search(q, lv, ep, kernel);
            ep = r[0].0;
            lv = lv - 1;
        }
        let mut r = self.search(q, 0, ep, kernel);
        let ghost full = r@;
        r.truncate(k);
        proof {
            let want = nearest(g, d, k as int);
            let walked = greedy(g, 0, d, ep);
            if k < full.len() {
                assert(want =~= walked.take(k as int));
            }
        }
        r
    }
}

} // verus!
