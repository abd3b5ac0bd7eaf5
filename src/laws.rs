//! Properties of the index that relate several operations or hold of every
//! input, stated over the models that the operations' contracts use.
use vstd::prelude::*;
use vstd::set_lib::{lemma_int_range, set_int_range};
use crate::graph::{
    GraphModel, descend, expand_head, first_k, greedy, ranked_insert, ranks_before, visit_all, walk,
};
use crate::store::{StoreModel, added, answer};

verus! {

/// The invariants of every store that `new`, the additions and `load`
/// produce: every vector has the store's dimension; each node inhabits the
/// layers from 0 to its top layer with no gap (one neighbor list per layer);
/// every link at layer `l` leads to another node that inhabits layer `l`; and
/// no list holds more than `M` links.
pub proof fn lemma_store_invariants<T>(s: StoreModel<T>)
    requires
        s.wf(),
    ensures
        forall|i: int| 0 <= i < s.len() ==> s.dim == Some((#[trigger] s.graph.nodes[i]).vector.len()),
        forall|i: int| 0 <= i < s.len() ==> (#[trigger] s.graph.nodes[i]).links.len() >= 1,
        forall|i: int, l: int, k: int|
            0 <= i < s.len() && 0 <= l <= s.graph.level(i) && 0 <= k < s.graph.nbrs(i, l).len() ==> {
                let j = #[trigger] s.graph.nbrs(i, l)[k] as int;
                j != i && 0 <= j < s.len() && l <= s.graph.level(j)
            },
        forall|i: int, l: int| 0 <= i < s.len() && 0 <= l <= s.graph.level(i) ==> #[trigger] s.graph.nbrs(i, l).len() <= s.graph.max_links,
{
    let g = s.graph;
    assert forall|i: int, l: int, k: int|
        0 <= i < s.len() && 0 <= l <= g.level(i) && 0 <= k < g.nbrs(i, l).len() implies {
            let j = #[trigger] g.nbrs(i, l)[k] as int;
            j != i && 0 <= j < s.len() && l <= g.level(j)
        } by {
        assert(g.in_layer(i, l) && g.links_ok(i, l));
    }
    assert forall|i: int, l: int| 0 <= i < s.len() && 0 <= l <= g.level(i) implies #[trigger] g.nbrs(i, l).len() <= g.max_links by {
        assert(g.in_layer(i, l) && g.links_ok(i, l));
    }
    assert forall|i: int| 0 <= i < s.len() implies s.dim == Some((#[trigger] s.graph.nodes[i]).vector.len()) by {
        assert(s.graph.nodes[i].vector.len() == s.expected_dim());
    }
}

/// Query monotonicity in `k`: for one query, the answer for `k1 <= k2` is a
/// prefix of the answer for `k2`, so every node found for `k1` is found for
/// `k2`, at the same rank.
pub proof fn lemma_query_monotone_in_k<T>(s: StoreModel<T>, d: Seq<u32>, k1: int, k2: int)
    requires
        k1 <= k2,
    ensures
        answer(s, d, k1).len() <= answer(s, d, k2).len(),
        forall|i: int| 0 <= i < answer(s, d, k1).len() ==> answer(s, d, k1)[i] == answer(s, d, k2)[i],
        forall|x: usize| answer(s, d, k1).contains(x) ==> answer(s, d, k2).contains(x),
{
    let a1 = answer(s, d, k1);
    let a2 = answer(s, d, k2);
    assert forall|x: usize| a1.contains(x) implies a2.contains(x) by {
        let i = choose|i: int| 0 <= i < a1.len() && a1[i] == x;
        assert(a2[i] == x);
    }
}

/// Determinism: equal stores that take the same addition (vector, text,
/// source, identifier and draw, with the kernel's keys) become equal stores,
/// and equal stores give every query the same answer.
pub proof fn lemma_replay_deterministic<T>(
    s1: StoreModel<T>,
    s2: StoreModel<T>,
    v: Seq<T>,
    text: Seq<char>,
    source: Option<Seq<char>>,
    id: u128,
    draw: u32,
    d: Seq<u32>,
    k: int,
)
    requires
        s1 == s2,
    ensures
        added(s1, v, text, source, id, draw, d) == added(s2, v, text, source, id, draw, d),
        answer(s1, d, k) == answer(s2, d, k),
{
}

proof fn lemma_lone_walk<T>(g: GraphModel<T>, l: int, d: Seq<u32>, k: nat)
    requires
        g.wf(),
        g.len() == 1,
    ensures
        walk(g, l, d, seq![0usize], k) == seq![0usize],
    decreases k,
{
    if k > 0 {
        lemma_lone_walk(g, l, d, (k - 1) as nat);
        let s = seq![0usize];
        let nb = g.nbrs(0, l);
        if g.in_layer(0, l) {
            assert(g.links_ok(0, l));
            if nb.len() > 0 {
                assert(nb[0] != 0 && g.in_layer(nb[0] as int, l));
            }
        }
        assert(nb.len() == 0);
        assert(expand_head(g, l, d, s) == visit_all(s, nb, d));
    }
}

proof fn lemma_lone_descend<T>(g: GraphModel<T>, d: Seq<u32>, hi: int, lo: int)
    requires
        g.wf(),
        g.len() == 1,
        g.entry == 0,
    ensures
        descend(g, d, 0, hi, lo) == 0,
    decreases hi - lo + 1,
{
    if lo <= hi {
        lemma_lone_descend(g, d, hi, lo + 1);
        lemma_lone_walk(g, lo, d, g.len());
    }
}

/// A store of one node answers every query for `k >= 1` with that node alone.
pub proof fn lemma_single_node_answer<T>(s: StoreModel<T>, d: Seq<u32>, k: int)
    requires
        s.wf(),
        s.len() == 1,
        k >= 1,
    ensures
        answer(s, d, k) == seq![0usize],
{
    let g = s.graph;
    lemma_lone_descend(g, d, g.top(), 1);
    lemma_lone_walk(g, 0, d, g.len());
    assert(greedy(g, 0, d, 0) == seq![0usize]);
    assert(first_k(seq![0usize], k) == seq![0usize]);
}

proof fn lemma_cons(a: usize, t: Seq<usize>)
    ensures
        forall|y: usize| (seq![a] + t).contains(y) <==> (y == a || t.contains(y)),
        (seq![a] + t).no_duplicates() <==> (!t.contains(a) && t.no_duplicates()),
{
    let c = seq![a] + t;
    assert forall|y: usize| c.contains(y) <==> (y == a || t.contains(y)) by {
        if c.contains(y) {
            let k = choose|k: int| 0 <= k < c.len() && c[k] == y;
            if k > 0 {
                assert(t[k - 1] == y);
            }
        }
        if y == a {
            assert(c[0] == y);
        } else if t.contains(y) {
            let k = choose|k: int| 0 <= k < t.len() && t[k] == y;
            assert(c[k + 1] == y);
        }
    }
    if c.no_duplicates() {
        assert forall|i: int, j: int| 0 <= i < t.len() && 0 <= j < t.len() && i != j implies t[i] != t[j] by {
            assert(c[i + 1] == t[i] && c[j + 1] == t[j]);
        }
        if t.contains(a) {
            let k = choose|k: int| 0 <= k < t.len() && t[k] == a;
            assert(c[k + 1] == a && c[0] == a);
        }
    }
    if !t.contains(a) && t.no_duplicates() {
        assert forall|i: int, j: int| 0 <= i < c.len() && 0 <= j < c.len() && i != j implies c[i] != c[j] by {
            if i == 0 {
                assert(c[j] == t[j - 1]);
            } else if j == 0 {
                assert(c[i] == t[i - 1]);
            } else {
                assert(c[i] == t[i - 1] && c[j] == t[j - 1]);
            }
        }
    }
}

proof fn lemma_ranked_insert_elems(s: Seq<usize>, x: usize, d: Seq<u32>)
    ensures
        forall|y: usize| ranked_insert(s, x, d).contains(y) <==> (s.contains(y) || y == x),
        s.no_duplicates() && !s.contains(x) ==> ranked_insert(s, x, d).no_duplicates(),
    decreases s.len(),
{
    if s.len() == 0 {
        lemma_cons(x, s);
        assert(seq![x] + s =~= seq![x]);
    } else {
        let rest = s.drop_first();
        lemma_cons(s[0], rest);
        assert(s =~= seq![s[0]] + rest);
        if ranks_before(d, s[0] as int, x as int) {
            lemma_ranked_insert_elems(rest, x, d);
            let ri = ranked_insert(rest, x, d);
            lemma_cons(s[0], ri);
            assert(ranked_insert(s, x, d) == seq![s[0]] + ri);
            assert forall|y: usize| ranked_insert(s, x, d).contains(y) <==> (s.contains(y) || y == x) by {
                assert((seq![s[0]] + ri).contains(y) <==> (y == s[0] || ri.contains(y)));
                assert((seq![s[0]] + rest).contains(y) <==> (y == s[0] || rest.contains(y)));
            }
        } else {
            lemma_cons(x, s);
            assert(ranked_insert(s, x, d) == seq![x] + s);
        }
    }
}

proof fn lemma_visit_all_elems(s: Seq<usize>, xs: Seq<usize>, d: Seq<u32>)
    ensures
        forall|y: usize| visit_all(s, xs, d).contains(y) <==> (s.contains(y) || xs.contains(y)),
        s.no_duplicates() ==> visit_all(s, xs, d).no_duplicates(),
    decreases xs.len(),
{
    if xs.len() > 0 {
        let init = xs.drop_last();
        lemma_visit_all_elems(s, init, d);
        let v = visit_all(s, init, d);
        lemma_ranked_insert_elems(v, xs.last(), d);
        assert(xs =~= init.push(xs.last()));
        assert forall|y: usize| xs.contains(y) <==> (init.contains(y) || y == xs.last()) by {
            if xs.contains(y) {
                let k = choose|k: int| 0 <= k < xs.len() && xs[k] == y;
                if k < init.len() {
                    assert(init[k] == y);
                }
            }
            if init.contains(y) {
                let k = choose|k: int| 0 <= k < init.len() && init[k] == y;
                assert(xs[k] == y);
            }
        }
    }
}

proof fn lemma_walk_elems<T>(g: GraphModel<T>, l: int, d: Seq<u32>, start: usize, k: nat)
    requires
        g.wf(),
        g.in_layer(start as int, l),
    ensures
        walk(g, l, d, seq![start], k).len() >= 1,
        walk(g, l, d, seq![start], k).no_duplicates(),
        forall|y: usize| walk(g, l, d, seq![start], k).contains(y) ==> g.in_layer(y as int, l),
    decreases k,
{
    if k == 0 {
        assert forall|y: usize| seq![start].contains(y) implies g.in_layer(y as int, l) by {
            let i = choose|i: int| 0 <= i < 1 && seq![start][i] == y;
        }
    } else {
        lemma_walk_elems(g, l, d, start, (k - 1) as nat);
        let w = walk(g, l, d, seq![start], (k - 1) as nat);
        let h = w[0];
        assert(w.contains(h));
        let nb = g.nbrs(h as int, l);
        lemma_visit_all_elems(w, nb, d);
        assert(g.links_ok(h as int, l));
        assert forall|y: usize| nb.contains(y) implies g.in_layer(y as int, l) by {
            let i = choose|i: int| 0 <= i < nb.len() && nb[i] == y;
        }
        let w2 = visit_all(w, nb, d);
        assert(w.contains(h) && w2.contains(h));
        assert(w2.len() >= 1);
    }
}

proof fn lemma_descend_in_layer<T>(g: GraphModel<T>, d: Seq<u32>, ep: usize, hi: int, lo: int)
    requires
        g.wf(),
        0 <= lo,
        g.in_layer(ep as int, hi),
    ensures
        g.in_layer(descend(g, d, ep, hi, lo) as int, if lo <= hi { lo } else { hi }),
    decreases hi - lo + 1,
{
    if lo <= hi {
        lemma_descend_in_layer(g, d, ep, hi, lo + 1);
        let e = descend(g, d, ep, hi, lo + 1);
        assert(g.in_layer(e as int, lo));
        lemma_walk_elems(g, lo, d, e, g.len());
        let w = greedy(g, lo, d, e);
        assert(w.contains(w[0]));
    }
}

/// A query for `k >= count()` keeps every node that the greedy walk at layer
/// 0 reaches; where that walk reaches every node, the answer has exactly
/// `count()` entries. (The walk expands only the nearest node found so far,
/// so on some graphs it stops before reaching every node.)
pub proof fn lemma_large_k_answer<T>(s: StoreModel<T>, d: Seq<u32>, k: int)
    requires
        s.wf(),
        0 < s.len() <= usize::MAX,
        k >= s.len(),
        forall|i: usize| (i as int) < s.len() ==> #[trigger] greedy(s.graph, 0, d, descend(s.graph, d, s.graph.entry as usize, s.graph.top(), 1)).contains(i),
    ensures
        answer(s, d, k).len() == s.len(),
{
    let g = s.graph;
    let n = s.len();
    let ep = descend(g, d, g.entry as usize, g.top(), 1);
    assert(g.nodes[g.entry].links.len() >= 1);
    lemma_descend_in_layer(g, d, g.entry as usize, g.top(), 1);
    assert(g.in_layer(ep as int, 0));
    lemma_walk_elems(g, 0, d, ep, g.len());
    let w = greedy(g, 0, d, ep);
    let t = w.map_values(|x: usize| x as int);
    assert(t.no_duplicates()) by {
        assert forall|i: int, j: int| 0 <= i < t.len() && 0 <= j < t.len() && i != j implies t[i] != t[j] by {
            assert(w[i] != w[j]);
        }
    }
    t.unique_seq_to_set();
    lemma_int_range(0, n as int);
    assert forall|y: int| t.contains(y) implies 0 <= y < n by {
        let i = choose|i: int| 0 <= i < t.len() && t[i] == y;
        assert(w.contains(w[i]));
        assert(g.in_layer(w[i] as int, 0));
    }
    assert forall|y: int| 0 <= y < n implies t.contains(y) by {
        assert(w.contains(y as usize));
        let i = choose|i: int| 0 <= i < w.len() && w[i] == y as usize;
        assert(t[i] == y);
    }
    assert forall|y: int| t.to_set().contains(y) <==> set_int_range(0, n as int).contains(y) by {
        assert(t.to_set().contains(y) <==> t.contains(y));
    }
    assert(t.to_set() =~= set_int_range(0, n as int));
    assert(w.len() == n);
}

/// The nodes of `s` are in ranked order: by key, then by insertion.
pub open spec fn is_ranked(s: Seq<usize>, d: Seq<u32>) -> bool {
    forall|i: int, j: int| 0 <= i < j < s.len() ==> ranks_before(d, #[trigger] s[i] as int, #[trigger] s[j] as int)
}

proof fn lemma_ranked_insert_ranked(s: Seq<usize>, x: usize, d: Seq<u32>)
    requires
        is_ranked(s, d),
        !s.contains(x),
    ensures
        is_ranked(ranked_insert(s, x, d), d),
    decreases s.len(),
{
    if s.len() > 0 {
        let rest = s.drop_first();
        assert(is_ranked(rest, d)) by {
            assert forall|i: int, j: int| 0 <= i < j < rest.len() implies ranks_before(d, #[trigger] rest[i] as int, #[trigger] rest[j] as int) by {
                assert(rest[i] == s[i + 1] && rest[j] == s[j + 1]);
            }
        }
        if ranks_before(d, s[0] as int, x as int) {
            assert(!rest.contains(x)) by {
                if rest.contains(x) {
                    let k = choose|k: int| 0 <= k < rest.len() && rest[k] == x;
                    assert(s[k + 1] == x);
                }
            }
            lemma_ranked_insert_ranked(rest, x, d);
            lemma_ranked_insert_elems(rest, x, d);
            let ri = ranked_insert(rest, x, d);
            let r = ranked_insert(s, x, d);
            assert(r == seq![s[0]] + ri);
            assert forall|i: int, j: int| 0 <= i < j < r.len() implies ranks_before(d, #[trigger] r[i] as int, #[trigger] r[j] as int) by {
                if i == 0 {
                    let y = ri[j - 1];
                    assert(r[j] == y);
                    assert(ri.contains(y));
                    if y != x {
                        assert(rest.contains(y));
                        let k = choose|k: int| 0 <= k < rest.len() && rest[k] == y;
                        assert(s[k + 1] == y);
                        assert(ranks_before(d, s[0] as int, s[k + 1] as int));
                    }
                } else {
                    assert(r[i] == ri[i - 1] && r[j] == ri[j - 1]);
                }
            }
        } else {
            let r = ranked_insert(s, x, d);
            assert(r == seq![x] + s);
            assert(s.contains(s[0]));
            assert(ranks_before(d, x as int, s[0] as int));
            assert forall|i: int, j: int| 0 <= i < j < r.len() implies ranks_before(d, #[trigger] r[i] as int, #[trigger] r[j] as int) by {
                if i == 0 {
                    assert(r[j] == s[j - 1]);
                    if j > 1 {
                        assert(ranks_before(d, s[0] as int, s[j - 1] as int));
                    }
                } else {
                    assert(r[i] == s[i - 1] && r[j] == s[j - 1]);
                }
            }
        }
    }
}

proof fn lemma_visit_all_ranked(s: Seq<usize>, xs: Seq<usize>, d: Seq<u32>)
    requires
        is_ranked(s, d),
    ensures
        is_ranked(visit_all(s, xs, d), d),
    decreases xs.len(),
{
    if xs.len() > 0 {
        lemma_visit_all_ranked(s, xs.drop_last(), d);
        let v = visit_all(s, xs.drop_last(), d);
        if !v.contains(xs.last()) {
            lemma_ranked_insert_ranked(v, xs.last(), d);
        }
    }
}

proof fn lemma_walk_ranked<T>(g: GraphModel<T>, l: int, d: Seq<u32>, start: usize, k: nat)
    ensures
        is_ranked(walk(g, l, d, seq![start], k), d),
    decreases k,
{
    if k > 0 {
        lemma_walk_ranked(g, l, d, start, (k - 1) as nat);
        let w = walk(g, l, d, seq![start], (k - 1) as nat);
        if w.len() > 0 {
            lemma_visit_all_ranked(w, g.nbrs(w[0] as int, l), d);
        }
    }
}

/// A query's answer is ranked: by ascending distance key, and among equal
/// keys by insertion order, so no node appears twice.
pub proof fn lemma_answer_ranked<T>(s: StoreModel<T>, d: Seq<u32>, k: int)
    ensures
        forall|i: int, j: int| 0 <= i < j < answer(s, d, k).len() ==> ranks_before(d, #[trigger] answer(s, d, k)[i] as int, #[trigger] answer(s, d, k)[j] as int),
        forall|i: int, j: int| 0 <= i < j < answer(s, d, k).len() ==> d[answer(s, d, k)[i] as int] <= d[answer(s, d, k)[j] as int],
        answer(s, d, k).no_duplicates(),
{
    let g = s.graph;
    let a = answer(s, d, k);
    if g.len() > 0 && k > 0 {
        let ep = descend(g, d, g.entry as usize, g.top(), 1);
        lemma_walk_ranked(g, 0, d, ep, g.len());
        let w = greedy(g, 0, d, ep);
        assert forall|i: int, j: int| 0 <= i < j < a.len() implies ranks_before(d, #[trigger] a[i] as int, #[trigger] a[j] as int) by {
            assert(a[i] == w[i] && a[j] == w[j]);
        }
    }
    assert forall|i: int, j: int| 0 <= i < j < a.len() implies d[a[i] as int] <= d[a[j] as int] by {
        assert(ranks_before(d, a[i] as int, a[j] as int));
    }
    assert forall|i: int, j: int| 0 <= i < a.len() && 0 <= j < a.len() && i != j implies a[i] != a[j] by {
        if i < j {
            assert(ranks_before(d, a[i] as int, a[j] as int));
        } else {
            assert(ranks_before(d, a[j] as int, a[i] as int));
        }
    }
}

/// An empty store answers every query with no node.
pub proof fn lemma_empty_store_answer<T>(s: StoreModel<T>, d: Seq<u32>, k: int)
    requires
        s.len() == 0,
    ensures
        answer(s, d, k) == Seq::<usize>::empty(),
{
}

} // verus!
