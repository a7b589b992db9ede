//! The layered small-world graph: construction, removal, and invariants.
//!
//! Layers are ordered from the top (sparsest) to the bottom (densest, every
//! node). Distances come from the caller, which owns the vectors; the index
//! only records and orders what it is given.
use vstd::prelude::*;

use crate::embedding::Embedding;
use crate::filter::{passes_all, passes_filters, Filter};
use crate::graph::{
    dist_key, distance_key, distinct_neighbors, has_neighbor, sorted_by_distance, Edge, Graph,
};

verus! {

broadcast use vstd::std_specs::hash::group_hash_axioms;

pub open spec fn log2(n: nat) -> nat
    decreases n,
{
    if n <= 1 {
        0
    } else {
        1 + log2(n / 2)
    }
}

proof fn lemma_log2_le(n: nat)
    ensures
        log2(n) <= n,
        n >= 2 ==> log2(n) >= 1,
    decreases n,
{
    if n > 1 {
        lemma_log2_le(n / 2);
    }
}

/// `⌊log2 n⌋`, with `0` for `n <= 1`.
pub fn log2_floor(n: usize) -> (r: usize)
    ensures
        r == log2(n as nat),
{
    let mut v = n;
    let mut r: usize = 0;
    proof {
        lemma_log2_le(n as nat);
    }
    while v > 1
        invariant
            r + log2(v as nat) == log2(n as nat),
            log2(n as nat) <= n,
        decreases v,
    {
        proof {
            lemma_log2_le(v as nat);
        }
        v = v / 2;
        r = r + 1;
    }
    r
}

/// The distance `d` on the edge `x -> e.0` is one that `distance` returned
/// for the pair, in either order.
pub open spec fn measured<F: Fn(u64, u64) -> Option<u32>>(distance: F, x: u64, e: Edge) -> bool {
    call_ensures(distance, (x, e.0), Some(e.1)) || call_ensures(distance, (e.0, x), Some(e.1))
}

pub open spec fn all_measured<F: Fn(u64, u64) -> Option<u32>>(g: Graph, distance: F) -> bool {
    forall|x: u64, e: Edge|
        g.has_node(x) && #[trigger] g.edges(x).contains(e) ==> measured(distance, x, e)
}

/// Node `x` enters the index at layer `levels[x]` and every layer below it.
pub open spec fn joins(levels: Seq<Option<usize>>, x: int, k: int) -> bool {
    levels[x] matches Some(j) && j <= k
}

/// The HNSW index: `size` nodes and the layers, top first.
#[derive(Debug)]
pub struct HNSW {
    pub size: u32,
    pub layers: Vec<Graph>,
}

impl HNSW {
    /// Every layer is well formed, and a node of a layer is a node of every
    /// layer below it.
    pub open spec fn wf(&self) -> bool {
        &&& forall|k: int| 0 <= k < self.layers@.len() ==> (#[trigger] self.layers@[k]).wf()
        &&& forall|j: int, k: int, x: u64|
            0 <= j <= k < self.layers@.len() && #[trigger] self.layers@[j].has_node(x)
                ==> #[trigger] self.layers@[k].has_node(x)
    }
}

/// Adds `x` to `g` and links it to up to `m` earlier nodes of `g`; `false`
/// when a distance could not be had.
/// The number of earlier nodes a node is linked to: `m`, or all of them
/// when fewer.
pub open spec fn link_count(m: usize, len: int) -> int {
    if (m as int) < len {
        m as int
    } else {
        len
    }
}

/// Node `x` has an edge to `y` whose distance `distance` returned for `(x, y)`.
pub open spec fn linked_to<F: Fn(u64, u64) -> Option<u32>>(g: Graph, x: u64, y: u64, distance: F) -> bool {
    exists|d: u32| #[trigger] g.edges(x).contains((y, d)) && call_ensures(distance, (x, y), Some(d))
}

/// Every node of `g` is linked to each of the first `m` nodes placed before
/// it in the layer's order.
pub open spec fn links_earlier<F: Fn(u64, u64) -> Option<u32>>(g: Graph, m: usize, distance: F) -> bool {
    forall|p: int, j: int|
        0 <= j < link_count(m, p) && p < g.order@.len() ==> linked_to(g, #[trigger] g.order@[p], #[trigger] g.order@[j], distance)
}

proof fn lemma_linked_kept<F: Fn(u64, u64) -> Option<u32>>(g0: Graph, g: Graph, x: u64, y: u64, distance: F)
    requires
        linked_to(g0, x, y, distance),
        g0.has_node(x),
        forall|z: u64, e: Edge| g0.has_node(z) && #[trigger] g0.edges(z).contains(e) ==> g.edges(z).contains(e),
    ensures
        linked_to(g, x, y, distance),
{
    let d = choose|d: u32| #[trigger] g0.edges(x).contains((y, d)) && call_ensures(distance, (x, y), Some(d));
    assert(g.edges(x).contains((y, d)));
}

/// Adds `x` to `g` and links it to up to `m` earlier nodes of `g` (the first
/// ones of its order); `false` when a distance could not be had.
fn insert_linked<F: Fn(u64, u64) -> Option<u32>>(g: &mut Graph, x: u64, m: usize, distance: &F) -> (ok: bool)
    requires
        old(g).wf(),
        forall|a: u64, b: u64| distance.requires((a, b)),
    ensures
        final(g).wf(),
        final(g).adj@.dom() == old(g).adj@.dom().insert(x),
        forall|y: u64, e: Edge|
            final(g).has_node(y) && #[trigger] final(g).edges(y).contains(e) ==> (old(g).has_node(y)
                && old(g).edges(y).contains(e)) || measured(*distance, y, e),
        forall|y: u64, e: Edge|
            old(g).has_node(y) && #[trigger] old(g).edges(y).contains(e) ==> final(g).edges(y).contains(e),
        !old(g).has_node(x) ==> final(g).order@ == old(g).order@.push(x),
        old(g).has_node(x) ==> final(g).order@ == old(g).order@,
        ok && !old(g).has_node(x) ==> forall|j: int|
            0 <= j < link_count(m, old(g).order@.len() as int) ==> linked_to(*final(g), x, #[trigger] old(g).order@[j], *distance),
        !ok ==> exists|a: u64, b: u64| #[trigger] call_ensures(*distance, (a, b), None::<u32>),
{
    let ghost g0 = *g;
    let fresh = !g.contains(x);
    let cands = g.first_keys(m, x);
    proof {
        if fresh {
            if g0.order@.contains(x) {
                assert(g0.adj@.contains_key(x));
            }
        }
    }
    g.add_node(x);
    assert(g.adj@.dom() =~= g0.adj@.dom().insert(x));
    let mut i: usize = 0;
    while i < cands.len()
        invariant
            g.wf(),
            g0 == *old(g),
            fresh == !g0.has_node(x),
            forall|a: u64, b: u64| distance.requires((a, b)),
            g.adj@.dom() == g0.adj@.dom().insert(x),
            fresh ==> g.order@ == g0.order@.push(x),
            !fresh ==> g.order@ == g0.order@,
            cands@.no_duplicates(),
            fresh ==> cands@ == g0.order@.take(link_count(m, g0.order@.len() as int)),
            i <= cands@.len(),
            forall|t: int| 0 <= t < cands@.len() ==> #[trigger] cands@[t] != x && g0.adj@.dom().insert(x).contains(cands@[t]),
            forall|y: u64, e: Edge|
                g.has_node(y) && #[trigger] g.edges(y).contains(e) ==> (g0.has_node(y)
                    && g0.edges(y).contains(e)) || measured(*distance, y, e),
            forall|y: u64, e: Edge| g0.has_node(y) && #[trigger] g0.edges(y).contains(e) ==> g.edges(y).contains(e),
            fresh ==> forall|j: int| 0 <= j < i ==> linked_to(*g, x, #[trigger] cands@[j], *distance),
            fresh ==> forall|e: Edge| #[trigger] g.edges(x).contains(e) ==> exists|j: int| 0 <= j < i && cands@[j] == e.0,
        decreases cands.len() - i,
    {
        let c = cands[i];
        let d = match distance(x, c) {
            Some(d) => d,
            None => {
                proof {
                    assert(call_ensures(*distance, (x, c), None::<u32>));
                }
                return false;
            },
        };
        let ghost before = *g;
        proof {
            if fresh {
                assert(!has_neighbor(before.edges(x), c)) by {
                    if has_neighbor(before.edges(x), c) {
                        let q = choose|q: int| 0 <= q < before.edges(x).len() && #[trigger] before.edges(x)[q].0 == c;
                        assert(before.edges(x).contains(before.edges(x)[q]));
                        let j = choose|j: int| 0 <= j < i && cands@[j] == before.edges(x)[q].0;
                        assert(cands@[j] != cands@[i as int]);
                    }
                }
            }
        }
        g.link(x, c, d);
        proof {
            assert forall|y: u64, e: Edge|
                g.has_node(y) && #[trigger] g.edges(y).contains(e) implies (g0.has_node(y)
                    && g0.edges(y).contains(e)) || measured(*distance, y, e) by {
                if before.edges(y).contains(e) {
                } else if y == x && e == (c, d) {
                } else {
                    assert(y == c && e == (x, d));
                }
            }
            assert forall|y: u64, e: Edge| g0.has_node(y) && #[trigger] g0.edges(y).contains(e) implies g.edges(y).contains(e) by {
                assert(before.edges(y).contains(e));
            }
            if fresh {
                assert(g.edges(x).contains((c, d)));
                assert(linked_to(*g, x, c, *distance));
                assert forall|j: int| 0 <= j < i + 1 implies linked_to(*g, x, #[trigger] cands@[j], *distance) by {
                    if j < i {
                        assert(before.has_node(x));
                        assert forall|z: u64, e: Edge| before.has_node(z) && #[trigger] before.edges(z).contains(e) implies g.edges(z).contains(e) by {}
                        lemma_linked_kept(before, *g, x, cands@[j], *distance);
                    }
                }
                assert forall|e: Edge| #[trigger] g.edges(x).contains(e) implies exists|j: int| 0 <= j < i + 1 && cands@[j] == e.0 by {
                    if before.edges(x).contains(e) {
                        let j = choose|j: int| 0 <= j < i && cands@[j] == e.0;
                    } else {
                        assert(e == (c, d));
                        assert(cands@[i as int] == e.0);
                    }
                }
            }
        }
        i += 1;
    }
    proof {
        if fresh {
            assert forall|j: int| 0 <= j < link_count(m, g0.order@.len() as int) implies linked_to(*g, x, #[trigger] g0.order@[j], *distance) by {
                assert(cands@[j] == g0.order@[j]);
            }
        }
    }
    true
}

/// The layers that `build` produces from `levels`: layer `k` holds the nodes
/// that entered at or above it, and the bottom layer holds every node.
pub open spec fn layer_members(levels: Seq<Option<usize>>, l: int, k: int, x: u64) -> bool {
    x < levels.len() && (joins(levels, x as int, k) || k == l - 1)
}

pub open spec fn built_from<F: Fn(u64, u64) -> Option<u32>>(
    h: HNSW,
    levels: Seq<Option<usize>>,
    distance: F,
) -> bool {
    &&& h.wf()
    &&& h.size == levels.len()
    &&& h.layers@.len() == log2(levels.len())
    &&& forall|k: int, x: u64|
        0 <= k < h.layers@.len() ==> (#[trigger] h.layers@[k].has_node(x) <==> layer_members(
            levels,
            h.layers@.len() as int,
            k,
            x,
        ))
    &&& forall|k: int| 0 <= k < h.layers@.len() ==> all_measured(#[trigger] h.layers@[k], distance)
    &&& forall|k: int| 0 <= k < h.layers@.len() ==> links_earlier(#[trigger] h.layers@[k], log2(levels.len()) as usize, distance)
}

/// Takes layer `k` out of `layers`, runs `insert_linked` on it, and puts it back.
fn insert_into_layer<F: Fn(u64, u64) -> Option<u32>>(
    layers: &mut Vec<Graph>,
    k: usize,
    x: u64,
    m: usize,
    distance: &F,
) -> (ok: bool)
    requires
        k < old(layers)@.len(),
        old(layers)@[k as int].wf(),
        all_measured(old(layers)@[k as int], *distance),
        links_earlier(old(layers)@[k as int], m, *distance),
        !old(layers)@[k as int].has_node(x),
        forall|a: u64, b: u64| distance.requires((a, b)),
    ensures
        ok ==> links_earlier(final(layers)@[k as int], m, *distance),
        final(layers)@.len() == old(layers)@.len(),
        forall|t: int| 0 <= t < old(layers)@.len() && t != k ==> #[trigger] final(layers)@[t] == old(layers)@[t],
        final(layers)@[k as int].wf(),
        all_measured(final(layers)@[k as int], *distance),
        final(layers)@[k as int].adj@.dom() == old(layers)@[k as int].adj@.dom().insert(x),
        !ok ==> exists|a: u64, b: u64| #[trigger] call_ensures(*distance, (a, b), None::<u32>),
{
    let mut g = layers.remove(k);
    let ghost g0 = g;
    let ok = insert_linked(&mut g, x, m, distance);
    proof {
        if ok {
            assert forall|p: int, j: int|
                0 <= j < link_count(m, p) && p < g.order@.len() implies linked_to(g, #[trigger] g.order@[p], #[trigger] g.order@[j], *distance) by {
                if p < g0.order@.len() {
                    assert(g.order@[p] == g0.order@[p] && g.order@[j] == g0.order@[j]);
                    assert(linked_to(g0, g0.order@[p], g0.order@[j], *distance));
                    assert(g0.order@.contains(g0.order@[p]));
                    lemma_linked_kept(g0, g, g0.order@[p], g0.order@[j], *distance);
                } else {
                    assert(g.order@[p] == x);
                    assert(g.order@[j] == g0.order@[j]);
                }
            }
        }
    }
    layers.insert(k, g);
    proof {
        let h = layers@[k as int];
        assert forall|y: u64, e: Edge| h.has_node(y) && #[trigger] h.edges(y).contains(e) implies measured(*distance, y, e) by {
        }
    }
    ok
}

impl HNSW {
    /// Builds the index over nodes `0..levels.len()`. Node `x` joins layer
    /// `levels[x]` and every layer below it (a level beyond the last layer,
    /// or none, makes it an orphan); on each layer it is linked to the first
    /// `⌊log2 n⌋` earlier nodes of that layer. Orphans are then linked into
    /// the bottom layer in id order. `None` when a distance could not be had.
    pub fn build<F: Fn(u64, u64) -> Option<u32>>(levels: &Vec<Option<usize>>, distance: &F) -> (r: Option<HNSW>)
        requires
            2 <= levels@.len() <= u32::MAX,
            forall|a: u64, b: u64| distance.requires((a, b)),
        ensures
            r matches Some(h) ==> built_from(h, levels@, *distance),
            r is None ==> exists|a: u64, b: u64| #[trigger] call_ensures(*distance, (a, b), None::<u32>),
    {
        let n = levels.len();
        let l = log2_floor(n);
        proof {
            lemma_log2_le(n as nat);
        }
        let m = l;
        let mut layers: Vec<Graph> = Vec::new();
        let mut k: usize = 0;
        while k < l
            invariant
                k <= l,
                layers@.len() == k,
                forall|t: int| 0 <= t < k ==> (#[trigger] layers@[t]).wf() && layers@[t].adj@.dom() == Set::<u64>::empty()
                    && layers@[t].order@.len() == 0,
            decreases l - k,
        {
            let g = Graph::new();
            assert(g.adj@.dom() =~= Set::<u64>::empty());
            layers.push(g);
            k += 1;
        }
        let mut i: usize = 0;
        while i < n
            invariant
                n == levels@.len(),
                2 <= n <= u32::MAX,
                l == log2(n as nat),
                1 <= l <= n,
                layers@.len() == l,
                i <= n,
                forall|a: u64, b: u64| distance.requires((a, b)),
                forall|t: int| 0 <= t < l ==> (#[trigger] layers@[t]).wf(),
                forall|t: int| 0 <= t < l ==> all_measured(#[trigger] layers@[t], *distance),
                forall|t: int| 0 <= t < l ==> links_earlier(#[trigger] layers@[t], m, *distance),
                m == l,
                forall|t: int, x: u64|
                    0 <= t < l ==> (#[trigger] layers@[t].has_node(x) <==> (x < i && joins(
                        levels@,
                        x as int,
                        t,
                    ))),
            decreases n - i,
        {
            if let Some(j) = levels[i] {
                let mut k = j;
                while k < l
                    invariant
                        n == levels@.len(),
                        i < n,
                        levels@[i as int] == Some(j),
                        layers@.len() == l,
                        j <= k,
                        forall|a: u64, b: u64| distance.requires((a, b)),
                        forall|t: int| 0 <= t < l ==> (#[trigger] layers@[t]).wf(),
                        forall|t: int| 0 <= t < l ==> all_measured(#[trigger] layers@[t], *distance),
                        forall|t: int| 0 <= t < l ==> links_earlier(#[trigger] layers@[t], m, *distance),
                        m == l,
                        forall|t: int, x: u64|
                            0 <= t < l ==> (#[trigger] layers@[t].has_node(x) <==> ((x < i && joins(
                                levels@,
                                x as int,
                                t,
                            )) || (x == i && j <= t < k))),
                    decreases l - k,
                {
                    let ghost before = layers@;
                    if !insert_into_layer(&mut layers, k, i as u64, m, distance) {
                        return None;
                    }
                    proof {
                        assert forall|t: int, x: u64|
                            0 <= t < l implies (#[trigger] layers@[t].has_node(x) <==> ((x < i && joins(
                                levels@,
                                x as int,
                                t,
                            )) || (x == i && j <= t < k + 1))) by {
                            if t != k {
                                assert(layers@[t] == before[t]);
                            } else {
                                assert(layers@[t].adj@.dom().contains(x) <==> (before[t].adj@.dom().contains(x) || x == i as u64));
                                assert(layers@[t].has_node(x) <==> (before[t].has_node(x) || x == i as u64));
                            }
                        }
                    }
                    k += 1;
                }
            }
            i += 1;
        }
        let mut i: usize = 0;
        while i < n
            invariant
                n == levels@.len(),
                2 <= n <= u32::MAX,
                l == log2(n as nat),
                1 <= l <= n,
                layers@.len() == l,
                i <= n,
                forall|a: u64, b: u64| distance.requires((a, b)),
                forall|t: int| 0 <= t < l ==> (#[trigger] layers@[t]).wf(),
                forall|t: int| 0 <= t < l ==> all_measured(#[trigger] layers@[t], *distance),
                forall|t: int| 0 <= t < l ==> links_earlier(#[trigger] layers@[t], m, *distance),
                m == l,
                forall|t: int, x: u64|
                    0 <= t < l - 1 ==> (#[trigger] layers@[t].has_node(x) <==> (x < n && joins(
                        levels@,
                        x as int,
                        t,
                    ))),
                forall|x: u64|
                    #[trigger] layers@[l - 1].has_node(x) <==> (x < n && (joins(levels@, x as int, l - 1) || x < i)),
            decreases n - i,
        {
            let orphan = match levels[i] {
                Some(j) => j >= l,
                None => true,
            };
            proof {
                if !orphan {
                    assert(joins(levels@, i as int, l - 1));
                }
            }
            if orphan {
                let ghost before = layers@;
                if !insert_into_layer(&mut layers, l - 1, i as u64, m, distance) {
                    return None;
                }
                proof {
                    assert forall|x: u64| #[trigger] layers@[l - 1].has_node(x) <==> (x < n && (joins(levels@, x as int, l - 1) || x < i + 1)) by {
                        assert(layers@[l - 1].adj@.dom().contains(x) <==> (before[l - 1].adj@.dom().contains(x) || x == i as u64));
                        assert(layers@[l - 1].has_node(x) <==> (before[l - 1].has_node(x) || x == i as u64));
                    }
                    assert forall|t: int, x: u64|
                        0 <= t < l - 1 implies (#[trigger] layers@[t].has_node(x) <==> (x < n && joins(
                            levels@,
                            x as int,
                            t,
                        ))) by {
                        assert(layers@[t] == before[t]);
                    }
                }
            }
            i += 1;
        }
        let h = HNSW { size: n as u32, layers };
        proof {
            assert forall|t: int, x: u64|
                0 <= t < h.layers@.len() implies (#[trigger] h.layers@[t].has_node(x) <==> layer_members(
                    levels@,
                    h.layers@.len() as int,
                    t,
                    x,
                )) by {
                if t == l - 1 {
                    assert(h.layers@[t].has_node(x) <==> (x < n && (joins(levels@, x as int, l - 1) || x < i)));
                }
            }
            assert forall|a: int, b: int, x: u64|
                0 <= a <= b < h.layers@.len() && #[trigger] h.layers@[a].has_node(x)
                    implies #[trigger] h.layers@[b].has_node(x) by {
                assert(layer_members(levels@, l as int, a, x));
                assert(layer_members(levels@, l as int, b, x));
            }
        }
        Some(h)
    }
}

impl HNSW {
    /// Deletes `x` from every layer: from the node set and from every
    /// adjacency list. Other edges are kept, so the graph may fall apart
    /// until the next full build.
    pub fn remove_node(&mut self, x: u64)
        requires
            old(self).wf(),
        ensures
            final(self).wf(),
            final(self).size == old(self).size,
            final(self).layers@.len() == old(self).layers@.len(),
            forall|k: int|
                0 <= k < final(self).layers@.len() ==> (#[trigger] final(self).layers@[k]).adj@.dom()
                    == old(self).layers@[k].adj@.dom().remove(x),
            forall|k: int, y: u64, e: Edge|
                0 <= k < final(self).layers@.len() && final(self).layers@[k].has_node(y)
                    ==> (#[trigger] final(self).layers@[k].edges(y).contains(e) <==> old(
                    self,
                ).layers@[k].edges(y).contains(e) && e.0 != x),
    {
        let ghost l0 = self.layers@;
        let mut k: usize = 0;
        while k < self.layers.len()
            invariant
                l0 == old(self).layers@,
                self.size == old(self).size,
                self.layers@.len() == l0.len(),
                k <= l0.len(),
                forall|t: int| 0 <= t < l0.len() ==> (#[trigger] l0[t]).wf(),
                forall|t: int| 0 <= t < l0.len() ==> (#[trigger] self.layers@[t]).wf(),
                forall|t: int| k <= t < l0.len() ==> #[trigger] self.layers@[t] == l0[t],
                forall|t: int|
                    0 <= t < k ==> (#[trigger] self.layers@[t]).adj@.dom() == l0[t].adj@.dom().remove(x),
                forall|t: int, y: u64, e: Edge|
                    0 <= t < k && self.layers@[t].has_node(y) ==> (
                    #[trigger] self.layers@[t].edges(y).contains(e) <==> l0[t].edges(y).contains(e)
                        && e.0 != x),
            decreases l0.len() - k,
        {
            let ghost before = self.layers@;
            let mut g = self.layers.remove(k);
            g.remove_node(x);
            self.layers.insert(k, g);
            proof {
                assert forall|t: int| 0 <= t < l0.len() && t != k implies #[trigger] self.layers@[t] == before[t] by {}
                assert(self.layers@[k as int].adj@.dom() =~= l0[k as int].adj@.dom().remove(x));
            }
            k += 1;
        }
        proof {
            assert forall|a: int, b: int, y: u64|
                0 <= a <= b < self.layers@.len() && #[trigger] self.layers@[a].has_node(y)
                    implies #[trigger] self.layers@[b].has_node(y) by {
                assert(self.layers@[a].adj@.dom() == l0[a].adj@.dom().remove(x));
                assert(self.layers@[b].adj@.dom() == l0[b].adj@.dom().remove(x));
                assert(l0[a].adj@.dom().contains(y) && y != x);
                assert(old(self).layers@[a].has_node(y));
                assert(old(self).layers@[b].has_node(y));
            }
        }
    }
}

/// Why a query could not run.
#[derive(Debug, Clone, Copy, PartialEq, Eq, Structural)]
pub enum QueryError {
    /// `ef` is smaller than `k`.
    InvalidInput,
    /// The record of this node could not be had.
    NotFound(u64),
}

pub open spec fn ranked(s: Seq<(Embedding, u32)>) -> bool {
    forall|i: int, j: int| 0 <= i < j < s.len() ==> dist_key(s[i].1) <= dist_key(s[j].1)
}

/// An `Ok` answer of `query`: at most `k` entries, closest first, of
/// distinct bottom-layer nodes, each the record `probe` returned for its node
/// (whose id it carries) with the distance it returned, passing every filter.
pub open spec fn query_answer<P: Fn(u64) -> Option<(Embedding, u32)>>(
    h: HNSW,
    probe: P,
    filters: Seq<Filter>,
    k: usize,
    v: Seq<(Embedding, u32)>,
) -> bool {
    &&& v.len() <= k
    &&& ranked(v)
    &&& forall|a: int, b: int| 0 <= a < b < v.len() ==> v[a].0.id != v[b].0.id
    &&& forall|t: int| 0 <= t < v.len() ==> probed(probe, filters, (#[trigger] v[t]).0.id, v[t])
    &&& forall|t: int| 0 <= t < v.len() ==> in_bottom(h, (#[trigger] v[t]).0.id)
}

/// An entry `(e, d)` of node `n` is what `probe` returned for `n`, and its
/// tags pass every filter.
pub open spec fn probed<P: Fn(u64) -> Option<(Embedding, u32)>>(
    probe: P,
    filters: Seq<Filter>,
    n: u64,
    entry: (Embedding, u32),
) -> bool {
    call_ensures(probe, (n,), Some(entry)) && entry.0.id == n && passes_all(filters, entry.0.source_file.meta@)
}

/// `x` is a node of the bottom layer of `h`.
pub open spec fn in_bottom(h: HNSW, x: u64) -> bool {
    h.layers@.len() > 0 && h.layers@.last().has_node(x)
}

proof fn lemma_insert_all<A>(s: Seq<A>, p: int, x: A, f: spec_fn(A) -> bool)
    requires
        0 <= p <= s.len(),
        forall|t: int| 0 <= t < s.len() ==> f(#[trigger] s[t]),
        f(x),
    ensures
        forall|t: int| 0 <= t < s.insert(p, x).len() ==> f(#[trigger] s.insert(p, x)[t]),
{
    assert forall|t: int| 0 <= t < s.insert(p, x).len() implies f(#[trigger] s.insert(p, x)[t]) by {
        if t < p {
            assert(s.insert(p, x)[t] == s[t]);
        } else if t > p {
            assert(s.insert(p, x)[t] == s[t - 1]);
        }
    }
}

fn contains_id(v: &Vec<u64>, x: u64) -> (r: bool)
    ensures
        r == v@.contains(x),
{
    let mut i: usize = 0;
    while i < v.len()
        invariant
            i <= v@.len(),
            forall|j: int| 0 <= j < i ==> v@[j] != x,
        decreases v@.len() - i,
    {
        if v[i] == x {
            return true;
        }
        i += 1;
    }
    false
}

/// Inserts `(e, d)` for node `n` after every entry whose distance sorts at
/// or before `d`, in `v` and at the same place in `ids`.
fn insert_ranked(v: &mut Vec<(Embedding, u32)>, ids: &mut Vec<u64>, n: u64, e: Embedding, d: u32) -> (p: usize)
    requires
        ranked(old(v)@),
        old(v)@.len() == old(ids)@.len(),
    ensures
        p <= old(v)@.len(),
        final(v)@ == old(v)@.insert(p as int, (e, d)),
        final(ids)@ == old(ids)@.insert(p as int, n),
        ranked(final(v)@),
{
    let key = distance_key(d);
    let mut p: usize = 0;
    while p < v.len() && distance_key(v[p].1) <= key
        invariant
            p <= v@.len(),
            v@ == old(v)@,
            key == dist_key(d),
            forall|i: int| 0 <= i < p ==> dist_key(#[trigger] v@[i].1) <= key,
        decreases v@.len() - p,
    {
        p += 1;
    }
    let ghost s = v@;
    v.insert(p, (e, d));
    ids.insert(p, n);
    proof {
        assert forall|i: int, j: int| 0 <= i < j < v@.len() implies dist_key(v@[i].1) <= dist_key(
            v@[j].1,
        ) by {
            if i < p && j == p {
            } else if i == p && j > p {
                assert(v@[j] == s[j - 1]);
                if j - 1 > p {
                    assert(dist_key(s[p as int].1) <= dist_key(s[j - 1].1));
                }
            } else {
                let i0 = if i < p { i } else { i - 1 };
                let j0 = if j < p { j } else { j - 1 };
                assert(v@[i] == s[i0] && v@[j] == s[j0]);
            }
        }
    }
    p
}

/// The result list so far: ranked, at most `k` entries of distinct visited
/// nodes, each probed and passing the filters.
pub open spec fn results_ok<P: Fn(u64) -> Option<(Embedding, u32)>>(
    top: Seq<(Embedding, u32)>,
    ids: Seq<u64>,
    visited: Seq<u64>,
    k: nat,
    probe: P,
    filters: Seq<Filter>,
) -> bool {
    &&& top.len() == ids.len()
    &&& top.len() <= k
    &&& ranked(top)
    &&& ids.no_duplicates()
    &&& forall|t: int| 0 <= t < ids.len() ==> visited.contains(#[trigger] ids[t])
    &&& forall|t: int| 0 <= t < ids.len() ==> probed(probe, filters, #[trigger] ids[t], top[t])
}

proof fn lemma_results_insert<P: Fn(u64) -> Option<(Embedding, u32)>>(
    top: Seq<(Embedding, u32)>,
    ids: Seq<u64>,
    visited: Seq<u64>,
    k: nat,
    probe: P,
    filters: Seq<Filter>,
    p: int,
    n: u64,
    entry: (Embedding, u32),
)
    requires
        results_ok(top, ids, visited, k + 1, probe, filters),
        0 <= p <= top.len(),
        !visited.contains(n),
        probed(probe, filters, n, entry),
        ranked(top.insert(p, entry)),
        top.len() + 1 <= k + 1,
    ensures
        results_ok(top.insert(p, entry), ids.insert(p, n), visited.push(n), k + 1, probe, filters),
{
    let t2 = top.insert(p, entry);
    let i2 = ids.insert(p, n);
    let v2 = visited.push(n);
    assert forall|t: int| 0 <= t < i2.len() implies v2.contains(#[trigger] i2[t]) && probed(probe, filters, i2[t], t2[t]) by {
        if t < p {
            assert(i2[t] == ids[t] && t2[t] == top[t]);
            assert(visited.contains(ids[t]));
            let w = choose|w: int| 0 <= w < visited.len() && visited[w] == ids[t];
            assert(v2[w] == ids[t]);
        } else if t > p {
            assert(i2[t] == ids[t - 1] && t2[t] == top[t - 1]);
            assert(visited.contains(ids[t - 1]));
            let w = choose|w: int| 0 <= w < visited.len() && visited[w] == ids[t - 1];
            assert(v2[w] == ids[t - 1]);
        } else {
            assert(v2[visited.len() as int] == n);
        }
    }
    assert forall|a: int, b: int| 0 <= a < b < i2.len() implies i2[a] != i2[b] by {
        if a == p {
            assert(visited.contains(i2[b]));
        } else if b == p {
            assert(visited.contains(i2[a]));
        } else {
            let a0 = if a < p { a } else { a - 1 };
            let b0 = if b < p { b } else { b - 1 };
            assert(i2[a] == ids[a0] && i2[b] == ids[b0]);
        }
    }
}

proof fn lemma_results_drop_last<P: Fn(u64) -> Option<(Embedding, u32)>>(
    top: Seq<(Embedding, u32)>,
    ids: Seq<u64>,
    visited: Seq<u64>,
    k: nat,
    probe: P,
    filters: Seq<Filter>,
)
    requires
        results_ok(top, ids, visited, k + 1, probe, filters),
        top.len() > 0,
    ensures
        results_ok(top.drop_last(), ids.drop_last(), visited, k + 1, probe, filters),
{
    let t2 = top.drop_last();
    let i2 = ids.drop_last();
    assert forall|t: int| 0 <= t < i2.len() implies visited.contains(#[trigger] i2[t]) && probed(probe, filters, i2[t], t2[t]) by {
        assert(i2[t] == ids[t] && t2[t] == top[t]);
    }
    assert forall|a: int, b: int| 0 <= a < b < i2.len() implies i2[a] != i2[b] by {
        assert(i2[a] == ids[a] && i2[b] == ids[b]);
    }
}

impl HNSW {
    /// Filtered top-`k` search. Starting from the first node of the top
    /// layer, each layer is walked depth first; every neighbor that is not
    /// blacklisted is probed, and kept when it is unvisited and passes the
    /// filters (blacklisted otherwise). Kept nodes enter the ranked results,
    /// which are cut to the `k` closest; the walk stops once `ef` nodes were
    /// kept. The next layer starts from the closest result.
    ///
    /// `probe(n)` gives the record of node `n` and its distance to the query.
    pub fn query<P: Fn(u64) -> Option<(Embedding, u32)>>(
        &self,
        filters: &Vec<Filter>,
        k: usize,
        ef: usize,
        probe: &P,
    ) -> (r: Result<Vec<(Embedding, u32)>, QueryError>)
        requires
            self.wf(),
            forall|n: u64| probe.requires((n,)),
        ensures
            (r matches Err(QueryError::InvalidInput)) <==> ef < k,
            r matches Ok(v) ==> query_answer(*self, *probe, filters@, k, v@),
            (k <= ef && (self.layers@.len() == 0 || self.layers@[0].order@.len() == 0)) ==> (r matches Ok(v)
                && v@.len() == 0),
            r matches Err(QueryError::NotFound(n)) ==> call_ensures(*probe, (n,), None) || exists|e: (Embedding, u32)|
                call_ensures(*probe, (n,), Some(e)) && #[trigger] e.0.id != n,
    {
        if ef < k {
            return Err(QueryError::InvalidInput);
        }
        let mut top: Vec<(Embedding, u32)> = Vec::new();
        let mut top_ids: Vec<u64> = Vec::new();
        if self.layers.len() == 0 || self.layers[0].order.len() == 0 {
            proof {
                lemma_answer(*self, top@, top_ids@, Seq::<u64>::empty(), k, *probe, filters@);
            }
            return Ok(top);
        }
        let mut visited: Vec<u64> = Vec::new();
        let mut blacklist: Vec<u64> = Vec::new();
        let mut count: usize = 0;
        let mut current = self.layers[0].order[0];
        let mut li: usize = 0;
        while li < self.layers.len()
            invariant
                k <= ef,
                count <= ef,
                self.wf(),
                self.layers@.len() > 0 && self.layers@[0].order@.len() > 0,
                forall|n: u64| probe.requires((n,)),
                results_ok(top@, top_ids@, visited@, k as nat, *probe, filters@),
                forall|t: int| 0 <= t < top_ids@.len() ==> in_bottom(*self, #[trigger] top_ids@[t]),
            decreases self.layers@.len() - li,
        {
            let layer = &self.layers[li];
            let mut stack: Vec<u64> = Vec::new();
            stack.push(current);
            while stack.len() > 0
                invariant
                    k <= ef,
                    count <= ef,
                    self.wf(),
                    self.layers@.len() > 0 && self.layers@[0].order@.len() > 0,
                    li < self.layers@.len(),
                    *layer == self.layers@[li as int],
                    forall|n: u64| probe.requires((n,)),
                    results_ok(top@, top_ids@, visited@, k as nat, *probe, filters@),
                    forall|t: int| 0 <= t < top_ids@.len() ==> in_bottom(*self, #[trigger] top_ids@[t]),
                decreases ef - count, stack@.len(),
            {
                let cur = stack.pop().unwrap();
                let ghost count0 = count;
                let ghost len0 = stack@.len();
                let nbrs = match layer.neighbors(cur) {
                    Some(v) => v,
                    None => continue,
                };
                let mut cands: Vec<(Embedding, u32)> = Vec::new();
                let mut cand_ids: Vec<u64> = Vec::new();
                let mut t: usize = 0;
                while t < nbrs.len()
                    invariant
                        k <= ef,
                        self.wf(),
                        self.layers@.len() > 0 && self.layers@[0].order@.len() > 0,
                        li < self.layers@.len(),
                        *layer == self.layers@[li as int],
                        layer.has_node(cur),
                        nbrs@ == layer.edges(cur),
                        forall|c: int| 0 <= c < cand_ids@.len() ==> in_bottom(*self, #[trigger] cand_ids@[c]),
                        forall|n: u64| probe.requires((n,)),
                        cands@.len() == cand_ids@.len(),
                        ranked(cands@),
                        forall|c: int| 0 <= c < cand_ids@.len() ==> probed(*probe, filters@, #[trigger] cand_ids@[c], cands@[c]),
                    decreases nbrs@.len() - t,
                {
                    let n = nbrs[t].0;
                    if !contains_id(&blacklist, n) {
                        let (e, d) = match probe(n) {
                            Some(x) => x,
                            None => return Err(QueryError::NotFound(n)),
                        };
                        if e.id != n {
                            return Err(QueryError::NotFound(n));
                        }
                        proof {
                            assert(crate::graph::mirrored(layer.adj@, cur, layer.adj@[cur]@[t as int]));
                            assert(self.layers@[li as int].has_node(n));
                            assert(in_bottom(*self, n));
                        }
                        let pass = passes_filters(filters, &e.source_file.meta);
                        if !contains_id(&visited, n) && pass {
                            let ghost before_c = cands@;
                            let ghost before_i = cand_ids@;
                            let ghost entry = (e, d);
                            let p = insert_ranked(&mut cands, &mut cand_ids, n, e, d);
                            proof {
                                assert forall|c: int| 0 <= c < cand_ids@.len() implies probed(*probe, filters@, #[trigger] cand_ids@[c], cands@[c]) by {
                                    if c < p {
                                        assert(cand_ids@[c] == before_i[c] && cands@[c] == before_c[c]);
                                    } else if c > p {
                                        assert(cand_ids@[c] == before_i[c - 1] && cands@[c] == before_c[c - 1]);
                                    } else {
                                        assert(cands@[c] == entry);
                                    }
                                }
                                let f = |x: u64| in_bottom(*self, x);
                                lemma_insert_all(before_i, p as int, n, f);
                                assert forall|c: int| 0 <= c < cand_ids@.len() implies in_bottom(*self, #[trigger] cand_ids@[c]) by {
                                    assert(f(before_i.insert(p as int, n)[c]));
                                }
                            }
                        } else {
                            blacklist.push(n);
                        }
                    }
                    t += 1;
                }
                while cands.len() > 0
                    invariant
                        k <= ef,
                        count <= ef,
                        forall|n: u64| probe.requires((n,)),
                        cands@.len() == cand_ids@.len(),
                        forall|c: int| 0 <= c < cand_ids@.len() ==> probed(*probe, filters@, #[trigger] cand_ids@[c], cands@[c]),
                        results_ok(top@, top_ids@, visited@, k as nat, *probe, filters@),
                        count > count0 || (count == count0 && stack@.len() == len0),
                        count0 <= count,
                        self.wf(),
                        self.layers@.len() > 0 && self.layers@[0].order@.len() > 0,
                        li < self.layers@.len(),
                        *layer == self.layers@[li as int],
                        forall|c: int| 0 <= c < cand_ids@.len() ==> in_bottom(*self, #[trigger] cand_ids@[c]),
                        forall|t: int| 0 <= t < top_ids@.len() ==> in_bottom(*self, #[trigger] top_ids@[t]),
                    decreases cands@.len(),
                {
                    let ghost ci0 = cand_ids@;
                    let (e, d) = cands.remove(0);
                    let n = cand_ids.remove(0);
                    proof {
                        assert(probed(*probe, filters@, n, (e, d)));
                        assert(in_bottom(*self, ci0[0]));
                        assert forall|c: int| 0 <= c < cand_ids@.len() implies in_bottom(*self, #[trigger] cand_ids@[c]) by {
                            assert(cand_ids@[c] == ci0[c + 1]);
                        }
                    }
                    if !contains_id(&visited, n) && !contains_id(&blacklist, n) && count < ef {
                        let ghost t0 = top@;
                        let ghost i0 = top_ids@;
                        let ghost v0 = visited@;
                        let ghost entry = (e, d);
                        let p = insert_ranked(&mut top, &mut top_ids, n, e, d);
                        proof {
                            lemma_results_insert(t0, i0, v0, k as nat, *probe, filters@, p as int, n, entry);
                            let f = |x: u64| in_bottom(*self, x);
                            lemma_insert_all(i0, p as int, n, f);
                            assert forall|c: int| 0 <= c < top_ids@.len() implies in_bottom(*self, #[trigger] top_ids@[c]) by {
                                assert(f(i0.insert(p as int, n)[c]));
                            }
                        }
                        stack.push(n);
                        visited.push(n);
                        count += 1;
                        if top.len() > k {
                            proof {
                                lemma_results_drop_last(top@, top_ids@, visited@, k as nat, *probe, filters@);
                            }
                            top.pop();
                            top_ids.pop();
                        }
                        if count >= ef {
                            proof {
                                lemma_answer(*self, top@, top_ids@, visited@, k, *probe, filters@);
                            }
                            return Ok(top);
                        }
                    }
                }
            }
            if top_ids.len() > 0 {
                current = top_ids[0];
            }
            li += 1;
        }
        proof {
            lemma_answer(*self, top@, top_ids@, visited@, k, *probe, filters@);
        }
        Ok(top)
    }
}

proof fn lemma_answer<P: Fn(u64) -> Option<(Embedding, u32)>>(
    h: HNSW,
    top: Seq<(Embedding, u32)>,
    ids: Seq<u64>,
    visited: Seq<u64>,
    k: usize,
    probe: P,
    filters: Seq<Filter>,
)
    requires
        results_ok(top, ids, visited, k as nat, probe, filters),
        forall|t: int| 0 <= t < ids.len() ==> in_bottom(h, #[trigger] ids[t]),
    ensures
        query_answer(h, probe, filters, k, top),
{
    assert forall|t: int| 0 <= t < top.len() implies probed(probe, filters, (#[trigger] top[t]).0.id, top[t])
        && in_bottom(h, top[t].0.id) by {
        assert(probed(probe, filters, ids[t], top[t]));
    }
    assert forall|a: int, b: int| 0 <= a < b < top.len() implies top[a].0.id != top[b].0.id by {
        assert(probed(probe, filters, ids[a], top[a]));
        assert(probed(probe, filters, ids[b], top[b]));
    }
}

impl HNSW {
    /// Checks the index invariant: `true` exactly for a well-formed index.
    /// The layers must list their nodes once each, as decoding guarantees.
    pub fn is_well_formed(&self) -> (r: bool)
        requires
            forall|k: int| 0 <= k < self.layers@.len() ==> (#[trigger] self.layers@[k]).keys_wf(),
        ensures
            r == self.wf(),
    {
        let n = self.layers.len();
        let mut k: usize = 0;
        while k < n
            invariant
                n == self.layers@.len(),
                k <= n,
                forall|t: int| 0 <= t < n ==> (#[trigger] self.layers@[t]).keys_wf(),
                forall|t: int| 0 <= t < k ==> (#[trigger] self.layers@[t]).wf(),
            decreases n - k,
        {
            if !self.layers[k].is_well_formed() {
                proof {
                    assert(!self.layers@[k as int].wf());
                }
                return false;
            }
            k += 1;
        }
        let mut j: usize = 0;
        while j < n
            invariant
                n == self.layers@.len(),
                j <= n,
                forall|t: int| 0 <= t < n ==> (#[trigger] self.layers@[t]).keys_wf(),
                forall|a: int, b: int, x: u64|
                    0 <= a < j && a <= b < n && #[trigger] self.layers@[a].has_node(x) ==> #[trigger] self.layers@[b].has_node(x),
            decreases n - j,
        {
            let mut b: usize = j;
            while b < n
                invariant
                    n == self.layers@.len(),
                    j < n,
                    j <= b <= n,
                    forall|t: int| 0 <= t < n ==> (#[trigger] self.layers@[t]).keys_wf(),
                    forall|a: int, c: int, x: u64|
                        0 <= a < j && a <= c < n && #[trigger] self.layers@[a].has_node(x) ==> #[trigger] self.layers@[c].has_node(x),
                    forall|c: int, x: u64|
                        j <= c < b && #[trigger] self.layers@[j as int].has_node(x) ==> #[trigger] self.layers@[c].has_node(x),
                decreases n - b,
            {
                let lj = &self.layers[j];
                let lb = &self.layers[b];
                let mut t: usize = 0;
                while t < lj.order.len()
                    invariant
                        j < n && b < n,
                        j <= b,
                        n == self.layers@.len(),
                        forall|q: int| 0 <= q < n ==> (#[trigger] self.layers@[q]).keys_wf(),
                        lj == self.layers@[j as int],
                        lb == self.layers@[b as int],
                        t <= lj.order@.len(),
                        forall|u: int| 0 <= u < t ==> lb.has_node(#[trigger] lj.order@[u]),
                    decreases lj.order@.len() - t,
                {
                    if !lb.contains(lj.order[t]) {
                        proof {
                            let x = lj.order@[t as int];
                            assert(self.layers@[j as int].keys_wf());
                            assert(lj.order@.contains(x));
                            assert(lj.has_node(x));
                            assert(self.layers@[j as int].has_node(x));
                            assert(!self.layers@[b as int].has_node(x));
                        }
                        return false;
                    }
                    t += 1;
                }
                proof {
                    assert forall|x: u64| #[trigger] lj.has_node(x) implies lb.has_node(x) by {
                        assert(lj.order@.contains(x));
                        let u = choose|u: int| 0 <= u < lj.order@.len() && lj.order@[u] == x;
                        assert(lb.has_node(lj.order@[u]));
                    }
                }
                b += 1;
            }
            j += 1;
        }
        true
    }
}

/// In a well-formed index a node of a layer is a node of every layer below
/// it, every edge has its reverse with the same distance in the same layer,
/// and every adjacency list is sorted by distance without repeated
/// neighbors. `build` establishes this and `remove_node` keeps it.
pub proof fn lemma_index_invariants(h: HNSW, j: int, k: int, x: u64)
    requires
        h.wf(),
        0 <= j <= k < h.layers@.len(),
    ensures
        h.layers@[j].has_node(x) ==> h.layers@[k].has_node(x),
        h.layers@[j].has_node(x) ==> sorted_by_distance(h.layers@[j].edges(x)) && distinct_neighbors(
            h.layers@[j].edges(x),
        ),
        forall|i: int|
            #![trigger h.layers@[j].edges(x)[i]]
            h.layers@[j].has_node(x) && 0 <= i < h.layers@[j].edges(x).len() ==> h.layers@[j].has_node(
                h.layers@[j].edges(x)[i].0,
            ) && h.layers@[j].edges(h.layers@[j].edges(x)[i].0).contains(
                (x, h.layers@[j].edges(x)[i].1),
            ),
{
    let g = h.layers@[j];
    assert(g.wf());
    if g.has_node(x) {
        assert(g.adj@.contains_key(x));
    }
    assert forall|i: int|
        #![trigger h.layers@[j].edges(x)[i]]
        h.layers@[j].has_node(x) && 0 <= i < h.layers@[j].edges(x).len() implies h.layers@[j].has_node(
            h.layers@[j].edges(x)[i].0,
        ) && h.layers@[j].edges(h.layers@[j].edges(x)[i].0).contains((x, h.layers@[j].edges(x)[i].1)) by {
        assert(crate::graph::mirrored(g.adj@, x, g.adj@[x]@[i]));
    }
}

} // verus!
