//! One layer of the HNSW index: node ids with sorted, symmetric adjacency.
//!
//! A distance is carried as the bit pattern of a single-precision float and
//! ordered by `dist_key`, the IEEE-754 total order (the order of
//! `f32::total_cmp`); on the non-negative distances the index stores this is
//! the numeric order.
use vstd::prelude::*;
use std::collections::HashMap;

verus! {

broadcast use vstd::std_specs::hash::group_hash_axioms;

/// A neighbor id with the bit pattern of its distance.
pub type Edge = (u64, u32);

pub open spec fn dist_key(d: u32) -> u32 {
    if d & 0x8000_0000u32 != 0 {
        !d
    } else {
        d | 0x8000_0000u32
    }
}

/// The sort key of a distance bit pattern.
pub fn distance_key(d: u32) -> (r: u32)
    ensures
        r == dist_key(d),
{
    if d & 0x8000_0000u32 != 0 {
        !d
    } else {
        d | 0x8000_0000u32
    }
}

pub open spec fn sorted_by_distance(s: Seq<Edge>) -> bool {
    forall|i: int, j: int| 0 <= i < j < s.len() ==> dist_key(s[i].1) <= dist_key(s[j].1)
}

pub open spec fn distinct_neighbors(s: Seq<Edge>) -> bool {
    forall|i: int, j: int| 0 <= i < j < s.len() ==> s[i].0 != s[j].0
}

pub open spec fn has_neighbor(s: Seq<Edge>, n: u64) -> bool {
    exists|i: int| 0 <= i < s.len() && #[trigger] s[i].0 == n
}

pub open spec fn mirrored(m: Map<u64, Vec<Edge>>, x: u64, e: Edge) -> bool {
    m.contains_key(e.0) && m[e.0]@.contains((x, e.1))
}

/// The adjacency of node `x` of `g` is sorted, without repeats or a self
/// edge, and every edge of it is mirrored.
pub open spec fn node_sound(g: Graph, x: u64) -> bool {
    &&& sorted_by_distance(g.edges(x))
    &&& distinct_neighbors(g.edges(x))
    &&& !has_neighbor(g.edges(x), x)
    &&& forall|i: int| 0 <= i < g.edges(x).len() ==> mirrored(g.adj@, x, #[trigger] g.edges(x)[i])
}

/// A layer: `order` lists the node ids in insertion order, `adj` maps each
/// to its adjacency list.
#[derive(Debug)]
pub struct Graph {
    pub order: Vec<u64>,
    pub adj: HashMap<u64, Vec<Edge>>,
}

impl Graph {
    pub open spec fn edges(&self, x: u64) -> Seq<Edge> {
        self.adj@[x]@
    }

    pub open spec fn has_node(&self, x: u64) -> bool {
        self.adj@.contains_key(x)
    }

    pub open spec fn keys_wf(&self) -> bool {
        &&& self.order@.no_duplicates()
        &&& forall|x: u64| #[trigger] self.adj@.contains_key(x) <==> self.order@.contains(x)
    }

    pub open spec fn lists_wf(&self) -> bool {
        forall|x: u64|
            #![trigger self.adj@[x]]
            self.adj@.contains_key(x) ==> sorted_by_distance(self.adj@[x]@) && distinct_neighbors(
                self.adj@[x]@,
            ) && !has_neighbor(self.adj@[x]@, x)
    }

    /// Every edge ends at a node of the layer, which holds the reverse edge
    /// with the same distance.
    pub open spec fn symmetric(&self) -> bool {
        forall|x: u64, i: int|
            self.adj@.contains_key(x) && 0 <= i < self.adj@[x]@.len() ==> mirrored(
                self.adj@,
                x,
                #[trigger] self.adj@[x]@[i],
            )
    }

    pub open spec fn wf(&self) -> bool {
        self.keys_wf() && self.lists_wf() && self.symmetric()
    }

    pub fn new() -> (g: Graph)
        ensures
            g.wf(),
            g.order@ == Seq::<u64>::empty(),
            g.adj@ == Map::<u64, Vec<Edge>>::empty(),
    {
        Graph { order: Vec::new(), adj: HashMap::new() }
    }

    pub fn len(&self) -> (r: usize)
        requires
            self.wf(),
        ensures
            r == self.order@.len(),
    {
        self.order.len()
    }

    pub fn contains(&self, x: u64) -> (r: bool)
        ensures
            r == self.has_node(x),
    {
        self.adj.contains_key(&x)
    }

    /// The adjacency list of `x`, if `x` is a node.
    pub fn neighbors(&self, x: u64) -> (r: Option<&Vec<Edge>>)
        ensures
            match r {
                Some(v) => self.has_node(x) && v@ == self.edges(x),
                None => !self.has_node(x),
            },
    {
        self.adj.get(&x)
    }

    /// Adds `x` as a node with no edges; a node already present is left as is.
    pub fn add_node(&mut self, x: u64)
        requires
            old(self).wf(),
        ensures
            final(self).wf(),
            final(self).adj@ == if old(self).has_node(x) {
                old(self).adj@
            } else {
                old(self).adj@.insert(x, final(self).adj@[x])
            },
            !old(self).has_node(x) ==> final(self).edges(x) == Seq::<Edge>::empty(),
            final(self).order@ == if old(self).has_node(x) {
                old(self).order@
            } else {
                old(self).order@.push(x)
            },
    {
        if !self.adj.contains_key(&x) {
            self.adj.insert(x, Vec::new());
            self.order.push(x);
            proof {
                let g = &*self;
                assert forall|y: u64| #[trigger] g.adj@.contains_key(y) <==> g.order@.contains(
                    y,
                ) by {
                    if y != x {
                        assert(old(self).order@.contains(y) ==> g.order@.contains(y)) by {
                            if old(self).order@.contains(y) {
                                let k = choose|k: int|
                                    0 <= k < old(self).order@.len() && old(self).order@[k] == y;
                                assert(g.order@[k] == y);
                            }
                        }
                        assert(g.order@.contains(y) ==> old(self).order@.contains(y)) by {
                            if g.order@.contains(y) {
                                let k = choose|k: int| 0 <= k < g.order@.len() && g.order@[k] == y;
                                assert(old(self).order@[k] == y);
                            }
                        }
                    } else {
                        assert(g.order@[g.order@.len() - 1] == x);
                    }
                }
                assert forall|x1: u64, i: int|
                    g.adj@.contains_key(x1) && 0 <= i < g.adj@[x1]@.len() implies mirrored(
                    g.adj@,
                    x1,
                    #[trigger] g.adj@[x1]@[i],
                ) by {
                    assert(x1 != x);
                    let e = old(self).adj@[x1]@[i];
                    assert(old(self).adj@[e.0]@.contains((x1, e.1)));
                    assert(e.0 != x);
                }
            }
        }
    }

    /// Whether `a` has an edge to `b`.
    pub fn has_edge(&self, a: u64, b: u64) -> (r: bool)
        requires
            self.has_node(a),
        ensures
            r == has_neighbor(self.edges(a), b),
    {
        let v = self.adj.get(&a).unwrap();
        let mut i: usize = 0;
        while i < v.len()
            invariant
                v@ == self.edges(a),
                i <= v.len(),
                forall|j: int| 0 <= j < i ==> v@[j].0 != b,
            decreases v.len() - i,
        {
            if v[i].0 == b {
                return true;
            }
            i += 1;
        }
        false
    }

    /// Adds the edges `a -> b` and `b -> a` with distance `d`, unless `a`
    /// already has an edge to `b`; each list stays sorted by distance.
    pub fn link(&mut self, a: u64, b: u64, d: u32)
        requires
            old(self).wf(),
            old(self).has_node(a),
            old(self).has_node(b),
            a != b,
        ensures
            final(self).wf(),
            final(self).order@ == old(self).order@,
            final(self).adj@.dom() == old(self).adj@.dom(),
            has_neighbor(final(self).edges(a), b),
            has_neighbor(old(self).edges(a), b) ==> final(self).adj@ == old(self).adj@,
            !has_neighbor(old(self).edges(a), b) ==> final(self).edges(a).contains((b, d))
                && final(self).edges(b).contains((a, d)),
            forall|x: u64| x != a && x != b ==> #[trigger] final(self).adj@[x] == old(self).adj@[x],
            forall|x: u64, e: Edge|
                final(self).has_node(x) && #[trigger] final(self).edges(x).contains(e)
                    ==> old(self).edges(x).contains(e) || (x == a && e == (b, d)) || (x == b && e
                    == (a, d)),
            forall|x: u64, e: Edge|
                old(self).has_node(x) && #[trigger] old(self).edges(x).contains(e)
                    ==> final(self).edges(x).contains(e),
    {
        if self.has_edge(a, b) {
            return;
        }
        proof {
            assert(!has_neighbor(self.edges(b), a)) by {
                if has_neighbor(self.edges(b), a) {
                    let i = choose|i: int|
                        0 <= i < self.edges(b).len() && #[trigger] self.edges(b)[i].0 == a;
                    let e = self.adj@[b]@[i];
                    assert(self.edges(a).contains((b, e.1)));
                    let k = choose|k: int|
                        0 <= k < self.edges(a).len() && self.edges(a)[k] == (b, e.1);
                    assert(self.edges(a)[k].0 == b);
                }
            }
        }
        let ghost g0 = self.adj@;
        let mut va = self.adj.remove(&a).unwrap();
        let p = insert_sorted(&mut va, (b, d));
        self.adj.insert(a, va);
        let mut vb = self.adj.remove(&b).unwrap();
        let q = insert_sorted(&mut vb, (a, d));
        self.adj.insert(b, vb);
        proof {
            let g = &*self;
            assert(g.adj@.dom() =~= g0.dom());
            assert(g.edges(a) == g0[a]@.insert(p as int, (b, d)));
            assert(g.edges(b) == g0[b]@.insert(q as int, (a, d)));
            assert(g.edges(a)[p as int] == (b, d));
            assert(g.edges(b)[q as int] == (a, d));
            assert forall|x: u64, e: Edge| g0.contains_key(x) && #[trigger] g0[x]@.contains(
                e,
            ) implies g.edges(x).contains(e) by {
                if x == a {
                    lemma_insert_keeps(g0[a]@, p as int, (b, d), e);
                } else if x == b {
                    lemma_insert_keeps(g0[b]@, q as int, (a, d), e);
                }
            }
            assert forall|x: u64, e: Edge|
                g.has_node(x) && #[trigger] g.edges(x).contains(e) implies g0[x]@.contains(e) || (
                x == a && e == (b, d)) || (x == b && e == (a, d)) by {
                if x == a {
                    lemma_insert_contains(g0[a]@, p as int, (b, d), e);
                } else if x == b {
                    lemma_insert_contains(g0[b]@, q as int, (a, d), e);
                }
            }
            assert(has_neighbor(g.edges(a), b)) by {
                assert(g.edges(a)[p as int].0 == b);
            }
            assert forall|x: u64| #[trigger] g.adj@.contains_key(x) implies sorted_by_distance(
                g.adj@[x]@,
            ) && distinct_neighbors(g.adj@[x]@) && !has_neighbor(g.adj@[x]@, x) by {
                if x == a {
                    lemma_insert_new_neighbor(g0[a]@, p as int, (b, d), a);
                } else if x == b {
                    lemma_insert_new_neighbor(g0[b]@, q as int, (a, d), b);
                }
            }
            assert forall|x: u64, i: int|
                g.adj@.contains_key(x) && 0 <= i < g.adj@[x]@.len() implies mirrored(
                g.adj@,
                x,
                #[trigger] g.adj@[x]@[i],
            ) by {
                let e = g.adj@[x]@[i];
                if x == a && i == p {
                    assert(e == (b, d));
                } else if x == b && i == q {
                    assert(e == (a, d));
                } else {
                    let j = if x == a {
                        if i < p {
                            i
                        } else {
                            i - 1
                        }
                    } else if x == b {
                        if i < q {
                            i
                        } else {
                            i - 1
                        }
                    } else {
                        i
                    };
                    assert(g0[x]@[j] == e);
                    assert(g0[e.0]@.contains((x, e.1)));
                    assert(g0[x]@.contains(e));
                }
            }
        }
    }

    /// Deletes `x` from the nodes and from every adjacency list.
    pub fn remove_node(&mut self, x: u64)
        requires
            old(self).wf(),
        ensures
            final(self).wf(),
            final(self).adj@.dom() == old(self).adj@.dom().remove(x),
            forall|y: u64, e: Edge|
                #![trigger final(self).edges(y).contains(e)]
                final(self).has_node(y) ==> (final(self).edges(y).contains(e) <==> old(self).edges(
                    y,
                ).contains(e) && e.0 != x),
            forall|y: u64| #[trigger] final(self).order@.contains(y) <==> old(self).order@.contains(y) && y != x,
    {
        let ghost g0 = self.adj@;
        let ghost o0 = self.order@;
        let mut i: usize = 0;
        while i < self.order.len()
            invariant
                self.order@ == o0,
                o0.no_duplicates(),
                forall|y: u64| #[trigger] g0.contains_key(y) <==> o0.contains(y),
                forall|y: u64| #![trigger g0[y]] g0.contains_key(y) ==> sorted_by_distance(g0[y]@) && distinct_neighbors(g0[y]@) && !has_neighbor(g0[y]@, y),
                i <= o0.len(),
                self.adj@.dom() == g0.dom(),
                forall|j: int|
                    0 <= j < i ==> {
                        let y = #[trigger] o0[j];
                        &&& forall|e: Edge| self.adj@[y]@.contains(e) <==> g0[y]@.contains(e) && e.0 != x
                        &&& sorted_by_distance(self.adj@[y]@)
                        &&& distinct_neighbors(self.adj@[y]@)
                        &&& !has_neighbor(self.adj@[y]@, y)
                        &&& !has_neighbor(self.adj@[y]@, x)
                    },
                forall|j: int| i <= j < o0.len() ==> self.adj@[#[trigger] o0[j]] == g0[o0[j]],
            decreases o0.len() - i,
        {
            let y = self.order[i];
            assert(o0.contains(y));
            let v = self.adj.remove(&y).unwrap();
            let w = without_neighbor(&v, y);
            let w = without_neighbor(&w, x);
            self.adj.insert(y, w);
            proof {
                assert forall|j: int| i < j < o0.len() implies self.adj@[#[trigger] o0[j]] == g0[o0[j]] by {
                    assert(o0[j] != o0[i as int]);
                }
                assert forall|j: int| 0 <= j < i implies {
                        let yy = #[trigger] o0[j];
                        &&& forall|e: Edge| self.adj@[yy]@.contains(e) <==> g0[yy]@.contains(e) && e.0 != x
                        &&& sorted_by_distance(self.adj@[yy]@)
                        &&& distinct_neighbors(self.adj@[yy]@)
                        &&& !has_neighbor(self.adj@[yy]@, yy)
                        &&& !has_neighbor(self.adj@[yy]@, x)
                    } by {
                    assert(o0[j] != o0[i as int]);
                }
                assert forall|e: Edge| self.adj@[y]@.contains(e) <==> g0[y]@.contains(e) && e.0 != x by {
                    if g0[y]@.contains(e) && e.0 != x && e.0 == y {
                        let k = choose|k: int| 0 <= k < g0[y]@.len() && g0[y]@[k] == e;
                        assert(has_neighbor(g0[y]@, y));
                    }
                }
                assert(!has_neighbor(self.adj@[y]@, y)) by {
                    if has_neighbor(self.adj@[y]@, y) {
                        assert(has_neighbor(g0[y]@, y));
                    }
                }
            }
            i += 1;
        }
        self.adj.remove(&x);
        let mut order: Vec<u64> = Vec::new();
        let mut k: usize = 0;
        while k < self.order.len()
            invariant
                self.order@ == o0,
                o0.no_duplicates(),
                k <= o0.len(),
                order@.no_duplicates(),
                forall|y: u64| #[trigger] order@.contains(y) <==> o0.take(k as int).contains(y) && y != x,
            decreases o0.len() - k,
        {
            let y = self.order[k];
            proof {
                assert(o0.take(k + 1) =~= o0.take(k as int).push(y));
                assert(!o0.take(k as int).contains(y)) by {
                    if o0.take(k as int).contains(y) {
                        let t = choose|t: int| 0 <= t < k && o0.take(k as int)[t] == y;
                        assert(o0[t] == o0[k as int]);
                    }
                }
            }
            if y != x {
                let ghost prev = order@;
                order.push(y);
                proof {
                    assert(order@ == prev.push(y));
                    assert forall|z: u64| #[trigger] order@.contains(z) <==> o0.take(k + 1).contains(z) && z != x by {
                        lemma_push_contains(prev, y, z);
                        lemma_push_contains(o0.take(k as int), y, z);
                    }
                    assert(!prev.contains(y));
                    assert forall|a: int, b: int| 0 <= a < b < order@.len() implies order@[a] != order@[b] by {
                        if b == prev.len() {
                            assert(prev.contains(order@[a]));
                        } else {
                            assert(prev[a] != prev[b]);
                        }
                    }
                }
            } else {
                proof {
                    assert forall|z: u64| #[trigger] order@.contains(z) <==> o0.take(k + 1).contains(z) && z != x by {
                        lemma_push_contains(o0.take(k as int), y, z);
                    }
                }
            }
            k += 1;
        }
        self.order = order;
        proof {
            assert(o0.take(k as int) =~= o0);
            let g = &*self;
            assert(g.adj@.dom() =~= g0.dom().remove(x));
            assert forall|y: u64| g.has_node(y) implies {
                &&& forall|e: Edge| g.edges(y).contains(e) <==> g0[y]@.contains(e) && e.0 != x
                &&& sorted_by_distance(g.edges(y))
                &&& distinct_neighbors(g.edges(y))
                &&& !has_neighbor(g.edges(y), y)
            } by {
                assert(o0.contains(y));
                let j = choose|j: int| 0 <= j < o0.len() && o0[j] == y;
                assert(o0[j] == y);
            }
            assert forall|y: u64, t: int|
                g.adj@.contains_key(y) && 0 <= t < g.adj@[y]@.len() implies mirrored(
                g.adj@,
                y,
                #[trigger] g.adj@[y]@[t],
            ) by {
                let e = g.adj@[y]@[t];
                assert(g.edges(y).contains(e));
                assert(g0[y]@.contains(e));
                let u = choose|u: int| 0 <= u < g0[y]@.len() && g0[y]@[u] == e;
                assert(mirrored(g0, y, g0[y]@[u]));
                assert(g0[e.0]@.contains((y, e.1)));
            }
        }
    }

    /// Whether the adjacency of `x` is sorted, without repeats or a self
    /// edge, and every edge of it is mirrored.
    fn node_ok(&self, x: u64) -> (r: bool)
        requires
            self.has_node(x),
        ensures
            r == node_sound(*self, x),
    {
        let v = self.adj.get(&x).unwrap();
        let n = v.len();
        let mut i: usize = 0;
        while i < n
            invariant
                v@ == self.edges(x),
                n == v@.len(),
                i <= n,
                forall|a: int, b: int| 0 <= a < b < n && a < i ==> dist_key(v@[a].1) <= dist_key(v@[b].1) && v@[a].0 != v@[b].0,
                forall|a: int| 0 <= a < i ==> v@[a].0 != x && mirrored(self.adj@, x, #[trigger] v@[a]),
            decreases n - i,
        {
            let e = v[i];
            if e.0 == x {
                proof {
                    assert(v@[i as int].0 == x);
                    assert(has_neighbor(v@, x));
                }
                return false;
            }
            let mut j: usize = i + 1;
            while j < n
                invariant
                    v@ == self.edges(x),
                    n == v@.len(),
                    i < j <= n,
                    e == v@[i as int],
                    forall|b: int| i < b < j ==> dist_key(e.1) <= dist_key(v@[b].1) && e.0 != v@[b].0,
                decreases n - j,
            {
                if distance_key(e.1) > distance_key(v[j].1) || e.0 == v[j].0 {
                    proof {
                        if dist_key(e.1) > dist_key(v@[j as int].1) {
                            assert(!sorted_by_distance(v@));
                        } else {
                            assert(!distinct_neighbors(v@));
                        }
                    }
                    return false;
                }
                j += 1;
            }
            match self.adj.get(&e.0) {
                Some(w) => {
                    let mut k: usize = 0;
                    let mut found = false;
                    while k < w.len()
                        invariant
                            k <= w@.len(),
                            w@ == self.edges(e.0),
                            found ==> w@.contains((x, e.1)),
                            !found ==> forall|q: int| 0 <= q < k ==> w@[q] != (x, e.1),
                        decreases w@.len() - k,
                    {
                        if w[k].0 == x && w[k].1 == e.1 {
                            found = true;
                            proof {
                                assert(w@[k as int] == (x, e.1));
                            }
                        }
                        k += 1;
                    }
                    if !found {
                        proof {
                            assert(!w@.contains((x, e.1)));
                            assert(!mirrored(self.adj@, x, v@[i as int]));
                        }
                        return false;
                    }
                },
                None => {
                    proof {
                        assert(!mirrored(self.adj@, x, v@[i as int]));
                    }
                    return false;
                },
            }
            i += 1;
        }
        proof {
            assert(!has_neighbor(v@, x)) by {
                if has_neighbor(v@, x) {
                    let a = choose|a: int| 0 <= a < v@.len() && #[trigger] v@[a].0 == x;
                }
            }
        }
        true
    }

    /// Checks the whole layer invariant: `true` exactly for a well-formed layer.
    pub fn is_well_formed(&self) -> (r: bool)
        requires
            self.keys_wf(),
        ensures
            r == self.wf(),
    {
        let mut i: usize = 0;
        while i < self.order.len()
            invariant
                self.keys_wf(),
                i <= self.order@.len(),
                forall|j: int| 0 <= j < i ==> {
                    let x = #[trigger] self.order@[j];
                    &&& sorted_by_distance(self.edges(x))
                    &&& distinct_neighbors(self.edges(x))
                    &&& !has_neighbor(self.edges(x), x)
                    &&& forall|t: int| 0 <= t < self.edges(x).len() ==> mirrored(self.adj@, x, #[trigger] self.edges(x)[t])
                },
            decreases self.order@.len() - i,
        {
            let x = self.order[i];
            assert(self.order@.contains(x));
            if !self.node_ok(x) {
                proof {
                    let es = self.adj@[x]@;
                    if sorted_by_distance(es) && distinct_neighbors(es) && !has_neighbor(es, x) {
                        let t = choose|t: int| 0 <= t < es.len() && !mirrored(self.adj@, x, #[trigger] es[t]);
                        assert(!self.symmetric());
                    } else {
                        assert(!self.lists_wf());
                    }
                }
                return false;
            }
            i += 1;
        }
        proof {
            assert forall|x: u64| #[trigger] self.adj@.contains_key(x) implies sorted_by_distance(self.adj@[x]@)
                && distinct_neighbors(self.adj@[x]@) && !has_neighbor(self.adj@[x]@, x) by {
                let j = choose|j: int| 0 <= j < self.order@.len() && self.order@[j] == x;
                assert(self.order@[j] == x);
            }
            assert forall|x: u64, t: int| self.adj@.contains_key(x) && 0 <= t < self.adj@[x]@.len()
                implies mirrored(self.adj@, x, #[trigger] self.adj@[x]@[t]) by {
                let j = choose|j: int| 0 <= j < self.order@.len() && self.order@[j] == x;
                assert(self.order@[j] == x);
                assert(self.edges(x)[t] == self.adj@[x]@[t]);
            }
        }
        true
    }

    /// Up to `m` node ids in insertion order, skipping `skip`.
    pub fn first_keys(&self, m: usize, skip: u64) -> (r: Vec<u64>)
        requires
            self.wf(),
        ensures
            r@.len() <= m,
            r@.no_duplicates(),
            forall|i: int| 0 <= i < r@.len() ==> #[trigger] r@[i] != skip && self.has_node(r@[i]),
            !self.order@.contains(skip) ==> r@ == self.order@.take(
                if (m as int) < self.order@.len() {
                    m as int
                } else {
                    self.order@.len() as int
                },
            ),
    {
        let mut r: Vec<u64> = Vec::new();
        let mut i: usize = 0;
        while i < self.order.len() && r.len() < m
            invariant
                self.wf(),
                !self.order@.contains(skip) ==> r@ == self.order@.take(i as int),
                i <= self.order@.len(),
                r@.len() <= m,
                r@.no_duplicates(),
                forall|j: int| 0 <= j < r@.len() ==> #[trigger] r@[j] != skip && self.has_node(r@[j]),
                forall|j: int| 0 <= j < r@.len() ==> exists|k: int| 0 <= k < i && self.order@[k] == #[trigger] r@[j],
            decreases self.order@.len() - i,
        {
            let x = self.order[i];
            if x != skip {
                proof {
                    assert(self.order@.contains(x));
                    assert forall|j: int| 0 <= j < r@.len() implies #[trigger] r@[j] != x by {
                        let k = choose|k: int| 0 <= k < i && self.order@[k] == r@[j];
                        assert(self.order@[k] != self.order@[i as int]);
                    }
                }
                r.push(x);
                proof {
                    if !self.order@.contains(skip) {
                        assert(r@ =~= self.order@.take(i + 1));
                    }
                    assert forall|j: int| 0 <= j < r@.len() implies exists|k: int| 0 <= k < i + 1 && self.order@[k] == #[trigger] r@[j] by {
                        if j == r@.len() - 1 {
                            assert(self.order@[i as int] == r@[j]);
                        } else {
                            let k = choose|k: int| 0 <= k < i && self.order@[k] == id_at(r@, j);
                        }
                    }
                }
            } else {
                proof {
                    assert(self.order@.contains(skip));
                }
            }
            i += 1;
        }
        r
    }
}

/// The entries of `s` whose neighbor is not `x`, in their order.
pub fn without_neighbor(s: &Vec<Edge>, x: u64) -> (r: Vec<Edge>)
    ensures
        forall|e: Edge| r@.contains(e) <==> s@.contains(e) && e.0 != x,
        !has_neighbor(r@, x),
        sorted_by_distance(s@) ==> sorted_by_distance(r@),
        distinct_neighbors(s@) ==> distinct_neighbors(r@),
        forall|n: u64| has_neighbor(r@, n) ==> has_neighbor(s@, n),
{
    let mut r: Vec<Edge> = Vec::new();
    let mut i: usize = 0;
    while i < s.len()
        invariant
            i <= s@.len(),
            forall|j: int| 0 <= j < r@.len() ==> exists|k: int| 0 <= k < i && s@[k] == #[trigger] r@[j],
            forall|e: Edge| r@.contains(e) <==> s@.take(i as int).contains(e) && e.0 != x,
            forall|j: int| 0 <= j < r@.len() ==> (#[trigger] r@[j]).0 != x,
            sorted_by_distance(s@) ==> sorted_by_distance(r@),
            distinct_neighbors(s@) ==> distinct_neighbors(r@),
        decreases s@.len() - i,
    {
        let e = s[i];
        proof {
            assert(s@.take(i + 1) =~= s@.take(i as int).push(e));
        }
        if e.0 != x {
            proof {
                assert forall|j: int| 0 <= j < r@.len() implies (sorted_by_distance(s@) ==> dist_key(r@[j].1) <= dist_key(e.1)) && (distinct_neighbors(s@) ==> r@[j].0 != e.0) by {
                    let k = choose|k: int| 0 <= k < i && s@[k] == r@[j];
                }
            }
            let ghost prev = r@;
            r.push(e);
            proof {
                assert(r@ == prev.push(e));
                assert forall|j: int| 0 <= j < r@.len() implies exists|k: int| 0 <= k < i + 1 && s@[k] == #[trigger] r@[j] by {
                    if j == r@.len() - 1 {
                        assert(s@[i as int] == r@[j]);
                    } else {
                        let k = choose|k: int| 0 <= k < i && s@[k] == edge_at(r@, j);
                    }
                }
                assert forall|ee: Edge| r@.contains(ee) <==> s@.take(i + 1).contains(ee) && ee.0 != x by {
                    lemma_push_contains(prev, e, ee);
                    lemma_push_contains(s@.take(i as int), e, ee);
                }
            }
        } else {
            proof {
                assert forall|ee: Edge| r@.contains(ee) <==> s@.take(i + 1).contains(ee) && ee.0 != x by {
                    lemma_push_contains(s@.take(i as int), e, ee);
                }
            }
        }
        i += 1;
    }
    proof {
        assert(s@.take(i as int) =~= s@);
        assert forall|n: u64| has_neighbor(r@, n) implies has_neighbor(s@, n) by {
            let j = choose|j: int| 0 <= j < r@.len() && #[trigger] r@[j].0 == n;
            let k = choose|k: int| 0 <= k < i && s@[k] == r@[j];
            assert(s@[k].0 == n);
        }
    }
    r
}

spec fn edge_at(s: Seq<Edge>, j: int) -> Edge {
    s[j]
}

pub proof fn lemma_push_contains<A>(s: Seq<A>, a: A, z: A)
    ensures
        s.push(a).contains(z) <==> s.contains(z) || z == a,
{
    if s.contains(z) {
        let k = choose|k: int| 0 <= k < s.len() && s[k] == z;
        assert(s.push(a)[k] == z);
    }
    if z == a {
        assert(s.push(a)[s.len() as int] == z);
    }
    if s.push(a).contains(z) && z != a {
        let k = choose|k: int| 0 <= k < s.push(a).len() && s.push(a)[k] == z;
        assert(s[k] == z);
    }
}

spec fn id_at(s: Seq<u64>, j: int) -> u64 {
    s[j]
}

proof fn lemma_insert_keeps(s: Seq<Edge>, p: int, x: Edge, e: Edge)
    requires
        0 <= p <= s.len(),
        s.contains(e),
    ensures
        s.insert(p, x).contains(e),
{
    let k = choose|k: int| 0 <= k < s.len() && s[k] == e;
    if k < p {
        assert(s.insert(p, x)[k] == e);
    } else {
        assert(s.insert(p, x)[k + 1] == e);
    }
}

proof fn lemma_insert_contains(s: Seq<Edge>, p: int, x: Edge, e: Edge)
    requires
        0 <= p <= s.len(),
        s.insert(p, x).contains(e),
    ensures
        s.contains(e) || e == x,
{
    let t = s.insert(p, x);
    let k = choose|k: int| 0 <= k < t.len() && t[k] == e;
    if k < p {
        assert(s[k] == e);
    } else if k > p {
        assert(s[k - 1] == e);
    }
}

proof fn lemma_insert_new_neighbor(s: Seq<Edge>, p: int, x: Edge, owner: u64)
    requires
        0 <= p <= s.len(),
        sorted_by_distance(s.insert(p, x)),
        distinct_neighbors(s),
        !has_neighbor(s, x.0),
        !has_neighbor(s, owner),
        x.0 != owner,
    ensures
        sorted_by_distance(s.insert(p, x)),
        distinct_neighbors(s.insert(p, x)),
        !has_neighbor(s.insert(p, x), owner),
{
    let t = s.insert(p, x);
    assert forall|i: int, j: int| 0 <= i < j < t.len() implies t[i].0 != t[j].0 by {
        if i == p {
            assert(s[j - 1] == t[j]);
        } else if j == p {
            assert(s[i] == t[i]);
        } else {
            let i0 = if i < p { i } else { i - 1 };
            let j0 = if j < p { j } else { j - 1 };
            assert(s[i0] == t[i] && s[j0] == t[j]);
        }
    }
    if has_neighbor(t, owner) {
        let i = choose|i: int| 0 <= i < t.len() && #[trigger] t[i].0 == owner;
        if i < p {
            assert(s[i].0 == owner);
        } else if i > p {
            assert(s[i - 1].0 == owner);
        }
    }
}

/// Inserts `e` after every entry whose distance sorts at or before it, and
/// returns the position it took.
pub fn insert_sorted(v: &mut Vec<Edge>, e: Edge) -> (p: usize)
    requires
        sorted_by_distance(old(v)@),
    ensures
        p <= old(v)@.len(),
        final(v)@ == old(v)@.insert(p as int, e),
        sorted_by_distance(final(v)@),
{
    let k = distance_key(e.1);
    let mut p: usize = 0;
    while p < v.len() && distance_key(v[p].1) <= k
        invariant
            p <= v@.len(),
            v@ == old(v)@,
            k == dist_key(e.1),
            forall|i: int| 0 <= i < p ==> dist_key(#[trigger] v@[i].1) <= k,
        decreases v@.len() - p,
    {
        p += 1;
    }
    let ghost s = v@;
    v.insert(p, e);
    proof {
        assert forall|i: int, j: int| 0 <= i < j < v@.len() implies dist_key(v@[i].1) <= dist_key(
            v@[j].1,
        ) by {
            if i < p && j == p {
            } else if i == p && j > p {
                assert(v@[j] == s[j - 1]);
                assert(dist_key(s[p as int].1) > k);
                if j - 1 > p {
                    assert(dist_key(s[p as int].1) <= dist_key(s[j - 1].1));
                }
            } else {
                let i0 = if i < p { i } else { i - 1 };
                let j0 = if j < p { j } else { j - 1 };
                assert(v@[i] == s[i0] && v@[j] == s[j0]);
            }
        }
    }
    p
}

} // verus!
