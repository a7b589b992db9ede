//! On-disk form of the HNSW index.
//!
//! `size` (32 bits), the number of layers, then each layer: its node count
//! and, for each node in insertion order, the id, the edge count and the
//! edges (neighbor id, distance bits).
use vstd::prelude::*;
use std::collections::HashMap;

use crate::codec::{
    be32, be64, encoded_at, get_u32, get_u64, lemma_encoded_at_split, lemma_parse_u32_at,
    lemma_parse_u64_at, parse_u32, parse_u64, put_u32, put_u64, DecodeError,
};
use crate::graph::{Edge, Graph};
use crate::hnsw::HNSW;

verus! {

broadcast use vstd::std_specs::hash::group_hash_axioms;

/// A layer as a list of nodes with their adjacency, in insertion order.
pub type LayerModel = Seq<(u64, Seq<Edge>)>;

pub open spec fn layer_model(g: Graph) -> LayerModel {
    g.order@.map_values(|x: u64| (x, g.adj@[x]@))
}

pub open spec fn layers_model(ls: Seq<Graph>) -> Seq<LayerModel> {
    ls.map_values(|g: Graph| layer_model(g))
}

pub open spec fn enc_edge(e: Edge) -> Seq<u8> {
    be64(e.0) + be32(e.1)
}

pub open spec fn enc_edges(es: Seq<Edge>) -> Seq<u8>
    decreases es.len(),
{
    if es.len() == 0 {
        Seq::empty()
    } else {
        enc_edges(es.drop_last()) + enc_edge(es.last())
    }
}

pub open spec fn enc_node(n: (u64, Seq<Edge>)) -> Seq<u8> {
    be64(n.0) + be64(n.1.len() as u64) + enc_edges(n.1)
}

pub open spec fn enc_nodes(ns: LayerModel) -> Seq<u8>
    decreases ns.len(),
{
    if ns.len() == 0 {
        Seq::empty()
    } else {
        enc_nodes(ns.drop_last()) + enc_node(ns.last())
    }
}

pub open spec fn enc_layer(l: LayerModel) -> Seq<u8> {
    be64(l.len() as u64) + enc_nodes(l)
}

pub open spec fn enc_layers(ls: Seq<LayerModel>) -> Seq<u8>
    decreases ls.len(),
{
    if ls.len() == 0 {
        Seq::empty()
    } else {
        enc_layers(ls.drop_last()) + enc_layer(ls.last())
    }
}

pub open spec fn enc_index(size: u32, ls: Seq<LayerModel>) -> Seq<u8> {
    be32(size) + be64(ls.len() as u64) + enc_layers(ls)
}

pub open spec fn parse_edge(b: Seq<u8>, off: int) -> Option<(Edge, int)> {
    match parse_u64(b, off) {
        Some((n, p)) => match parse_u32(b, p) {
            Some((d, q)) => Some(((n, d), q)),
            None => None,
        },
        None => None,
    }
}

pub open spec fn parse_edges(b: Seq<u8>, off: int, count: nat) -> Option<(Seq<Edge>, int)>
    decreases count,
{
    if count == 0 {
        Some((Seq::empty(), off))
    } else {
        match parse_edges(b, off, (count - 1) as nat) {
            Some((es, p)) => match parse_edge(b, p) {
                Some((e, q)) => Some((es.push(e), q)),
                None => None,
            },
            None => None,
        }
    }
}

pub open spec fn parse_node(b: Seq<u8>, off: int) -> Option<((u64, Seq<Edge>), int)> {
    match parse_u64(b, off) {
        Some((x, p)) => match parse_u64(b, p) {
            Some((n, q)) => match parse_edges(b, q, n as nat) {
                Some((es, r)) => Some(((x, es), r)),
                None => None,
            },
            None => None,
        },
        None => None,
    }
}

pub open spec fn parse_nodes(b: Seq<u8>, off: int, count: nat) -> Option<(LayerModel, int)>
    decreases count,
{
    if count == 0 {
        Some((Seq::empty(), off))
    } else {
        match parse_nodes(b, off, (count - 1) as nat) {
            Some((ns, p)) => match parse_node(b, p) {
                Some((n, q)) => Some((ns.push(n), q)),
                None => None,
            },
            None => None,
        }
    }
}

pub open spec fn parse_layer(b: Seq<u8>, off: int) -> Option<(LayerModel, int)> {
    match parse_u64(b, off) {
        Some((n, p)) => parse_nodes(b, p, n as nat),
        None => None,
    }
}

pub open spec fn parse_layers(b: Seq<u8>, off: int, count: nat) -> Option<(Seq<LayerModel>, int)>
    decreases count,
{
    if count == 0 {
        Some((Seq::empty(), off))
    } else {
        match parse_layers(b, off, (count - 1) as nat) {
            Some((ls, p)) => match parse_layer(b, p) {
                Some((l, q)) => Some((ls.push(l), q)),
                None => None,
            },
            None => None,
        }
    }
}

/// Node ids of a layer are distinct.
pub open spec fn distinct_ids(l: LayerModel) -> bool {
    forall|i: int, j: int| 0 <= i < j < l.len() ==> l[i].0 != l[j].0
}

/// What a byte string decodes to: the size, and the layers when every layer
/// lists distinct node ids.
pub open spec fn parse_index(b: Seq<u8>) -> Option<(u32, Seq<LayerModel>, int)> {
    match parse_u32(b, 0) {
        Some((size, p)) => match parse_u64(b, p) {
            Some((n, q)) => match parse_layers(b, q, n as nat) {
                Some((ls, r)) => {
                    if forall|i: int| 0 <= i < ls.len() ==> distinct_ids(#[trigger] ls[i]) {
                        Some((size, ls, r))
                    } else {
                        None
                    }
                },
                None => None,
            },
            None => None,
        },
        None => None,
    }
}

pub open spec fn layer_fits(l: LayerModel) -> bool {
    &&& l.len() <= u64::MAX
    &&& forall|i: int| 0 <= i < l.len() ==> (#[trigger] l[i]).1.len() <= u64::MAX
}

pub proof fn lemma_parse_edges_at(b: Seq<u8>, off: int, es: Seq<Edge>)
    requires
        encoded_at(b, off, enc_edges(es)),
    ensures
        parse_edges(b, off, es.len()) == Some((es, off + enc_edges(es).len())),
    decreases es.len(),
{
    if es.len() > 0 {
        let init = es.drop_last();
        let e = es.last();
        lemma_encoded_at_split(b, off, enc_edges(init), enc_edge(e));
        lemma_parse_edges_at(b, off, init);
        let p = off + enc_edges(init).len();
        lemma_encoded_at_split(b, p, be64(e.0), be32(e.1));
        lemma_parse_u64_at(b, p, e.0);
        lemma_parse_u32_at(b, p + 8, e.1);
        assert(init.push(e) =~= es);
    }
}

pub proof fn lemma_parse_node_at(b: Seq<u8>, off: int, n: (u64, Seq<Edge>))
    requires
        encoded_at(b, off, enc_node(n)),
        n.1.len() <= u64::MAX,
    ensures
        parse_node(b, off) == Some((n, off + enc_node(n).len())),
{
    let e1 = be64(n.0);
    let e2 = be64(n.1.len() as u64);
    let e3 = enc_edges(n.1);
    lemma_encoded_at_split(b, off, e1 + e2, e3);
    lemma_encoded_at_split(b, off, e1, e2);
    lemma_parse_u64_at(b, off, n.0);
    lemma_parse_u64_at(b, off + 8, n.1.len() as u64);
    lemma_parse_edges_at(b, off + 16, n.1);
}

pub proof fn lemma_parse_nodes_at(b: Seq<u8>, off: int, ns: LayerModel)
    requires
        encoded_at(b, off, enc_nodes(ns)),
        layer_fits(ns),
    ensures
        parse_nodes(b, off, ns.len()) == Some((ns, off + enc_nodes(ns).len())),
    decreases ns.len(),
{
    if ns.len() > 0 {
        let init = ns.drop_last();
        lemma_encoded_at_split(b, off, enc_nodes(init), enc_node(ns.last()));
        assert forall|i: int| 0 <= i < init.len() implies (#[trigger] init[i]).1.len() <= u64::MAX by {
            assert(init[i] == ns[i]);
        }
        lemma_parse_nodes_at(b, off, init);
        assert(ns[ns.len() - 1] == ns.last());
        lemma_parse_node_at(b, off + enc_nodes(init).len(), ns.last());
        assert(init.push(ns.last()) =~= ns);
    }
}

pub proof fn lemma_parse_layers_at(b: Seq<u8>, off: int, ls: Seq<LayerModel>)
    requires
        encoded_at(b, off, enc_layers(ls)),
        forall|i: int| 0 <= i < ls.len() ==> layer_fits(#[trigger] ls[i]),
    ensures
        parse_layers(b, off, ls.len()) == Some((ls, off + enc_layers(ls).len())),
    decreases ls.len(),
{
    if ls.len() > 0 {
        let init = ls.drop_last();
        let l = ls.last();
        lemma_encoded_at_split(b, off, enc_layers(init), enc_layer(l));
        assert forall|i: int| 0 <= i < init.len() implies layer_fits(#[trigger] init[i]) by {
            assert(init[i] == ls[i]);
        }
        lemma_parse_layers_at(b, off, init);
        let p = off + enc_layers(init).len();
        assert(ls[ls.len() - 1] == l);
        lemma_encoded_at_split(b, p, be64(l.len() as u64), enc_nodes(l));
        lemma_parse_u64_at(b, p, l.len() as u64);
        lemma_parse_nodes_at(b, p + 8, l);
        assert(init.push(l) =~= ls);
    }
}

/// Decoding a serialized index gives back its size and its layers, node
/// for node and edge for edge, in the same order.
pub proof fn lemma_index_round_trip(size: u32, ls: Seq<LayerModel>)
    requires
        ls.len() <= u64::MAX,
        forall|i: int| 0 <= i < ls.len() ==> layer_fits(#[trigger] ls[i]),
        forall|i: int| 0 <= i < ls.len() ==> distinct_ids(#[trigger] ls[i]),
    ensures
        parse_index(enc_index(size, ls)) == Some((size, ls, enc_index(size, ls).len() as int)),
{
    let b = enc_index(size, ls);
    assert(b.subrange(0, b.len() as int) =~= b);
    lemma_encoded_at_split(b, 0, be32(size) + be64(ls.len() as u64), enc_layers(ls));
    lemma_encoded_at_split(b, 0, be32(size), be64(ls.len() as u64));
    lemma_parse_u32_at(b, 0, size);
    lemma_parse_u64_at(b, 4, ls.len() as u64);
    lemma_parse_layers_at(b, 12, ls);
}

fn write_layer(g: &Graph, out: &mut Vec<u8>)
    requires
        g.keys_wf(),
    ensures
        final(out)@ == old(out)@ + enc_layer(layer_model(*g)),
{
    let ghost lm = layer_model(*g);
    put_u64(out, g.order.len() as u64);
    let ghost mid = out@;
    let mut i: usize = 0;
    while i < g.order.len()
        invariant
            g.keys_wf(),
            lm == layer_model(*g),
            i <= g.order@.len(),
            out@ == mid + enc_nodes(lm.take(i as int)),
        decreases g.order@.len() - i,
    {
        let x = g.order[i];
        assert(g.order@.contains(x));
        let es = g.adj.get(&x).unwrap();
        let ghost before = out@;
        put_u64(out, x);
        put_u64(out, es.len() as u64);
        let ghost mid2 = out@;
        let mut j: usize = 0;
        while j < es.len()
            invariant
                j <= es@.len(),
                out@ == mid2 + enc_edges(es@.take(j as int)),
            decreases es@.len() - j,
        {
            put_u64(out, es[j].0);
            put_u32(out, es[j].1);
            proof {
                assert(es@.take(j + 1).drop_last() =~= es@.take(j as int));
                assert(out@ =~= mid2 + enc_edges(es@.take(j + 1)));
            }
            j += 1;
        }
        proof {
            assert(es@.take(j as int) =~= es@);
            assert(lm.take(i + 1).drop_last() =~= lm.take(i as int));
            assert(lm.take(i + 1).last() == (x, g.adj@[x]@));
            assert(out@ =~= mid + enc_nodes(lm.take(i + 1)));
        }
        i += 1;
    }
    proof {
        assert(lm.take(i as int) =~= lm);
        assert(lm.len() == g.order@.len());
    }
    assert(out@ =~= old(out)@ + enc_layer(layer_model(*g)));
}

proof fn lemma_parse_edges_stops(b: Seq<u8>, off: int, i: nat, n: nat)
    requires
        i < n,
        parse_edges(b, off, i) matches Some((_, p)) && parse_edge(b, p) is None,
    ensures
        parse_edges(b, off, n) is None,
    decreases n - i,
{
    if n > i + 1 {
        lemma_parse_edges_stops(b, off, i, (n - 1) as nat);
    }
}

proof fn lemma_parse_nodes_stops(b: Seq<u8>, off: int, i: nat, n: nat)
    requires
        i < n,
        parse_nodes(b, off, i) matches Some((_, p)) && parse_node(b, p) is None,
    ensures
        parse_nodes(b, off, n) is None,
    decreases n - i,
{
    if n > i + 1 {
        lemma_parse_nodes_stops(b, off, i, (n - 1) as nat);
    }
}

proof fn lemma_parse_layers_stops(b: Seq<u8>, off: int, i: nat, n: nat)
    requires
        i < n,
        parse_layers(b, off, i) matches Some((_, p)) && parse_layer(b, p) is None,
    ensures
        parse_layers(b, off, n) is None,
    decreases n - i,
{
    if n > i + 1 {
        lemma_parse_layers_stops(b, off, i, (n - 1) as nat);
    }
}

fn read_node(b: &[u8], off: usize) -> (r: Result<(u64, Vec<Edge>, usize), DecodeError>)
    ensures
        match r {
            Ok((x, es, p)) => parse_node(b@, off as int) == Some(((x, es@), p as int)),
            Err(_) => parse_node(b@, off as int) is None,
        },
{
    let (x, p) = match get_u64(b, off) {
        Ok(v) => v,
        Err(e) => return Err(e),
    };
    let (n, q) = match get_u64(b, p) {
        Ok(v) => v,
        Err(e) => return Err(e),
    };
    let mut es: Vec<Edge> = Vec::new();
    let mut pos = q;
    let mut i: u64 = 0;
    while i < n
        invariant
            i <= n,
            parse_u64(b@, off as int) == Some((x, p as int)),
            parse_u64(b@, p as int) == Some((n, q as int)),
            parse_edges(b@, q as int, i as nat) == Some((es@, pos as int)),
        decreases n - i,
    {
        let (y, t) = match get_u64(b, pos) {
            Ok(v) => v,
            Err(e) => {
                proof {
                    lemma_parse_edges_stops(b@, q as int, i as nat, n as nat);
                }
                return Err(e);
            },
        };
        let (d, u) = match get_u32(b, t) {
            Ok(v) => v,
            Err(e) => {
                proof {
                    lemma_parse_edges_stops(b@, q as int, i as nat, n as nat);
                }
                return Err(e);
            },
        };
        es.push((y, d));
        pos = u;
        i += 1;
    }
    Ok((x, es, pos))
}

/// Decodes one layer; the flag says whether its node ids were distinct,
/// and only then does the graph hold the layer.
fn read_layer(b: &[u8], off: usize) -> (r: Result<(Graph, bool, usize), DecodeError>)
    ensures
        match parse_layer(b@, off as int) {
            Some((raw, p)) => r matches Ok((g, ok, q)) && q == p && ok == distinct_ids(raw) && (ok
                ==> layer_model(g) == raw && g.keys_wf()),
            None => r is Err,
        },
{
    let (n, p) = match get_u64(b, off) {
        Ok(v) => v,
        Err(e) => return Err(e),
    };
    let mut g = Graph { order: Vec::new(), adj: HashMap::new() };
    let mut ok = true;
    let mut pos = p;
    let mut i: u64 = 0;
    let ghost mut raw: LayerModel = Seq::empty();
    proof {
        assert(layer_model(g) =~= raw);
    }
    while i < n
        invariant
            i <= n,
            parse_u64(b@, off as int) == Some((n, p as int)),
            parse_nodes(b@, p as int, i as nat) == Some((raw, pos as int)),
            ok == distinct_ids(raw),
            ok ==> layer_model(g) == raw && g.keys_wf(),
        decreases n - i,
    {
        let (x, es, q) = match read_node(b, pos) {
            Ok(v) => v,
            Err(e) => {
                proof {
                    lemma_parse_nodes_stops(b@, p as int, i as nat, n as nat);
                }
                return Err(e);
            },
        };
        let ghost es_v = es@;
        let ghost raw0 = raw;
        proof {
            raw = raw.push((x, es_v));
        }
        if ok {
            if g.adj.contains_key(&x) {
                ok = false;
                proof {
                    assert(g.order@.contains(x));
                    let k = choose|k: int| 0 <= k < g.order@.len() && g.order@[k] == x;
                    assert(layer_model(g)[k].0 == x);
                    assert(raw[k].0 == x && raw[raw.len() - 1].0 == x);
                }
            } else {
                let ghost g0 = g;
                g.adj.insert(x, es);
                g.order.push(x);
                proof {
                    assert forall|y: u64| #[trigger] g.adj@.contains_key(y) <==> g.order@.contains(y) by {
                        crate::graph::lemma_push_contains(g0.order@, x, y);
                    }
                    assert forall|a: int, c: int| 0 <= a < c < g.order@.len() implies g.order@[a] != g.order@[c] by {
                        if c == g0.order@.len() {
                            assert(g0.order@.contains(g.order@[a]));
                        } else {
                            assert(g0.order@[a] != g0.order@[c]);
                        }
                    }
                    assert forall|a: int| 0 <= a < g0.order@.len() implies g0.order@[a] != x by {
                        assert(g0.order@.contains(g0.order@[a]));
                    }
                    assert(layer_model(g) =~= raw);
                    assert forall|a: int, c: int| 0 <= a < c < raw.len() implies raw[a].0 != raw[c].0 by {
                        if c == raw.len() - 1 {
                            assert(raw[a] == raw0[a]);
                            assert(raw0[a].0 == g0.order@[a]);
                        } else {
                            assert(raw[a] == raw0[a] && raw[c] == raw0[c]);
                        }
                    }
                }
            }
        } else {
            proof {
                assert(!distinct_ids(raw0));
                let (a, c) = choose|a: int, c: int| 0 <= a < c < raw0.len() && raw0[a].0 == raw0[c].0;
                assert(raw[a] == raw0[a] && raw[c] == raw0[c]);
            }
        }
        pos = q;
        i += 1;
    }
    Ok((g, ok, pos))
}

impl HNSW {
    /// The serialized index.
    pub fn to_bytes(&self) -> (r: Vec<u8>)
        requires
            forall|k: int| 0 <= k < self.layers@.len() ==> (#[trigger] self.layers@[k]).keys_wf(),
        ensures
            r@ == enc_index(self.size, layers_model(self.layers@)),
    {
        let ghost lsm = layers_model(self.layers@);
        let mut out: Vec<u8> = Vec::new();
        put_u32(&mut out, self.size);
        put_u64(&mut out, self.layers.len() as u64);
        let ghost mid = out@;
        let mut i: usize = 0;
        while i < self.layers.len()
            invariant
                forall|k: int| 0 <= k < self.layers@.len() ==> (#[trigger] self.layers@[k]).keys_wf(),
                lsm == layers_model(self.layers@),
                i <= self.layers@.len(),
                out@ == mid + enc_layers(lsm.take(i as int)),
            decreases self.layers@.len() - i,
        {
            write_layer(&self.layers[i], &mut out);
            proof {
                assert(lsm.take(i + 1).drop_last() =~= lsm.take(i as int));
                assert(lsm.take(i + 1).last() == layer_model(self.layers@[i as int]));
            }
            i += 1;
        }
        proof {
            assert(lsm.take(i as int) =~= lsm);
        }
        assert(out@ =~= enc_index(self.size, layers_model(self.layers@)));
        out
    }

    /// Decodes an index. It fails on truncated or malformed input, and on a
    /// layer that lists a node twice.
    pub fn from_bytes(b: &[u8]) -> (r: Result<HNSW, DecodeError>)
        ensures
            match r {
                Ok(h) => {
                    &&& parse_index(b@) matches Some((size, ls, _))
                    &&& h.size == size
                    &&& layers_model(h.layers@) == ls
                    &&& forall|k: int| 0 <= k < h.layers@.len() ==> (#[trigger] h.layers@[k]).keys_wf()
                },
                Err(_) => parse_index(b@) is None,
            },
    {
        let (size, p) = match get_u32(b, 0) {
            Ok(v) => v,
            Err(e) => return Err(e),
        };
        let (n, q) = match get_u64(b, p) {
            Ok(v) => v,
            Err(e) => return Err(e),
        };
        let mut layers: Vec<Graph> = Vec::new();
        let mut ok = true;
        let mut pos = q;
        let mut i: u64 = 0;
        let ghost mut raw: Seq<LayerModel> = Seq::empty();
        while i < n
            invariant
                i <= n,
                parse_u32(b@, 0) == Some((size, p as int)),
                parse_u64(b@, p as int) == Some((n, q as int)),
                parse_layers(b@, q as int, i as nat) == Some((raw, pos as int)),
                ok == forall|t: int| 0 <= t < raw.len() ==> distinct_ids(#[trigger] raw[t]),
                ok ==> layers_model(layers@) == raw,
                ok ==> forall|k: int| 0 <= k < layers@.len() ==> (#[trigger] layers@[k]).keys_wf(),
            decreases n - i,
        {
            let (g, distinct, next) = match read_layer(b, pos) {
                Ok(v) => v,
                Err(e) => {
                    proof {
                        lemma_parse_layers_stops(b@, q as int, i as nat, n as nat);
                    }
                    return Err(e);
                },
            };
            let ghost raw0 = raw;
            let ghost l0 = layers@;
            proof {
                raw = raw.push(layer_model(g));
            }
            if !distinct {
                proof {
                    let (rl, _) = parse_layer(b@, pos as int)->Some_0;
                    raw = raw0.push(rl);
                    assert(!distinct_ids(raw[raw.len() - 1]));
                }
                ok = false;
            } else {
                layers.push(g);
                proof {
                    if ok {
                        assert(layers_model(layers@) =~= raw);
                        assert forall|k: int| 0 <= k < layers@.len() implies (#[trigger] layers@[k]).keys_wf() by {
                            if k < l0.len() {
                                assert(layers@[k] == l0[k]);
                            }
                        }
                    }
                }
            }
            proof {
                assert forall|t: int| 0 <= t < raw0.len() implies raw[t] == raw0[t] by {}
                if ok {
                    assert forall|t: int| 0 <= t < raw.len() implies distinct_ids(#[trigger] raw[t]) by {
                        if t < raw0.len() {
                            assert(raw[t] == raw0[t]);
                        }
                    }
                } else if distinct {
                    let t = choose|t: int| 0 <= t < raw0.len() && !distinct_ids(#[trigger] raw0[t]);
                    assert(raw[t] == raw0[t]);
                }
            }
            pos = next;
            i += 1;
        }
        if !ok {
            return Err(DecodeError { offset: q });
        }
        Ok(HNSW { size, layers })
    }
}

} // verus!
