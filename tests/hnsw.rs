use std::collections::HashMap;

use dewey::embedding::{Embedding, EmbeddingSource};
use dewey::filter::{Filter, FilterComparator};
use dewey::graph::distance_key;
use dewey::hnsw::{log2_floor, QueryError, HNSW};

fn vectors(n: usize) -> Vec<Vec<f32>> {
    (0..n)
        .map(|i| {
            let a = i as f32 * 0.37;
            let v = vec![a.cos(), a.sin(), ((i % 7) as f32) * 0.1];
            let norm = v.iter().map(|x| x * x).sum::<f32>().sqrt();
            v.iter().map(|x| x / norm).collect()
        })
        .collect()
}

fn dot(a: &[f32], b: &[f32]) -> f32 {
    a.iter().zip(b).map(|(x, y)| x * y).sum()
}

fn build(n: usize, levels: Vec<Option<usize>>) -> (HNSW, Vec<Vec<f32>>) {
    let vs = vectors(n);
    let d = |a: u64, b: u64| Some((1.0 - dot(&vs[a as usize], &vs[b as usize])).to_bits());
    let h = HNSW::build(&levels, &d).unwrap();
    (h, vs)
}

fn record(id: u64, tags: &[&str]) -> Embedding {
    Embedding {
        id,
        source_file: EmbeddingSource {
            filepath: format!("/f{}", id),
            meta: tags.iter().map(|t| t.to_string()).collect(),
            subset: None,
        },
        data: vec![],
    }
}

#[test]
fn log2_values() {
    assert_eq!(log2_floor(0), 0);
    assert_eq!(log2_floor(1), 0);
    assert_eq!(log2_floor(2), 1);
    assert_eq!(log2_floor(1023), 9);
    assert_eq!(log2_floor(1024), 10);
}

#[test]
fn distance_keys_order_like_floats() {
    let ds = [-0.5f32, -0.0, 0.0, 1e-7, 0.5, 2.0];
    for w in ds.windows(2) {
        assert!(distance_key(w[0].to_bits()) < distance_key(w[1].to_bits()));
    }
}

#[test]
fn build_layers_nest_and_edges_are_symmetric() {
    let n = 40;
    let levels: Vec<Option<usize>> = (0..n).map(|i| if i % 5 == 0 { Some(i % 3) } else if i % 2 == 0 { Some(4) } else { None }).collect();
    let (h, _) = build(n, levels);
    assert_eq!(h.size, 40);
    assert_eq!(h.layers.len(), 5);
    let bottom = h.layers.last().unwrap();
    assert_eq!(bottom.order.len(), 40);
    for w in h.layers.windows(2) {
        for x in &w[0].order {
            assert!(w[1].adj.contains_key(x));
        }
    }
    for layer in &h.layers {
        for (x, edges) in &layer.adj {
            for w in edges.windows(2) {
                assert!(distance_key(w[0].1) <= distance_key(w[1].1));
            }
            for (y, d) in edges {
                assert!(layer.adj[y].contains(&(*x, *d)));
            }
        }
    }
    assert!(h.is_well_formed());
}

#[test]
fn serialize_round_trip() {
    let (h, _) = build(16, (0..16).map(|i| Some(i % 4)).collect());
    let bytes = h.to_bytes();
    let back = HNSW::from_bytes(&bytes).unwrap();
    assert_eq!(back.size, h.size);
    assert_eq!(back.layers.len(), h.layers.len());
    for (a, b) in back.layers.iter().zip(h.layers.iter()) {
        assert_eq!(a.order, b.order);
        for x in &a.order {
            assert_eq!(a.adj[x], b.adj[x]);
        }
    }
    assert_eq!(back.to_bytes(), bytes);
    assert!(HNSW::from_bytes(&bytes[..bytes.len() - 1]).is_err());
    assert!(HNSW::from_bytes(&[0, 0, 0]).is_err());
}

#[test]
fn query_returns_sorted_top_k() {
    let (h, vs) = build(30, (0..30).map(|i| if i < 3 { Some(0) } else { None }).collect());
    let q = vs[7].clone();
    let probe = |n: u64| Some((record(n, &[]), (1.0 - dot(&q, &vs[n as usize])).to_bits()));
    let r = h.query(&vec![], 5, 50, &probe).unwrap();
    assert!(r.len() <= 5 && !r.is_empty());
    for w in r.windows(2) {
        assert!(f32::from_bits(w[0].1) <= f32::from_bits(w[1].1));
    }
    let mut ids: Vec<u64> = r.iter().map(|(e, _)| e.id).collect();
    ids.sort();
    ids.dedup();
    assert_eq!(ids.len(), r.len());
    for (e, d) in &r {
        assert_eq!(*d, (1.0 - dot(&q, &vs[e.id as usize])).to_bits());
    }
}

#[test]
fn query_rejects_ef_below_k() {
    let (h, _) = build(4, vec![Some(0), None, None, None]);
    let probe = |n: u64| Some((record(n, &[]), 0u32));
    assert!(matches!(h.query(&vec![], 5, 4, &probe), Err(QueryError::InvalidInput)));
}

#[test]
fn query_applies_filters_to_every_tag() {
    let (h, vs) = build(20, (0..20).map(|_| None).collect());
    let tags: HashMap<u64, Vec<&str>> = (0..20u64).map(|i| (i, if i % 2 == 0 { vec!["lang=rust"] } else { vec!["lang=go"] })).collect();
    let q = vs[3].clone();
    let probe = |n: u64| Some((record(n, &tags[&n]), (1.0 - dot(&q, &vs[n as usize])).to_bits()));
    let f = Filter { comparator: FilterComparator::Equal, value: "lang=rust".to_string() };
    let r = h.query(&vec![f], 3, 50, &probe).unwrap();
    for (e, _) in &r {
        assert_eq!(e.source_file.meta, vec!["lang=rust".to_string()]);
    }
}

#[test]
fn remove_node_clears_all_layers() {
    let (mut h, _) = build(12, (0..12).map(|i| Some(i % 3)).collect());
    h.remove_node(4);
    for layer in &h.layers {
        assert!(!layer.adj.contains_key(&4));
        assert!(!layer.order.contains(&4));
        for edges in layer.adj.values() {
            assert!(edges.iter().all(|(y, _)| *y != 4));
        }
    }
    assert!(h.is_well_formed());
}

#[test]
fn queries_agree_after_round_trip() {
    let n = 200;
    let levels: Vec<Option<usize>> = (0..n).map(|i| if i % 9 == 0 { Some(i % 7) } else if i % 2 == 0 { Some(6) } else { None }).collect();
    let (h, vs) = build(n, levels);
    let back = HNSW::from_bytes(&h.to_bytes()).unwrap();
    for q in 0..20 {
        let qv = vs[(q * 7) % n].clone();
        let probe = |m: u64| Some((record(m, &[]), (1.0 - dot(&qv, &vs[m as usize])).to_bits()));
        let a: Vec<u64> = h.query(&vec![], 10, 50, &probe).unwrap().iter().map(|(e, _)| e.id).collect();
        let b: Vec<u64> = back.query(&vec![], 10, 50, &probe).unwrap().iter().map(|(e, _)| e.id).collect();
        assert_eq!(a, b);
    }
}

#[test]
fn reblock_order_emits_every_node_once() {
    let (h, _) = build(30, (0..30).map(|i| if i % 4 == 0 { Some(0) } else { None }).collect());
    let bottom = h.layers.last().unwrap();
    let order = dewey::reblock::reblock_order(bottom);
    assert_eq!(order.len(), 30);
    assert_eq!(order[0], bottom.order[0]);
    let mut sorted = order.clone();
    sorted.sort();
    sorted.dedup();
    assert_eq!(sorted.len(), 30);
}

#[test]
fn probe_with_wrong_record_is_not_found() {
    let (h, vs) = build(8, (0..8).map(|i| if i < 3 { Some(0) } else { None }).collect());
    let probe = |n: u64| Some((record(n + 1, &[]), (1.0 - dot(&vs[0], &vs[n as usize])).to_bits()));
    assert!(matches!(h.query(&vec![], 2, 10, &probe), Err(QueryError::NotFound(_))));
}

#[test]
fn empty_top_layer_gives_no_results() {
    let (h, _) = build(8, (0..8).map(|_| None).collect());
    let probe = |n: u64| Some((record(n, &[]), 0u32));
    assert_eq!(h.query(&vec![], 2, 10, &probe).unwrap().len(), 0);
}
