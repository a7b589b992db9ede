//! Repacking blocks so that nodes close in the graph share a block.
use vstd::prelude::*;

use crate::embedding::{strings_view, Embedding, EmbeddingBlock};
use crate::graph::Graph;
use crate::ledger::LedgerEntry;
use crate::store::{Directory, DirectoryEntry};

verus! {

broadcast use vstd::std_specs::hash::group_hash_axioms;

proof fn lemma_distinct_within(a: Seq<u64>, b: Seq<u64>)
    requires
        a.no_duplicates(),
        b.no_duplicates(),
        forall|i: int| 0 <= i < a.len() ==> b.contains(#[trigger] a[i]),
    ensures
        a.len() <= b.len(),
{
    a.unique_seq_to_set();
    b.unique_seq_to_set();
    assert(a.to_set().subset_of(b.to_set())) by {
        assert forall|x: u64| a.to_set().contains(x) implies b.to_set().contains(x) by {
            let i = choose|i: int| 0 <= i < a.len() && a[i] == x;
        }
    }
    vstd::set_lib::lemma_len_subset(a.to_set(), b.to_set());
}

/// Every node of `g` once: first in depth-first order from its first node,
/// neighbors pushed in ascending distance (so the farthest is visited
/// first), then the nodes that walk did not reach, in insertion order.
pub fn reblock_order(g: &Graph) -> (r: Vec<u64>)
    requires
        g.wf(),
    ensures
        r@.no_duplicates(),
        forall|i: int| 0 <= i < r@.len() ==> g.has_node(#[trigger] r@[i]),
        forall|x: u64| g.has_node(x) ==> #[trigger] r@.contains(x),
        r@.len() == g.order@.len(),
        g.order@.len() > 0 ==> r@.len() > 0 && r@[0] == g.order@[0],
{
    let mut out: Vec<u64> = Vec::new();
    if g.order.len() == 0 {
        return out;
    }
    let mut stack: Vec<u64> = Vec::new();
    stack.push(g.order[0]);
    assert(g.order@.contains(g.order@[0]));
    while stack.len() > 0
        invariant
            g.wf(),
            g.order@.len() > 0,
            out@.no_duplicates(),
            forall|i: int| 0 <= i < out@.len() ==> g.has_node(#[trigger] out@[i]),
            forall|i: int| 0 <= i < stack@.len() ==> g.has_node(#[trigger] stack@[i]),
            out@.len() > 0 ==> out@[0] == g.order@[0],
            out@.len() == 0 ==> stack@.len() == 1 && stack@[0] == g.order@[0],
            out@.len() <= g.order@.len(),
        decreases g.order@.len() - out@.len(), stack@.len(),
    {
        let cur = stack.pop().unwrap();
        let mut seen = false;
        let mut i: usize = 0;
        while i < out.len()
            invariant
                i <= out@.len(),
                !seen ==> forall|j: int| 0 <= j < i ==> out@[j] != cur,
                seen ==> out@.len() > 0,
            decreases out@.len() - i,
        {
            if out[i] == cur {
                seen = true;
            }
            assert(seen ==> out@.len() > 0);
            i += 1;
        }
        if !seen {
            let ghost o0 = out@;
            out.push(cur);
            proof {
                assert forall|a: int, b: int| 0 <= a < b < out@.len() implies out@[a] != out@[b] by {
                    if b == o0.len() {
                        assert(o0[a] != cur);
                    } else {
                        assert(o0[a] != o0[b]);
                    }
                }
                assert forall|t: int| 0 <= t < out@.len() implies g.order@.contains(#[trigger] out@[t]) by {
                    assert(g.has_node(out@[t]));
                }
                lemma_distinct_within(out@, g.order@);
            }
            let nbrs = g.neighbors(cur).unwrap();
            let mut t: usize = 0;
            while t < nbrs.len()
                invariant
                    g.wf(),
                    g.has_node(cur),
                    nbrs@ == g.edges(cur),
                    t <= nbrs@.len(),
                    forall|i: int| 0 <= i < stack@.len() ==> g.has_node(#[trigger] stack@[i]),
                decreases nbrs@.len() - t,
            {
                let n = nbrs[t].0;
                proof {
                    assert(crate::graph::mirrored(g.adj@, cur, g.adj@[cur]@[t as int]));
                }
                stack.push(n);
                t += 1;
            }
        }
    }
    let mut i: usize = 0;
    while i < g.order.len()
        invariant
            g.wf(),
            g.order@.len() > 0,
            i <= g.order@.len(),
            out@.no_duplicates(),
            forall|t: int| 0 <= t < out@.len() ==> g.has_node(#[trigger] out@[t]),
            out@.len() > 0 && out@[0] == g.order@[0],
            forall|j: int| 0 <= j < i ==> out@.contains(#[trigger] g.order@[j]),
        decreases g.order@.len() - i,
    {
        let x = g.order[i];
        let mut seen = false;
        let mut k: usize = 0;
        while k < out.len()
            invariant
                k <= out@.len(),
                seen ==> out@.contains(x),
                !seen ==> forall|j: int| 0 <= j < k ==> out@[j] != x,
            decreases out@.len() - k,
        {
            if out[k] == x {
                seen = true;
            }
            k += 1;
        }
        if !seen {
            let ghost o0 = out@;
            out.push(x);
            proof {
                assert(g.order@.contains(x));
                assert forall|a: int, b: int| 0 <= a < b < out@.len() implies out@[a] != out@[b] by {
                    if b == o0.len() {
                        assert(o0[a] != x);
                    } else {
                        assert(o0[a] != o0[b]);
                    }
                }
                assert forall|j: int| 0 <= j < i + 1 implies out@.contains(#[trigger] g.order@[j]) by {
                    if j < i {
                        let w = choose|w: int| 0 <= w < o0.len() && o0[w] == g.order@[j];
                        assert(out@[w] == g.order@[j]);
                    } else {
                        assert(out@[o0.len() as int] == x);
                    }
                }
            }
        }
        i += 1;
    }
    proof {
        assert forall|x: u64| g.has_node(x) implies #[trigger] out@.contains(x) by {
            assert(g.order@.contains(x));
            let j = choose|j: int| 0 <= j < g.order@.len() && g.order@[j] == x;
            assert(out@.contains(g.order@[j]));
        }
        assert forall|t: int| 0 <= t < out@.len() implies g.order@.contains(#[trigger] out@[t]) by {
            assert(g.has_node(out@[t]));
        }
        lemma_distinct_within(out@, g.order@);
        assert forall|t: int| 0 <= t < g.order@.len() implies out@.contains(#[trigger] g.order@[t]) by {
            assert(g.has_node(g.order@[t]));
        }
        lemma_distinct_within(g.order@, out@);
    }
    out
}

/// Replaces the tags of `e` by those the ledger lists for its file; a
/// file the ledger does not list keeps its tags. Returns whether it was listed.
pub fn apply_ledger_tags(e: &mut Embedding, ledger: &Vec<LedgerEntry>) -> (r: bool)
    ensures
        final(e).id == old(e).id,
        final(e).data == old(e).data,
        final(e).source_file.filepath == old(e).source_file.filepath,
        final(e).source_file.subset == old(e).source_file.subset,
        r == exists|i: int| 0 <= i < ledger@.len() && #[trigger] ledger@[i].filepath@ == old(e).source_file.filepath@,
        r ==> exists|i: int|
            0 <= i < ledger@.len() && #[trigger] ledger@[i].filepath@ == old(e).source_file.filepath@
                && strings_view(final(e).source_file.meta@) == strings_view(ledger@[i].meta@),
        !r ==> final(e).source_file.meta == old(e).source_file.meta,
{
    let mut i: usize = 0;
    while i < ledger.len()
        invariant
            i <= ledger@.len(),
            *e == *old(e),
            forall|j: int| 0 <= j < i ==> #[trigger] ledger@[j].filepath@ != old(e).source_file.filepath@,
        decreases ledger@.len() - i,
    {
        if ledger[i].filepath == e.source_file.filepath {
            let mut meta: Vec<String> = Vec::new();
            let mut k: usize = 0;
            while k < ledger[i].meta.len()
                invariant
                    i < ledger@.len(),
                    k <= ledger@[i as int].meta@.len(),
                    strings_view(meta@) == strings_view(ledger@[i as int].meta@.take(k as int)),
                decreases ledger@[i as int].meta@.len() - k,
            {
                let c = ledger[i].meta[k].clone();
                let ghost m0 = meta@;
                meta.push(c);
                proof {
                    let v = ledger@[i as int].meta@;
                    assert(strings_view(meta@) =~= strings_view(m0).push(c@));
                    assert(v.take(k + 1) =~= v.take(k as int).push(v[k as int]));
                    assert(strings_view(v.take(k + 1)) =~= strings_view(v.take(k as int)).push(v[k as int]@));
                }
                k += 1;
            }
            assert(ledger@[i as int].meta@.take(k as int) =~= ledger@[i as int].meta@);
            e.source_file.meta = meta;
            return true;
        }
        i += 1;
    }
    false
}

/// The directory lines of one block's records: id, path, block number.
pub open spec fn record_lines(es: Seq<Embedding>, block: u64) -> Seq<(u64, Seq<char>, u64)>
    decreases es.len(),
{
    if es.len() == 0 {
        Seq::empty()
    } else {
        record_lines(es.drop_last(), block).push((es.last().id, es.last().source_file.filepath@, block))
    }
}

/// The directory lines of every record of every block, in order.
pub open spec fn block_lines(bs: Seq<EmbeddingBlock>) -> Seq<(u64, Seq<char>, u64)>
    decreases bs.len(),
{
    if bs.len() == 0 {
        Seq::empty()
    } else {
        block_lines(bs.drop_last()) + record_lines(bs.last().embeddings@, bs.last().block)
    }
}

pub open spec fn entry_lines(es: Seq<DirectoryEntry>) -> Seq<(u64, Seq<char>, u64)> {
    es.map_values(|e: DirectoryEntry| (e.id, e.filepath@, e.block))
}

/// The directory of `blocks`: one line per record, with its block number.
pub fn directory_for_blocks(blocks: &Vec<EmbeddingBlock>) -> (r: Directory)
    ensures
        entry_lines(r.entries@) == block_lines(blocks@),
{
    let mut entries: Vec<DirectoryEntry> = Vec::new();
    let mut b: usize = 0;
    assert(entry_lines(entries@) =~= block_lines(blocks@.take(0)));
    while b < blocks.len()
        invariant
            b <= blocks@.len(),
            entry_lines(entries@) == block_lines(blocks@.take(b as int)),
        decreases blocks@.len() - b,
    {
        let ghost e0 = entries@;
        let mut j: usize = 0;
        let ghost es = blocks@[b as int].embeddings@;
        let ghost num = blocks@[b as int].block;
        assert(entry_lines(entries@) =~= entry_lines(e0) + record_lines(es.take(0), num));
        while j < blocks[b].embeddings.len()
            invariant
                b < blocks@.len(),
                es == blocks@[b as int].embeddings@,
                num == blocks@[b as int].block,
                j <= es.len(),
                entry_lines(entries@) == entry_lines(e0) + record_lines(es.take(j as int), num),
            decreases es.len() - j,
        {
            let e = &blocks[b].embeddings[j];
            let d = DirectoryEntry { id: e.id, filepath: e.source_file.filepath.clone(), block: blocks[b].block };
            let ghost before = entries@;
            entries.push(d);
            proof {
                assert(es.take(j + 1).drop_last() =~= es.take(j as int));
                assert(entry_lines(entries@) =~= entry_lines(before).push((d.id, d.filepath@, d.block)));
                assert(entry_lines(entries@) =~= entry_lines(e0) + record_lines(es.take(j + 1), num));
            }
            j += 1;
        }
        proof {
            assert(es.take(j as int) =~= es);
            assert(blocks@.take(b + 1).drop_last() =~= blocks@.take(b as int));
            assert(blocks@.take(b + 1).last() == blocks@[b as int]);
        }
        b += 1;
    }
    assert(blocks@.take(b as int) =~= blocks@);
    Directory { entries }
}

} // verus!
