//! A block-aware LRU cache of embedding records.
//!
//! A miss loads the whole block that holds the record (through a loader the
//! caller supplies), evicting least-recently-used records to make room.
use vstd::prelude::*;
use std::collections::HashMap;
use std::collections::HashSet;

use crate::embedding::{strings_view, Embedding, EmbeddingBlock, EmbeddingSource, BLOCK_SIZE};

verus! {

broadcast use vstd::std_specs::hash::group_hash_axioms;

/// A list kept in recency order: the front is the most recent element.
#[derive(Debug)]
pub struct LinkedList<T> {
    items: Vec<T>,
}

/// A position in a `LinkedList`, counted from the front.
#[derive(Debug, Clone, Copy)]
pub struct Node {
    pub index: usize,
}

/// Walks a list from front to back by position.
#[derive(Debug, Clone, Copy)]
pub struct Iter {
    pub front: usize,
    pub len: usize,
}

impl<T> View for LinkedList<T> {
    type V = Seq<T>;

    closed spec fn view(&self) -> Seq<T> {
        self.items@
    }
}

impl<T> LinkedList<T> {
    pub fn new() -> (r: LinkedList<T>)
        ensures
            r@ == Seq::<T>::empty(),
    {
        LinkedList { items: Vec::new() }
    }

    pub fn len(&self) -> (r: usize)
        ensures
            r == self@.len(),
    {
        self.items.len()
    }

    /// Puts `elem` in front and returns its position.
    pub fn push_front(&mut self, elem: T) -> (r: Node)
        ensures
            final(self)@ == seq![elem] + old(self)@,
            r.index == 0,
    {
        self.items.insert(0, elem);
        assert(self@ =~= seq![elem] + old(self)@);
        Node { index: 0 }
    }

    /// Takes the back (least recent) element off.
    pub fn pop_back(&mut self) -> (r: Option<T>)
        ensures
            old(self)@.len() == 0 ==> r is None && final(self)@ == old(self)@,
            old(self)@.len() > 0 ==> r == Some(old(self)@.last()) && final(self)@ == old(self)@.drop_last(),
    {
        self.items.pop()
    }

    /// Takes out the element at `node`.
    pub fn detach(&mut self, node: Node) -> (r: T)
        requires
            node.index < old(self)@.len(),
        ensures
            r == old(self)@[node.index as int],
            final(self)@ == old(self)@.remove(node.index as int),
    {
        self.items.remove(node.index)
    }

    /// The element at `node`.
    pub fn get(&self, node: Node) -> (r: &T)
        requires
            node.index < self@.len(),
        ensures
            *r == self@[node.index as int],
    {
        &self.items[node.index]
    }

    /// A walk over the whole list, front first.
    pub fn iter(&self) -> (r: Iter)
        ensures
            r.front == 0 && r.len == self@.len(),
    {
        Iter { front: 0, len: self.items.len() }
    }

    /// A walk over the whole list, front first, for updating in place.
    pub fn iter_mut(&mut self) -> (r: Iter)
        ensures
            r.front == 0 && r.len == old(self)@.len(),
            final(self)@ == old(self)@,
    {
        Iter { front: 0, len: self.items.len() }
    }
}

impl Iter {
    /// The next position of the walk.
    pub fn next(&mut self) -> (r: Option<Node>)
        ensures
            old(self).front < old(self).len ==> r == Some(Node { index: old(self).front })
                && final(self).front == old(self).front + 1 && final(self).len == old(self).len,
            old(self).front >= old(self).len ==> r is None && *final(self) == *old(self),
    {
        if self.front < self.len {
            let n = Node { index: self.front };
            self.front = self.front + 1;
            Some(n)
        } else {
            None
        }
    }
}

fn position_of(list: &LinkedList<u64>, x: u64) -> (r: Option<Node>)
    ensures
        match r {
            Some(n) => n.index < list@.len() && list@[n.index as int] == x,
            None => !list@.contains(x),
        },
{
    let mut it = list.iter();
    loop
        invariant
            it.len == list@.len(),
            it.front <= it.len,
            forall|j: int| 0 <= j < it.front ==> list@[j] != x,
        decreases it.len - it.front,
    {
        match it.next() {
            Some(n) => {
                if *list.get(n) == x {
                    return Some(n);
                }
            },
            None => {
                return None;
            },
        }
    }
}

impl Embedding {
    /// A copy of this record.
    pub fn duplicate(&self) -> (r: Embedding)
        ensures
            r@ == self@,
    {
        let mut meta: Vec<String> = Vec::new();
        let mut i: usize = 0;
        while i < self.source_file.meta.len()
            invariant
                i <= self.source_file.meta@.len(),
                strings_view(meta@) == strings_view(self.source_file.meta@.take(i as int)),
            decreases self.source_file.meta@.len() - i,
        {
            let c = self.source_file.meta[i].clone();
            let ghost m0 = meta@;
            meta.push(c);
            proof {
                let v = self.source_file.meta@;
                assert(strings_view(meta@) =~= strings_view(m0).push(c@));
                assert(v.take(i + 1) =~= v.take(i as int).push(v[i as int]));
                assert(strings_view(v.take(i + 1)) =~= strings_view(v.take(i as int)).push(v[i as int]@));
            }
            i += 1;
        }
        assert(self.source_file.meta@.take(i as int) =~= self.source_file.meta@);
        let mut data: Vec<u32> = Vec::new();
        let mut j: usize = 0;
        while j < self.data.len()
            invariant
                j <= self.data@.len(),
                data@ == self.data@.take(j as int),
            decreases self.data@.len() - j,
        {
            data.push(self.data[j]);
            assert(data@ =~= self.data@.take(j + 1));
            j += 1;
        }
        assert(data@ =~= self.data@);
        let r = Embedding {
            id: self.id,
            source_file: EmbeddingSource {
                filepath: self.source_file.filepath.clone(),
                meta,
                subset: self.source_file.subset,
            },
            data,
        };
        assert(r.source_file@.meta =~= self.source_file@.meta);
        r
    }
}

/// Why a record could not be had.
#[derive(Debug, Clone, Copy, PartialEq, Eq, Structural)]
pub enum CacheError {
    /// The id is not in the directory, or not in the block it names.
    NotFound(u64),
    /// The block could not be read.
    BlockUnavailable(u64),
}

/// The cache: records by id, their recency, the directory of blocks, and
/// the ids whose records may be stale.
pub struct EmbeddingCache {
    lru: LinkedList<u64>,
    embeddings: HashMap<u64, Embedding>,
    directory: HashMap<u64, u64>,
    dirty_embeddings: HashSet<u64>,
    max_size: usize,
    loads: usize,
}

impl EmbeddingCache {
    /// The cached ids are the ids in the recency list, each once, and there
    /// are at most `max_size` of them.
    pub closed spec fn wf(&self) -> bool {
        &&& self.lru@.no_duplicates()
        &&& forall|x: u64| #[trigger] self.embeddings@.contains_key(x) <==> self.lru@.contains(x)
        &&& self.lru@.len() <= self.max_size
        &&& self.max_size >= BLOCK_SIZE
        &&& forall|x: u64| #[trigger] self.embeddings@.contains_key(x) ==> self.embeddings@[x].id == x
    }

    pub closed spec fn recency(&self) -> Seq<u64> {
        self.lru@
    }

    pub closed spec fn records(&self) -> Map<u64, Embedding> {
        self.embeddings@
    }

    pub closed spec fn dirs(&self) -> Map<u64, u64> {
        self.directory@
    }

    pub closed spec fn dirty(&self) -> Set<u64> {
        self.dirty_embeddings@
    }

    pub closed spec fn capacity(&self) -> nat {
        self.max_size as nat
    }

    pub closed spec fn cached(&self, id: u64) -> bool {
        self.embeddings@.contains_key(id)
    }

    pub closed spec fn record(&self, id: u64) -> Embedding {
        self.embeddings@[id]
    }

    pub closed spec fn is_dirty(&self, id: u64) -> bool {
        self.dirty_embeddings@.contains(id)
    }

    pub closed spec fn block_loads(&self) -> nat {
        self.loads as nat
    }

    pub closed spec fn block_of(&self, id: u64) -> Option<u64> {
        if self.directory@.contains_key(id) {
            Some(self.directory@[id])
        } else {
            None
        }
    }

    /// An empty cache over `directory` (id, block). `max_size` must hold a
    /// whole block.
    pub fn new(max_size: usize, directory: &Vec<(u64, u64)>) -> (r: EmbeddingCache)
        requires
            max_size >= BLOCK_SIZE,
        ensures
            r.wf(),
            r.recency().len() == 0,
            r.block_loads() == 0,
            forall|id: u64| !r.is_dirty(id),
            forall|id: u64|
                #[trigger] r.block_of(id) is Some <==> exists|i: int| 0 <= i < directory@.len() && directory@[i].0 == id,
            forall|id: u64|
                #[trigger] r.block_of(id) is Some ==> exists|i: int|
                    0 <= i < directory@.len() && directory@[i] == (id, r.block_of(id)->Some_0) && forall|j: int|
                        i < j < directory@.len() ==> directory@[j].0 != id,
    {
        let mut map: HashMap<u64, u64> = HashMap::new();
        let mut i: usize = 0;
        while i < directory.len()
            invariant
                i <= directory@.len(),
                forall|id: u64|
                    #[trigger] map@.contains_key(id) <==> exists|j: int| 0 <= j < i && directory@[j].0 == id,
                forall|id: u64|
                    #[trigger] map@.contains_key(id) ==> exists|j: int|
                        0 <= j < i && directory@[j] == (id, map@[id]) && forall|t: int| j < t < i ==> directory@[t].0 != id,
            decreases directory@.len() - i,
        {
            let (id, block) = directory[i];
            let ghost old_map = map@;
            map.insert(id, block);
            proof {
                assert forall|x: u64| #[trigger] map@.contains_key(x) <==> exists|j: int| 0 <= j < i + 1 && directory@[j].0 == x by {
                    if x == id {
                        assert(directory@[i as int].0 == x);
                    }
                }
                assert forall|x: u64| #[trigger] map@.contains_key(x) implies exists|j: int|
                    0 <= j < i + 1 && directory@[j] == (x, map@[x]) && forall|t: int| j < t < i + 1 ==> directory@[t].0 != x by {
                    if x == id {
                        assert(directory@[i as int] == (x, map@[x]));
                    } else {
                        let j = choose|j: int|
                            0 <= j < i && directory@[j] == (x, old_map[x]) && forall|t: int| j < t < i ==> directory@[t].0 != x;
                        assert(directory@[j] == (x, map@[x]));
                    }
                }
            }
            i += 1;
        }
        EmbeddingCache {
            lru: LinkedList::new(),
            embeddings: HashMap::new(),
            directory: map,
            dirty_embeddings: HashSet::new(),
            max_size,
            loads: 0,
        }
    }

    /// How many blocks have been loaded so far.
    pub fn loads(&self) -> (r: usize)
        ensures
            r == self.block_loads(),
    {
        self.loads
    }

    /// Flags `ids` as possibly stale; their next `get` reloads their block.
    pub fn mark_dirty(&mut self, ids: &Vec<u64>)
        requires
            old(self).wf(),
        ensures
            final(self).wf(),
            forall|id: u64| #[trigger] final(self).is_dirty(id) <==> old(self).is_dirty(id) || ids@.contains(id),
            final(self).records() == old(self).records(),
            final(self).recency() == old(self).recency(),
            final(self).dirs() == old(self).dirs(),
            final(self).block_loads() == old(self).block_loads(),
    {
        let mut i: usize = 0;
        while i < ids.len()
            invariant
                i <= ids@.len(),
                self.wf(),
                self.embeddings@ == old(self).embeddings@,
                self.lru@ == old(self).lru@,
                self.directory@ == old(self).directory@,
                self.max_size == old(self).max_size,
                self.loads == old(self).loads,
                forall|id: u64| #[trigger] self.dirty_embeddings@.contains(id) <==> old(self).dirty_embeddings@.contains(id) || ids@.take(i as int).contains(id),
            decreases ids@.len() - i,
        {
            let ghost d0 = self.dirty_embeddings@;
            self.dirty_embeddings.insert(ids[i]);
            proof {
                assert(self.dirty_embeddings@ == d0.insert(ids@[i as int]));
                assert forall|id: u64| #[trigger] self.dirty_embeddings@.contains(id) <==> old(self).dirty_embeddings@.contains(id) || ids@.take(i + 1).contains(id) by {
                    crate::graph::lemma_push_contains(ids@.take(i as int), ids@[i as int], id);
                    assert(ids@.take(i + 1) =~= ids@.take(i as int).push(ids@[i as int]));
                }
            }
            i += 1;
        }
        assert(ids@.take(i as int) =~= ids@);
    }

    /// Makes `id` the most recent entry; it must be cached.
    fn touch(&mut self, id: u64)
        requires
            old(self).wf(),
            old(self).cached(id),
        ensures
            final(self).wf(),
            final(self).lru@[0] == id,
            final(self).lru@.len() == old(self).lru@.len(),
            final(self).embeddings@ == old(self).embeddings@,
            final(self).directory@ == old(self).directory@,
            final(self).dirty_embeddings@ == old(self).dirty_embeddings@,
            final(self).loads == old(self).loads,
            final(self).max_size == old(self).max_size,
    {
        let node = position_of(&self.lru, id).unwrap();
        let ghost l0 = self.lru@;
        self.lru.detach(node);
        let ghost l1 = self.lru@;
        self.lru.push_front(id);
        proof {
            let l2 = self.lru@;
            assert forall|x: u64| #[trigger] self.embeddings@.contains_key(x) <==> l2.contains(x) by {
                if x == id {
                    assert(l2[0] == id);
                } else {
                    if l0.contains(x) {
                        let k = choose|k: int| 0 <= k < l0.len() && l0[k] == x;
                        if k < node.index {
                            assert(l1[k] == x);
                            assert(l2[k + 1] == x);
                        } else {
                            assert(k != node.index);
                            assert(l1[k - 1] == x);
                            assert(l2[k] == x);
                        }
                    }
                    if l2.contains(x) {
                        let k = choose|k: int| 0 <= k < l2.len() && l2[k] == x;
                        assert(k > 0);
                        assert(l1[k - 1] == x);
                        if k - 1 < node.index {
                            assert(l0[k - 1] == x);
                        } else {
                            assert(l0[k] == x);
                        }
                    }
                }
            }
            assert forall|a: int, b: int| 0 <= a < b < l2.len() implies l2[a] != l2[b] by {
                let ia = if a == 0 { node.index as int } else if a - 1 < node.index { a - 1 } else { a };
                let ib = if b - 1 < node.index { b - 1 } else { b };
                assert(l2[b] == l0[ib]);
                assert(l2[a] == l0[ia]);
            }
        }
    }

    /// Removes `id` from the cache, if it is there.
    fn forget(&mut self, id: u64)
        requires
            old(self).wf(),
        ensures
            final(self).wf(),
            !final(self).cached(id),
            final(self).lru@.len() <= old(self).lru@.len(),
            forall|t: int|
                0 <= t < old(self).lru@.len() && (forall|s: int| 0 <= s <= t ==> old(self).lru@[s] != id)
                    ==> t < final(self).lru@.len() && #[trigger] final(self).lru@[t] == old(self).lru@[t],
            forall|x: u64| x != id && old(self).embeddings@.contains_key(x) ==> #[trigger] final(self).embeddings@.contains_key(x)
                && final(self).embeddings@[x] == old(self).embeddings@[x],
            final(self).directory@ == old(self).directory@,
            final(self).dirty_embeddings@ == old(self).dirty_embeddings@,
            final(self).loads == old(self).loads,
            final(self).max_size == old(self).max_size,
    {
        match position_of(&self.lru, id) {
            Some(node) => {
                let ghost l0 = self.lru@;
                self.lru.detach(node);
                self.embeddings.remove(&id);
                proof {
                    lemma_remove_no_dup(l0, node.index as int);
                    assert forall|t: int|
                        0 <= t < l0.len() && (forall|s: int| 0 <= s <= t ==> l0[s] != id)
                            implies t < self.lru@.len() && #[trigger] self.lru@[t] == l0[t] by {
                        if t >= node.index {
                            assert(l0[node.index as int] == id);
                        }
                    }
                }
            },
            None => {
                proof {
                    assert(!self.embeddings@.contains_key(id));
                }
            },
        }
    }

    /// Puts the records of `block` into the cache, evicting the least recent
    /// ones while the cache is full.
    fn insert_block(&mut self, block: EmbeddingBlock)
        requires
            old(self).wf(),
        ensures
            final(self).wf(),
            final(self).directory@ == old(self).directory@,
            final(self).dirty_embeddings@ == old(self).dirty_embeddings@,
            final(self).loads == old(self).loads,
            final(self).max_size == old(self).max_size,
            old(self).lru@.len() + block.embeddings@.len() <= old(self).max_size ==> keeps_others(
                old(self).embeddings@,
                final(self).embeddings@,
                block.embeddings@,
            ),
            block.embeddings@.len() <= old(self).max_size && distinct_ids(block.embeddings@) ==> holds_records(
                final(self).embeddings@,
                block.embeddings@,
                0,
            ),
    {
        let ghost all = block.embeddings@;
        let ghost n = all.len() as int;
        let ghost fits = block.embeddings@.len() <= self.max_size && distinct_ids(block.embeddings@);
        let ghost room = self.lru@.len() + block.embeddings@.len() <= self.max_size;
        let mut items = block.embeddings;
        while items.len() > 0
            invariant
                self.wf(),
                self.directory@ == old(self).directory@,
                self.dirty_embeddings@ == old(self).dirty_embeddings@,
                self.loads == old(self).loads,
                self.max_size == old(self).max_size,
                n == all.len(),
                items@ == all.take(items@.len() as int),
                items@.len() <= n,
                fits == (all.len() <= self.max_size && distinct_ids(all)),
                fits ==> self.lru@.len() >= n - items@.len(),
                fits ==> forall|t: int|
                    0 <= t < n - items@.len() ==> #[trigger] self.lru@[t] == all[items@.len() + t].id,
                fits ==> holds_records(self.embeddings@, all, items@.len() as int),
                room == (old(self).lru@.len() + all.len() <= old(self).max_size),
                room ==> self.lru@.len() + items@.len() <= self.max_size,
                room ==> keeps_others(old(self).embeddings@, self.embeddings@, all),
            decreases items@.len(),
        {
            let ghost k = items@.len() as int;
            let ghost before = *self;
            let e = items.pop().unwrap();
            proof {
                assert(e == all[k - 1]);
                assert(items@ =~= all.take(k - 1));
            }
            let id = e.id;
            let ghost bf = self.embeddings@;
            self.forget(id);
            proof {
                if room {
                    assert forall|x: u64| #[trigger] old(self).embeddings@.contains_key(x) && (forall|t: int|
                        0 <= t < all.len() ==> all[t].id != x) implies self.embeddings@.contains_key(x)
                        && self.embeddings@[x] == old(self).embeddings@[x] by {
                        assert(all[k - 1].id == id);
                        assert(bf.contains_key(x));
                    }
                }
                if fits {
                    assert forall|t: int| 0 <= t < n - k implies before.lru@[t] != id by {
                        assert(before.lru@[t] == all[k + t].id);
                        assert(k - 1 != k + t);
                    }
                    assert forall|t: int| 0 <= t < n - k implies t < self.lru@.len() && #[trigger] self.lru@[t] == all[k + t].id by {
                        assert(t < before.lru@.len());
                        assert(forall|s: int| 0 <= s <= t ==> before.lru@[s] != id);
                        assert(self.lru@[t] == before.lru@[t]);
                    }
                    if n - k > 0 {
                        assert(self.lru@[n - k - 1] == all[k + (n - k - 1)].id);
                    }
                    assert(self.lru@.len() >= n - k);
                    assert forall|t: int| k <= t < n implies #[trigger] self.embeddings@.contains_key(all[t].id)
                        && self.embeddings@[all[t].id] == all[t] by {
                        assert(all[t].id != id);
                        assert(before.embeddings@.contains_key(all[t].id));
                    }
                }
            }
            let ghost mid = *self;
            if self.lru.len() >= self.max_size {
                let ghost l0 = self.lru@;
                match self.lru.pop_back() {
                    Some(old_id) => {
                        self.embeddings.remove(&old_id);
                        proof {
                            lemma_remove_no_dup(l0, l0.len() - 1);
                            assert(l0.drop_last() =~= l0.remove(l0.len() - 1));
                            if fits {
                                assert(l0.len() - 1 >= n - k);
                                assert forall|t: int| k <= t < n implies old_id != all[t].id by {
                                    assert(l0[(t - k)] == all[t].id);
                                    assert(l0[l0.len() - 1] == old_id);
                                }
                                assert forall|t: int| 0 <= t < n - k implies #[trigger] self.lru@[t] == all[k + t].id by {
                                    assert(self.lru@[t] == l0[t]);
                                }
                                assert forall|t: int| k <= t < n implies #[trigger] self.embeddings@.contains_key(all[t].id)
                                    && self.embeddings@[all[t].id] == all[t] by {
                                    assert(mid.embeddings@.contains_key(all[t].id));
                                }
                            }
                        }
                    },
                    None => {},
                }
            }
            proof {
                if fits {
                    assert(self.lru@.len() >= n - k);
                    assert(forall|t: int| 0 <= t < n - k ==> #[trigger] self.lru@[t] == all[k + t].id);
                    assert(forall|t: int| k <= t < n ==> #[trigger] self.embeddings@.contains_key(all[t].id)
                        && self.embeddings@[all[t].id] == all[t]);
                }
            }
            let ghost l1 = self.lru@;
            let ghost m1 = self.embeddings@;
            let ghost ev = e;
            self.lru.push_front(id);
            self.embeddings.insert(id, e);
            proof {
                if room {
                    assert forall|x: u64| #[trigger] old(self).embeddings@.contains_key(x) && (forall|t: int|
                        0 <= t < all.len() ==> all[t].id != x) implies self.embeddings@.contains_key(x)
                        && self.embeddings@[x] == old(self).embeddings@[x] by {
                        assert(all[k - 1].id == id);
                        assert(m1.contains_key(x));
                    }
                }
                if fits {
                    assert(forall|t: int| 0 <= t < n - k ==> #[trigger] l1[t] == all[k + t].id);
                    assert forall|t: int| 0 <= t < n - (k - 1) implies #[trigger] self.lru@[t] == all[(k - 1) + t].id by {
                        if t > 0 {
                            assert(self.lru@[t] == l1[t - 1]);
                            assert(l1[t - 1] == all[k + (t - 1)].id);
                        }
                    }
                    assert forall|t: int| k - 1 <= t < n implies #[trigger] self.embeddings@.contains_key(all[t].id)
                        && self.embeddings@[all[t].id] == all[t] by {
                        if t > k - 1 {
                            assert(all[t].id != id);
                            assert(m1.contains_key(all[t].id) && m1[all[t].id] == all[t]);
                        } else {
                            assert(ev == all[t]);
                        }
                    }
                    assert(self.lru@.len() >= n - (k - 1));
                }
                assert(!l1.contains(id));
                let l2 = self.lru@;
                assert forall|x: u64| #[trigger] self.embeddings@.contains_key(x) <==> l2.contains(x) by {
                    assert(l2 == seq![id] + l1);
                    if l1.contains(x) {
                        let k = choose|k: int| 0 <= k < l1.len() && l1[k] == x;
                        assert(l2[k + 1] == x);
                    }
                    if l2.contains(x) && x != id {
                        let k = choose|k: int| 0 <= k < l2.len() && l2[k] == x;
                        assert(l1[k - 1] == x);
                    }
                    if x == id {
                        assert(l2[0] == id);
                    }
                }
                assert forall|a: int, b: int| 0 <= a < b < l2.len() implies l2[a] != l2[b] by {
                    if a == 0 {
                        assert(l1.contains(l2[b]));
                    } else {
                        assert(l2[a] == l1[a - 1] && l2[b] == l1[b - 1]);
                    }
                }
            }
            assert(fits ==> holds_records(self.embeddings@, all, items@.len() as int));
        }
        proof {
            if fits {
                assert(items@.len() == 0);
                assert(holds_records(self.embeddings@, all, 0));
                assert forall|t: int| 0 <= t < all.len() implies #[trigger] self.embeddings@.contains_key(all[t].id)
                    && self.embeddings@[all[t].id] == all[t] by {}
            }
            assert(all == block.embeddings@);
            assert(fits == (block.embeddings@.len() <= old(self).max_size && distinct_ids(block.embeddings@)));
        }
    }

    /// The record of `id`. A clean cached record is returned as it is, with
    /// no block read. Otherwise the record's block is read through `load`,
    /// the requested record is taken from it, and the whole block enters the
    /// cache (evicting the least recent records); its dirty mark is cleared.
    /// In every case `id` becomes the most recent entry when it is cached.
    pub fn get<L: Fn(u64) -> Option<EmbeddingBlock>>(&mut self, id: u64, load: &L) -> (r: Result<Embedding, CacheError>)
        requires
            old(self).wf(),
            forall|b: u64| load.requires((b,)),
        ensures
            final(self).wf(),
            final(self).dirs() == old(self).dirs(),
            old(self).block_of(id) is None && !(old(self).cached(id) && !old(self).is_dirty(id)) ==> r
                == Err::<Embedding, CacheError>(CacheError::NotFound(id)),
            old(self).cached(id) && !old(self).is_dirty(id) ==> {
                &&& r matches Ok(e) && e@ == old(self).record(id)@
                &&& final(self).block_loads() == old(self).block_loads()
                &&& final(self).recency()[0] == id
            },
            r matches Ok(e) ==> e.id == id && (old(self).cached(id) && !old(self).is_dirty(id)
                || exists|blk: EmbeddingBlock, i: int|
                call_ensures(*load, (old(self).block_of(id)->Some_0,), Some(blk)) && 0 <= i < blk.embeddings@.len()
                    && #[trigger] blk.embeddings@[i]@ == e@),
            !final(self).is_dirty(id) || final(self).dirty() == old(self).dirty(),
            r is Ok && !(old(self).cached(id) && !old(self).is_dirty(id)) ==> exists|blk: EmbeddingBlock|
                call_ensures(*load, (old(self).block_of(id)->Some_0,), Some(blk)) && (blk.embeddings@.len()
                    <= old(self).capacity() && distinct_ids(blk.embeddings@) ==> #[trigger] holds_records(
                    final(self).records(),
                    blk.embeddings@,
                    0,
                )) && (old(self).recency().len() + blk.embeddings@.len() <= old(self).capacity() ==> keeps_others(
                    old(self).records(),
                    final(self).records(),
                    blk.embeddings@,
                )),
            final(self).block_loads() <= old(self).block_loads() + 1,
            old(self).block_of(id) is None && !(old(self).cached(id) && !old(self).is_dirty(id)) ==> *final(self)
                == *old(self),
            r matches Err(CacheError::BlockUnavailable(b)) ==> (old(self).block_of(id) == Some(b)
                && call_ensures(*load, (b,), None) && *final(self) == *old(self)),
            (r == Err::<Embedding, CacheError>(CacheError::NotFound(id)) && old(self).block_of(id) is Some)
                ==> exists|blk: EmbeddingBlock|
                call_ensures(*load, (old(self).block_of(id)->Some_0,), Some(blk)) && forall|i: int|
                    0 <= i < blk.embeddings@.len() ==> (#[trigger] blk.embeddings@[i]).id != id,
            (old(self).block_of(id) matches Some(b) && block_yields(*load, b, id)) ==> r is Ok,
    {
        if self.embeddings.contains_key(&id) && !self.dirty_embeddings.contains(&id) {
            let e = self.embeddings.get(&id).unwrap().duplicate();
            self.touch(id);
            return Ok(e);
        }
        let block_no = match self.directory.get(&id) {
            Some(b) => *b,
            None => return Err(CacheError::NotFound(id)),
        };
        let block = match load(block_no) {
            Some(b) => b,
            None => {
                proof {
                    assert(self.block_of(id) == Some(block_no));
                    assert(call_ensures(*load, (block_no,), None::<EmbeddingBlock>));
                    assert(!block_yields(*load, block_no, id));
                }
                return Err(CacheError::BlockUnavailable(block_no));
            },
        };
        let ghost blk = block;
        let mut found: Option<Embedding> = None;
        let mut i: usize = 0;
        while i < block.embeddings.len()
            invariant
                blk == block,
                i <= block.embeddings@.len(),
                found matches Some(e) ==> e.id == id && exists|j: int| 0 <= j < block.embeddings@.len() && #[trigger] block.embeddings@[j]@ == e@,
                found is None ==> forall|j: int| 0 <= j < i ==> (#[trigger] block.embeddings@[j]).id != id,
            decreases block.embeddings@.len() - i,
        {
            if found.is_none() && block.embeddings[i].id == id {
                found = Some(block.embeddings[i].duplicate());
                proof {
                    assert(block.embeddings@[i as int]@ == found->Some_0@);
                }
            }
            i += 1;
        }
        self.loads = if self.loads < usize::MAX {
            self.loads + 1
        } else {
            self.loads
        };
        self.insert_block(block);
        self.dirty_embeddings.remove(&id);
        let ghost after_insert = self.embeddings@;
        match found {
            Some(e) => {
                if self.embeddings.contains_key(&id) {
                    self.touch(id);
                }
                proof {
                    assert(self.embeddings@ == after_insert);
                    assert(call_ensures(*load, (block_no,), Some(blk)));
                    assert(keeps_others(old(self).embeddings@, self.embeddings@, blk.embeddings@) == keeps_others(old(self).records(), self.records(), blk.embeddings@));
                    assert(holds_records(self.embeddings@, blk.embeddings@, 0) == holds_records(self.records(), blk.embeddings@, 0));
                    let j = choose|j: int| 0 <= j < blk.embeddings@.len() && #[trigger] blk.embeddings@[j]@ == e@;
                    assert(call_ensures(*load, (block_no,), Some(blk)));
                }
                Ok(e)
            },
            None => {
                proof {
                    assert(call_ensures(*load, (block_no,), Some(blk)));
                    assert(!block_yields(*load, block_no, id));
                }
                Err(CacheError::NotFound(id))
            },
        }
    }
}

/// Every block `load` can return for `b` holds a record with id `id`.
pub open spec fn block_yields<L: Fn(u64) -> Option<EmbeddingBlock>>(load: L, b: u64, id: u64) -> bool {
    forall|o: Option<EmbeddingBlock>|
        #[trigger] call_ensures(load, (b,), o) ==> (o matches Some(blk) && exists|i: int|
            0 <= i < blk.embeddings@.len() && (#[trigger] blk.embeddings@[i]).id == id)
}

/// `m` holds every record of `all` from position `from` on, under its id.
pub open spec fn holds_records(m: Map<u64, Embedding>, all: Seq<Embedding>, from: int) -> bool {
    forall|t: int| from <= t < all.len() ==> #[trigger] m.contains_key(all[t].id) && m[all[t].id] == all[t]
}

/// Every record of `before` whose id no record of `block` carries is still
/// in `after`, unchanged.
pub open spec fn keeps_others(before: Map<u64, Embedding>, after: Map<u64, Embedding>, block: Seq<Embedding>) -> bool {
    forall|x: u64|
        #[trigger] before.contains_key(x) && (forall|t: int| 0 <= t < block.len() ==> block[t].id != x)
            ==> after.contains_key(x) && after[x] == before[x]
}

/// The records of a block carry distinct ids.
pub open spec fn distinct_ids(es: Seq<Embedding>) -> bool {
    forall|a: int, b: int| 0 <= a < b < es.len() ==> es[a].id != es[b].id
}

proof fn lemma_remove_no_dup(l: Seq<u64>, i: int)
    requires
        l.no_duplicates(),
        0 <= i < l.len(),
    ensures
        l.remove(i).no_duplicates(),
        forall|x: u64| #[trigger] l.remove(i).contains(x) <==> l.contains(x) && x != l[i],
{
    let r = l.remove(i);
    assert forall|a: int, b: int| 0 <= a < b < r.len() implies r[a] != r[b] by {
        let ia = if a < i { a } else { a + 1 };
        let ib = if b < i { b } else { b + 1 };
        assert(r[a] == l[ia] && r[b] == l[ib]);
    }
    assert forall|x: u64| #[trigger] r.contains(x) <==> l.contains(x) && x != l[i] by {
        if r.contains(x) {
            let k = choose|k: int| 0 <= k < r.len() && r[k] == x;
            let ik = if k < i { k } else { k + 1 };
            assert(l[ik] == x);
        }
        if l.contains(x) && x != l[i] {
            let k = choose|k: int| 0 <= k < l.len() && l[k] == x;
            assert(k != i);
            let rk = if k < i { k } else { k - 1 };
            assert(r[rk] == x);
        }
    }
}

/// Once a block that fits the cache has been loaded, each of its records is
/// cached as it was read; until another load evicts it, `get` serves it
/// (when clean) with no block read.
pub proof fn lemma_loaded_block_is_cached(c: EmbeddingCache, blk: Seq<Embedding>, i: int)
    requires
        holds_records(c.records(), blk, 0),
        0 <= i < blk.len(),
    ensures
        c.cached(blk[i].id),
        c.record(blk[i].id) == blk[i],
{
    assert(c.records().contains_key(blk[i].id));
}

} // verus!
