use dewey::cache::{CacheError, EmbeddingCache};
use dewey::embedding::{Embedding, EmbeddingBlock, EmbeddingSource, BLOCK_SIZE};
use dewey::store::{
    append_records, parse_directory, parse_directory_line, plan_full_write, take_file_records, Directory,
    DirectoryEntry,
};
use std::cell::Cell;

fn rec(id: u64, path: &str) -> Embedding {
    Embedding {
        id,
        source_file: EmbeddingSource { filepath: path.to_string(), meta: vec!["m".to_string()], subset: None },
        data: vec![id as u32; 3],
    }
}

#[test]
fn full_write_assigns_dense_ids_and_blocks() {
    let input: Vec<Embedding> = (0..BLOCK_SIZE + 1).map(|i| rec(999, &format!("/f{}", i % 3))).collect();
    let (blocks, dir) = plan_full_write(input);
    assert_eq!(blocks.len(), 2);
    assert_eq!(blocks[0].embeddings.len(), BLOCK_SIZE);
    assert_eq!(blocks[1].embeddings.len(), 1);
    assert_eq!(blocks[1].block, 1);
    assert_eq!(dir.len(), BLOCK_SIZE + 1);
    for (i, e) in dir.entries.iter().enumerate() {
        assert_eq!(e.id, i as u64);
        assert_eq!(e.block, (i / BLOCK_SIZE) as u64);
        assert_eq!(e.filepath, format!("/f{}", i % 3));
    }
    assert_eq!(blocks[1].embeddings[0].id, BLOCK_SIZE as u64);
}

#[test]
fn directory_text_round_trip() {
    let dir = Directory {
        entries: vec![
            DirectoryEntry { id: 0, filepath: "/a.rs".to_string(), block: 0 },
            DirectoryEntry { id: 17, filepath: "/b/c.md".to_string(), block: 3 },
        ],
    };
    let text = dir.render();
    assert_eq!(text, b"0 /a.rs 0\n17 /b/c.md 3\n".to_vec());
    let back = parse_directory(&text).unwrap();
    assert_eq!(back.entries.len(), 2);
    assert_eq!(back.entries[1].id, 17);
    assert_eq!(back.entries[1].filepath, "/b/c.md");
    assert_eq!(back.block_of(17), Some(3));
    assert_eq!(back.block_of_file("/a.rs"), Some(0));
    assert_eq!(back.id_of_file("/b/c.md"), Some(17));
    assert_eq!(back.next_id(), Some(18));
}

#[test]
fn directory_path_with_spaces_is_joined() {
    let e = parse_directory_line(b"4 /my docs/a b.txt 2").unwrap();
    assert_eq!((e.id, e.filepath.as_str(), e.block), (4, "/mydocs/ab.txt", 2));
    assert!(parse_directory_line(b"x /a 1").is_none());
    assert!(parse_directory_line(b"1").is_none());
    assert_eq!(parse_directory(&b"0 /a 0\nbad\n".to_vec()).unwrap_err().line, 2);
}

#[test]
fn update_replaces_file_records() {
    let mut block = EmbeddingBlock { block: 2, embeddings: vec![rec(1, "/a"), rec(2, "/b"), rec(3, "/a")] };
    let (meta, removed) = take_file_records(&mut block, "/a");
    assert_eq!(removed, vec![1, 3]);
    assert_eq!(meta, vec!["m".to_string()]);
    assert_eq!(block.embeddings.len(), 1);
    append_records(&mut block, vec![rec(0, "/a"), rec(0, "/a")], 10);
    let ids: Vec<u64> = block.embeddings.iter().map(|e| e.id).collect();
    assert_eq!(ids, vec![2, 10, 11]);
}

fn cache_with_two_blocks(max: usize) -> EmbeddingCache {
    let dir: Vec<(u64, u64)> = (0..(2 * BLOCK_SIZE) as u64).map(|i| (i, i / BLOCK_SIZE as u64)).collect();
    EmbeddingCache::new(max, &dir)
}

fn loader(reads: &Cell<usize>) -> impl Fn(u64) -> Option<EmbeddingBlock> + '_ {
    move |b: u64| {
        reads.set(reads.get() + 1);
        let start = b * BLOCK_SIZE as u64;
        Some(EmbeddingBlock { block: b, embeddings: (start..start + BLOCK_SIZE as u64).map(|i| rec(i, "/x")).collect() })
    }
}

#[test]
fn cache_hits_do_not_reload() {
    let reads = Cell::new(0);
    let load = loader(&reads);
    let mut cache = cache_with_two_blocks(2 * BLOCK_SIZE);
    for round in 0..10 {
        assert_eq!(cache.get(5, &load).unwrap().id, 5);
        assert_eq!(cache.get(BLOCK_SIZE as u64 + 5, &load).unwrap().id, BLOCK_SIZE as u64 + 5);
        if round == 0 {
            assert_eq!(reads.get(), 2);
        }
    }
    assert_eq!(reads.get(), 2);
    assert_eq!(cache.loads(), 2);
}

#[test]
fn cache_of_one_block_reloads_alternating_blocks() {
    let blocks_read = std::cell::RefCell::new(std::collections::BTreeSet::new());
    let reads = Cell::new(0);
    let load = |b: u64| {
        blocks_read.borrow_mut().insert(b);
        loader(&reads)(b)
    };
    let mut cache = cache_with_two_blocks(BLOCK_SIZE);
    for _ in 0..10 {
        assert_eq!(cache.get(1, &load).unwrap().id, 1);
        assert_eq!(cache.get(BLOCK_SIZE as u64 + 1, &load).unwrap().id, BLOCK_SIZE as u64 + 1);
    }
    assert_eq!(reads.get(), 20);
    assert_eq!(blocks_read.borrow().len(), 2);
}

#[test]
fn dirty_records_are_reloaded() {
    let reads = Cell::new(0);
    let load = loader(&reads);
    let mut cache = cache_with_two_blocks(2 * BLOCK_SIZE);
    cache.get(3, &load).unwrap();
    cache.mark_dirty(&vec![3, 3]);
    cache.get(3, &load).unwrap();
    assert_eq!(reads.get(), 2);
    cache.get(3, &load).unwrap();
    assert_eq!(reads.get(), 2);
}

#[test]
fn unknown_id_is_not_found() {
    let reads = Cell::new(0);
    let load = loader(&reads);
    let mut cache = cache_with_two_blocks(BLOCK_SIZE);
    assert_eq!(cache.get(1 << 40, &load).unwrap_err(), CacheError::NotFound(1 << 40));
    let fail = |_b: u64| -> Option<EmbeddingBlock> { None };
    assert_eq!(cache.get(0, &fail).unwrap_err(), CacheError::BlockUnavailable(0));
}
