//! Embedding records and the blocks that hold them on disk.
//!
//! Vector components are single-precision floats; the library carries each
//! as its IEEE-754 bit pattern (`u32`), which is also exactly what the codec
//! stores, so nothing is lost between disk and memory.
use vstd::prelude::*;
use vstd::utf8::*;

use crate::codec::{
    parse_u32,
    be64, enc_str, enc_strs, enc_words, encoded_at, get_str, get_u32, get_u64, get_u8,
    lemma_encoded_at_split, lemma_parse_str_at, lemma_parse_strs_at, lemma_parse_u64_at,
    lemma_parse_words_at, parse_str, parse_strs, parse_u64, parse_u8, parse_words, put_str,
    put_u32, put_u64, strs_fit, DecodeError,
};

verus! {

/// Number of components of every embedding vector.
pub const EMBED_DIM: usize = 1536;

/// Number of records in a full block.
pub const BLOCK_SIZE: usize = 1024;

/// Where an embedding came from: a file, its ledger tags, and optionally the
/// half-open byte range `[start, end)` of the chunk inside the file.
#[derive(Debug, Clone)]
pub struct EmbeddingSource {
    pub filepath: String,
    pub meta: Vec<String>,
    pub subset: Option<(u64, u64)>,
}

pub open spec fn strings_view(v: Seq<String>) -> Seq<Seq<char>> {
    v.map_values(|m: String| m@)
}

pub open spec fn embeddings_view(v: Seq<Embedding>) -> Seq<EmbeddingModel> {
    v.map_values(|e: Embedding| e@)
}

pub ghost struct SourceModel {
    pub filepath: Seq<char>,
    pub meta: Seq<Seq<char>>,
    pub subset: Option<(u64, u64)>,
}

impl View for EmbeddingSource {
    type V = SourceModel;

    open spec fn view(&self) -> SourceModel {
        SourceModel {
            filepath: self.filepath@,
            meta: strings_view(self.meta@),
            subset: self.subset,
        }
    }
}

/// A stored vector with its id and source. `data` holds the bit patterns of
/// `EMBED_DIM` single-precision components.
#[derive(Debug, Clone)]
pub struct Embedding {
    pub id: u64,
    pub source_file: EmbeddingSource,
    pub data: Vec<u32>,
}

pub ghost struct EmbeddingModel {
    pub id: u64,
    pub source: SourceModel,
    pub data: Seq<u32>,
}

impl View for Embedding {
    type V = EmbeddingModel;

    open spec fn view(&self) -> EmbeddingModel {
        EmbeddingModel { id: self.id, source: self.source_file@, data: self.data@ }
    }
}

/// Up to `BLOCK_SIZE` records that live together in one file named by `block`.
#[derive(Debug, Clone)]
pub struct EmbeddingBlock {
    pub block: u64,
    pub embeddings: Vec<Embedding>,
}

pub ghost struct BlockModel {
    pub block: u64,
    pub embeddings: Seq<EmbeddingModel>,
}

impl View for EmbeddingBlock {
    type V = BlockModel;

    open spec fn view(&self) -> BlockModel {
        BlockModel { block: self.block, embeddings: embeddings_view(self.embeddings@) }
    }
}

pub open spec fn enc_subset(s: Option<(u64, u64)>) -> Seq<u8> {
    match s {
        Some((a, b)) => seq![1u8] + be64(a) + be64(b),
        None => seq![0u8],
    }
}

pub open spec fn enc_source(m: SourceModel) -> Seq<u8> {
    enc_str(m.filepath) + be64(m.meta.len() as u64) + enc_strs(m.meta) + enc_subset(m.subset)
}

pub open spec fn enc_embedding(m: EmbeddingModel) -> Seq<u8> {
    be64(m.id) + enc_source(m.source) + enc_words(m.data)
}

pub open spec fn enc_embeddings(es: Seq<EmbeddingModel>) -> Seq<u8>
    decreases es.len(),
{
    if es.len() == 0 {
        Seq::empty()
    } else {
        enc_embeddings(es.drop_last()) + enc_embedding(es.last())
    }
}

pub open spec fn enc_block(m: BlockModel) -> Seq<u8> {
    be64(m.block) + be64(m.embeddings.len() as u64) + enc_embeddings(m.embeddings)
}

pub open spec fn parse_subset(b: Seq<u8>, off: int) -> Option<(Option<(u64, u64)>, int)> {
    match parse_u8(b, off) {
        Some((0u8, p)) => Some((None, p)),
        Some((1u8, p)) => match parse_u64(b, p) {
            Some((s, q)) => match parse_u64(b, q) {
                Some((e, r)) => Some((Some((s, e)), r)),
                None => None,
            },
            None => None,
        },
        _ => None,
    }
}

pub open spec fn parse_source(b: Seq<u8>, off: int) -> Option<(SourceModel, int)> {
    match parse_str(b, off) {
        Some((f, p)) => match parse_u64(b, p) {
            Some((n, q)) => match parse_strs(b, q, n as nat) {
                Some((meta, r)) => match parse_subset(b, r) {
                    Some((subset, t)) => Some((SourceModel { filepath: f, meta, subset }, t)),
                    None => None,
                },
                None => None,
            },
            None => None,
        },
        None => None,
    }
}

pub open spec fn parse_embedding(b: Seq<u8>, off: int) -> Option<(EmbeddingModel, int)> {
    match parse_u64(b, off) {
        Some((id, p)) => match parse_source(b, p) {
            Some((source, q)) => match parse_words(b, q, EMBED_DIM as nat) {
                Some((data, r)) => Some((EmbeddingModel { id, source, data }, r)),
                None => None,
            },
            None => None,
        },
        None => None,
    }
}

pub open spec fn parse_embeddings(b: Seq<u8>, off: int, count: nat) -> Option<
    (Seq<EmbeddingModel>, int),
>
    decreases count,
{
    if count == 0 {
        Some((Seq::empty(), off))
    } else {
        match parse_embeddings(b, off, (count - 1) as nat) {
            Some((es, p)) => match parse_embedding(b, p) {
                Some((e, q)) => Some((es.push(e), q)),
                None => None,
            },
            None => None,
        }
    }
}

pub open spec fn parse_block(b: Seq<u8>, off: int) -> Option<(BlockModel, int)> {
    match parse_u64(b, off) {
        Some((block, p)) => match parse_u64(b, p) {
            Some((n, q)) => match parse_embeddings(b, q, n as nat) {
                Some((embeddings, r)) => Some((BlockModel { block, embeddings }, r)),
                None => None,
            },
            None => None,
        },
        None => None,
    }
}

/// The lengths of a source fit the 64-bit prefixes of the codec.
pub open spec fn source_fits(m: SourceModel) -> bool {
    &&& encode_utf8(m.filepath).len() <= u64::MAX
    &&& m.meta.len() <= u64::MAX
    &&& strs_fit(m.meta)
}

/// A record that the codec stores faithfully: a full-length vector and
/// lengths that fit their prefixes.
pub open spec fn embedding_wf(m: EmbeddingModel) -> bool {
    m.data.len() == EMBED_DIM && source_fits(m.source)
}

pub open spec fn block_wf(m: BlockModel) -> bool {
    &&& m.embeddings.len() <= u64::MAX
    &&& forall|i: int| 0 <= i < m.embeddings.len() ==> embedding_wf(#[trigger] m.embeddings[i])
}

pub proof fn lemma_parse_source_at(b: Seq<u8>, off: int, m: SourceModel)
    requires
        encoded_at(b, off, enc_source(m)),
        source_fits(m),
    ensures
        parse_source(b, off) == Some((m, off + enc_source(m).len())),
{
    let e1 = enc_str(m.filepath);
    let e2 = be64(m.meta.len() as u64);
    let e3 = enc_strs(m.meta);
    let e4 = enc_subset(m.subset);
    assert(enc_source(m) == ((e1 + e2) + e3) + e4);
    lemma_encoded_at_split(b, off, (e1 + e2) + e3, e4);
    lemma_encoded_at_split(b, off, e1 + e2, e3);
    lemma_encoded_at_split(b, off, e1, e2);
    lemma_parse_str_at(b, off, m.filepath);
    lemma_parse_u64_at(b, off + e1.len(), m.meta.len() as u64);
    lemma_parse_strs_at(b, off + e1.len() + 8, m.meta);
    let r = off + e1.len() + 8 + e3.len();
    match m.subset {
        Some((s, e)) => {
            assert(e4 == (seq![1u8] + be64(s)) + be64(e));
            lemma_encoded_at_split(b, r, seq![1u8] + be64(s), be64(e));
            lemma_encoded_at_split(b, r, seq![1u8], be64(s));
            assert(b[r] == 1u8) by {
                assert(b.subrange(r, r + 1)[0] == b[r]);
            }
            lemma_parse_u64_at(b, r + 1, s);
            lemma_parse_u64_at(b, r + 9, e);
        },
        None => {
            assert(b[r] == 0u8) by {
                assert(b.subrange(r, r + 1)[0] == b[r]);
            }
        },
    }
}

pub proof fn lemma_parse_embedding_at(b: Seq<u8>, off: int, m: EmbeddingModel)
    requires
        encoded_at(b, off, enc_embedding(m)),
        embedding_wf(m),
    ensures
        parse_embedding(b, off) == Some((m, off + enc_embedding(m).len())),
{
    let e1 = be64(m.id);
    let e2 = enc_source(m.source);
    let e3 = enc_words(m.data);
    lemma_encoded_at_split(b, off, e1 + e2, e3);
    lemma_encoded_at_split(b, off, e1, e2);
    lemma_parse_u64_at(b, off, m.id);
    lemma_parse_source_at(b, off + 8, m.source);
    lemma_parse_words_at(b, off + 8 + e2.len(), m.data);
}

pub proof fn lemma_parse_embeddings_at(b: Seq<u8>, off: int, es: Seq<EmbeddingModel>)
    requires
        encoded_at(b, off, enc_embeddings(es)),
        forall|i: int| 0 <= i < es.len() ==> embedding_wf(#[trigger] es[i]),
    ensures
        parse_embeddings(b, off, es.len()) == Some((es, off + enc_embeddings(es).len())),
    decreases es.len(),
{
    if es.len() > 0 {
        let init = es.drop_last();
        lemma_encoded_at_split(b, off, enc_embeddings(init), enc_embedding(es.last()));
        assert forall|i: int| 0 <= i < init.len() implies embedding_wf(#[trigger] init[i]) by {
            assert(init[i] == es[i]);
        }
        lemma_parse_embeddings_at(b, off, init);
        assert(embedding_wf(es[es.len() - 1]));
        lemma_parse_embedding_at(b, off + enc_embeddings(init).len(), es.last());
        assert(init.push(es.last()) =~= es);
    }
}

/// Reading back a written block yields the block that was written, and
/// consumes exactly the bytes that were written.
pub proof fn lemma_block_round_trip(m: BlockModel)
    requires
        block_wf(m),
    ensures
        parse_block(enc_block(m), 0) == Some((m, enc_block(m).len() as int)),
{
    let b = enc_block(m);
    let e1 = be64(m.block);
    let e2 = be64(m.embeddings.len() as u64);
    let e3 = enc_embeddings(m.embeddings);
    assert(b.subrange(0, b.len() as int) =~= b);
    lemma_encoded_at_split(b, 0, e1 + e2, e3);
    lemma_encoded_at_split(b, 0, e1, e2);
    lemma_parse_u64_at(b, 0, m.block);
    lemma_parse_u64_at(b, 8, m.embeddings.len() as u64);
    lemma_parse_embeddings_at(b, 16, m.embeddings);
}

impl EmbeddingSource {
    /// Appends the encoding of this source to `out`.
    pub fn write_to(&self, out: &mut Vec<u8>)
        ensures
            final(out)@ == old(out)@ + enc_source(self@),
    {
        let ghost start = out@;
        put_str(out, self.filepath.as_str());
        put_u64(out, self.meta.len() as u64);
        let ghost mid = out@;
        let mut i: usize = 0;
        while i < self.meta.len()
            invariant
                i <= self.meta.len(),
                out@ == mid + enc_strs(strings_view(self.meta@).take(i as int)),
            decreases self.meta.len() - i,
        {
            put_str(out, self.meta[i].as_str());
            proof {
                let xs = strings_view(self.meta@);
                assert(xs.take(i + 1).drop_last() =~= xs.take(i as int));
                assert(xs.take(i + 1).last() == self.meta@[i as int]@);
            }
            i += 1;
        }
        assert(strings_view(self.meta@).take(i as int) =~= strings_view(self.meta@));
        match self.subset {
            Some((a, b)) => {
                out.push(1u8);
                put_u64(out, a);
                put_u64(out, b);
            },
            None => {
                out.push(0u8);
            },
        }
        assert(out@ =~= old(out)@ + enc_source(self@));
    }

    pub fn to_bytes(&self) -> (r: Vec<u8>)
        ensures
            r@ == enc_source(self@),
    {
        let mut out: Vec<u8> = Vec::new();
        self.write_to(&mut out);
        assert(out@ =~= enc_source(self@));
        out
    }

    /// Decodes a source that starts at `off`; on success also returns the
    /// position just past it.
    pub fn read_from(b: &[u8], off: usize) -> (r: Result<(EmbeddingSource, usize), DecodeError>)
        ensures
            match r {
                Ok((s, p)) => parse_source(b@, off as int) == Some((s@, p as int)),
                Err(_) => parse_source(b@, off as int) is None,
            },
    {
        let (filepath, p) = match get_str(b, off) {
            Ok(x) => x,
            Err(e) => return Err(e),
        };
        let (n, q) = match get_u64(b, p) {
            Ok(x) => x,
            Err(e) => return Err(e),
        };
        let mut meta: Vec<String> = Vec::new();
        let mut pos = q;
        let mut i: u64 = 0;
        while i < n
            invariant
                i <= n,
                parse_str(b@, off as int) == Some((filepath@, p as int)),
                parse_u64(b@, p as int) == Some((n, q as int)),
                parse_strs(b@, q as int, i as nat) == Some((strings_view(meta@), pos as int)),
            decreases n - i,
        {
            let (m, next) = match get_str(b, pos) {
                Ok(x) => x,
                Err(e) => {
                    proof {
                        lemma_parse_strs_stops(b@, q as int, i as nat, n as nat);
                    }
                    return Err(e);
                },
            };
            proof {
                assert(strings_view(meta@.push(m)) =~= strings_view(meta@).push(m@));
            }
            meta.push(m);
            pos = next;
            i += 1;
        }
        let (tag, t) = match get_u8(b, pos) {
            Ok(x) => x,
            Err(e) => return Err(e),
        };
        let subset = if tag == 0 {
            None
        } else if tag == 1 {
            let (start, u) = match get_u64(b, t) {
            Ok(x) => x,
            Err(e) => return Err(e),
        };
            let (end, v) = match get_u64(b, u) {
            Ok(x) => x,
            Err(e) => return Err(e),
        };
            pos = v;
            Some((start, end))
        } else {
            return Err(DecodeError { offset: pos });
        };
        if tag == 0 {
            pos = t;
        }
        Ok((EmbeddingSource { filepath, meta, subset }, pos))
    }

    /// Decodes a source from the start of `b`; on success also returns the
    /// number of bytes consumed.
    pub fn from_bytes(b: &[u8]) -> (r: Result<(EmbeddingSource, usize), DecodeError>)
        ensures
            match r {
                Ok((s, n)) => parse_source(b@, 0) == Some((s@, n as int)),
                Err(_) => parse_source(b@, 0) is None,
            },
    {
        EmbeddingSource::read_from(b, 0)
    }
}

/// Once one element of a run fails to parse, the whole run fails.
proof fn lemma_parse_strs_stops(b: Seq<u8>, off: int, i: nat, n: nat)
    requires
        i < n,
        parse_strs(b, off, i) matches Some((_, p)) && parse_str(b, p) is None,
    ensures
        parse_strs(b, off, n) is None,
    decreases n - i,
{
    if n > i + 1 {
        lemma_parse_strs_stops(b, off, i, (n - 1) as nat);
    }
}

impl Embedding {
    pub fn write_to(&self, out: &mut Vec<u8>)
        ensures
            final(out)@ == old(out)@ + enc_embedding(self@),
    {
        put_u64(out, self.id);
        self.source_file.write_to(out);
        let ghost mid = out@;
        let mut i: usize = 0;
        while i < self.data.len()
            invariant
                i <= self.data.len(),
                out@ == mid + enc_words(self.data@.take(i as int)),
            decreases self.data.len() - i,
        {
            put_u32(out, self.data[i]);
            proof {
                assert(self.data@.take(i + 1).drop_last() =~= self.data@.take(i as int));
            }
            i += 1;
        }
        assert(self.data@.take(i as int) =~= self.data@);
        assert(out@ =~= old(out)@ + enc_embedding(self@));
    }

    pub fn to_bytes(&self) -> (r: Vec<u8>)
        ensures
            r@ == enc_embedding(self@),
    {
        let mut out: Vec<u8> = Vec::new();
        self.write_to(&mut out);
        assert(out@ =~= enc_embedding(self@));
        out
    }

    pub fn read_from(b: &[u8], off: usize) -> (r: Result<(Embedding, usize), DecodeError>)
        ensures
            match r {
                Ok((e, p)) => parse_embedding(b@, off as int) == Some((e@, p as int)),
                Err(_) => parse_embedding(b@, off as int) is None,
            },
    {
        let (id, p) = match get_u64(b, off) {
            Ok(x) => x,
            Err(e) => return Err(e),
        };
        let (source_file, q) = match EmbeddingSource::read_from(b, p) {
            Ok(x) => x,
            Err(e) => return Err(e),
        };
        let mut data: Vec<u32> = Vec::new();
        let mut pos = q;
        let mut i: usize = 0;
        while i < EMBED_DIM
            invariant
                i <= EMBED_DIM,
                parse_u64(b@, off as int) == Some((id, p as int)),
                parse_source(b@, p as int) == Some((source_file@, q as int)),
                parse_words(b@, q as int, i as nat) == Some((data@, pos as int)),
            decreases EMBED_DIM - i,
        {
            let (w, next) = match get_u32(b, pos) {
                Ok(x) => x,
                Err(e) => {
                    proof {
                        lemma_parse_words_stops(b@, q as int, i as nat, EMBED_DIM as nat);
                    }
                    return Err(e);
                },
            };
            data.push(w);
            pos = next;
            i += 1;
        }
        Ok((Embedding { id, source_file, data }, pos))
    }

    pub fn from_bytes(b: &[u8]) -> (r: Result<(Embedding, usize), DecodeError>)
        ensures
            match r {
                Ok((e, n)) => parse_embedding(b@, 0) == Some((e@, n as int)),
                Err(_) => parse_embedding(b@, 0) is None,
            },
    {
        Embedding::read_from(b, 0)
    }
}

impl EmbeddingBlock {
    pub fn to_bytes(&self) -> (r: Vec<u8>)
        ensures
            r@ == enc_block(self@),
    {
        let mut out: Vec<u8> = Vec::new();
        put_u64(&mut out, self.block);
        put_u64(&mut out, self.embeddings.len() as u64);
        let ghost mid = out@;
        let mut i: usize = 0;
        while i < self.embeddings.len()
            invariant
                i <= self.embeddings.len(),
                out@ == mid + enc_embeddings(embeddings_view(self.embeddings@).take(i as int)),
            decreases self.embeddings.len() - i,
        {
            self.embeddings[i].write_to(&mut out);
            proof {
                let es = embeddings_view(self.embeddings@);
                assert(es.take(i + 1).drop_last() =~= es.take(i as int));
                assert(es.take(i + 1).last() == self.embeddings@[i as int]@);
            }
            i += 1;
        }
        assert(embeddings_view(self.embeddings@).take(i as int) =~= embeddings_view(
            self.embeddings@,
        ));
        assert(out@ =~= enc_block(self@));
        out
    }

    /// Decodes a block from the start of `b`, with the number of bytes consumed.
    pub fn from_bytes(b: &[u8]) -> (r: Result<(EmbeddingBlock, usize), DecodeError>)
        ensures
            match r {
                Ok((blk, n)) => parse_block(b@, 0) == Some((blk@, n as int)),
                Err(_) => parse_block(b@, 0) is None,
            },
    {
        let (block, p) = match get_u64(b, 0) {
            Ok(x) => x,
            Err(e) => return Err(e),
        };
        let (n, q) = match get_u64(b, p) {
            Ok(x) => x,
            Err(e) => return Err(e),
        };
        let mut embeddings: Vec<Embedding> = Vec::new();
        let mut pos = q;
        let mut i: u64 = 0;
        while i < n
            invariant
                i <= n,
                parse_u64(b@, 0) == Some((block, p as int)),
                parse_u64(b@, p as int) == Some((n, q as int)),
                parse_embeddings(b@, q as int, i as nat) == Some(
                    (embeddings_view(embeddings@), pos as int),
                ),
            decreases n - i,
        {
            let (e, next) = match Embedding::read_from(b, pos) {
                Ok(x) => x,
                Err(err) => {
                    proof {
                        lemma_parse_embeddings_stops(b@, q as int, i as nat, n as nat);
                    }
                    return Err(err);
                },
            };
            proof {
                assert(embeddings_view(embeddings@.push(e)) =~= embeddings_view(embeddings@).push(
                    e@,
                ));
            }
            embeddings.push(e);
            pos = next;
            i += 1;
        }
        Ok((EmbeddingBlock { block, embeddings }, pos))
    }
}

proof fn lemma_parse_words_stops(b: Seq<u8>, off: int, i: nat, n: nat)
    requires
        i < n,
        parse_words(b, off, i) matches Some((_, p)) && parse_u32(b, p) is None,
    ensures
        parse_words(b, off, n) is None,
    decreases n - i,
{
    if n > i + 1 {
        lemma_parse_words_stops(b, off, i, (n - 1) as nat);
    }
}

proof fn lemma_parse_embeddings_stops(b: Seq<u8>, off: int, i: nat, n: nat)
    requires
        i < n,
        parse_embeddings(b, off, i) matches Some((_, p)) && parse_embedding(b, p) is None,
    ensures
        parse_embeddings(b, off, n) is None,
    decreases n - i,
{
    if n > i + 1 {
        lemma_parse_embeddings_stops(b, off, i, (n - 1) as nat);
    }
}

} // verus!
