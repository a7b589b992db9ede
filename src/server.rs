//! Request handling for the search server, and the client's requests.
//!
//! The state holds one index; every operation runs under one exclusive
//! lock held by the caller. Responses travel as a 4-byte big-endian length
//! followed by the body.
use vstd::prelude::*;
use vstd::string::*;

use crate::embedding::Embedding;
use crate::filter::{parses_to, valid_filter, Filter, FilterError};
use crate::graph::Edge;
use crate::hnsw::{query_answer, QueryError, HNSW};
use crate::index_codec::{enc_index, layers_model};

verus! {

/// What a query asks for, or which file an edit re-embeds.
#[derive(Debug, Clone)]
pub enum RequestPayload {
    Query { k: usize, query: String, filters: Vec<String> },
    Edit { filepath: String },
}

/// A request frame: `"query"` or `"edit"`, and its payload.
#[derive(Debug, Clone)]
pub struct DeweyRequest {
    pub message_type: String,
    pub payload: RequestPayload,
}

/// One hit: the file and the byte range of the chunk (`(0, 0)` for a whole file).
#[derive(Debug)]
pub struct DeweyResponseItem {
    pub filepath: String,
    pub subset: (u64, u64),
}

/// The hits of a query, closest first.
#[derive(Debug)]
pub struct DeweyResponse {
    pub results: Vec<DeweyResponseItem>,
}

/// A typed text message.
#[derive(Debug, Clone)]
pub struct Message {
    pub message_type: String,
    pub body: String,
}

/// How far a query walks before it stops.
pub const QUERY_EF: usize = 200;

/// The server's state: the index it answers from.
pub struct ServerState {
    pub index: HNSW,
}

/// Why a request failed.
#[derive(Debug, Clone, Copy, PartialEq, Eq, Structural)]
pub enum ServerError {
    /// The payload is not of the kind the operation takes.
    MalformedRequest,
    /// A filter string is malformed.
    InvalidFilter(FilterError),
    /// The query could not run.
    Query(QueryError),
}

/// Parses each filter string; the first malformed one fails the lot.
pub fn parse_filters(filters: &Vec<String>) -> (r: Result<Vec<Filter>, FilterError>)
    ensures
        r is Ok <==> forall|i: int| 0 <= i < filters@.len() ==> valid_filter(#[trigger] filters@[i]@),
        r matches Ok(v) ==> v@.len() == filters@.len() && forall|i: int|
            0 <= i < filters@.len() ==> parses_to(#[trigger] filters@[i]@, v@[i]),
{
    let mut out: Vec<Filter> = Vec::new();
    let mut i: usize = 0;
    while i < filters.len()
        invariant
            i <= filters@.len(),
            out@.len() == i,
            forall|j: int| 0 <= j < i ==> parses_to(#[trigger] filters@[j]@, out@[j]),
            forall|j: int| 0 <= j < i ==> valid_filter(#[trigger] filters@[j]@),
        decreases filters@.len() - i,
    {
        match Filter::from_string(filters[i].as_str()) {
            Ok(f) => {
                let ghost o0 = out@;
                out.push(f);
                proof {
                    assert forall|j: int| 0 <= j < i + 1 implies parses_to(#[trigger] filters@[j]@, out@[j]) by {
                        if j < i {
                            assert(out@[j] == o0[j]);
                        }
                    }
                }
            },
            Err(e) => {
                proof {
                    assert(!valid_filter(filters@[i as int]@));
                }
                return Err(e);
            },
        }
        i += 1;
    }
    Ok(out)
}

/// The response items of query results, in their order.
pub fn response_items(results: &Vec<(Embedding, u32)>) -> (r: DeweyResponse)
    ensures
        r.results@.len() == results@.len(),
        forall|i: int|
            0 <= i < results@.len() ==> {
                let item = #[trigger] r.results@[i];
                &&& item.filepath@ == results@[i].0.source_file.filepath@
                &&& item.subset == match results@[i].0.source_file.subset {
                    Some(s) => s,
                    None => (0u64, 0u64),
                }
            },
{
    let mut out: Vec<DeweyResponseItem> = Vec::new();
    let mut i: usize = 0;
    while i < results.len()
        invariant
            i <= results@.len(),
            out@.len() == i,
            forall|j: int|
                0 <= j < i ==> {
                    let item = #[trigger] out@[j];
                    &&& item.filepath@ == results@[j].0.source_file.filepath@
                    &&& item.subset == match results@[j].0.source_file.subset {
                        Some(s) => s,
                        None => (0u64, 0u64),
                    }
                },
        decreases results@.len() - i,
    {
        let src = &results[i].0.source_file;
        let subset = match src.subset {
            Some(s) => s,
            None => (0u64, 0u64),
        };
        out.push(DeweyResponseItem { filepath: src.filepath.clone(), subset });
        i += 1;
    }
    DeweyResponse { results: out }
}

/// `resp` lists the file and range of each entry of `v`, in order.
pub open spec fn response_of(resp: DeweyResponse, v: Seq<(Embedding, u32)>) -> bool {
    &&& resp.results@.len() == v.len()
    &&& forall|i: int|
        0 <= i < v.len() ==> {
            let item = #[trigger] resp.results@[i];
            &&& item.filepath@ == v[i].0.source_file.filepath@
            &&& item.subset == match v[i].0.source_file.subset {
                Some(s) => s,
                None => (0u64, 0u64),
            }
        }
}

/// The body of an edit response: `{}`, or `{error: <message>}`.
pub fn edit_response(error: Option<String>) -> (r: String)
    ensures
        error is None ==> r@ == "{}"@,
        error matches Some(m) ==> r@ == "{error: "@ + m@ + "}"@,
{
    match error {
        None => String::from_str("{}"),
        Some(m) => {
            let s = String::from_str("{error: ");
            let s = s.concat(m.as_str());
            s.concat("}")
        },
    }
}

/// `body` with its 4-byte big-endian length in front; `None` when the body
/// is too long for the prefix.
pub fn frame(body: &Vec<u8>) -> (r: Option<Vec<u8>>)
    ensures
        body@.len() > u32::MAX ==> r is None,
        body@.len() <= u32::MAX ==> (r matches Some(v) && v@ == crate::codec::be32(body@.len() as u32)
            + body@),
{
    if body.len() > u32::MAX as usize {
        return None;
    }
    let mut out: Vec<u8> = Vec::new();
    crate::codec::put_u32(&mut out, body.len() as u32);
    let mut i: usize = 0;
    let ghost start = out@;
    while i < body.len()
        invariant
            i <= body@.len(),
            out@ == start + body@.take(i as int),
        decreases body@.len() - i,
    {
        out.push(body[i]);
        assert(out@ =~= start + body@.take(i + 1));
        i += 1;
    }
    assert(body@.take(i as int) =~= body@);
    Some(out)
}

/// The body length that a frame's 4-byte prefix announces.
pub fn frame_length(prefix: &[u8]) -> (r: Option<u32>)
    ensures
        prefix@.len() < 4 ==> r is None,
        prefix@.len() >= 4 ==> r == Some(crate::codec::be32_value(prefix@.subrange(0, 4))),
{
    match crate::codec::get_u32(prefix, 0) {
        Ok((v, _)) => Some(v),
        Err(_) => None,
    }
}

impl ServerState {
    /// A state over `index`, which must be well formed.
    pub fn new(index: HNSW) -> (r: ServerState)
        requires
            index.wf(),
        ensures
            r.index == index,
    {
        ServerState { index }
    }

    /// Answers a query payload: parses its filters and runs the index
    /// search with `ef = QUERY_EF`, `probe(n)` giving node `n`'s record and
    /// its distance to the query's embedding.
    pub fn query<P: Fn(u64) -> Option<(Embedding, u32)>>(&self, payload: &RequestPayload, probe: &P) -> (r: Result<DeweyResponse, ServerError>)
        requires
            self.index.wf(),
            forall|n: u64| probe.requires((n,)),
        ensures
            payload is Edit ==> r == Err::<DeweyResponse, ServerError>(ServerError::MalformedRequest),
            payload matches RequestPayload::Query { filters, .. } ==> ((r matches Err(
                ServerError::InvalidFilter(_),
            )) <==> !forall|i: int| 0 <= i < filters@.len() ==> valid_filter(#[trigger] filters@[i]@)),
            payload matches RequestPayload::Query { k, filters, .. } ==> ((forall|i: int|
                0 <= i < filters@.len() ==> valid_filter(#[trigger] filters@[i]@)) ==> ((r matches Err(
                ServerError::Query(QueryError::InvalidInput),
            )) <==> *k > QUERY_EF)),
            r matches Ok(resp) ==> (payload matches RequestPayload::Query { k, filters, .. } && exists|
                fs: Seq<Filter>,
                v: Seq<(Embedding, u32)>,
            |
                #![trigger query_answer(self.index, *probe, fs, *k, v)]
                fs.len() == filters@.len() && (forall|i: int|
                    0 <= i < filters@.len() ==> parses_to(#[trigger] filters@[i]@, fs[i]))
                    && query_answer(self.index, *probe, fs, *k, v) && response_of(resp, v)),
            r matches Err(ServerError::Query(QueryError::NotFound(n))) ==> call_ensures(*probe, (n,), None)
                || exists|e: (Embedding, u32)| call_ensures(*probe, (n,), Some(e)) && #[trigger] e.0.id != n,
    {
        match payload {
            RequestPayload::Query { k, query: _, filters } => {
                let fs = match parse_filters(filters) {
                    Ok(f) => f,
                    Err(e) => return Err(ServerError::InvalidFilter(e)),
                };
                match self.index.query(&fs, *k, QUERY_EF, probe) {
                    Ok(results) => {
                        let resp = response_items(&results);
                        proof {
                            assert(query_answer(self.index, *probe, fs@, *k, results@));
                        }
                        Ok(resp)
                    },
                    Err(e) => Err(ServerError::Query(e)),
                }
            },
            RequestPayload::Edit { .. } => Err(ServerError::MalformedRequest),
        }
    }

    /// The file an edit payload names.
    pub fn edit_target(payload: &RequestPayload) -> (r: Result<String, ServerError>)
        ensures
            match payload {
                RequestPayload::Edit { filepath } => (r matches Ok(p) && p@ == filepath@),
                RequestPayload::Query { .. } => r == Err::<String, ServerError>(ServerError::MalformedRequest),
            },
    {
        match payload {
            RequestPayload::Edit { filepath } => Ok(filepath.clone()),
            RequestPayload::Query { .. } => Err(ServerError::MalformedRequest),
        }
    }

    /// Drops the re-embedded file's old ids from the index and returns the
    /// index to write back.
    pub fn reindex(&mut self, removed: &Vec<u64>) -> (r: Vec<u8>)
        requires
            old(self).index.wf(),
        ensures
            final(self).index.wf(),
            final(self).index.size == old(self).index.size,
            forall|k: int, x: u64|
                0 <= k < final(self).index.layers@.len() && #[trigger] final(self).index.layers@[k].has_node(x)
                    ==> !removed@.contains(x) && old(self).index.layers@[k].has_node(x),
            final(self).index.layers@.len() == old(self).index.layers@.len(),
            forall|k: int, x: u64|
                0 <= k < old(self).index.layers@.len() && #[trigger] old(self).index.layers@[k].has_node(x)
                    && !removed@.contains(x) ==> final(self).index.layers@[k].has_node(x),
            forall|k: int, y: u64, e: Edge|
                0 <= k < final(self).index.layers@.len() && final(self).index.layers@[k].has_node(y)
                    ==> (#[trigger] final(self).index.layers@[k].edges(y).contains(e) <==> old(
                    self,
                ).index.layers@[k].edges(y).contains(e) && !removed@.contains(e.0)),
            r@ == enc_index(final(self).index.size, layers_model(final(self).index.layers@)),
    {
        let mut i: usize = 0;
        while i < removed.len()
            invariant
                i <= removed@.len(),
                self.index.wf(),
                self.index.size == old(self).index.size,
                forall|k: int, x: u64|
                    0 <= k < self.index.layers@.len() && #[trigger] self.index.layers@[k].has_node(x)
                        ==> !removed@.take(i as int).contains(x) && old(self).index.layers@[k].has_node(x),
                self.index.layers@.len() == old(self).index.layers@.len(),
                forall|k: int, x: u64|
                    0 <= k < old(self).index.layers@.len() && #[trigger] old(self).index.layers@[k].has_node(x)
                        && !removed@.take(i as int).contains(x) ==> self.index.layers@[k].has_node(x),
                forall|k: int, y: u64, e: Edge|
                    0 <= k < self.index.layers@.len() && self.index.layers@[k].has_node(y)
                        ==> (#[trigger] self.index.layers@[k].edges(y).contains(e) <==> old(
                        self,
                    ).index.layers@[k].edges(y).contains(e) && !removed@.take(i as int).contains(e.0)),
            decreases removed@.len() - i,
        {
            let ghost before = self.index;
            self.index.remove_node(removed[i]);
            proof {
                assert forall|k: int, x: u64|
                    0 <= k < self.index.layers@.len() && #[trigger] self.index.layers@[k].has_node(x)
                        implies !removed@.take(i + 1).contains(x) && old(self).index.layers@[k].has_node(x) by {
                    assert(self.index.layers@[k].adj@.dom() == before.layers@[k].adj@.dom().remove(removed@[i as int]));
                    assert(self.index.layers@[k].adj@.dom().contains(x));
                    assert(before.layers@[k].has_node(x));
                    assert(x != removed@[i as int]);
                    assert(!removed@.take(i as int).contains(x));
                    assert(removed@.take(i + 1) =~= removed@.take(i as int).push(removed@[i as int]));
                    crate::graph::lemma_push_contains(removed@.take(i as int), removed@[i as int], x);
                }
                assert forall|k: int, x: u64|
                    0 <= k < old(self).index.layers@.len() && #[trigger] old(self).index.layers@[k].has_node(x)
                        && !removed@.take(i + 1).contains(x) implies self.index.layers@[k].has_node(x) by {
                    assert(removed@.take(i + 1) =~= removed@.take(i as int).push(removed@[i as int]));
                    crate::graph::lemma_push_contains(removed@.take(i as int), removed@[i as int], x);
                    assert(before.layers@[k].has_node(x));
                    assert(self.index.layers@[k].adj@.dom() == before.layers@[k].adj@.dom().remove(removed@[i as int]));
                }
                assert forall|k: int, y: u64, e: Edge|
                    0 <= k < self.index.layers@.len() && self.index.layers@[k].has_node(y)
                        implies (#[trigger] self.index.layers@[k].edges(y).contains(e) <==> old(
                        self,
                    ).index.layers@[k].edges(y).contains(e) && !removed@.take(i + 1).contains(e.0)) by {
                    assert(removed@.take(i + 1) =~= removed@.take(i as int).push(removed@[i as int]));
                    crate::graph::lemma_push_contains(removed@.take(i as int), removed@[i as int], e.0);
                    assert(self.index.layers@[k].adj@.dom() == before.layers@[k].adj@.dom().remove(removed@[i as int]));
                    assert(before.layers@[k].has_node(y));
                    assert(self.index.layers@[k].edges(y).contains(e) <==> before.layers@[k].edges(y).contains(e)
                        && e.0 != removed@[i as int]);
                }
            }
            i += 1;
        }
        assert(removed@.take(i as int) =~= removed@);
        self.index.to_bytes()
    }
}

/// Where a client sends its requests.
#[derive(Debug, Clone)]
pub struct DeweyClient {
    pub address: String,
    pub port: u32,
}

impl DeweyClient {
    pub fn new(address: String, port: u32) -> (r: DeweyClient)
        ensures
            r.address == address && r.port == port,
    {
        DeweyClient { address, port }
    }

    /// The request for the `k` closest chunks to `request` under `filters`.
    pub fn query(&self, request: String, k: usize, filters: Vec<String>) -> (r: DeweyRequest)
        ensures
            r.message_type@ == "query"@,
            r.payload == (RequestPayload::Query { k, query: request, filters }),
    {
        DeweyRequest {
            message_type: String::from_str("query"),
            payload: RequestPayload::Query { k, query: request, filters },
        }
    }

    /// The request to re-embed `filepath`.
    pub fn reindex(&self, filepath: String) -> (r: DeweyRequest)
        ensures
            r.message_type@ == "edit"@,
            r.payload == (RequestPayload::Edit { filepath }),
    {
        DeweyRequest { message_type: String::from_str("edit"), payload: RequestPayload::Edit { filepath } }
    }
}

/// `<home>/.config/dewey`: the rules and the configuration ledger.
pub fn get_config_dir(home: &str) -> (r: String)
    ensures
        r@ == home@ + "/.config/dewey"@,
{
    String::from_str(home).concat("/.config/dewey")
}

/// `<home>/.local/dewey`: the local ledger, queries and logs.
pub fn get_local_dir(home: &str) -> (r: String)
    ensures
        r@ == home@ + "/.local/dewey"@,
{
    String::from_str(home).concat("/.local/dewey")
}

/// `<home>/.local/dewey/data`: blocks, the directory and the index.
pub fn get_data_dir(home: &str) -> (r: String)
    ensures
        r@ == home@ + "/.local/dewey/data"@,
{
    String::from_str(home).concat("/.local/dewey/data")
}

/// Dropping nodes keeps the index inside the directory: when every node of
/// every layer was an id the directory lists, it still is after `reindex`
/// (which only removes nodes, and leaves the directory as it is).
pub proof fn lemma_reindex_stays_in_directory(
    before: HNSW,
    after: HNSW,
    dir: Seq<crate::store::DirectoryEntry>,
)
    requires
        after.layers@.len() == before.layers@.len(),
        forall|k: int, x: u64|
            0 <= k < after.layers@.len() && #[trigger] after.layers@[k].has_node(x) ==> before.layers@[k].has_node(x),
        forall|k: int, x: u64|
            0 <= k < before.layers@.len() && #[trigger] before.layers@[k].has_node(x) ==> exists|i: int|
                0 <= i < dir.len() && #[trigger] dir[i].id == x,
    ensures
        forall|k: int, x: u64|
            0 <= k < after.layers@.len() && #[trigger] after.layers@[k].has_node(x) ==> exists|i: int|
                0 <= i < dir.len() && #[trigger] dir[i].id == x,
{
    assert forall|k: int, x: u64|
        0 <= k < after.layers@.len() && #[trigger] after.layers@[k].has_node(x) implies exists|i: int|
            0 <= i < dir.len() && #[trigger] dir[i].id == x by {
        assert(before.layers@[k].has_node(x));
    }
}

} // verus!
