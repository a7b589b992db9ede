use dewey::embedding::{Embedding, EmbeddingSource};
use dewey::hnsw::HNSW;
use dewey::server::{
    edit_response, frame, frame_length, get_config_dir, get_data_dir, get_local_dir, DeweyClient, RequestPayload,
    ServerError, ServerState,
};

fn tiny_index() -> HNSW {
    let d = |a: u64, b: u64| Some((a as f32 - b as f32).abs().to_bits());
    HNSW::build(&vec![Some(0), None, None, None], &d).unwrap()
}

#[test]
fn edit_responses() {
    assert_eq!(edit_response(None), "{}");
    assert_eq!(edit_response(Some("no such file".to_string())), "{error: no such file}");
}

#[test]
fn frames_carry_big_endian_length() {
    let f = frame(&b"{}".to_vec()).unwrap();
    assert_eq!(f, vec![0, 0, 0, 2, b'{', b'}']);
    assert_eq!(frame_length(&f), Some(2));
    assert_eq!(frame_length(&[0, 1]), None);
}

#[test]
fn client_requests() {
    let c = DeweyClient::new("127.0.0.1".to_string(), 5050);
    let q = c.query("hello".to_string(), 3, vec!["eq rust".to_string()]);
    assert_eq!(q.message_type, "query");
    assert!(matches!(q.payload, RequestPayload::Query { k: 3, .. }));
    let e = c.reindex("/a.rs".to_string());
    assert_eq!(e.message_type, "edit");
}

#[test]
fn directories_under_home() {
    assert_eq!(get_config_dir("/home/u"), "/home/u/.config/dewey");
    assert_eq!(get_local_dir("/home/u"), "/home/u/.local/dewey");
    assert_eq!(get_data_dir("/home/u"), "/home/u/.local/dewey/data");
}

#[test]
fn server_query_and_reindex() {
    let h = tiny_index();
    assert!(h.is_well_formed());
    let mut state = ServerState::new(h);
    let probe = |n: u64| {
        let e = Embedding {
            id: n,
            source_file: EmbeddingSource { filepath: format!("/f{}", n), meta: vec![], subset: if n == 1 { Some((2, 5)) } else { None } },
            data: vec![],
        };
        Some((e, (n as f32).to_bits()))
    };
    let payload = RequestPayload::Query { k: 2, query: "q".to_string(), filters: vec![] };
    let resp = state.query(&payload, &probe).unwrap();
    assert!(resp.results.len() <= 2);
    let bad = RequestPayload::Query { k: 2, query: "q".to_string(), filters: vec!["zz".to_string()] };
    assert!(matches!(state.query(&bad, &probe), Err(ServerError::InvalidFilter(_))));
    let edit = RequestPayload::Edit { filepath: "/f".to_string() };
    assert!(matches!(state.query(&edit, &probe), Err(ServerError::MalformedRequest)));
    let bytes = state.reindex(&vec![1]);
    let back = HNSW::from_bytes(&bytes).unwrap();
    assert!(back.layers.iter().all(|l| !l.adj.contains_key(&1)));
}
