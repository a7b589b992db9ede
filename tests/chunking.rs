use dewey::chunker::{
    batch_chunks, chunk_file, choose_splitter, file_extension, max_length_split, naive_split,
    normalize_newlines, rules_for, separator_split, split_definitions, Splitter, TOKEN_LIMIT,
};
use dewey::embedding::EmbeddingSource;
use dewey::rules::{IndexRule, IndexRuleType};

fn rule(t: IndexRuleType, v: &str) -> IndexRule {
    IndexRule { rule_type: t, value: v.to_string() }
}

fn src(path: &str) -> EmbeddingSource {
    EmbeddingSource { filepath: path.to_string(), meta: vec!["t".to_string()], subset: None }
}

#[test]
fn crlf_is_folded() {
    assert_eq!(normalize_newlines(&b"a\r\nb\r\r\n\n".to_vec()), b"a\nb\r\n\n".to_vec());
    assert_eq!(normalize_newlines(&b"\r".to_vec()), b"\r".to_vec());
}

#[test]
fn naive_split_covers_content() {
    assert!(naive_split(0).is_empty());
    let r = naive_split(2 * TOKEN_LIMIT + 5);
    assert_eq!(r, vec![(0, TOKEN_LIMIT), (TOKEN_LIMIT, 2 * TOKEN_LIMIT), (2 * TOKEN_LIMIT, 2 * TOKEN_LIMIT + 5)]);
}

#[test]
fn max_length_split_exact_pieces() {
    assert_eq!(max_length_split(10, 4), vec![(0, 4), (4, 8), (8, 10)]);
    assert_eq!(max_length_split(10, 0), vec![]);
    assert_eq!(max_length_split(TOKEN_LIMIT + 1, 100_000), vec![(0, TOKEN_LIMIT), (TOKEN_LIMIT, TOKEN_LIMIT + 1)]);
}

#[test]
fn separator_split_drops_only_separators() {
    let text = b"one\ntwo\n\nthree".to_vec();
    let r = separator_split(&text, &b"\n".to_vec());
    assert_eq!(r, vec![(0, 3), (4, 7), (8, 8), (9, 14)]);
    let joined: Vec<u8> = r.iter().flat_map(|&(a, b)| text[a..b].to_vec()).collect();
    assert_eq!(joined, b"onetwothree".to_vec());
}

#[test]
fn separator_split_multibyte_separator_and_trailing() {
    let text = b"a--b--".to_vec();
    assert_eq!(separator_split(&text, &b"--".to_vec()), vec![(0, 1), (3, 4)]);
}

#[test]
fn separator_split_respects_token_limit() {
    let text = vec![b'x'; TOKEN_LIMIT + 3];
    let r = separator_split(&text, &b"\n".to_vec());
    assert_eq!(r, vec![(0, TOKEN_LIMIT), (TOKEN_LIMIT, TOKEN_LIMIT + 3)]);
}

#[test]
fn definitions_longer_than_limit_are_cut() {
    let r = split_definitions(&vec![(5, 10), (100, 100 + TOKEN_LIMIT + 1)]);
    assert_eq!(r, vec![(5, 10), (100, 100 + TOKEN_LIMIT), (100 + TOKEN_LIMIT, 101 + TOKEN_LIMIT)]);
}

#[test]
fn splitter_priority() {
    let rules = vec![
        rule(IndexRuleType::MaxLength, "512"),
        rule(IndexRuleType::Split, "\n"),
        rule(IndexRuleType::Code, "function"),
    ];
    assert!(matches!(choose_splitter(&rules, "rs"), Splitter::Code));
    match choose_splitter(&rules, "md") {
        Splitter::Separator(s) => assert_eq!(s, "\n"),
        _ => panic!("expected a separator"),
    }
    assert!(matches!(choose_splitter(&rules[..1].to_vec(), "md"), Splitter::MaxLength(512)));
    assert!(matches!(choose_splitter(&vec![], "md"), Splitter::Naive));
}

#[test]
fn extension_is_text_after_last_dot() {
    assert_eq!(file_extension("/a/b.tar.gz"), "gz");
    assert_eq!(file_extension("noext"), "noext");
    assert_eq!(file_extension("dir.d/x."), "");
}

#[test]
fn rules_for_star_then_extension() {
    let sets = vec![
        ("rs".to_string(), vec![rule(IndexRuleType::Code, "function")]),
        ("*".to_string(), vec![rule(IndexRuleType::MinLength, "2")]),
    ];
    let r = rules_for(&sets, "rs");
    assert_eq!(r.len(), 2);
    assert_eq!(r[0].rule_type, IndexRuleType::MinLength);
    assert_eq!(r[1].rule_type, IndexRuleType::Code);
    assert_eq!(rules_for(&sets, "md").len(), 1);
}

#[test]
fn min_length_and_alphanumeric_filters() {
    let content = b"ab\n!!!!\nxyz".to_vec();
    let rules = vec![
        rule(IndexRuleType::Split, "\n"),
        rule(IndexRuleType::MinLength, "3"),
        rule(IndexRuleType::Alphanumeric, "true"),
    ];
    let chunks = chunk_file(&src("/f.md"), &content, &rules, "md", &vec![]);
    assert_eq!(chunks.len(), 1);
    assert_eq!(chunks[0].1, "xyz");
    assert_eq!(chunks[0].0.subset, Some((8, 11)));
    assert_eq!(chunks[0].2, 3);
}

#[test]
fn code_splitter_uses_definitions() {
    let content = b"fn a() {}\nfn b() {}\n".to_vec();
    let rules = vec![rule(IndexRuleType::Code, "function")];
    let chunks = chunk_file(&src("/f.rs"), &content, &rules, "rs", &vec![(0, 9), (10, 19), (5, 500)]);
    assert_eq!(chunks.len(), 2);
    assert_eq!(chunks[1].1, "fn b() {}");
}

#[test]
fn batches_are_greedy_and_bounded() {
    let item = |n: usize| (src("/x"), "t".to_string(), n);
    let batches = batch_chunks(vec![item(5000), item(3000), item(0), item(200), item(8000), item(1)]);
    let sizes: Vec<Vec<usize>> = batches.iter().map(|b| b.iter().map(|c| c.2).collect()).collect();
    assert_eq!(sizes, vec![vec![5000, 3000], vec![200], vec![8000, 1]]);
}

#[test]
fn exact_limit_fits_one_batch() {
    let item = |n: usize| (src("/x"), "t".to_string(), n);
    let batches = batch_chunks(vec![item(TOKEN_LIMIT - 1), item(1), item(1)]);
    assert_eq!(batches.len(), 2);
}

#[test]
fn alphanumeric_false_keeps_symbol_chunks() {
    let content = b"!!!!".to_vec();
    let rules = vec![rule(IndexRuleType::Alphanumeric, "false")];
    assert_eq!(chunk_file(&src("/f.md"), &content, &rules, "md", &vec![]).len(), 1);
    let rules = vec![rule(IndexRuleType::Alphanumeric, "TRUE")];
    assert_eq!(chunk_file(&src("/f.md"), &content, &rules, "md", &vec![]).len(), 0);
}

#[test]
fn chunks_keep_source_tags() {
    let chunks = chunk_file(&src("/f.md"), &b"hello".to_vec(), &vec![], "md", &vec![]);
    assert_eq!(chunks[0].0.meta, vec!["t".to_string()]);
}
