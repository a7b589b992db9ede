//! Cutting file contents into embeddable chunks.
//!
//! Contents are bytes (after CRLF is folded to LF); a chunk is a half-open
//! byte range `[start, end)` of them. No chunk produced by a splitter is
//! longer than `TOKEN_LIMIT` bytes.
use vstd::prelude::*;
use vstd::string::*;

use crate::embedding::{strings_view, EmbeddingSource};
use crate::filter::{char_is_space, is_space};
use vstd::utf8::{decode_utf8, encode_utf8, valid_utf8};
use crate::rules::{
    equals_ignoring_case, matches_word, parse_usize, parses_as_usize, IndexRule, IndexRuleType,
};

verus! {

/// The byte budget of one chunk and of one embedding batch.
pub const TOKEN_LIMIT: usize = 8192;

pub open spec fn crlf_to_lf(s: Seq<u8>) -> Seq<u8>
    decreases s.len(),
{
    if s.len() == 0 {
        s
    } else if s.len() >= 2 && s[0] == 13u8 && s[1] == 10u8 {
        seq![10u8] + crlf_to_lf(s.skip(2))
    } else {
        seq![s[0]] + crlf_to_lf(s.skip(1))
    }
}

/// Replaces every CR LF pair by a single LF.
pub fn normalize_newlines(s: &Vec<u8>) -> (r: Vec<u8>)
    ensures
        r@ == crlf_to_lf(s@),
{
    let mut out: Vec<u8> = Vec::new();
    let mut i: usize = 0;
    assert(s@.skip(0) =~= s@);
    assert(out@ + crlf_to_lf(s@) =~= crlf_to_lf(s@));
    while i < s.len()
        invariant
            i <= s@.len(),
            out@ + crlf_to_lf(s@.skip(i as int)) == crlf_to_lf(s@),
        decreases s@.len() - i,
    {
        let ghost rest = s@.skip(i as int);
        if i + 1 < s.len() && s[i] == 13u8 && s[i + 1] == 10u8 {
            out.push(10u8);
            proof {
                assert(rest.skip(2) =~= s@.skip(i + 2));
                assert(out@ + crlf_to_lf(s@.skip(i + 2)) =~= crlf_to_lf(s@));
            }
            i += 2;
        } else {
            out.push(s[i]);
            proof {
                assert(rest.skip(1) =~= s@.skip(i + 1));
                assert(rest[0] == s@[i as int]);
                assert(out@ + crlf_to_lf(s@.skip(i + 1)) =~= crlf_to_lf(s@));
            }
            i += 1;
        }
    }
    proof {
        assert(s@.skip(i as int) =~= Seq::<u8>::empty());
        assert(out@ + Seq::<u8>::empty() =~= out@);
    }
    out
}

/// `r` cuts `[begin, end)` into consecutive pieces of exactly `w` bytes,
/// the last one possibly shorter but not empty.
pub open spec fn fixed_cover(r: Seq<(usize, usize)>, begin: int, end: int, w: int) -> bool {
    &&& (r.len() == 0 <==> begin == end)
    &&& r.len() > 0 ==> r[0].0 == begin && r.last().1 == end
    &&& forall|t: int| 0 <= t < r.len() - 1 ==> #[trigger] r[t].1 == r[t + 1].0 && r[t].1 - r[t].0 == w
    &&& r.len() > 0 ==> 0 < r.last().1 - r.last().0 <= w
}

/// The pieces of `w` bytes that cut `[b, e)`, in order.
pub open spec fn fixed_pieces(b: int, e: int, w: int) -> Seq<(int, int)>
    decreases e - b,
    when w > 0
{
    if b >= e {
        Seq::empty()
    } else if e - b > w {
        seq![(b, b + w)] + fixed_pieces(b + w, e, w)
    } else {
        seq![(b, e)]
    }
}

/// Cuts `[begin, end)` into pieces of `w` bytes.
pub fn fixed_chunks(begin: usize, end: usize, w: usize) -> (r: Vec<(usize, usize)>)
    requires
        begin <= end,
        w > 0,
    ensures
        fixed_cover(r@, begin as int, end as int, w as int),
        as_int_pairs(r@) == fixed_pieces(begin as int, end as int, w as int),
{
    let mut r: Vec<(usize, usize)> = Vec::new();
    let mut start = begin;
    assert(as_int_pairs(r@) + fixed_pieces(start as int, end as int, w as int) =~= fixed_pieces(
        begin as int,
        end as int,
        w as int,
    ));
    while start < end
        invariant
            begin <= start <= end,
            w > 0,
            r@.len() == 0 <==> start == begin,
            r@.len() > 0 ==> r@[0].0 == begin && r@.last().1 == start,
            forall|t: int| 0 <= t < r@.len() - 1 ==> #[trigger] r@[t].1 == r@[t + 1].0 && r@[t].1 - r@[t].0 == w,
            r@.len() > 0 ==> 0 < r@.last().1 - r@.last().0 <= w,
            r@.len() > 0 && start < end ==> r@.last().1 - r@.last().0 == w,
            as_int_pairs(r@) + fixed_pieces(start as int, end as int, w as int) == fixed_pieces(
                begin as int,
                end as int,
                w as int,
            ),
        decreases end - start,
    {
        let stop = if end - start > w {
            start + w
        } else {
            end
        };
        let ghost prev = r@;
        r.push((start, stop));
        proof {
            assert forall|t: int| 0 <= t < r@.len() - 1 implies #[trigger] r@[t].1 == r@[t + 1].0 && r@[t].1 - r@[t].0 == w by {
                if t == r@.len() - 2 {
                    assert(r@[t] == prev.last());
                } else {
                    assert(r@[t] == prev[t] && r@[t + 1] == prev[t + 1]);
                }
            }
            assert(as_int_pairs(r@) =~= as_int_pairs(prev).push((start as int, stop as int)));
            assert(as_int_pairs(r@) + fixed_pieces(stop as int, end as int, w as int) =~= as_int_pairs(prev)
                + fixed_pieces(start as int, end as int, w as int));
        }
        start = stop;
    }
    assert(as_int_pairs(r@) + fixed_pieces(start as int, end as int, w as int) =~= as_int_pairs(r@));
    r
}

/// Pieces of `TOKEN_LIMIT` bytes.
pub fn naive_split(len: usize) -> (r: Vec<(usize, usize)>)
    ensures
        fixed_cover(r@, 0, len as int, TOKEN_LIMIT as int),
        as_int_pairs(r@) == fixed_pieces(0, len as int, TOKEN_LIMIT as int),
{
    fixed_chunks(0, len, TOKEN_LIMIT)
}

/// `n`, but at most `TOKEN_LIMIT`.
pub open spec fn min_limit(n: usize) -> int {
    if n < TOKEN_LIMIT {
        n as int
    } else {
        TOKEN_LIMIT as int
    }
}

/// Pieces of `max_length` bytes, but never more than `TOKEN_LIMIT`; a zero
/// length yields no chunk.
pub fn max_length_split(len: usize, max_length: usize) -> (r: Vec<(usize, usize)>)
    ensures
        max_length == 0 ==> r@.len() == 0,
        max_length > 0 ==> as_int_pairs(r@) == fixed_pieces(0, len as int, min_limit(max_length)),
        max_length > 0 ==> fixed_cover(
            r@,
            0,
            len as int,
            if max_length < TOKEN_LIMIT {
                max_length as int
            } else {
                TOKEN_LIMIT as int
            },
        ),
{
    if max_length == 0 {
        return Vec::new();
    }
    let w = if max_length < TOKEN_LIMIT {
        max_length
    } else {
        TOKEN_LIMIT
    };
    fixed_chunks(0, len, w)
}

/// `sep` occurs in `s` at `i`.
pub open spec fn sep_at(s: Seq<u8>, sep: Seq<u8>, i: int) -> bool {
    0 <= i && i + sep.len() <= s.len() && s.subrange(i, i + sep.len()) == sep
}

/// The chunks of `s` from position `i` on, the current chunk having begun
/// at `start`: a chunk ends before each occurrence of `sep` (which is
/// dropped), and also once it holds `TOKEN_LIMIT` bytes.
pub open spec fn sep_chunks(s: Seq<u8>, sep: Seq<u8>, start: int, i: int) -> Seq<(int, int)>
    decreases s.len() - i, 1int,
    when 0 <= start <= i && sep.len() > 0
{
    if i >= s.len() {
        if start < s.len() {
            seq![(start, s.len() as int)]
        } else {
            Seq::empty()
        }
    } else if sep_at(s, sep, i) {
        seq![(start, i)] + sep_chunks(s, sep, i + sep.len(), i + sep.len())
    } else if i - start >= TOKEN_LIMIT {
        seq![(start, i)] + sep_chunks(s, sep, i, i + 1)
    } else {
        sep_chunks(s, sep, start, i + 1)
    }
}

pub open spec fn as_int_pairs(r: Seq<(usize, usize)>) -> Seq<(int, int)> {
    r.map_values(|p: (usize, usize)| (p.0 as int, p.1 as int))
}

fn sep_matches(s: &Vec<u8>, sep: &Vec<u8>, i: usize) -> (r: bool)
    ensures
        r == sep_at(s@, sep@, i as int),
{
    if i > s.len() || sep.len() > s.len() - i {
        return false;
    }
    let mut k: usize = 0;
    while k < sep.len()
        invariant
            i + sep@.len() <= s@.len(),
            s@.len() <= usize::MAX,
            k <= sep@.len(),
            forall|t: int| 0 <= t < k ==> s@[i + t] == sep@[t],
        decreases sep@.len() - k,
    {
        if s[i + k] != sep[k] {
            proof {
                assert(s@.subrange(i as int, i + sep@.len())[k as int] != sep@[k as int]);
            }
            return false;
        }
        k += 1;
    }
    assert(s@.subrange(i as int, i + sep@.len()) =~= sep@);
    true
}

/// Splits `s` at each occurrence of `sep` and whenever a chunk reaches
/// `TOKEN_LIMIT` bytes. An empty separator splits on the limit alone.
pub fn separator_split(s: &Vec<u8>, sep: &Vec<u8>) -> (r: Vec<(usize, usize)>)
    ensures
        sep@.len() > 0 ==> as_int_pairs(r@) == sep_chunks(s@, sep@, 0, 0),
        sep@.len() == 0 ==> fixed_cover(r@, 0, s@.len() as int, TOKEN_LIMIT as int),
        sep@.len() == 0 ==> as_int_pairs(r@) == fixed_pieces(0, s@.len() as int, TOKEN_LIMIT as int),
{
    if sep.len() == 0 {
        return naive_split(s.len());
    }
    let mut r: Vec<(usize, usize)> = Vec::new();
    let mut start: usize = 0;
    let mut i: usize = 0;
    while i < s.len()
        invariant
            sep@.len() > 0,
            start <= i <= s@.len(),
            as_int_pairs(r@) + sep_chunks(s@, sep@, start as int, i as int) == sep_chunks(
                s@,
                sep@,
                0,
                0,
            ),
            forall|t: int| 0 <= t < r@.len() ==> (#[trigger] r@[t]).0 <= r@[t].1 <= s@.len(),
        decreases s@.len() - i,
    {
        let ghost prev = r@;
        if sep_matches(s, sep, i) {
            r.push((start, i));
            start = i + sep.len();
            i = start;
        } else if i - start >= TOKEN_LIMIT {
            r.push((start, i));
            start = i;
            i = i + 1;
        } else {
            i = i + 1;
        }
        proof {
            assert(as_int_pairs(r@) =~= as_int_pairs(prev) + as_int_pairs(r@).skip(prev.len() as int));
        }
    }
    let ghost prev = r@;
    if start < s.len() {
        r.push((start, s.len()));
    }
    proof {
        assert(as_int_pairs(r@) =~= sep_chunks(s@, sep@, 0, 0));
    }
    r
}

/// `s` from `i` on, without the separator occurrences that a left-to-right
/// scan meets.
pub open spec fn strip_separators(s: Seq<u8>, sep: Seq<u8>, i: int) -> Seq<u8>
    decreases s.len() - i,
    when 0 <= i && sep.len() > 0
{
    if i >= s.len() {
        Seq::empty()
    } else if sep_at(s, sep, i) {
        strip_separators(s, sep, i + sep.len())
    } else {
        seq![s[i]] + strip_separators(s, sep, i + 1)
    }
}

/// The texts of the chunks `cs` of `s`, one after the other.
pub open spec fn chunk_texts(s: Seq<u8>, cs: Seq<(int, int)>) -> Seq<u8>
    decreases cs.len(),
{
    if cs.len() == 0 {
        Seq::empty()
    } else {
        s.subrange(cs[0].0, cs[0].1) + chunk_texts(s, cs.skip(1))
    }
}

proof fn lemma_chunk_texts_prepend(s: Seq<u8>, c: (int, int), cs: Seq<(int, int)>)
    ensures
        chunk_texts(s, seq![c] + cs) == s.subrange(c.0, c.1) + chunk_texts(s, cs),
{
    assert((seq![c] + cs)[0] == c);
    assert((seq![c] + cs).skip(1) =~= cs);
}

proof fn lemma_sep_chunks_texts(s: Seq<u8>, sep: Seq<u8>, start: int, i: int)
    requires
        0 <= start <= i <= s.len(),
        sep.len() > 0,
    ensures
        chunk_texts(s, sep_chunks(s, sep, start, i)) == s.subrange(start, i) + strip_separators(
            s,
            sep,
            i,
        ),
    decreases s.len() - i, 1int,
{
    if i >= s.len() {
        if start < s.len() {
            lemma_chunk_texts_prepend(s, (start, s.len() as int), Seq::empty());
        }
        assert(s.subrange(start, i) + Seq::<u8>::empty() =~= s.subrange(start, i));
    } else if sep_at(s, sep, i) {
        let j = i + sep.len();
        lemma_sep_chunks_texts(s, sep, j, j);
        lemma_chunk_texts_prepend(s, (start, i), sep_chunks(s, sep, j, j));
        assert(s.subrange(j, j) =~= Seq::<u8>::empty());
        assert(Seq::<u8>::empty() + strip_separators(s, sep, j) =~= strip_separators(s, sep, j));
    } else if i - start >= TOKEN_LIMIT {
        lemma_sep_chunks_texts(s, sep, i, i + 1);
        lemma_chunk_texts_prepend(s, (start, i), sep_chunks(s, sep, i, i + 1));
        assert(s.subrange(i, i + 1) =~= seq![s[i]]);
        assert(s.subrange(start, i) + (seq![s[i]] + strip_separators(s, sep, i + 1))
            =~= s.subrange(start, i) + s.subrange(i, i + 1) + strip_separators(s, sep, i + 1));
    } else {
        lemma_sep_chunks_texts(s, sep, start, i + 1);
        assert(s.subrange(start, i + 1) =~= s.subrange(start, i) + seq![s[i]]);
        assert(s.subrange(start, i) + (seq![s[i]] + strip_separators(s, sep, i + 1))
            =~= s.subrange(start, i + 1) + strip_separators(s, sep, i + 1));
    }
}

/// Splitting on a separator loses nothing but separators: the chunk texts,
/// joined in order, are the content with the separator occurrences removed.
pub proof fn lemma_separator_split_loss_bounded(s: Seq<u8>, sep: Seq<u8>)
    requires
        sep.len() > 0,
    ensures
        chunk_texts(s, sep_chunks(s, sep, 0, 0)) == strip_separators(s, sep, 0),
{
    lemma_sep_chunks_texts(s, sep, 0, 0);
    assert(s.subrange(0, 0) + strip_separators(s, sep, 0) =~= strip_separators(s, sep, 0));
}

/// How a file is cut into chunks.
#[derive(Debug, Clone)]
pub enum Splitter {
    /// One chunk per function definition, as a language parser finds them.
    Code,
    /// At each occurrence of the separator.
    Separator(String),
    /// Pieces of this many bytes.
    MaxLength(usize),
    /// Pieces of `TOKEN_LIMIT` bytes.
    Naive,
}

/// The extensions whose functions a parser can find: Rust, Python, JavaScript.
pub open spec fn code_extension(ext: Seq<char>) -> bool {
    ext == seq!['r', 's'] || ext == seq!['p', 'y'] || ext == seq!['j', 's']
}

pub open spec fn has_rule(rules: Seq<IndexRule>, t: IndexRuleType) -> bool {
    exists|i: int| 0 <= i < rules.len() && #[trigger] rules[i].rule_type == t
}

/// The index of the last rule of kind `t`.
pub open spec fn last_rule(rules: Seq<IndexRule>, t: IndexRuleType) -> int
    decreases rules.len(),
{
    if rules.len() == 0 {
        -1
    } else if rules.last().rule_type == t {
        rules.len() - 1
    } else {
        last_rule(rules.drop_last(), t)
    }
}

proof fn lemma_last_rule(rules: Seq<IndexRule>, t: IndexRuleType)
    ensures
        -1 <= last_rule(rules, t) < rules.len(),
        last_rule(rules, t) >= 0 ==> rules[last_rule(rules, t)].rule_type == t,
        last_rule(rules, t) == -1 <==> !has_rule(rules, t),
    decreases rules.len(),
{
    if rules.len() > 0 {
        let init = rules.drop_last();
        lemma_last_rule(init, t);
        if rules.last().rule_type != t {
            if has_rule(rules, t) {
                let i = choose|i: int| 0 <= i < rules.len() && #[trigger] rules[i].rule_type == t;
                assert(init[i].rule_type == t);
            }
            if has_rule(init, t) {
                let i = choose|i: int| 0 <= i < init.len() && #[trigger] init[i].rule_type == t;
                assert(rules[i].rule_type == t);
            }
            if last_rule(init, t) >= 0 {
                assert(rules[last_rule(init, t)] == init[last_rule(init, t)]);
            }
        } else {
            assert(rules[rules.len() - 1].rule_type == t);
        }
    }
}

/// The splitter the rules call for: `Code` when a `Code` rule is present
/// and the extension is one a parser knows; else the last `Split` rule;
/// else the last `MaxLength` rule (when its length parses); else `Naive`.
pub open spec fn splitter_for(rules: Seq<IndexRule>, ext: Seq<char>) -> Splitter {
    if has_rule(rules, IndexRuleType::Code) && code_extension(ext) {
        Splitter::Code
    } else if has_rule(rules, IndexRuleType::Split) {
        Splitter::Separator(rules[last_rule(rules, IndexRuleType::Split)].value)
    } else if has_rule(rules, IndexRuleType::MaxLength) && exists|n: usize|
        parses_as_usize(rules[last_rule(rules, IndexRuleType::MaxLength)].value@, n) {
        Splitter::MaxLength(
            choose|n: usize| parses_as_usize(rules[last_rule(rules, IndexRuleType::MaxLength)].value@, n),
        )
    } else {
        Splitter::Naive
    }
}

fn find_last_rule(rules: &Vec<IndexRule>, t: IndexRuleType) -> (r: Option<usize>)
    ensures
        match r {
            Some(i) => i == last_rule(rules@, t) && i < rules@.len(),
            None => last_rule(rules@, t) == -1,
        },
{
    proof {
        lemma_last_rule(rules@, t);
    }
    let mut i = rules.len();
    assert(rules@.take(i as int) =~= rules@);
    while i > 0
        invariant
            i <= rules@.len(),
            last_rule(rules@, t) == last_rule(rules@.take(i as int), t),
        decreases i,
    {
        proof {
            assert(rules@.take(i as int).drop_last() =~= rules@.take(i - 1));
        }
        if rules[i - 1].rule_type == t {
            return Some(i - 1);
        }
        i -= 1;
    }
    None
}

/// Decides the splitter for a file with extension `ext`.
pub fn choose_splitter(rules: &Vec<IndexRule>, ext: &str) -> (r: Splitter)
    ensures
        r == splitter_for(rules@, ext@),
{
    proof {
        lemma_last_rule(rules@, IndexRuleType::Code);
        lemma_last_rule(rules@, IndexRuleType::Split);
        lemma_last_rule(rules@, IndexRuleType::MaxLength);
        reveal_strlit("rs");
        reveal_strlit("py");
        reveal_strlit("js");
    }
    let code_ext = ext.unicode_len() == 2 && ((ext.get_char(0) == 'r' && ext.get_char(1) == 's')
        || (ext.get_char(0) == 'p' && ext.get_char(1) == 'y') || (ext.get_char(0) == 'j'
        && ext.get_char(1) == 's'));
    proof {
        if code_extension(ext@) {
            assert(ext@.len() == 2);
        }
        if code_ext {
            assert(ext@ =~= seq!['r', 's'] || ext@ =~= seq!['p', 'y'] || ext@ =~= seq!['j', 's']);
        }
    }
    if code_ext && find_last_rule(rules, IndexRuleType::Code).is_some() {
        return Splitter::Code;
    }
    match find_last_rule(rules, IndexRuleType::Split) {
        Some(i) => {
            return Splitter::Separator(rules[i].value.clone());
        },
        None => {},
    }
    match find_last_rule(rules, IndexRuleType::MaxLength) {
        Some(i) => match parse_usize(rules[i].value.as_str()) {
            Some(n) => {
                proof {
                    let v = rules@[i as int].value@;
                    assert(parses_as_usize(v, n));
                    let c = choose|m: usize| parses_as_usize(v, m);
                    lemma_parse_unique(v, n, c);
                }
                Splitter::MaxLength(n)
            },
            None => {
                proof {
                    let v = rules@[i as int].value@;
                    if exists|m: usize| parses_as_usize(v, m) {
                        let m = choose|m: usize| parses_as_usize(v, m);
                        assert(crate::rules::usize_literal(v));
                    }
                }
                Splitter::Naive
            },
        },
        None => Splitter::Naive,
    }
}

proof fn lemma_parse_unique(v: Seq<char>, a: usize, b: usize)
    requires
        parses_as_usize(v, a),
        parses_as_usize(v, b),
    ensures
        a == b,
{
}

/// The chunks of one definition `[b, e)`: itself, or pieces of
/// `TOKEN_LIMIT` bytes when it is longer.
pub open spec fn definition_pieces(d: (usize, usize)) -> Seq<(int, int)> {
    if d.1 - d.0 > TOKEN_LIMIT {
        fixed_pieces(d.0 as int, d.1 as int, TOKEN_LIMIT as int)
    } else {
        seq![(d.0 as int, d.1 as int)]
    }
}

/// The chunks of the definitions `ds`, definition by definition.
pub open spec fn definitions_pieces(ds: Seq<(usize, usize)>) -> Seq<(int, int)>
    decreases ds.len(),
{
    if ds.len() == 0 {
        Seq::empty()
    } else {
        definitions_pieces(ds.drop_last()) + definition_pieces(ds.last())
    }
}

/// Cuts each definition `[begin, end)` found by a parser into one chunk, or
/// into pieces of `TOKEN_LIMIT` bytes when it is longer than that.
pub fn split_definitions(defs: &Vec<(usize, usize)>) -> (r: Vec<(usize, usize)>)
    requires
        forall|i: int| 0 <= i < defs@.len() ==> (#[trigger] defs@[i]).0 <= defs@[i].1,
    ensures
        as_int_pairs(r@) == definitions_pieces(defs@),
        forall|t: int|
            0 <= t < r@.len() ==> (#[trigger] r@[t]).0 <= r@[t].1 && r@[t].1 - r@[t].0 <= TOKEN_LIMIT,
{
    let mut r: Vec<(usize, usize)> = Vec::new();
    let mut i: usize = 0;
    assert(as_int_pairs(r@) =~= definitions_pieces(defs@.take(0)));
    while i < defs.len()
        invariant
            i <= defs@.len(),
            forall|j: int| 0 <= j < defs@.len() ==> (#[trigger] defs@[j]).0 <= defs@[j].1,
            as_int_pairs(r@) == definitions_pieces(defs@.take(i as int)),
            forall|t: int|
                0 <= t < r@.len() ==> (#[trigger] r@[t]).0 <= r@[t].1 && r@[t].1 - r@[t].0 <= TOKEN_LIMIT,
        decreases defs@.len() - i,
    {
        let (b, e) = defs[i];
        let ghost r0 = r@;
        proof {
            assert(defs@.take(i + 1).drop_last() =~= defs@.take(i as int));
            assert(defs@.take(i + 1).last() == (b, e));
        }
        if e - b > TOKEN_LIMIT {
            let pieces = fixed_chunks(b, e, TOKEN_LIMIT);
            let mut k: usize = 0;
            while k < pieces.len()
                invariant
                    k <= pieces@.len(),
                    fixed_cover(pieces@, b as int, e as int, TOKEN_LIMIT as int),
                    r@ == r0 + pieces@.take(k as int),
                    forall|t: int|
                        0 <= t < r@.len() ==> (#[trigger] r@[t]).0 <= r@[t].1 && r@[t].1 - r@[t].0 <= TOKEN_LIMIT,
                decreases pieces@.len() - k,
            {
                proof {
                    if k < pieces@.len() - 1 {
                        assert(pieces@[k as int].1 == pieces@[k + 1].0);
                    }
                }
                r.push(pieces[k]);
                assert(r@ =~= r0 + pieces@.take(k + 1));
                k += 1;
            }
            proof {
                assert(pieces@.take(k as int) =~= pieces@);
                assert(as_int_pairs(r@) =~= as_int_pairs(r0) + as_int_pairs(pieces@));
            }
        } else {
            r.push((b, e));
            assert(as_int_pairs(r@) =~= as_int_pairs(r0) + seq![(b as int, e as int)]);
        }
        i += 1;
    }
    assert(defs@.take(i as int) =~= defs@);
    r
}

pub uninterp spec fn alphanumeric(c: char) -> bool;

/// Relies on `char::is_alphanumeric`: Unicode alphabetic or numeric; on
/// ASCII exactly the letters and digits.
#[verifier::external_body]
fn char_is_alphanumeric(c: char) -> (r: bool)
    ensures
        r == alphanumeric(c),
        (c as u32) < 128 ==> (r <==> ('0' <= c <= '9' || 'a' <= c <= 'z' || 'A' <= c <= 'Z')),
{
    c.is_alphanumeric()
}

pub uninterp spec fn lossy_utf8(b: Seq<u8>) -> Seq<char>;

/// Relies on `String::from_utf8_lossy`: valid UTF-8 decodes to its
/// characters; other input gets replacement characters.
#[verifier::external_body]
fn text_from_bytes(b: &[u8]) -> (r: String)
    ensures
        r@ == lossy_utf8(b@),
        valid_utf8(b@) ==> r@ == decode_utf8(b@),
{
    String::from_utf8_lossy(b).into_owned()
}

/// The text of the chunk `[start, end)` of `content`.
pub fn chunk_text(content: &Vec<u8>, start: usize, end: usize) -> (r: String)
    requires
        start <= end <= content@.len(),
    ensures
        r@ == lossy_utf8(content@.subrange(start as int, end as int)),
{
    text_from_bytes(&content.as_slice()[start..end])
}

/// Some character of `t` is alphanumeric or whitespace.
pub open spec fn has_word_char(t: Seq<char>) -> bool {
    exists|i: int| 0 <= i < t.len() && (alphanumeric(#[trigger] t[i]) || is_space(t[i]))
}

pub fn contains_word_char(t: &str) -> (r: bool)
    ensures
        r == has_word_char(t@),
{
    let n = t.unicode_len();
    let mut i: usize = 0;
    while i < n
        invariant
            n == t@.len(),
            i <= n,
            forall|j: int| 0 <= j < i ==> !(alphanumeric(#[trigger] t@[j]) || is_space(t@[j])),
        decreases n - i,
    {
        let c = t.get_char(i);
        if char_is_alphanumeric(c) || char_is_space(c) {
            return true;
        }
        i += 1;
    }
    false
}

/// A chunk of `len` bytes and text `text` survives the filter rules: it is
/// at least as long as every `MinLength`, and, under an `Alphanumeric`
/// rule, holds an alphanumeric or whitespace character.
pub open spec fn keeps_chunk(rules: Seq<IndexRule>, text: Seq<char>, len: int) -> bool {
    &&& forall|i: int, n: usize|
        0 <= i < rules.len() && rules[i].rule_type == IndexRuleType::MinLength
            && #[trigger] parses_as_usize(rules[i].value@, n) ==> len >= n
    &&& alphanumeric_on(rules) ==> has_word_char(text)
}

/// Some `Alphanumeric` rule says `true` (letters in any case).
pub open spec fn alphanumeric_on(rules: Seq<IndexRule>) -> bool {
    exists|i: int|
        0 <= i < rules.len() && #[trigger] rules[i].rule_type == IndexRuleType::Alphanumeric
            && equals_ignoring_case(rules[i].value@, seq!['t', 'r', 'u', 'e'])
}

pub fn keep_chunk(rules: &Vec<IndexRule>, text: &str, len: usize) -> (r: bool)
    ensures
        r == keeps_chunk(rules@, text@, len as int),
{
    let mut alnum = false;
    let mut i: usize = 0;
    while i < rules.len()
        invariant
            i <= rules@.len(),
            forall|j: int, n: usize|
                0 <= j < i && rules@[j].rule_type == IndexRuleType::MinLength
                    && #[trigger] parses_as_usize(rules@[j].value@, n) ==> len >= n,
            alnum == exists|j: int|
                0 <= j < i && #[trigger] rules@[j].rule_type == IndexRuleType::Alphanumeric && equals_ignoring_case(
                    rules@[j].value@,
                    seq!['t', 'r', 'u', 'e'],
                ),
        decreases rules@.len() - i,
    {
        if rules[i].rule_type == IndexRuleType::MinLength {
            match parse_usize(rules[i].value.as_str()) {
                Some(n) => {
                    if len < n {
                        proof {
                            assert(rules@[i as int].rule_type == IndexRuleType::MinLength);
                        }
                        return false;
                    }
                    proof {
                        assert forall|j: int, m: usize|
                            0 <= j < i + 1 && rules@[j].rule_type == IndexRuleType::MinLength
                                && #[trigger] parses_as_usize(rules@[j].value@, m) implies len >= m by {
                            if j == i {
                                lemma_parse_unique(rules@[j].value@, m, n);
                            }
                        }
                    }
                },
                None => {
                    proof {
                        assert forall|j: int, m: usize|
                            0 <= j < i + 1 && rules@[j].rule_type == IndexRuleType::MinLength
                                && #[trigger] parses_as_usize(rules@[j].value@, m) implies len >= m by {
                            if j == i {
                                assert(crate::rules::usize_literal(rules@[j].value@));
                            }
                        }
                    }
                },
            }
        }
        if rules[i].rule_type == IndexRuleType::Alphanumeric {
            proof {
                reveal_strlit("true");
                assert("true"@ =~= seq!['t', 'r', 'u', 'e']);
            }
            if matches_word(rules[i].value.as_str(), "true") {
                alnum = true;
            }
        }
        proof {
            if !alnum {
                assert(!exists|j: int|
                    0 <= j < i + 1 && #[trigger] rules@[j].rule_type == IndexRuleType::Alphanumeric && equals_ignoring_case(
                        rules@[j].value@,
                        seq!['t', 'r', 'u', 'e'],
                    ));
            }
        }
        i += 1;
    }
    if alnum {
        contains_word_char(text)
    } else {
        true
    }
}

/// The positive-length items of `items`, in order.
pub open spec fn nonempty_items(items: Seq<(EmbeddingSource, String, usize)>) -> Seq<(EmbeddingSource, String, usize)>
    decreases items.len(),
{
    if items.len() == 0 {
        Seq::empty()
    } else if items.last().2 > 0 {
        nonempty_items(items.drop_last()).push(items.last())
    } else {
        nonempty_items(items.drop_last())
    }
}

pub open spec fn flatten<T>(bs: Seq<Vec<T>>) -> Seq<T>
    decreases bs.len(),
{
    if bs.len() == 0 {
        Seq::empty()
    } else {
        flatten(bs.drop_last()) + bs.last()@
    }
}

pub open spec fn batch_len(b: Seq<(EmbeddingSource, String, usize)>) -> nat
    decreases b.len(),
{
    if b.len() == 0 {
        0
    } else {
        batch_len(b.drop_last()) + b.last().2 as nat
    }
}

/// A batch is not empty, and stays within `TOKEN_LIMIT` bytes unless it
/// holds one chunk.
pub open spec fn batch_ok(b: Seq<(EmbeddingSource, String, usize)>) -> bool {
    b.len() > 0 && (batch_len(b) <= TOKEN_LIMIT || b.len() == 1)
}

/// Packs chunks `(source, text, byte length)` greedily into batches: a
/// chunk opens a new batch when it would push the current one past
/// `TOKEN_LIMIT`. Chunks of length zero are dropped; no batch is empty.
pub fn batch_chunks(items: Vec<(EmbeddingSource, String, usize)>) -> (r: Vec<Vec<(EmbeddingSource, String, usize)>>)
    ensures
        flatten(r@) == nonempty_items(items@),
        forall|k: int| 0 <= k < r@.len() ==> batch_ok(#[trigger] r@[k]@),
        forall|k: int| 0 <= k < r@.len() - 1 ==> batch_len(#[trigger] r@[k]@) + r@[k + 1]@[0].2 > TOKEN_LIMIT,
{
    let ghost all = items@;
    let mut rev: Vec<(EmbeddingSource, String, usize)> = Vec::new();
    let mut items = items;
    while items.len() > 0
        invariant
            items@ + rev@.reverse() == all,
        decreases items@.len(),
    {
        let ghost before_items = items@;
        let ghost before_rev = rev@;
        let x = items.pop().unwrap();
        rev.push(x);
        proof {
            assert(rev@.reverse() =~= seq![x] + before_rev.reverse());
            assert(items@ + rev@.reverse() =~= before_items.drop_last() + (seq![before_items.last()] + before_rev.reverse()));
            assert(before_items =~= before_items.drop_last().push(before_items.last()));
        }
    }
    assert(rev@.reverse() =~= all);
    let mut done: Vec<Vec<(EmbeddingSource, String, usize)>> = Vec::new();
    let mut cur: Vec<(EmbeddingSource, String, usize)> = Vec::new();
    let mut cur_len: usize = 0;
    let ghost mut k: int = 0;
    while rev.len() > 0
        invariant
            0 <= k <= all.len(),
            rev@.reverse() == all.skip(k),
            flatten(done@) + cur@ == nonempty_items(all.take(k)),
            cur_len == batch_len(cur@),
            cur_len <= TOKEN_LIMIT || cur@.len() == 1,
            forall|t: int| 0 <= t < done@.len() ==> batch_ok(#[trigger] done@[t]@),
            forall|t: int| 0 <= t < done@.len() - 1 ==> batch_len(#[trigger] done@[t]@) + done@[t + 1]@[0].2 > TOKEN_LIMIT,
            done@.len() > 0 && cur@.len() > 0 ==> batch_len(done@.last()@) + cur@[0].2 > TOKEN_LIMIT,
            cur@.len() == 0 ==> done@.len() == 0,
        decreases rev@.len(),
    {
        let ghost before_rev = rev@;
        let x = rev.pop().unwrap();
        let xl = x.2;
        let ghost xv = x;
        proof {
            assert(before_rev.reverse()[0] == xv);
            assert(rev@.reverse() =~= before_rev.reverse().skip(1));
            assert(all.skip(k).skip(1) =~= all.skip(k + 1));
            assert(all.take(k + 1).drop_last() =~= all.take(k));
            assert(all.take(k + 1).last() == xv);
        }
        let ghost d0 = done@;
        let ghost c0 = cur@;
        if xl > 0 {
            if cur.len() > 0 && (cur_len > TOKEN_LIMIT || xl > TOKEN_LIMIT - cur_len) {
                let full = cur;
                done.push(full);
                cur = Vec::new();
                cur.push(x);
                cur_len = cur[0].2;
                proof {
                    assert(done@.last()@ == c0);
                    assert(flatten(done@) == flatten(d0) + c0) by {
                        assert(done@.drop_last() =~= d0);
                    }
                    assert(batch_len(cur@) == cur@[0].2) by {
                        assert(cur@.len() == 1);
                        assert(cur@.drop_last() =~= Seq::<(EmbeddingSource, String, usize)>::empty());
                        assert(batch_len(cur@.drop_last()) == 0);
                        assert(cur@.last() == cur@[0]);
                    }
                    assert(flatten(done@) + cur@ =~= (flatten(d0) + c0).push(xv));
                    assert forall|t: int| 0 <= t < done@.len() - 1 implies batch_len(#[trigger] done@[t]@) + done@[t + 1]@[0].2 > TOKEN_LIMIT by {
                        if t < d0.len() - 1 {
                            assert(done@[t] == d0[t] && done@[t + 1] == d0[t + 1]);
                        } else {
                            assert(done@[t] == d0.last() && done@[t + 1]@ == c0);
                        }
                    }
                    assert forall|t: int| 0 <= t < done@.len() implies batch_ok(#[trigger] done@[t]@) by {
                        if t < d0.len() {
                            assert(done@[t] == d0[t]);
                        }
                    }
                }
            } else {
                cur.push(x);
                cur_len = cur_len + xl;
                proof {
                    assert(cur@.drop_last() =~= c0);
                    assert(flatten(done@) + cur@ =~= (flatten(d0) + c0).push(xv));
                    if c0.len() > 0 {
                        assert(cur@[0] == c0[0]);
                    }
                }
            }
        }
        proof {
            k = k + 1;
        }
    }
    assert(all.take(k) =~= all);
    if cur.len() > 0 {
        let ghost d0 = done@;
        let ghost c0 = cur@;
        done.push(cur);
        proof {
            assert(done@.drop_last() =~= d0);
            assert forall|t: int| 0 <= t < done@.len() - 1 implies batch_len(#[trigger] done@[t]@) + done@[t + 1]@[0].2 > TOKEN_LIMIT by {
                if t < d0.len() - 1 {
                    assert(done@[t] == d0[t] && done@[t + 1] == d0[t + 1]);
                } else {
                    assert(done@[t] == d0.last() && done@[t + 1]@ == c0);
                }
            }
            assert forall|t: int| 0 <= t < done@.len() implies batch_ok(#[trigger] done@[t]@) by {
                if t < d0.len() {
                    assert(done@[t] == d0[t]);
                }
            }
        }
    } else {
        proof {
            assert(flatten(done@) + cur@ =~= flatten(done@));
        }
    }
    done
}

/// What follows the last `.` of a path (the whole path when it has none).
pub open spec fn extension_of(path: Seq<char>) -> Seq<char>
    decreases path.len(),
{
    if path.len() == 0 {
        path
    } else if path.last() == '.' {
        Seq::empty()
    } else {
        extension_of(path.drop_last()).push(path.last())
    }
}

pub fn file_extension(path: &str) -> (r: String)
    ensures
        r@ == extension_of(path@),
{
    let n = path.unicode_len();
    let mut i = n;
    assert(path@.take(n as int) =~= path@);
    assert(extension_of(path@) + path@.subrange(n as int, n as int) =~= extension_of(path@));
    while i > 0 && path.get_char(i - 1) != '.'
        invariant
            n == path@.len(),
            i <= n,
            extension_of(path@) == extension_of(path@.take(i as int)) + path@.subrange(i as int, n as int),
        decreases i,
    {
        proof {
            let t = path@.take(i as int);
            assert(t.drop_last() =~= path@.take(i - 1));
            assert(t.last() == path@[i - 1]);
            assert(path@.subrange(i - 1, n as int) =~= seq![path@[i - 1]] + path@.subrange(i as int, n as int));
            assert(extension_of(t) == extension_of(path@.take(i - 1)).push(path@[i - 1]));
            assert(extension_of(path@.take(i - 1)).push(path@[i - 1]) + path@.subrange(i as int, n as int)
                =~= extension_of(path@.take(i - 1)) + path@.subrange(i - 1, n as int));
        }
        i -= 1;
    }
    proof {
        if i == 0 {
            assert(path@.take(0) =~= Seq::<char>::empty());
        }
        assert(extension_of(path@.take(i as int)) =~= Seq::<char>::empty()) by {
            if i > 0 {
                assert(path@.take(i as int).last() == '.');
            }
        }
        assert(Seq::<char>::empty() + path@.subrange(i as int, n as int) =~= path@.subrange(i as int, n as int));
    }
    String::from_str(path.substring_char(i, n))
}

impl EmbeddingSource {
    /// A copy of this source with the chunk range `subset`.
    pub fn with_subset(&self, subset: Option<(u64, u64)>) -> (r: EmbeddingSource)
        ensures
            r.filepath@ == self.filepath@,
            strings_view(r.meta@) == strings_view(self.meta@),
            r.subset == subset,
    {
        EmbeddingSource {
            filepath: self.filepath.clone(),
            meta: crate::store::clone_strings(&self.meta),
            subset,
        }
    }
}

/// The definitions that fit contents of `len` bytes, in order.
pub open spec fn valid_defs(ds: Seq<(usize, usize)>, len: int) -> Seq<(usize, usize)>
    decreases ds.len(),
{
    if ds.len() == 0 {
        Seq::empty()
    } else if ds.last().0 <= ds.last().1 <= len {
        valid_defs(ds.drop_last(), len).push(ds.last())
    } else {
        valid_defs(ds.drop_last(), len)
    }
}

/// The ranges a splitter cuts `content` into, in order.
pub open spec fn splitter_ranges(content: Seq<u8>, sp: Splitter, defs: Seq<(usize, usize)>) -> Seq<
    (int, int),
> {
    match sp {
        Splitter::Code => definitions_pieces(valid_defs(defs, content.len() as int)),
        Splitter::Separator(sep) => if encode_utf8(sep@).len() > 0 {
            sep_chunks(content, encode_utf8(sep@), 0, 0)
        } else {
            fixed_pieces(0, content.len() as int, TOKEN_LIMIT as int)
        },
        Splitter::MaxLength(n) => if n == 0 {
            Seq::empty()
        } else {
            fixed_pieces(0, content.len() as int, min_limit(n))
        },
        Splitter::Naive => fixed_pieces(0, content.len() as int, TOKEN_LIMIT as int),
    }
}

/// The ranges among `rs` that lie in `content` and survive the filter rules.
pub open spec fn kept_ranges(content: Seq<u8>, rules: Seq<IndexRule>, rs: Seq<(int, int)>) -> Seq<(int, int)>
    decreases rs.len(),
{
    if rs.len() == 0 {
        Seq::empty()
    } else {
        let (a, b) = rs.last();
        if 0 <= a <= b <= content.len() && keeps_chunk(rules, lossy_utf8(content.subrange(a, b)), b - a) {
            kept_ranges(content, rules, rs.drop_last()).push((a, b))
        } else {
            kept_ranges(content, rules, rs.drop_last())
        }
    }
}

/// The chunks a file yields: its splitter's ranges that survive the filters.
pub open spec fn file_chunks(source: EmbeddingSource, content: Seq<u8>, rules: Seq<IndexRule>, ext: Seq<char>, defs: Seq<(usize, usize)>) -> Seq<(int, int)> {
    kept_ranges(content, rules, splitter_ranges(content, splitter_for(rules, ext), defs))
}

/// `item` is the chunk `[r.0, r.1)` of `content`, from `source`.
pub open spec fn chunk_item(source: EmbeddingSource, content: Seq<u8>, r: (int, int), item: (EmbeddingSource, String, usize)) -> bool {
    &&& item.0.filepath@ == source.filepath@
    &&& strings_view(item.0.meta@) == strings_view(source.meta@)
    &&& item.0.subset == Some((r.0 as u64, r.1 as u64))
    &&& item.1@ == lossy_utf8(content.subrange(r.0, r.1))
    &&& item.2 == r.1 - r.0
}

/// The chunks of one file, with their texts and byte lengths, that survive
/// the filter rules. `content` has had CR LF folded already;
/// `definitions` are the function definitions a parser found in it, used
/// by the `Code` splitter (ranges that do not fit `content` are ignored).
pub fn chunk_file(
    source: &EmbeddingSource,
    content: &Vec<u8>,
    rules: &Vec<IndexRule>,
    ext: &str,
    definitions: &Vec<(usize, usize)>,
) -> (r: Vec<(EmbeddingSource, String, usize)>)
    ensures
        ({
            let ks = file_chunks(*source, content@, rules@, ext@, definitions@);
            &&& r@.len() == ks.len()
            &&& forall|t: int| 0 <= t < r@.len() ==> chunk_item(*source, content@, ks[t], #[trigger] r@[t])
        }),
{
    let sp = choose_splitter(rules, ext);
    let ranges = match sp {
        Splitter::Code => {
            let mut defs: Vec<(usize, usize)> = Vec::new();
            let mut i: usize = 0;
            assert(defs@ =~= valid_defs(definitions@.take(0), content@.len() as int));
            while i < definitions.len()
                invariant
                    i <= definitions@.len(),
                    defs@ == valid_defs(definitions@.take(i as int), content@.len() as int),
                    forall|j: int| 0 <= j < defs@.len() ==> (#[trigger] defs@[j]).0 <= defs@[j].1 <= content@.len(),
                decreases definitions@.len() - i,
            {
                let (b, e) = definitions[i];
                proof {
                    assert(definitions@.take(i + 1).drop_last() =~= definitions@.take(i as int));
                    assert(definitions@.take(i + 1).last() == (b, e));
                }
                if b <= e && e <= content.len() {
                    defs.push((b, e));
                }
                i += 1;
            }
            assert(definitions@.take(i as int) =~= definitions@);
            let r = split_definitions(&defs);
            r
        },
        Splitter::Separator(sep) => {
            let sb = sep.as_str().as_bytes_vec();
            separator_split(content, &sb)
        },
        Splitter::MaxLength(n) => max_length_split(content.len(), n),
        Splitter::Naive => naive_split(content.len()),
    };
    let ghost rs = splitter_ranges(content@, sp, definitions@);
    assert(as_int_pairs(ranges@) == rs);
    let mut out: Vec<(EmbeddingSource, String, usize)> = Vec::new();
    let mut i: usize = 0;
    assert(kept_ranges(content@, rules@, rs.take(0)) =~= Seq::<(int, int)>::empty());
    while i < ranges.len()
        invariant
            i <= ranges@.len(),
            rs == as_int_pairs(ranges@),
            ({
                let ks = kept_ranges(content@, rules@, rs.take(i as int));
                &&& out@.len() == ks.len()
                &&& forall|t: int| 0 <= t < out@.len() ==> chunk_item(*source, content@, ks[t], #[trigger] out@[t])
            }),
        decreases ranges@.len() - i,
    {
        let (a, b) = ranges[i];
        proof {
            assert(rs[i as int] == (a as int, b as int));
            assert(rs.take(i + 1).drop_last() =~= rs.take(i as int));
            assert(rs.take(i + 1).last() == (a as int, b as int));
        }
        let ghost k0 = kept_ranges(content@, rules@, rs.take(i as int));
        let ghost o0 = out@;
        if a <= b && b <= content.len() {
            let text = chunk_text(content, a, b);
            let len = b - a;
            if keep_chunk(rules, text.as_str(), len) {
                let src = source.with_subset(Some((a as u64, b as u64)));
                out.push((src, text, len));
                proof {
                    let k1 = kept_ranges(content@, rules@, rs.take(i + 1));
                    assert(k1 == k0.push((a as int, b as int)));
                    assert forall|t: int| 0 <= t < out@.len() implies chunk_item(*source, content@, k1[t], #[trigger] out@[t]) by {
                        if t < o0.len() {
                            assert(out@[t] == o0[t]);
                        }
                    }
                }
            } else {
                proof {
                    assert(kept_ranges(content@, rules@, rs.take(i + 1)) == k0);
                }
            }
        } else {
            proof {
                assert(kept_ranges(content@, rules@, rs.take(i + 1)) == k0);
            }
        }
        i += 1;
    }
    assert(rs.take(i as int) =~= rs);
    out
}

/// The rules listed under `key`, in order (a key may be listed more than once).
pub open spec fn rules_under(rulesets: Seq<(String, Vec<IndexRule>)>, key: Seq<char>) -> Seq<IndexRule>
    decreases rulesets.len(),
{
    if rulesets.len() == 0 {
        Seq::empty()
    } else {
        rules_under(rulesets.drop_last(), key) + if rulesets.last().0@ == key {
            rulesets.last().1@
        } else {
            Seq::empty()
        }
    }
}

fn append_rules_under(rulesets: &Vec<(String, Vec<IndexRule>)>, key: &String, out: &mut Vec<IndexRule>)
    ensures
        final(out)@ == old(out)@ + rules_under(rulesets@, key@),
{
    let ghost start = out@;
    let mut k: usize = 0;
    while k < rulesets.len()
        invariant
            k <= rulesets@.len(),
            out@ == start + rules_under(rulesets@.take(k as int), key@),
            start == old(out)@,
        decreases rulesets@.len() - k,
    {
        let ghost before = out@;
        if rulesets[k].0 == *key {
            let rs = &rulesets[k].1;
            let mut j: usize = 0;
            while j < rs.len()
                invariant
                    rs@ == rulesets@[k as int].1@,
                    j <= rs@.len(),
                    out@ == before + rs@.take(j as int),
                decreases rs@.len() - j,
            {
                let rule = IndexRule { rule_type: rs[j].rule_type, value: rs[j].value.clone() };
                proof {
                    assert(rule == rs@[j as int]);
                }
                out.push(rule);
                proof {
                    assert(out@ =~= before + rs@.take(j + 1));
                }
                j += 1;
            }
            proof {
                assert(rs@.take(j as int) =~= rs@);
            }
        }
        proof {
            let t = rulesets@.take(k + 1);
            assert(t.drop_last() =~= rulesets@.take(k as int));
            assert(t.last() == rulesets@[k as int]);
            assert(out@ =~= start + rules_under(t, key@));
        }
        k += 1;
    }
    proof {
        assert(rulesets@.take(k as int) =~= rulesets@);
    }
}

/// Rules that apply to files with extension `ext`: those under `*`, then
/// those under the extension itself.
pub fn rules_for(rulesets: &Vec<(String, Vec<IndexRule>)>, ext: &str) -> (r: Vec<IndexRule>)
    ensures
        r@ == rules_under(rulesets@, seq!['*']) + if ext@ == seq!['*'] {
            Seq::empty()
        } else {
            rules_under(rulesets@, ext@)
        },
{
    let star = String::from_str("*");
    let e = String::from_str(ext);
    proof {
        reveal_strlit("*");
        assert(star@ =~= seq!['*']);
    }
    let mut out: Vec<IndexRule> = Vec::new();
    append_rules_under(rulesets, &star, &mut out);
    if !(e == star) {
        append_rules_under(rulesets, &e, &mut out);
    }
    assert(out@ =~= rules_under(rulesets@, seq!['*']) + if ext@ == seq!['*'] {
        Seq::empty()
    } else {
        rules_under(rulesets@, ext@)
    });
    out
}

/// A file to chunk: its source, its contents with CR LF folded, and the
/// function definitions a parser found in them.
#[derive(Debug, Clone)]
pub struct SourceFile {
    pub source: EmbeddingSource,
    pub content: Vec<u8>,
    pub definitions: Vec<(usize, usize)>,
}

/// The rules `rules_for` gives a file with extension `ext`.
pub open spec fn rules_for_ext(rulesets: Seq<(String, Vec<IndexRule>)>, ext: Seq<char>) -> Seq<IndexRule> {
    rules_under(rulesets, seq!['*']) + if ext == seq!['*'] {
        Seq::empty()
    } else {
        rules_under(rulesets, ext)
    }
}

/// The chunks of file `i`, as `(i, start, end)`.
pub open spec fn chunks_of_file(files: Seq<SourceFile>, rulesets: Seq<(String, Vec<IndexRule>)>, i: int) -> Seq<(int, int, int)> {
    let f = files[i];
    let ext = extension_of(f.source.filepath@);
    file_chunks(f.source, f.content@, rules_for_ext(rulesets, ext), ext, f.definitions@).map_values(
        |r: (int, int)| (i, r.0, r.1),
    )
}

/// The chunks of the first `n` files, file after file.
pub open spec fn all_chunks(files: Seq<SourceFile>, rulesets: Seq<(String, Vec<IndexRule>)>, n: int) -> Seq<(int, int, int)>
    decreases n,
{
    if n <= 0 {
        Seq::empty()
    } else {
        all_chunks(files, rulesets, n - 1) + chunks_of_file(files, rulesets, n - 1)
    }
}

/// The non-empty chunks among `cs`.
pub open spec fn nonempty_chunks(cs: Seq<(int, int, int)>) -> Seq<(int, int, int)>
    decreases cs.len(),
{
    if cs.len() == 0 {
        Seq::empty()
    } else if cs.last().2 > cs.last().1 {
        nonempty_chunks(cs.drop_last()).push(cs.last())
    } else {
        nonempty_chunks(cs.drop_last())
    }
}

/// `item` is chunk `c = (file, start, end)` of `files`.
pub open spec fn file_item(files: Seq<SourceFile>, c: (int, int, int), item: (EmbeddingSource, String, usize)) -> bool {
    0 <= c.0 < files.len() && chunk_item(files[c.0].source, files[c.0].content@, (c.1, c.2), item)
}

proof fn lemma_nonempty_match(
    files: Seq<SourceFile>,
    cs: Seq<(int, int, int)>,
    items: Seq<(EmbeddingSource, String, usize)>,
)
    requires
        cs.len() == items.len(),
        forall|t: int| 0 <= t < cs.len() ==> file_item(files, cs[t], #[trigger] items[t]),
    ensures
        nonempty_chunks(cs).len() == nonempty_items(items).len(),
        forall|t: int|
            0 <= t < nonempty_chunks(cs).len() ==> file_item(files, nonempty_chunks(cs)[t], #[trigger] nonempty_items(items)[t]),
    decreases cs.len(),
{
    if cs.len() > 0 {
        let ci = cs.drop_last();
        let ii = items.drop_last();
        assert forall|t: int| 0 <= t < ci.len() implies file_item(files, ci[t], #[trigger] ii[t]) by {
            assert(ci[t] == cs[t] && ii[t] == items[t]);
        }
        lemma_nonempty_match(files, ci, ii);
        assert(file_item(files, cs[cs.len() - 1], items[items.len() - 1]));
        let nc = nonempty_chunks(ci);
        let ni = nonempty_items(ii);
        if cs.last().2 > cs.last().1 {
            assert forall|t: int| 0 <= t < nc.push(cs.last()).len() implies file_item(files, nc.push(cs.last())[t], #[trigger] ni.push(items.last())[t]) by {
                if t < nc.len() {
                    assert(nc.push(cs.last())[t] == nc[t] && ni.push(items.last())[t] == ni[t]);
                }
            }
        }
    }
}

proof fn lemma_flatten_index<T>(bs: Seq<Vec<T>>, k: int, j: int) -> (w: int)
    requires
        0 <= k < bs.len(),
        0 <= j < bs[k]@.len(),
    ensures
        0 <= w < flatten(bs).len(),
        flatten(bs)[w] == bs[k]@[j],
    decreases bs.len(),
{
    let init = bs.drop_last();
    if k < bs.len() - 1 {
        assert(init[k] == bs[k]);
        let w = lemma_flatten_index(init, k, j);
        assert(flatten(bs)[w] == flatten(init)[w]);
        w
    } else {
        assert(flatten(bs)[flatten(init).len() + j] == bs[k]@[j]);
        flatten(init).len() + j
    }
}

/// Chunks every file under the rules for its extension and packs all the
/// chunks, in file order, into batches for the embedding provider. The
/// batches, one after the other, are exactly the non-empty chunks.
pub fn batch_sources(files: &Vec<SourceFile>, rulesets: &Vec<(String, Vec<IndexRule>)>) -> (r: Vec<Vec<(EmbeddingSource, String, usize)>>)
    ensures
        ({
            let cs = nonempty_chunks(all_chunks(files@, rulesets@, files@.len() as int));
            &&& flatten(r@).len() == cs.len()
            &&& forall|t: int| 0 <= t < cs.len() ==> file_item(files@, cs[t], #[trigger] flatten(r@)[t])
        }),
        forall|k: int, j: int| 0 <= k < r@.len() && 0 <= j < r@[k]@.len() ==> (#[trigger] r@[k]@[j]).2 > 0,
        forall|k: int| 0 <= k < r@.len() ==> batch_ok(#[trigger] r@[k]@),
        forall|k: int| 0 <= k < r@.len() - 1 ==> batch_len(#[trigger] r@[k]@) + r@[k + 1]@[0].2 > TOKEN_LIMIT,
{
    let mut items: Vec<(EmbeddingSource, String, usize)> = Vec::new();
    let mut i: usize = 0;
    while i < files.len()
        invariant
            i <= files@.len(),
            items@.len() == all_chunks(files@, rulesets@, i as int).len(),
            forall|t: int| 0 <= t < items@.len() ==> file_item(files@, all_chunks(files@, rulesets@, i as int)[t], #[trigger] items@[t]),
        decreases files@.len() - i,
    {
        let f = &files[i];
        let ext = file_extension(f.source.filepath.as_str());
        let rules = rules_for(rulesets, ext.as_str());
        let mut chunks = chunk_file(&f.source, &f.content, &rules, ext.as_str(), &f.definitions);
        let ghost i0 = items@;
        let ghost c0 = chunks@;
        let ghost a0 = all_chunks(files@, rulesets@, i as int);
        let ghost fc = chunks_of_file(files@, rulesets@, i as int);
        proof {
            assert(rules@ == rules_for_ext(rulesets@, extension_of(files@[i as int].source.filepath@)));
            assert(all_chunks(files@, rulesets@, i + 1) == a0 + fc);
        }
        items.append(&mut chunks);
        proof {
            assert(items@ == i0 + c0);
            assert forall|t: int| 0 <= t < items@.len() implies file_item(files@, (a0 + fc)[t], #[trigger] items@[t]) by {
                if t < i0.len() {
                    assert(items@[t] == i0[t]);
                } else {
                    assert(items@[t] == c0[t - i0.len()]);
                    assert((a0 + fc)[t] == fc[t - i0.len()]);
                }
            }
        }
        i += 1;
    }
    let ghost all = items@;
    let r = batch_chunks(items);
    proof {
        let cs = all_chunks(files@, rulesets@, files@.len() as int);
        lemma_nonempty_match(files@, cs, all);
        assert forall|k: int, j: int| 0 <= k < r@.len() && 0 <= j < r@[k]@.len() implies (#[trigger] r@[k]@[j]).2 > 0 by {
            let w = lemma_flatten_index(r@, k, j);
            lemma_nonempty_items_positive(all, w);
        }
    }
    r
}

proof fn lemma_nonempty_items_positive(items: Seq<(EmbeddingSource, String, usize)>, w: int)
    requires
        0 <= w < nonempty_items(items).len(),
    ensures
        nonempty_items(items)[w].2 > 0,
    decreases items.len(),
{
    if items.len() > 0 {
        let ni = nonempty_items(items.drop_last());
        if items.last().2 > 0 {
            if w < ni.len() {
                lemma_nonempty_items_positive(items.drop_last(), w);
            }
        } else {
            lemma_nonempty_items_positive(items.drop_last(), w);
        }
    }
}

} // verus!
