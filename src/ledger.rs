//! The ledger of tracked files and the configuration files around it.
//!
//! Local ledger lines: `<path> <sha256 hex> <tag,tag,...>`.
//! Configuration ledger lines: `<path_or_glob> --tag --tag ...`, `#` comments.
//! Rules lines: `<extension_or_*> --rule value ...`.
use vstd::prelude::*;

use crate::codec::string_from_utf8;
use crate::embedding::strings_view;
use vstd::string::*;
use vstd::utf8::{decode_utf8_encode_utf8, encode_utf8, valid_utf8};
use crate::rules::{valid_rule_value, IndexRule, IndexRuleType};
use vstd::utf8::decode_utf8;

verus! {

/// A tracked file, the digest of its contents when last embedded, and its tags.
#[derive(Debug, Clone)]
pub struct LedgerEntry {
    pub filepath: String,
    pub hash: String,
    pub meta: Vec<String>,
}

/// ASCII whitespace, as `split_whitespace` treats it on these files.
pub open spec fn is_blank(b: u8) -> bool {
    b == 32u8 || (9u8 <= b <= 13u8)
}

/// `r` lists runs of non-blank bytes of `s[start..end)`, in order, apart.
pub open spec fn words_ok(s: Seq<u8>, start: int, end: int, r: Seq<(usize, usize)>) -> bool {
    &&& forall|t: int| 0 <= t < r.len() ==> start <= (#[trigger] r[t]).0 < r[t].1 <= end
    &&& forall|t: int| 0 <= t < r.len() - 1 ==> (#[trigger] r[t]).1 < r[t + 1].0
    &&& forall|t: int, i: int|
        #![trigger r[t], s[i]]
        0 <= t < r.len() && r[t].0 <= i < r[t].1 ==> !is_blank(s[i])
}

/// The words of `s[i..e)`, scanning from `i`; `ws` is the start of the
/// word being read, if any.
pub open spec fn words_from(s: Seq<u8>, e: int, ws: Option<int>, i: int) -> Seq<(int, int)>
    decreases e - i,
{
    if i >= e {
        match ws {
            Some(b) => seq![(b, e)],
            None => Seq::empty(),
        }
    } else if is_blank(s[i]) {
        match ws {
            Some(b) => seq![(b, i)] + words_from(s, e, None, i + 1),
            None => words_from(s, e, None, i + 1),
        }
    } else {
        words_from(s, e, if ws is Some { ws } else { Some(i) }, i + 1)
    }
}

/// The words of `s[start..end)`: maximal runs of non-blank bytes, in order.
pub open spec fn words_of(s: Seq<u8>, start: int, end: int) -> Seq<(int, int)> {
    words_from(s, end, None, start)
}

/// Splits `s[start..end)` into words.
pub fn split_words(s: &[u8], start: usize, end: usize) -> (r: Vec<(usize, usize)>)
    requires
        start <= end <= s@.len(),
    ensures
        words_ok(s@, start as int, end as int, r@),
        crate::chunker::as_int_pairs(r@) == words_of(s@, start as int, end as int),
{
    let mut r: Vec<(usize, usize)> = Vec::new();
    let mut i = start;
    assert(crate::chunker::as_int_pairs(r@) + words_from(s@, end as int, None, i as int) =~= words_of(
        s@,
        start as int,
        end as int,
    ));
    while i < end
        invariant
            start <= i <= end <= s@.len(),
            words_ok(s@, start as int, i as int, r@),
            r@.len() > 0 ==> r@.last().1 <= i,
            r@.len() > 0 && r@.last().1 == i && i < end ==> is_blank(s@[i as int]),
            crate::chunker::as_int_pairs(r@) + words_from(s@, end as int, None, i as int) == words_of(
                s@,
                start as int,
                end as int,
            ),
        decreases end - i,
    {
        if s[i] == 32u8 || (9u8 <= s[i] && s[i] <= 13u8) {
            i += 1;
        } else {
            let b = i;
            while i < end && !(s[i] == 32u8 || (9u8 <= s[i] && s[i] <= 13u8))
                invariant
                    b <= i <= end <= s@.len(),
                    b < end && !is_blank(s@[b as int]),
                    forall|k: int| b <= k < i ==> !is_blank(s@[k]),
                    words_from(s@, end as int, None, b as int) == if i == b {
                        words_from(s@, end as int, None, b as int)
                    } else {
                        words_from(s@, end as int, Some(b as int), i as int)
                    },
                decreases end - i,
            {
                i += 1;
            }
            proof {
                assert(words_from(s@, end as int, None, b as int) == words_from(s@, end as int, Some(b as int), i as int));
                if i < end {
                    assert(words_from(s@, end as int, None, b as int) == seq![(b as int, i as int)] + words_from(s@, end as int, None, i + 1));
                    assert(words_from(s@, end as int, None, i as int) == words_from(s@, end as int, None, i + 1));
                }
            }
            let ghost r0 = r@;
            proof {
                if r0.len() > 0 {
                    assert(r0.last().1 <= b);
                }
            }
            r.push((b, i));
            proof {
                assert(crate::chunker::as_int_pairs(r@) =~= crate::chunker::as_int_pairs(r0).push((b as int, i as int)));
                assert(crate::chunker::as_int_pairs(r@) + words_from(s@, end as int, None, i as int) =~= crate::chunker::as_int_pairs(r0)
                    + words_from(s@, end as int, None, b as int));
                assert forall|t: int, k: int|
                    #![trigger r@[t], s@[k]]
                    0 <= t < r@.len() && r@[t].0 <= k < r@[t].1 implies !is_blank(s@[k]) by {
                    if t < r0.len() {
                        assert(r@[t] == r0[t]);
                    }
                }
                assert forall|t: int| 0 <= t < r@.len() - 1 implies (#[trigger] r@[t]).1 < r@[t + 1].0 by {
                    if t < r0.len() - 1 {
                        assert(r@[t] == r0[t] && r@[t + 1] == r0[t + 1]);
                    } else {
                        assert(r@[t] == r0.last());
                    }
                }
            }
        }
    }
    assert(crate::chunker::as_int_pairs(r@) + Seq::<(int, int)>::empty() =~= crate::chunker::as_int_pairs(r@));
    r
}

/// The text of `s[a..b)`, when it is valid UTF-8.
pub fn word_text(s: &[u8], a: usize, b: usize) -> (r: Option<String>)
    requires
        a <= b <= s@.len(),
    ensures
        r is Some <==> valid_utf8(s@.subrange(a as int, b as int)),
        r matches Some(t) ==> encode_utf8(t@) == s@.subrange(a as int, b as int),
{
    let mut v: Vec<u8> = Vec::new();
    let mut i = a;
    while i < b
        invariant
            a <= i <= b <= s@.len(),
            v@ == s@.subrange(a as int, i as int),
        decreases b - i,
    {
        v.push(s[i]);
        assert(v@ =~= s@.subrange(a as int, i + 1));
        i += 1;
    }
    let ghost bytes = v@;
    let r = string_from_utf8(v);
    proof {
        if valid_utf8(bytes) {
            decode_utf8_encode_utf8(bytes);
        }
    }
    r
}

/// The lines of `s` from `i` on, the current one begun at `start`.
pub open spec fn lines_from(s: Seq<u8>, start: int, i: int) -> Seq<(int, int)>
    decreases s.len() - i,
{
    if i >= s.len() {
        if start < s.len() {
            seq![(start, s.len() as int)]
        } else {
            Seq::empty()
        }
    } else if s[i] == 10u8 {
        seq![(start, i)] + lines_from(s, i + 1, i + 1)
    } else {
        lines_from(s, start, i + 1)
    }
}

/// The lines of `s`: split at LF, a final LF ending the last line.
pub open spec fn lines_of(s: Seq<u8>) -> Seq<(int, int)> {
    lines_from(s, 0, 0)
}

/// The lines of `s` (split at LF, a final LF ending the last line), as ranges.
pub fn split_lines(s: &[u8]) -> (r: Vec<(usize, usize)>)
    ensures
        crate::chunker::as_int_pairs(r@) == lines_of(s@),
        forall|t: int| 0 <= t < r@.len() ==> (#[trigger] r@[t]).0 <= r@[t].1 <= s@.len(),
        forall|t: int, i: int| #![trigger r@[t], s@[i]] 0 <= t < r@.len() && r@[t].0 <= i < r@[t].1 ==> s@[i] != 10u8,
{
    let mut r: Vec<(usize, usize)> = Vec::new();
    let mut start: usize = 0;
    let mut i: usize = 0;
    assert(crate::chunker::as_int_pairs(r@) + lines_from(s@, 0, 0) =~= lines_of(s@));
    while i < s.len()
        invariant
            start <= i <= s@.len(),
            forall|k: int| start <= k < i ==> s@[k] != 10u8,
            forall|t: int| 0 <= t < r@.len() ==> (#[trigger] r@[t]).0 <= r@[t].1 <= s@.len(),
            forall|t: int, k: int| #![trigger r@[t], s@[k]] 0 <= t < r@.len() && r@[t].0 <= k < r@[t].1 ==> s@[k] != 10u8,
            crate::chunker::as_int_pairs(r@) + lines_from(s@, start as int, i as int) == lines_of(s@),
        decreases s@.len() - i,
    {
        if s[i] == 10u8 {
            let ghost r0 = r@;
            r.push((start, i));
            proof {
                assert(crate::chunker::as_int_pairs(r@) =~= crate::chunker::as_int_pairs(r0).push((start as int, i as int)));
                assert(crate::chunker::as_int_pairs(r@) + lines_from(s@, i + 1, i + 1) =~= crate::chunker::as_int_pairs(r0)
                    + lines_from(s@, start as int, i as int));
                assert forall|t: int, k: int| #![trigger r@[t], s@[k]] 0 <= t < r@.len() && r@[t].0 <= k < r@[t].1 implies s@[k] != 10u8 by {
                    if t < r0.len() {
                        assert(r@[t] == r0[t]);
                    }
                }
            }
            start = i + 1;
        }
        i += 1;
    }
    if start < s.len() {
        let ghost r0 = r@;
        r.push((start, s.len()));
        proof {
            assert(crate::chunker::as_int_pairs(r@) =~= crate::chunker::as_int_pairs(r0) + lines_from(s@, start as int, i as int));
            assert forall|t: int, k: int| #![trigger r@[t], s@[k]] 0 <= t < r@.len() && r@[t].0 <= k < r@[t].1 implies s@[k] != 10u8 by {
                if t < r0.len() {
                    assert(r@[t] == r0[t]);
                }
            }
        }
    } else {
        assert(crate::chunker::as_int_pairs(r@) =~= crate::chunker::as_int_pairs(r@) + lines_from(s@, start as int, i as int));
    }
    r
}

/// The comma-separated parts of `s[..e)` from `i` on, the current one begun
/// at `start` (an empty part counts).
pub open spec fn comma_parts(s: Seq<u8>, e: int, start: int, i: int) -> Seq<(int, int)>
    decreases e - i,
{
    if i >= e {
        seq![(start, e)]
    } else if s[i] == 44u8 {
        seq![(start, i)] + comma_parts(s, e, i + 1, i + 1)
    } else {
        comma_parts(s, e, start, i + 1)
    }
}

pub open spec fn parts_utf8(s: Seq<u8>, ps: Seq<(int, int)>) -> bool {
    forall|k: int| 0 <= k < ps.len() ==> valid_utf8(s.subrange((#[trigger] ps[k]).0, ps[k].1))
}

/// `v` holds the texts of the ranges `ps` of `s`.
pub open spec fn texts_of(s: Seq<u8>, ps: Seq<(int, int)>, v: Seq<String>) -> bool {
    v.len() == ps.len() && forall|k: int|
        0 <= k < v.len() ==> encode_utf8((#[trigger] v[k])@) == s.subrange(ps[k].0, ps[k].1)
}

/// Splits `s[a..b)` at each `,` into texts; `None` when one is not UTF-8.
fn split_commas(s: &[u8], a: usize, b: usize) -> (r: Option<Vec<String>>)
    requires
        a <= b <= s@.len(),
    ensures
        r is Some <==> parts_utf8(s@, comma_parts(s@, b as int, a as int, a as int)),
        r matches Some(v) ==> texts_of(s@, comma_parts(s@, b as int, a as int, a as int), v@),
{
    let ghost all = comma_parts(s@, b as int, a as int, a as int);
    let mut out: Vec<String> = Vec::new();
    let mut start = a;
    let mut i = a;
    let ghost mut done: Seq<(int, int)> = Seq::empty();
    while i < b
        invariant
            a <= start <= i <= b <= s@.len(),
            done + comma_parts(s@, b as int, start as int, i as int) == all,
            all == comma_parts(s@, b as int, a as int, a as int),
            parts_utf8(s@, done),
            texts_of(s@, done, out@),
            forall|k: int| 0 <= k < done.len() ==> 0 <= (#[trigger] done[k]).0 <= done[k].1 <= s@.len(),
        decreases b - i,
    {
        if s[i] == 44u8 {
            let ghost d0 = done;
            proof {
                done = done.push((start as int, i as int));
                assert(done + comma_parts(s@, b as int, i + 1, i + 1) =~= d0 + comma_parts(s@, b as int, start as int, i as int));
            }
            match word_text(s, start, i) {
                Some(t) => {
                    let ghost o0 = out@;
                    out.push(t);
                    proof {
                        assert forall|k: int| 0 <= k < out@.len() implies encode_utf8((#[trigger] out@[k])@) == s@.subrange(done[k].0, done[k].1) by {
                            if k < o0.len() {
                                assert(out@[k] == o0[k]);
                            }
                        }
                        assert forall|k: int| 0 <= k < done.len() implies valid_utf8(s@.subrange((#[trigger] done[k]).0, done[k].1)) by {
                            if k < d0.len() {
                                assert(done[k] == d0[k]);
                            }
                        }
                    }
                },
                None => {
                    proof {
                        assert(all[d0.len() as int] == (start as int, i as int));
                    }
                    return None;
                },
            }
            start = i + 1;
        }
        i += 1;
    }
    let ghost d0 = done;
    proof {
        assert(all == d0.push((start as int, b as int)));
    }
    match word_text(s, start, b) {
        Some(t) => {
            let ghost o0 = out@;
            out.push(t);
            proof {
                assert forall|k: int| 0 <= k < out@.len() implies encode_utf8((#[trigger] out@[k])@) == s@.subrange(all[k].0, all[k].1) by {
                    if k < o0.len() {
                        assert(out@[k] == o0[k]);
                        assert(all[k] == d0[k]);
                    }
                }
                assert forall|k: int| 0 <= k < all.len() implies valid_utf8(s@.subrange((#[trigger] all[k]).0, all[k].1)) by {
                    if k < d0.len() {
                        assert(all[k] == d0[k]);
                    }
                }
            }
        },
        None => {
            proof {
                assert(all[d0.len() as int] == (start as int, b as int));
            }
            return None;
        },
    }
    Some(out)
}

/// A local ledger line `s[l.0..l.1)` is blank, or has a path and a digest
/// and, optionally, comma-separated tags, all UTF-8.
pub open spec fn ledger_line_ok(s: Seq<u8>, l: (int, int)) -> bool {
    let w = words_of(s, l.0, l.1);
    w.len() == 0 || (w.len() >= 2 && valid_utf8(s.subrange(w[0].0, w[0].1)) && valid_utf8(
        s.subrange(w[1].0, w[1].1),
    ) && (w.len() > 2 ==> parts_utf8(s, comma_parts(s, w[2].1, w[2].0, w[2].0))))
}

/// `e` is the entry of the non-blank ledger line `s[l.0..l.1)`.
pub open spec fn ledger_entry_of(s: Seq<u8>, l: (int, int), e: LedgerEntry) -> bool {
    let w = words_of(s, l.0, l.1);
    &&& encode_utf8(e.filepath@) == s.subrange(w[0].0, w[0].1)
    &&& encode_utf8(e.hash@) == s.subrange(w[1].0, w[1].1)
    &&& if w.len() > 2 {
        texts_of(s, comma_parts(s, w[2].1, w[2].0, w[2].0), e.meta@)
    } else {
        e.meta@.len() == 0
    }
}

/// The non-blank lines among `ls`.
pub open spec fn nonblank_lines(s: Seq<u8>, ls: Seq<(int, int)>) -> Seq<(int, int)>
    decreases ls.len(),
{
    if ls.len() == 0 {
        Seq::empty()
    } else if words_of(s, ls.last().0, ls.last().1).len() > 0 {
        nonblank_lines(s, ls.drop_last()).push(ls.last())
    } else {
        nonblank_lines(s, ls.drop_last())
    }
}

/// Parses the local ledger: per line the path, the digest, and optionally
/// the comma-separated tags. Blank lines are skipped; a line with fewer
/// than two words, or text that is not UTF-8, fails with its 1-based number.
pub fn read_ledger(text: &[u8]) -> (r: Result<Vec<LedgerEntry>, usize>)
    ensures
        r is Ok <==> forall|j: int| 0 <= j < lines_of(text@).len() ==> ledger_line_ok(text@, #[trigger] lines_of(text@)[j]),
        r matches Err(line) ==> 1 <= line <= lines_of(text@).len() && !ledger_line_ok(text@, lines_of(text@)[line - 1])
            && forall|j: int| 0 <= j < line - 1 ==> ledger_line_ok(text@, #[trigger] lines_of(text@)[j]),
        r matches Ok(es) ==> {
            let nb = nonblank_lines(text@, lines_of(text@));
            &&& es@.len() == nb.len()
            &&& forall|t: int| 0 <= t < es@.len() ==> ledger_entry_of(text@, nb[t], #[trigger] es@[t])
        },
{
    let lines = split_lines(text);
    let ghost ls = lines_of(text@);
    let mut out: Vec<LedgerEntry> = Vec::new();
    let mut k: usize = 0;
    proof {
        assert forall|t: int| 0 <= t < lines@.len() implies ls[t] == (lines@[t].0 as int, lines@[t].1 as int) by {
            assert(crate::chunker::as_int_pairs(lines@)[t] == ls[t]);
        }
        assert(ls.take(0) =~= Seq::<(int, int)>::empty());
    }
    while k < lines.len()
        invariant
            k <= lines@.len(),
            ls == lines_of(text@),
            ls.len() == lines@.len(),
            forall|t: int| 0 <= t < lines@.len() ==> ls[t] == (lines@[t].0 as int, lines@[t].1 as int),
            forall|t: int| 0 <= t < lines@.len() ==> (#[trigger] lines@[t]).0 <= lines@[t].1 <= text@.len(),
            forall|j: int| 0 <= j < k ==> ledger_line_ok(text@, #[trigger] ls[j]),
            out@.len() == nonblank_lines(text@, ls.take(k as int)).len(),
            forall|t: int| 0 <= t < out@.len() ==> ledger_entry_of(text@, nonblank_lines(text@, ls.take(k as int))[t], #[trigger] out@[t]),
        decreases lines@.len() - k,
    {
        let (a, b) = lines[k];
        let words = split_words(text, a, b);
        let ghost w = words_of(text@, a as int, b as int);
        let ghost l = ls[k as int];
        proof {
            assert(l == (a as int, b as int));
            assert(ls.take(k + 1).drop_last() =~= ls.take(k as int));
            assert(ls.take(k + 1).last() == l);
            assert forall|t: int| 0 <= t < words@.len() implies w[t] == (words@[t].0 as int, words@[t].1 as int) by {
                assert(crate::chunker::as_int_pairs(words@)[t] == w[t]);
            }
        }
        if words.len() > 0 {
            if words.len() < 2 {
                return Err(k + 1);
            }
            let (p0, p1) = words[0];
            let (h0, h1) = words[1];
            let filepath = match word_text(text, p0, p1) {
                Some(t) => t,
                None => return Err(k + 1),
            };
            let hash = match word_text(text, h0, h1) {
                Some(t) => t,
                None => return Err(k + 1),
            };
            let meta = if words.len() > 2 {
                let (m0, m1) = words[2];
                match split_commas(text, m0, m1) {
                    Some(m) => m,
                    None => return Err(k + 1),
                }
            } else {
                Vec::new()
            };
            let e = LedgerEntry { filepath, hash, meta };
            let ghost o0 = out@;
            proof {
                assert(ledger_entry_of(text@, l, e));
            }
            out.push(e);
            proof {
                let nb1 = nonblank_lines(text@, ls.take(k + 1));
                assert(nb1 == nonblank_lines(text@, ls.take(k as int)).push(l));
                assert forall|t: int| 0 <= t < out@.len() implies ledger_entry_of(text@, nb1[t], #[trigger] out@[t]) by {
                    if t < o0.len() {
                        assert(out@[t] == o0[t]);
                    }
                }
            }
        } else {
            proof {
                assert(nonblank_lines(text@, ls.take(k + 1)) == nonblank_lines(text@, ls.take(k as int)));
            }
        }
        k += 1;
    }
    proof {
        assert(ls.take(k as int) =~= ls);
    }
    Ok(out)
}

pub uninterp spec fn sha256(b: Seq<u8>) -> Seq<u8>;

/// Relies on `sha2::Sha256::digest`: the SHA-256 digest of the bytes, 32 bytes.
#[verifier::external_body]
fn sha256_digest(bytes: &[u8]) -> (r: Vec<u8>)
    ensures
        r@ == sha256(bytes@),
        r@.len() == 32,
{
    <sha2::Sha256 as sha2::Digest>::digest(bytes).to_vec()
}

pub open spec fn hex_digit(n: u8) -> u8 {
    if n < 10 {
        (48 + n) as u8
    } else {
        (87 + n) as u8
    }
}

/// Two lower-case hex digits per byte.
pub open spec fn hex_lower(b: Seq<u8>) -> Seq<u8>
    decreases b.len(),
{
    if b.len() == 0 {
        Seq::empty()
    } else {
        hex_lower(b.drop_last()) + seq![hex_digit(b.last() / 16), hex_digit(b.last() % 16)]
    }
}

pub fn to_hex(b: &Vec<u8>) -> (r: Vec<u8>)
    ensures
        r@ == hex_lower(b@),
{
    let mut out: Vec<u8> = Vec::new();
    let mut i: usize = 0;
    while i < b.len()
        invariant
            i <= b@.len(),
            out@ == hex_lower(b@.take(i as int)),
        decreases b@.len() - i,
    {
        let hi = b[i] / 16;
        let lo = b[i] % 16;
        out.push(if hi < 10 { 48 + hi } else { 87 + hi });
        out.push(if lo < 10 { 48 + lo } else { 87 + lo });
        proof {
            assert(b@.take(i + 1).drop_last() =~= b@.take(i as int));
            assert(out@ =~= hex_lower(b@.take(i + 1)));
        }
        i += 1;
    }
    assert(b@.take(i as int) =~= b@);
    out
}

/// The positions, among the first `n`, whose recorded digest differs
/// from `hashes`.
pub open spec fn stale_positions(ledger: Seq<LedgerEntry>, hashes: Seq<Vec<u8>>, n: int) -> Seq<int>
    decreases n,
{
    if n <= 0 {
        Seq::empty()
    } else if encode_utf8(ledger[n - 1].hash@) != hashes[n - 1]@ {
        stale_positions(ledger, hashes, n - 1).push(n - 1)
    } else {
        stale_positions(ledger, hashes, n - 1)
    }
}

/// `r` holds, in order, the path and digest of each entry at `pos`.
pub open spec fn entries_at(r: Seq<LedgerEntry>, ledger: Seq<LedgerEntry>, pos: Seq<int>) -> bool {
    &&& r.len() == pos.len()
    &&& forall|t: int|
        0 <= t < r.len() ==> (#[trigger] r[t]).filepath@ == ledger[pos[t]].filepath@ && r[t].hash@
            == ledger[pos[t]].hash@ && strings_view(r[t].meta@) == strings_view(ledger[pos[t]].meta@)
}

/// The entries whose recorded digest differs from `hashes` (the hex digest
/// of each file's contents now), in ledger order.
pub fn select_stale(ledger: &Vec<LedgerEntry>, hashes: &Vec<Vec<u8>>) -> (r: Vec<LedgerEntry>)
    requires
        ledger@.len() == hashes@.len(),
    ensures
        entries_at(r@, ledger@, stale_positions(ledger@, hashes@, ledger@.len() as int)),
{
    let mut out: Vec<LedgerEntry> = Vec::new();
    let mut i: usize = 0;
    while i < ledger.len()
        invariant
            ledger@.len() == hashes@.len(),
            i <= ledger@.len(),
            entries_at(out@, ledger@, stale_positions(ledger@, hashes@, i as int)),
        decreases ledger@.len() - i,
    {
        let recorded = ledger[i].hash.as_str().as_bytes_vec();
        let same = word_is(&recorded, &hashes[i]);
        let ghost pos0 = stale_positions(ledger@, hashes@, i as int);
        if !same {
            let e = LedgerEntry {
                filepath: ledger[i].filepath.clone(),
                hash: ledger[i].hash.clone(),
                meta: crate::store::clone_strings(&ledger[i].meta),
            };
            let ghost o0 = out@;
            out.push(e);
            proof {
                let pos1 = stale_positions(ledger@, hashes@, i + 1);
                assert(pos1 == pos0.push(i as int));
                assert forall|t: int| 0 <= t < out@.len() implies (#[trigger] out@[t]).filepath@ == ledger@[pos1[t]].filepath@
                    && out@[t].hash@ == ledger@[pos1[t]].hash@ by {
                    if t < o0.len() {
                        assert(out@[t] == o0[t]);
                        assert(pos1[t] == pos0[t]);
                    }
                }
            }
        }
        i += 1;
    }
    out
}

/// The ledger entries whose files' `contents` no longer match their digest.
pub fn get_stale_files(ledger: &Vec<LedgerEntry>, contents: &Vec<Vec<u8>>) -> (r: Vec<LedgerEntry>)
    requires
        ledger@.len() == contents@.len(),
    ensures
        exists|hashes: Seq<Vec<u8>>|
            #![trigger stale_positions(ledger@, hashes, ledger@.len() as int)]
            hashes.len() == contents@.len() && (forall|j: int| 0 <= j < hashes.len() ==> (#[trigger] hashes[j])@
                == hex_lower(sha256(contents@[j]@))) && entries_at(
                r@,
                ledger@,
                stale_positions(ledger@, hashes, ledger@.len() as int),
            ),
{
    let mut hashes: Vec<Vec<u8>> = Vec::new();
    let mut i: usize = 0;
    while i < contents.len()
        invariant
            i <= contents@.len(),
            hashes@.len() == i,
            forall|j: int| 0 <= j < i ==> (#[trigger] hashes@[j])@ == hex_lower(sha256(contents@[j]@)),
        decreases contents@.len() - i,
    {
        let d = sha256_digest(contents[i].as_slice());
        hashes.push(to_hex(&d));
        i += 1;
    }
    let r = select_stale(ledger, &hashes);
    proof {
        assert(stale_positions(ledger@, hashes@, ledger@.len() as int) == stale_positions(ledger@, hashes@, ledger@.len() as int));
    }
    r
}

/// A `--tag` word `s[w.0..w.1)` whose tag is valid UTF-8.
pub open spec fn tag_word_ok(s: Seq<u8>, w: (int, int)) -> bool {
    w.1 - w.0 >= 2 && s[w.0] == 45u8 && s[w.0 + 1] == 45u8 && valid_utf8(s.subrange(w.0 + 2, w.1))
}

/// A configuration ledger line that names a path: not blank, not a `#`
/// comment, every word after the path a `--tag`, all of it UTF-8.
pub open spec fn config_line_ok(s: Seq<u8>) -> bool {
    let w = words_of(s, 0, s.len() as int);
    &&& w.len() > 0
    &&& s[w[0].0] != 35u8
    &&& valid_utf8(s.subrange(w[0].0, w[0].1))
    &&& forall|k: int| 1 <= k < w.len() ==> tag_word_ok(s, #[trigger] w[k])
}

/// A configuration ledger line: the path or glob, and its tags without the
/// leading `--`. `None` for comments, blank lines, lines with a word that
/// is not a `--` tag after the path, and text that is not UTF-8.
pub fn parse_config_line(s: &[u8]) -> (r: Option<(String, Vec<String>)>)
    ensures
        r is Some <==> config_line_ok(s@),
        r matches Some((p, tags)) ==> {
            let w = words_of(s@, 0, s@.len() as int);
            &&& encode_utf8(p@) == s@.subrange(w[0].0, w[0].1)
            &&& tags@.len() == w.len() - 1
            &&& forall|k: int|
                0 <= k < tags@.len() ==> encode_utf8((#[trigger] tags@[k])@) == s@.subrange(
                    w[k + 1].0 + 2,
                    w[k + 1].1,
                )
        },
{
    let words = split_words(s, 0, s.len());
    let ghost w = words_of(s@, 0, s@.len() as int);
    proof {
        assert forall|t: int| 0 <= t < words@.len() implies w[t] == (words@[t].0 as int, words@[t].1 as int) by {
            assert(crate::chunker::as_int_pairs(words@)[t] == w[t]);
        }
    }
    if words.len() == 0 {
        return None;
    }
    let (p0, p1) = words[0];
    if s[p0] == 35u8 {
        return None;
    }
    let path = match word_text(s, p0, p1) {
        Some(t) => t,
        None => return None,
    };
    let mut tags: Vec<String> = Vec::new();
    let mut k: usize = 1;
    while k < words.len()
        invariant
            words_ok(s@, 0, s@.len() as int, words@),
            w == words_of(s@, 0, s@.len() as int),
            w.len() == words@.len(),
            forall|t: int| 0 <= t < words@.len() ==> w[t] == (words@[t].0 as int, words@[t].1 as int),
            1 <= k <= words@.len(),
            tags@.len() == k - 1,
            forall|j: int| 1 <= j < k ==> tag_word_ok(s@, #[trigger] w[j]),
            forall|j: int|
                0 <= j < tags@.len() ==> encode_utf8((#[trigger] tags@[j])@) == s@.subrange(w[j + 1].0 + 2, w[j + 1].1),
        decreases words@.len() - k,
    {
        let (a, b) = words[k];
        proof {
            assert(w[k as int] == (a as int, b as int));
        }
        if b - a < 2 || s[a] != 45u8 || s[a + 1] != 45u8 {
            proof {
                assert(!tag_word_ok(s@, w[k as int]));
                assert(1 <= k < w.len());
                assert(!config_line_ok(s@));
            }
            return None;
        }
        match word_text(s, a + 2, b) {
            Some(t) => {
                let ghost t0 = tags@;
                tags.push(t);
                proof {
                    assert forall|j: int|
                        0 <= j < tags@.len() implies encode_utf8((#[trigger] tags@[j])@) == s@.subrange(w[j + 1].0 + 2, w[j + 1].1) by {
                        if j < t0.len() {
                            assert(tags@[j] == t0[j]);
                        }
                    }
                }
            },
            None => {
                proof {
                    assert(!tag_word_ok(s@, w[k as int]));
                    assert(1 <= k < w.len());
                    assert(!config_line_ok(s@));
                }
                return None;
            },
        }
        k += 1;
    }
    Some((path, tags))
}

/// Tags joined by commas.
pub open spec fn comma_joined(tags: Seq<String>) -> Seq<u8>
    decreases tags.len(),
{
    if tags.len() == 0 {
        Seq::empty()
    } else if tags.len() == 1 {
        encode_utf8(tags[0]@)
    } else {
        comma_joined(tags.drop_last()) + seq![44u8] + encode_utf8(tags.last()@)
    }
}

/// The bytes of a local ledger line for `e`.
pub open spec fn ledger_line_bytes(e: LedgerEntry) -> Seq<u8> {
    encode_utf8(e.filepath@) + seq![32u8] + encode_utf8(e.hash@) + seq![32u8] + comma_joined(e.meta@)
        + seq![10u8]
}

/// One local ledger line: `<path> <digest> <tag,tag,...>` and a LF.
pub fn ledger_line(entry: &LedgerEntry) -> (r: Vec<u8>)
    ensures
        r@ == ledger_line_bytes(*entry),
{
    let mut out: Vec<u8> = Vec::new();
    push_text(&mut out, entry.filepath.as_str());
    out.push(32u8);
    push_text(&mut out, entry.hash.as_str());
    out.push(32u8);
    let ghost head = out@;
    let mut i: usize = 0;
    while i < entry.meta.len()
        invariant
            i <= entry.meta@.len(),
            out@ == head + comma_joined(entry.meta@.take(i as int)),
        decreases entry.meta@.len() - i,
    {
        let ghost o0 = out@;
        if i > 0 {
            out.push(44u8);
        }
        push_text(&mut out, entry.meta[i].as_str());
        proof {
            let t = entry.meta@.take(i + 1);
            assert(t.drop_last() =~= entry.meta@.take(i as int));
            assert(t.last() == entry.meta@[i as int]);
            if i == 0 {
                assert(t[0] == entry.meta@[0]);
            }
            assert(out@ =~= head + comma_joined(t));
        }
        i += 1;
    }
    assert(entry.meta@.take(i as int) =~= entry.meta@);
    out.push(10u8);
    assert(out@ =~= ledger_line_bytes(*entry));
    out
}

fn push_text(out: &mut Vec<u8>, t: &str)
    ensures
        final(out)@ == old(out)@ + encode_utf8(t@),
{
    let b = t.as_bytes_vec();
    let mut i: usize = 0;
    let ghost start = out@;
    while i < b.len()
        invariant
            i <= b@.len(),
            b@ == encode_utf8(t@),
            out@ == start + b@.take(i as int),
            start == old(out)@,
        decreases b@.len() - i,
    {
        out.push(b[i]);
        assert(out@ =~= start + b@.take(i + 1));
        i += 1;
    }
    assert(b@.take(i as int) =~= b@);
}

/// `s[i..e)` with `"` removed and the escapes `\n`, `\t`, `\r` turned into
/// the characters.
pub open spec fn unescaped(s: Seq<u8>, e: int, i: int) -> Seq<u8>
    decreases e - i,
{
    if i >= e {
        Seq::empty()
    } else if s[i] == 34u8 {
        unescaped(s, e, i + 1)
    } else if s[i] == 92u8 && i + 1 < e && (s[i + 1] == 110u8 || s[i + 1] == 116u8 || s[i + 1] == 114u8) {
        seq![if s[i + 1] == 110u8 { 10u8 } else if s[i + 1] == 116u8 { 9u8 } else { 13u8 }] + unescaped(s, e, i + 2)
    } else {
        seq![s[i]] + unescaped(s, e, i + 1)
    }
}

/// Removes `"` and turns the escapes `\\n`, `\\t`, `\\r` into the characters.
pub fn unescape_rule_value(s: &[u8], a: usize, b: usize) -> (r: Vec<u8>)
    requires
        a <= b <= s@.len(),
    ensures
        r@ == unescaped(s@, b as int, a as int),
{
    let mut out: Vec<u8> = Vec::new();
    let mut i = a;
    assert(out@ + unescaped(s@, b as int, a as int) =~= unescaped(s@, b as int, a as int));
    while i < b
        invariant
            a <= i <= b <= s@.len(),
            out@ + unescaped(s@, b as int, i as int) == unescaped(s@, b as int, a as int),
        decreases b - i,
    {
        let c = s[i];
        let ghost o0 = out@;
        if c == 34u8 {
            i += 1;
        } else if c == 92u8 && i + 1 < b && (s[i + 1] == 110u8 || s[i + 1] == 116u8 || s[i + 1] == 114u8) {
            let e = s[i + 1];
            let m = if e == 110u8 { 10u8 } else if e == 116u8 { 9u8 } else { 13u8 };
            out.push(m);
            assert(out@ + unescaped(s@, b as int, i + 2) =~= o0 + unescaped(s@, b as int, i as int));
            i += 2;
        } else {
            out.push(c);
            assert(out@ + unescaped(s@, b as int, i + 1) =~= o0 + unescaped(s@, b as int, i as int));
            i += 1;
        }
    }
    assert(out@ + unescaped(s@, b as int, i as int) =~= out@);
    out
}

pub open spec fn lower_byte(c: u8) -> u8 {
    if 65u8 <= c <= 90u8 {
        (c + 32) as u8
    } else {
        c
    }
}

/// The rule kind a `--flag` word names, letters in any case.
pub open spec fn flag_kind(word: Seq<u8>) -> Option<IndexRuleType> {
    let l = word.map_values(|c: u8| lower_byte(c));
    if l == seq![45u8, 45u8, 99u8, 111u8, 100u8, 101u8] {
        Some(IndexRuleType::Code)
    } else if l == seq![45u8, 45u8, 115u8, 112u8, 108u8, 105u8, 116u8] {
        Some(IndexRuleType::Split)
    } else if l == seq![45u8, 45u8, 109u8, 97u8, 120u8, 108u8, 101u8, 110u8, 103u8, 116u8, 104u8] {
        Some(IndexRuleType::MaxLength)
    } else if l == seq![45u8, 45u8, 109u8, 105u8, 110u8, 108u8, 101u8, 110u8, 103u8, 116u8, 104u8] {
        Some(IndexRuleType::MinLength)
    } else if l == seq![45u8, 45u8, 97u8, 108u8, 112u8, 104u8, 97u8, 110u8, 117u8, 109u8, 101u8, 114u8, 105u8, 99u8] {
        Some(IndexRuleType::Alphanumeric)
    } else {
        None
    }
}

fn rule_flag(s: &[u8], a: usize, b: usize) -> (r: Option<IndexRuleType>)
    requires
        a <= b <= s@.len(),
    ensures
        r == flag_kind(s@.subrange(a as int, b as int)),
{
    let mut lower: Vec<u8> = Vec::new();
    let mut i = a;
    while i < b
        invariant
            a <= i <= b <= s@.len(),
            lower@ == s@.subrange(a as int, i as int).map_values(|c: u8| lower_byte(c)),
        decreases b - i,
    {
        let c = s[i];
        lower.push(if 65u8 <= c && c <= 90u8 { c + 32 } else { c });
        assert(lower@ =~= s@.subrange(a as int, i + 1).map_values(|c: u8| lower_byte(c)));
        i += 1;
    }
    let code: Vec<u8> = vec![45u8, 45u8, 99u8, 111u8, 100u8, 101u8];
    let split: Vec<u8> = vec![45u8, 45u8, 115u8, 112u8, 108u8, 105u8, 116u8];
    let maxl: Vec<u8> = vec![45u8, 45u8, 109u8, 97u8, 120u8, 108u8, 101u8, 110u8, 103u8, 116u8, 104u8];
    let minl: Vec<u8> = vec![45u8, 45u8, 109u8, 105u8, 110u8, 108u8, 101u8, 110u8, 103u8, 116u8, 104u8];
    let alnum: Vec<u8> = vec![45u8, 45u8, 97u8, 108u8, 112u8, 104u8, 97u8, 110u8, 117u8, 109u8, 101u8, 114u8, 105u8, 99u8];
    assert(code@ =~= seq![45u8, 45u8, 99u8, 111u8, 100u8, 101u8]);
    assert(split@ =~= seq![45u8, 45u8, 115u8, 112u8, 108u8, 105u8, 116u8]);
    assert(maxl@ =~= seq![45u8, 45u8, 109u8, 97u8, 120u8, 108u8, 101u8, 110u8, 103u8, 116u8, 104u8]);
    assert(minl@ =~= seq![45u8, 45u8, 109u8, 105u8, 110u8, 108u8, 101u8, 110u8, 103u8, 116u8, 104u8]);
    assert(alnum@ =~= seq![45u8, 45u8, 97u8, 108u8, 112u8, 104u8, 97u8, 110u8, 117u8, 109u8, 101u8, 114u8, 105u8, 99u8]);
    if word_is(&lower, &code) {
        Some(IndexRuleType::Code)
    } else if word_is(&lower, &split) {
        Some(IndexRuleType::Split)
    } else if word_is(&lower, &maxl) {
        Some(IndexRuleType::MaxLength)
    } else if word_is(&lower, &minl) {
        Some(IndexRuleType::MinLength)
    } else if word_is(&lower, &alnum) {
        Some(IndexRuleType::Alphanumeric)
    } else {
        None
    }
}

fn word_is(v: &Vec<u8>, w: &Vec<u8>) -> (r: bool)
    ensures
        r == (v@ == w@),
{
    if v.len() != w.len() {
        return false;
    }
    let mut i: usize = 0;
    while i < v.len()
        invariant
            v@.len() == w@.len(),
            i <= v@.len(),
            forall|j: int| 0 <= j < i ==> v@[j] == w@[j],
        decreases v@.len() - i,
    {
        if v[i] != w[i] {
            return false;
        }
        i += 1;
    }
    assert(v@ =~= w@);
    true
}

/// The rules read from the words `w[1..j)` of a rules line, and the kind the
/// last flag set: a `--flag` word sets the kind (an unknown one is
/// ignored); any other word is a value, kept with the current kind when it
/// is UTF-8 and the kind accepts it, which resets the kind to `Naive`.
pub open spec fn scan_rules(s: Seq<u8>, w: Seq<(int, int)>, j: int) -> (Seq<(IndexRuleType, Seq<char>)>, IndexRuleType)
    decreases j,
{
    if j <= 1 {
        (Seq::empty(), IndexRuleType::Naive)
    } else {
        let (rs, t) = scan_rules(s, w, j - 1);
        let word = s.subrange(w[j - 1].0, w[j - 1].1);
        if word.len() >= 2 && word[0] == 45u8 && word[1] == 45u8 {
            (rs, match flag_kind(word) {
                Some(f) => f,
                None => t,
            })
        } else {
            let v = unescaped(s, w[j - 1].1, w[j - 1].0);
            if valid_utf8(v) && valid_rule_value(t, decode_utf8(v)) {
                (rs.push((t, decode_utf8(v))), IndexRuleType::Naive)
            } else {
                (rs, t)
            }
        }
    }
}

pub open spec fn rules_model(rs: Seq<IndexRule>) -> Seq<(IndexRuleType, Seq<char>)> {
    rs.map_values(|r: IndexRule| (r.rule_type, r.value@))
}

/// What a rules line `s[l.0..l.1)` says: its key and rules, when it has at
/// least two words and a UTF-8 key.
pub open spec fn rules_line(s: Seq<u8>, l: (int, int)) -> Option<(Seq<char>, Seq<(IndexRuleType, Seq<char>)>)> {
    let w = words_of(s, l.0, l.1);
    if w.len() >= 2 && valid_utf8(s.subrange(w[0].0, w[0].1)) {
        Some((decode_utf8(s.subrange(w[0].0, w[0].1)), scan_rules(s, w, w.len() as int).0))
    } else {
        None
    }
}

/// The index of the first entry keyed `key`, or the length when none is.
pub open spec fn key_index(m: Seq<(Seq<char>, Seq<(IndexRuleType, Seq<char>)>)>, key: Seq<char>) -> int
    decreases m.len(),
{
    if m.len() == 0 {
        0
    } else if key_index(m.drop_last(), key) < m.len() - 1 {
        key_index(m.drop_last(), key)
    } else if m.last().0 == key {
        m.len() - 1
    } else {
        m.len() as int
    }
}

/// The rulesets of lines `ls`, a later line for a key replacing the earlier.
pub open spec fn rulesets_of(s: Seq<u8>, ls: Seq<(int, int)>) -> Seq<(Seq<char>, Seq<(IndexRuleType, Seq<char>)>)>
    decreases ls.len(),
{
    if ls.len() == 0 {
        Seq::empty()
    } else {
        let m = rulesets_of(s, ls.drop_last());
        match rules_line(s, ls.last()) {
            Some((key, rules)) => {
                let t = key_index(m, key);
                if t < m.len() {
                    m.update(t, (key, rules))
                } else {
                    m.push((key, rules))
                }
            },
            None => m,
        }
    }
}

pub open spec fn rulesets_model(r: Seq<(String, Vec<IndexRule>)>) -> Seq<(Seq<char>, Seq<(IndexRuleType, Seq<char>)>)> {
    r.map_values(|e: (String, Vec<IndexRule>)| (e.0@, rules_model(e.1@)))
}

proof fn lemma_key_index(m: Seq<(Seq<char>, Seq<(IndexRuleType, Seq<char>)>)>, key: Seq<char>)
    ensures
        0 <= key_index(m, key) <= m.len(),
        key_index(m, key) < m.len() ==> m[key_index(m, key)].0 == key,
        forall|j: int| 0 <= j < key_index(m, key) ==> (#[trigger] m[j]).0 != key,
    decreases m.len(),
{
    if m.len() > 0 {
        lemma_key_index(m.drop_last(), key);
        assert forall|j: int| 0 <= j < key_index(m, key) implies (#[trigger] m[j]).0 != key by {
            if j < m.len() - 1 {
                assert(m[j] == m.drop_last()[j]);
            }
        }
        if key_index(m.drop_last(), key) < m.len() - 1 {
            assert(m[key_index(m, key)] == m.drop_last()[key_index(m, key)]);
        }
    }
}

/// Reads the rules of one line `s[a..b)`, as `rules_line` says.
fn parse_rules_line(text: &[u8], a: usize, b: usize) -> (r: Option<(String, Vec<IndexRule>)>)
    requires
        a <= b <= text@.len(),
    ensures
        match rules_line(text@, (a as int, b as int)) {
            Some((key, rules)) => r matches Some((k, rs)) && k@ == key && rules_model(rs@) == rules,
            None => r is None,
        },
{
    let words = split_words(text, a, b);
    let ghost w = words_of(text@, a as int, b as int);
    proof {
        assert forall|t: int| 0 <= t < words@.len() implies w[t] == (words@[t].0 as int, words@[t].1 as int) by {
            assert(crate::chunker::as_int_pairs(words@)[t] == w[t]);
        }
    }
    if words.len() < 2 {
        return None;
    }
    let (e0, e1) = words[0];
    let ext = match word_text(text, e0, e1) {
        Some(t) => t,
        None => return None,
    };
    proof {
        vstd::utf8::encode_utf8_decode_utf8(ext@);
    }
    let mut rules: Vec<IndexRule> = Vec::new();
    let mut rule_type = IndexRuleType::Naive;
    let mut j: usize = 1;
    while j < words.len()
        invariant
            words_ok(text@, a as int, b as int, words@),
            b <= text@.len(),
            w == words_of(text@, a as int, b as int),
            w.len() == words@.len(),
            forall|t: int| 0 <= t < words@.len() ==> w[t] == (words@[t].0 as int, words@[t].1 as int),
            1 <= j <= words@.len(),
            rules_model(rules@) == scan_rules(text@, w, j as int).0,
            rule_type == scan_rules(text@, w, j as int).1,
        decreases words@.len() - j,
    {
        let (w0, w1) = words[j];
        proof {
            assert(w[j as int] == (w0 as int, w1 as int));
        }
        if w1 - w0 >= 2 && text[w0] == 45u8 && text[w0 + 1] == 45u8 {
            proof {
                let word = text@.subrange(w0 as int, w1 as int);
                assert(word[0] == text@[w0 as int] && word[1] == text@[w0 + 1]);
            }
            match rule_flag(text, w0, w1) {
                Some(t) => rule_type = t,
                None => {},
            }
        } else {
            proof {
                let word = text@.subrange(w0 as int, w1 as int);
                if word.len() >= 2 {
                    assert(word[0] == text@[w0 as int] && word[1] == text@[w0 + 1]);
                }
            }
            let raw = unescape_rule_value(text, w0, w1);
            let ghost rv = raw@;
            match string_from_utf8(raw) {
                Some(value) => {
                    if rule_type.validate(value.as_str()) {
                        let ghost r0 = rules@;
                        rules.push(IndexRule { rule_type, value });
                        assert(rules_model(rules@) =~= rules_model(r0).push((rule_type, decode_utf8(rv))));
                        rule_type = IndexRuleType::Naive;
                    }
                },
                None => {},
            }
        }
        j += 1;
    }
    Some((ext, rules))
}

/// Parses the rules file. A line holds the extension (or `*`) and then
/// flags (`--code`, `--split`, `--maxlength`, `--minlength`,
/// `--alphanumeric`, in any case) each followed by its value; a value
/// that its rule does not accept is dropped, as are unknown flags and
/// lines of fewer than two words. A later line for the same extension
/// replaces an earlier one.
pub fn get_indexing_rules(text: &[u8]) -> (r: Vec<(String, Vec<IndexRule>)>)
    ensures
        rulesets_model(r@) == rulesets_of(text@, lines_of(text@)),
{
    let lines = split_lines(text);
    let ghost ls = lines_of(text@);
    let mut out: Vec<(String, Vec<IndexRule>)> = Vec::new();
    let mut k: usize = 0;
    proof {
        assert forall|t: int| 0 <= t < lines@.len() implies ls[t] == (lines@[t].0 as int, lines@[t].1 as int) by {
            assert(crate::chunker::as_int_pairs(lines@)[t] == ls[t]);
        }
        assert(rulesets_model(out@) =~= rulesets_of(text@, ls.take(0)));
    }
    while k < lines.len()
        invariant
            k <= lines@.len(),
            ls == lines_of(text@),
            ls.len() == lines@.len(),
            forall|t: int| 0 <= t < lines@.len() ==> ls[t] == (lines@[t].0 as int, lines@[t].1 as int),
            forall|t: int| 0 <= t < lines@.len() ==> (#[trigger] lines@[t]).0 <= lines@[t].1 <= text@.len(),
            rulesets_model(out@) == rulesets_of(text@, ls.take(k as int)),
        decreases lines@.len() - k,
    {
        let (a, b) = lines[k];
        let ghost m = rulesets_of(text@, ls.take(k as int));
        proof {
            assert(ls[k as int] == (a as int, b as int));
            assert(ls.take(k + 1).drop_last() =~= ls.take(k as int));
            assert(ls.take(k + 1).last() == (a as int, b as int));
        }
        match parse_rules_line(text, a, b) {
            Some((ext, rules)) => {
                let ghost key = ext@;
                let ghost rm = rules_model(rules@);
                proof {
                    lemma_key_index(m, key);
                }
                let mut t: usize = 0;
                let mut found = false;
                while t < out.len() && !found
                    invariant
                        t <= out@.len(),
                        rulesets_model(out@) == m,
                        key == ext@,
                        forall|j: int| 0 <= j < t ==> out@[j].0@ != key,
                        found ==> t < out@.len() && out@[t as int].0@ == key,
                    decreases out@.len() - t + if found { 0int } else { 1int },
                {
                    if out[t].0 == ext {
                        found = true;
                    } else {
                        t += 1;
                    }
                }
                proof {
                    assert forall|j: int| 0 <= j < t implies m[j].0 != key by {
                        assert(m[j] == (out@[j].0@, rules_model(out@[j].1@)));
                    }
                    if found {
                        assert(m[t as int] == (out@[t as int].0@, rules_model(out@[t as int].1@)));
                        assert(m[t as int].0 == key);
                        if key_index(m, key) < t {
                            assert(m[key_index(m, key)].0 == key);
                        }
                        if key_index(m, key) > t {
                            assert(m[t as int].0 != key);
                        }
                        assert(key_index(m, key) == t);
                    } else {
                        assert(t == out@.len());
                        if key_index(m, key) < m.len() {
                            assert(m[key_index(m, key)] == (out@[key_index(m, key)].0@, rules_model(out@[key_index(m, key)].1@)));
                        }
                        assert(key_index(m, key) == m.len());
                    }
                    assert(rules_line(text@, (a as int, b as int)) == Some((key, rm)));
                    assert(rulesets_of(text@, ls.take(k + 1)) == if key_index(m, key) < m.len() {
                        m.update(key_index(m, key), (key, rm))
                    } else {
                        m.push((key, rm))
                    });
                }
                let ghost o0 = out@;
                if found && t < out.len() {
                    out.remove(t);
                    out.insert(t, (ext, rules));
                    proof {
                        assert(rulesets_model(out@) =~= m.update(t as int, (key, rm)));
                    }
                } else {
                    out.push((ext, rules));
                    proof {
                        assert(rulesets_model(out@) =~= m.push((key, rm)));
                    }
                }
            },
            None => {
                proof {
                    assert(rulesets_of(text@, ls.take(k + 1)) == m);
                }
            },
        }
        k += 1;
    }
    proof {
        assert(ls.take(k as int) =~= ls);
    }
    out
}

/// The lower-case hex SHA-256 digest of `contents`, as a ledger records it.
pub fn content_digest(contents: &Vec<u8>) -> (r: Vec<u8>)
    ensures
        r@ == hex_lower(sha256(contents@)),
{
    let d = sha256_digest(contents.as_slice());
    to_hex(&d)
}

} // verus!
