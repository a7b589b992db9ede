//! Binary codec shared by every on-disk artifact.
//!
//! Fixed-width integers are big-endian; strings carry a 64-bit byte length
//! followed by their UTF-8 bytes; containers carry a 64-bit count. Each
//! decoder is specified by a spec parser, and each encoder by a spec
//! encoding, so that round trips can be stated and proved.
use vstd::prelude::*;
use vstd::utf8::*;

verus! {

/// A decoding failure: the input ended early or held an invalid field at `offset`.
#[derive(Debug, Clone, Copy, PartialEq, Eq, Structural)]
pub struct DecodeError {
    pub offset: usize,
}

pub open spec fn be64(v: u64) -> Seq<u8> {
    seq![
        (v >> 56u64) as u8,
        (v >> 48u64) as u8,
        (v >> 40u64) as u8,
        (v >> 32u64) as u8,
        (v >> 24u64) as u8,
        (v >> 16u64) as u8,
        (v >> 8u64) as u8,
        v as u8,
    ]
}

pub open spec fn be64_value(s: Seq<u8>) -> u64 {
    (s[0] as u64) << 56u64 | (s[1] as u64) << 48u64 | (s[2] as u64) << 40u64 | (s[3] as u64)
        << 32u64 | (s[4] as u64) << 24u64 | (s[5] as u64) << 16u64 | (s[6] as u64) << 8u64 | (
    s[7] as u64)
}

pub open spec fn be32(v: u32) -> Seq<u8> {
    seq![(v >> 24u32) as u8, (v >> 16u32) as u8, (v >> 8u32) as u8, v as u8]
}

pub open spec fn be32_value(s: Seq<u8>) -> u32 {
    (s[0] as u32) << 24u32 | (s[1] as u32) << 16u32 | (s[2] as u32) << 8u32 | (s[3] as u32)
}

/// `e` stands in `b` at position `off`.
pub open spec fn encoded_at(b: Seq<u8>, off: int, e: Seq<u8>) -> bool {
    0 <= off && off + e.len() <= b.len() && b.subrange(off, off + e.len()) == e
}

pub open spec fn parse_u64(b: Seq<u8>, off: int) -> Option<(u64, int)> {
    if 0 <= off && off + 8 <= b.len() {
        Some((be64_value(b.subrange(off, off + 8)), off + 8))
    } else {
        None
    }
}

pub open spec fn parse_u32(b: Seq<u8>, off: int) -> Option<(u32, int)> {
    if 0 <= off && off + 4 <= b.len() {
        Some((be32_value(b.subrange(off, off + 4)), off + 4))
    } else {
        None
    }
}

pub open spec fn parse_u8(b: Seq<u8>, off: int) -> Option<(u8, int)> {
    if 0 <= off && off + 1 <= b.len() {
        Some((b[off], off + 1))
    } else {
        None
    }
}

/// A string: its UTF-8 byte length, then the bytes.
pub open spec fn enc_str(s: Seq<char>) -> Seq<u8> {
    be64(encode_utf8(s).len() as u64) + encode_utf8(s)
}

pub open spec fn parse_str(b: Seq<u8>, off: int) -> Option<(Seq<char>, int)> {
    match parse_u64(b, off) {
        Some((n, p)) => {
            if p + n <= b.len() && valid_utf8(b.subrange(p, p + n)) {
                Some((decode_utf8(b.subrange(p, p + n)), p + n))
            } else {
                None
            }
        },
        None => None,
    }
}

/// A run of strings, without its count.
pub open spec fn enc_strs(xs: Seq<Seq<char>>) -> Seq<u8>
    decreases xs.len(),
{
    if xs.len() == 0 {
        Seq::empty()
    } else {
        enc_strs(xs.drop_last()) + enc_str(xs.last())
    }
}

pub open spec fn parse_strs(b: Seq<u8>, off: int, count: nat) -> Option<(Seq<Seq<char>>, int)>
    decreases count,
{
    if count == 0 {
        Some((Seq::empty(), off))
    } else {
        match parse_strs(b, off, (count - 1) as nat) {
            Some((xs, p)) => match parse_str(b, p) {
                Some((x, q)) => Some((xs.push(x), q)),
                None => None,
            },
            None => None,
        }
    }
}

/// A run of 32-bit words, without a count.
pub open spec fn enc_words(ws: Seq<u32>) -> Seq<u8>
    decreases ws.len(),
{
    if ws.len() == 0 {
        Seq::empty()
    } else {
        enc_words(ws.drop_last()) + be32(ws.last())
    }
}

pub open spec fn parse_words(b: Seq<u8>, off: int, count: nat) -> Option<(Seq<u32>, int)>
    decreases count,
{
    if count == 0 {
        Some((Seq::empty(), off))
    } else {
        match parse_words(b, off, (count - 1) as nat) {
            Some((ws, p)) => match parse_u32(b, p) {
                Some((w, q)) => Some((ws.push(w), q)),
                None => None,
            },
            None => None,
        }
    }
}

pub proof fn lemma_be64_round_trip(v: u64)
    ensures
        be64(v).len() == 8,
        be64_value(be64(v)) == v,
{
    let s = be64(v);
    let (b0, b1, b2, b3, b4, b5, b6, b7) = (s[0], s[1], s[2], s[3], s[4], s[5], s[6], s[7]);
    assert(((b0 as u64) << 56u64 | (b1 as u64) << 48u64 | (b2 as u64) << 40u64 | (b3 as u64)
        << 32u64 | (b4 as u64) << 24u64 | (b5 as u64) << 16u64 | (b6 as u64) << 8u64 | (
    b7 as u64)) == v) by (bit_vector)
        requires
            b0 == (v >> 56u64) as u8,
            b1 == (v >> 48u64) as u8,
            b2 == (v >> 40u64) as u8,
            b3 == (v >> 32u64) as u8,
            b4 == (v >> 24u64) as u8,
            b5 == (v >> 16u64) as u8,
            b6 == (v >> 8u64) as u8,
            b7 == v as u8,
    ;
}

pub proof fn lemma_be32_round_trip(v: u32)
    ensures
        be32(v).len() == 4,
        be32_value(be32(v)) == v,
{
    let s = be32(v);
    let (b0, b1, b2, b3) = (s[0], s[1], s[2], s[3]);
    assert(((b0 as u32) << 24u32 | (b1 as u32) << 16u32 | (b2 as u32) << 8u32 | (b3 as u32))
        == v) by (bit_vector)
        requires
            b0 == (v >> 24u32) as u8,
            b1 == (v >> 16u32) as u8,
            b2 == (v >> 8u32) as u8,
            b3 == v as u8,
    ;
}

pub proof fn lemma_encoded_at_split(b: Seq<u8>, off: int, e1: Seq<u8>, e2: Seq<u8>)
    requires
        encoded_at(b, off, e1 + e2),
    ensures
        encoded_at(b, off, e1),
        encoded_at(b, off + e1.len(), e2),
{
    let w = b.subrange(off, off + e1.len() + e2.len());
    assert(w == e1 + e2);
    assert(b.subrange(off, off + e1.len()) =~= w.subrange(0, e1.len() as int));
    assert(w.subrange(0, e1.len() as int) =~= e1);
    assert(b.subrange(off + e1.len(), off + e1.len() + e2.len()) =~= w.subrange(
        e1.len() as int,
        (e1.len() + e2.len()) as int,
    ));
    assert(w.subrange(e1.len() as int, (e1.len() + e2.len()) as int) =~= e2);
}

pub proof fn lemma_parse_u64_at(b: Seq<u8>, off: int, v: u64)
    requires
        encoded_at(b, off, be64(v)),
    ensures
        parse_u64(b, off) == Some((v, off + 8)),
{
    lemma_be64_round_trip(v);
}

pub proof fn lemma_parse_u32_at(b: Seq<u8>, off: int, v: u32)
    requires
        encoded_at(b, off, be32(v)),
    ensures
        parse_u32(b, off) == Some((v, off + 4)),
{
    lemma_be32_round_trip(v);
}

pub proof fn lemma_parse_str_at(b: Seq<u8>, off: int, s: Seq<char>)
    requires
        encoded_at(b, off, enc_str(s)),
        encode_utf8(s).len() <= u64::MAX,
    ensures
        parse_str(b, off) == Some((s, off + enc_str(s).len())),
{
    let u = encode_utf8(s);
    lemma_be64_round_trip(u.len() as u64);
    lemma_encoded_at_split(b, off, be64(u.len() as u64), u);
    lemma_parse_u64_at(b, off, u.len() as u64);
    encode_utf8_valid_utf8(s);
    encode_utf8_decode_utf8(s);
}

pub open spec fn strs_fit(xs: Seq<Seq<char>>) -> bool {
    forall|i: int| 0 <= i < xs.len() ==> encode_utf8(#[trigger] xs[i]).len() <= u64::MAX
}

pub proof fn lemma_parse_strs_at(b: Seq<u8>, off: int, xs: Seq<Seq<char>>)
    requires
        encoded_at(b, off, enc_strs(xs)),
        strs_fit(xs),
    ensures
        parse_strs(b, off, xs.len()) == Some((xs, off + enc_strs(xs).len())),
    decreases xs.len(),
{
    if xs.len() > 0 {
        let init = xs.drop_last();
        lemma_encoded_at_split(b, off, enc_strs(init), enc_str(xs.last()));
        assert(strs_fit(init)) by {
            assert forall|i: int| 0 <= i < init.len() implies encode_utf8(#[trigger] init[i]).len()
                <= u64::MAX by {
                assert(init[i] == xs[i]);
            }
        }
        lemma_parse_strs_at(b, off, init);
        assert(xs[xs.len() - 1] == xs.last());
        lemma_parse_str_at(b, off + enc_strs(init).len(), xs.last());
        assert(init.push(xs.last()) =~= xs);
    }
}

pub proof fn lemma_parse_words_at(b: Seq<u8>, off: int, ws: Seq<u32>)
    requires
        encoded_at(b, off, enc_words(ws)),
    ensures
        parse_words(b, off, ws.len()) == Some((ws, off + enc_words(ws).len())),
    decreases ws.len(),
{
    if ws.len() > 0 {
        let init = ws.drop_last();
        lemma_encoded_at_split(b, off, enc_words(init), be32(ws.last()));
        lemma_parse_words_at(b, off, init);
        lemma_parse_u32_at(b, off + enc_words(init).len(), ws.last());
        assert(init.push(ws.last()) =~= ws);
    }
}

pub fn put_u64(out: &mut Vec<u8>, v: u64)
    ensures
        final(out)@ == old(out)@ + be64(v),
{
    out.push((v >> 56u64) as u8);
    out.push((v >> 48u64) as u8);
    out.push((v >> 40u64) as u8);
    out.push((v >> 32u64) as u8);
    out.push((v >> 24u64) as u8);
    out.push((v >> 16u64) as u8);
    out.push((v >> 8u64) as u8);
    out.push(v as u8);
    assert(final(out)@ =~= old(out)@ + be64(v));
}

pub fn put_u32(out: &mut Vec<u8>, v: u32)
    ensures
        final(out)@ == old(out)@ + be32(v),
{
    out.push((v >> 24u32) as u8);
    out.push((v >> 16u32) as u8);
    out.push((v >> 8u32) as u8);
    out.push(v as u8);
    assert(final(out)@ =~= old(out)@ + be32(v));
}

pub fn put_str(out: &mut Vec<u8>, s: &str)
    ensures
        final(out)@ == old(out)@ + enc_str(s@),
{
    let bytes = s.as_bytes_vec();
    put_u64(out, bytes.len() as u64);
    let mut i: usize = 0;
    let ghost start = out@;
    while i < bytes.len()
        invariant
            bytes@ == encode_utf8(s@),
            i <= bytes.len(),
            out@ == start + bytes@.subrange(0, i as int),
        decreases bytes.len() - i,
    {
        out.push(bytes[i]);
        i += 1;
        assert(out@ =~= start + bytes@.subrange(0, i as int));
    }
    assert(bytes@.subrange(0, i as int) =~= bytes@);
    assert(final(out)@ =~= old(out)@ + enc_str(s@));
}

pub fn get_u64(b: &[u8], off: usize) -> (r: Result<(u64, usize), DecodeError>)
    ensures
        match r {
            Ok((v, p)) => parse_u64(b@, off as int) == Some((v, p as int)),
            Err(e) => parse_u64(b@, off as int) is None && e.offset == off,
        },
{
    if off > b.len() || b.len() - off < 8 {
        return Err(DecodeError { offset: off });
    }
    let v = (b[off] as u64) << 56u64 | (b[off + 1] as u64) << 48u64 | (b[off + 2] as u64) << 40u64
        | (b[off + 3] as u64) << 32u64 | (b[off + 4] as u64) << 24u64 | (b[off + 5] as u64)
        << 16u64 | (b[off + 6] as u64) << 8u64 | (b[off + 7] as u64);
    let ghost s = b@.subrange(off as int, off + 8);
    assert(s[0] == b@[off as int] && s[1] == b@[off + 1] && s[2] == b@[off + 2] && s[3] == b@[off
        + 3] && s[4] == b@[off + 4] && s[5] == b@[off + 5] && s[6] == b@[off + 6] && s[7] == b@[off
        + 7]);
    Ok((v, off + 8))
}

pub fn get_u32(b: &[u8], off: usize) -> (r: Result<(u32, usize), DecodeError>)
    ensures
        match r {
            Ok((v, p)) => parse_u32(b@, off as int) == Some((v, p as int)),
            Err(e) => parse_u32(b@, off as int) is None && e.offset == off,
        },
{
    if off > b.len() || b.len() - off < 4 {
        return Err(DecodeError { offset: off });
    }
    let v = (b[off] as u32) << 24u32 | (b[off + 1] as u32) << 16u32 | (b[off + 2] as u32) << 8u32
        | (b[off + 3] as u32);
    let ghost s = b@.subrange(off as int, off + 4);
    assert(s[0] == b@[off as int] && s[1] == b@[off + 1] && s[2] == b@[off + 2] && s[3] == b@[off
        + 3]);
    Ok((v, off + 4))
}

pub fn get_u8(b: &[u8], off: usize) -> (r: Result<(u8, usize), DecodeError>)
    ensures
        match r {
            Ok((v, p)) => parse_u8(b@, off as int) == Some((v, p as int)),
            Err(e) => parse_u8(b@, off as int) is None && e.offset == off,
        },
{
    if off >= b.len() {
        return Err(DecodeError { offset: off });
    }
    Ok((b[off], off + 1))
}

/// Relies on std's `String::from_utf8`: it succeeds exactly on valid UTF-8,
/// and the string it returns is the decoding of the bytes.
#[verifier::external_body]
pub(crate) fn string_from_utf8(bytes: Vec<u8>) -> (r: Option<String>)
    ensures
        r is Some <==> valid_utf8(bytes@),
        r matches Some(s) ==> s@ == decode_utf8(bytes@),
{
    String::from_utf8(bytes).ok()
}

pub fn get_str(b: &[u8], off: usize) -> (r: Result<(String, usize), DecodeError>)
    ensures
        match r {
            Ok((s, p)) => parse_str(b@, off as int) == Some((s@, p as int)),
            Err(e) => parse_str(b@, off as int) is None && e.offset == off,
        },
{
    let (n, p) = match get_u64(b, off) {
        Ok(x) => x,
        Err(e) => return Err(e),
    };
    if p > b.len() || n > (b.len() - p) as u64 {
        return Err(DecodeError { offset: off });
    }
    let end = p + n as usize;
    let mut bytes: Vec<u8> = Vec::new();
    let mut i: usize = p;
    while i < end
        invariant
            p <= i <= end <= b.len(),
            bytes@ == b@.subrange(p as int, i as int),
        decreases end - i,
    {
        bytes.push(b[i]);
        i += 1;
        assert(bytes@ =~= b@.subrange(p as int, i as int));
    }
    match string_from_utf8(bytes) {
        Some(s) => Ok((s, end)),
        None => Err(DecodeError { offset: off }),
    }
}

} // verus!
