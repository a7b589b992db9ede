//! The block store's bookkeeping: the directory that maps embedding ids and
//! files to blocks, how a full ingest is laid out in blocks, and how one
//! file's records are replaced inside its block.
//!
//! The directory file is text, one LF-terminated line per record:
//! `<id> <filepath> <block>`. A reader takes the first field as the id, the
//! last as the block, and joins the fields between them without separator.
use vstd::prelude::*;
use vstd::utf8::*;

use crate::ledger::{lines_of, split_lines};
use crate::embedding::{
    embeddings_view, strings_view, BlockModel, Embedding, EmbeddingBlock, EmbeddingModel,
    BLOCK_SIZE,
};

verus! {

/// One line of the directory.
#[derive(Debug, Clone)]
pub struct DirectoryEntry {
    pub id: u64,
    pub filepath: String,
    pub block: u64,
}

/// The directory: which block holds each embedding id and each file.
#[derive(Debug, Clone)]
pub struct Directory {
    pub entries: Vec<DirectoryEntry>,
}

/// Why a directory could not be read: the 1-based number of the first bad line.
#[derive(Debug, Clone, Copy, PartialEq, Eq, Structural)]
pub struct DirectoryError {
    pub line: usize,
}

pub open spec fn decimal(v: u64) -> Seq<u8>
    decreases v,
{
    if v < 10 {
        seq![(48 + v) as u8]
    } else {
        decimal(v / 10).push((48 + v % 10) as u8)
    }
}

pub open spec fn is_digit_byte(b: u8) -> bool {
    48 <= b <= 57
}

pub open spec fn decimal_value(s: Seq<u8>) -> nat
    decreases s.len(),
{
    if s.len() == 0 {
        0
    } else {
        decimal_value(s.drop_last()) * 10 + (s.last() - 48) as nat
    }
}

proof fn lemma_decimal_digits(v: u64)
    ensures
        decimal(v).len() > 0,
        forall|i: int| 0 <= i < decimal(v).len() ==> is_digit_byte(#[trigger] decimal(v)[i]),
        decimal_value(decimal(v)) == v,
    decreases v,
{
    if v < 10 {
        let d = decimal(v);
        assert(d.drop_last() =~= Seq::<u8>::empty());
        assert(d.last() == (48 + v) as u8);
        assert(decimal_value(d) == decimal_value(d.drop_last()) * 10 + (d.last() - 48) as nat);
    }
    if v >= 10 {
        lemma_decimal_digits(v / 10);
        let d = decimal(v);
        assert(d.drop_last() =~= decimal(v / 10));
        assert(d.last() == (48 + v % 10) as u8);
        assert((v / 10) * 10 + v % 10 == v);
        assert(decimal_value(d) == decimal_value(d.drop_last()) * 10 + (d.last() - 48) as nat);
        assert forall|i: int| 0 <= i < d.len() implies is_digit_byte(#[trigger] d[i]) by {
            if i < d.len() - 1 {
                assert(d[i] == decimal(v / 10)[i]);
            }
        }
    }
}

/// Appends the decimal digits of `v`.
pub fn put_decimal(out: &mut Vec<u8>, v: u64)
    ensures
        final(out)@ == old(out)@ + decimal(v),
    decreases v,
{
    if v >= 10 {
        put_decimal(out, v / 10);
    }
    out.push((48 + v % 10) as u8);
    proof {
        if v < 10 {
            assert(v % 10 == v);
        }
        assert(final(out)@ =~= old(out)@ + decimal(v));
    }
}

/// The value of a run of decimal digits, when it is one and fits.
pub fn parse_decimal(s: &[u8]) -> (r: Option<u64>)
    ensures
        r is Some <==> (s@.len() > 0 && (forall|i: int| 0 <= i < s@.len() ==> is_digit_byte(
            #[trigger] s@[i],
        )) && decimal_value(s@) <= u64::MAX),
        r matches Some(v) ==> v == decimal_value(s@),
{
    if s.len() == 0 {
        return None;
    }
    let mut v: u64 = 0;
    let mut i: usize = 0;
    while i < s.len()
        invariant
            i <= s@.len(),
            forall|t: int| 0 <= t < i ==> is_digit_byte(#[trigger] s@[t]),
            v == decimal_value(s@.take(i as int)),
        decreases s@.len() - i,
    {
        let b = s[i];
        if b < 48 || b > 57 {
            return None;
        }
        let d = (b - 48) as u64;
        proof {
            assert(s@.take(i + 1).drop_last() =~= s@.take(i as int));
        }
        if v > (u64::MAX - d) / 10 {
            proof {
                let big = v * 10 + d;
                assert(big > u64::MAX) by (nonlinear_arith)
                    requires
                        v > (u64::MAX - d) / 10,
                        d <= 9,
                        big == v * 10 + d,
                ;
                if forall|t: int| 0 <= t < s@.len() ==> is_digit_byte(#[trigger] s@[t]) {
                    lemma_decimal_prefix_le(s@, i + 1);
                }
            }
            return None;
        }
        v = v * 10 + d;
        i += 1;
    }
    assert(s@.take(i as int) =~= s@);
    Some(v)
}

proof fn lemma_decimal_prefix_le(s: Seq<u8>, k: int)
    requires
        0 <= k <= s.len(),
        forall|i: int| 0 <= i < s.len() ==> is_digit_byte(#[trigger] s[i]),
    ensures
        decimal_value(s.take(k)) <= decimal_value(s),
    decreases s.len(),
{
    if k < s.len() {
        let init = s.drop_last();
        assert forall|i: int| 0 <= i < init.len() implies is_digit_byte(#[trigger] init[i]) by {
            assert(init[i] == s[i]);
        }
        lemma_decimal_prefix_le(init, k);
        assert(init.take(k) =~= s.take(k));
    } else {
        assert(s.take(k) =~= s);
    }
}

pub open spec fn entry_line(id: u64, path: Seq<char>, block: u64) -> Seq<u8> {
    decimal(id) + seq![32u8] + encode_utf8(path) + seq![32u8] + decimal(block) + seq![10u8]
}

pub open spec fn entries_text(es: Seq<DirectoryEntry>) -> Seq<u8>
    decreases es.len(),
{
    if es.len() == 0 {
        Seq::empty()
    } else {
        entries_text(es.drop_last()) + entry_line(es.last().id, es.last().filepath@, es.last().block)
    }
}

impl Directory {
    /// The number of records.
    pub fn len(&self) -> (r: usize)
        ensures
            r == self.entries@.len(),
    {
        self.entries.len()
    }

    /// The directory file's contents.
    pub fn render(&self) -> (r: Vec<u8>)
        ensures
            r@ == entries_text(self.entries@),
    {
        let mut out: Vec<u8> = Vec::new();
        let mut i: usize = 0;
        while i < self.entries.len()
            invariant
                i <= self.entries@.len(),
                out@ == entries_text(self.entries@.take(i as int)),
            decreases self.entries@.len() - i,
        {
            let e = &self.entries[i];
            put_decimal(&mut out, e.id);
            out.push(32u8);
            let bytes = e.filepath.as_str().as_bytes_vec();
            let mut j: usize = 0;
            let ghost mid = out@;
            while j < bytes.len()
                invariant
                    j <= bytes@.len(),
                    out@ == mid + bytes@.take(j as int),
                decreases bytes@.len() - j,
            {
                out.push(bytes[j]);
                assert(out@ =~= mid + bytes@.take(j + 1));
                j += 1;
            }
            assert(bytes@.take(j as int) =~= bytes@);
            out.push(32u8);
            put_decimal(&mut out, e.block);
            out.push(10u8);
            proof {
                let t = self.entries@.take(i + 1);
                assert(t.drop_last() =~= self.entries@.take(i as int));
                assert(t.last() == self.entries@[i as int]);
                assert(out@ =~= entries_text(t));
            }
            i += 1;
        }
        assert(self.entries@.take(i as int) =~= self.entries@);
        out
    }

    /// The block that holds embedding `id`, from its first record.
    pub fn block_of(&self, id: u64) -> (r: Option<u64>)
        ensures
            match r {
                Some(b) => exists|i: int|
                    0 <= i < self.entries@.len() && self.entries@[i].id == id && #[trigger] self.entries@[i].block == b
                        && forall|j: int| 0 <= j < i ==> self.entries@[j].id != id,
                None => forall|i: int| 0 <= i < self.entries@.len() ==> #[trigger] self.entries@[i].id != id,
            },
    {
        let mut i: usize = 0;
        while i < self.entries.len()
            invariant
                i <= self.entries@.len(),
                forall|j: int| 0 <= j < i ==> #[trigger] self.entries@[j].id != id,
            decreases self.entries@.len() - i,
        {
            if self.entries[i].id == id {
                return Some(self.entries[i].block);
            }
            i += 1;
        }
        None
    }

    /// The first record of `path`, as its index.
    pub fn find_file(&self, path: &str) -> (r: Option<usize>)
        ensures
            match r {
                Some(i) => i < self.entries@.len() && self.entries@[i as int].filepath@ == path@
                    && forall|j: int| 0 <= j < i ==> #[trigger] self.entries@[j].filepath@ != path@,
                None => forall|i: int| 0 <= i < self.entries@.len() ==> #[trigger] self.entries@[i].filepath@ != path@,
            },
    {
        let p = String::from_str(path);
        let mut i: usize = 0;
        while i < self.entries.len()
            invariant
                p@ == path@,
                i <= self.entries@.len(),
                forall|j: int| 0 <= j < i ==> #[trigger] self.entries@[j].filepath@ != path@,
            decreases self.entries@.len() - i,
        {
            if self.entries[i].filepath == p {
                return Some(i);
            }
            i += 1;
        }
        None
    }

    /// The block of the first record of `path`.
    pub fn block_of_file(&self, path: &str) -> (r: Option<u64>)
        ensures
            match r {
                Some(b) => exists|i: int|
                    0 <= i < self.entries@.len() && self.entries@[i].filepath@ == path@ && #[trigger] self.entries@[i].block == b,
                None => forall|i: int| 0 <= i < self.entries@.len() ==> #[trigger] self.entries@[i].filepath@ != path@,
            },
    {
        match self.find_file(path) {
            Some(i) => Some(self.entries[i].block),
            None => None,
        }
    }

    /// The id of the first record of `path`.
    pub fn id_of_file(&self, path: &str) -> (r: Option<u64>)
        ensures
            match r {
                Some(id) => exists|i: int|
                    0 <= i < self.entries@.len() && self.entries@[i].filepath@ == path@ && #[trigger] self.entries@[i].id == id,
                None => forall|i: int| 0 <= i < self.entries@.len() ==> #[trigger] self.entries@[i].filepath@ != path@,
            },
    {
        match self.find_file(path) {
            Some(i) => Some(self.entries[i].id),
            None => None,
        }
    }

    /// One more than the largest id, or `0` for an empty directory; `None`
    /// when the largest id is `u64::MAX`.
    pub fn next_id(&self) -> (r: Option<u64>)
        ensures
            match r {
                Some(n) => forall|i: int| 0 <= i < self.entries@.len() ==> #[trigger] self.entries@[i].id < n,
                None => exists|i: int| 0 <= i < self.entries@.len() && #[trigger] self.entries@[i].id == u64::MAX,
            },
            r matches Some(n) ==> n == 0 || exists|i: int|
                0 <= i < self.entries@.len() && #[trigger] self.entries@[i].id == n - 1,
    {
        let mut next: u64 = 0;
        let mut i: usize = 0;
        while i < self.entries.len()
            invariant
                i <= self.entries@.len(),
                forall|j: int| 0 <= j < i ==> #[trigger] self.entries@[j].id < next,
                next == 0 || exists|j: int| 0 <= j < i && #[trigger] self.entries@[j].id == next - 1,
            decreases self.entries@.len() - i,
        {
            let id = self.entries[i].id;
            if id == u64::MAX {
                return None;
            }
            if id >= next {
                next = id + 1;
            }
            i += 1;
        }
        Some(next)
    }
}

pub open spec fn without_spaces(s: Seq<u8>) -> Seq<u8>
    decreases s.len(),
{
    if s.len() == 0 {
        s
    } else if s.last() == 32u8 {
        without_spaces(s.drop_last())
    } else {
        without_spaces(s.drop_last()).push(s.last())
    }
}

/// A line `<id> <path...> <block>`: the id before the first space, the block
/// after the last, the path bytes between them with the spaces taken out.
pub open spec fn line_fields(line: Seq<u8>, a: int, b: int) -> bool {
    &&& 0 <= a <= b < line.len()
    &&& line[a] == 32u8 && line[b] == 32u8
    &&& forall|i: int| 0 <= i < a ==> line[i] != 32u8
    &&& forall|i: int| b < i < line.len() ==> line[i] != 32u8
}

fn first_space(line: &[u8]) -> (r: Option<usize>)
    ensures
        match r {
            Some(i) => i < line@.len() && line@[i as int] == 32u8 && forall|j: int| 0 <= j < i ==> line@[j] != 32u8,
            None => forall|j: int| 0 <= j < line@.len() ==> line@[j] != 32u8,
        },
{
    let mut k: usize = 0;
    while k < line.len()
        invariant
            k <= line@.len(),
            forall|j: int| 0 <= j < k ==> line@[j] != 32u8,
        decreases line@.len() - k,
    {
        if line[k] == 32u8 {
            return Some(k);
        }
        k += 1;
    }
    None
}

fn last_space(line: &[u8]) -> (r: Option<usize>)
    ensures
        match r {
            Some(i) => i < line@.len() && line@[i as int] == 32u8 && forall|j: int| i < j < line@.len() ==> line@[j] != 32u8,
            None => forall|j: int| 0 <= j < line@.len() ==> line@[j] != 32u8,
        },
{
    let mut k: usize = line.len();
    while k > 0
        invariant
            k <= line@.len(),
            forall|j: int| k <= j < line@.len() ==> line@[j] != 32u8,
        decreases k,
    {
        if line[k - 1] == 32u8 {
            return Some(k - 1);
        }
        k -= 1;
    }
    None
}

/// `e` is what the directory line `line` says: the id before the first
/// space, the block after the last, the path between without its spaces.
pub open spec fn line_entry(line: Seq<u8>, e: DirectoryEntry) -> bool {
    exists|a: int, b: int|
        #[trigger] line_fields(line, a, b) && decimal_value(line.subrange(0, a)) == e.id
            && decimal_value(line.subrange(b + 1, line.len() as int)) == e.block
            && encode_utf8(e.filepath@) == if a < b {
            without_spaces(line.subrange(a + 1, b))
        } else {
            Seq::empty()
        }
}

/// A run of decimal digits whose value fits 64 bits.
pub open spec fn decimal_ok(s: Seq<u8>) -> bool {
    s.len() > 0 && (forall|i: int| 0 <= i < s.len() ==> is_digit_byte(#[trigger] s[i])) && decimal_value(s)
        <= u64::MAX
}

/// The path bytes of a line split at `a` and `b`.
pub open spec fn path_bytes(line: Seq<u8>, a: int, b: int) -> Seq<u8> {
    if a < b {
        without_spaces(line.subrange(a + 1, b))
    } else {
        Seq::empty()
    }
}

pub open spec fn line_ok_at(line: Seq<u8>, a: int, b: int) -> bool {
    &&& line_fields(line, a, b)
    &&& decimal_ok(line.subrange(0, a))
    &&& decimal_ok(line.subrange(b + 1, line.len() as int))
    &&& valid_utf8(path_bytes(line, a, b))
}

/// `line` is a well-formed directory line.
pub open spec fn dir_line_ok(line: Seq<u8>) -> bool {
    exists|a: int, b: int| #[trigger] line_ok_at(line, a, b)
}

proof fn lemma_fields_unique(line: Seq<u8>, a: int, b: int, a2: int, b2: int)
    requires
        line_fields(line, a, b),
        line_fields(line, a2, b2),
    ensures
        a == a2 && b == b2,
{
    if a < a2 {
        assert(line[a] == 32u8);
    }
    if a2 < a {
        assert(line[a2] == 32u8);
    }
    if b < b2 {
        assert(line[b2] == 32u8);
    }
    if b2 < b {
        assert(line[b] == 32u8);
    }
}

/// Parses one directory line.
pub fn parse_directory_line(line: &[u8]) -> (r: Option<DirectoryEntry>)
    ensures
        r matches Some(e) ==> line_entry(line@, e),
        r is Some <==> dir_line_ok(line@),
{
    let a = match first_space(line) {
        Some(a) => a,
        None => {
            proof {
                assert forall|a2: int, b2: int| !line_ok_at(line@, a2, b2) by {
                    if line_fields(line@, a2, b2) {
                        assert(line@[a2] == 32u8);
                    }
                }
            }
            return None;
        },
    };
    let b = match last_space(line) {
        Some(b) => b,
        None => return None,
    };
    if b < a {
        return None;
    }
    assert(line_fields(line@, a as int, b as int));
    let id = match parse_decimal(&line[0..a]) {
        Some(v) => v,
        None => {
            proof {
                assert forall|a2: int, b2: int| !line_ok_at(line@, a2, b2) by {
                    if line_fields(line@, a2, b2) {
                        lemma_fields_unique(line@, a as int, b as int, a2, b2);
                    }
                }
            }
            return None;
        },
    };
    assert(b < line.len());
    let after = b + 1;
    let block = match parse_decimal(&line[after..line.len()]) {
        Some(v) => v,
        None => {
            proof {
                assert forall|a2: int, b2: int| !line_ok_at(line@, a2, b2) by {
                    if line_fields(line@, a2, b2) {
                        lemma_fields_unique(line@, a as int, b as int, a2, b2);
                    }
                }
            }
            return None;
        },
    };
    let mut path: Vec<u8> = Vec::new();
    let mut k = a + 1;
    assert(line@.subrange(a + 1, a + 1) =~= Seq::<u8>::empty());
    while k < b
        invariant
            a < k,
            a < b ==> k <= b,
            b < line@.len(),
            a < b ==> path@ == without_spaces(line@.subrange(a + 1, k as int)),
            a == b ==> path@ == Seq::<u8>::empty(),
        decreases b - k,
    {
        proof {
            assert(line@.subrange(a + 1, k + 1).drop_last() =~= line@.subrange(a + 1, k as int));
        }
        if line[k] != 32u8 {
            path.push(line[k]);
        }
        k += 1;
    }
    let ghost pv = path@;
    assert(pv == path_bytes(line@, a as int, b as int));
    let filepath = match crate::codec::string_from_utf8(path) {
        Some(s) => s,
        None => {
            proof {
                assert forall|a2: int, b2: int| !line_ok_at(line@, a2, b2) by {
                    if line_fields(line@, a2, b2) {
                        lemma_fields_unique(line@, a as int, b as int, a2, b2);
                    }
                }
            }
            return None;
        },
    };
    proof {
        vstd::utf8::decode_utf8_encode_utf8(pv);
        assert(line_fields(line@, a as int, b as int));
        assert(line_ok_at(line@, a as int, b as int));
    }
    Some(DirectoryEntry { id, filepath, block })
}

/// The non-empty lines among `ls`.
pub open spec fn nonempty_lines(ls: Seq<(int, int)>) -> Seq<(int, int)>
    decreases ls.len(),
{
    if ls.len() == 0 {
        Seq::empty()
    } else if ls.last().1 > ls.last().0 {
        nonempty_lines(ls.drop_last()).push(ls.last())
    } else {
        nonempty_lines(ls.drop_last())
    }
}

/// Line `l` of `text` is empty or well formed.
pub open spec fn dir_text_line_ok(text: Seq<u8>, l: (int, int)) -> bool {
    l.1 > l.0 ==> dir_line_ok(text.subrange(l.0, l.1))
}

/// Parses a directory file; empty lines are skipped. Fails with the number
/// of the first line that is not `<id> <path> <block>`.
pub fn parse_directory(text: &Vec<u8>) -> (r: Result<Directory, DirectoryError>)
    ensures
        r is Ok <==> forall|j: int| 0 <= j < lines_of(text@).len() ==> dir_text_line_ok(text@, #[trigger] lines_of(text@)[j]),
        r matches Err(e) ==> 1 <= e.line <= lines_of(text@).len() && !dir_text_line_ok(text@, lines_of(text@)[e.line - 1])
            && forall|j: int| 0 <= j < e.line - 1 ==> dir_text_line_ok(text@, #[trigger] lines_of(text@)[j]),
        r matches Ok(d) ==> {
            let ne = nonempty_lines(lines_of(text@));
            &&& d.entries@.len() == ne.len()
            &&& forall|t: int| 0 <= t < ne.len() ==> line_entry(text@.subrange(ne[t].0, ne[t].1), #[trigger] d.entries@[t])
        },
{
    let lines = split_lines(text.as_slice());
    let ghost ls = lines_of(text@);
    let mut entries: Vec<DirectoryEntry> = Vec::new();
    let mut k: usize = 0;
    proof {
        assert forall|t: int| 0 <= t < lines@.len() implies ls[t] == (lines@[t].0 as int, lines@[t].1 as int) by {
            assert(crate::chunker::as_int_pairs(lines@)[t] == ls[t]);
        }
        assert(ls.take(0) =~= Seq::<(int, int)>::empty());
    }
    while k < lines.len()
        invariant
            k <= lines@.len(),
            ls == lines_of(text@),
            ls.len() == lines@.len(),
            forall|t: int| 0 <= t < lines@.len() ==> ls[t] == (lines@[t].0 as int, lines@[t].1 as int),
            forall|t: int| 0 <= t < lines@.len() ==> (#[trigger] lines@[t]).0 <= lines@[t].1 <= text@.len(),
            forall|j: int| 0 <= j < k ==> dir_text_line_ok(text@, #[trigger] ls[j]),
            entries@.len() == nonempty_lines(ls.take(k as int)).len(),
            forall|t: int|
                0 <= t < entries@.len() ==> line_entry(
                    text@.subrange(nonempty_lines(ls.take(k as int))[t].0, nonempty_lines(ls.take(k as int))[t].1),
                    #[trigger] entries@[t],
                ),
        decreases lines@.len() - k,
    {
        let (a, b) = lines[k];
        let ghost l = ls[k as int];
        proof {
            assert(l == (a as int, b as int));
            assert(ls.take(k + 1).drop_last() =~= ls.take(k as int));
            assert(ls.take(k + 1).last() == l);
        }
        if b > a {
            let line = &text.as_slice()[a..b];
            assert(line@ == text@.subrange(a as int, b as int));
            match parse_directory_line(line) {
                Some(e) => {
                    let ghost e0 = entries@;
                    entries.push(e);
                    proof {
                        let ne1 = nonempty_lines(ls.take(k + 1));
                        assert(ne1 == nonempty_lines(ls.take(k as int)).push(l));
                        assert forall|t: int| 0 <= t < entries@.len() implies line_entry(
                            text@.subrange(ne1[t].0, ne1[t].1),
                            #[trigger] entries@[t],
                        ) by {
                            if t < e0.len() {
                                assert(entries@[t] == e0[t]);
                            }
                        }
                    }
                },
                None => {
                    return Err(DirectoryError { line: k + 1 });
                },
            }
        } else {
            proof {
                assert(nonempty_lines(ls.take(k + 1)) == nonempty_lines(ls.take(k as int)));
            }
        }
        k += 1;
    }
    proof {
        assert(ls.take(k as int) =~= ls);
    }
    Ok(Directory { entries })
}

/// A record with its id replaced.
pub open spec fn renumbered(e: EmbeddingModel, id: u64) -> EmbeddingModel {
    EmbeddingModel { id, ..e }
}

/// How a full ingest lands on disk: record `i` gets id `i` and goes to
/// block `i / BLOCK_SIZE`; the directory lists `(i, filepath, block)` for
/// every record, in id order.
pub open spec fn full_layout(
    input: Seq<EmbeddingModel>,
    blocks: Seq<BlockModel>,
    dir: Seq<DirectoryEntry>,
) -> bool {
    &&& dir.len() == input.len()
    &&& forall|i: int|
        0 <= i < dir.len() ==> (#[trigger] dir[i]).id == i && dir[i].filepath@ == input[i].source.filepath
            && dir[i].block == i / BLOCK_SIZE as int
    &&& blocks.len() == (input.len() + BLOCK_SIZE - 1) / BLOCK_SIZE as int
    &&& forall|b: int|
        0 <= b < blocks.len() ==> (#[trigger] blocks[b]).block == b && blocks[b].embeddings.len() == if b < blocks.len() - 1 {
            BLOCK_SIZE as int
        } else {
            input.len() - b * BLOCK_SIZE
        }
    &&& forall|b: int, j: int|
        0 <= b < blocks.len() && 0 <= j < blocks[b].embeddings.len() ==> #[trigger] blocks[b].embeddings[j]
            == renumbered(input[b * BLOCK_SIZE + j], (b * BLOCK_SIZE + j) as u64)
}

pub open spec fn blocks_view(v: Seq<EmbeddingBlock>) -> Seq<BlockModel> {
    v.map_values(|b: EmbeddingBlock| b@)
}

/// Lays a full ingest out in blocks and builds its directory.
pub fn plan_full_write(embeddings: Vec<Embedding>) -> (r: (Vec<EmbeddingBlock>, Directory))
    requires
        embeddings@.len() <= u64::MAX,
    ensures
        full_layout(embeddings_view(embeddings@), blocks_view(r.0@), r.1.entries@),
{
    let ghost input = embeddings_view(embeddings@);
    let n = embeddings.len();
    let mut items = embeddings;
    let mut rev: Vec<Embedding> = Vec::new();
    let ghost all = items@;
    while items.len() > 0
        invariant
            items@ + rev@.reverse() == all,
        decreases items@.len(),
    {
        let ghost bi = items@;
        let ghost br = rev@;
        let x = items.pop().unwrap();
        rev.push(x);
        proof {
            assert(rev@.reverse() =~= seq![x] + br.reverse());
            assert(bi =~= bi.drop_last().push(bi.last()));
            assert(items@ + rev@.reverse() =~= bi.drop_last() + (seq![bi.last()] + br.reverse()));
        }
    }
    assert(rev@.reverse() =~= all);
    assert(rev@.reverse().len() == rev@.len());
    let mut blocks: Vec<EmbeddingBlock> = Vec::new();
    let mut entries: Vec<DirectoryEntry> = Vec::new();
    let mut cur: Vec<Embedding> = Vec::new();
    let mut k: usize = 0;
    while k < n
        invariant
            n == all.len(),
            n <= u64::MAX,
            input == embeddings_view(all),
            k <= n,
            rev@.reverse() == all.skip(k as int),
            rev@.len() == n - k,
            entries@.len() == k,
            forall|i: int|
                0 <= i < k ==> (#[trigger] entries@[i]).id == i && entries@[i].filepath@ == input[i].source.filepath
                    && entries@[i].block == i / BLOCK_SIZE as int,
            blocks@.len() == k as int / BLOCK_SIZE as int,
            cur@.len() == k as int % BLOCK_SIZE as int,
            forall|b: int|
                0 <= b < blocks@.len() ==> (#[trigger] blocks@[b]).block == b && blocks@[b].embeddings@.len() == BLOCK_SIZE,
            forall|b: int, j: int|
                0 <= b < blocks@.len() && 0 <= j < BLOCK_SIZE ==> #[trigger] blocks@[b].embeddings@[j]@
                    == renumbered(input[b * BLOCK_SIZE + j], (b * BLOCK_SIZE + j) as u64),
            forall|j: int|
                0 <= j < cur@.len() ==> #[trigger] cur@[j]@ == renumbered(
                    input[blocks@.len() * BLOCK_SIZE + j],
                    (blocks@.len() * BLOCK_SIZE + j) as u64,
                ),
        decreases n - k,
    {
        let ghost br = rev@;
        let mut x = rev.pop().unwrap();
        proof {
            assert(br.reverse()[0] == x);
            assert(all.skip(k as int)[0] == all[k as int]);
            assert(rev@.reverse().len() == rev@.len());
            assert(rev@.reverse() =~= br.reverse().skip(1));
            assert(all.skip(k as int).skip(1) =~= all.skip(k + 1));
        }
        x.id = k as u64;
        entries.push(DirectoryEntry { id: k as u64, filepath: x.source_file.filepath.clone(), block: (k / BLOCK_SIZE) as u64 });
        let ghost b0 = blocks@;
        let ghost c0 = cur@;
        cur.push(x);
        proof {
            assert(k == b0.len() * BLOCK_SIZE + c0.len());
            assert(cur@[c0.len() as int]@ == renumbered(input[k as int], k as u64));
        }
        if cur.len() == BLOCK_SIZE {
            let full = cur;
            let nb = blocks.len() as u64;
            blocks.push(EmbeddingBlock { block: nb, embeddings: full });
            cur = Vec::new();
            proof {
                assert forall|b: int, j: int|
                    0 <= b < blocks@.len() && 0 <= j < BLOCK_SIZE implies #[trigger] blocks@[b].embeddings@[j]@
                        == renumbered(input[b * BLOCK_SIZE + j], (b * BLOCK_SIZE + j) as u64) by {
                    if b < b0.len() {
                        assert(blocks@[b] == b0[b]);
                    }
                }
                assert forall|b: int| 0 <= b < blocks@.len() implies (#[trigger] blocks@[b]).block == b
                    && blocks@[b].embeddings@.len() == BLOCK_SIZE by {
                    if b < b0.len() {
                        assert(blocks@[b] == b0[b]);
                    }
                }
            }
        }
        proof {
            assert forall|i: int|
                0 <= i < k + 1 implies (#[trigger] entries@[i]).id == i && entries@[i].filepath@ == input[i].source.filepath
                    && entries@[i].block == i / BLOCK_SIZE as int by {
                if i == k {
                    assert(input[i] == all[i]@);
                }
            }
        }
        k += 1;
    }
    if cur.len() > 0 {
        let ghost b0 = blocks@;
        let last = cur;
        let nb = blocks.len() as u64;
        blocks.push(EmbeddingBlock { block: nb, embeddings: last });
        proof {
            assert forall|b: int| 0 <= b < blocks@.len() - 1 implies #[trigger] blocks@[b] == b0[b] by {}
        }
    }
    let dir = Directory { entries };
    proof {
        let bv = blocks_view(blocks@);
        assert(bv.len() == (n + BLOCK_SIZE - 1) / BLOCK_SIZE as int);
        assert forall|b: int| 0 <= b < bv.len() implies (#[trigger] bv[b]).block == b && bv[b].embeddings.len() == if b < bv.len() - 1 {
            BLOCK_SIZE as int
        } else {
            n - b * BLOCK_SIZE
        } by {
            assert(bv[b] == blocks@[b]@);
        }
        assert forall|b: int, j: int|
            0 <= b < bv.len() && 0 <= j < bv[b].embeddings.len() implies #[trigger] bv[b].embeddings[j]
                == renumbered(input[b * BLOCK_SIZE + j], (b * BLOCK_SIZE + j) as u64) by {
            assert(bv[b] == blocks@[b]@);
            assert(bv[b].embeddings[j] == blocks@[b].embeddings@[j]@);
        }
    }
    (blocks, dir)
}

/// The records not from file `p`, in order.
pub open spec fn kept_records(es: Seq<EmbeddingModel>, p: Seq<char>) -> Seq<EmbeddingModel>
    decreases es.len(),
{
    if es.len() == 0 {
        es
    } else if es.last().source.filepath == p {
        kept_records(es.drop_last(), p)
    } else {
        kept_records(es.drop_last(), p).push(es.last())
    }
}

/// The ids of the records from file `p`, in order.
pub open spec fn file_ids(es: Seq<EmbeddingModel>, p: Seq<char>) -> Seq<u64>
    decreases es.len(),
{
    if es.len() == 0 {
        Seq::empty()
    } else if es.last().source.filepath == p {
        file_ids(es.drop_last(), p).push(es.last().id)
    } else {
        file_ids(es.drop_last(), p)
    }
}

/// The first record from file `p`.
pub open spec fn first_of_file(es: Seq<EmbeddingModel>, p: Seq<char>) -> Option<EmbeddingModel>
    decreases es.len(),
{
    if es.len() == 0 {
        None
    } else {
        match first_of_file(es.drop_last(), p) {
            Some(e) => Some(e),
            None => if es.last().source.filepath == p {
                Some(es.last())
            } else {
                None
            },
        }
    }
}

pub(crate) fn clone_strings(v: &Vec<String>) -> (r: Vec<String>)
    ensures
        strings_view(r@) == strings_view(v@),
{
    let mut r: Vec<String> = Vec::new();
    let mut i: usize = 0;
    while i < v.len()
        invariant
            i <= v@.len(),
            strings_view(r@) == strings_view(v@.take(i as int)),
        decreases v@.len() - i,
    {
        let c = v[i].clone();
        let ghost r0 = r@;
        r.push(c);
        proof {
            assert(c@ == v@[i as int]@);
            assert(strings_view(r@) =~= strings_view(r0).push(c@));
            assert(v@.take(i + 1) =~= v@.take(i as int).push(v@[i as int]));
            assert(strings_view(v@.take(i + 1)) =~= strings_view(v@.take(i as int)).push(v@[i as int]@));
        }
        i += 1;
    }
    assert(v@.take(i as int) =~= v@);
    r
}

/// Takes the records of file `filepath` out of `block`. Returns the tags
/// of the first of them (none when there is none) and their ids.
pub fn take_file_records(block: &mut EmbeddingBlock, filepath: &str) -> (r: (Vec<String>, Vec<u64>))
    ensures
        final(block).block == old(block).block,
        embeddings_view(final(block).embeddings@) == kept_records(embeddings_view(old(block).embeddings@), filepath@),
        r.1@ == file_ids(embeddings_view(old(block).embeddings@), filepath@),
        strings_view(r.0@) == match first_of_file(embeddings_view(old(block).embeddings@), filepath@) {
            Some(e) => e.source.meta,
            None => Seq::empty(),
        },
{
    let p = String::from_str(filepath);
    let mut items: Vec<Embedding> = Vec::new();
    std::mem::swap(&mut items, &mut block.embeddings);
    let ghost all = items@;
    let ghost allv = embeddings_view(all);
    let mut rev: Vec<Embedding> = Vec::new();
    while items.len() > 0
        invariant
            items@ + rev@.reverse() == all,
        decreases items@.len(),
    {
        let ghost bi = items@;
        let ghost br = rev@;
        let x = items.pop().unwrap();
        rev.push(x);
        proof {
            assert(rev@.reverse() =~= seq![x] + br.reverse());
            assert(bi =~= bi.drop_last().push(bi.last()));
            assert(items@ + rev@.reverse() =~= bi.drop_last() + (seq![bi.last()] + br.reverse()));
        }
    }
    assert(rev@.reverse() =~= all);
    assert(rev@.reverse().len() == rev@.len());
    let mut meta: Vec<String> = Vec::new();
    let mut found = false;
    let mut ids: Vec<u64> = Vec::new();
    let mut k: usize = 0;
    let n = rev.len();
    assert(block.embeddings@ =~= Seq::<Embedding>::empty());
    assert(embeddings_view(block.embeddings@) =~= kept_records(allv.take(0), filepath@));
    while k < n
        invariant
            p@ == filepath@,
            n == all.len(),
            allv == embeddings_view(all),
            k <= n,
            rev@.reverse() == all.skip(k as int),
            rev@.len() == n - k,
            block.block == old(block).block,
            embeddings_view(block.embeddings@) == kept_records(allv.take(k as int), filepath@),
            ids@ == file_ids(allv.take(k as int), filepath@),
            found == first_of_file(allv.take(k as int), filepath@) is Some,
            strings_view(meta@) == match first_of_file(allv.take(k as int), filepath@) {
                Some(e) => e.source.meta,
                None => Seq::empty(),
            },
        decreases n - k,
    {
        let ghost br = rev@;
        let x = rev.pop().unwrap();
        proof {
            assert(br.reverse()[0] == x);
            assert(all.skip(k as int)[0] == all[k as int]);
            assert(rev@.reverse() =~= br.reverse().skip(1));
            assert(all.skip(k as int).skip(1) =~= all.skip(k + 1));
            assert(rev@.reverse().len() == rev@.len());
            assert(allv.take(k + 1).drop_last() =~= allv.take(k as int));
            assert(allv.take(k + 1).last() == x@);
        }
        if x.source_file.filepath == p {
            if !found {
                meta = clone_strings(&x.source_file.meta);
                found = true;
            }
            ids.push(x.id);
        } else {
            let ghost b0 = block.embeddings@;
            let ghost xv = x@;
            block.embeddings.push(x);
            proof {
                assert(embeddings_view(block.embeddings@) =~= embeddings_view(b0).push(xv));
            }
        }
        k += 1;
    }
    assert(allv.take(k as int) =~= allv);
    (meta, ids)
}

/// Appends `new` to `block`, numbering its records from `first_id` on.
pub fn append_records(block: &mut EmbeddingBlock, new: Vec<Embedding>, first_id: u64)
    requires
        first_id + new@.len() <= u64::MAX,
    ensures
        final(block).block == old(block).block,
        final(block).embeddings@.len() == old(block).embeddings@.len() + new@.len(),
        forall|i: int|
            0 <= i < old(block).embeddings@.len() ==> #[trigger] final(block).embeddings@[i]
                == old(block).embeddings@[i],
        forall|i: int|
            0 <= i < new@.len() ==> #[trigger] final(block).embeddings@[old(block).embeddings@.len() + i]@
                == renumbered(new@[i]@, (first_id + i) as u64),
{
    let ghost all = new@;
    let ghost start = block.embeddings@;
    let mut items = new;
    let mut rev: Vec<Embedding> = Vec::new();
    while items.len() > 0
        invariant
            items@ + rev@.reverse() == all,
        decreases items@.len(),
    {
        let ghost bi = items@;
        let ghost br = rev@;
        let x = items.pop().unwrap();
        rev.push(x);
        proof {
            assert(rev@.reverse() =~= seq![x] + br.reverse());
            assert(bi =~= bi.drop_last().push(bi.last()));
            assert(items@ + rev@.reverse() =~= bi.drop_last() + (seq![bi.last()] + br.reverse()));
        }
    }
    assert(rev@.reverse() =~= all);
    assert(rev@.reverse().len() == rev@.len());
    let n = rev.len();
    let mut k: usize = 0;
    while k < n
        invariant
            n == all.len(),
            first_id + n <= u64::MAX,
            k <= n,
            rev@.reverse() == all.skip(k as int),
            rev@.len() == n - k,
            block.block == old(block).block,
            start == old(block).embeddings@,
            block.embeddings@.len() == start.len() + k,
            forall|i: int| 0 <= i < start.len() ==> #[trigger] block.embeddings@[i] == start[i],
            forall|i: int|
                0 <= i < k ==> #[trigger] block.embeddings@[start.len() + i]@ == renumbered(all[i]@, (first_id + i) as u64),
        decreases n - k,
    {
        let ghost br = rev@;
        let mut x = rev.pop().unwrap();
        proof {
            assert(br.reverse()[0] == x);
            assert(all.skip(k as int)[0] == all[k as int]);
            assert(rev@.reverse() =~= br.reverse().skip(1));
            assert(all.skip(k as int).skip(1) =~= all.skip(k + 1));
            assert(rev@.reverse().len() == rev@.len());
        }
        x.id = first_id + k as u64;
        block.embeddings.push(x);
        k += 1;
    }
}

/// After a file's records are taken out of a block and its new records
/// appended with ids from the directory's next id on, no record of that
/// file carries an id that the directory held before.
pub proof fn lemma_update_ids_fresh(
    dir: Seq<DirectoryEntry>,
    before: Seq<EmbeddingModel>,
    new: Seq<EmbeddingModel>,
    after: Seq<EmbeddingModel>,
    p: Seq<char>,
    first_id: u64,
)
    requires
        forall|i: int| 0 <= i < dir.len() ==> #[trigger] dir[i].id < first_id,
        first_id + new.len() <= u64::MAX,
        after.len() == kept_records(before, p).len() + new.len(),
        forall|i: int| 0 <= i < kept_records(before, p).len() ==> #[trigger] after[i] == kept_records(before, p)[i],
        forall|i: int|
            0 <= i < new.len() ==> #[trigger] after[kept_records(before, p).len() + i] == renumbered(new[i], (first_id + i) as u64),
    ensures
        forall|r: int, d: int|
            0 <= r < after.len() && 0 <= d < dir.len() && #[trigger] after[r].source.filepath == p
                ==> after[r].id != #[trigger] dir[d].id,
{
    lemma_kept_excludes(before, p);
    let kept = kept_records(before, p);
    assert forall|r: int, d: int|
        0 <= r < after.len() && 0 <= d < dir.len() && #[trigger] after[r].source.filepath == p
            implies after[r].id != #[trigger] dir[d].id by {
        if r < kept.len() {
            assert(after[r] == kept[r]);
        } else {
            let i = r - kept.len();
            assert(after[kept.len() + i] == renumbered(new[i], (first_id + i) as u64));
        }
    }
}

proof fn lemma_kept_excludes(es: Seq<EmbeddingModel>, p: Seq<char>)
    ensures
        forall|i: int| 0 <= i < kept_records(es, p).len() ==> (#[trigger] kept_records(es, p)[i]).source.filepath != p,
    decreases es.len(),
{
    if es.len() > 0 {
        lemma_kept_excludes(es.drop_last(), p);
        let k0 = kept_records(es.drop_last(), p);
        if es.last().source.filepath != p {
            assert forall|i: int| 0 <= i < k0.push(es.last()).len() implies (#[trigger] k0.push(es.last())[i]).source.filepath != p by {
                if i < k0.len() {
                    assert(k0.push(es.last())[i] == k0[i]);
                }
            }
        }
    }
}

} // verus!
