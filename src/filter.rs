//! Metadata filters applied to query candidates.
use vstd::prelude::*;
use vstd::string::*;

verus! {

/// How a filter compares a tag with its value.
#[derive(Debug, Clone, Copy, PartialEq, Eq, Structural)]
pub enum FilterComparator {
    Equal,
    NotEqual,
}

/// A comparator and the value it compares tags with.
#[derive(Debug, Clone)]
pub struct Filter {
    pub comparator: FilterComparator,
    pub value: String,
}

/// Why a filter string was rejected.
#[derive(Debug, Clone, Copy, PartialEq, Eq, Structural)]
pub enum FilterError {
    /// Not exactly two whitespace-separated words.
    InvalidFormat,
    /// The first word is neither `eq` nor `ne`.
    InvalidComparator,
}

/// Unicode `White_Space`, as `char::is_whitespace` decides it.
pub open spec fn is_space(c: char) -> bool {
    ('\t' <= c <= '\r') || c == ' ' || c == '\u{85}' || c == '\u{a0}' || c == '\u{1680}' || (
    '\u{2000}' <= c <= '\u{200a}') || c == '\u{2028}' || c == '\u{2029}' || c == '\u{202f}' || c
        == '\u{205f}' || c == '\u{3000}'
}

pub fn char_is_space(c: char) -> (r: bool)
    ensures
        r == is_space(c),
{
    ('\t' <= c && c <= '\r') || c == ' ' || c == '\u{85}' || c == '\u{a0}' || c == '\u{1680}' || (
    '\u{2000}' <= c && c <= '\u{200a}') || c == '\u{2028}' || c == '\u{2029}' || c == '\u{202f}'
        || c == '\u{205f}' || c == '\u{3000}'
}

/// The first position at or after `i` that holds no whitespace (or the end).
pub open spec fn skip_space(s: Seq<char>, i: int) -> int
    decreases s.len() - i,
{
    if i < 0 || i >= s.len() || !is_space(s[i]) {
        i
    } else {
        skip_space(s, i + 1)
    }
}

/// The first position at or after `i` that holds whitespace (or the end).
pub open spec fn skip_word(s: Seq<char>, i: int) -> int
    decreases s.len() - i,
{
    if i < 0 || i >= s.len() || is_space(s[i]) {
        i
    } else {
        skip_word(s, i + 1)
    }
}

/// The bounds `(a, b, c, d, e)` of the first two words `s[a..b]`, `s[c..d]`
/// and of what follows the second, `e`.
pub open spec fn two_words(s: Seq<char>) -> (int, int, int, int, int) {
    let a = skip_space(s, 0);
    let b = skip_word(s, a);
    let c = skip_space(s, b);
    let d = skip_word(s, c);
    let e = skip_space(s, d);
    (a, b, c, d, e)
}

/// `s` is exactly two whitespace-separated words.
pub open spec fn is_two_words(s: Seq<char>) -> bool {
    let (a, b, c, d, e) = two_words(s);
    a < b && c < d && e == s.len()
}

pub open spec fn comparator_of(w: Seq<char>) -> Option<FilterComparator> {
    if w == seq!['e', 'q'] {
        Some(FilterComparator::Equal)
    } else if w == seq!['n', 'e'] {
        Some(FilterComparator::NotEqual)
    } else {
        None
    }
}

/// What `compare` decides: an `Equal` filter passes a tag equal to its
/// value, a `NotEqual` filter one that differs from it.
pub open spec fn filter_accepts(comparator: FilterComparator, value: Seq<char>, tag: Seq<char>) -> bool {
    match comparator {
        FilterComparator::Equal => tag == value,
        FilterComparator::NotEqual => tag != value,
    }
}

/// A candidate passes a filter list when every filter accepts every one of
/// its tags (so a candidate without tags passes every list).
pub open spec fn passes_all(filters: Seq<Filter>, tags: Seq<String>) -> bool {
    forall|i: int, j: int|
        0 <= i < filters.len() && 0 <= j < tags.len() ==> filter_accepts(
            #[trigger] filters[i].comparator,
            filters[i].value@,
            #[trigger] tags[j]@,
        )
}

/// `f` is what `s` parses to.
pub open spec fn parses_to(s: Seq<char>, f: Filter) -> bool {
    let (a, b, c, d, e) = two_words(s);
    &&& is_two_words(s)
    &&& comparator_of(s.subrange(a, b)) == Some(f.comparator)
    &&& f.value@ == s.subrange(c, d)
}

/// `s` is a well-formed filter string.
pub open spec fn valid_filter(s: Seq<char>) -> bool {
    let (a, b, c, d, e) = two_words(s);
    is_two_words(s) && comparator_of(s.subrange(a, b)) is Some
}

fn skip_space_exec(s: &str, n: usize, i: usize) -> (r: usize)
    requires
        n == s@.len(),
        i <= n,
    ensures
        r == skip_space(s@, i as int),
        i <= r <= n,
{
    let mut k = i;
    while k < n && char_is_space(s.get_char(k))
        invariant
            n == s@.len(),
            i <= k <= n,
            skip_space(s@, k as int) == skip_space(s@, i as int),
        decreases n - k,
    {
        k += 1;
    }
    k
}

fn skip_word_exec(s: &str, n: usize, i: usize) -> (r: usize)
    requires
        n == s@.len(),
        i <= n,
    ensures
        r == skip_word(s@, i as int),
        i <= r <= n,
{
    let mut k = i;
    while k < n && !char_is_space(s.get_char(k))
        invariant
            n == s@.len(),
            i <= k <= n,
            skip_word(s@, k as int) == skip_word(s@, i as int),
        decreases n - k,
    {
        k += 1;
    }
    k
}

impl Filter {
    /// Parses `"eq <value>"` or `"ne <value>"`: exactly two words separated
    /// by whitespace, the first of which names the comparator.
    pub fn from_string(input: &str) -> (r: Result<Filter, FilterError>)
        ensures
            match r {
                Ok(f) => parses_to(input@, f),
                Err(FilterError::InvalidFormat) => !is_two_words(input@),
                Err(FilterError::InvalidComparator) => {
                    let (a, b, c, d, e) = two_words(input@);
                    is_two_words(input@) && comparator_of(input@.subrange(a, b)) is None
                },
            },
    {
        let n = input.unicode_len();
        let a = skip_space_exec(input, n, 0);
        let b = skip_word_exec(input, n, a);
        let c = skip_space_exec(input, n, b);
        let d = skip_word_exec(input, n, c);
        let e = skip_space_exec(input, n, d);
        if !(a < b && c < d && e == n) {
            return Err(FilterError::InvalidFormat);
        }
        let comparator = if b - a == 2 && input.get_char(a) == 'e' && input.get_char(a + 1) == 'q' {
            FilterComparator::Equal
        } else if b - a == 2 && input.get_char(a) == 'n' && input.get_char(a + 1) == 'e' {
            FilterComparator::NotEqual
        } else {
            proof {
                let w = input@.subrange(a as int, b as int);
                if w == seq!['e', 'q'] || w == seq!['n', 'e'] {
                    assert(w.len() == 2);
                    assert(w[0] == input@[a as int] && w[1] == input@[a + 1]);
                }
            }
            return Err(FilterError::InvalidComparator);
        };
        proof {
            let w = input@.subrange(a as int, b as int);
            if comparator == FilterComparator::Equal {
                assert(w =~= seq!['e', 'q']);
            } else {
                assert(w =~= seq!['n', 'e']);
                assert(w != seq!['e', 'q']);
            }
        }
        let value = String::from_str(input.substring_char(c, d));
        Ok(Filter { comparator, value })
    }

    /// Whether this filter accepts the tag `query`.
    pub fn compare(&self, query: &str) -> (r: bool)
        ensures
            r == filter_accepts(self.comparator, self.value@, query@),
    {
        let q = String::from_str(query);
        match self.comparator {
            FilterComparator::Equal => q == self.value,
            FilterComparator::NotEqual => !(q == self.value),
        }
    }
}

/// Whether every filter accepts every tag.
pub fn passes_filters(filters: &Vec<Filter>, tags: &Vec<String>) -> (r: bool)
    ensures
        r == passes_all(filters@, tags@),
{
    let mut i: usize = 0;
    while i < filters.len()
        invariant
            i <= filters@.len(),
            forall|a: int, b: int|
                0 <= a < i && 0 <= b < tags@.len() ==> filter_accepts(
                    #[trigger] filters@[a].comparator,
                    filters@[a].value@,
                    #[trigger] tags@[b]@,
                ),
        decreases filters@.len() - i,
    {
        let mut j: usize = 0;
        while j < tags.len()
            invariant
                i < filters@.len(),
                j <= tags@.len(),
                forall|a: int, b: int|
                    0 <= a < i && 0 <= b < tags@.len() ==> filter_accepts(
                        #[trigger] filters@[a].comparator,
                        filters@[a].value@,
                        #[trigger] tags@[b]@,
                    ),
                forall|b: int|
                    0 <= b < j ==> filter_accepts(
                        filters@[i as int].comparator,
                        filters@[i as int].value@,
                        #[trigger] tags@[b]@,
                    ),
            decreases tags@.len() - j,
        {
            if !filters[i].compare(tags[j].as_str()) {
                return false;
            }
            j += 1;
        }
        i += 1;
    }
    true
}

/// A single filter passes a candidate exactly when, for `eq v`, every tag
/// equals `v`, and for `ne v`, every tag differs from `v`.
pub proof fn lemma_single_filter(f: Filter, tags: Seq<String>)
    ensures
        passes_all(seq![f], tags) <==> match f.comparator {
            FilterComparator::Equal => forall|j: int| 0 <= j < tags.len() ==> #[trigger] tags[j]@ == f.value@,
            FilterComparator::NotEqual => forall|j: int| 0 <= j < tags.len() ==> #[trigger] tags[j]@ != f.value@,
        },
{
    let fs = seq![f];
    assert(fs[0] == f);
    if passes_all(fs, tags) {
        assert forall|j: int| 0 <= j < tags.len() implies filter_accepts(f.comparator, f.value@, #[trigger] tags[j]@) by {
            assert(filter_accepts(fs[0].comparator, fs[0].value@, tags[j]@));
        }
    }
}

} // verus!
