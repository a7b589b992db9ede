//! Indexing rules: how files of each extension are split and filtered.
use vstd::prelude::*;
use vstd::string::*;

verus! {

/// The kinds of rule. `Split`, `Code` and `MaxLength` choose how a file is
/// cut into chunks; `MinLength` and `Alphanumeric` drop chunks afterwards.
#[derive(Debug, Clone, Copy, PartialEq, Eq, Structural)]
pub enum IndexRuleType {
    Split,
    Naive,
    Code,
    MinLength,
    MaxLength,
    Alphanumeric,
}

/// A rule and its argument.
#[derive(Debug, Clone)]
pub struct IndexRule {
    pub rule_type: IndexRuleType,
    pub value: String,
}

pub open spec fn is_digit(c: char) -> bool {
    '0' <= c <= '9'
}

/// The value of a run of decimal digits.
pub open spec fn digits_value(s: Seq<char>) -> nat
    decreases s.len(),
{
    if s.len() == 0 {
        0
    } else {
        digits_value(s.drop_last()) * 10 + (s.last() as nat - '0' as nat) as nat
    }
}

/// What `str::parse::<usize>` accepts: an optional `+` and at least one
/// digit, with a value that fits.
pub open spec fn decimal_digits(s: Seq<char>) -> Seq<char> {
    if s.len() > 0 && s[0] == '+' {
        s.skip(1)
    } else {
        s
    }
}

pub open spec fn parses_as_usize(s: Seq<char>, v: usize) -> bool {
    let d = decimal_digits(s);
    &&& d.len() > 0
    &&& forall|i: int| 0 <= i < d.len() ==> is_digit(#[trigger] d[i])
    &&& digits_value(d) == v
}

pub open spec fn usize_literal(s: Seq<char>) -> bool {
    let d = decimal_digits(s);
    &&& d.len() > 0
    &&& forall|i: int| 0 <= i < d.len() ==> is_digit(#[trigger] d[i])
    &&& digits_value(d) <= usize::MAX
}

/// Parses a decimal `usize` as `str::parse` does.
pub fn parse_usize(s: &str) -> (r: Option<usize>)
    ensures
        r is Some <==> usize_literal(s@),
        r matches Some(v) ==> parses_as_usize(s@, v),
{
    let n = s.unicode_len();
    let mut i: usize = 0;
    if n > 0 && s.get_char(0) == '+' {
        i = 1;
    }
    let ghost d = decimal_digits(s@);
    proof {
        if n > 0 && s@[0] == '+' {
            assert(d =~= s@.subrange(1, n as int));
        } else {
            assert(d =~= s@.subrange(0, n as int));
        }
    }
    if i >= n {
        return None;
    }
    let start = i;
    let mut v: usize = 0;
    while i < n
        invariant
            n == s@.len(),
            start <= i <= n,
            d == s@.subrange(start as int, n as int),
            d == decimal_digits(s@),
            forall|t: int| start <= t < i ==> is_digit(#[trigger] s@[t]),
            v == digits_value(s@.subrange(start as int, i as int)),
        decreases n - i,
    {
        let c = s.get_char(i);
        if !('0' <= c && c <= '9') {
            proof {
                assert(d[i - start] == c);
                assert(!is_digit(d[i - start]));
            }
            return None;
        }
        let digit = (c as u32 - '0' as u32) as usize;
        proof {
            let pre = s@.subrange(start as int, i as int);
            let nxt = s@.subrange(start as int, i + 1);
            assert(nxt.drop_last() =~= pre);
            assert(nxt.last() == c);
            assert(digit == (c as nat - '0' as nat));
            assert(digits_value(nxt) == v * 10 + digit);
        }
        if v > (usize::MAX - digit) / 10 {
            proof {
                let big = v * 10 + digit;
                assert(big > usize::MAX) by (nonlinear_arith)
                    requires
                        v > (usize::MAX - digit) / 10,
                        digit <= 9,
                        big == v * 10 + digit,
                ;
                if forall|t: int| 0 <= t < d.len() ==> is_digit(#[trigger] d[t]) {
                    lemma_digits_prefix_le(d, (i + 1 - start) as int);
                    assert(d.subrange(0, (i + 1 - start) as int) =~= s@.subrange(
                        start as int,
                        i + 1,
                    ));
                }
            }
            return None;
        }
        v = v * 10 + digit;
        i += 1;
    }
    proof {
        assert(s@.subrange(start as int, i as int) =~= d);
    }
    Some(v)
}

/// A digit prefix is worth no more than the whole run.
proof fn lemma_digits_prefix_le(s: Seq<char>, k: int)
    requires
        0 <= k <= s.len(),
        forall|i: int| 0 <= i < s.len() ==> is_digit(#[trigger] s[i]),
    ensures
        digits_value(s.subrange(0, k)) <= digits_value(s),
    decreases s.len(),
{
    if k < s.len() {
        let init = s.drop_last();
        assert forall|i: int| 0 <= i < init.len() implies is_digit(#[trigger] init[i]) by {
            assert(init[i] == s[i]);
        }
        lemma_digits_prefix_le(init, k);
        assert(init.subrange(0, k) =~= s.subrange(0, k));
    } else {
        assert(s.subrange(0, k) =~= s);
    }
}

/// `s` equals the lower-case ASCII word `w` when ASCII letters are folded.
pub open spec fn equals_ignoring_case(s: Seq<char>, w: Seq<char>) -> bool {
    s.len() == w.len() && forall|i: int| 0 <= i < s.len() ==> ascii_lower(#[trigger] s[i]) == w[i]
}

pub open spec fn ascii_lower(c: char) -> char {
    if 'A' <= c <= 'Z' {
        ((c as u8) + 32) as char
    } else {
        c
    }
}

pub fn matches_word(s: &str, w: &str) -> (r: bool)
    ensures
        r == equals_ignoring_case(s@, w@),
{
    let n = s.unicode_len();
    if n != w.unicode_len() {
        return false;
    }
    let mut i: usize = 0;
    while i < n
        invariant
            n == s@.len() == w@.len(),
            i <= n,
            forall|t: int| 0 <= t < i ==> ascii_lower(#[trigger] s@[t]) == w@[t],
        decreases n - i,
    {
        let c = s.get_char(i);
        let lc = if 'A' <= c && c <= 'Z' {
            ((c as u8) + 32) as char
        } else {
            c
        };
        if lc != w.get_char(i) {
            return false;
        }
        i += 1;
    }
    true
}

/// Whether `value` is an acceptable argument for a rule of this kind.
pub open spec fn valid_rule_value(t: IndexRuleType, value: Seq<char>) -> bool {
    match t {
        IndexRuleType::MinLength => usize_literal(value),
        IndexRuleType::MaxLength => usize_literal(value),
        IndexRuleType::Alphanumeric => equals_ignoring_case(value, seq!['t', 'r', 'u', 'e'])
            || equals_ignoring_case(value, seq!['f', 'a', 'l', 's', 'e']),
        IndexRuleType::Split => value.len() > 0,
        IndexRuleType::Code => equals_ignoring_case(
            value,
            seq!['f', 'u', 'n', 'c', 't', 'i', 'o', 'n'],
        ),
        IndexRuleType::Naive => true,
    }
}

impl IndexRuleType {
    /// Lengths must be decimal numbers, `Alphanumeric` takes `true` or
    /// `false`, `Code` takes `function` (letters in any case), and a
    /// separator must not be empty.
    pub fn validate(&self, value: &str) -> (r: bool)
        ensures
            r == valid_rule_value(*self, value@),
    {
        match self {
            IndexRuleType::MinLength => parse_usize(value).is_some(),
            IndexRuleType::MaxLength => parse_usize(value).is_some(),
            IndexRuleType::Alphanumeric => {
                proof {
                    reveal_strlit("true");
                    reveal_strlit("false");
                }
                let t = matches_word(value, "true");
                let f = matches_word(value, "false");
                proof {
                    assert("true"@ =~= seq!['t', 'r', 'u', 'e']);
                    assert("false"@ =~= seq!['f', 'a', 'l', 's', 'e']);
                }
                t || f
            },
            IndexRuleType::Split => value.unicode_len() > 0,
            IndexRuleType::Code => {
                proof {
                    reveal_strlit("function");
                }
                let r = matches_word(value, "function");
                proof {
                    assert("function"@ =~= seq!['f', 'u', 'n', 'c', 't', 'i', 'o', 'n']);
                }
                r
            },
            IndexRuleType::Naive => true,
        }
    }
}

} // verus!
