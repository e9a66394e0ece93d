//! Byte-pattern matcher: parsing of signature text and scanning of buffers.
//!
//! A pattern is written as whitespace-separated tokens, each either two hex
//! digits (an exact byte) or the wildcard token `??` (matches any byte). A
//! match at offset `o` requires, for every pattern position `k`, either a
//! wildcard or buffer byte equality, and must fit entirely within the buffer.

use vstd::prelude::*;
use vstd::string::StringSliceAdditionalSpecFns;

verus! {

/// A pattern's text could not be parsed.
#[derive(Debug, Clone, Copy, PartialEq, Eq, Structural)]
pub enum PatternError {
    /// A token is neither two hex digits nor the wildcard token.
    InvalidToken,
}

/// One position of a pattern: an exact byte or a wildcard.
#[derive(Debug, Clone, Copy, PartialEq, Eq, Structural)]
pub enum PatternByte {
    Exact(u8),
    Wildcard,
}

/// A parsed pattern: an ordered sequence of byte matchers, immutable once
/// parsed.
#[derive(Debug, Clone)]
pub struct Pattern {
    items: Vec<PatternByte>,
}

impl View for Pattern {
    type V = Seq<PatternByte>;

    closed spec fn view(&self) -> Seq<PatternByte> {
        self.items@
    }
}

/// ASCII whitespace that separates pattern tokens.
pub open spec fn is_space_byte(b: u8) -> bool {
    b == 32 || b == 9 || b == 10 || b == 13
}

pub open spec fn is_hex_digit(b: u8) -> bool {
    (48 <= b <= 57) || (65 <= b <= 70) || (97 <= b <= 102)
}

/// The value of a hex digit (meaningful only when `is_hex_digit`).
pub open spec fn hex_val(b: u8) -> int {
    if 48 <= b <= 57 {
        b - 48
    } else if 65 <= b <= 70 {
        b - 55
    } else {
        b - 87
    }
}

/// The matcher denoted by a two-character token, if any: `??` is a wildcard,
/// two hex digits are an exact byte.
pub open spec fn token_item(b0: u8, b1: u8) -> Option<PatternByte> {
    if b0 == 63 && b1 == 63 {
        Some(PatternByte::Wildcard)
    } else if is_hex_digit(b0) && is_hex_digit(b1) {
        Some(PatternByte::Exact((hex_val(b0) * 16 + hex_val(b1)) as u8))
    } else {
        None
    }
}

/// What a pattern text denotes: `None` on a parse failure, otherwise the
/// sequence of matchers, one per token.
pub open spec fn parse_pattern_spec(s: Seq<u8>) -> Option<Seq<PatternByte>>
    decreases s.len(),
{
    if s.len() == 0 {
        Some(Seq::empty())
    } else if is_space_byte(s[0]) {
        parse_pattern_spec(s.drop_first())
    } else if s.len() < 2 || !(s.len() == 2 || is_space_byte(s[2])) {
        None
    } else {
        match (token_item(s[0], s[1]), parse_pattern_spec(s.skip(2))) {
            (Some(it), Some(rest)) => Some(seq![it] + rest),
            _ => None,
        }
    }
}

/// Prepends an already-parsed prefix to the outcome of parsing a tail.
pub open spec fn parse_compose(prefix: Seq<PatternByte>, tail: Option<Seq<PatternByte>>) -> Option<
    Seq<PatternByte>,
> {
    match tail {
        Some(rest) => Some(prefix + rest),
        None => None,
    }
}

/// The value of an ASCII hex digit, or `None` for any other byte.
fn hex_value(b: u8) -> (r: Option<u8>)
    ensures
        match r {
            Some(v) => is_hex_digit(b) && v == hex_val(b),
            None => !is_hex_digit(b),
        },
{
    if 48 <= b && b <= 57 {
        Some(b - 48)
    } else if 65 <= b && b <= 70 {
        Some(b - 55)
    } else if 97 <= b && b <= 102 {
        Some(b - 87)
    } else {
        None
    }
}

fn is_space(b: u8) -> (r: bool)
    ensures
        r == is_space_byte(b),
{
    b == 32 || b == 9 || b == 10 || b == 13
}

/// Parses a signature text into a pattern. Fails exactly when some token is
/// neither two hex digits nor the wildcard token `??`.
pub fn parse_pattern(text: &str) -> (r: Result<Pattern, PatternError>)
    ensures
        match parse_pattern_spec(text.spec_bytes()) {
            Some(items) => r matches Ok(p) && p@ == items,
            None => r matches Err(PatternError::InvalidToken),
        },
{
    let bytes = text.as_bytes();
    let n = bytes.len();
    let mut items: Vec<PatternByte> = Vec::new();
    let mut i: usize = 0;
    proof {
        assert(bytes@.skip(0) =~= bytes@);
        assert forall|rest: Seq<PatternByte>| #[trigger]
            (Seq::<PatternByte>::empty() + rest) =~= rest by {}
    }
    while i < n
        invariant
            bytes@ == text.spec_bytes(),
            n == bytes@.len(),
            0 <= i <= n,
            parse_pattern_spec(bytes@) == parse_compose(
                items@,
                parse_pattern_spec(bytes@.skip(i as int)),
            ),
        decreases n - i,
    {
        let ghost s = bytes@.skip(i as int);
        let b0 = bytes[i];
        if is_space(b0) {
            proof {
                assert(s.drop_first() =~= bytes@.skip(i as int + 1));
            }
            i += 1;
        } else {
            if i + 1 >= n {
                proof {
                    assert(s.len() == 1);
                    assert(parse_pattern_spec(s) is None);
                }
                return Err(PatternError::InvalidToken);
            }
            let b1 = bytes[i + 1];
            if !(i + 2 == n || is_space(bytes[i + 2])) {
                proof {
                    assert(s[2] == bytes@[i as int + 2]);
                    assert(parse_pattern_spec(s) is None);
                }
                return Err(PatternError::InvalidToken);
            }
            let item: PatternByte;
            if b0 == 63 && b1 == 63 {
                item = PatternByte::Wildcard;
            } else {
                match (hex_value(b0), hex_value(b1)) {
                    (Some(h0), Some(h1)) => {
                        item = PatternByte::Exact(h0 * 16 + h1);
                    },
                    _ => {
                        proof {
                            assert(token_item(s[0], s[1]) is None);
                            assert(parse_pattern_spec(s) is None);
                        }
                        return Err(PatternError::InvalidToken);
                    },
                }
            }
            proof {
                assert(token_item(s[0], s[1]) == Some(item));
                assert(s.skip(2) =~= bytes@.skip(i as int + 2));
                assert(parse_pattern_spec(s) == parse_compose(
                    seq![item],
                    parse_pattern_spec(bytes@.skip(i as int + 2)),
                ));
                assert(items@.push(item) =~= items@ + seq![item]);
                assert forall|rest: Seq<PatternByte>|
                    true implies items@ + (seq![item] + rest) =~= (items@ + seq![item])
                    + rest by {}
            }
            items.push(item);
            i += 2;
        }
    }
    proof {
        assert(bytes@.skip(n as int) =~= Seq::<u8>::empty());
        assert(parse_pattern_spec(bytes@.skip(n as int)) == Some(Seq::<PatternByte>::empty()));
        assert(items@ + Seq::<PatternByte>::empty() =~= items@);
    }
    Ok(Pattern { items })
}

/// Whether one matcher accepts a byte.
pub open spec fn item_matches(it: PatternByte, b: u8) -> bool {
    match it {
        PatternByte::Exact(v) => b == v,
        PatternByte::Wildcard => true,
    }
}

/// A match at offset `o`: the pattern fits entirely within the buffer and
/// every position is a wildcard or equal to the buffer's byte.
pub open spec fn matches_at(buf: Seq<u8>, pat: Seq<PatternByte>, o: int) -> bool {
    &&& 0 <= o
    &&& o + pat.len() <= buf.len()
    &&& forall|k: int| 0 <= k < pat.len() ==> item_matches(#[trigger] pat[k], buf[o + k])
}

/// `o` is the lowest offset at which the pattern matches the buffer.
pub open spec fn is_first_match(buf: Seq<u8>, pat: Seq<PatternByte>, o: int) -> bool {
    matches_at(buf, pat, o) && forall|o2: int| 0 <= o2 < o ==> !#[trigger] matches_at(buf, pat, o2)
}

/// A buffer has at most one first match.
pub proof fn lemma_first_match_unique(buf: Seq<u8>, pat: Seq<PatternByte>, o1: int, o2: int)
    requires
        is_first_match(buf, pat, o1),
        is_first_match(buf, pat, o2),
    ensures
        o1 == o2,
{
    if o1 < o2 {
        assert(!matches_at(buf, pat, o1));
    }
    if o2 < o1 {
        assert(!matches_at(buf, pat, o2));
    }
}

/// Checks one offset of the buffer against the pattern.
fn match_at(buf: &[u8], pat: &Pattern, o: usize) -> (r: bool)
    requires
        o + pat@.len() <= buf@.len(),
    ensures
        r == matches_at(buf@, pat@, o as int),
{
    let m = pat.items.len();
    let blen = buf.len();
    let mut k: usize = 0;
    while k < m
        invariant
            m == pat@.len(),
            blen == buf@.len(),
            0 <= k <= m,
            o + m <= blen,
            forall|j: int| 0 <= j < k ==> item_matches(#[trigger] pat@[j], buf@[o + j]),
        decreases m - k,
    {
        match pat.items[k] {
            PatternByte::Exact(v) => {
                if buf[o + k] != v {
                    proof {
                        assert(!item_matches(pat@[k as int], buf@[o as int + k as int]));
                    }
                    return false;
                }
            },
            PatternByte::Wildcard => {},
        }
        k += 1;
    }
    true
}

/// All offsets at which the pattern matches the buffer, in strictly
/// increasing order. An empty result means "not found" and is a distinct
/// outcome from a buffer shorter than the pattern only in that both yield it.
pub fn scan_all_matches(buf: &[u8], pat: &Pattern) -> (r: Vec<usize>)
    ensures
        forall|j: int| 0 <= j < r@.len() ==> matches_at(buf@, pat@, r@[j] as int),
        forall|j: int, k: int| 0 <= j < k < r@.len() ==> r@[j] < r@[k],
        forall|o: int|
            #[trigger] matches_at(buf@, pat@, o) ==> exists|j: int|
                0 <= j < r@.len() && r@[j] == o,
{
    let mut r: Vec<usize> = Vec::new();
    if pat.items.len() > buf.len() {
        return r;
    }
    let last = buf.len() - pat.items.len();
    let mut o: usize = 0;
    loop
        invariant_except_break
            pat@.len() <= buf@.len(),
            last == buf@.len() - pat@.len(),
            0 <= o <= last,
            forall|j: int| 0 <= j < r@.len() ==> matches_at(buf@, pat@, r@[j] as int),
            forall|j: int, k: int| 0 <= j < k < r@.len() ==> r@[j] < r@[k],
            forall|j: int| 0 <= j < r@.len() ==> r@[j] < o,
            forall|o2: int|
                0 <= o2 < o && #[trigger] matches_at(buf@, pat@, o2) ==> exists|j: int|
                    0 <= j < r@.len() && r@[j] == o2,
        ensures
            forall|j: int| 0 <= j < r@.len() ==> matches_at(buf@, pat@, r@[j] as int),
            forall|j: int, k: int| 0 <= j < k < r@.len() ==> r@[j] < r@[k],
            forall|o2: int|
                0 <= o2 <= last && #[trigger] matches_at(buf@, pat@, o2) ==> exists|j: int|
                    0 <= j < r@.len() && r@[j] == o2,
        decreases last - o,
    {
        let ghost r_before = r@;
        let matched = match_at(buf, pat, o);
        if matched {
            r.push(o);
        }
        proof {
            assert forall|o2: int|
                0 <= o2 <= o && #[trigger] matches_at(buf@, pat@, o2) implies exists|j: int|
                0 <= j < r@.len() && r@[j] == o2 by {
                if o2 < o {
                    let j = choose|j: int| 0 <= j < r_before.len() && r_before[j] == o2;
                    assert(r@[j] == o2);
                } else {
                    assert(matched);
                    assert(r@[r@.len() - 1] == o2);
                }
            }
        }
        if o == last {
            break ;
        }
        o += 1;
    }
    proof {
        assert forall|o2: int| #[trigger]
            matches_at(buf@, pat@, o2) implies 0 <= o2 <= last by {}
    }
    r
}

/// The lowest offset at which the pattern matches the buffer, if any.
pub fn scan_first_match(buf: &[u8], pat: &Pattern) -> (r: Option<usize>)
    ensures
        match r {
            Some(o) => matches_at(buf@, pat@, o as int) && forall|o2: int|
                0 <= o2 < o ==> !#[trigger] matches_at(buf@, pat@, o2),
            None => forall|o: int| !#[trigger] matches_at(buf@, pat@, o),
        },
{
    if pat.items.len() > buf.len() {
        return None;
    }
    let last = buf.len() - pat.items.len();
    let mut o: usize = 0;
    loop
        invariant_except_break
            pat@.len() <= buf@.len(),
            last == buf@.len() - pat@.len(),
            0 <= o <= last,
            forall|o2: int| 0 <= o2 < o ==> !#[trigger] matches_at(buf@, pat@, o2),
        ensures
            forall|o2: int| 0 <= o2 <= last ==> !#[trigger] matches_at(buf@, pat@, o2),
        decreases last - o,
    {
        if match_at(buf, pat, o) {
            return Some(o);
        }
        if o == last {
            break ;
        }
        o += 1;
    }
    None
}

} // verus!
