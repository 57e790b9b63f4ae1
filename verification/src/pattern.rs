//! The pattern compiler: parses a textual signature into a byte sequence,
//! a parallel inclusion mask and a leading-wildcard count.
//!
//! A signature is a sequence of tokens separated by single spaces. Each
//! token is either the wildcard marker `??` or a two-digit hexadecimal
//! byte, optionally prefixed with `0x`. A malformed token is rejected, and
//! so is a signature with no concrete byte, since the search anchors on
//! the first concrete byte.

use vstd::prelude::*;
use vstd::string::StringSliceAdditionalSpecFns;

verus! {

/// Why a signature failed to compile.
#[derive(Clone, Copy, Debug, PartialEq, Eq, Structural)]
pub enum ParseError {
    /// A token is neither the wildcard marker nor a valid hexadecimal byte.
    InvalidToken,
    /// Every token is the wildcard marker, so no byte can anchor the search.
    AllWildcards,
}

/// A compiled signature: `bytes` holds the pattern bytes with wildcard
/// positions stored as 0, `mask` marks each position as concrete (1) or
/// ignored (0), and `leading_ignore_count` counts the wildcard tokens
/// before the first concrete one.
pub struct SimdPatternScanData {
    pub bytes: Vec<u8>,
    pub mask: Vec<u8>,
    pub leading_ignore_count: usize,
}

/// Index of the first space in `s`, or `s.len()` if there is none.
pub open spec fn first_space(s: Seq<u8>) -> int
    decreases s.len(),
{
    if s.len() == 0 {
        0
    } else if s[0] == 32 {
        0
    } else {
        1 + first_space(s.drop_first())
    }
}

/// The token list of a signature: the maximal space-free runs, split on
/// every single space. Splitting is total: an empty signature or one with
/// adjacent spaces yields empty tokens, which no token shape accepts.
pub open spec fn spec_tokens(s: Seq<u8>) -> Seq<Seq<u8>>
    decreases s.len(),
{
    let f = first_space(s);
    if 0 <= f && f < s.len() {
        seq![s.take(f)] + spec_tokens(s.skip(f + 1))
    } else {
        seq![s]
    }
}

/// The literal wildcard marker `??`.
pub open spec fn token_is_wildcard(t: Seq<u8>) -> bool {
    t.len() == 2 && t[0] == 63 && t[1] == 63
}

/// Whether `b` is an ASCII hexadecimal digit.
pub open spec fn is_hex_digit(b: u8) -> bool {
    (48 <= b && b <= 57) || (97 <= b && b <= 102) || (65 <= b && b <= 70)
}

/// The value of the hexadecimal digit `b`.
pub open spec fn hex_digit_value(b: u8) -> u8 {
    if 48 <= b && b <= 57 {
        (b - 48) as u8
    } else if 97 <= b && b <= 102 {
        (b - 87) as u8
    } else {
        (b - 55) as u8
    }
}

/// The digit part of a token: the token with one optional `0x` prefix
/// removed.
pub open spec fn token_digits(t: Seq<u8>) -> Seq<u8> {
    if t.len() >= 2 && t[0] == 48 && t[1] == 120 {
        t.skip(2)
    } else {
        t
    }
}

/// A valid hexadecimal byte token: exactly two hex digits after the
/// optional `0x` prefix.
pub open spec fn token_is_byte(t: Seq<u8>) -> bool {
    let d = token_digits(t);
    d.len() == 2 && is_hex_digit(d[0]) && is_hex_digit(d[1])
}

/// The byte a valid hexadecimal token denotes.
pub open spec fn token_byte_value(t: Seq<u8>) -> u8 {
    let d = token_digits(t);
    (hex_digit_value(d[0]) * 16 + hex_digit_value(d[1])) as u8
}

/// A token is either the wildcard marker or a hexadecimal byte.
pub open spec fn token_ok(t: Seq<u8>) -> bool {
    token_is_wildcard(t) || token_is_byte(t)
}

/// Every token of the list is well formed.
pub open spec fn tokens_ok(ts: Seq<Seq<u8>>) -> bool {
    forall|i: int| 0 <= i < ts.len() ==> #[trigger] token_ok(ts[i])
}

/// Some token is concrete, so the pattern has an anchor byte.
pub open spec fn has_concrete(ts: Seq<Seq<u8>>) -> bool {
    exists|i: int| 0 <= i < ts.len() && !(#[trigger] token_is_wildcard(ts[i]))
}

/// The pattern bytes of a token list: a wildcard contributes 0, a
/// concrete token its byte value.
pub open spec fn spec_pattern_bytes(ts: Seq<Seq<u8>>) -> Seq<u8> {
    Seq::new(
        ts.len(),
        |i: int|
            if token_is_wildcard(ts[i]) {
                0u8
            } else {
                token_byte_value(ts[i])
            },
    )
}

/// The inclusion mask of a token list: 0 for a wildcard, 1 for a
/// concrete byte.
pub open spec fn spec_pattern_mask(ts: Seq<Seq<u8>>) -> Seq<u8> {
    Seq::new(
        ts.len(),
        |i: int|
            if token_is_wildcard(ts[i]) {
                0u8
            } else {
                1u8
            },
    )
}

/// The number of wildcard tokens before the first concrete one.
pub open spec fn spec_leading_ignore_count(ts: Seq<Seq<u8>>) -> int
    decreases ts.len(),
{
    if ts.len() == 0 {
        0
    } else if token_is_wildcard(ts[0]) {
        1 + spec_leading_ignore_count(ts.drop_first())
    } else {
        0
    }
}

proof fn lemma_first_space_char(s: Seq<u8>, f: int)
    requires
        0 <= f <= s.len(),
        forall|k: int| 0 <= k < f ==> s[k] != 32,
        f < s.len() ==> s[f] == 32,
    ensures
        first_space(s) == f,
    decreases s.len(),
{
    if s.len() == 0 {
    } else if s[0] == 32 {
        assert(f == 0);
    } else {
        assert(f >= 1);
        lemma_first_space_char(s.drop_first(), f - 1);
    }
}

proof fn lemma_leading_ignore_char(ts: Seq<Seq<u8>>, k: int)
    requires
        0 <= k <= ts.len(),
        forall|i: int| 0 <= i < k ==> token_is_wildcard(#[trigger] ts[i]),
        k < ts.len() ==> !token_is_wildcard(ts[k]),
    ensures
        spec_leading_ignore_count(ts) == k,
    decreases ts.len(),
{
    if k == 0 {
    } else {
        assert(token_is_wildcard(ts[0]));
        lemma_leading_ignore_char(ts.drop_first(), k - 1);
    }
}

proof fn lemma_has_concrete_push(ts: Seq<Seq<u8>>, t: Seq<u8>)
    ensures
        has_concrete(ts + seq![t]) == (has_concrete(ts) || !token_is_wildcard(t)),
{
    let ts1 = ts + seq![t];
    if has_concrete(ts) {
        let i = choose|i: int| 0 <= i < ts.len() && !(token_is_wildcard(ts[i]));
        assert(ts1[i] == ts[i]);
        assert(!token_is_wildcard(ts1[i]));
    }
    if !token_is_wildcard(t) {
        assert(ts1[ts.len() as int] == t);
        assert(!token_is_wildcard(ts1[ts.len() as int]));
    }
    if has_concrete(ts1) && !has_concrete(ts) && token_is_wildcard(t) {
        let i = choose|i: int| 0 <= i < ts1.len() && !(token_is_wildcard(ts1[i]));
        if i < ts.len() {
            assert(!token_is_wildcard(ts[i]));
        } else {
            assert(ts1[i] == t);
        }
    }
}

/// How one token is classified while compiling.
enum TokenClass {
    Wildcard,
    Byte(u8),
    Invalid,
}

/// The value of one hexadecimal digit, or `None` if `b` is not one.
fn hex_val(b: u8) -> (r: Option<u8>)
    ensures
        r is Some <==> is_hex_digit(b),
        r is Some ==> r->Some_0 == hex_digit_value(b) && r->Some_0 < 16,
{
    if b >= 48 && b <= 57 {
        Some(b - 48)
    } else if b >= 97 && b <= 102 {
        Some(b - 87)
    } else if b >= 65 && b <= 70 {
        Some(b - 55)
    } else {
        None
    }
}

/// Classifies the token `s[start..end]` as wildcard, byte or invalid.
fn classify_token(s: &[u8], start: usize, end: usize) -> (t: TokenClass)
    requires
        start <= end,
        end <= s@.len(),
    ensures
        ({
            let tok = s@.subrange(start as int, end as int);
            match t {
                TokenClass::Wildcard => token_is_wildcard(tok),
                TokenClass::Byte(v) => !token_is_wildcard(tok) && token_is_byte(tok) && v
                    == token_byte_value(tok),
                TokenClass::Invalid => !token_ok(tok),
            }
        }),
{
    let tlen = end - start;
    if tlen == 2 && s[start] == 63 && s[start + 1] == 63 {
        return TokenClass::Wildcard;
    }
    if tlen == 2 {
        let h = hex_val(s[start]);
        let l = hex_val(s[start + 1]);
        if h.is_some() && l.is_some() {
            return TokenClass::Byte(h.unwrap() * 16 + l.unwrap());
        }
        return TokenClass::Invalid;
    }
    if tlen == 4 && s[start] == 48 && s[start + 1] == 120 {
        let h = hex_val(s[start + 2]);
        let l = hex_val(s[start + 3]);
        if h.is_some() && l.is_some() {
            proof {
                let tok = s@.subrange(start as int, end as int);
                assert(token_digits(tok) =~= tok.skip(2));
            }
            return TokenClass::Byte(h.unwrap() * 16 + l.unwrap());
        }
        proof {
            let tok = s@.subrange(start as int, end as int);
            assert(token_digits(tok) =~= tok.skip(2));
        }
        return TokenClass::Invalid;
    }
    TokenClass::Invalid
}

impl SimdPatternScanData {
    /// The compiled pattern is internally consistent: the mask runs
    /// parallel to the bytes, holds only 0 and 1, and the position at
    /// `leading_ignore_count` is the first concrete byte — the anchor.
    pub open spec fn wf(&self) -> bool {
        &&& self.bytes@.len() == self.mask@.len()
        &&& self.bytes@.len() >= 1
        &&& self.leading_ignore_count < self.bytes@.len()
        &&& forall|i: int|
            0 <= i < self.mask@.len() ==> #[trigger] self.mask@[i] == 0 || self.mask@[i] == 1
        &&& self.mask@[self.leading_ignore_count as int] == 1
        &&& forall|i: int| 0 <= i < self.leading_ignore_count ==> #[trigger] self.mask@[i] == 0
    }

    /// Compiles a textual signature.
    ///
    /// Succeeds exactly when every token is well formed and at least one
    /// is concrete; the result then carries the byte, mask and
    /// leading-wildcard data of the token list. No partial pattern is
    /// produced on failure.
    pub fn new(pattern: &str) -> (r: Result<Self, ParseError>)
        ensures
            ({
                let ts = spec_tokens(pattern.spec_bytes());
                match r {
                    Ok(pd) => tokens_ok(ts) && has_concrete(ts) && pd.bytes@
                        == spec_pattern_bytes(ts) && pd.mask@ == spec_pattern_mask(ts)
                        && pd.leading_ignore_count == spec_leading_ignore_count(ts) && pd.wf(),
                    Err(ParseError::InvalidToken) => !tokens_ok(ts),
                    Err(ParseError::AllWildcards) => tokens_ok(ts) && !has_concrete(ts),
                }
            }),
    {
        let s: &[u8] = pattern.as_bytes();
        let n: usize = s.len();
        let ghost full: Seq<u8> = s@;
        let ghost ts: Seq<Seq<u8>> = spec_tokens(full);
        let mut bytes: Vec<u8> = Vec::new();
        let mut mask: Vec<u8> = Vec::new();
        let mut leading_ignore_count: usize = 0;
        let mut found_concrete: bool = false;
        let mut start: usize = 0;
        let ghost mut done: Seq<Seq<u8>> = Seq::empty();
        proof {
            assert(full.skip(0) =~= full);
            assert(ts =~= done + spec_tokens(full.skip(0)));
        }
        loop
            invariant
                s@ == full,
                full == pattern.spec_bytes(),
                ts == spec_tokens(full),
                n == full.len(),
                start <= n,
                done.len() <= start,
                ts == done + spec_tokens(full.skip(start as int)),
                bytes@.len() == done.len(),
                mask@.len() == done.len(),
                bytes@ == spec_pattern_bytes(done),
                mask@ == spec_pattern_mask(done),
                tokens_ok(done),
                found_concrete == has_concrete(done),
                leading_ignore_count <= done.len(),
                !found_concrete ==> leading_ignore_count == done.len(),
                forall|i: int|
                    0 <= i < leading_ignore_count ==> token_is_wildcard(#[trigger] done[i]),
                found_concrete ==> leading_ignore_count < done.len() && !token_is_wildcard(
                    done[leading_ignore_count as int],
                ),
            decreases n - start,
        {
            let mut end: usize = start;
            while end < n && s[end] != 32
                invariant
                    start <= end <= n,
                    n == full.len(),
                    s@ == full,
                    forall|k: int| start <= k < end ==> full[k] != 32,
                decreases n - end,
            {
                end = end + 1;
            }
            let ghost rem = full.skip(start as int);
            let ghost f: int = end - start;
            let ghost tok = full.subrange(start as int, end as int);
            proof {
                assert forall|k: int| 0 <= k < f implies rem[k] != 32 by {
                    assert(rem[k] == full[start + k]);
                }
                if f < rem.len() {
                    assert(rem[f] == full[end as int]);
                }
                lemma_first_space_char(rem, f);
                if end < n {
                    assert(rem.take(f) =~= tok);
                    assert(rem.skip(f + 1) =~= full.skip(end + 1));
                    assert(spec_tokens(rem) == seq![tok] + spec_tokens(full.skip(end + 1)));
                } else {
                    assert(rem =~= tok);
                    assert(spec_tokens(rem) == seq![tok]);
                }
                assert(ts[done.len() as int] == tok);
            }
            let t = classify_token(s, start, end);
            match t {
                TokenClass::Wildcard => {
                    mask.push(0);
                    bytes.push(0);
                    if !found_concrete {
                        leading_ignore_count = leading_ignore_count + 1;
                    }
                },
                TokenClass::Byte(v) => {
                    bytes.push(v);
                    mask.push(1);
                    found_concrete = true;
                },
                TokenClass::Invalid => {
                    proof {
                        assert(spec_tokens(rem).len() >= 1);
                        assert(!token_ok(ts[done.len() as int]));
                    }
                    return Err(ParseError::InvalidToken);
                },
            }
            proof {
                let done1 = done + seq![tok];
                assert(done1[done.len() as int] == tok);
                assert(bytes@ =~= spec_pattern_bytes(done1));
                assert(mask@ =~= spec_pattern_mask(done1));
                lemma_has_concrete_push(done, tok);
                done = done1;
            }
            if end == n {
                proof {
                    assert(done =~= ts);
                }
                if !found_concrete {
                    return Err(ParseError::AllWildcards);
                }
                proof {
                    lemma_leading_ignore_char(ts, leading_ignore_count as int);
                }
                return Ok(
                    SimdPatternScanData { bytes, mask, leading_ignore_count },
                );
            }
            start = end + 1;
        }
    }
}

} // verus!
