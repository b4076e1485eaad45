//! Decimal text for sizes and page tokens.
//!
//! Thumbnail paths embed a rung size in decimal, and pagination tokens are
//! decimal offsets.  Formatting and parsing are verified against each other.

use vstd::prelude::*;

use crate::VaultError;

verus! {

/// The decimal digit character for `d`.
pub open spec fn dec_digit(d: int) -> char
    recommends
        0 <= d < 10,
{
    ((0x30 + d) as u8) as char
}

/// The decimal form of `n`, most significant digit first, no sign, no
/// leading zero except for zero itself.
pub open spec fn spec_dec(n: int) -> Seq<char>
    recommends
        n >= 0,
    decreases n,
{
    if n < 10 {
        seq![dec_digit(n)]
    } else {
        spec_dec(n / 10) + seq![dec_digit(n % 10)]
    }
}

/// The value of a digit string: `None` unless the text is one or more
/// decimal digits.
pub open spec fn spec_parse_dec(text: Seq<char>) -> Option<int>
    decreases text.len(),
{
    if text.len() == 0 {
        None
    } else {
        let c = text[text.len() - 1];
        if !('0' <= c && c <= '9') {
            None
        } else if text.len() == 1 {
            Some(c as int - 0x30)
        } else {
            match spec_parse_dec(text.drop_last()) {
                Some(hi) => Some(hi * 10 + (c as int - 0x30)),
                None => None,
            }
        }
    }
}

/// Parsing recovers what formatting wrote.
pub proof fn lemma_parse_dec_roundtrip(n: int)
    requires
        n >= 0,
    ensures
        spec_parse_dec(spec_dec(n)) == Some(n),
    decreases n,
{
    if n < 10 {
        assert(dec_digit(n) as int - 0x30 == n);
    } else {
        lemma_parse_dec_roundtrip(n / 10);
        let whole = spec_dec(n);
        assert(whole.drop_last() =~= spec_dec(n / 10));
        assert(whole[whole.len() - 1] == dec_digit(n % 10));
        assert(dec_digit(n % 10) as int - 0x30 == n % 10);
    }
}

/// Format `n` in decimal.
pub fn u64_to_dec(n: u64) -> (r: String)
    ensures
        r@ == spec_dec(n as int),
        vstd::utf8::is_ascii_chars(r@),
    decreases n,
{
    let ascii = u64_to_dec_ascii(n);
    proof {
        lemma_dec_ascii_bounded(n as int);
        assert(ascii@.map_values(|b: u8| b as char) =~= spec_dec(n as int));
    }
    crate::trusted::ascii_to_string(ascii)
}

/// The decimal form of `n` as ASCII bytes.
pub open spec fn spec_dec_ascii(n: int) -> Seq<u8>
    recommends
        n >= 0,
    decreases n,
{
    if n < 10 {
        seq![(0x30 + n) as u8]
    } else {
        spec_dec_ascii(n / 10) + seq![(0x30 + n % 10) as u8]
    }
}

proof fn lemma_dec_ascii_bounded(n: int)
    requires
        n >= 0,
    ensures
        forall|i: int| 0 <= i < spec_dec_ascii(n).len() ==> 0x30 <= #[trigger] spec_dec_ascii(
            n,
        )[i] < 0x3a,
        spec_dec_ascii(n).map_values(|b: u8| b as char) =~= spec_dec(n),
        spec_dec_ascii(n).len() >= 1,
    decreases n,
{
    if n < 10 {
        assert(spec_dec_ascii(n).map_values(|b: u8| b as char) =~= spec_dec(n));
    } else {
        lemma_dec_ascii_bounded(n / 10);
        assert(spec_dec_ascii(n) =~= spec_dec_ascii(n / 10) + seq![(0x30 + n % 10) as u8]);
        assert(spec_dec_ascii(n).map_values(|b: u8| b as char) =~= spec_dec(n));
    }
}

fn u64_to_dec_ascii(n: u64) -> (r: Vec<u8>)
    ensures
        r@ == spec_dec_ascii(n as int),
    decreases n,
{
    if n < 10 {
        let mut out: Vec<u8> = Vec::new();
        out.push(0x30 + (n as u8));
        assert(out@ =~= spec_dec_ascii(n as int));
        out
    } else {
        let mut out = u64_to_dec_ascii(n / 10);
        out.push(0x30 + ((n % 10) as u8));
        assert(out@ =~= spec_dec_ascii(n as int));
        out
    }
}

/// Parse a decimal page token.  `BadInput` when the text is empty, has a
/// character that is no digit, or names a value above `u32::MAX`.
pub fn parse_dec_u32(s: &str) -> (r: Result<u32, VaultError>)
    ensures
        r matches Ok(v) ==> spec_parse_dec(s@) == Some(v as int),
        r is Err ==> (r matches Err(e) && e == VaultError::BadInput)
            && (spec_parse_dec(s@) is None || (spec_parse_dec(s@) matches Some(v) && v
            > u32::MAX)),
{
    let n = s.unicode_len();
    if n == 0 {
        return Err(VaultError::BadInput);
    }
    let mut acc: u32 = 0;
    let mut i: usize = 0;
    while i < n
        invariant
            0 <= i <= n,
            n == s@.len(),
            i > 0 ==> spec_parse_dec(s@.take(i as int)) == Some(acc as int),
            i == 0 ==> acc == 0,
        decreases n - i,
    {
        let c = s.get_char(i);
        if !('0' <= c && c <= '9') {
            proof {
                lemma_parse_dec_bad_char(s@, i as int);
            }
            return Err(VaultError::BadInput);
        }
        let d: u32 = (c as u32) - 0x30;
        proof {
            let t1 = s@.take(i as int + 1);
            assert(t1.drop_last() =~= s@.take(i as int));
            assert(t1[i as int] == s@[i as int]);
            assert(spec_parse_dec(t1) == Some(acc as int * 10 + d as int));
        }
        if acc > 0xffff_ffffu32 / 10 || (acc == 0xffff_ffffu32 / 10 && d > 0xffff_ffffu32 % 10) {
            proof {
                assert(acc as int * 10 + d as int > u32::MAX);
                if spec_parse_dec(s@) is Some {
                    lemma_parse_dec_monotone(s@, i as int + 1);
                }
            }
            return Err(VaultError::BadInput);
        }
        acc = acc * 10 + d;
        i = i + 1;
    }
    proof {
        assert(s@.take(n as int) =~= s@);
    }
    Ok(acc)
}

/// A non-digit anywhere makes the whole text unparsable.
proof fn lemma_parse_dec_bad_char(text: Seq<char>, i: int)
    requires
        0 <= i < text.len(),
        !('0' <= text[i] && text[i] <= '9'),
    ensures
        spec_parse_dec(text) is None,
    decreases text.len(),
{
    if text.len() > 0 {
        if i == text.len() - 1 {
        } else {
            lemma_parse_dec_bad_char(text.drop_last(), i);
        }
    }
}

/// When the whole parses, every nonempty prefix parses, to no more.
proof fn lemma_parse_dec_monotone(text: Seq<char>, j: int)
    requires
        0 < j <= text.len(),
    ensures
        spec_parse_dec(text) matches Some(v) ==> (spec_parse_dec(text.take(j)) matches Some(p)
            && p <= v),
    decreases text.len(),
{
    if spec_parse_dec(text) is Some {
        if j == text.len() {
            assert(text.take(j) =~= text);
        } else {
            lemma_parse_dec_nonneg(text.drop_last());
            lemma_parse_dec_monotone(text.drop_last(), j);
            assert(text.drop_last().take(j) =~= text.take(j));
        }
    }
}

/// A parsed value is never negative.
proof fn lemma_parse_dec_nonneg(text: Seq<char>)
    ensures
        spec_parse_dec(text) matches Some(v) ==> v >= 0,
    decreases text.len(),
{
    if text.len() > 1 {
        lemma_parse_dec_nonneg(text.drop_last());
    }
}

} // verus!
