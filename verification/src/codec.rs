//! Byte-level text codecs used by the instruction set: decimal rendering of
//! stack values, UTF-8 encoding of character output, and decimal parsing of
//! numeric input lines.

use vstd::prelude::*;

verus! {

/// The decimal digits of `n`, most significant first, as ASCII bytes.
pub open spec fn dec_digits(n: nat) -> Seq<u8>
    decreases n,
{
    if n < 10 {
        seq![(48 + n) as u8]
    } else {
        dec_digits(n / 10).push((48 + n % 10) as u8)
    }
}

/// The decimal rendering of a signed value: a minus sign followed by the
/// digits of the magnitude, or just the digits.
pub open spec fn dec_bytes(v: i64) -> Seq<u8> {
    if v >= 0 {
        dec_digits(v as nat)
    } else {
        seq![45u8] + dec_digits((-(v as int)) as nat)
    }
}

/// Append the decimal digits of `n` to `out`.
pub fn push_dec_u64(out: &mut Vec<u8>, n: u64)
    ensures
        final(out)@ == old(out)@ + dec_digits(n as nat),
    decreases n,
{
    if n < 10 {
        out.push(48 + (n as u8));
        assert(out@ =~= old(out)@ + dec_digits(n as nat));
    } else {
        push_dec_u64(out, n / 10);
        out.push(48 + ((n % 10) as u8));
        assert(out@ =~= old(out)@ + dec_digits(n as nat));
    }
}

/// Append the decimal rendering of `v` to `out`.
pub fn push_dec_i64(out: &mut Vec<u8>, v: i64)
    ensures
        final(out)@ == old(out)@ + dec_bytes(v),
{
    if v >= 0 {
        push_dec_u64(out, v as u64);
    } else {
        out.push(45);
        let magnitude: u64 = (-(v as i128)) as u64;
        push_dec_u64(out, magnitude);
        assert(out@ =~= old(out)@ + dec_bytes(v));
    }
}

/// Whether `v` is a Unicode scalar value (a code point that is not a
/// surrogate).
pub open spec fn is_unicode_scalar(v: int) -> bool {
    0 <= v <= 0x10FFFF && !(0xD800 <= v <= 0xDFFF)
}

/// The UTF-8 encoding of the scalar value `v`, one to four bytes.
pub open spec fn utf8_bytes(v: int) -> Seq<u8>
    recommends
        is_unicode_scalar(v),
{
    if v < 0x80 {
        seq![v as u8]
    } else if v < 0x800 {
        seq![(0xC0 + v / 64) as u8, (0x80 + v % 64) as u8]
    } else if v < 0x10000 {
        seq![(0xE0 + v / 4096) as u8, (0x80 + (v / 64) % 64) as u8, (0x80 + v % 64) as u8]
    } else {
        seq![
            (0xF0 + v / 262144) as u8,
            (0x80 + (v / 4096) % 64) as u8,
            (0x80 + (v / 64) % 64) as u8,
            (0x80 + v % 64) as u8,
        ]
    }
}

/// Decide whether `v` is a Unicode scalar value.
pub fn check_unicode_scalar(v: i64) -> (b: bool)
    ensures
        b == is_unicode_scalar(v as int),
{
    0 <= v && v <= 0x10FFFF && !(0xD800 <= v && v <= 0xDFFF)
}

/// Append the UTF-8 encoding of the scalar value `v` to `out`.
pub fn push_utf8(out: &mut Vec<u8>, v: u32)
    requires
        is_unicode_scalar(v as int),
    ensures
        final(out)@ == old(out)@ + utf8_bytes(v as int),
{
    proof {
        vstd::arithmetic::div_mod::lemma_mod_division_less_than_divisor(v as int, 64);
        vstd::arithmetic::div_mod::lemma_mod_division_less_than_divisor((v / 64) as int, 64);
        vstd::arithmetic::div_mod::lemma_mod_division_less_than_divisor((v / 4096) as int, 64);
        vstd::arithmetic::div_mod::lemma_div_pos_is_pos(v as int, 64);
        vstd::arithmetic::div_mod::lemma_div_pos_is_pos(v as int, 4096);
        vstd::arithmetic::div_mod::lemma_div_pos_is_pos(v as int, 262144);
    }
    if v < 0x80 {
        out.push(v as u8);
        assert(out@ =~= old(out)@ + utf8_bytes(v as int));
    } else if v < 0x800 {
        proof {
            vstd::arithmetic::div_mod::lemma_multiply_divide_lt(v as int, 32, 64);
        }
        out.push(0xC0 + (v / 64) as u8);
        out.push(0x80 + (v % 64) as u8);
        assert(out@ =~= old(out)@ + utf8_bytes(v as int));
    } else if v < 0x10000 {
        proof {
            vstd::arithmetic::div_mod::lemma_multiply_divide_lt(v as int, 16, 4096);
        }
        out.push(0xE0 + (v / 4096) as u8);
        out.push(0x80 + ((v / 64) % 64) as u8);
        out.push(0x80 + (v % 64) as u8);
        assert(out@ =~= old(out)@ + utf8_bytes(v as int));
    } else {
        proof {
            vstd::arithmetic::div_mod::lemma_multiply_divide_lt(v as int, 5, 262144);
        }
        out.push(0xF0 + (v / 262144) as u8);
        out.push(0x80 + ((v / 4096) % 64) as u8);
        out.push(0x80 + ((v / 64) % 64) as u8);
        out.push(0x80 + (v % 64) as u8);
        assert(out@ =~= old(out)@ + utf8_bytes(v as int));
    }
}

/// ASCII whitespace, matching what surrounds a number on an input line.
pub open spec fn is_ascii_whitespace(b: u8) -> bool {
    b == 32 || (9 <= b <= 13)
}

/// `s` with leading ASCII whitespace removed.
pub open spec fn trim_front(s: Seq<u8>) -> Seq<u8>
    decreases s.len(),
{
    if s.len() > 0 && is_ascii_whitespace(s[0]) {
        trim_front(s.drop_first())
    } else {
        s
    }
}

/// `s` with trailing ASCII whitespace removed.
pub open spec fn trim_back(s: Seq<u8>) -> Seq<u8>
    decreases s.len(),
{
    if s.len() > 0 && is_ascii_whitespace(s.last()) {
        trim_back(s.drop_last())
    } else {
        s
    }
}

/// An ASCII decimal digit.
pub open spec fn is_ascii_digit(b: u8) -> bool {
    48 <= b <= 57
}

/// All bytes of `s` are decimal digits.
pub open spec fn all_digits(s: Seq<u8>) -> bool {
    forall|i: int| 0 <= i < s.len() ==> is_ascii_digit(#[trigger] s[i])
}

/// The value of a digit string read in base ten.
pub open spec fn dec_value(s: Seq<u8>) -> int
    decreases s.len(),
{
    if s.len() == 0 {
        0
    } else {
        dec_value(s.drop_last()) * 10 + (s.last() - 48)
    }
}

/// The digit portion of an input line: surrounding ASCII whitespace and an
/// optional leading sign removed.
pub open spec fn digits_of(s: Seq<u8>) -> Seq<u8> {
    let t = trim_back(trim_front(s));
    if t.len() > 0 && (t[0] == 43 || t[0] == 45) {
        t.drop_first()
    } else {
        t
    }
}

/// Whether an input line carries a leading minus sign.
pub open spec fn negative_of(s: Seq<u8>) -> bool {
    let t = trim_back(trim_front(s));
    t.len() > 0 && t[0] == 45
}

/// What parsing an input line as a decimal signed 64-bit integer yields:
/// optional surrounding ASCII whitespace, an optional sign, then at least one
/// digit, with the value in range; anything else fails.
pub open spec fn parse_i64_spec(s: Seq<u8>) -> Option<i64> {
    let digits = digits_of(s);
    if digits.len() > 0 && all_digits(digits) {
        let v = if negative_of(s) {
            -dec_value(digits)
        } else {
            dec_value(digits)
        };
        if i64::MIN <= v <= i64::MAX {
            Some(v as i64)
        } else {
            None
        }
    } else {
        None
    }
}

/// A digit string has a non-negative value.
pub proof fn lemma_dec_value_nonneg(s: Seq<u8>)
    requires
        all_digits(s),
    ensures
        dec_value(s) >= 0,
    decreases s.len(),
{
    if s.len() > 0 {
        assert(all_digits(s.drop_last())) by {
            assert(forall|i: int|
                0 <= i < s.len() - 1 ==> #[trigger] s.drop_last()[i] == s[i]);
        }
        lemma_dec_value_nonneg(s.drop_last());
    }
}

/// Extending a digit string to the right never lowers its value.
pub proof fn lemma_dec_value_prefix_le(s: Seq<u8>, k: int)
    requires
        all_digits(s),
        0 <= k <= s.len(),
    ensures
        dec_value(s.subrange(0, k)) <= dec_value(s),
    decreases s.len() - k,
{
    if k < s.len() {
        let t = s.subrange(0, k + 1);
        assert(all_digits(t));
        assert(t.drop_last() =~= s.subrange(0, k));
        lemma_dec_value_nonneg(s.subrange(0, k));
        assert(dec_value(t) == dec_value(s.subrange(0, k)) * 10 + (t.last() - 48));
        lemma_dec_value_prefix_le(s, k + 1);
    } else {
        assert(s.subrange(0, k) =~= s);
    }
}

/// Parse an input line as a decimal signed 64-bit integer: optional
/// surrounding ASCII whitespace, an optional sign, then at least one digit.
/// Fails on anything else and on values outside the 64-bit range.
fn ws_byte(b: u8) -> (r: bool)
    ensures
        r == is_ascii_whitespace(b),
{
    b == 32 || (9 <= b && b <= 13)
}

/// Parse an input line as a decimal signed 64-bit integer: optional
/// surrounding ASCII whitespace, an optional sign, then at least one digit,
/// with the value in the 64-bit range.  Anything else fails.
pub fn parse_i64(bytes: &Vec<u8>) -> (r: Option<i64>)
    ensures
        r == parse_i64_spec(bytes@),
{
    let n = bytes.len();
    let mut start: usize = 0;
    proof {
        assert(bytes@.subrange(0, n as int) =~= bytes@);
    }
    while start < n && ws_byte(bytes[start])
        invariant
            n == bytes@.len(),
            0 <= start <= n,
            trim_front(bytes@) == trim_front(bytes@.subrange(start as int, n as int)),
        decreases n - start,
    {
        proof {
            let t = bytes@.subrange(start as int, n as int);
            assert(t.drop_first() =~= bytes@.subrange(start as int + 1, n as int));
            assert(trim_front(t) == trim_front(t.drop_first()));
        }
        start = start + 1;
    }
    proof {
        let t = bytes@.subrange(start as int, n as int);
        assert(trim_front(t) == t);
        assert(trim_front(bytes@) == t);
    }
    let mut end: usize = n;
    while end > start && ws_byte(bytes[end - 1])
        invariant
            n == bytes@.len(),
            start <= end <= n,
            trim_front(bytes@) == bytes@.subrange(start as int, n as int),
            trim_back(trim_front(bytes@)) == trim_back(
                bytes@.subrange(start as int, end as int),
            ),
        decreases end,
    {
        proof {
            let t = bytes@.subrange(start as int, end as int);
            assert(t.drop_last() =~= bytes@.subrange(start as int, end as int - 1));
            assert(trim_back(t) == trim_back(t.drop_last()));
        }
        end = end - 1;
    }
    let ghost t = bytes@.subrange(start as int, end as int);
    proof {
        assert(trim_back(t) == t);
        assert(trim_back(trim_front(bytes@)) == t);
    }
    let mut neg = false;
    let mut dstart: usize = start;
    if end > start && (bytes[start] == 43 || bytes[start] == 45) {
        neg = bytes[start] == 45;
        dstart = start + 1;
    }
    let ghost digits = bytes@.subrange(dstart as int, end as int);
    proof {
        if end > start && (t[0] == 43 || t[0] == 45) {
            assert(t.drop_first() =~= digits);
        } else {
            assert(t =~= digits);
        }
        assert(digits == digits_of(bytes@));
        assert(neg == negative_of(bytes@));
    }
    if dstart == end {
        return None;
    }
    let mut acc: u64 = 0;
    let mut i: usize = dstart;
    while i < end
        invariant
            n == bytes@.len(),
            dstart <= i <= end <= n,
            digits == bytes@.subrange(dstart as int, end as int),
            digits == digits_of(bytes@),
            neg == negative_of(bytes@),
            digits.len() > 0,
            all_digits(bytes@.subrange(dstart as int, i as int)),
            acc as int == dec_value(bytes@.subrange(dstart as int, i as int)),
        decreases end - i,
    {
        let b = bytes[i];
        if b < 48 || b > 57 {
            proof {
                assert(digits[i - dstart] == b);
                assert(!all_digits(digits));
            }
            return None;
        }
        let step = acc.checked_mul(10);
        let next = match step {
            Some(m) => m.checked_add((b - 48) as u64),
            None => None,
        };
        proof {
            let prefix = bytes@.subrange(dstart as int, i as int);
            let extended = bytes@.subrange(dstart as int, i as int + 1);
            assert(extended.drop_last() =~= prefix);
            assert(extended.last() == b);
            assert(all_digits(extended));
            assert(dec_value(extended) == dec_value(prefix) * 10 + (b - 48));
        }
        match next {
            Some(v) => {
                acc = v;
            },
            None => {
                proof {
                    let extended = bytes@.subrange(dstart as int, i as int + 1);
                    assert(dec_value(extended) > u64::MAX);
                    assert(extended =~= digits.subrange(0, i - dstart + 1));
                    if all_digits(digits) {
                        lemma_dec_value_prefix_le(digits, i - dstart + 1);
                        assert(dec_value(digits) > u64::MAX);
                    }
                }
                return None;
            },
        }
        i = i + 1;
    }
    proof {
        assert(bytes@.subrange(dstart as int, i as int) =~= digits);
    }
    if neg {
        if acc > 0x8000_0000_0000_0000u64 {
            return None;
        }
        if acc == 0x8000_0000_0000_0000u64 {
            return Some(i64::MIN);
        }
        Some(-(acc as i64))
    } else {
        if acc > 0x7FFF_FFFF_FFFF_FFFFu64 {
            return None;
        }
        Some(acc as i64)
    }
}

} // verus!
