//! Byte-level text validation: UTF-8 checking against vstd's UTF-8 model,
//! the grammar of double literals, big-number digit strings, and the
//! CR/LF freedom that simple variants demand.

use vstd::prelude::*;
use vstd::utf8::{
    is_continuation_byte, is_leading_byte_width_1, is_leading_byte_width_2,
    is_leading_byte_width_3, is_leading_byte_width_4, partial_valid_partial_invalid_utf8,
    partial_valid_utf8, partial_valid_utf8_extend, valid_first_scalar, valid_utf8,
};

verus! {

/// An ASCII decimal digit.
pub open spec fn is_digit(b: u8) -> bool {
    48 <= b <= 57
}

/// An ASCII `+` or `-`.
pub open spec fn is_sign(b: u8) -> bool {
    b == 43 || b == 45
}

/// Upper-case ASCII letters folded to lower case; all else unchanged.
pub open spec fn lower(b: u8) -> u8 {
    if 65 <= b <= 90 {
        (b + 32) as u8
    } else {
        b
    }
}

/// Whether some byte of `s` is CR or LF.
pub open spec fn has_cr_or_lf(s: Seq<u8>) -> bool {
    exists|i: int| 0 <= i < s.len() && (s[i] == 13 || s[i] == 10)
}

/// True when `s` contains a CR or LF byte.
pub fn contains_cr_or_lf(s: &[u8]) -> (r: bool)
    ensures
        r == has_cr_or_lf(s@),
{
    let mut i: usize = 0;
    while i < s.len()
        invariant
            i <= s@.len(),
            forall|j: int| 0 <= j < i ==> s@[j] != 13 && s@[j] != 10,
        decreases s@.len() - i,
    {
        let b = s[i];
        if b == 13 || b == 10 {
            return true;
        }
        i = i + 1;
    }
    false
}

/// A big-number literal: digits throughout, except that the first byte may
/// be `-`. The empty string satisfies this, as does a bare `-`.
pub open spec fn is_big_number_text(s: Seq<u8>) -> bool {
    forall|i: int| 0 <= i < s.len() ==> is_digit(s[i]) || (i == 0 && s[i] == 45)
}

/// True when `s` is digits with at most a leading `-`.
pub fn check_big_number(s: &[u8]) -> (r: bool)
    ensures
        r == is_big_number_text(s@),
{
    let mut i: usize = 0;
    while i < s.len()
        invariant
            i <= s@.len(),
            forall|j: int| 0 <= j < i ==> is_digit(s@[j]) || (j == 0 && s@[j] == 45),
        decreases s@.len() - i,
    {
        let b = s[i];
        if !(48 <= b && b <= 57) && !(i == 0 && b == 45) {
            return false;
        }
        i = i + 1;
    }
    true
}

/// Whether `s`, read from `from`, equals `kw` after ASCII case folding.
pub open spec fn matches_keyword(s: Seq<u8>, from: int, kw: Seq<u8>) -> bool {
    s.len() - from == kw.len() && forall|i: int|
        0 <= i < kw.len() ==> lower(s[from + i]) == kw[i]
}

/// Case-insensitive comparison of `s[from..]` against the lower-case `kw`.
fn check_keyword(s: &[u8], from: usize, kw: &[u8]) -> (r: bool)
    requires
        from <= s@.len(),
    ensures
        r == matches_keyword(s@, from as int, kw@),
{
    if s.len() - from != kw.len() {
        return false;
    }
    let n = s.len();
    let mut i: usize = 0;
    while i < kw.len()
        invariant
            i <= kw@.len(),
            n == s@.len(),
            from + kw@.len() <= s@.len(),
            forall|j: int| 0 <= j < i ==> lower(s@[from + j]) == kw@[j],
        decreases kw@.len() - i,
    {
        let b = s[from + i];
        let l = if 65 <= b && b <= 90 {
            b + 32
        } else {
            b
        };
        if l != kw[i] {
            return false;
        }
        i = i + 1;
    }
    true
}

/// Index of the first `e` or `E` in `s` at or after `i`; `s.len()` if none.
pub open spec fn first_exp_marker(s: Seq<u8>, i: int) -> int
    decreases s.len() - i,
{
    if i < 0 || i >= s.len() {
        s.len() as int
    } else if lower(s[i]) == 101 {
        i
    } else {
        first_exp_marker(s, i + 1)
    }
}

/// A mantissa: digits and at most one `.`, with at least one digit.
pub open spec fn is_mantissa(s: Seq<u8>) -> bool {
    &&& forall|i: int| 0 <= i < s.len() ==> is_digit(s[i]) || s[i] == 46
    &&& (exists|i: int| 0 <= i < s.len() && is_digit(s[i]))
    &&& forall|i: int, j: int| 0 <= i < j < s.len() && s[i] == 46 ==> s[j] != 46
}

/// An exponent tail: an optional sign, then one or more digits.
pub open spec fn is_exp_tail(s: Seq<u8>) -> bool {
    let d = if s.len() > 0 && is_sign(s[0]) {
        1int
    } else {
        0int
    };
    s.len() > d && forall|i: int| d <= i < s.len() ==> is_digit(s[i])
}

/// A number body: a mantissa, optionally followed by `e`/`E` and an
/// exponent tail.
pub open spec fn is_number_body(s: Seq<u8>, from: int) -> bool {
    let k = first_exp_marker(s, from);
    if k == s.len() {
        is_mantissa(s.subrange(from, s.len() as int))
    } else {
        is_mantissa(s.subrange(from, k)) && is_exp_tail(s.subrange(k + 1, s.len() as int))
    }
}

/// The texts accepted as a double: after an optional sign, one of the
/// case-insensitive keywords `inf`, `infinity`, `nan`, or a decimal number
/// with optional fraction and exponent.
pub open spec fn is_double_text(s: Seq<u8>) -> bool {
    let d = if s.len() > 0 && is_sign(s[0]) {
        1int
    } else {
        0int
    };
    ||| matches_keyword(s, d, seq![105u8, 110u8, 102u8])
    ||| matches_keyword(s, d, seq![105u8, 110u8, 102u8, 105u8, 110u8, 105u8, 116u8, 121u8])
    ||| matches_keyword(s, d, seq![110u8, 97u8, 110u8])
    ||| is_number_body(s, d)
}

/// Checks the mantissa rules over `s[from..to]`.
fn check_mantissa(s: &[u8], from: usize, to: usize) -> (r: bool)
    requires
        from <= to <= s@.len(),
    ensures
        r == is_mantissa(s@.subrange(from as int, to as int)),
{
    let ghost m = s@.subrange(from as int, to as int);
    let mut i: usize = from;
    let mut seen_digit: bool = false;
    let mut seen_dot: bool = false;
    while i < to
        invariant
            from <= i <= to <= s@.len(),
            m == s@.subrange(from as int, to as int),
            forall|j: int| 0 <= j < i - from ==> is_digit(m[j]) || m[j] == 46,
            seen_digit == exists|j: int| 0 <= j < i - from && is_digit(m[j]),
            seen_dot == exists|j: int| 0 <= j < i - from && m[j] == 46,
            forall|i0: int, j0: int|
                0 <= i0 < j0 < i - from && m[i0] == 46 ==> m[j0] != 46,
        decreases to - i,
    {
        let b = s[i];
        assert(m[i - from] == b);
        if 48 <= b && b <= 57 {
            seen_digit = true;
        } else if b == 46 {
            if seen_dot {
                return false;
            }
            seen_dot = true;
        } else {
            return false;
        }
        i = i + 1;
    }
    if !seen_digit {
        return false;
    }
    true
}

/// Checks the exponent tail rules over `s[from..]`.
fn check_exp_tail(s: &[u8], from: usize) -> (r: bool)
    requires
        from <= s@.len(),
    ensures
        r == is_exp_tail(s@.subrange(from as int, s@.len() as int)),
{
    let ghost t = s@.subrange(from as int, s@.len() as int);
    let n = s.len();
    let mut i: usize = from;
    if i < n && (s[i] == 43 || s[i] == 45) {
        i = i + 1;
    }
    let ghost d = i - from;
    if i >= n {
        return false;
    }
    while i < n
        invariant
            from <= i <= n == s@.len(),
            t == s@.subrange(from as int, s@.len() as int),
            d == if t.len() > 0 && is_sign(t[0]) {
                1int
            } else {
                0int
            },
            d <= i - from,
            i - from > d || i - from == d,
            forall|j: int| d <= j < i - from ==> is_digit(t[j]),
            t.len() > d,
        decreases n - i,
    {
        let b = s[i];
        assert(t[i - from] == b);
        if !(48 <= b && b <= 57) {
            return false;
        }
        i = i + 1;
    }
    true
}

/// True when `s` parses as a double literal.
pub fn check_double(s: &[u8]) -> (r: bool)
    ensures
        r == is_double_text(s@),
{
    let n = s.len();
    let d: usize = if n > 0 && (s[0] == 43 || s[0] == 45) {
        1
    } else {
        0
    };
    let kw_inf: [u8; 3] = [105u8, 110u8, 102u8];
    let kw_infinity: [u8; 8] = [105u8, 110u8, 102u8, 105u8, 110u8, 105u8, 116u8, 121u8];
    let kw_nan: [u8; 3] = [110u8, 97u8, 110u8];
    proof {
        assert(kw_inf@ =~= seq![105u8, 110u8, 102u8]);
        assert(kw_infinity@ =~= seq![105u8, 110u8, 102u8, 105u8, 110u8, 105u8, 116u8, 121u8]);
        assert(kw_nan@ =~= seq![110u8, 97u8, 110u8]);
    }
    if check_keyword(s, d, kw_inf.as_slice()) {
        return true;
    }
    if check_keyword(s, d, kw_infinity.as_slice()) {
        return true;
    }
    if check_keyword(s, d, kw_nan.as_slice()) {
        return true;
    }
    // find the exponent marker, if any
    let mut k: usize = d;
    while k < n && !(s[k] == 101 || s[k] == 69)
        invariant
            d <= k <= n == s@.len(),
            forall|j: int| d <= j < k ==> lower(s@[j]) != 101,
        decreases n - k,
    {
        k = k + 1;
    }
    proof {
        lemma_first_exp_marker(s@, d as int, k as int);
    }
    if k == n {
        check_mantissa(s, d, n)
    } else {
        check_mantissa(s, d, k) && check_exp_tail(s, k + 1)
    }
}

/// A scan that stops at index `k` on an exponent marker, having passed
/// none, pins down `first_exp_marker`.
proof fn lemma_first_exp_marker(s: Seq<u8>, d: int, k: int)
    requires
        0 <= d <= k <= s.len(),
        forall|j: int| d <= j < k ==> lower(s[j]) != 101,
        k < s.len() ==> lower(s[k]) == 101,
    ensures
        first_exp_marker(s, d) == if k < s.len() {
            k
        } else {
            s.len() as int
        },
    decreases k - d,
{
    if d < k {
        lemma_first_exp_marker(s, d + 1, k);
    }
}

/// True when `s` is a valid UTF-8 byte sequence, in the sense of vstd's
/// UTF-8 model.
pub fn validate_utf8(s: &[u8]) -> (r: bool)
    ensures
        r == valid_utf8(s@),
{
    let n = s.len();
    let mut i: usize = 0;
    while i < n
        invariant
            i <= n == s@.len(),
            partial_valid_utf8(s@, i as int),
        decreases n - i,
    {
        let ghost rest = s@.subrange(i as int, n as int);
        let b0 = s[i];
        assert(rest[0] == b0);
        let w: usize;
        if b0 <= 0x7f {
            assert(valid_first_scalar(rest));
            w = 1;
        } else if 0xc0 <= b0 && b0 <= 0xdf {
            if n - i < 2 || !(0x80 <= s[i + 1] && s[i + 1] <= 0xbf) {
                proof {
                    bad_scalar_at(s@, i as int);
                }
                return false;
            }
            let b1 = s[i + 1];
            assert(rest[1] == b1);
            let cp: u32 = (((b0 & 0x1f) as u32) << 6) | ((b1 & 0x3f) as u32);
            if !(0x80 <= cp) {
                proof {
                    bad_scalar_at(s@, i as int);
                }
                return false;
            }
            assert((((b0 & 0x1f) as u32) << 6) | ((b1 & 0x3f) as u32) < 0xd800) by (bit_vector);
            assert(valid_first_scalar(rest));
            w = 2;
        } else if 0xe0 <= b0 && b0 <= 0xef {
            if n - i < 3 || !(0x80 <= s[i + 1] && s[i + 1] <= 0xbf) || !(0x80 <= s[i + 2]
                && s[i + 2] <= 0xbf) {
                proof {
                    bad_scalar_at(s@, i as int);
                }
                return false;
            }
            assert(rest[1] == s@[i + 1] && rest[2] == s@[i + 2]);
            let cp: u32 = (((b0 & 0x0f) as u32) << 12) | (((s[i + 1] & 0x3f) as u32) << 6)
                | ((s[i + 2] & 0x3f) as u32);
            if !(0x800 <= cp) || (0xd800 <= cp && cp <= 0xdfff) {
                proof {
                    bad_scalar_at(s@, i as int);
                }
                return false;
            }
            assert(valid_first_scalar(rest));
            w = 3;
        } else if 0xf0 <= b0 && b0 <= 0xf7 {
            if n - i < 4 || !(0x80 <= s[i + 1] && s[i + 1] <= 0xbf) || !(0x80 <= s[i + 2]
                && s[i + 2] <= 0xbf) || !(0x80 <= s[i + 3] && s[i + 3] <= 0xbf) {
                proof {
                    bad_scalar_at(s@, i as int);
                }
                return false;
            }
            assert(rest[1] == s@[i + 1] && rest[2] == s@[i + 2] && rest[3] == s@[i + 3]);
            let cp: u32 = (((b0 & 0x07) as u32) << 18) | (((s[i + 1] & 0x3f) as u32) << 12)
                | (((s[i + 2] & 0x3f) as u32) << 6) | ((s[i + 3] & 0x3f) as u32);
            if !(0x10000 <= cp && cp <= 0x10ffff) {
                proof {
                    bad_scalar_at(s@, i as int);
                }
                return false;
            }
            assert(valid_first_scalar(rest));
            w = 4;
        } else {
            proof {
                bad_scalar_at(s@, i as int);
            }
            return false;
        }
        proof {
            partial_valid_utf8_extend(s@, i as int);
        }
        i = i + w;
    }
    proof {
        assert(s@.subrange(0, n as int) =~= s@);
    }
    true
}

/// A prefix that is valid UTF-8 followed by an ill-formed scalar makes the
/// whole sequence invalid.
proof fn bad_scalar_at(s: Seq<u8>, i: int)
    requires
        0 <= i < s.len(),
        partial_valid_utf8(s, i),
        !valid_first_scalar(s.subrange(i, s.len() as int)),
    ensures
        !valid_utf8(s),
{
    let rest = s.subrange(i, s.len() as int);
    assert(rest.len() != 0);
    assert(!valid_utf8(rest));
    partial_valid_partial_invalid_utf8(s, i);
}

} // verus!
