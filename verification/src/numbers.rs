//! Decimal digit strings and their signed 64-bit values: the value of a
//! digit string, an overflow-exact scanning parser for short strings, and
//! a trusted call into `atoi` for arbitrarily long ones.

use vstd::prelude::*;
use crate::text::is_digit;
use crate::resp::dec_digits;

verus! {

/// All bytes of `s` from `from` on are ASCII digits.
pub open spec fn all_digits_from(s: Seq<u8>, from: int) -> bool {
    forall|i: int| from <= i < s.len() ==> is_digit(s[i])
}

/// The numeric value of a digit string, most significant digit first.
pub open spec fn digits_val(s: Seq<u8>) -> int
    decreases s.len(),
{
    if s.len() == 0 {
        0
    } else {
        digits_val(s.drop_last()) * 10 + (s.last() - 48)
    }
}

/// An optional leading `-`, then one or more digits.
pub open spec fn is_signed_digits(s: Seq<u8>) -> bool {
    if s.len() >= 1 && s[0] == 45 {
        s.len() >= 2 && all_digits_from(s, 1)
    } else {
        s.len() >= 1 && all_digits_from(s, 0)
    }
}

/// The signed value of a digit string with an optional leading `-`.
pub open spec fn signed_val(s: Seq<u8>) -> int
    recommends
        is_signed_digits(s),
{
    if s.len() >= 1 && s[0] == 45 {
        -digits_val(s.subrange(1, s.len() as int))
    } else {
        digits_val(s)
    }
}

/// Outcome of scanning a digit string into an `i64`.
pub enum DigitScan {
    /// Every byte was a digit and the value fit.
    Num(i64),
    /// A byte was not an ASCII digit.
    BadChar,
    /// The accumulated value left the `i64` range.
    TooBig,
}

/// Left-to-right accumulation of `s[i..]` onto `acc`, stopping at the
/// first non-digit or at the first digit that would overflow.
pub open spec fn scan_i64(s: Seq<u8>, i: int, acc: i64) -> DigitScan
    decreases s.len() - i,
{
    if i < 0 || i >= s.len() {
        DigitScan::Num(acc)
    } else if !is_digit(s[i]) {
        DigitScan::BadChar
    } else if acc > (i64::MAX - (s[i] - 48)) / 10 {
        DigitScan::TooBig
    } else {
        scan_i64(s, i + 1, (acc * 10 + (s[i] - 48)) as i64)
    }
}

/// Runs the digit scan over `s[start..]` starting from zero.
pub fn scan_digits_i64(s: &[u8], start: usize) -> (r: DigitScan)
    requires
        start <= s@.len(),
    ensures
        r == scan_i64(s@, start as int, 0i64),
{
    let n = s.len();
    let mut i: usize = start;
    let mut value: i64 = 0;
    while i < n
        invariant
            start <= i <= n == s@.len(),
            0 <= value,
            scan_i64(s@, start as int, 0i64) == scan_i64(s@, i as int, value),
        decreases n - i,
    {
        let b = s[i];
        if !(48 <= b && b <= 57) {
            return DigitScan::BadChar;
        }
        let d: i64 = (b - 48) as i64;
        if value > (i64::MAX - d) / 10 {
            return DigitScan::TooBig;
        }
        assert(value * 10 + d <= i64::MAX) by (nonlinear_arith)
            requires
                0 <= value,
                0 <= d <= 9,
                value <= (i64::MAX - d) / 10,
        ;
        value = value * 10 + d;
        i = i + 1;
    }
    DigitScan::Num(value)
}

/// A scan started from a nonnegative accumulator yields a nonnegative
/// value.
pub proof fn lemma_scan_nonneg(s: Seq<u8>, i: int, acc: i64)
    requires
        0 <= acc,
        scan_i64(s, i, acc) is Num,
    ensures
        0 <= scan_i64(s, i, acc)->Num_0,
    decreases s.len() - i,
{
    if i < 0 || i >= s.len() {
    } else if !is_digit(s[i]) {
    } else if acc > (i64::MAX - (s[i] - 48)) / 10 {
    } else {
        lemma_scan_nonneg(s, i + 1, (acc * 10 + (s[i] - 48)) as i64);
    }
}

/// Whether the signed value of a digit string fits in an `i64`; the
/// parsed value if it does.
pub open spec fn spec_parse_signed(s: Seq<u8>) -> Option<i64>
    recommends
        is_signed_digits(s),
{
    let v = signed_val(s);
    if i64::MIN <= v <= i64::MAX {
        Some(v as i64)
    } else {
        None
    }
}

/// Relies on `atoi::atoi` for `i64`: for a whole slice of digits with an
/// optional leading `-`, it returns the decimal value when it fits in an
/// `i64` and `None` on overflow, building the value with checked
/// arithmetic.
#[verifier::external_body]
pub(crate) fn parse_long_i64(s: &[u8]) -> (r: Option<i64>)
    requires
        is_signed_digits(s@),
    ensures
        r == spec_parse_signed(s@),
{
    atoi::atoi::<i64>(s)
}

/// True when `s[from..]` is one or more digits.
pub fn check_all_digits(s: &[u8], from: usize) -> (r: bool)
    requires
        from <= s@.len(),
    ensures
        r == all_digits_from(s@, from as int),
{
    let n = s.len();
    let mut i: usize = from;
    while i < n
        invariant
            from <= i <= n == s@.len(),
            forall|j: int| from <= j < i ==> is_digit(s@[j]),
        decreases n - i,
    {
        let b = s[i];
        if !(48 <= b && b <= 57) {
            return false;
        }
        i = i + 1;
    }
    true
}


/// Left-to-right decimal accumulation of `s[i..j)` onto `acc`.
pub open spec fn acc_digits(s: Seq<u8>, i: int, j: int, acc: int) -> int
    decreases j - i,
{
    if i < 0 || i >= j || j > s.len() {
        acc
    } else {
        acc_digits(s, i + 1, j, acc * 10 + (s[i] - 48))
    }
}

/// Accumulation never drops below a nonnegative accumulator.
pub proof fn lemma_acc_digits_lower(s: Seq<u8>, i: int, j: int, acc: int)
    requires
        0 <= acc,
        forall|k: int| i <= k < j ==> is_digit(s[k]),
    ensures
        acc <= acc_digits(s, i, j, acc),
    decreases j - i,
{
    if i < 0 || i >= j || j > s.len() {
    } else {
        assert(is_digit(s[i]));
        lemma_acc_digits_lower(s, i + 1, j, acc * 10 + (s[i] - 48));
    }
}

/// Accumulating one more digit at the right end multiplies by ten and
/// adds that digit.
pub proof fn lemma_acc_digits_append(s: Seq<u8>, i: int, j: int, acc: int)
    requires
        0 <= i <= j < s.len(),
    ensures
        acc_digits(s, i, j + 1, acc) == acc_digits(s, i, j, acc) * 10 + (s[j] - 48),
    decreases j - i,
{
    if i < j {
        lemma_acc_digits_append(s, i + 1, j, acc * 10 + (s[i] - 48));
    } else {
        assert(acc_digits(s, j, j + 1, acc) == acc_digits(s, j + 1, j + 1, acc * 10 + (s[j]
            - 48)));
        assert(acc_digits(s, j + 1, j + 1, acc * 10 + (s[j] - 48)) == acc * 10 + (s[j] - 48));
        assert(acc_digits(s, j, j, acc) == acc);
    }
}

/// When the whole accumulated value fits, the scan accepts the digits and
/// returns it.
pub proof fn lemma_scan_digits_value(s: Seq<u8>, i: int, acc: i64)
    requires
        0 <= i <= s.len(),
        0 <= acc,
        forall|k: int| i <= k < s.len() ==> is_digit(s[k]),
        acc_digits(s, i, s.len() as int, acc as int) <= i64::MAX,
    ensures
        scan_i64(s, i, acc) == DigitScan::Num(
            acc_digits(s, i, s.len() as int, acc as int) as i64,
        ),
    decreases s.len() - i,
{
    if i >= s.len() {
    } else {
        let d = (s[i] - 48) as int;
        assert(is_digit(s[i]));
        lemma_acc_digits_lower(s, i + 1, s.len() as int, (acc as int) * 10 + d);
        assert((acc as int) * 10 + d <= acc_digits(s, i, s.len() as int, acc as int));
        assert(acc <= (i64::MAX - (s[i] - 48)) / 10) by (nonlinear_arith)
            requires
                0 <= acc,
                0 <= d <= 9,
                d == s[i] - 48,
                (acc as int) * 10 + d <= i64::MAX,
        ;
        lemma_scan_digits_value(s, i + 1, (acc * 10 + (s[i] - 48)) as i64);
    }
}

/// A digit string's accumulated value is its decimal value.
pub proof fn lemma_acc_digits_val(s: Seq<u8>, j: int)
    requires
        0 <= j <= s.len(),
    ensures
        acc_digits(s, 0, j, 0) == digits_val(s.subrange(0, j)),
    decreases j,
{
    if j == 0 {
        assert(s.subrange(0, 0) =~= Seq::<u8>::empty());
    } else {
        lemma_acc_digits_val(s, j - 1);
        lemma_acc_digits_append(s, 0, j - 1, 0);
        let p = s.subrange(0, j);
        assert(p.drop_last() =~= s.subrange(0, j - 1));
        assert(p.last() == s[j - 1]);
    }
}


/// Powers of ten.
pub open spec fn pow10(k: nat) -> int
    decreases k,
{
    if k == 0 {
        1
    } else {
        10 * pow10((k - 1) as nat)
    }
}

/// Every byte of a rendered decimal is an ASCII digit.
pub proof fn lemma_dec_digits_are_digits(n: nat)
    ensures
        forall|i: int| 0 <= i < dec_digits(n).len() ==> is_digit(#[trigger] dec_digits(n)[i]),
    decreases n,
{
    if n < 10 {
    } else {
        lemma_dec_digits_are_digits(n / 10);
        assert forall|i: int| 0 <= i < dec_digits(n).len() implies is_digit(
            #[trigger] dec_digits(n)[i],
        ) by {
            if i < dec_digits(n / 10).len() {
                assert(dec_digits(n)[i] == dec_digits(n / 10)[i]);
            } else {
                assert(dec_digits(n)[i] == (48 + n % 10) as u8);
            }
        }
    }
}

/// A number below the `k`-th power of ten renders in at most `k` digits.
pub proof fn lemma_dec_digits_len(n: nat, k: nat)
    requires
        k >= 1,
        n < pow10(k),
    ensures
        1 <= dec_digits(n).len() <= k,
    decreases n,
{
    if n < 10 {
    } else {
        assert(pow10(k) == 10 * pow10((k - 1) as nat));
        assert(n / 10 < pow10((k - 1) as nat)) by (nonlinear_arith)
            requires
                n < 10 * pow10((k - 1) as nat),
                n >= 10,
        ;
        assert(k >= 2) by {
            if k == 1 {
                assert(pow10(1int as nat) == 10);
            }
        }
        lemma_dec_digits_len(n / 10, (k - 1) as nat);
    }
}

/// Rendering then reading a decimal gives the number back.
pub proof fn lemma_dec_digits_val(n: nat)
    ensures
        digits_val(dec_digits(n)) == n,
    decreases n,
{
    if n < 10 {
        let whole = dec_digits(n);
        assert(whole == seq![(48 + n) as u8]);
        assert(whole.len() == 1);
        assert(whole.drop_last() =~= Seq::<u8>::empty());
        assert(digits_val(whole) == digits_val(whole.drop_last()) * 10 + (whole.last() - 48));
        assert(digits_val(whole.drop_last()) == 0);
        assert(whole.last() == (48 + n) as u8);
        assert((48 + n) as u8 == 48 + n);
    } else {
        lemma_dec_digits_val(n / 10);
        let whole = dec_digits(n);
        assert(whole == dec_digits(n / 10) + seq![(48 + n % 10) as u8]);
        assert(whole.len() == dec_digits(n / 10).len() + 1);
        assert(whole.drop_last() =~= dec_digits(n / 10));
        assert(whole.last() == (48 + n % 10) as u8);
        assert((48 + n % 10) as u8 == 48 + n % 10);
        assert(digits_val(whole) == digits_val(whole.drop_last()) * 10 + (whole.last() - 48));
        assert(digits_val(whole) == (n / 10) * 10 + n % 10);
    }
}

/// Accumulating a rendered decimal from zero gives the number back.
pub proof fn lemma_acc_dec_digits(s: Seq<u8>, a: int, b: int, n: nat)
    requires
        0 <= a <= b <= s.len(),
        s.subrange(a, b) == dec_digits(n),
    ensures
        acc_digits(s, a, b, 0) == n,
    decreases b - a,
{
    lemma_dec_digits_val(n);
    lemma_acc_shift(s, a, b);
    lemma_acc_digits_val(s.subrange(a, b), b - a);
    assert(dec_digits(n).subrange(0, b - a) =~= dec_digits(n));
}

/// Accumulation over a subrange equals accumulation over the shifted
/// original.
proof fn lemma_acc_shift(s: Seq<u8>, a: int, b: int)
    requires
        0 <= a <= b <= s.len(),
    ensures
        acc_digits(s, a, b, 0) == acc_digits(s.subrange(a, b), 0, b - a, 0),
{
    lemma_acc_shift_gen(s, a, b, a, 0);
}

proof fn lemma_acc_shift_gen(s: Seq<u8>, a: int, b: int, i: int, acc: int)
    requires
        0 <= a <= i <= b <= s.len(),
    ensures
        acc_digits(s, i, b, acc) == acc_digits(s.subrange(a, b), i - a, b - a, acc),
    decreases b - i,
{
    if i < b {
        assert(s.subrange(a, b)[i - a] == s[i]);
        lemma_acc_shift_gen(s, a, b, i + 1, acc * 10 + (s[i] - 48));
    }
}


/// A digit string's value is below the power of ten of its length.
pub proof fn lemma_digits_val_bound(s: Seq<u8>)
    requires
        forall|i: int| 0 <= i < s.len() ==> is_digit(#[trigger] s[i]),
    ensures
        0 <= digits_val(s) < pow10(s.len()),
    decreases s.len(),
{
    if s.len() == 0 {
    } else {
        assert(forall|i: int|
            0 <= i < s.drop_last().len() ==> is_digit(#[trigger] s.drop_last()[i]));
        lemma_digits_val_bound(s.drop_last());
        assert(is_digit(s.last()));
        assert(pow10(s.len()) == 10 * pow10((s.len() - 1) as nat));
    }
}

} // verus!



