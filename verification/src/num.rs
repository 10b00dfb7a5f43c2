//! Decimal text: the spec-level value of a digit string, verified parsers for
//! the size and integer fields of the wire format, and verified rendering of
//! integers back to decimal bytes.
use vstd::prelude::*;

verus! {

/// ASCII '0'.
pub const DIGIT_ZERO: u8 = 48;

/// ASCII '+'.
pub const SIGN_PLUS: u8 = 43;

/// ASCII '-'.
pub const SIGN_MINUS: u8 = 45;

/// Whether a byte is an ASCII decimal digit.
pub open spec fn is_digit(b: u8) -> bool {
    DIGIT_ZERO <= b <= 57
}

/// Numeric value of a digit byte.
pub open spec fn digit_val(b: u8) -> int {
    b - DIGIT_ZERO
}

/// Whether every byte of `s` is a decimal digit.
pub open spec fn all_digits(s: Seq<u8>) -> bool {
    forall|i: int| 0 <= i < s.len() ==> is_digit(#[trigger] s[i])
}

/// The number denoted by a string of decimal digits, most significant first.
pub open spec fn dec_value(s: Seq<u8>) -> int
    decreases s.len(),
{
    if s.len() == 0 {
        0
    } else {
        dec_value(s.drop_last()) * 10 + digit_val(s.last())
    }
}

/// The digit part of an integer field: an optional leading sign is skipped.
pub open spec fn num_digits(s: Seq<u8>) -> Seq<u8> {
    if s.len() > 0 && (s[0] == SIGN_PLUS || s[0] == SIGN_MINUS) {
        s.subrange(1, s.len() as int)
    } else {
        s
    }
}

/// Whether `s` is a well-formed unsigned decimal field: an optional '+' sign
/// followed by at least one digit.
pub open spec fn is_unsigned_num(s: Seq<u8>) -> bool {
    &&& !(s.len() > 0 && s[0] == SIGN_MINUS)
    &&& num_digits(s).len() > 0
    &&& all_digits(num_digits(s))
}

/// Whether `s` is a well-formed signed decimal field: an optional '+' or '-'
/// sign followed by at least one digit.
pub open spec fn is_signed_num(s: Seq<u8>) -> bool {
    num_digits(s).len() > 0 && all_digits(num_digits(s))
}

/// The number denoted by a signed decimal field.
pub open spec fn num_value(s: Seq<u8>) -> int {
    if s.len() > 0 && s[0] == SIGN_MINUS {
        -dec_value(num_digits(s))
    } else {
        dec_value(num_digits(s))
    }
}

/// A digit string denotes a non-negative number.
pub proof fn lemma_dec_value_nonneg(s: Seq<u8>)
    requires
        all_digits(s),
    ensures
        dec_value(s) >= 0,
    decreases s.len(),
{
    if s.len() > 0 {
        assert(all_digits(s.drop_last())) by {
            assert(forall|i: int|
                0 <= i < s.len() - 1 ==> #[trigger] s.drop_last()[i] == s[i]);
        }
        lemma_dec_value_nonneg(s.drop_last());
    }
}

/// Extending a digit string to the right never decreases its value.
pub proof fn lemma_dec_value_prefix_le(s: Seq<u8>, k: int)
    requires
        all_digits(s),
        0 <= k <= s.len(),
    ensures
        dec_value(s.take(k)) <= dec_value(s),
    decreases s.len() - k,
{
    if k == s.len() {
        assert(s.take(k) =~= s);
    } else {
        lemma_dec_value_prefix_le(s, k + 1);
        let t = s.take(k + 1);
        assert(t.drop_last() =~= s.take(k));
        assert(all_digits(s.take(k))) by {
            assert(forall|i: int| 0 <= i < k ==> #[trigger] s.take(k)[i] == s[i]);
        }
        lemma_dec_value_nonneg(s.take(k));
        assert(is_digit(s[k]));
        assert(t.last() == s[k]);
        assert(dec_value(t) == dec_value(s.take(k)) * 10 + digit_val(t.last()));
        assert(dec_value(s.take(k)) * 10 >= dec_value(s.take(k)));
    }
}

/// Parses the bytes of `s` from index `from` to the end as an unsigned
/// decimal field, exactly as the wire format's size fields demand: `Some`
/// exactly when the field is well formed and its value fits in `usize`.
pub fn parse_usize(s: &Vec<u8>, from: usize) -> (r: Option<usize>)
    requires
        from <= s@.len(),
    ensures
        ({
            let t = s@.subrange(from as int, s@.len() as int);
            match r {
                Some(n) => is_unsigned_num(t) && num_value(t) == n,
                None => !(is_unsigned_num(t) && num_value(t) <= usize::MAX),
            }
        }),
{
    let ghost t = s@.subrange(from as int, s@.len() as int);
    let len = s.len();
    let mut i = from;
    if i < len && s[i] == SIGN_PLUS {
        i = i + 1;
    } else if i < len && s[i] == SIGN_MINUS {
        return None;
    }
    let ghost d = t.subrange(i - from, t.len() as int);
    proof {
        assert(num_digits(t) =~= d);
    }
    if i == len {
        return None;
    }
    let mut acc: usize = 0;
    let ghost dstart = i as int;
    while i < len
        invariant
            dstart <= i <= len == s@.len(),
            from <= dstart <= s@.len(),
            t == s@.subrange(from as int, s@.len() as int),
            d == t.subrange(dstart - from, t.len() as int),
            d == num_digits(t),
            !(t.len() > 0 && t[0] == SIGN_MINUS),
            all_digits(d.take(i - dstart)),
            acc == dec_value(d.take(i - dstart)),
        decreases len - i,
    {
        let b = s[i];
        proof {
            assert(d[i - dstart] == b);
        }
        if !(DIGIT_ZERO <= b && b <= 57) {
            assert(!all_digits(d));
            return None;
        }
        let dv = (b - DIGIT_ZERO) as usize;
        if acc > (usize::MAX - dv) / 10 {
            proof {
                assert(acc * 10 + dv > usize::MAX) by (nonlinear_arith)
                    requires
                        acc > (usize::MAX - dv) / 10,
                        0 <= dv <= 9,
                        acc >= 0,
                ;
                let k = i - dstart + 1;
                assert(d.take(k).drop_last() =~= d.take(k - 1));
                assert(all_digits(d.take(k))) by {
                    assert(forall|j: int|
                        0 <= j < k ==> #[trigger] d.take(k)[j] == d[j]);
                }
                assert(dec_value(d.take(k)) == acc * 10 + dv);
                if all_digits(d) {
                    lemma_dec_value_prefix_le(d, k);
                    assert(d.take(d.len() as int) =~= d);
                    assert(dec_value(d) > usize::MAX);
                }
            }
            return None;
        }
        proof {
            assert(acc * 10 + dv <= usize::MAX) by (nonlinear_arith)
                requires
                    acc <= (usize::MAX - dv) / 10,
                    0 <= dv <= 9,
                    acc >= 0,
            ;
            let k = i - dstart + 1;
            assert(d.take(k).drop_last() =~= d.take(k - 1));
        }
        acc = acc * 10 + dv;
        i = i + 1;
    }
    proof {
        assert(d.take(i - dstart) =~= d);
    }
    Some(acc)
}

/// Parses the bytes of `s` from index `from` to the end as a signed decimal
/// field: `Some` exactly when the field is well formed and its value fits in
/// an `i64`.
pub fn parse_i64(s: &Vec<u8>, from: usize) -> (r: Option<i64>)
    requires
        from <= s@.len(),
    ensures
        ({
            let t = s@.subrange(from as int, s@.len() as int);
            match r {
                Some(n) => is_signed_num(t) && num_value(t) == n,
                None => !(is_signed_num(t) && i64::MIN <= num_value(t) <= i64::MAX),
            }
        }),
{
    let ghost t = s@.subrange(from as int, s@.len() as int);
    let len = s.len();
    let mut i = from;
    let mut neg = false;
    if i < len && s[i] == SIGN_PLUS {
        i = i + 1;
    } else if i < len && s[i] == SIGN_MINUS {
        neg = true;
        i = i + 1;
    }
    let ghost d = t.subrange(i - from, t.len() as int);
    proof {
        assert(num_digits(t) =~= d);
    }
    if i == len {
        return None;
    }
    let mut acc: u64 = 0;
    let ghost dstart = i as int;
    while i < len
        invariant
            dstart <= i <= len == s@.len(),
            from <= dstart <= s@.len(),
            t == s@.subrange(from as int, s@.len() as int),
            d == t.subrange(dstart - from, t.len() as int),
            d == num_digits(t),
            neg == (t.len() > 0 && t[0] == SIGN_MINUS),
            all_digits(d.take(i - dstart)),
            acc == dec_value(d.take(i - dstart)),
        decreases len - i,
    {
        let b = s[i];
        proof {
            assert(d[i - dstart] == b);
        }
        if !(DIGIT_ZERO <= b && b <= 57) {
            assert(!all_digits(d));
            return None;
        }
        let dv = (b - DIGIT_ZERO) as u64;
        if acc > (u64::MAX - dv) / 10 {
            proof {
                assert(acc * 10 + dv > u64::MAX) by (nonlinear_arith)
                    requires
                        acc > (u64::MAX - dv) / 10,
                        0 <= dv <= 9,
                        acc >= 0,
                ;
                let k = i - dstart + 1;
                assert(d.take(k).drop_last() =~= d.take(k - 1));
                assert(all_digits(d.take(k))) by {
                    assert(forall|j: int|
                        0 <= j < k ==> #[trigger] d.take(k)[j] == d[j]);
                }
                assert(dec_value(d.take(k)) == acc * 10 + dv);
                if all_digits(d) {
                    lemma_dec_value_prefix_le(d, k);
                    assert(dec_value(d) > u64::MAX);
                }
            }
            return None;
        }
        proof {
            assert(acc * 10 + dv <= u64::MAX) by (nonlinear_arith)
                requires
                    acc <= (u64::MAX - dv) / 10,
                    0 <= dv <= 9,
                    acc >= 0,
            ;
            let k = i - dstart + 1;
            assert(d.take(k).drop_last() =~= d.take(k - 1));
        }
        acc = acc * 10 + dv;
        i = i + 1;
    }
    proof {
        assert(d.take(i - dstart) =~= d);
    }
    if neg {
        if acc > 0x8000_0000_0000_0000u64 {
            return None;
        }
        if acc == 0x8000_0000_0000_0000u64 {
            Some(i64::MIN)
        } else {
            Some(-(acc as i64))
        }
    } else {
        if acc > i64::MAX as u64 {
            return None;
        }
        Some(acc as i64)
    }
}

/// The decimal digits of a non-negative number, most significant first.
pub open spec fn dec_digits(n: nat) -> Seq<u8>
    decreases n,
{
    if n < 10 {
        seq![(n + DIGIT_ZERO) as u8]
    } else {
        dec_digits(n / 10) + seq![((n % 10) + DIGIT_ZERO) as u8]
    }
}

/// The decimal rendering of an integer: a '-' sign for negative numbers,
/// then the digits of its magnitude.
pub open spec fn dec_int(i: int) -> Seq<u8> {
    if i < 0 {
        seq![SIGN_MINUS] + dec_digits((-i) as nat)
    } else {
        dec_digits(i as nat)
    }
}

/// Every byte of a rendered magnitude is a decimal digit.
pub proof fn lemma_dec_digits_are_digits(n: nat)
    ensures
        all_digits(dec_digits(n)),
        dec_digits(n).len() > 0,
    decreases n,
{
    if n >= 10 {
        lemma_dec_digits_are_digits(n / 10);
        assert(forall|i: int|
            0 <= i < dec_digits(n).len() - 1
                ==> #[trigger] dec_digits(n)[i] == dec_digits(n / 10)[i]);
        assert(is_digit(dec_digits(n).last()));
    }
}

/// Rendering and the digit-string value are inverses.
pub proof fn lemma_dec_digits_value(n: nat)
    ensures
        dec_value(dec_digits(n)) == n,
    decreases n,
{
    if n < 10 {
        assert(dec_digits(n).drop_last() =~= Seq::<u8>::empty());
        assert(dec_value(Seq::<u8>::empty()) == 0);
        assert(dec_digits(n).last() == (n + DIGIT_ZERO) as u8);
        assert((n + DIGIT_ZERO) as u8 == n + DIGIT_ZERO);
    } else {
        lemma_dec_digits_value(n / 10);
        assert(dec_digits(n).drop_last() =~= dec_digits(n / 10));
        assert(dec_digits(n).last() == ((n % 10) + DIGIT_ZERO) as u8);
        assert(((n % 10) + DIGIT_ZERO) as u8 == (n % 10) + DIGIT_ZERO);
        assert(dec_value(dec_digits(n)) == dec_value(dec_digits(n / 10)) * 10 + (n % 10));
        vstd::arithmetic::div_mod::lemma_fundamental_div_mod(n as int, 10);
        assert(n == 10 * (n as int / 10) + n as int % 10);
    }
}

/// A rendered integer is a well-formed signed field denoting the number it
/// was rendered from.
pub proof fn lemma_dec_int_value(i: int)
    ensures
        is_signed_num(dec_int(i)),
        num_value(dec_int(i)) == i,
        i >= 0 ==> is_unsigned_num(dec_int(i)),
{
    if i < 0 {
        lemma_dec_digits_are_digits((-i) as nat);
        lemma_dec_digits_value((-i) as nat);
        assert(num_digits(dec_int(i)) =~= dec_digits((-i) as nat));
        assert(dec_int(i)[0] == SIGN_MINUS);
    } else {
        lemma_dec_digits_are_digits(i as nat);
        lemma_dec_digits_value(i as nat);
        assert(num_digits(dec_int(i)) =~= dec_digits(i as nat));
        assert(is_digit(dec_int(i)[0]));
    }
}

/// Renders a number as its decimal digits.
pub fn u64_to_dec(n: u64) -> (r: Vec<u8>)
    ensures
        r@ == dec_digits(n as nat),
    decreases n,
{
    if n < 10 {
        let mut v: Vec<u8> = Vec::new();
        v.push((n as u8) + DIGIT_ZERO);
        proof {
            assert(v@ =~= dec_digits(n as nat));
        }
        v
    } else {
        let mut v = u64_to_dec(n / 10);
        v.push(((n % 10) as u8) + DIGIT_ZERO);
        proof {
            assert(v@ =~= dec_digits(n as nat));
        }
        v
    }
}

/// Renders a length as its decimal digits.
pub fn usize_to_dec(n: usize) -> (r: Vec<u8>)
    ensures
        r@ == dec_digits(n as nat),
{
    u64_to_dec(n as u64)
}

/// Renders a signed number, with a '-' sign when negative.
pub fn i64_to_dec(n: i64) -> (r: Vec<u8>)
    ensures
        r@ == dec_int(n as int),
{
    if n >= 0 {
        u64_to_dec(n as u64)
    } else {
        let mut v: Vec<u8> = Vec::new();
        v.push(SIGN_MINUS);
        let m: u64 = (-(n as i128)) as u64;
        let mut d = u64_to_dec(m);
        v.append(&mut d);
        proof {
            assert(v@ =~= dec_int(n as int));
        }
        v
    }
}

} // verus!
