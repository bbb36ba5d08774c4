//! ASCII decimal numerals: formatting a number as digit bytes and the value
//! of a digit string. The payload framing writes every length prefix this
//! way, and the decoder reads it back.
use vstd::prelude::*;

verus! {

/// True for the ASCII bytes `'0'..='9'`.
pub open spec fn is_ascii_digit(b: u8) -> bool {
    0x30 <= b <= 0x39
}

/// The ASCII decimal numeral of `n`, most significant digit first, with no
/// leading zeros (`0` itself is the single byte `'0'`).
pub open spec fn dec_digits(n: nat) -> Seq<u8>
    decreases n,
{
    if n < 10 {
        seq![(n + 0x30) as u8]
    } else {
        dec_digits(n / 10) + seq![(n % 10 + 0x30) as u8]
    }
}

/// The value of a string of ASCII digit bytes, read most significant first.
pub open spec fn dec_value(s: Seq<u8>) -> nat
    decreases s.len(),
{
    if s.len() == 0 {
        0
    } else {
        dec_value(s.drop_last()) * 10 + ((s.last() - 0x30) as nat)
    }
}

/// Every byte of a formatted numeral is an ASCII digit, and there is at
/// least one of them.
pub proof fn lemma_dec_digits_are_digits(n: nat)
    ensures
        dec_digits(n).len() >= 1,
        forall|i: int| 0 <= i < dec_digits(n).len() ==> is_ascii_digit(#[trigger] dec_digits(n)[i]),
    decreases n,
{
    if n >= 10 {
        lemma_dec_digits_are_digits(n / 10);
        assert forall|i: int| 0 <= i < dec_digits(n).len() implies is_ascii_digit(
            #[trigger] dec_digits(n)[i],
        ) by {
            if i < dec_digits(n / 10).len() {
                assert(dec_digits(n)[i] == dec_digits(n / 10)[i]);
            }
        }
    }
}

/// Reading a formatted numeral back gives the number that was formatted.
pub proof fn lemma_dec_value_of_digits(n: nat)
    ensures
        dec_value(dec_digits(n)) == n,
    decreases n,
{
    if n < 10 {
        let d = dec_digits(n);
        assert(d =~= seq![(n + 0x30) as u8]);
        assert(d.drop_last() =~= Seq::<u8>::empty());
        assert(dec_value(d) == dec_value(d.drop_last()) * 10 + ((d.last() - 0x30) as nat));
        assert(dec_value(Seq::<u8>::empty()) == 0);
        assert(dec_value(d) == n);
    } else {
        lemma_dec_value_of_digits(n / 10);
        let d = dec_digits(n);
        assert(d == dec_digits(n / 10) + seq![(n % 10 + 0x30) as u8]);
        assert(d.len() == dec_digits(n / 10).len() + 1);
        assert(d.drop_last() =~= dec_digits(n / 10));
        assert(d.last() == (n % 10 + 0x30) as u8);
        assert(dec_value(d) == dec_value(d.drop_last()) * 10 + ((d.last() - 0x30) as nat));
        assert(n == (n / 10) * 10 + n % 10);
        assert(dec_value(d) == n);
    }
}

/// True for a raw digit byte, value `0..=9`, as the XHR2 framing writes
/// length digits.
pub open spec fn is_raw_digit(b: u8) -> bool {
    b <= 9
}

/// The decimal digits of `n`, each as a raw byte value `0..=9`, most
/// significant first.
pub open spec fn raw_digits(n: nat) -> Seq<u8>
    decreases n,
{
    if n < 10 {
        seq![n as u8]
    } else {
        raw_digits(n / 10) + seq![(n % 10) as u8]
    }
}

/// The value of a string of raw digit bytes, most significant first.
pub open spec fn raw_value(s: Seq<u8>) -> nat
    decreases s.len(),
{
    if s.len() == 0 {
        0
    } else {
        raw_value(s.drop_last()) * 10 + (s.last() as nat)
    }
}

/// Every byte of a raw numeral is a raw digit, and there is at least one.
pub proof fn lemma_raw_digits_are_digits(n: nat)
    ensures
        raw_digits(n).len() >= 1,
        forall|i: int| 0 <= i < raw_digits(n).len() ==> is_raw_digit(#[trigger] raw_digits(n)[i]),
    decreases n,
{
    if n >= 10 {
        lemma_raw_digits_are_digits(n / 10);
        assert forall|i: int| 0 <= i < raw_digits(n).len() implies is_raw_digit(
            #[trigger] raw_digits(n)[i],
        ) by {
            if i < raw_digits(n / 10).len() {
                assert(raw_digits(n)[i] == raw_digits(n / 10)[i]);
            }
        }
    }
}

/// Reading a raw numeral back gives the number that was written.
pub proof fn lemma_raw_value_of_digits(n: nat)
    ensures
        raw_value(raw_digits(n)) == n,
    decreases n,
{
    if n < 10 {
        let d = raw_digits(n);
        assert(d =~= seq![n as u8]);
        assert(d.drop_last() =~= Seq::<u8>::empty());
        assert(raw_value(d) == raw_value(d.drop_last()) * 10 + (d.last() as nat));
        assert(raw_value(d) == n);
    } else {
        lemma_raw_value_of_digits(n / 10);
        let d = raw_digits(n);
        assert(d == raw_digits(n / 10) + seq![(n % 10) as u8]);
        assert(d.len() == raw_digits(n / 10).len() + 1);
        assert(d.drop_last() =~= raw_digits(n / 10));
        assert(d.last() == (n % 10) as u8);
        assert(raw_value(d) == raw_value(d.drop_last()) * 10 + (d.last() as nat));
        assert(n == (n / 10) * 10 + n % 10);
        assert(raw_value(d) == n);
    }
}

/// The length of the longest prefix of ASCII digit bytes.
pub open spec fn digit_prefix_len(s: Seq<u8>) -> int
    decreases s.len(),
{
    if s.len() == 0 || !is_ascii_digit(s[0]) {
        0
    } else {
        1 + digit_prefix_len(s.skip(1))
    }
}

/// A scan that saw `k` digits and then the end or a non-digit saw the whole
/// digit prefix.
pub proof fn lemma_digit_prefix_len(s: Seq<u8>, k: int)
    requires
        0 <= k <= s.len(),
        forall|m: int| 0 <= m < k ==> is_ascii_digit(#[trigger] s[m]),
        k < s.len() ==> !is_ascii_digit(s[k]),
    ensures
        digit_prefix_len(s) == k,
    decreases k,
{
    if k == 0 {
    } else {
        assert(is_ascii_digit(s[0]));
        lemma_digit_prefix_len(s.skip(1), k - 1);
    }
}

/// The length of the longest prefix of raw digit bytes.
pub open spec fn raw_digit_prefix_len(s: Seq<u8>) -> int
    decreases s.len(),
{
    if s.len() == 0 || !is_raw_digit(s[0]) {
        0
    } else {
        1 + raw_digit_prefix_len(s.skip(1))
    }
}

/// Ten to the `k`.
pub open spec fn pow10(k: nat) -> nat
    decreases k,
{
    if k == 0 {
        1
    } else {
        10 * pow10((k - 1) as nat)
    }
}

/// A number below `10^k` has at most `k` digits.
pub proof fn lemma_dec_digits_len(n: nat, k: nat)
    requires
        1 <= k,
        n < pow10(k),
    ensures
        dec_digits(n).len() <= k,
    decreases k,
{
    if n < 10 {
    } else {
        assert(pow10(k) == 10 * pow10((k - 1) as nat));
        assert(n / 10 < pow10((k - 1) as nat)) by (nonlinear_arith)
            requires
                n < 10 * pow10((k - 1) as nat),
                n >= 10,
        ;
        assert(k >= 2) by {
            if k == 1 {
                assert(pow10(1) == 10);
            }
        }
        lemma_dec_digits_len(n / 10, (k - 1) as nat);
    }
}

/// A 64-bit value has at most twenty digits.
pub proof fn lemma_dec_digits_len_u64(n: u64)
    ensures
        dec_digits(n as nat).len() <= 20,
{
    assert(pow10(20) == 100000000000000000000) by {
        reveal_with_fuel(pow10, 21);
    }
    lemma_dec_digits_len(n as nat, 20);
}

/// The digit prefix is never longer than the string.
pub proof fn lemma_digit_prefix_len_bounds(s: Seq<u8>)
    ensures
        0 <= digit_prefix_len(s) <= s.len(),
    decreases s.len(),
{
    if s.len() > 0 && is_ascii_digit(s[0]) {
        lemma_digit_prefix_len_bounds(s.skip(1));
    }
}

/// The raw digit prefix is never longer than the string.
pub proof fn lemma_raw_digit_prefix_len_bounds(s: Seq<u8>)
    ensures
        0 <= raw_digit_prefix_len(s) <= s.len(),
    decreases s.len(),
{
    if s.len() > 0 && is_raw_digit(s[0]) {
        lemma_raw_digit_prefix_len_bounds(s.skip(1));
    }
}

/// The raw counterpart of `lemma_digit_prefix_len`.
pub proof fn lemma_raw_digit_prefix_len(s: Seq<u8>, k: int)
    requires
        0 <= k <= s.len(),
        forall|m: int| 0 <= m < k ==> is_raw_digit(#[trigger] s[m]),
        k < s.len() ==> !is_raw_digit(s[k]),
    ensures
        raw_digit_prefix_len(s) == k,
    decreases k,
{
    if k == 0 {
    } else {
        assert(is_raw_digit(s[0]));
        lemma_raw_digit_prefix_len(s.skip(1), k - 1);
    }
}

/// Formats `n` as its ASCII decimal numeral.
pub fn usize_to_decimal(n: usize) -> (r: Vec<u8>)
    ensures
        r@ == dec_digits(n as nat),
    decreases n,
{
    if n < 10 {
        let mut r: Vec<u8> = Vec::new();
        r.push((n as u8) + 0x30);
        assert(r@ =~= dec_digits(n as nat));
        r
    } else {
        let mut r = usize_to_decimal(n / 10);
        r.push(((n % 10) as u8) + 0x30);
        assert(r@ =~= dec_digits(n as nat));
        r
    }
}

/// Formats `n` with each digit as a raw byte value `0..=9`.
pub fn usize_to_raw_decimal(n: usize) -> (r: Vec<u8>)
    ensures
        r@ == raw_digits(n as nat),
    decreases n,
{
    if n < 10 {
        let mut r: Vec<u8> = Vec::new();
        r.push(n as u8);
        assert(r@ =~= raw_digits(n as nat));
        r
    } else {
        let mut r = usize_to_raw_decimal(n / 10);
        r.push((n % 10) as u8);
        assert(r@ =~= raw_digits(n as nat));
        r
    }
}

/// Formats `n` as its ASCII decimal numeral.
pub fn u64_to_decimal(n: u64) -> (r: Vec<u8>)
    ensures
        r@ == dec_digits(n as nat),
    decreases n,
{
    if n < 10 {
        let mut r: Vec<u8> = Vec::new();
        r.push((n as u8) + 0x30);
        assert(r@ =~= dec_digits(n as nat));
        r
    } else {
        let mut r = u64_to_decimal(n / 10);
        r.push(((n % 10) as u8) + 0x30);
        assert(r@ =~= dec_digits(n as nat));
        r
    }
}

} // verus!
