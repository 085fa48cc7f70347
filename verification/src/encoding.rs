//! Text encodings of numbers and bytes, as ASCII byte strings.
//!
//! Commitments and the running transcript hash numbers in their decimal
//! notation and digests in lower-case hexadecimal.

use vstd::prelude::*;

verus! {

/// The decimal digits of `n`, most significant first, without leading zeros.
pub open spec fn digits(n: nat) -> Seq<u8>
    decreases n,
{
    if n < 10 {
        seq![(48 + n) as u8]
    } else {
        digits(n / 10).push((48 + n % 10) as u8)
    }
}

/// The decimal notation of `v`: a minus sign for a negative number, then the
/// digits of its magnitude.
pub open spec fn decimal(v: int) -> Seq<u8> {
    if v < 0 {
        seq![45u8] + digits((-v) as nat)
    } else {
        digits(v as nat)
    }
}

/// The lower-case hexadecimal digit for `d`, where `d < 16`.
pub open spec fn hex_digit(d: int) -> u8 {
    if d < 10 {
        (48 + d) as u8
    } else {
        (87 + d) as u8
    }
}

/// Two lower-case hexadecimal digits for each byte, high half first.
pub open spec fn hex(bytes: Seq<u8>) -> Seq<u8> {
    Seq::new(
        2 * bytes.len(),
        |i: int|
            if i % 2 == 0 {
                hex_digit(bytes[i / 2] as int / 16)
            } else {
                hex_digit(bytes[i / 2] as int % 16)
            },
    )
}

/// There is at least one digit, two or more from ten on, and each is one of
/// `0` to `9`.
pub proof fn lemma_digits_shape(n: nat)
    ensures
        digits(n).len() >= 1,
        n >= 10 ==> digits(n).len() >= 2,
        forall|i: int| 0 <= i < digits(n).len() ==> 48 <= #[trigger] digits(n)[i] <= 57,
    decreases n,
{
    if n >= 10 {
        lemma_digits_shape(n / 10);
    }
}

/// Different numbers have different digits.
pub proof fn lemma_digits_injective(m: nat, n: nat)
    requires
        digits(m) == digits(n),
    ensures
        m == n,
    decreases m,
{
    lemma_digits_shape(m);
    lemma_digits_shape(n);
    if m >= 10 && n >= 10 {
        // Both end in their last digit, after the digits of their tenth.
        let front_m = digits(m / 10);
        let front_n = digits(n / 10);
        let last_m = (48 + m % 10) as u8;
        let last_n = (48 + n % 10) as u8;
        assert(front_m.push(last_m).drop_last() =~= front_m);
        assert(front_n.push(last_n).drop_last() =~= front_n);
        assert(front_m.push(last_m).last() == last_m);
        assert(front_n.push(last_n).last() == last_n);
        assert(m % 10 == n % 10);
        lemma_digits_injective(m / 10, n / 10);
    } else if m < 10 && n < 10 {
        assert(digits(m)[0] == (48 + m) as u8);
        assert(digits(n)[0] == (48 + n) as u8);
    } else if m < 10 {
        assert(digits(m).len() == 1);
    } else {
        assert(digits(n).len() == 1);
    }
}

/// Different numbers have different decimal notations.
pub proof fn lemma_decimal_injective(a: int, b: int)
    requires
        decimal(a) == decimal(b),
    ensures
        a == b,
{
    let size_a = (if a < 0 { -a } else { a }) as nat;
    let size_b = (if b < 0 { -b } else { b }) as nat;
    lemma_digits_shape(size_a);
    lemma_digits_shape(size_b);
    assert(decimal(a)[0] == decimal(b)[0]);
    if a < 0 && b < 0 {
        assert((seq![45u8] + digits(size_a)).drop_first() =~= digits(size_a));
        assert((seq![45u8] + digits(size_b)).drop_first() =~= digits(size_b));
        lemma_digits_injective(size_a, size_b);
    } else if a >= 0 && b >= 0 {
        lemma_digits_injective(size_a, size_b);
    } else if a < 0 {
        assert(decimal(a)[0] == 45);
        assert(decimal(b)[0] == digits(size_b)[0]);
    } else {
        assert(decimal(b)[0] == 45);
        assert(decimal(a)[0] == digits(size_a)[0]);
    }
}

/// Appends the decimal digits of `n` to `out`.
pub fn push_digits(n: u64, out: &mut Vec<u8>)
    ensures
        final(out)@ == old(out)@ + digits(n as nat),
    decreases n,
{
    if n >= 10 {
        push_digits(n / 10, out);
    }
    let d: u64 = n % 10;
    out.push((48 + d) as u8);
}

/// Appends the decimal notation of `v` to `out`.
pub fn push_decimal(v: i32, out: &mut Vec<u8>)
    ensures
        final(out)@ == old(out)@ + decimal(v as int),
{
    if v < 0 {
        out.push(45u8);
        let magnitude: i64 = -(v as i64);
        push_digits(magnitude as u64, out);
    } else {
        push_digits(v as u64, out);
    }
}

/// Appends the hexadecimal notation of `bytes` to `out`.
pub fn push_hex(bytes: &Vec<u8>, out: &mut Vec<u8>)
    ensures
        final(out)@ == old(out)@ + hex(bytes@),
{
    let ghost start = out@;
    let mut i: usize = 0;
    while i < bytes.len()
        invariant
            i <= bytes.len(),
            out@.len() == start.len() + 2 * i,
            forall|k: int| 0 <= k < start.len() ==> out@[k] == start[k],
            forall|k: int| 0 <= k < 2 * i ==> out@[start.len() + k] == hex(bytes@)[k],
        decreases bytes.len() - i,
    {
        let b: u8 = bytes[i];
        let high: u8 = b / 16;
        let low: u8 = b % 16;
        out.push(hex_char(high));
        out.push(hex_char(low));
        i = i + 1;
    }
}

/// The lower-case hexadecimal digit for `d`.
fn hex_char(d: u8) -> (c: u8)
    requires
        d < 16,
    ensures
        c == hex_digit(d as int),
{
    if d < 10 {
        48 + d
    } else {
        87 + d
    }
}

} // verus!
