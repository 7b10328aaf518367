//! Decimal renderings of integers, as the PDF syntax writes them.
use vstd::prelude::*;
use vstd::string::StringSliceAdditionalSpecFns;

verus! {

/// The bytes of an ASCII string literal.
pub open spec fn lit(s: &str) -> Seq<u8> {
    s.spec_bytes()
}

/// The decimal digits of `n`, most significant first, with no leading zero.
pub open spec fn digits(n: nat) -> Seq<u8>
    decreases n,
{
    if n < 10 {
        seq![(48 + n) as u8]
    } else {
        digits(n / 10).push((48 + n % 10) as u8)
    }
}

/// `n` in decimal, left-padded with zeros to at least ten digits.
pub open spec fn zero_pad10(n: nat) -> Seq<u8> {
    if digits(n).len() < 10 {
        Seq::new((10 - digits(n).len()) as nat, |_i: int| 48u8) + digits(n)
    } else {
        digits(n)
    }
}

pub open spec fn pow10(k: nat) -> nat
    decreases k,
{
    if k == 0 {
        1
    } else {
        10 * pow10((k - 1) as nat)
    }
}

pub proof fn lemma_digits_len(n: nat, k: nat)
    requires
        k >= 1,
        n < pow10(k),
    ensures
        1 <= digits(n).len() <= k,
    decreases k,
{
    if n >= 10 {
        assert(k >= 2) by {
            if k == 1 {
                assert(pow10(1) == 10 * pow10(0));
            }
        }
        assert(pow10(k) == 10 * pow10((k - 1) as nat));
        assert(n / 10 < pow10((k - 1) as nat)) by (nonlinear_arith)
            requires
                n < 10 * pow10((k - 1) as nat),
        ;
        lemma_digits_len(n / 10, (k - 1) as nat);
    }
}

/// Below ten billion the zero-padded form is exactly ten bytes wide.
pub proof fn lemma_zero_pad10_len(n: nat)
    requires
        n < 10_000_000_000,
    ensures
        zero_pad10(n).len() == 10,
{
    reveal_with_fuel(pow10, 11);
    assert(pow10(10) == 10_000_000_000);
    lemma_digits_len(n, 10);
}

/// Appends the decimal digits of `n`.
pub fn push_digits(out: &mut Vec<u8>, n: u64)
    ensures
        final(out)@ == old(out)@ + digits(n as nat),
    decreases n,
{
    if n >= 10 {
        push_digits(out, n / 10);
    }
    out.push((48 + n % 10) as u8);
    proof {
        if n >= 10 {
            assert(final(out)@ =~= old(out)@ + digits(n as nat));
        } else {
            assert(final(out)@ =~= old(out)@ + digits(n as nat));
        }
    }
}

/// Number of decimal digits of `n`.
pub fn digit_count(n: u64) -> (r: usize)
    ensures
        r == digits(n as nat).len(),
        r <= 20,
    decreases n,
{
    proof {
        reveal_with_fuel(pow10, 21);
        assert(pow10(20) == 100_000_000_000_000_000_000);
        lemma_digits_len(n as nat, 20);
    }
    if n >= 10 {
        1 + digit_count(n / 10)
    } else {
        1
    }
}

/// Appends `n` in decimal, zero-padded to at least ten digits.
pub fn push_zero_padded10(out: &mut Vec<u8>, n: u64)
    ensures
        final(out)@ == old(out)@ + zero_pad10(n as nat),
{
    let len = digit_count(n);
    let ghost start = out@;
    if len < 10 {
        let mut i: usize = len;
        while i < 10
            invariant
                len <= i <= 10,
                out@ == start + Seq::new((i - len) as nat, |_j: int| 48u8),
            decreases 10 - i,
        {
            out.push(48u8);
            i = i + 1;
            assert(out@ =~= start + Seq::new((i - len) as nat, |_j: int| 48u8));
        }
    }
    push_digits(out, n);
    assert(out@ =~= start + zero_pad10(n as nat));
}

/// Appends the bytes of a string literal.
pub fn push_lit(out: &mut Vec<u8>, s: &str)
    ensures
        final(out)@ == old(out)@ + lit(s),
{
    out.extend_from_slice(s.as_bytes());
}

/// Distinct numbers have distinct decimal renderings.
pub proof fn lemma_digits_injective(a: nat, b: nat)
    requires
        digits(a) == digits(b),
    ensures
        a == b,
    decreases a,
{
    if a < 10 && b < 10 {
        assert(digits(a)[0] == (48 + a) as u8);
        assert(digits(b)[0] == (48 + b) as u8);
    } else if a < 10 {
        lemma_digits_nonempty(b / 10);
        assert(digits(b).len() >= 2);
    } else if b < 10 {
        lemma_digits_nonempty(a / 10);
        assert(digits(a).len() >= 2);
    } else {
        assert(digits(a).drop_last() =~= digits(a / 10));
        assert(digits(b).drop_last() =~= digits(b / 10));
        assert(digits(a).last() == digits(b).last());
        assert(digits(a).last() == (48 + a % 10) as u8);
        assert(digits(b).last() == (48 + b % 10) as u8);
        assert(a % 10 == b % 10);
        lemma_digits_injective(a / 10, b / 10);
    }
}

pub proof fn lemma_digits_nonempty(n: nat)
    ensures
        digits(n).len() >= 1,
    decreases n,
{
    if n >= 10 {
        lemma_digits_nonempty(n / 10);
    }
}

} // verus!
