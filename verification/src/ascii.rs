//! ASCII byte classes used by the URL grammar, plus lowercasing and
//! decimal port digits.

use vstd::prelude::*;

verus! {

/// `A`..`Z` or `a`..`z`.
pub open spec fn spec_is_alpha(b: u8) -> bool {
    (0x41 <= b && b <= 0x5A) || (0x61 <= b && b <= 0x7A)
}

/// `0`..`9`.
pub open spec fn spec_is_digit(b: u8) -> bool {
    0x30 <= b && b <= 0x39
}

/// Bytes allowed in a scheme after its first letter: alphanumerics,
/// `+`, `-`, `.`.
pub open spec fn spec_is_scheme_byte(b: u8) -> bool {
    spec_is_alpha(b) || spec_is_digit(b) || b == 0x2B || b == 0x2D || b == 0x2E
}

/// ASCII lowercase of one byte: `A`..`Z` map down, all else unchanged.
pub open spec fn spec_lower_byte(b: u8) -> u8 {
    if 0x41 <= b && b <= 0x5A {
        (b + 0x20) as u8
    } else {
        b
    }
}

/// Bytewise ASCII lowercase of a sequence.
pub open spec fn spec_lower(s: Seq<u8>) -> Seq<u8> {
    s.map_values(|b: u8| spec_lower_byte(b))
}

pub fn is_ascii_alpha(b: u8) -> (r: bool)
    ensures
        r == spec_is_alpha(b),
{
    (0x41 <= b && b <= 0x5A) || (0x61 <= b && b <= 0x7A)
}

pub fn is_ascii_digit(b: u8) -> (r: bool)
    ensures
        r == spec_is_digit(b),
{
    0x30 <= b && b <= 0x39
}

pub fn is_scheme_byte(b: u8) -> (r: bool)
    ensures
        r == spec_is_scheme_byte(b),
{
    is_ascii_alpha(b) || is_ascii_digit(b) || b == 0x2B || b == 0x2D || b == 0x2E
}

pub fn lower_byte(b: u8) -> (r: u8)
    ensures
        r == spec_lower_byte(b),
{
    if 0x41 <= b && b <= 0x5A {
        b + 0x20
    } else {
        b
    }
}

/// Bytewise ASCII lowercase of a byte string.
pub fn lower_bytes(s: &[u8]) -> (r: Vec<u8>)
    ensures
        r@ == spec_lower(s@),
{
    let mut out: Vec<u8> = Vec::new();
    let mut i: usize = 0;
    while i < s.len()
        invariant
            i <= s.len(),
            out@ == spec_lower(s@.take(i as int)),
        decreases s.len() - i,
    {
        out.push(lower_byte(s[i]));
        i = i + 1;
        assert(s@.take(i as int).map_values(|b: u8| spec_lower_byte(b))
            =~= s@.take(i as int - 1).map_values(|b: u8| spec_lower_byte(b)).push(
            spec_lower_byte(s@[i - 1]),
        ));
    }
    assert(s@.take(s@.len() as int) =~= s@);
    out
}

/// Decimal digits of `n`, most significant first, no leading zero
/// (except for `n == 0` itself).
pub open spec fn dec_str(n: nat) -> Seq<u8>
    decreases n,
{
    if n < 10 {
        seq![(0x30 + n) as u8]
    } else {
        dec_str(n / 10).push((0x30 + n % 10) as u8)
    }
}

/// Value of a digit string read in decimal.
pub open spec fn dec_val(s: Seq<u8>) -> int
    decreases s.len(),
{
    if s.len() == 0 {
        0
    } else {
        10 * dec_val(s.drop_last()) + (s.last() - 0x30)
    }
}

pub open spec fn all_digits(s: Seq<u8>) -> bool {
    forall|i: int| 0 <= i < s.len() ==> spec_is_digit(#[trigger] s[i])
}

/// Writing a number in decimal and reading it back is the identity.
pub proof fn lemma_dec_str_val(n: nat)
    ensures
        all_digits(dec_str(n)),
        dec_str(n).len() >= 1,
        dec_val(dec_str(n)) == n,
    decreases n,
{
    if n < 10 {
        assert(dec_str(n) =~= seq![(0x30 + n) as u8]);
        assert(dec_str(n).drop_last() =~= Seq::<u8>::empty());
        assert(dec_str(n).last() == (0x30 + n) as u8);
        assert(all_digits(dec_str(n)));
        assert(dec_val(dec_str(n)) == 10 * dec_val(Seq::<u8>::empty()) + ((0x30 + n) as u8
            - 0x30));
        assert(dec_val(dec_str(n)) == n);
    } else {
        lemma_dec_str_val(n / 10);
        vstd::arithmetic::div_mod::lemma_fundamental_div_mod(n as int, 10);
        assert(n % 10 < 10) by (nonlinear_arith);
        assert(dec_str(n).drop_last() =~= dec_str(n / 10));
        assert(dec_str(n).last() == (0x30 + n % 10) as u8);
        assert(spec_is_digit(dec_str(n).last()));
        assert(forall|i: int|
            0 <= i < dec_str(n).len() - 1 ==> #[trigger] dec_str(n)[i] == dec_str(n / 10)[i]);
        assert(dec_val(dec_str(n)) == 10 * dec_val(dec_str(n / 10)) + (n % 10));
        assert(all_digits(dec_str(n)));
        assert(dec_val(dec_str(n)) == n);
    }
}

pub proof fn lemma_dec_val_nonneg(s: Seq<u8>)
    requires
        all_digits(s),
    ensures
        dec_val(s) >= 0,
    decreases s.len(),
{
    if s.len() > 0 {
        assert(all_digits(s.drop_last()));
        lemma_dec_val_nonneg(s.drop_last());
    }
}

/// A digit string's value dominates the value of each of its prefixes.
pub proof fn lemma_dec_val_prefix(s: Seq<u8>, i: int)
    requires
        all_digits(s),
        0 <= i <= s.len(),
    ensures
        dec_val(s) >= dec_val(s.take(i)),
    decreases s.len() - i,
{
    if i < s.len() {
        assert(all_digits(s.take(i)));
        lemma_dec_val_nonneg(s.take(i));
        assert(s.take(i + 1).drop_last() =~= s.take(i));
        assert(s.take(i + 1).last() == s[i]);
        lemma_dec_val_prefix(s, i + 1);
    } else {
        assert(s.take(i) =~= s);
    }
}

/// Append the decimal digits of `n`.
pub fn push_dec(out: &mut Vec<u8>, n: u16)
    ensures
        final(out)@ == old(out)@ + dec_str(n as nat),
    decreases n,
{
    if n < 10 {
        out.push(0x30 + n as u8);
        proof {
            assert(out@ =~= old(out)@ + dec_str(n as nat));
        }
    } else {
        push_dec(out, n / 10);
        out.push(0x30 + (n % 10) as u8);
        proof {
            assert(out@ =~= old(out)@ + dec_str(n as nat));
        }
    }
}

/// Read a decimal port: all digits, nonempty, and at most 65535.
pub fn parse_port_digits(s: &[u8]) -> (r: Option<u16>)
    ensures
        match r {
            Some(p) => s@.len() >= 1 && all_digits(s@) && dec_val(s@) == p && p <= 65535,
            None => s@.len() == 0 || !all_digits(s@) || dec_val(s@) > 65535,
        },
{
    if s.len() == 0 {
        return None;
    }
    let mut val: u32 = 0;
    let mut i: usize = 0;
    proof {
        assert(s@.take(0) =~= Seq::<u8>::empty());
    }
    while i < s.len()
        invariant
            i <= s@.len(),
            all_digits(s@.take(i as int)),
            val == dec_val(s@.take(i as int)),
            val <= 65535,
        decreases s@.len() - i,
    {
        let b = s[i];
        if !is_ascii_digit(b) {
            return None;
        }
        proof {
            assert(s@.take(i as int + 1).drop_last() =~= s@.take(i as int));
            assert(s@.take(i as int + 1).last() == s@[i as int]);
        }
        let next = val * 10 + (b - 0x30) as u32;
        if next > 65535 {
            proof {
                if all_digits(s@) {
                    lemma_dec_val_prefix(s@, i as int + 1);
                }
            }
            return None;
        }
        val = next;
        i = i + 1;
    }
    proof {
        assert(s@.take(s@.len() as int) =~= s@);
    }
    Some(val as u16)
}

/// A sequence already in lowercase is unchanged by lowercasing.
pub proof fn lemma_lower_identity(s: Seq<u8>)
    requires
        forall|i: int| 0 <= i < s.len() ==> s[i] == spec_lower_byte(s[i]),
    ensures
        spec_lower(s) == s,
{
    assert(spec_lower(s) =~= s);
}

} // verus!
