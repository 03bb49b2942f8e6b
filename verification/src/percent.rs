//! Percent-encoding. Each URL component class has its own safe set; bytes
//! outside it are written as `%XX` (uppercase hex). An existing `%` is
//! passed through unchanged, so normalization is idempotent.

use vstd::prelude::*;

verus! {

#[derive(Clone, Copy)]
pub enum EncodeSet {
    UserInfo,
    PathSeg,
    Opaque,
    Query,
    Fragment,
}

/// Unreserved bytes and sub-delimiters, safe in every component.
pub open spec fn common_safe(b: u8) -> bool {
    (0x30 <= b && b <= 0x39)  // 0-9
    || (0x41 <= b && b <= 0x5A)  // A-Z
    || (0x61 <= b && b <= 0x7A)  // a-z
    || b == 0x2D || b == 0x2E || b == 0x5F || b == 0x7E  // - . _ ~
    || b == 0x21 || b == 0x24 || b == 0x26 || b == 0x27  // ! $ & '
    || b == 0x28 || b == 0x29 || b == 0x2A || b == 0x2B  // ( ) * +
    || b == 0x2C || b == 0x3B || b == 0x3D  // , ; =
}

pub open spec fn is_safe(set: EncodeSet, b: u8) -> bool {
    match set {
        EncodeSet::UserInfo => common_safe(b),
        EncodeSet::PathSeg => common_safe(b) || b == 0x3A || b == 0x40,  // : @
        EncodeSet::Opaque => common_safe(b) || b == 0x3A || b == 0x40 || b == 0x2F,  // : @ /
        EncodeSet::Query => common_safe(b) || b == 0x3A || b == 0x40 || b == 0x2F || b
            == 0x3F,  // : @ / ?
        EncodeSet::Fragment => common_safe(b) || b == 0x3A || b == 0x40 || b == 0x2F || b == 0x3F
            || b == 0x23,  // : @ / ? #
    }
}

/// Upper-case hex digit for a value below 16.
pub open spec fn hex_digit(v: u8) -> u8 {
    if v < 10 {
        (0x30 + v) as u8
    } else {
        (0x41 + (v - 10)) as u8
    }
}

/// Encoding of one byte under a set.
pub open spec fn enc1(set: EncodeSet, b: u8) -> Seq<u8> {
    if is_safe(set, b) || b == 0x25 {
        seq![b]
    } else {
        seq![0x25u8, hex_digit(b / 16), hex_digit(b % 16)]
    }
}

/// Percent-encode a byte string under a set.
pub open spec fn spec_enc(set: EncodeSet, s: Seq<u8>) -> Seq<u8>
    decreases s.len(),
{
    if s.len() == 0 {
        Seq::empty()
    } else {
        enc1(set, s[0]) + spec_enc(set, s.skip(1))
    }
}

/// Every byte is safe for the set, or a `%`.
pub open spec fn enc_clean(set: EncodeSet, s: Seq<u8>) -> bool {
    forall|i: int| 0 <= i < s.len() ==> is_safe(set, #[trigger] s[i]) || s[i] == 0x25
}

/// The encoder's output is clean for its set.
pub proof fn lemma_enc_clean(set: EncodeSet, s: Seq<u8>)
    ensures
        enc_clean(set, spec_enc(set, s)),
        spec_enc(set, s).len() >= s.len(),
        s.len() > 0 ==> spec_enc(set, s).len() > 0 && (spec_enc(set, s)[0] == s[0] || spec_enc(
            set,
            s,
        )[0] == 0x25),
    decreases s.len(),
{
    if s.len() > 0 {
        lemma_enc_clean(set, s.skip(1));
    }
}

/// On a clean string the encoder is the identity.
pub proof fn lemma_enc_id(set: EncodeSet, s: Seq<u8>)
    requires
        enc_clean(set, s),
    ensures
        spec_enc(set, s) == s,
    decreases s.len(),
{
    if s.len() == 0 {
        assert(spec_enc(set, s) =~= s);
    } else {
        assert(is_safe(set, s[0]) || s[0] == 0x25);
        assert(enc_clean(set, s.skip(1)));
        lemma_enc_id(set, s.skip(1));
        assert(spec_enc(set, s) =~= s);
    }
}

pub open spec fn is_hex(b: u8) -> bool {
    (0x30 <= b && b <= 0x39) || (0x41 <= b && b <= 0x46) || (0x61 <= b && b <= 0x66)
}

pub open spec fn hex_val(b: u8) -> u8 {
    if 0x30 <= b && b <= 0x39 {
        (b - 0x30) as u8
    } else if 0x41 <= b && b <= 0x46 {
        (b - 0x41 + 10) as u8
    } else {
        (b - 0x61 + 10) as u8
    }
}

/// Percent-decode: each `%XX` with two hex digits becomes one byte; any
/// other byte, `%` included, stands for itself.
pub open spec fn spec_pdecode(s: Seq<u8>) -> Seq<u8>
    decreases s.len(),
{
    if s.len() == 0 {
        Seq::empty()
    } else if s[0] == 0x25 && s.len() >= 3 && is_hex(s[1]) && is_hex(s[2]) {
        seq![(16 * hex_val(s[1]) + hex_val(s[2])) as u8] + spec_pdecode(s.skip(3))
    } else {
        seq![s[0]] + spec_pdecode(s.skip(1))
    }
}

pub fn byte_is_safe(set: EncodeSet, b: u8) -> (r: bool)
    ensures
        r == is_safe(set, b),
{
    let c = (0x30 <= b && b <= 0x39) || (0x41 <= b && b <= 0x5A) || (0x61 <= b && b <= 0x7A) || b
        == 0x2D || b == 0x2E || b == 0x5F || b == 0x7E || b == 0x21 || b == 0x24 || b == 0x26 || b
        == 0x27 || b == 0x28 || b == 0x29 || b == 0x2A || b == 0x2B || b == 0x2C || b == 0x3B || b
        == 0x3D;
    match set {
        EncodeSet::UserInfo => c,
        EncodeSet::PathSeg => c || b == 0x3A || b == 0x40,
        EncodeSet::Opaque => c || b == 0x3A || b == 0x40 || b == 0x2F,
        EncodeSet::Query => c || b == 0x3A || b == 0x40 || b == 0x2F || b == 0x3F,
        EncodeSet::Fragment => c || b == 0x3A || b == 0x40 || b == 0x2F || b == 0x3F || b == 0x23,
    }
}

fn hex_digit_exec(v: u8) -> (r: u8)
    requires
        v < 16,
    ensures
        r == hex_digit(v),
{
    if v < 10 {
        0x30 + v
    } else {
        0x41 + (v - 10)
    }
}

pub fn percent_encode(set: EncodeSet, s: &[u8]) -> (r: Vec<u8>)
    ensures
        r@ == spec_enc(set, s@),
{
    let mut out: Vec<u8> = Vec::new();
    let mut i: usize = 0;
    proof {
        assert(s@.skip(0) =~= s@);
        assert(Seq::<u8>::empty() + spec_enc(set, s@) =~= spec_enc(set, s@));
    }
    while i < s.len()
        invariant
            i <= s.len(),
            spec_enc(set, s@) == out@ + spec_enc(set, s@.skip(i as int)),
        decreases s.len() - i,
    {
        let b = s[i];
        proof {
            assert(s@.skip(i as int)[0] == b);
            assert(s@.skip(i as int).skip(1) =~= s@.skip(i as int + 1));
        }
        if byte_is_safe(set, b) || b == 0x25 {
            out.push(b);
        } else {
            out.push(0x25);
            out.push(hex_digit_exec(b / 16));
            out.push(hex_digit_exec(b % 16));
        }
        i = i + 1;
    }
    proof {
        assert(s@.skip(s@.len() as int) =~= Seq::<u8>::empty());
        assert(out@ + Seq::<u8>::empty() =~= out@);
    }
    out
}

fn is_hex_exec(b: u8) -> (r: bool)
    ensures
        r == is_hex(b),
{
    (0x30 <= b && b <= 0x39) || (0x41 <= b && b <= 0x46) || (0x61 <= b && b <= 0x66)
}

fn hex_val_exec(b: u8) -> (r: u8)
    requires
        is_hex(b),
    ensures
        r == hex_val(b),
        r < 16,
{
    if 0x30 <= b && b <= 0x39 {
        b - 0x30
    } else if 0x41 <= b && b <= 0x46 {
        b - 0x41 + 10
    } else {
        b - 0x61 + 10
    }
}

pub fn percent_decode(s: &[u8]) -> (r: Vec<u8>)
    ensures
        r@ == spec_pdecode(s@),
{
    let mut out: Vec<u8> = Vec::new();
    let mut i: usize = 0;
    proof {
        assert(s@.skip(0) =~= s@);
        assert(Seq::<u8>::empty() + spec_pdecode(s@) =~= spec_pdecode(s@));
    }
    while i < s.len()
        invariant
            i <= s.len(),
            spec_pdecode(s@) == out@ + spec_pdecode(s@.skip(i as int)),
        decreases s.len() - i,
    {
        let b = s[i];
        proof {
            assert(s@.skip(i as int)[0] == b);
            assert(s@.skip(i as int).skip(1) =~= s@.skip(i as int + 1));
            if s@.len() - i >= 3 {
                assert(s@.skip(i as int)[1] == s@[i + 1]);
                assert(s@.skip(i as int)[2] == s@[i + 2]);
                assert(s@.skip(i as int).skip(3) =~= s@.skip(i as int + 3));
            }
        }
        if b == 0x25 && s.len() - i > 2 && is_hex_exec(s[i + 1]) && is_hex_exec(s[i + 2]) {
            let v = 16 * hex_val_exec(s[i + 1]) + hex_val_exec(s[i + 2]);
            out.push(v);
            i = i + 3;
        } else {
            out.push(b);
            i = i + 1;
        }
    }
    proof {
        assert(s@.skip(s@.len() as int) =~= Seq::<u8>::empty());
        assert(out@ + Seq::<u8>::empty() =~= out@);
    }
    out
}

} // verus!
