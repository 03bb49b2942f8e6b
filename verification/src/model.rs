//! The URL value: an immutable, normalized record of scheme, authority,
//! path, query and fragment, with its well-formedness invariant and its
//! canonical serialization.

use vstd::prelude::*;

use crate::ascii::{
    all_digits, dec_str, dec_val, lemma_dec_str_val, lower_bytes, push_dec, spec_is_alpha,
    spec_is_digit, spec_is_scheme_byte, spec_lower, spec_lower_byte,
};
use crate::percent::{enc_clean, EncodeSet};
use crate::scan::{dot_free, ser_segs};

verus! {

/// A hierarchical path is a list of percent-encoded segments; a URL that
/// cannot be a base stores one opaque percent-encoded string instead.
#[derive(Debug, Clone, PartialEq, Eq)]
pub enum UrlPath {
    Opaque(Vec<u8>),
    Segments(Vec<Vec<u8>>),
}

/// A parsed, normalized URL. Built only by the parser and by `join`.
#[derive(Debug, Clone, PartialEq, Eq)]
pub struct Url {
    pub scheme: Vec<u8>,
    pub username: Vec<u8>,
    pub password: Option<Vec<u8>>,
    pub host: Option<Vec<u8>>,
    pub port: Option<u16>,
    pub path: UrlPath,
    pub query: Option<Vec<u8>>,
    pub fragment: Option<Vec<u8>>,
}

#[verifier::ext_equal]
pub enum PathModel {
    Opaque(Seq<u8>),
    Segments(Seq<Seq<u8>>),
}

#[verifier::ext_equal]
pub struct UrlModel {
    pub scheme: Seq<u8>,
    pub username: Seq<u8>,
    pub password: Option<Seq<u8>>,
    pub host: Option<Seq<u8>>,
    pub port: Option<u16>,
    pub path: PathModel,
    pub query: Option<Seq<u8>>,
    pub fragment: Option<Seq<u8>>,
}

impl View for Url {
    type V = UrlModel;

    open spec fn view(&self) -> UrlModel {
        UrlModel {
            scheme: self.scheme@,
            username: self.username@,
            password: match self.password {
                Some(p) => Some(p@),
                None => None,
            },
            host: match self.host {
                Some(h) => Some(h@),
                None => None,
            },
            port: self.port,
            path: match self.path {
                UrlPath::Opaque(o) => PathModel::Opaque(o@),
                UrlPath::Segments(v) => PathModel::Segments(v.deep_view()),
            },
            query: match self.query {
                Some(q) => Some(q@),
                None => None,
            },
            fragment: match self.fragment {
                Some(f) => Some(f@),
                None => None,
            },
        }
    }
}

// Scheme classes. The special schemes are http, https, ws, wss, ftp, file.
pub open spec fn is_http(s: Seq<u8>) -> bool {
    s.len() == 4 && s[0] == 0x68 && s[1] == 0x74 && s[2] == 0x74 && s[3] == 0x70
}

pub open spec fn is_https(s: Seq<u8>) -> bool {
    s.len() == 5 && s[0] == 0x68 && s[1] == 0x74 && s[2] == 0x74 && s[3] == 0x70 && s[4] == 0x73
}

pub open spec fn is_ws(s: Seq<u8>) -> bool {
    s.len() == 2 && s[0] == 0x77 && s[1] == 0x73
}

pub open spec fn is_wss(s: Seq<u8>) -> bool {
    s.len() == 3 && s[0] == 0x77 && s[1] == 0x73 && s[2] == 0x73
}

pub open spec fn is_ftp(s: Seq<u8>) -> bool {
    s.len() == 3 && s[0] == 0x66 && s[1] == 0x74 && s[2] == 0x70
}

pub open spec fn is_file(s: Seq<u8>) -> bool {
    s.len() == 4 && s[0] == 0x66 && s[1] == 0x69 && s[2] == 0x6C && s[3] == 0x65
}

pub open spec fn spec_is_special(s: Seq<u8>) -> bool {
    is_http(s) || is_https(s) || is_ws(s) || is_wss(s) || is_ftp(s) || is_file(s)
}

/// The well-known default port of a special scheme, if it has one.
pub open spec fn spec_default_port(s: Seq<u8>) -> Option<u16> {
    if is_http(s) || is_ws(s) {
        Some(80u16)
    } else if is_https(s) || is_wss(s) {
        Some(443u16)
    } else if is_ftp(s) {
        Some(21u16)
    } else {
        None
    }
}

pub fn is_special_scheme(s: &[u8]) -> (r: bool)
    ensures
        r == spec_is_special(s@),
{
    (s.len() == 4 && s[0] == 0x68 && s[1] == 0x74 && s[2] == 0x74 && s[3] == 0x70) || (s.len() == 5
        && s[0] == 0x68 && s[1] == 0x74 && s[2] == 0x74 && s[3] == 0x70 && s[4] == 0x73) || (s.len()
        == 2 && s[0] == 0x77 && s[1] == 0x73) || (s.len() == 3 && s[0] == 0x77 && s[1] == 0x73
        && s[2] == 0x73) || (s.len() == 3 && s[0] == 0x66 && s[1] == 0x74 && s[2] == 0x70) || (
    s.len() == 4 && s[0] == 0x66 && s[1] == 0x69 && s[2] == 0x6C && s[3] == 0x65)
}

pub fn is_file_scheme(s: &[u8]) -> (r: bool)
    ensures
        r == is_file(s@),
{
    s.len() == 4 && s[0] == 0x66 && s[1] == 0x69 && s[2] == 0x6C && s[3] == 0x65
}

pub fn default_port(s: &[u8]) -> (r: Option<u16>)
    ensures
        r == spec_default_port(s@),
{
    if (s.len() == 4 && s[0] == 0x68 && s[1] == 0x74 && s[2] == 0x74 && s[3] == 0x70) || (s.len()
        == 2 && s[0] == 0x77 && s[1] == 0x73) {
        Some(80)
    } else if (s.len() == 5 && s[0] == 0x68 && s[1] == 0x74 && s[2] == 0x74 && s[3] == 0x70 && s[4]
        == 0x73) || (s.len() == 3 && s[0] == 0x77 && s[1] == 0x73 && s[2] == 0x73) {
        Some(443)
    } else if s.len() == 3 && s[0] == 0x66 && s[1] == 0x74 && s[2] == 0x70 {
        Some(21)
    } else {
        None
    }
}

// Hosts. A host is either a bracketed IPv6 literal (lowercase hex digits,
// `:`, `.`) or a registrable name of lowercase letters, digits, `-`, `.`,
// `_`. Validation is purely syntactic; no lookups.
pub open spec fn is_v6_byte(b: u8) -> bool {
    (0x30 <= b && b <= 0x39) || (0x61 <= b && b <= 0x66) || b == 0x3A || b == 0x2E
}

pub open spec fn is_reg_byte(b: u8) -> bool {
    (0x30 <= b && b <= 0x39) || (0x61 <= b && b <= 0x7A) || b == 0x2D || b == 0x2E || b == 0x5F
}

/// A canonical (already lowercased) host.
pub open spec fn host_ok(h: Seq<u8>) -> bool {
    if h.len() >= 1 && h[0] == 0x5B {
        h.len() >= 2 && h[h.len() - 1] == 0x5D && forall|i: int|
            1 <= i < h.len() - 1 ==> is_v6_byte(#[trigger] h[i])
    } else {
        forall|i: int| 0 <= i < h.len() ==> is_reg_byte(#[trigger] h[i])
    }
}

/// Host normalization: lowercase, then check the shape.
pub open spec fn spec_host_norm(raw: Seq<u8>) -> Option<Seq<u8>> {
    if host_ok(spec_lower(raw)) {
        Some(spec_lower(raw))
    } else {
        None
    }
}

/// A canonical host is unchanged by renormalization.
pub proof fn lemma_host_canonical(h: Seq<u8>)
    requires
        host_ok(h),
    ensures
        spec_host_norm(h) == Some(h),
{
    assert(spec_lower(h) =~= h);
}

#[verifier::loop_isolation(false)]
pub fn host_norm(raw: &[u8]) -> (r: Option<Vec<u8>>)
    ensures
        match r {
            Some(h) => spec_host_norm(raw@) == Some(h@),
            None => spec_host_norm(raw@) is None,
        },
{
    let h = lower_bytes(raw);
    let n = h.len();
    if n >= 1 && h[0] == 0x5B {
        if n < 2 || h[n - 1] != 0x5D {
            return None;
        }
        let mut i: usize = 1;
        while i < n - 1
            invariant
                1 <= i <= n - 1,
                n == h@.len(),
                n >= 2,
                forall|j: int| 1 <= j < i ==> is_v6_byte(#[trigger] h@[j]),
            decreases n - i,
        {
            let b = h[i];
            if !((0x30 <= b && b <= 0x39) || (0x61 <= b && b <= 0x66) || b == 0x3A || b == 0x2E) {
                proof {
                    assert(!is_v6_byte(h@[i as int]));
                    assert(h@[0] == 0x5B);
                    assert(!host_ok(h@));
                }
                return None;
            }
            i = i + 1;
        }
        Some(h)
    } else {
        let mut i: usize = 0;
        while i < n
            invariant
                i <= n,
                n == h@.len(),
                forall|j: int| 0 <= j < i ==> is_reg_byte(#[trigger] h@[j]),
            decreases n - i,
        {
            let b = h[i];
            if !((0x30 <= b && b <= 0x39) || (0x61 <= b && b <= 0x7A) || b == 0x2D || b == 0x2E || b
                == 0x5F) {
                proof {
                    assert(!is_reg_byte(h@[i as int]));
                    assert(!host_ok(h@));
                }
                return None;
            }
            i = i + 1;
        }
        Some(h)
    }
}

impl UrlModel {
    /// A URL with an opaque path has no hierarchical structure.
    pub open spec fn cannot_be_a_base(self) -> bool {
        self.path is Opaque
    }

    pub open spec fn is_special(self) -> bool {
        spec_is_special(self.scheme)
    }

    /// Well-formedness: the invariant every parsed or joined URL satisfies.
    /// Each stored component is canonical under its encode set, so that
    /// serializing and re-parsing reproduces the value exactly.
    pub open spec fn wf(self) -> bool {
        &&& self.scheme.len() >= 1
        &&& spec_is_alpha(self.scheme[0])
        &&& forall|i: int| 0 <= i < self.scheme.len() ==> spec_is_scheme_byte(#[trigger] self.scheme[i])
            && self.scheme[i] == spec_lower_byte(self.scheme[i])
        &&& match self.host {
            None => !self.is_special() && self.username.len() == 0 && self.password is None
                && self.port is None,
            Some(h) => host_ok(h) && (self.is_special() && !is_file(self.scheme) ==> h.len() >= 1),
        }
        &&& enc_clean(EncodeSet::UserInfo, self.username)
        &&& match self.password {
            Some(p) => enc_clean(EncodeSet::UserInfo, p),
            None => true,
        }
        &&& match self.port {
            Some(p) => self.host is Some && spec_default_port(self.scheme) != Some(p),
            None => true,
        }
        &&& match self.path {
            PathModel::Opaque(o) => self.host is None && !self.is_special() && enc_clean(
                EncodeSet::Opaque,
                o,
            ) && (o.len() > 0 ==> o[0] != 0x2F),
            PathModel::Segments(segs) => {
                &&& (self.is_special() ==> segs.len() >= 1)
                &&& (self.host is None ==> segs.len() >= 1)
                &&& dot_free(segs)
                &&& forall|i: int|
                    0 <= i < segs.len() ==> enc_clean(EncodeSet::PathSeg, #[trigger] segs[i])
            },
        }
        &&& match self.query {
            Some(q) => enc_clean(EncodeSet::Query, q),
            None => true,
        }
        &&& match self.fragment {
            Some(f) => enc_clean(EncodeSet::Fragment, f),
            None => true,
        }
    }

    /// `username[:password]@`, empty when there is no userinfo.
    pub open spec fn ser_userinfo(self) -> Seq<u8> {
        if self.username.len() > 0 || self.password is Some {
            self.username + (match self.password {
                Some(p) => seq![0x3Au8] + p,
                None => Seq::empty(),
            }) + seq![0x40u8]
        } else {
            Seq::empty()
        }
    }

    /// `//userinfo host [:port]`, empty when there is no host.
    pub open spec fn ser_auth(self) -> Seq<u8> {
        match self.host {
            Some(h) => seq![0x2Fu8, 0x2Fu8] + self.ser_userinfo() + h + (match self.port {
                Some(p) => seq![0x3Au8] + dec_str(p as nat),
                None => Seq::empty(),
            }),
            None => Seq::empty(),
        }
    }

    /// The path. A host-less segment path whose first segment is empty is
    /// written with a leading `/.` so that it cannot be mistaken for an
    /// authority on a re-parse.
    pub open spec fn ser_path(self) -> Seq<u8> {
        match self.path {
            PathModel::Opaque(o) => o,
            PathModel::Segments(segs) => (if self.host is None && segs.len() >= 2 && segs[0].len()
                == 0 {
                seq![0x2Fu8, 0x2Eu8]
            } else {
                Seq::empty()
            }) + ser_segs(segs),
        }
    }

    pub open spec fn ser_query(self) -> Seq<u8> {
        match self.query {
            Some(q) => seq![0x3Fu8] + q,
            None => Seq::empty(),
        }
    }

    pub open spec fn ser_fragment(self) -> Seq<u8> {
        match self.fragment {
            Some(f) => seq![0x23u8] + f,
            None => Seq::empty(),
        }
    }

    /// Canonical serialization of the whole URL.
    pub open spec fn ser(self) -> Seq<u8> {
        self.scheme + seq![0x3Au8] + self.ser_auth() + self.ser_path() + self.ser_query()
            + self.ser_fragment()
    }
}

/// Append a byte string.
pub fn push_all(out: &mut Vec<u8>, s: &[u8])
    ensures
        final(out)@ == old(out)@ + s@,
{
    let mut i: usize = 0;
    while i < s.len()
        invariant
            i <= s@.len(),
            out@ == old(out)@ + s@.take(i as int),
        decreases s@.len() - i,
    {
        out.push(s[i]);
        i = i + 1;
        proof {
            assert(old(out)@ + s@.take(i as int) =~= (old(out)@ + s@.take(i as int - 1)).push(
                s@[i - 1],
            ));
        }
    }
    proof {
        assert(out@ =~= old(out)@ + s@.take(s@.len() as int));
        assert(s@.take(s@.len() as int) =~= s@);
    }
}

/// Append `/seg` for each segment.
#[verifier::rlimit(100)]
#[verifier::spinoff_prover]
pub(crate) fn push_segs(out: &mut Vec<u8>, segs: &Vec<Vec<u8>>)
    ensures
        final(out)@ == old(out)@ + ser_segs(segs.deep_view()),
{
    let ghost full = segs.deep_view();
    let mut i: usize = 0;
    proof {
        assert(full.skip(0) =~= full);
    }
    while i < segs.len()
        invariant
            i <= segs@.len(),
            full == segs.deep_view(),
            old(out)@ + ser_segs(full) == out@ + ser_segs(full.skip(i as int)),
        decreases segs@.len() - i,
    {
        out.push(0x2F);
        push_all(out, segs[i].as_slice());
        proof {
            assert(full.skip(i as int)[0] == segs@[i as int]@);
            assert(full.skip(i as int).skip(1) =~= full.skip(i as int + 1));
            assert(ser_segs(full.skip(i as int)) == seq![0x2Fu8] + segs@[i as int]@ + ser_segs(
                full.skip(i as int + 1),
            ));
        }
        i = i + 1;
    }
    proof {
        assert(ser_segs(full.skip(segs@.len() as int)) =~= Seq::<u8>::empty());
        assert(out@ =~= old(out)@ + ser_segs(full));
    }
}

impl Url {
    /// True when the URL has no hierarchical path.
    pub fn cannot_be_a_base(&self) -> (r: bool)
        ensures
            r == self@.cannot_be_a_base(),
    {
        match &self.path {
            UrlPath::Opaque(_) => true,
            UrlPath::Segments(_) => false,
        }
    }

    /// Canonical serialization; re-parsing it reproduces the value.
    pub fn serialize(&self) -> (r: Vec<u8>)
        ensures
            r@ == self@.ser(),
    {
        let mut out: Vec<u8> = Vec::new();
        push_all(&mut out, self.scheme.as_slice());
        out.push(0x3A);
        match &self.host {
            Some(h) => {
                out.push(0x2F);
                out.push(0x2F);
                if self.username.len() > 0 || self.password.is_some() {
                    push_all(&mut out, self.username.as_slice());
                    match &self.password {
                        Some(p) => {
                            out.push(0x3A);
                            push_all(&mut out, p.as_slice());
                        },
                        None => {},
                    }
                    out.push(0x40);
                }
                push_all(&mut out, h.as_slice());
                match self.port {
                    Some(p) => {
                        out.push(0x3A);
                        push_dec(&mut out, p);
                    },
                    None => {},
                }
            },
            None => {},
        }
        proof {
            assert(out@ =~= self@.scheme + seq![0x3Au8] + self@.ser_auth());
        }
        match &self.path {
            UrlPath::Opaque(o) => {
                push_all(&mut out, o.as_slice());
            },
            UrlPath::Segments(segs) => {
                if self.host.is_none() && segs.len() >= 2 && segs[0].len() == 0 {
                    out.push(0x2F);
                    out.push(0x2E);
                }
                push_segs(&mut out, segs);
            },
        }
        proof {
            assert(out@ =~= self@.scheme + seq![0x3Au8] + self@.ser_auth() + self@.ser_path());
        }
        match &self.query {
            Some(q) => {
                out.push(0x3F);
                push_all(&mut out, q.as_slice());
            },
            None => {},
        }
        match &self.fragment {
            Some(f) => {
                out.push(0x23);
                push_all(&mut out, f.as_slice());
            },
            None => {},
        }
        proof {
            assert(out@ =~= self@.ser());
        }
        out
    }
}

/// Why a parse failed: which production of the grammar was violated.
#[derive(Debug, Clone, Copy, PartialEq, Eq)]
pub enum ParseReason {
    BadScheme,
    BadHost,
    BadPort,
    RelativeWithCannotBeABase,
}

/// The error taxonomy: input bytes that are not UTF-8, or a decoded string
/// that is not a URL. Both carry the offending input.
#[derive(Debug, Clone, PartialEq, Eq)]
pub enum TypstError {
    InputError { input: Vec<u8>, valid_up_to: usize },
    ParseError { input: Vec<u8>, reason: ParseReason },
}

} // verus!
