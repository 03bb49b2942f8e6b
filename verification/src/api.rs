//! The exposed operations: byte buffers in, byte buffers or structured
//! records out. Each either returns its value or one of the two error
//! kinds, carrying the offending input; there is no partial result.

use vstd::prelude::*;

use crate::join::{join_parsed, spec_join};
use crate::model::{PathModel, TypstError, Url, UrlPath};
use crate::parse::{opt_bytes, parse_url, spec_parse};
use crate::proj::{spec_effective_port, spec_origin, spec_pairs};
use crate::relative::{make_relative_url, spec_make_relative};
use crate::scan::subvec;
use crate::utf8::{bytes_to_str, decoded_of, utf8_check, utf8_fail_from, utf8_valid};

verus! {

/// Decode input bytes as UTF-8, or report where they fail to decode.
pub fn parse_str(input: &[u8]) -> (r: Result<&str, TypstError>)
    ensures
        match r {
            Ok(s) => utf8_valid(input@) && s@ == decoded_of(input@),
            Err(TypstError::InputError { input: inp, valid_up_to }) => inp@ == input@
                && utf8_fail_from(input@, 0) == Some(valid_up_to as int),
            Err(TypstError::ParseError { .. }) => false,
        },
{
    match utf8_check(input) {
        Some(i) => Err(
            TypstError::InputError { input: subvec(input, 0, input.len()), valid_up_to: i },
        ),
        None => Ok(bytes_to_str(input)),
    }
}

/// Parse and return the canonical serialization: the display form.
pub fn parse_display_fmt(input: &[u8]) -> (r: Result<Vec<u8>, TypstError>)
    ensures
        match r {
            Ok(b) => utf8_valid(input@) && spec_parse(input@) is Some && b@ == spec_parse(
                input@,
            )->0.ser(),
            Err(TypstError::InputError { input: inp, valid_up_to }) => inp@ == input@
                && utf8_fail_from(input@, 0) == Some(valid_up_to as int),
            Err(TypstError::ParseError { input: inp, .. }) => inp@ == input@ && utf8_valid(input@)
                && spec_parse(input@) is None,
        },
{
    match parse_url(input) {
        Ok(u) => Ok(u.serialize()),
        Err(e) => Err(e),
    }
}

/// Resolve a reference against a base, both given as bytes, and return the
/// canonical serialization of the result.
pub fn join(base: &[u8], url: &[u8]) -> (r: Result<Vec<u8>, TypstError>)
    ensures
        match r {
            Ok(b) => utf8_valid(base@) && spec_parse(base@) is Some && utf8_valid(url@)
                && spec_join(spec_parse(base@)->0, url@) is Some && b@ == spec_join(
                spec_parse(base@)->0,
                url@,
            )->0.ser(),
            Err(TypstError::InputError { input: inp, valid_up_to }) => (inp@ == base@
                && utf8_fail_from(base@, 0) == Some(valid_up_to as int)) || (utf8_valid(base@)
                && spec_parse(base@) is Some && inp@ == url@ && utf8_fail_from(url@, 0) == Some(
                valid_up_to as int,
            )),
            Err(TypstError::ParseError { input: inp, .. }) => (inp@ == base@ && utf8_valid(base@)
                && spec_parse(base@) is None) || (utf8_valid(base@) && spec_parse(base@) is Some
                && utf8_valid(url@) && inp@ == url@ && spec_join(
                spec_parse(base@)->0,
                url@,
            ) is None),
        },
{
    let b = match parse_url(base) {
        Ok(u) => u,
        Err(e) => {
            return Err(e);
        },
    };
    if let Some(i) = utf8_check(url) {
        return Err(TypstError::InputError { input: subvec(url, 0, url.len()), valid_up_to: i });
    }
    match join_parsed(&b, url) {
        Ok(u) => Ok(u.serialize()),
        Err(e) => Err(e),
    }
}

/// The shortest relative reference from one absolute URL to another, both
/// given as bytes.
pub fn make_relative(base: &[u8], url: &[u8]) -> (r: Result<Vec<u8>, TypstError>)
    ensures
        match r {
            Ok(b) => utf8_valid(base@) && spec_parse(base@) is Some && utf8_valid(url@)
                && spec_parse(url@) is Some && b@ == spec_make_relative(
                spec_parse(base@)->0,
                spec_parse(url@)->0,
            ),
            Err(TypstError::InputError { input: inp, valid_up_to }) => (inp@ == base@
                && utf8_fail_from(base@, 0) == Some(valid_up_to as int)) || (utf8_valid(base@)
                && spec_parse(base@) is Some && inp@ == url@ && utf8_fail_from(url@, 0) == Some(
                valid_up_to as int,
            )),
            Err(TypstError::ParseError { input: inp, .. }) => (inp@ == base@ && utf8_valid(base@)
                && spec_parse(base@) is None) || (utf8_valid(base@) && spec_parse(base@) is Some
                && utf8_valid(url@) && inp@ == url@ && spec_parse(url@) is None),
        },
{
    let b = match parse_url(base) {
        Ok(u) => u,
        Err(e) => {
            return Err(e);
        },
    };
    let t = match parse_url(url) {
        Ok(u) => u,
        Err(e) => {
            return Err(e);
        },
    };
    Ok(make_relative_url(&b, &t))
}

/// The decomposition record: every stored component, plus the path as one
/// serialized string.
#[derive(Debug, Clone, PartialEq, Eq)]
pub struct UrlRepr {
    pub scheme: Vec<u8>,
    pub cannot_be_a_base: bool,
    pub username: Vec<u8>,
    pub password: Option<Vec<u8>>,
    pub host: Option<Vec<u8>>,
    pub port: Option<u16>,
    pub path: Vec<u8>,
    pub query: Option<Vec<u8>>,
    pub fragment: Option<Vec<u8>>,
}

impl Url {
    /// The path component as one serialized string.
    pub fn path_str(&self) -> (r: Vec<u8>)
        ensures
            r@ == self@.ser_path(),
    {
        let mut out: Vec<u8> = Vec::new();
        match &self.path {
            UrlPath::Opaque(o) => {
                crate::model::push_all(&mut out, o.as_slice());
            },
            UrlPath::Segments(segs) => {
                if self.host.is_none() && segs.len() >= 2 && segs[0].len() == 0 {
                    out.push(0x2F);
                    out.push(0x2E);
                }
                crate::model::push_segs(&mut out, segs);
            },
        }
        proof {
            assert(out@ =~= self@.ser_path());
        }
        out
    }
}

/// Parse and decompose: the record behind the debug form.
pub fn debug_repr(input: &[u8]) -> (r: Result<UrlRepr, TypstError>)
    ensures
        match r {
            Ok(rep) => {
                let m = spec_parse(input@)->0;
                &&& utf8_valid(input@)
                &&& spec_parse(input@) is Some
                &&& rep.scheme@ == m.scheme
                &&& rep.cannot_be_a_base == m.cannot_be_a_base()
                &&& rep.username@ == m.username
                &&& opt_bytes(rep.password) == m.password
                &&& opt_bytes(rep.host) == m.host
                &&& rep.port == m.port
                &&& rep.path@ == m.ser_path()
                &&& opt_bytes(rep.query) == m.query
                &&& opt_bytes(rep.fragment) == m.fragment
            },
            Err(TypstError::InputError { input: inp, valid_up_to }) => inp@ == input@
                && utf8_fail_from(input@, 0) == Some(valid_up_to as int),
            Err(TypstError::ParseError { input: inp, .. }) => inp@ == input@ && utf8_valid(input@)
                && spec_parse(input@) is None,
        },
{
    let u = match parse_url(input) {
        Ok(u) => u,
        Err(e) => {
            return Err(e);
        },
    };
    let path = u.path_str();
    Ok(
        UrlRepr {
            scheme: u.scheme,
            cannot_be_a_base: matches!(u.path, UrlPath::Opaque(_)),
            username: u.username,
            password: u.password,
            host: u.host,
            port: u.port,
            path,
            query: u.query,
            fragment: u.fragment,
        },
    )
}

/// The derived projections, computed in one pass.
#[derive(Debug, Clone, PartialEq, Eq)]
pub struct UrlReprSupplementary {
    pub origin: Option<(Vec<u8>, Vec<u8>, u16)>,
    pub is_special: bool,
    pub authority: Vec<u8>,
    pub domain: Option<Vec<u8>>,
    pub port_or_known_default: Option<u16>,
    pub path_segments: Option<Vec<Vec<u8>>>,
    pub query_pairs: Vec<(Vec<u8>, Vec<u8>)>,
}

/// Parse and project: origin, authority, domain, effective port, decoded
/// path segments and decoded query pairs.
pub fn supplementary_repr(input: &[u8]) -> (r: Result<UrlReprSupplementary, TypstError>)
    ensures
        match r {
            Ok(rep) => {
                let m = spec_parse(input@)->0;
                &&& utf8_valid(input@)
                &&& spec_parse(input@) is Some
                &&& (match rep.origin {
                    Some(o) => spec_origin(m) == Some((o.0@, o.1@, o.2)),
                    None => spec_origin(m) is None,
                })
                &&& rep.is_special == m.is_special()
                &&& rep.authority@ == (match m.host {
                    Some(_) => crate::roundtrip::auth_of(m),
                    None => Seq::<u8>::empty(),
                })
                &&& rep.port_or_known_default == spec_effective_port(m)
                &&& (rep.path_segments is None <==> m.cannot_be_a_base())
                &&& rep.query_pairs.deep_view() == (match m.query {
                    Some(q) => spec_pairs(q),
                    None => Seq::<(Seq<u8>, Seq<u8>)>::empty(),
                })
            },
            Err(TypstError::InputError { input: inp, valid_up_to }) => inp@ == input@
                && utf8_fail_from(input@, 0) == Some(valid_up_to as int),
            Err(TypstError::ParseError { input: inp, .. }) => inp@ == input@ && utf8_valid(input@)
                && spec_parse(input@) is None,
        },
{
    let u = match parse_url(input) {
        Ok(u) => u,
        Err(e) => {
            return Err(e);
        },
    };
    let origin = u.origin();
    let authority = u.authority();
    let domain = u.domain();
    let port_or_known_default = u.effective_port();
    let path_segments = u.path_segments();
    let query_pairs = u.query_pairs();
    let is_special = crate::model::is_special_scheme(u.scheme.as_slice());
    Ok(
        UrlReprSupplementary {
            origin,
            is_special,
            authority,
            domain,
            port_or_known_default,
            path_segments,
            query_pairs,
        },
    )
}

} // verus!
