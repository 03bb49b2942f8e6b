//! Reference resolution: combine a base URL and a possibly-relative
//! reference into a new absolute URL. An absolute reference wins outright;
//! otherwise the reference replaces base components from the fragment,
//! query, authority, rooted path or merged relative path down.

use vstd::prelude::*;
use vstd::slice::slice_subrange;

use crate::model::{ParseReason, PathModel, TypstError, Url, UrlModel, UrlPath};
use crate::parse::{
    opt_bytes, parse_qf, parse_url, rm_dots_from, sp_authority, sp_qf, sp_segs, spec_parse,
    split_enc,
};
use crate::percent::{percent_encode, spec_enc, EncodeSet};
use crate::scan::{
    is_sep, lemma_dv, rm_rec, scan, scan_from, spec_trim, split_seps, stop_fn, subvec, trim_bytes,
    StopKind,
};
use crate::utf8::utf8_valid;

verus! {

/// Resolution of a trimmed-and-parsed reference against a base. `None` is
/// a parse failure: a relative reference against a URL that cannot be a
/// base, or a bad authority in a protocol-relative reference.
pub open spec fn spec_join(base: UrlModel, r: Seq<u8>) -> Option<UrlModel> {
    if spec_parse(r) is Some {
        spec_parse(r)
    } else {
        let s = spec_trim(r);
        if base.cannot_be_a_base() {
            if s.len() >= 1 && s[0] == 0x23 {
                Some(
                    UrlModel {
                        fragment: Some(spec_enc(EncodeSet::Fragment, s.skip(1))),
                        ..base
                    },
                )
            } else {
                None
            }
        } else {
            let special = base.is_special();
            if s.len() == 0 {
                Some(UrlModel { query: None, fragment: None, ..base })
            } else if s[0] == 0x23 {
                Some(
                    UrlModel {
                        fragment: Some(spec_enc(EncodeSet::Fragment, s.skip(1))),
                        ..base
                    },
                )
            } else if s[0] == 0x3F {
                let qf = sp_qf(s);
                Some(UrlModel { query: qf.0, fragment: qf.1, ..base })
            } else if s.len() >= 2 && is_sep(s[0], special) && is_sep(s[1], special) {
                sp_authority(base.scheme, s.skip(2), special)
            } else if is_sep(s[0], special) {
                let pe = scan(s, 0, stop_fn(StopKind::QueryOrHash));
                let segs = sp_segs(s.subrange(1, pe), special);
                let qf = sp_qf(s.skip(pe));
                Some(
                    UrlModel {
                        path: PathModel::Segments(segs),
                        query: qf.0,
                        fragment: qf.1,
                        ..base
                    },
                )
            } else {
                let pe = scan(s, 0, stop_fn(StopKind::QueryOrHash));
                let pieces = split_seps(s.take(pe), special).map_values(
                    |p: Seq<u8>| spec_enc(EncodeSet::PathSeg, p),
                );
                let bsegs = base.path->Segments_0;
                let dir = if bsegs.len() > 0 {
                    bsegs.drop_last()
                } else {
                    bsegs
                };
                let qf = sp_qf(s.skip(pe));
                Some(
                    UrlModel {
                        path: PathModel::Segments(rm_rec(dir, pieces)),
                        query: qf.0,
                        fragment: qf.1,
                        ..base
                    },
                )
            }
        }
    }
}

/// Join with an empty reference copies scheme, authority and path and
/// drops query and fragment.
pub proof fn lemma_join_empty(base: UrlModel)
    requires
        !base.cannot_be_a_base(),
    ensures
        spec_join(base, Seq::empty()) == Some(
            UrlModel { query: None, fragment: None, ..base },
        ),
        spec_join(base, Seq::empty())->0.scheme == base.scheme,
        spec_join(base, Seq::empty())->0.username == base.username,
        spec_join(base, Seq::empty())->0.password == base.password,
        spec_join(base, Seq::empty())->0.host == base.host,
        spec_join(base, Seq::empty())->0.port == base.port,
        spec_join(base, Seq::empty())->0.path == base.path,
        spec_join(base, Seq::empty())->0.query is None,
        spec_join(base, Seq::empty())->0.fragment is None,
{
    let e = Seq::<u8>::empty();
    assert(spec_parse(e) is None) by {
        assert(spec_trim(e) =~= e);
    }
    assert(spec_trim(e) =~= e);
}

fn copy_bytes(s: &[u8]) -> (r: Vec<u8>)
    ensures
        r@ == s@,
{
    let r = subvec(s, 0, s.len());
    proof {
        assert(s@.subrange(0, s@.len() as int) =~= s@);
    }
    r
}

fn copy_opt(o: &Option<Vec<u8>>) -> (r: Option<Vec<u8>>)
    ensures
        opt_bytes(r) == opt_bytes(*o),
{
    match o {
        Some(v) => Some(copy_bytes(v.as_slice())),
        None => None,
    }
}

/// Copy of the first `n` segments.
#[verifier::loop_isolation(false)]
fn copy_seg_prefix(segs: &Vec<Vec<u8>>, n: usize) -> (r: Vec<Vec<u8>>)
    requires
        n <= segs@.len(),
    ensures
        r.deep_view() == segs.deep_view().take(n as int),
{
    let mut out: Vec<Vec<u8>> = Vec::new();
    let mut i: usize = 0;
    while i < n
        invariant
            i <= n <= segs@.len(),
            out.deep_view() == segs.deep_view().take(i as int),
        decreases n - i,
    {
        let ghost pre = out.deep_view();
        out.push(copy_bytes(segs[i].as_slice()));
        i = i + 1;
        proof {
            lemma_dv(out);
            lemma_dv(*segs);
            assert(out.deep_view() =~= segs.deep_view().take(i as int));
        }
    }
    out
}

/// The scheme-copying parts of the base that every relative form keeps.
fn base_parts(base: &Url) -> (r: (Vec<u8>, Vec<u8>, Option<Vec<u8>>, Option<Vec<u8>>))
    ensures
        r.0@ == base@.scheme,
        r.1@ == base@.username,
        opt_bytes(r.2) == base@.password,
        opt_bytes(r.3) == base@.host,
{
    (
        copy_bytes(base.scheme.as_slice()),
        copy_bytes(base.username.as_slice()),
        copy_opt(&base.password),
        copy_opt(&base.host),
    )
}

/// Copy of the base path.
fn copy_path(p: &UrlPath) -> (r: UrlPath)
    ensures
        ({
            let pm = match r {
                UrlPath::Opaque(o) => PathModel::Opaque(o@),
                UrlPath::Segments(v) => PathModel::Segments(v.deep_view()),
            };
            let bm = match *p {
                UrlPath::Opaque(o) => PathModel::Opaque(o@),
                UrlPath::Segments(v) => PathModel::Segments(v.deep_view()),
            };
            pm == bm
        }),
{
    match p {
        UrlPath::Opaque(o) => UrlPath::Opaque(copy_bytes(o.as_slice())),
        UrlPath::Segments(v) => {
            let c = copy_seg_prefix(v, v.len());
            proof {
                assert(v.deep_view().take(v@.len() as int) =~= v.deep_view());
            }
            UrlPath::Segments(c)
        },
    }
}

/// Resolve `reference` against an already-parsed base. Fails only on a
/// relative reference against a URL that cannot be a base, or on a bad
/// authority in the reference; the error carries the reference.
#[verifier::rlimit(100)]
pub fn join_parsed(base: &Url, reference: &[u8]) -> (r: Result<Url, TypstError>)
    requires
        utf8_valid(reference@),
    ensures
        match r {
            Ok(u) => spec_join(base@, reference@) == Some(u@),
            Err(e) => spec_join(base@, reference@) is None && (e matches TypstError::ParseError {
                input,
                ..
            } && input@ == reference@),
        },
{
    match parse_url(reference) {
        Ok(u) => {
            return Ok(u);
        },
        Err(TypstError::InputError { .. }) => {
            proof {
                assert(false);
            }
            return Err(
                TypstError::ParseError {
                    input: copy_bytes(reference),
                    reason: ParseReason::BadScheme,
                },
            );
        },
        Err(TypstError::ParseError { .. }) => {},
    }
    let s = trim_bytes(reference);
    let parts = base_parts(base);
    if base.cannot_be_a_base() {
        if s.len() >= 1 && s[0] == 0x23 {
            let f = percent_encode(EncodeSet::Fragment, slice_subrange(s.as_slice(), 1, s.len()));
            proof {
                assert(s@.subrange(1, s@.len() as int) =~= s@.skip(1));
            }
            let u = Url {
                scheme: parts.0,
                username: parts.1,
                password: parts.2,
                host: parts.3,
                port: base.port,
                path: copy_path(&base.path),
                query: copy_opt(&base.query),
                fragment: Some(f),
            };
            proof {
                assert(spec_join(base@, reference@)->0 =~= u@);
            }
            return Ok(u);
        }
        return Err(
            TypstError::ParseError {
                input: copy_bytes(reference),
                reason: ParseReason::RelativeWithCannotBeABase,
            },
        );
    }
    let special = crate::model::is_special_scheme(base.scheme.as_slice());
    if s.len() == 0 {
        let u = Url {
            scheme: parts.0,
            username: parts.1,
            password: parts.2,
            host: parts.3,
            port: base.port,
            path: copy_path(&base.path),
            query: None,
            fragment: None,
        };
        proof {
            assert(spec_join(base@, reference@)->0 =~= u@);
        }
        Ok(u)
    } else if s[0] == 0x23 {
        let f = percent_encode(EncodeSet::Fragment, slice_subrange(s.as_slice(), 1, s.len()));
        proof {
            assert(s@.subrange(1, s@.len() as int) =~= s@.skip(1));
        }
        let u = Url {
            scheme: parts.0,
            username: parts.1,
            password: parts.2,
            host: parts.3,
            port: base.port,
            path: copy_path(&base.path),
            query: copy_opt(&base.query),
            fragment: Some(f),
        };
        proof {
            assert(spec_join(base@, reference@)->0 =~= u@);
        }
        Ok(u)
    } else if s[0] == 0x3F {
        let qf = parse_qf(s.as_slice());
        let u = Url {
            scheme: parts.0,
            username: parts.1,
            password: parts.2,
            host: parts.3,
            port: base.port,
            path: copy_path(&base.path),
            query: qf.0,
            fragment: qf.1,
        };
        proof {
            assert(spec_join(base@, reference@)->0 =~= u@);
        }
        Ok(u)
    } else if s.len() >= 2 && (s[0] == 0x2F || (special && s[0] == 0x5C)) && (s[1] == 0x2F || (
    special && s[1] == 0x5C)) {
        let t = slice_subrange(s.as_slice(), 2, s.len());
        proof {
            assert(t@ =~= s@.skip(2));
        }
        crate::parse::parse_authority(reference, parts.0, t, special)
    } else if s[0] == 0x2F || (special && s[0] == 0x5C) {
        let pe = scan_from(s.as_slice(), 0, StopKind::QueryOrHash);
        let inner = slice_subrange(s.as_slice(), 1, pe);
        let segs = crate::parse::rm_dots_exec(split_enc(inner, special));
        let qf = parse_qf(slice_subrange(s.as_slice(), pe, s.len()));
        proof {
            assert(s@.subrange(pe as int, s@.len() as int) =~= s@.skip(pe as int));
        }
        let u = Url {
            scheme: parts.0,
            username: parts.1,
            password: parts.2,
            host: parts.3,
            port: base.port,
            path: UrlPath::Segments(segs),
            query: qf.0,
            fragment: qf.1,
        };
        proof {
            assert(spec_join(base@, reference@)->0 =~= u@);
        }
        Ok(u)
    } else {
        let pe = scan_from(s.as_slice(), 0, StopKind::QueryOrHash);
        let rawp = slice_subrange(s.as_slice(), 0, pe);
        proof {
            assert(rawp@ =~= s@.take(pe as int));
        }
        let pieces = split_enc(rawp, special);
        let dir: Vec<Vec<u8>> = match &base.path {
            UrlPath::Segments(bsegs) => {
                if bsegs.len() > 0 {
                    let d = copy_seg_prefix(bsegs, bsegs.len() - 1);
                    proof {
                        assert(bsegs.deep_view().take(bsegs@.len() - 1)
                            =~= bsegs.deep_view().drop_last());
                    }
                    d
                } else {
                    let d = copy_seg_prefix(bsegs, 0);
                    proof {
                        assert(bsegs.deep_view().take(0) =~= bsegs.deep_view());
                    }
                    d
                }
            },
            UrlPath::Opaque(_) => {
                proof {
                    assert(false);
                }
                Vec::new()
            },
        };
        let segs = rm_dots_from(dir, pieces);
        let qf = parse_qf(slice_subrange(s.as_slice(), pe, s.len()));
        proof {
            assert(s@.subrange(pe as int, s@.len() as int) =~= s@.skip(pe as int));
        }
        let u = Url {
            scheme: parts.0,
            username: parts.1,
            password: parts.2,
            host: parts.3,
            port: base.port,
            path: UrlPath::Segments(segs),
            query: qf.0,
            fragment: qf.1,
        };
        proof {
            assert(spec_join(base@, reference@)->0 =~= u@);
        }
        Ok(u)
    }
}

} // verus!
