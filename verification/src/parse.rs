//! The scanner/parser: one pass over the trimmed input — scheme, optional
//! authority (userinfo, host, port), path (segments or opaque), query and
//! fragment — with component-specific percent-normalization.

use vstd::prelude::*;
use vstd::slice::slice_subrange;

use crate::ascii::{
    all_digits, dec_val, is_ascii_alpha, lower_bytes, parse_port_digits, spec_is_alpha, spec_lower,
};
use crate::model::{
    default_port, host_norm, is_file, is_file_scheme, is_special_scheme, spec_default_port,
    spec_host_norm, spec_is_special, ParseReason, PathModel, TypstError, Url, UrlModel, UrlPath,
};
use crate::percent::{percent_encode, spec_enc, EncodeSet};
use crate::scan::{
    rm_dots, rm_rec, scan, scan_from, seq_dot, seq_dotdot, spec_trim, split_seps, stop_fn,
    stop_spec, subvec, trim_bytes, StopKind,
};
use crate::utf8::{utf8_check, utf8_fail_from, utf8_valid};

verus! {

pub open spec fn opt_bytes(o: Option<Vec<u8>>) -> Option<Seq<u8>> {
    match o {
        Some(v) => Some(v@),
        None => None,
    }
}

/// Index of the `:` ending a valid scheme, if the input starts with one.
pub open spec fn sp_scheme_end(s: Seq<u8>) -> Option<int> {
    if s.len() >= 1 && spec_is_alpha(s[0]) {
        let e = scan(s, 1, stop_fn(StopKind::NonScheme));
        if e < s.len() && s[e] == 0x3A {
            Some(e)
        } else {
            None
        }
    } else {
        None
    }
}

/// Query and fragment from the tail that follows the path.
pub open spec fn sp_qf(t: Seq<u8>) -> (Option<Seq<u8>>, Option<Seq<u8>>) {
    if t.len() >= 1 && t[0] == 0x3F {
        let qe = scan(t, 1, stop_fn(StopKind::Hash));
        let q = Some(spec_enc(EncodeSet::Query, t.subrange(1, qe)));
        if qe < t.len() {
            (q, Some(spec_enc(EncodeSet::Fragment, t.skip(qe + 1))))
        } else {
            (q, None)
        }
    } else if t.len() >= 1 && t[0] == 0x23 {
        (None, Some(spec_enc(EncodeSet::Fragment, t.skip(1))))
    } else {
        (None, None)
    }
}

/// Normalized segments of a raw path: split, percent-encode each piece,
/// remove dot segments.
pub open spec fn sp_segs(rawp: Seq<u8>, special: bool) -> Seq<Seq<u8>> {
    rm_dots(
        split_seps(rawp, special).map_values(|p: Seq<u8>| spec_enc(EncodeSet::PathSeg, p)),
    )
}

/// Path after an authority: empty, or starting with a separator.
pub open spec fn sp_segs_after_auth(rawp: Seq<u8>, special: bool) -> Seq<Seq<u8>> {
    if rawp.len() == 0 {
        if special {
            seq![Seq::<u8>::empty()]
        } else {
            Seq::empty()
        }
    } else {
        sp_segs(rawp.skip(1), special)
    }
}

/// Authority, path, query and fragment of `t`, the text after the scheme's
/// slashes, for a URL with a host.
pub open spec fn sp_authority(scheme: Seq<u8>, t: Seq<u8>, special: bool) -> Option<UrlModel> {
    let ae = scan(t, 0, stop_fn(StopKind::AuthEnd(special)));
    let auth = t.take(ae);
    let after = t.skip(ae);
    let ui_hp = match crate::scan::last_index(auth, 0x40) {
        Some(a) => (auth.take(a), auth.skip(a + 1)),
        None => (Seq::<u8>::empty(), auth),
    };
    let ui = ui_hp.0;
    let hp = ui_hp.1;
    let ci = scan(ui, 0, stop_fn(StopKind::Colon));
    let username = spec_enc(EncodeSet::UserInfo, ui.take(ci));
    let password = if ci < ui.len() {
        Some(spec_enc(EncodeSet::UserInfo, ui.skip(ci + 1)))
    } else {
        None
    };
    let hp_split = if hp.len() >= 1 && hp[0] == 0x5B {
        let ce = scan(hp, 0, stop_fn(StopKind::RBracket));
        if ce == hp.len() {
            None
        } else {
            Some((hp.take(ce + 1), hp.skip(ce + 1)))
        }
    } else {
        let ci2 = scan(hp, 0, stop_fn(StopKind::Colon));
        Some((hp.take(ci2), hp.skip(ci2)))
    };
    match hp_split {
        None => None,
        Some(pair) => match spec_host_norm(pair.0) {
            None => None,
            Some(h) => if special && !is_file(scheme) && h.len() == 0 {
                None
            } else {
                let pp = pair.1;
                let port_r: Option<Option<u16>> = if pp.len() == 0 {
                    Some(None)
                } else if pp[0] != 0x3A {
                    None
                } else {
                    let pd = pp.skip(1);
                    if pd.len() >= 1 && all_digits(pd) && dec_val(pd) <= 65535 {
                        if spec_default_port(scheme) == Some(dec_val(pd) as u16) {
                            Some(None)
                        } else {
                            Some(Some(dec_val(pd) as u16))
                        }
                    } else {
                        None
                    }
                };
                match port_r {
                    None => None,
                    Some(port) => {
                        let pe = scan(after, 0, stop_fn(StopKind::QueryOrHash));
                        let segs = sp_segs_after_auth(after.take(pe), special);
                        let qf = sp_qf(after.skip(pe));
                        Some(
                            UrlModel {
                                scheme,
                                username,
                                password,
                                host: Some(h),
                                port,
                                path: PathModel::Segments(segs),
                                query: qf.0,
                                fragment: qf.1,
                            },
                        )
                    },
                }
            },
        },
    }
}

/// A file URL without `//`: empty host, the rest is the path.
pub open spec fn sp_file_no_auth(scheme: Seq<u8>, rest: Seq<u8>) -> Option<UrlModel> {
    let t = if rest.len() >= 1 && crate::scan::is_sep(rest[0], true) {
        rest.skip(1)
    } else {
        rest
    };
    let pe = scan(t, 0, stop_fn(StopKind::QueryOrHash));
    let segs = sp_segs(t.take(pe), true);
    let qf = sp_qf(t.skip(pe));
    Some(
        UrlModel {
            scheme,
            username: Seq::empty(),
            password: None,
            host: Some(Seq::empty()),
            port: None,
            path: PathModel::Segments(segs),
            query: qf.0,
            fragment: qf.1,
        },
    )
}

/// A non-special URL with a rooted path and no authority.
pub open spec fn sp_no_auth(scheme: Seq<u8>, rest: Seq<u8>) -> Option<UrlModel> {
    let pe = scan(rest, 0, stop_fn(StopKind::QueryOrHash));
    let segs = sp_segs(rest.subrange(1, pe), false);
    let qf = sp_qf(rest.skip(pe));
    Some(
        UrlModel {
            scheme,
            username: Seq::empty(),
            password: None,
            host: None,
            port: None,
            path: PathModel::Segments(segs),
            query: qf.0,
            fragment: qf.1,
        },
    )
}

/// A non-special URL whose remainder does not start with `/`: the path is
/// opaque and the URL cannot be a base.
pub open spec fn sp_opaque(scheme: Seq<u8>, rest: Seq<u8>) -> Option<UrlModel> {
    let pe = scan(rest, 0, stop_fn(StopKind::QueryOrHash));
    let o = spec_enc(EncodeSet::Opaque, rest.take(pe));
    let qf = sp_qf(rest.skip(pe));
    Some(
        UrlModel {
            scheme,
            username: Seq::empty(),
            password: None,
            host: None,
            port: None,
            path: PathModel::Opaque(o),
            query: qf.0,
            fragment: qf.1,
        },
    )
}

/// The whole parse of a decoded (UTF-8-valid) byte string.
pub open spec fn spec_parse(raw: Seq<u8>) -> Option<UrlModel> {
    let s = spec_trim(raw);
    match sp_scheme_end(s) {
        None => None,
        Some(e) => {
            let scheme = spec_lower(s.take(e));
            let rest = s.skip(e + 1);
            if is_file(scheme) {
                if rest.len() >= 2 && crate::scan::is_sep(rest[0], true) && crate::scan::is_sep(
                    rest[1],
                    true,
                ) {
                    sp_authority(scheme, rest.skip(2), true)
                } else {
                    sp_file_no_auth(scheme, rest)
                }
            } else if spec_is_special(scheme) {
                let k = scan(rest, 0, stop_fn(StopKind::NonSlash));
                sp_authority(scheme, rest.skip(k), true)
            } else if rest.len() >= 2 && rest[0] == 0x2F && rest[1] == 0x2F {
                sp_authority(scheme, rest.skip(2), false)
            } else if rest.len() >= 1 && rest[0] == 0x2F {
                sp_no_auth(scheme, rest)
            } else {
                sp_opaque(scheme, rest)
            }
        },
    }
}

/// Split a raw path on separators and percent-encode each piece.
pub(crate) fn split_enc(s: &[u8], special: bool) -> (r: Vec<Vec<u8>>)
    ensures
        r.deep_view() == split_seps(s@, special).map_values(
            |p: Seq<u8>| spec_enc(EncodeSet::PathSeg, p),
        ),
    decreases s@.len(),
{
    let ef = Ghost(|p: Seq<u8>| spec_enc(EncodeSet::PathSeg, p));
    proof {
        assert(stop_fn(StopKind::Sep(special)) =~= (|b: u8| crate::scan::is_sep(b, special)));
    }
    let k = scan_from(s, 0, StopKind::Sep(special));
    let piece = percent_encode(EncodeSet::PathSeg, slice_subrange(s, 0, k));
    let ghost pv = piece@;
    let mut out: Vec<Vec<u8>> = Vec::new();
    if k == s.len() {
        proof {
            assert(s@.take(k as int) =~= s@);
        }
        out.push(piece);
        proof {
            crate::scan::lemma_dv(out);
            assert(split_seps(s@, special) == seq![s@]);
            assert(out.deep_view() =~= split_seps(s@, special).map_values(ef@));
        }
        out
    } else {
        let rest = slice_subrange(s, k + 1, s.len());
        let mut tail = split_enc(rest, special);
        let ghost tv = tail.deep_view();
        proof {
            crate::scan::lemma_dv(tail);
        }
        let ghost ts = tail@;
        out.push(piece);
        out.append(&mut tail);
        proof {
            crate::scan::lemma_dv(out);
            assert(rest@ =~= s@.skip(k as int + 1));
            assert(s@.take(k as int) =~= s@.subrange(0, k as int));
            let rhs = split_seps(s@, special).map_values(ef@);
            assert(split_seps(s@, special) == seq![s@.take(k as int)] + split_seps(
                s@.skip(k as int + 1),
                special,
            ));
            assert(out@ =~= seq![piece] + ts);
            assert forall|i: int| 0 <= i < out@.len() implies out.deep_view()[i] == rhs[i] by {
                if i == 0 {
                    assert(out@[0] == piece);
                    assert(rhs[0] == ef@(s@.take(k as int)));
                } else {
                    assert(out@[i] == ts[i - 1]);
                    assert(tv[i - 1] == ts[i - 1]@);
                    assert(rhs[i] == ef@(split_seps(s@.skip(k as int + 1), special)[i - 1]));
                }
            }
            assert(out.deep_view() =~= rhs);
        }
        out
    }
}

/// Dot-segment removal over segment vectors.
pub(crate) fn rm_dots_exec(pieces: Vec<Vec<u8>>) -> (r: Vec<Vec<u8>>)
    ensures
        r.deep_view() == rm_dots(pieces.deep_view()),
{
    let out: Vec<Vec<u8>> = Vec::new();
    proof {
        assert(out.deep_view() =~= Seq::<Seq<u8>>::empty());
    }
    rm_dots_from(out, pieces)
}

/// Dot-segment removal onto an existing output stack: the merge step of
/// relative reference resolution.
#[verifier::loop_isolation(false)]
pub fn rm_dots_from(start: Vec<Vec<u8>>, pieces: Vec<Vec<u8>>) -> (r: Vec<Vec<u8>>)
    ensures
        r.deep_view() == rm_rec(start.deep_view(), pieces.deep_view()),
{
    let ghost full = pieces.deep_view();
    let ghost seed = start.deep_view();
    let mut out: Vec<Vec<u8>> = start;
    let mut i: usize = 0;
    proof {
        assert(full.skip(0) =~= full);
    }
    while i < pieces.len()
        invariant
            i <= pieces@.len(),
            rm_rec(seed, full) == rm_rec(out.deep_view(), full.skip(i as int)),
        decreases pieces@.len() - i,
    {
        let ghost pre = out.deep_view();
        let ghost pres = out@;
        proof {
            crate::scan::lemma_dv(out);
            crate::scan::lemma_dv(pieces);
        }
        let p = &pieces[i];
        let is_dot = p.len() == 1 && p[0] == 0x2E;
        let is_dd = p.len() == 2 && p[0] == 0x2E && p[1] == 0x2E;
        let at_end = i + 1 == pieces.len();
        proof {
            let h = full[i as int];
            assert(h == pieces@[i as int]@);
            assert(full.skip(i as int)[0] == h);
            assert(full.skip(i as int).skip(1) =~= full.skip(i as int + 1));
            if is_dot {
                assert(h =~= seq_dot());
            } else {
                if h == seq_dot() {
                    assert(false);
                }
            }
            if is_dd {
                assert(h =~= seq_dotdot());
            } else {
                if h == seq_dotdot() {
                    assert(false);
                }
            }
        }
        if is_dot {
            if at_end {
                out.push(Vec::new());
                proof {
                    crate::scan::lemma_dv(out);
                    assert(out.deep_view() =~= pre.push(Seq::<u8>::empty()));
                }
            }
        } else if is_dd {
            if out.len() > 0 {
                out.pop();
                proof {
                    crate::scan::lemma_dv(out);
                    assert(out.deep_view() =~= pre.drop_last());
                }
            }
            let ghost mid = out.deep_view();
            let ghost mids = out@;
            proof {
                crate::scan::lemma_dv(out);
            }
            if at_end {
                out.push(Vec::new());
                proof {
                    crate::scan::lemma_dv(out);
                    assert(out@ =~= mids.push(out@[out@.len() - 1]));
                    assert(out.deep_view() =~= mid.push(Seq::<u8>::empty()));
                }
            }
        } else {
            let cp = subvec(p.as_slice(), 0, p.len());
            proof {
                assert(cp@ =~= full[i as int]);
            }
            out.push(cp);
            proof {
                crate::scan::lemma_dv(out);
                assert(out.deep_view() =~= pre.push(full[i as int]));
            }
        }
        i = i + 1;
    }
    proof {
        assert(full.skip(full.len() as int) =~= Seq::<Seq<u8>>::empty());
    }
    out
}

/// Query and fragment of the tail after the path.
pub(crate) fn parse_qf(t: &[u8]) -> (r: (Option<Vec<u8>>, Option<Vec<u8>>))
    ensures
        opt_bytes(r.0) == sp_qf(t@).0,
        opt_bytes(r.1) == sp_qf(t@).1,
{
    if t.len() >= 1 && t[0] == 0x3F {
        let qe = scan_from(t, 1, StopKind::Hash);
        let q = percent_encode(EncodeSet::Query, slice_subrange(t, 1, qe));
        proof {
            assert(t@.subrange(1, qe as int) == t@.subrange(1, qe as int));
        }
        if qe < t.len() {
            let f = percent_encode(EncodeSet::Fragment, slice_subrange(t, qe + 1, t.len()));
            proof {
                assert(t@.subrange(qe + 1, t@.len() as int) =~= t@.skip(qe + 1));
            }
            (Some(q), Some(f))
        } else {
            (Some(q), None)
        }
    } else if t.len() >= 1 && t[0] == 0x23 {
        let f = percent_encode(EncodeSet::Fragment, slice_subrange(t, 1, t.len()));
        proof {
            assert(t@.subrange(1, t@.len() as int) =~= t@.skip(1));
        }
        (None, Some(f))
    } else {
        (None, None)
    }
}

/// Path, query and fragment after an authority.
fn parse_after_auth(after: &[u8], special: bool) -> (r: (
    Vec<Vec<u8>>,
    Option<Vec<u8>>,
    Option<Vec<u8>>,
))
    ensures
        ({
            let pe = scan(after@, 0, stop_fn(StopKind::QueryOrHash));
            &&& r.0.deep_view() == sp_segs_after_auth(after@.take(pe), special)
            &&& opt_bytes(r.1) == sp_qf(after@.skip(pe)).0
            &&& opt_bytes(r.2) == sp_qf(after@.skip(pe)).1
        }),
{
    let pe = scan_from(after, 0, StopKind::QueryOrHash);
    let rawp = slice_subrange(after, 0, pe);
    let segs: Vec<Vec<u8>> = if rawp.len() == 0 {
        let mut v: Vec<Vec<u8>> = Vec::new();
        if special {
            v.push(Vec::new());
            proof {
                crate::scan::lemma_dv(v);
                assert(v.deep_view() =~= seq![Seq::<u8>::empty()]);
            }
        } else {
            proof {
                assert(v.deep_view() =~= Seq::<Seq<u8>>::empty());
            }
        }
        v
    } else {
        let inner = slice_subrange(after, 1, pe);
        proof {
            assert(inner@ =~= after@.take(pe as int).skip(1));
        }
        rm_dots_exec(split_enc(inner, special))
    };
    let qf = parse_qf(slice_subrange(after, pe, after.len()));
    proof {
        assert(after@.subrange(pe as int, after@.len() as int) =~= after@.skip(pe as int));
    }
    (segs, qf.0, qf.1)
}

/// Authority and everything after it. `t` is the text following the
/// scheme's slashes; errors carry the whole original input.
#[verifier::rlimit(100)]
pub(crate) fn parse_authority(orig: &[u8], scheme: Vec<u8>, t: &[u8], special: bool) -> (r: Result<
    Url,
    TypstError,
>)
    ensures
        match r {
            Ok(u) => sp_authority(scheme@, t@, special) == Some(u@),
            Err(e) => sp_authority(scheme@, t@, special) is None && (e matches
            TypstError::ParseError { input, .. } && input@ == orig@),
        },
{
    let ae = scan_from(t, 0, StopKind::AuthEnd(special));
    let auth = slice_subrange(t, 0, ae);
    let after = slice_subrange(t, ae, t.len());
    proof {
        assert(after@ =~= t@.skip(ae as int));
        assert(auth@ =~= t@.take(ae as int));
    }
    let at = crate::scan::rfind_byte(auth, 0x40);
    let (ui, hp) = match at {
        Some(a) => {
            let ui = slice_subrange(auth, 0, a);
            let hp = slice_subrange(auth, a + 1, auth.len());
            proof {
                assert(ui@ =~= auth@.take(a as int));
                assert(hp@ =~= auth@.skip(a as int + 1));
            }
            (ui, hp)
        },
        None => {
            let ui = slice_subrange(auth, 0, 0);
            proof {
                assert(ui@ =~= Seq::<u8>::empty());
            }
            (ui, auth)
        },
    };
    let ci = scan_from(ui, 0, StopKind::Colon);
    let username = percent_encode(EncodeSet::UserInfo, slice_subrange(ui, 0, ci));
    proof {
        assert(ui@.subrange(0, ci as int) =~= ui@.take(ci as int));
    }
    let password: Option<Vec<u8>> = if ci < ui.len() {
        let pw = percent_encode(EncodeSet::UserInfo, slice_subrange(ui, ci + 1, ui.len()));
        proof {
            assert(ui@.subrange(ci + 1, ui@.len() as int) =~= ui@.skip(ci + 1));
        }
        Some(pw)
    } else {
        None
    };
    // Host and port.
    let (hraw, pp) = if hp.len() >= 1 && hp[0] == 0x5B {
        let ce = scan_from(hp, 0, StopKind::RBracket);
        if ce == hp.len() {
            return Err(
                TypstError::ParseError {
                    input: subvec(orig, 0, orig.len()),
                    reason: ParseReason::BadHost,
                },
            );
        }
        let hraw = slice_subrange(hp, 0, ce + 1);
        let pp = slice_subrange(hp, ce + 1, hp.len());
        proof {
            assert(hraw@ =~= hp@.take(ce as int + 1));
            assert(pp@ =~= hp@.skip(ce as int + 1));
        }
        (hraw, pp)
    } else {
        let ci2 = scan_from(hp, 0, StopKind::Colon);
        let hraw = slice_subrange(hp, 0, ci2);
        let pp = slice_subrange(hp, ci2, hp.len());
        proof {
            assert(hraw@ =~= hp@.take(ci2 as int));
            assert(pp@ =~= hp@.skip(ci2 as int));
        }
        (hraw, pp)
    };
    let host = match host_norm(hraw) {
        Some(h) => h,
        None => {
            return Err(
                TypstError::ParseError {
                    input: subvec(orig, 0, orig.len()),
                    reason: ParseReason::BadHost,
                },
            );
        },
    };
    if special && !is_file_scheme(scheme.as_slice()) && host.len() == 0 {
        return Err(
            TypstError::ParseError {
                input: subvec(orig, 0, orig.len()),
                reason: ParseReason::BadHost,
            },
        );
    }
    let port: Option<u16> = if pp.len() == 0 {
        None
    } else if pp[0] != 0x3A {
        return Err(
            TypstError::ParseError {
                input: subvec(orig, 0, orig.len()),
                reason: ParseReason::BadHost,
            },
        );
    } else {
        let pd = slice_subrange(pp, 1, pp.len());
        proof {
            assert(pd@ =~= pp@.skip(1));
        }
        match parse_port_digits(pd) {
            Some(v) => {
                match default_port(scheme.as_slice()) {
                    Some(d) if d == v => None,
                    _ => Some(v),
                }
            },
            None => {
                return Err(
                    TypstError::ParseError {
                        input: subvec(orig, 0, orig.len()),
                        reason: ParseReason::BadPort,
                    },
                );
            },
        }
    };
    let (segs, query, fragment) = parse_after_auth(after, special);
    let u = Url {
        scheme,
        username,
        password,
        host: Some(host),
        port,
        path: UrlPath::Segments(segs),
        query,
        fragment,
    };
    proof {
        assert(sp_authority(u.scheme@, t@, special) == Some(u@)) by {
            assert(u@.path =~= PathModel::Segments(
                sp_segs_after_auth(
                    t@.skip(ae as int).take(
                        scan(t@.skip(ae as int), 0, stop_fn(StopKind::QueryOrHash)),
                    ),
                    special,
                ),
            ));
            assert(sp_authority(u.scheme@, t@, special) is Some);
            assert(sp_authority(u.scheme@, t@, special)->0 =~= u@);
        }
    }
    Ok(u)
}

/// Parse raw bytes into a URL value: UTF-8 gate, trim, scheme, then either
/// an authority form, a rooted path, or an opaque path. All-or-nothing:
/// on failure no partial value is returned, and the error carries the
/// offending input.
#[verifier::rlimit(100)]
#[verifier::spinoff_prover]
pub fn parse_url(input: &[u8]) -> (r: Result<Url, TypstError>)
    ensures
        match r {
            Ok(u) => utf8_valid(input@) && spec_parse(input@) == Some(u@),
            Err(TypstError::InputError { input: inp, valid_up_to }) => inp@ == input@
                && utf8_fail_from(input@, 0) == Some(valid_up_to as int),
            Err(TypstError::ParseError { input: inp, .. }) => inp@ == input@ && utf8_valid(input@)
                && spec_parse(input@) is None,
        },
{
    if let Some(i) = utf8_check(input) {
        return Err(TypstError::InputError { input: subvec(input, 0, input.len()), valid_up_to: i });
    }
    let s = trim_bytes(input);
    let n = s.len();
    if n == 0 || !is_ascii_alpha(s[0]) {
        return Err(
            TypstError::ParseError {
                input: subvec(input, 0, input.len()),
                reason: ParseReason::BadScheme,
            },
        );
    }
    let e = scan_from(s.as_slice(), 1, StopKind::NonScheme);
    if e == n || s[e] != 0x3A {
        return Err(
            TypstError::ParseError {
                input: subvec(input, 0, input.len()),
                reason: ParseReason::BadScheme,
            },
        );
    }
    let scheme = lower_bytes(slice_subrange(s.as_slice(), 0, e));
    proof {
        assert(s@.subrange(0, e as int) =~= s@.take(e as int));
    }
    let rest = slice_subrange(s.as_slice(), e + 1, n);
    proof {
        assert(rest@ =~= s@.skip(e as int + 1));
    }
    if is_file_scheme(scheme.as_slice()) {
        if rest.len() >= 2 && (rest[0] == 0x2F || rest[0] == 0x5C) && (rest[1] == 0x2F || rest[1]
            == 0x5C) {
            let t = slice_subrange(rest, 2, rest.len());
            proof {
                assert(t@ =~= rest@.skip(2));
            }
            parse_authority(input, scheme, t, true)
        } else {
            let t = if rest.len() >= 1 && (rest[0] == 0x2F || rest[0] == 0x5C) {
                let t = slice_subrange(rest, 1, rest.len());
                proof {
                    assert(t@ =~= rest@.skip(1));
                }
                t
            } else {
                rest
            };
            let pe = scan_from(t, 0, StopKind::QueryOrHash);
            let rawp = slice_subrange(t, 0, pe);
            let segs = rm_dots_exec(split_enc(rawp, true));
            let qf = parse_qf(slice_subrange(t, pe, t.len()));
            proof {
                assert(t@.subrange(pe as int, t@.len() as int) =~= t@.skip(pe as int));
                assert(rawp@ =~= t@.take(pe as int));
            }
            let u = Url {
                scheme,
                username: Vec::new(),
                password: None,
                host: Some(Vec::new()),
                port: None,
                path: UrlPath::Segments(segs),
                query: qf.0,
                fragment: qf.1,
            };
            proof {
                assert(spec_parse(input@) == Some(u@)) by {
                    assert(sp_file_no_auth(u.scheme@, rest@) is Some);
                    assert(sp_file_no_auth(u.scheme@, rest@)->0 =~= u@);
                }
            }
            Ok(u)
        }
    } else if is_special_scheme(scheme.as_slice()) {
        let k = scan_from(rest, 0, StopKind::NonSlash);
        let t = slice_subrange(rest, k, rest.len());
        proof {
            assert(t@ =~= rest@.skip(k as int));
        }
        parse_authority(input, scheme, t, true)
    } else if rest.len() >= 2 && rest[0] == 0x2F && rest[1] == 0x2F {
        let t = slice_subrange(rest, 2, rest.len());
        proof {
            assert(t@ =~= rest@.skip(2));
        }
        parse_authority(input, scheme, t, false)
    } else if rest.len() >= 1 && rest[0] == 0x2F {
        let pe = scan_from(rest, 0, StopKind::QueryOrHash);
        let inner = slice_subrange(rest, 1, pe);
        let segs = rm_dots_exec(split_enc(inner, false));
        let qf = parse_qf(slice_subrange(rest, pe, rest.len()));
        proof {
            assert(rest@.subrange(pe as int, rest@.len() as int) =~= rest@.skip(pe as int));
        }
        let u = Url {
            scheme,
            username: Vec::new(),
            password: None,
            host: None,
            port: None,
            path: UrlPath::Segments(segs),
            query: qf.0,
            fragment: qf.1,
        };
        proof {
            assert(spec_parse(input@) == Some(u@)) by {
                assert(sp_no_auth(u.scheme@, rest@) is Some);
                assert(sp_no_auth(u.scheme@, rest@)->0 =~= u@);
            }
        }
        Ok(u)
    } else {
        let pe = scan_from(rest, 0, StopKind::QueryOrHash);
        let o = percent_encode(EncodeSet::Opaque, slice_subrange(rest, 0, pe));
        let qf = parse_qf(slice_subrange(rest, pe, rest.len()));
        proof {
            assert(rest@.subrange(0, pe as int) =~= rest@.take(pe as int));
            assert(rest@.subrange(pe as int, rest@.len() as int) =~= rest@.skip(pe as int));
        }
        let u = Url {
            scheme,
            username: Vec::new(),
            password: None,
            host: None,
            port: None,
            path: UrlPath::Opaque(o),
            query: qf.0,
            fragment: qf.1,
        };
        proof {
            assert(spec_parse(input@) == Some(u@)) by {
                assert(sp_opaque(u.scheme@, rest@) is Some);
                assert(sp_opaque(u.scheme@, rest@)->0 =~= u@);
            }
        }
        Ok(u)
    }
}

} // verus!
