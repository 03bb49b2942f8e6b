//! The normalization laws: parsing the serialization of a well-formed URL
//! yields it back unchanged, and every parsed URL is well-formed. From the
//! two, serialized output is a fixed point of parse-then-serialize.

use vstd::prelude::*;

use crate::ascii::{
    all_digits, dec_str, dec_val, lemma_dec_str_val, spec_is_alpha, spec_is_scheme_byte,
    spec_lower, spec_lower_byte,
};
use crate::model::{
    host_ok, is_file, lemma_host_canonical, spec_default_port, spec_host_norm, spec_is_special,
    PathModel, UrlModel,
};
use crate::percent::{enc_clean, is_safe, lemma_enc_clean, lemma_enc_id, spec_enc, EncodeSet};
use crate::scan::{
    dot_free, is_sep, last_index, lemma_last_index_concat, lemma_last_index_none,
    lemma_rm_rec_dotfree, lemma_scan_runs, lemma_split_ser, lemma_trim_identity, rm_dots, rm_rec,
    scan, sep_free, ser_segs, spec_trim, split_seps, stop_fn, stop_spec, StopKind,
};
use crate::parse::{
    sp_authority, sp_file_no_auth, sp_no_auth, sp_opaque, sp_qf, sp_scheme_end, sp_segs,
    sp_segs_after_auth, spec_parse,
};

verus! {

/// Every byte of `s` satisfies `p`.
pub open spec fn all_bytes(p: spec_fn(u8) -> bool, s: Seq<u8>) -> bool {
    forall|i: int| 0 <= i < s.len() ==> p(#[trigger] s[i])
}

/// The serialized port, `:` included; empty when there is none.
pub open spec fn ser_port_of(u: UrlModel) -> Seq<u8> {
    match u.port {
        Some(p) => seq![0x3Au8] + dec_str(p as nat),
        None => Seq::empty(),
    }
}

/// The authority text: userinfo, host, port.
pub open spec fn auth_of(u: UrlModel) -> Seq<u8> {
    u.ser_userinfo() + u.host->0 + ser_port_of(u)
}

/// Path, query and fragment text.
pub open spec fn tail_of(u: UrlModel) -> Seq<u8> {
    u.ser_path() + u.ser_query() + u.ser_fragment()
}

/// The text handed to the authority parser.
pub open spec fn t_of(u: UrlModel) -> Seq<u8> {
    auth_of(u) + tail_of(u)
}

pub proof fn lemma_all_concat(p: spec_fn(u8) -> bool, a: Seq<u8>, b: Seq<u8>)
    requires
        all_bytes(p, a),
        all_bytes(p, b),
    ensures
        all_bytes(p, a + b),
{
    assert forall|i: int| 0 <= i < (a + b).len() implies p((a + b)[i]) by {
        if i < a.len() {
            assert((a + b)[i] == a[i]);
        } else {
            assert((a + b)[i] == b[i - a.len()]);
        }
    }
}

/// Bytes of a serialized segment list: separators or clean segment bytes.
pub proof fn lemma_ser_segs_bytes(p: spec_fn(u8) -> bool, segs: Seq<Seq<u8>>)
    requires
        p(0x2F),
        forall|i: int| 0 <= i < segs.len() ==> all_bytes(p, #[trigger] segs[i]),
    ensures
        all_bytes(p, ser_segs(segs)),
    decreases segs.len(),
{
    if segs.len() > 0 {
        lemma_ser_segs_bytes(p, segs.skip(1));
        assert(all_bytes(p, seq![0x2Fu8]));
        lemma_all_concat(p, seq![0x2Fu8], segs[0]);
        lemma_all_concat(p, seq![0x2Fu8] + segs[0], ser_segs(segs.skip(1)));
        assert(ser_segs(segs) == seq![0x2Fu8] + segs[0] + ser_segs(segs.skip(1)));
        assert(seq![0x2Fu8] + segs[0] + ser_segs(segs.skip(1)) =~= (seq![0x2Fu8] + segs[0])
            + ser_segs(segs.skip(1)));
    }
}

/// Query and fragment round-trip: re-scanning the serialized tail yields
/// the stored components.
pub proof fn lemma_qf_roundtrip(u: UrlModel)
    requires
        u.wf(),
    ensures
        sp_qf(u.ser_query() + u.ser_fragment()) == (u.query, u.fragment),
{
    let t = u.ser_query() + u.ser_fragment();
    match u.query {
        Some(q) => {
            assert(t[0] == 0x3F);
            assert forall|j: int| 1 <= j < 1 + q.len() implies !stop_spec(StopKind::Hash, t[j]) by {
                assert(t[j] == q[j - 1]);
                assert(is_safe(EncodeSet::Query, q[j - 1]) || q[j - 1] == 0x25);
            }
            match u.fragment {
                Some(f) => {
                    assert(t[1 + q.len() as int] == 0x23);
                    lemma_scan_runs(t, 1, 1 + q.len() as int, stop_fn(StopKind::Hash));
                    assert(t.subrange(1, 1 + q.len() as int) =~= q);
                    lemma_enc_id(EncodeSet::Query, q);
                    assert(t.skip(2 + q.len() as int) =~= f);
                    lemma_enc_id(EncodeSet::Fragment, f);
                },
                None => {
                    assert(t =~= seq![0x3Fu8] + q);
                    lemma_scan_runs(t, 1, 1 + q.len() as int, stop_fn(StopKind::Hash));
                    assert(t.subrange(1, 1 + q.len() as int) =~= q);
                    lemma_enc_id(EncodeSet::Query, q);
                },
            }
        },
        None => {
            match u.fragment {
                Some(f) => {
                    assert(t =~= seq![0x23u8] + f);
                    assert(t[0] == 0x23);
                    assert(t.skip(1) =~= f);
                    lemma_enc_id(EncodeSet::Fragment, f);
                },
                None => {
                    assert(t =~= Seq::<u8>::empty());
                },
            }
        },
    }
}

/// Splitting, re-encoding and dot-removal give back a stored, clean,
/// dot-free segment list.
pub proof fn lemma_segs_roundtrip(segs: Seq<Seq<u8>>, special: bool)
    requires
        segs.len() >= 1,
        dot_free(segs),
        forall|i: int| 0 <= i < segs.len() ==> enc_clean(EncodeSet::PathSeg, #[trigger] segs[i]),
    ensures
        sp_segs(ser_segs(segs).skip(1), special) == segs,
{
    assert forall|i: int| 0 <= i < segs.len() implies sep_free(#[trigger] segs[i], special) by {
        assert forall|j: int| 0 <= j < segs[i].len() implies !is_sep(segs[i][j], special) by {
            assert(is_safe(EncodeSet::PathSeg, segs[i][j]) || segs[i][j] == 0x25);
        }
    }
    assert(ser_segs(segs) == seq![0x2Fu8] + segs[0] + ser_segs(segs.skip(1)));
    assert(ser_segs(segs).skip(1) =~= segs[0] + ser_segs(segs.skip(1)));
    lemma_split_ser(segs[0], segs.skip(1), special);
    assert(seq![segs[0]] + segs.skip(1) =~= segs);
    let ef = |p: Seq<u8>| spec_enc(EncodeSet::PathSeg, p);
    assert forall|i: int| 0 <= i < segs.len() implies segs.map_values(ef)[i] == segs[i] by {
        lemma_enc_id(EncodeSet::PathSeg, segs[i]);
    }
    assert(segs.map_values(ef) =~= segs);
    lemma_rm_rec_dotfree(Seq::empty(), segs);
    assert(Seq::<Seq<u8>>::empty() + segs =~= segs);
}

/// The authority scan stops exactly at the end of the authority text.
proof fn lemma_auth_span(u: UrlModel)
    requires
        u.wf(),
        u.host is Some,
    ensures
        ({
            let t = t_of(u);
            let ae = scan(t, 0, stop_fn(StopKind::AuthEnd(u.is_special())));
            &&& ae == auth_of(u).len()
            &&& t.take(ae) == auth_of(u)
            &&& t.skip(ae) == tail_of(u)
        }),
{
    let special = u.is_special();
    let h = u.host->0;
    let ui = u.ser_userinfo();
    let ps = ser_port_of(u);
    let path = u.ser_path();
    let qf = u.ser_query() + u.ser_fragment();
    let t = t_of(u);
    let stop = stop_fn(StopKind::AuthEnd(special));
    let alen = ui.len() + h.len() + ps.len();
    let okb = |b: u8| !stop_spec(StopKind::AuthEnd(special), b);
    assert(all_bytes(okb, ui)) by {
        assert forall|i: int| 0 <= i < ui.len() implies okb(ui[i]) by {
            if u.username.len() > 0 || u.password is Some {
                if i < u.username.len() {
                    assert(ui[i] == u.username[i]);
                } else {
                    match u.password {
                        Some(p) => {
                            if i > u.username.len() && i < ui.len() - 1 {
                                assert(ui[i] == p[i - u.username.len() - 1]);
                            }
                        },
                        None => {},
                    }
                }
            }
        }
    }
    assert(all_bytes(okb, h)) by {
        assert(host_ok(h));
    }
    assert(all_bytes(okb, ps)) by {
        match u.port {
            Some(p) => {
                lemma_dec_str_val(p as nat);
                assert forall|i: int| 0 <= i < ps.len() implies okb(ps[i]) by {
                    if i > 0 {
                        assert(ps[i] == dec_str(p as nat)[i - 1]);
                    }
                }
            },
            None => {},
        }
    }
    lemma_all_concat(okb, ui, h);
    lemma_all_concat(okb, ui + h, ps);
    assert(auth_of(u) =~= (ui + h) + ps);
    assert forall|j: int| 0 <= j < alen implies !stop(t[j]) by {
        assert(t[j] == ((ui + h) + ps)[j]);
    }
    assert(tail_of(u) =~= path + qf);
    if alen < t.len() {
        assert(t[alen as int] == (path + qf)[0]);
        match u.path {
            PathModel::Segments(segs) => {
                if segs.len() > 0 {
                    assert(path == ser_segs(segs));
                    assert(path[0] == 0x2F);
                } else {
                    assert(path.len() == 0);
                    assert((path + qf)[0] == qf[0]);
                    assert(qf[0] == 0x3F || qf[0] == 0x23);
                }
            },
            PathModel::Opaque(_) => {
                assert(false);
            },
        }
        assert(stop(t[alen as int]));
    }
    lemma_scan_runs(t, 0, alen as int, stop);
    assert(t.take(alen as int) =~= auth_of(u));
    assert(t.skip(alen as int) =~= tail_of(u));
}

/// Splitting the authority at the last `@` and the first `:` yields the
/// stored userinfo and the host-port text.
proof fn lemma_auth_userinfo(u: UrlModel)
    requires
        u.wf(),
        u.host is Some,
    ensures
        ({
            let auth = auth_of(u);
            let ui_hp = match last_index(auth, 0x40) {
                Some(a) => (auth.take(a), auth.skip(a + 1)),
                None => (Seq::<u8>::empty(), auth),
            };
            let ci = scan(ui_hp.0, 0, stop_fn(StopKind::Colon));
            &&& ui_hp.1 == u.host->0 + ser_port_of(u)
            &&& spec_enc(EncodeSet::UserInfo, ui_hp.0.take(ci)) == u.username
            &&& (if ci < ui_hp.0.len() {
                Some(spec_enc(EncodeSet::UserInfo, ui_hp.0.skip(ci + 1)))
            } else {
                None::<Seq<u8>>
            }) == u.password
        }),
{
    let h = u.host->0;
    let ui = u.ser_userinfo();
    let ps = ser_port_of(u);
    let auth = auth_of(u);
    let no_at = |b: u8| b != 0x40;
    let hp_expect = h + ps;
    assert(all_bytes(no_at, hp_expect)) by {
        assert(all_bytes(no_at, h)) by {
            assert(host_ok(h));
        }
        assert(all_bytes(no_at, ps)) by {
            match u.port {
                Some(p) => {
                    lemma_dec_str_val(p as nat);
                    assert forall|i: int| 0 <= i < ps.len() implies no_at(ps[i]) by {
                        if i > 0 {
                            assert(ps[i] == dec_str(p as nat)[i - 1]);
                        }
                    }
                },
                None => {},
            }
        }
        lemma_all_concat(no_at, h, ps);
    }
    if u.username.len() > 0 || u.password is Some {
        let before = u.username + (match u.password {
            Some(p) => seq![0x3Au8] + p,
            None => Seq::<u8>::empty(),
        });
        assert(ui =~= before + seq![0x40u8]);
        assert(auth =~= before + seq![0x40u8] + hp_expect);
        lemma_last_index_concat(before, hp_expect, 0x40);
        assert(last_index(auth, 0x40) == Some(before.len() as int));
        assert(auth.take(before.len() as int) =~= before);
        assert(auth.skip(before.len() as int + 1) =~= hp_expect);
        let cstop = stop_fn(StopKind::Colon);
        assert forall|j: int| 0 <= j < u.username.len() implies !cstop(before[j]) by {
            assert(before[j] == u.username[j]);
            assert(is_safe(EncodeSet::UserInfo, u.username[j]) || u.username[j] == 0x25);
        }
        match u.password {
            Some(p) => {
                assert(before[u.username.len() as int] == 0x3A);
                lemma_scan_runs(before, 0, u.username.len() as int, cstop);
                assert(before.take(u.username.len() as int) =~= u.username);
                assert(before.skip(u.username.len() as int + 1) =~= p);
                lemma_enc_id(EncodeSet::UserInfo, u.username);
                lemma_enc_id(EncodeSet::UserInfo, p);
            },
            None => {
                assert(before =~= u.username);
                lemma_scan_runs(before, 0, u.username.len() as int, cstop);
                assert(before.take(u.username.len() as int) =~= u.username);
                lemma_enc_id(EncodeSet::UserInfo, u.username);
            },
        }
    } else {
        assert(ui.len() == 0);
        assert(auth =~= hp_expect);
        lemma_last_index_none(auth, 0x40);
        lemma_enc_id(EncodeSet::UserInfo, Seq::empty());
        assert(scan(Seq::<u8>::empty(), 0, stop_fn(StopKind::Colon)) == 0);
        assert(Seq::<u8>::empty().take(0) =~= Seq::<u8>::empty());
        assert(u.username =~= Seq::<u8>::empty());
    }
}

/// The host-port text splits into the canonical host and the stored port.
proof fn lemma_auth_hostport(u: UrlModel)
    requires
        u.wf(),
        u.host is Some,
    ensures
        ({
            let h = u.host->0;
            let ps = ser_port_of(u);
            let hp = h + ps;
            let hp_split = if hp.len() >= 1 && hp[0] == 0x5B {
                let ce = scan(hp, 0, stop_fn(StopKind::RBracket));
                if ce == hp.len() {
                    None
                } else {
                    Some((hp.take(ce + 1), hp.skip(ce + 1)))
                }
            } else {
                let ci2 = scan(hp, 0, stop_fn(StopKind::Colon));
                Some((hp.take(ci2), hp.skip(ci2)))
            };
            &&& hp_split == Some((h, ps))
            &&& spec_host_norm(h) == Some(h)
            &&& (if ps.len() == 0 {
                Some(None::<u16>)
            } else if ps[0] != 0x3A {
                None
            } else {
                let pd = ps.skip(1);
                if pd.len() >= 1 && all_digits(pd) && dec_val(pd) <= 65535 {
                    if spec_default_port(u.scheme) == Some(dec_val(pd) as u16) {
                        Some(None)
                    } else {
                        Some(Some(dec_val(pd) as u16))
                    }
                } else {
                    None
                }
            }) == Some(u.port)
        }),
{
    let h = u.host->0;
    let ps = ser_port_of(u);
    let hp = h + ps;
    assert(host_ok(h));
    if h.len() >= 1 && h[0] == 0x5B {
        let rstop = stop_fn(StopKind::RBracket);
        assert(h[h.len() - 1] == 0x5D);
        assert forall|j: int| 0 <= j < h.len() - 1 implies !rstop(hp[j]) by {
            assert(hp[j] == h[j]);
            if j >= 1 {
                assert(crate::model::is_v6_byte(h[j]));
            }
        }
        assert(hp[h.len() - 1] == 0x5D);
        lemma_scan_runs(hp, 0, h.len() - 1, rstop);
        assert(hp.take(h.len() as int) =~= h);
        assert(hp.skip(h.len() as int) =~= ps);
    } else {
        let cstop = stop_fn(StopKind::Colon);
        assert forall|j: int| 0 <= j < h.len() implies !cstop(hp[j]) by {
            assert(hp[j] == h[j]);
            assert(crate::model::is_reg_byte(h[j]));
        }
        match u.port {
            Some(p) => {
                assert(hp[h.len() as int] == 0x3A);
                lemma_scan_runs(hp, 0, h.len() as int, cstop);
            },
            None => {
                assert(hp =~= h);
                lemma_scan_runs(hp, 0, h.len() as int, cstop);
            },
        }
        assert(hp.take(h.len() as int) =~= h);
        assert(hp.skip(h.len() as int) =~= ps);
    }
    lemma_host_canonical(h);
    match u.port {
        Some(p) => {
            lemma_dec_str_val(p as nat);
            assert(ps[0] == 0x3A);
            assert(ps.skip(1) =~= dec_str(p as nat));
        },
        None => {},
    }
}

/// The path, query and fragment after an authority re-parse to the stored
/// components.
proof fn lemma_auth_tail(u: UrlModel)
    requires
        u.wf(),
        u.host is Some,
    ensures
        ({
            let after = tail_of(u);
            let pe = scan(after, 0, stop_fn(StopKind::QueryOrHash));
            &&& u.path == PathModel::Segments(
                sp_segs_after_auth(after.take(pe), u.is_special()),
            )
            &&& sp_qf(after.skip(pe)) == (u.query, u.fragment)
        }),
{
    let special = u.is_special();
    let path = u.ser_path();
    let qf = u.ser_query() + u.ser_fragment();
    let after = tail_of(u);
    assert(after =~= path + qf);
    let qstop = stop_fn(StopKind::QueryOrHash);
    match u.path {
        PathModel::Segments(segs) => {
            let pb = |b: u8| b == 0x2F || is_safe(EncodeSet::PathSeg, b) || b == 0x25;
            assert forall|i: int| 0 <= i < segs.len() implies all_bytes(pb, #[trigger] segs[i]) by {
                assert(enc_clean(EncodeSet::PathSeg, segs[i]));
            }
            lemma_ser_segs_bytes(pb, segs);
            assert(path == ser_segs(segs));
            assert forall|j: int| 0 <= j < path.len() implies !qstop(after[j]) by {
                assert(after[j] == path[j]);
                assert(pb(path[j]));
            }
            if path.len() < after.len() {
                assert(after[path.len() as int] == qf[0]);
                assert(qf[0] == 0x3F || qf[0] == 0x23);
            }
            lemma_scan_runs(after, 0, path.len() as int, qstop);
            assert(after.take(path.len() as int) =~= path);
            assert(after.skip(path.len() as int) =~= qf);
            if segs.len() == 0 {
                assert(!special);
                assert(sp_segs_after_auth(path, special) =~= segs);
            } else {
                lemma_segs_roundtrip(segs, special);
                assert(path[0] == 0x2F);
                assert(path.skip(1) == ser_segs(segs).skip(1));
                assert(sp_segs_after_auth(path, special) == segs);
            }
            lemma_qf_roundtrip(u);
        },
        PathModel::Opaque(_) => {
            assert(false);
        },
    }
}

/// The authority parser recovers a well-formed URL with a host from its
/// serialized authority and tail.
pub proof fn lemma_auth_roundtrip(u: UrlModel)
    requires
        u.wf(),
        u.host is Some,
    ensures
        sp_authority(u.scheme, t_of(u), u.is_special()) == Some(u),
{
    lemma_auth_span(u);
    lemma_auth_userinfo(u);
    lemma_auth_hostport(u);
    lemma_auth_tail(u);
    let special = u.is_special();
    assert(u.host->0.len() == 0 ==> !(special && !is_file(u.scheme)));
    assert(sp_authority(u.scheme, t_of(u), special) is Some);
    assert(sp_authority(u.scheme, t_of(u), special)->0 =~= u);
}

/// All bytes of a well-formed URL's serialization are above space, so
/// trimming leaves it unchanged.
proof fn lemma_ser_gt20(u: UrlModel)
    requires
        u.wf(),
    ensures
        spec_trim(u.ser()) == u.ser(),
{
    let p = |b: u8| b > 0x20;
    assert(all_bytes(p, u.scheme));
    assert(all_bytes(p, u.ser_userinfo())) by {
        let ui = u.ser_userinfo();
        assert forall|i: int| 0 <= i < ui.len() implies p(ui[i]) by {
            if u.username.len() > 0 || u.password is Some {
                if i < u.username.len() {
                    assert(ui[i] == u.username[i]);
                    assert(is_safe(EncodeSet::UserInfo, ui[i]) || ui[i] == 0x25);
                } else {
                    match u.password {
                        Some(pw) => {
                            if i > u.username.len() && i < ui.len() - 1 {
                                assert(ui[i] == pw[i - u.username.len() - 1]);
                                assert(is_safe(EncodeSet::UserInfo, ui[i]) || ui[i] == 0x25);
                            }
                        },
                        None => {},
                    }
                }
            }
        }
    }
    assert(all_bytes(p, u.ser_auth())) by {
        match u.host {
            Some(h) => {
                assert(all_bytes(p, h)) by {
                    assert(host_ok(h));
                    assert forall|i: int| 0 <= i < h.len() implies p(h[i]) by {
                        if h.len() >= 1 && h[0] == 0x5B {
                            if 1 <= i < h.len() - 1 {
                                assert(crate::model::is_v6_byte(h[i]));
                            }
                        } else {
                            assert(crate::model::is_reg_byte(h[i]));
                        }
                    }
                }
                let ps = ser_port_of(u);
                assert(all_bytes(p, ps)) by {
                    match u.port {
                        Some(pt) => {
                            lemma_dec_str_val(pt as nat);
                            assert forall|i: int| 0 <= i < ps.len() implies p(ps[i]) by {
                                if i > 0 {
                                    assert(ps[i] == dec_str(pt as nat)[i - 1]);
                                    assert(crate::ascii::spec_is_digit(ps[i]));
                                }
                            }
                        },
                        None => {},
                    }
                }
                lemma_all_concat(p, seq![0x2Fu8, 0x2Fu8], u.ser_userinfo());
                lemma_all_concat(p, seq![0x2Fu8, 0x2Fu8] + u.ser_userinfo(), h);
                lemma_all_concat(p, seq![0x2Fu8, 0x2Fu8] + u.ser_userinfo() + h, ps);
                assert(u.ser_auth() =~= seq![0x2Fu8, 0x2Fu8] + u.ser_userinfo() + h + ps);
            },
            None => {},
        }
    }
    assert(all_bytes(p, u.ser_path())) by {
        match u.path {
            PathModel::Opaque(o) => {
                assert forall|i: int| 0 <= i < o.len() implies p(o[i]) by {
                    assert(is_safe(EncodeSet::Opaque, o[i]) || o[i] == 0x25);
                }
            },
            PathModel::Segments(segs) => {
                assert forall|i: int| 0 <= i < segs.len() implies all_bytes(
                    p,
                    #[trigger] segs[i],
                ) by {
                    assert forall|j: int| 0 <= j < segs[i].len() implies p(segs[i][j]) by {
                        assert(is_safe(EncodeSet::PathSeg, segs[i][j]) || segs[i][j] == 0x25);
                    }
                }
                lemma_ser_segs_bytes(p, segs);
                lemma_all_concat(p, seq![0x2Fu8, 0x2Eu8], ser_segs(segs));
            },
        }
    }
    assert(all_bytes(p, u.ser_query())) by {
        match u.query {
            Some(q) => {
                assert forall|i: int| 0 <= i < u.ser_query().len() implies p(u.ser_query()[i]) by {
                    if i > 0 {
                        assert(u.ser_query()[i] == q[i - 1]);
                        assert(is_safe(EncodeSet::Query, q[i - 1]) || q[i - 1] == 0x25);
                    }
                }
            },
            None => {},
        }
    }
    assert(all_bytes(p, u.ser_fragment())) by {
        match u.fragment {
            Some(f) => {
                assert forall|i: int|
                    0 <= i < u.ser_fragment().len() implies p(u.ser_fragment()[i]) by {
                    if i > 0 {
                        assert(u.ser_fragment()[i] == f[i - 1]);
                        assert(is_safe(EncodeSet::Fragment, f[i - 1]) || f[i - 1] == 0x25);
                    }
                }
            },
            None => {},
        }
    }
    lemma_all_concat(p, u.scheme, seq![0x3Au8]);
    lemma_all_concat(p, u.scheme + seq![0x3Au8], u.ser_auth());
    lemma_all_concat(p, u.scheme + seq![0x3Au8] + u.ser_auth(), u.ser_path());
    lemma_all_concat(p, u.scheme + seq![0x3Au8] + u.ser_auth() + u.ser_path(), u.ser_query());
    lemma_all_concat(
        p,
        u.scheme + seq![0x3Au8] + u.ser_auth() + u.ser_path() + u.ser_query(),
        u.ser_fragment(),
    );
    lemma_trim_identity(u.ser());
}

/// A host-less segment path re-parses through the rooted-path branch.
proof fn lemma_rest_segs(u: UrlModel)
    requires
        u.wf(),
        u.host is None,
        u.path is Segments,
    ensures
        ({
            let rest0 = tail_of(u);
            &&& rest0.len() >= 1 && rest0[0] == 0x2F
            &&& !(rest0.len() >= 2 && rest0[1] == 0x2F)
            &&& sp_no_auth(u.scheme, rest0) == Some(u)
        }),
{
    let segs = u.path->Segments_0;
    assert(segs.len() >= 1);
    let hack = segs.len() >= 2 && segs[0].len() == 0;
    let path = u.ser_path();
    let qf = u.ser_query() + u.ser_fragment();
    let rest0 = tail_of(u);
    assert(rest0 =~= path + qf);
    let qstop = stop_fn(StopKind::QueryOrHash);
    let pb = |b: u8| b == 0x2F || b == 0x2E || is_safe(EncodeSet::PathSeg, b) || b == 0x25;
    assert forall|i: int| 0 <= i < segs.len() implies all_bytes(pb, #[trigger] segs[i]) by {
        assert(enc_clean(EncodeSet::PathSeg, segs[i]));
    }
    lemma_ser_segs_bytes(pb, segs);
    assert(all_bytes(pb, path)) by {
        if hack {
            lemma_all_concat(pb, seq![0x2Fu8, 0x2Eu8], ser_segs(segs));
        }
    }
    assert forall|j: int| 0 <= j < path.len() implies !qstop(rest0[j]) by {
        assert(rest0[j] == path[j]);
        assert(pb(path[j]));
    }
    if path.len() < rest0.len() {
        assert(rest0[path.len() as int] == qf[0]);
        assert(qf[0] == 0x3F || qf[0] == 0x23);
    }
    lemma_scan_runs(rest0, 0, path.len() as int, qstop);
    assert(rest0.take(path.len() as int) =~= path);
    assert(rest0.skip(path.len() as int) =~= qf);
    lemma_qf_roundtrip(u);
    assert(path[0] == 0x2F) by {
        if hack {
        } else {
            assert(path == ser_segs(segs));
        }
    }
    assert(rest0[0] == 0x2F);
    if rest0.len() >= 2 {
        assert(rest0[1] != 0x2F) by {
            if hack {
                assert(path[1] == 0x2E);
            } else {
                assert(path == ser_segs(segs));
                if segs[0].len() > 0 {
                    assert(path[1] == segs[0][0]);
                    assert(is_safe(EncodeSet::PathSeg, segs[0][0]) || segs[0][0] == 0x25);
                } else {
                    assert(segs.len() == 1);
                    assert(segs.skip(1).len() == 0);
                    assert(ser_segs(segs.skip(1)) =~= Seq::<u8>::empty());
                    assert(path =~= seq![0x2Fu8] + segs[0] + ser_segs(segs.skip(1)));
                    assert(path =~= seq![0x2Fu8]);
                    assert(rest0[1] == qf[0]);
                    assert(qf[0] == 0x3F || qf[0] == 0x23);
                }
            }
        }
    }
    if hack {
        assert(path =~= seq![0x2Fu8, 0x2Eu8] + ser_segs(segs));
        assert(path.skip(1) =~= seq![0x2Eu8] + ser_segs(segs));
        assert forall|i: int| 0 <= i < segs.len() implies sep_free(#[trigger] segs[i], false) by {
            assert forall|j: int| 0 <= j < segs[i].len() implies !is_sep(segs[i][j], false) by {
                assert(is_safe(EncodeSet::PathSeg, segs[i][j]) || segs[i][j] == 0x25);
            }
        }
        assert(seq![0x2Eu8] =~= crate::scan::seq_dot());
        lemma_split_ser(crate::scan::seq_dot(), segs, false);
        let ef = |p2: Seq<u8>| spec_enc(EncodeSet::PathSeg, p2);
        let pieces = seq![crate::scan::seq_dot()] + segs;
        assert forall|i: int| 0 <= i < pieces.len() implies pieces.map_values(ef)[i]
            == pieces[i] by {
            if i == 0 {
                assert(pieces[0] == crate::scan::seq_dot());
                lemma_enc_id(EncodeSet::PathSeg, crate::scan::seq_dot());
            } else {
                assert(pieces[i] == segs[i - 1]);
                lemma_enc_id(EncodeSet::PathSeg, segs[i - 1]);
            }
        }
        assert(pieces.map_values(ef) =~= pieces);
        assert(rm_dots(pieces) == segs) by {
            assert(pieces[0] == crate::scan::seq_dot());
            assert(pieces.len() >= 3);
            assert(pieces.skip(1) =~= segs);
            lemma_rm_rec_dotfree(Seq::empty(), segs);
            assert(Seq::<Seq<u8>>::empty() + segs =~= segs);
        }
        assert(sp_segs(path.skip(1), false) == segs);
    } else {
        lemma_segs_roundtrip(segs, false);
        assert(path.skip(1) == ser_segs(segs).skip(1));
    }
    assert(rest0.subrange(1, path.len() as int) =~= path.skip(1));
    assert(sp_no_auth(u.scheme, rest0) is Some);
    assert(sp_no_auth(u.scheme, rest0)->0 =~= u);
}

/// An opaque path re-parses through the cannot-be-a-base branch.
proof fn lemma_rest_opaque(u: UrlModel)
    requires
        u.wf(),
        u.host is None,
        u.path is Opaque,
    ensures
        ({
            let rest0 = tail_of(u);
            &&& !(rest0.len() >= 1 && rest0[0] == 0x2F)
            &&& sp_opaque(u.scheme, rest0) == Some(u)
        }),
{
    let o = u.path->Opaque_0;
    let qf = u.ser_query() + u.ser_fragment();
    let rest0 = tail_of(u);
    assert(rest0 =~= o + qf);
    if rest0.len() >= 1 {
        assert(rest0[0] != 0x2F) by {
            if o.len() > 0 {
                assert(rest0[0] == o[0]);
            } else {
                assert(rest0[0] == qf[0]);
                assert(qf[0] == 0x3F || qf[0] == 0x23);
            }
        }
    }
    let qstop = stop_fn(StopKind::QueryOrHash);
    assert forall|j: int| 0 <= j < o.len() implies !qstop(rest0[j]) by {
        assert(rest0[j] == o[j]);
        assert(is_safe(EncodeSet::Opaque, o[j]) || o[j] == 0x25);
    }
    if o.len() < rest0.len() {
        assert(rest0[o.len() as int] == qf[0]);
        assert(qf[0] == 0x3F || qf[0] == 0x23);
    }
    lemma_scan_runs(rest0, 0, o.len() as int, qstop);
    assert(rest0.take(o.len() as int) =~= o);
    assert(rest0.skip(o.len() as int) =~= qf);
    lemma_enc_id(EncodeSet::Opaque, o);
    lemma_qf_roundtrip(u);
    assert(sp_opaque(u.scheme, rest0) is Some);
    assert(sp_opaque(u.scheme, rest0)->0 =~= u);
}

/// A URL with a host re-parses through the authority branch: the
/// serialized remainder starts with exactly two slashes.
proof fn lemma_rest_host(u: UrlModel)
    requires
        u.wf(),
        u.host is Some,
    ensures
        ({
            let rest0 = u.ser_auth() + u.ser_path() + u.ser_query() + u.ser_fragment();
            &&& rest0.len() >= 2 && rest0[0] == 0x2F && rest0[1] == 0x2F
            &&& rest0.skip(2) == t_of(u)
            &&& (u.is_special() && !is_file(u.scheme) ==> scan(
                rest0,
                0,
                stop_fn(StopKind::NonSlash),
            ) == 2)
            &&& sp_authority(u.scheme, t_of(u), u.is_special()) == Some(u)
        }),
{
    let special = u.is_special();
    let h = u.host->0;
    let t = t_of(u);
    let rest0 = u.ser_auth() + u.ser_path() + u.ser_query() + u.ser_fragment();
    assert(u.ser_auth() =~= seq![0x2Fu8, 0x2Fu8] + auth_of(u));
    assert(rest0 =~= seq![0x2Fu8, 0x2Fu8] + t);
    assert(rest0[0] == 0x2F && rest0[1] == 0x2F);
    assert(rest0.skip(2) =~= t);
    lemma_auth_roundtrip(u);
    if special && !is_file(u.scheme) {
        let nstop = stop_fn(StopKind::NonSlash);
        assert(t.len() >= 1) by {
            if u.username.len() > 0 || u.password is Some {
                assert(u.ser_userinfo().len() >= 1);
            } else {
                assert(h.len() >= 1);
                assert(auth_of(u).len() >= 1);
            }
        }
        assert(!nstop(rest0[0]) && !nstop(rest0[1]));
        assert(rest0[2] == t[0]);
        assert(t[0] != 0x2F && t[0] != 0x5C) by {
            let ui = u.ser_userinfo();
            if u.username.len() > 0 || u.password is Some {
                assert(t[0] == ui[0]);
                if u.username.len() > 0 {
                    assert(ui[0] == u.username[0]);
                    assert(is_safe(EncodeSet::UserInfo, ui[0]) || ui[0] == 0x25);
                } else {
                    assert(ui[0] == 0x3A);
                }
            } else {
                assert(ui.len() == 0);
                assert(t[0] == h[0]);
                assert(host_ok(h));
                if h[0] == 0x5B {
                } else {
                    assert(crate::model::is_reg_byte(h[0]));
                }
            }
        }
        lemma_scan_runs(rest0, 0, 2, nstop);
    }
}

/// Parsing the serialization of a well-formed URL yields it unchanged.
#[verifier::rlimit(100)]
pub proof fn lemma_serialize_parse(u: UrlModel)
    requires
        u.wf(),
    ensures
        spec_parse(u.ser()) == Some(u),
{
    let w = u.ser();
    lemma_ser_gt20(u);
    let rest0 = u.ser_auth() + u.ser_path() + u.ser_query() + u.ser_fragment();
    assert(w =~= u.scheme + seq![0x3Au8] + rest0);

    // Scheme recovery.
    let sstop = stop_fn(StopKind::NonScheme);
    assert(w[0] == u.scheme[0]);
    assert forall|j: int| 1 <= j < u.scheme.len() implies !sstop(w[j]) by {
        assert(w[j] == u.scheme[j]);
    }
    assert(w[u.scheme.len() as int] == 0x3A);
    assert(!spec_is_scheme_byte(0x3A));
    lemma_scan_runs(w, 1, u.scheme.len() as int, sstop);
    assert(sp_scheme_end(w) == Some(u.scheme.len() as int));
    assert(w.take(u.scheme.len() as int) =~= u.scheme);
    crate::ascii::lemma_lower_identity(u.scheme);
    assert(w.skip(u.scheme.len() as int + 1) =~= rest0);

    let special = u.is_special();
    match u.host {
        Some(h) => {
            let t = t_of(u);
            lemma_rest_host(u);
            if is_file(u.scheme) {
                assert(is_sep(rest0[0], true) && is_sep(rest0[1], true));
                assert(spec_parse(w) == sp_authority(u.scheme, t, true));
            } else if special {
                assert(spec_parse(w) == sp_authority(u.scheme, t, true));
            } else {
                assert(rest0.len() >= 2 && rest0[0] == 0x2F && rest0[1] == 0x2F);
                assert(spec_parse(w) == sp_authority(u.scheme, t, false));
            }
        },
        None => {
            assert(!special);
            assert(!is_file(u.scheme));
            assert(u.ser_auth() =~= Seq::<u8>::empty());
            assert(rest0 =~= tail_of(u));
            match u.path {
                PathModel::Segments(_) => {
                    lemma_rest_segs(u);
                    assert(spec_parse(w) == sp_no_auth(u.scheme, rest0));
                },
                PathModel::Opaque(_) => {
                    lemma_rest_opaque(u);
                    assert(spec_parse(w) == sp_opaque(u.scheme, rest0));
                },
            }
        },
    }
}

/// The normalized segment list of any raw path is nonempty, dot-free and
/// clean.
proof fn lemma_sp_segs_wf(rawp: Seq<u8>, special: bool)
    ensures
        sp_segs(rawp, special).len() >= 1,
        dot_free(sp_segs(rawp, special)),
        forall|i: int|
            0 <= i < sp_segs(rawp, special).len() ==> enc_clean(
                EncodeSet::PathSeg,
                #[trigger] sp_segs(rawp, special)[i],
            ),
{
    let ef = |p: Seq<u8>| spec_enc(EncodeSet::PathSeg, p);
    let pieces = split_seps(rawp, special).map_values(ef);
    assert(split_seps(rawp, special).len() >= 1);
    let clean = |q: Seq<u8>| enc_clean(EncodeSet::PathSeg, q);
    assert forall|i: int| 0 <= i < pieces.len() implies clean(#[trigger] pieces[i]) by {
        lemma_enc_clean(EncodeSet::PathSeg, split_seps(rawp, special)[i]);
    }
    assert(clean(Seq::<u8>::empty()));
    crate::scan::lemma_rm_rec_props(clean, Seq::empty(), pieces);
    assert(dot_free(Seq::<Seq<u8>>::empty()));
}

/// Query and fragment produced by the tail parser are clean.
proof fn lemma_sp_qf_wf(t: Seq<u8>)
    ensures
        match sp_qf(t).0 {
            Some(q) => enc_clean(EncodeSet::Query, q),
            None => true,
        },
        match sp_qf(t).1 {
            Some(f) => enc_clean(EncodeSet::Fragment, f),
            None => true,
        },
{
    if t.len() >= 1 && t[0] == 0x3F {
        let qe = scan(t, 1, stop_fn(StopKind::Hash));
        lemma_enc_clean(EncodeSet::Query, t.subrange(1, qe));
        if qe < t.len() {
            lemma_enc_clean(EncodeSet::Fragment, t.skip(qe + 1));
        }
    } else if t.len() >= 1 && t[0] == 0x23 {
        lemma_enc_clean(EncodeSet::Fragment, t.skip(1));
    }
}

/// A scheme recovered by the scanner is well-formed after lowercasing.
proof fn lemma_scheme_wf(s: Seq<u8>)
    requires
        sp_scheme_end(s) is Some,
    ensures
        ({
            let e = sp_scheme_end(s)->0;
            let scheme = spec_lower(s.take(e));
            &&& scheme.len() >= 1
            &&& spec_is_alpha(scheme[0])
            &&& forall|i: int|
                0 <= i < scheme.len() ==> spec_is_scheme_byte(#[trigger] scheme[i]) && scheme[i]
                    == spec_lower_byte(scheme[i])
        }),
{
    let e = sp_scheme_end(s)->0;
    let raw = s.take(e);
    let scheme = spec_lower(raw);
    crate::scan::lemma_scan_bounds(s, 1, stop_fn(StopKind::NonScheme));
    assert(e >= 1);
    assert forall|i: int| 0 <= i < e implies spec_is_scheme_byte(s[i]) by {
        if i == 0 {
            assert(spec_is_alpha(s[0]));
        } else {
            assert(!stop_fn(StopKind::NonScheme)(s[i]));
        }
    }
    assert forall|i: int|
        0 <= i < scheme.len() implies spec_is_scheme_byte(#[trigger] scheme[i]) && scheme[i]
        == spec_lower_byte(scheme[i]) by {
        assert(scheme[i] == spec_lower_byte(raw[i]));
        assert(raw[i] == s[i]);
    }
    assert(scheme[0] == spec_lower_byte(s[0]));
}

/// Everything the authority parser accepts is well-formed.
#[verifier::rlimit(100)]
proof fn lemma_sp_authority_wf(scheme: Seq<u8>, t: Seq<u8>, special: bool)
    requires
        scheme.len() >= 1,
        spec_is_alpha(scheme[0]),
        forall|i: int|
            0 <= i < scheme.len() ==> spec_is_scheme_byte(#[trigger] scheme[i]) && scheme[i]
                == spec_lower_byte(scheme[i]),
        special == spec_is_special(scheme),
        sp_authority(scheme, t, special) is Some,
    ensures
        sp_authority(scheme, t, special)->0.wf(),
{
    let u = sp_authority(scheme, t, special)->0;
    let ae = scan(t, 0, stop_fn(StopKind::AuthEnd(special)));
    let auth = t.take(ae);
    let after = t.skip(ae);
    let ui_hp = match last_index(auth, 0x40) {
        Some(a) => (auth.take(a), auth.skip(a + 1)),
        None => (Seq::<u8>::empty(), auth),
    };
    let ui = ui_hp.0;
    let ci = scan(ui, 0, stop_fn(StopKind::Colon));
    lemma_enc_clean(EncodeSet::UserInfo, ui.take(ci));
    if ci < ui.len() {
        lemma_enc_clean(EncodeSet::UserInfo, ui.skip(ci + 1));
    }
    let pe = scan(after, 0, stop_fn(StopKind::QueryOrHash));
    let rawp = after.take(pe);
    if rawp.len() == 0 {
        assert(dot_free(Seq::<Seq<u8>>::empty()));
        assert(dot_free(seq![Seq::<u8>::empty()])) by {
            assert(Seq::<u8>::empty().len() == 0 && crate::scan::seq_dot().len() == 1
                && crate::scan::seq_dotdot().len() == 2);
            assert(seq![Seq::<u8>::empty()][0] == Seq::<u8>::empty());
        }
        assert(enc_clean(EncodeSet::PathSeg, Seq::<u8>::empty()));
    } else {
        lemma_sp_segs_wf(rawp.skip(1), special);
    }
    lemma_sp_qf_wf(after.skip(pe));
}

/// Everything the whole parser accepts is well-formed.
#[verifier::rlimit(100)]
pub proof fn lemma_parse_wf(s: Seq<u8>)
    requires
        spec_parse(s) is Some,
    ensures
        spec_parse(s)->0.wf(),
{
    let w = spec_trim(s);
    lemma_scheme_wf(w);
    let e = sp_scheme_end(w)->0;
    let scheme = spec_lower(w.take(e));
    let rest = w.skip(e + 1);
    if is_file(scheme) {
        if rest.len() >= 2 && is_sep(rest[0], true) && is_sep(rest[1], true) {
            lemma_sp_authority_wf(scheme, rest.skip(2), true);
        } else {
            let t = if rest.len() >= 1 && is_sep(rest[0], true) {
                rest.skip(1)
            } else {
                rest
            };
            let pe = scan(t, 0, stop_fn(StopKind::QueryOrHash));
            lemma_sp_segs_wf(t.take(pe), true);
            lemma_sp_qf_wf(t.skip(pe));
            assert(host_ok(Seq::<u8>::empty()));
            assert(enc_clean(EncodeSet::UserInfo, Seq::<u8>::empty()));
        }
    } else if spec_is_special(scheme) {
        let k = scan(rest, 0, stop_fn(StopKind::NonSlash));
        lemma_sp_authority_wf(scheme, rest.skip(k), true);
    } else if rest.len() >= 2 && rest[0] == 0x2F && rest[1] == 0x2F {
        lemma_sp_authority_wf(scheme, rest.skip(2), false);
    } else if rest.len() >= 1 && rest[0] == 0x2F {
        let pe = scan(rest, 0, stop_fn(StopKind::QueryOrHash));
        lemma_sp_segs_wf(rest.subrange(1, pe), false);
        lemma_sp_qf_wf(rest.skip(pe));
        assert(enc_clean(EncodeSet::UserInfo, Seq::<u8>::empty()));
    } else {
        let pe = scan(rest, 0, stop_fn(StopKind::QueryOrHash));
        lemma_enc_clean(EncodeSet::Opaque, rest.take(pe));
        lemma_sp_qf_wf(rest.skip(pe));
        assert(enc_clean(EncodeSet::UserInfo, Seq::<u8>::empty()));
        let o = spec_enc(EncodeSet::Opaque, rest.take(pe));
        assert(o.len() > 0 ==> o[0] != 0x2F) by {
            if rest.take(pe).len() > 0 {
                crate::scan::lemma_scan_bounds(rest, 0, stop_fn(StopKind::QueryOrHash));
                assert(rest.take(pe)[0] == rest[0]);
                assert(rest[0] != 0x2F);
                assert(o[0] == rest[0] || o[0] == 0x25);
            } else {
                assert(o.len() == 0);
            }
        }
    }
}

/// Idempotent normalization: re-parsing the serialization of any parsed
/// URL yields the same URL, so the serialized form is stable.
pub proof fn lemma_parse_roundtrip(s: Seq<u8>)
    requires
        spec_parse(s) is Some,
    ensures
        spec_parse(spec_parse(s)->0.ser()) == spec_parse(s),
{
    lemma_parse_wf(s);
    lemma_serialize_parse(spec_parse(s)->0);
}

} // verus!
