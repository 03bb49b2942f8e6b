//! Read-only projections over a URL value: origin, authority, domain,
//! effective port, decoded path segments and decoded query pairs. All are
//! pure derivations; none mutates the value.

use vstd::prelude::*;
use vstd::slice::slice_subrange;

use crate::model::{
    default_port, is_file, spec_default_port, spec_is_special, PathModel, Url, UrlModel, UrlPath,
};
use crate::percent::{percent_decode, spec_pdecode};
use crate::scan::{lemma_dv, lemma_scan_bounds, scan, scan_from, stop_fn, subvec, StopKind};

verus! {

/// Explicit port if stored, else the scheme's well-known default.
pub open spec fn spec_effective_port(m: UrlModel) -> Option<u16> {
    match m.port {
        Some(p) => Some(p),
        None => spec_default_port(m.scheme),
    }
}

/// The (scheme, host, port) triple for special non-file URLs; `None`
/// stands for an opaque origin.
pub open spec fn spec_origin(m: UrlModel) -> Option<(Seq<u8>, Seq<u8>, u16)> {
    if m.is_special() && !is_file(m.scheme) && m.host is Some && spec_effective_port(
        m,
    ) is Some {
        Some((m.scheme, m.host->0, spec_effective_port(m)->0))
    } else {
        None
    }
}

/// `+` decodes as space in form-urlencoded text.
pub open spec fn plus_to_space(s: Seq<u8>) -> Seq<u8> {
    s.map_values(|b: u8| if b == 0x2B {
        0x20u8
    } else {
        b
    })
}

pub open spec fn www_decode(s: Seq<u8>) -> Seq<u8> {
    spec_pdecode(plus_to_space(s))
}

/// One `key[=value]` pair, both sides form-urlencoded-decoded.
pub open spec fn pair_of(head: Seq<u8>) -> (Seq<u8>, Seq<u8>) {
    let e = scan(head, 0, stop_fn(StopKind::EqSign));
    (
        www_decode(head.take(e)),
        if e < head.len() {
            www_decode(head.skip(e + 1))
        } else {
            Seq::empty()
        },
    )
}

/// Pairs of a raw query: split on `&`, drop empty pieces, split each piece
/// at its first `=` (a missing `=` means an empty value).
pub open spec fn spec_pairs(q: Seq<u8>) -> Seq<(Seq<u8>, Seq<u8>)>
    decreases q.len(),
    via spec_pairs_decreases
{
    if q.len() == 0 {
        Seq::empty()
    } else {
        let k = scan(q, 0, stop_fn(StopKind::Amp));
        let head = q.take(k);
        let tail = if k < q.len() {
            spec_pairs(q.skip(k + 1))
        } else {
            Seq::empty()
        };
        if head.len() == 0 {
            tail
        } else {
            seq![pair_of(head)] + tail
        }
    }
}

#[via_fn]
proof fn spec_pairs_decreases(q: Seq<u8>) {
    lemma_scan_bounds(q, 0, stop_fn(StopKind::Amp));
}

/// Deep view of a pair vector, elementwise.
proof fn lemma_dv_pairs(v: Vec<(Vec<u8>, Vec<u8>)>)
    ensures
        v.deep_view().len() == v@.len(),
        forall|i: int|
            0 <= i < v@.len() ==> v.deep_view()[i] == (#[trigger] v@[i].0@, v@[i].1@),
{
    assert forall|i: int| 0 <= i < v@.len() implies v.deep_view()[i] == (
    #[trigger] v@[i].0@,
    v@[i].1@,
    ) by {
        assert(v@[i].0.deep_view() =~= v@[i].0@);
        assert(v@[i].1.deep_view() =~= v@[i].1@);
    }
}

fn plus_space(s: &[u8]) -> (r: Vec<u8>)
    ensures
        r@ == plus_to_space(s@),
{
    let mut out: Vec<u8> = Vec::new();
    let mut i: usize = 0;
    while i < s.len()
        invariant
            i <= s@.len(),
            out@ == plus_to_space(s@.take(i as int)),
        decreases s@.len() - i,
    {
        let b = s[i];
        if b == 0x2B {
            out.push(0x20);
        } else {
            out.push(b);
        }
        i = i + 1;
        proof {
            assert(plus_to_space(s@.take(i as int)) =~= plus_to_space(
                s@.take(i as int - 1),
            ).push(if s@[i - 1] == 0x2B {
                0x20u8
            } else {
                s@[i - 1]
            }));
        }
    }
    proof {
        assert(s@.take(s@.len() as int) =~= s@);
    }
    out
}

fn decode_www(s: &[u8]) -> (r: Vec<u8>)
    ensures
        r@ == www_decode(s@),
{
    let p = plus_space(s);
    percent_decode(p.as_slice())
}

fn pair_exec(head: &[u8]) -> (r: (Vec<u8>, Vec<u8>))
    ensures
        r.0@ == pair_of(head@).0,
        r.1@ == pair_of(head@).1,
{
    let e = scan_from(head, 0, StopKind::EqSign);
    let k = decode_www(slice_subrange(head, 0, e));
    proof {
        assert(head@.subrange(0, e as int) =~= head@.take(e as int));
    }
    if e < head.len() {
        let v = decode_www(slice_subrange(head, e + 1, head.len()));
        proof {
            assert(head@.subrange(e + 1, head@.len() as int) =~= head@.skip(e + 1));
        }
        (k, v)
    } else {
        (k, Vec::new())
    }
}

fn pairs_rec(q: &[u8]) -> (r: Vec<(Vec<u8>, Vec<u8>)>)
    ensures
        r.deep_view() == spec_pairs(q@),
    decreases q@.len(),
{
    let mut out: Vec<(Vec<u8>, Vec<u8>)> = Vec::new();
    if q.len() == 0 {
        proof {
            assert(out.deep_view() =~= spec_pairs(q@));
        }
        return out;
    }
    let k = scan_from(q, 0, StopKind::Amp);
    let head = slice_subrange(q, 0, k);
    proof {
        assert(head@ =~= q@.take(k as int));
    }
    let mut tail: Vec<(Vec<u8>, Vec<u8>)> = if k < q.len() {
        let rest = slice_subrange(q, k + 1, q.len());
        proof {
            assert(rest@ =~= q@.skip(k as int + 1));
        }
        pairs_rec(rest)
    } else {
        Vec::new()
    };
    let ghost tv = tail.deep_view();
    let ghost ts = tail@;
    proof {
        lemma_dv_pairs(tail);
    }
    if head.len() == 0 {
        proof {
            assert(tail.deep_view() =~= spec_pairs(q@));
        }
        tail
    } else {
        let p = pair_exec(head);
        out.push(p);
        out.append(&mut tail);
        proof {
            lemma_dv_pairs(out);
            assert(out@ =~= seq![(p.0, p.1)] + ts);
            assert forall|i: int| 0 <= i < out@.len() implies out.deep_view()[i] == spec_pairs(
                q@,
            )[i] by {
                if i == 0 {
                } else {
                    assert(out@[i] == ts[i - 1]);
                    assert(tv[i - 1] == (ts[i - 1].0@, ts[i - 1].1@));
                }
            }
            assert(out.deep_view() =~= spec_pairs(q@));
        }
        out
    }
}

impl Url {
    /// Explicit port if any, else the scheme's default port if it has one.
    pub fn effective_port(&self) -> (r: Option<u16>)
        ensures
            r == spec_effective_port(self@),
    {
        match self.port {
            Some(p) => Some(p),
            None => default_port(self.scheme.as_slice()),
        }
    }

    /// The (scheme, host, effective port) origin triple, or `None` when
    /// the origin is opaque (non-special schemes, file, opaque paths).
    pub fn origin(&self) -> (r: Option<(Vec<u8>, Vec<u8>, u16)>)
        ensures
            match r {
                Some(o) => spec_origin(self@) == Some((o.0@, o.1@, o.2)),
                None => spec_origin(self@) is None,
            },
    {
        if crate::model::is_special_scheme(self.scheme.as_slice()) && !crate::model::is_file_scheme(
            self.scheme.as_slice(),
        ) {
            match (&self.host, self.effective_port()) {
                (Some(h), Some(p)) => Some(
                    (
                        subvec(self.scheme.as_slice(), 0, self.scheme.len()),
                        subvec(h.as_slice(), 0, h.len()),
                        p,
                    ),
                ),
                _ => None,
            }
        } else {
            None
        }
    }

    /// `username[:password]@host[:port]`, exactly as serialized; empty
    /// when there is no host.
    pub fn authority(&self) -> (r: Vec<u8>)
        ensures
            r@ == (match self@.host {
                Some(_) => crate::roundtrip::auth_of(self@),
                None => Seq::<u8>::empty(),
            }),
    {
        let mut out: Vec<u8> = Vec::new();
        match &self.host {
            Some(h) => {
                if self.username.len() > 0 || self.password.is_some() {
                    crate::model::push_all(&mut out, self.username.as_slice());
                    match &self.password {
                        Some(p) => {
                            out.push(0x3A);
                            crate::model::push_all(&mut out, p.as_slice());
                        },
                        None => {},
                    }
                    out.push(0x40);
                }
                crate::model::push_all(&mut out, h.as_slice());
                match self.port {
                    Some(p) => {
                        out.push(0x3A);
                        crate::ascii::push_dec(&mut out, p);
                    },
                    None => {},
                }
                proof {
                    assert(out@ =~= crate::roundtrip::auth_of(self@));
                }
            },
            None => {},
        }
        out
    }

    /// The host when it is a registrable domain: present, not a bracketed
    /// address, and not made of digits and dots alone (an address shape).
    pub fn domain(&self) -> (r: Option<Vec<u8>>)
        ensures
            match r {
                Some(d) => self@.host is Some && d@ == self@.host->0 && d@.len() > 0 && d@[0]
                    != 0x5B,
                None => (match self@.host {
                    Some(h) => h.len() == 0 || h[0] == 0x5B || (forall|i: int|
                        0 <= i < h.len() ==> crate::ascii::spec_is_digit(#[trigger] h[i]) || h[i]
                            == 0x2E),
                    None => true,
                }),
            },
    {
        match &self.host {
            Some(h) => {
                if h.len() == 0 || h[0] == 0x5B {
                    return None;
                }
                let mut i: usize = 0;
                let mut all_addr = true;
                while i < h.len()
                    invariant
                        i <= h@.len(),
                        all_addr == (forall|j: int|
                            0 <= j < i ==> crate::ascii::spec_is_digit(#[trigger] h@[j]) || h@[j]
                                == 0x2E),
                    decreases h@.len() - i,
                {
                    let b = h[i];
                    if !((0x30 <= b && b <= 0x39) || b == 0x2E) {
                        all_addr = false;
                    }
                    i = i + 1;
                }
                if all_addr {
                    None
                } else {
                    Some(subvec(h.as_slice(), 0, h.len()))
                }
            },
            None => None,
        }
    }

    /// Decoded path segments; `None` when the URL cannot be a base.
    pub fn path_segments(&self) -> (r: Option<Vec<Vec<u8>>>)
        ensures
            match r {
                Some(v) => (self@.path matches PathModel::Segments(segs) && v.deep_view().len()
                    == segs.len() && forall|i: int|
                    0 <= i < segs.len() ==> v.deep_view()[i] == spec_pdecode(#[trigger] segs[i])),
                None => self@.cannot_be_a_base(),
            },
    {
        match &self.path {
            UrlPath::Opaque(_) => None,
            UrlPath::Segments(segs) => {
                let mut out: Vec<Vec<u8>> = Vec::new();
                let mut i: usize = 0;
                let ghost dv = segs.deep_view();
                while i < segs.len()
                    invariant
                        i <= segs@.len(),
                        dv == segs.deep_view(),
                        out@.len() == i,
                        forall|j: int|
                            0 <= j < i ==> out.deep_view()[j] == spec_pdecode(#[trigger] dv[j]),
                    decreases segs@.len() - i,
                {
                    proof {
                        lemma_dv(out);
                        lemma_dv(*segs);
                    }
                    let ghost pre = out@;
                    out.push(percent_decode(segs[i].as_slice()));
                    i = i + 1;
                    proof {
                        lemma_dv(out);
                        assert forall|j: int| 0 <= j < i implies out.deep_view()[j] == spec_pdecode(
                            #[trigger] dv[j],
                        ) by {
                            assert(dv[j] == segs@[j]@);
                            if j < i - 1 {
                                assert(out@[j] == pre[j]);
                            } else {
                                assert(out@[j]@ == spec_pdecode(segs@[j]@));
                            }
                        }
                    }
                }
                proof {
                    lemma_dv(out);
                }
                Some(out)
            },
        }
    }

    /// Decoded form-urlencoded query pairs; empty when there is no query.
    pub fn query_pairs(&self) -> (r: Vec<(Vec<u8>, Vec<u8>)>)
        ensures
            r.deep_view() == (match self@.query {
                Some(q) => spec_pairs(q),
                None => Seq::<(Seq<u8>, Seq<u8>)>::empty(),
            }),
    {
        match &self.query {
            Some(q) => pairs_rec(q.as_slice()),
            None => {
                let out: Vec<(Vec<u8>, Vec<u8>)> = Vec::new();
                proof {
                    assert(out.deep_view() =~= Seq::<(Seq<u8>, Seq<u8>)>::empty());
                }
                out
            },
        }
    }
}

} // verus!
