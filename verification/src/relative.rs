//! Relativization: the shortest relative reference from a base to a
//! target. When scheme, userinfo, host or port differ — or either URL has
//! no hierarchical path — the only correct reference is the target's own
//! absolute serialization; otherwise a relative path, a query or a
//! fragment reference suffices.

use vstd::prelude::*;

use crate::model::{PathModel, Url, UrlModel, UrlPath};
use crate::parse::opt_bytes;
use crate::scan::{lemma_dv, scan, ser_segs, stop_fn, subvec, StopKind};

verus! {

/// Length of the longest common prefix of two segment lists.
pub open spec fn common_len(a: Seq<Seq<u8>>, b: Seq<Seq<u8>>) -> int
    decreases a.len(),
{
    if a.len() == 0 || b.len() == 0 || a[0] != b[0] {
        0
    } else {
        1 + common_len(a.skip(1), b.skip(1))
    }
}

proof fn lemma_common_len_bounds(a: Seq<Seq<u8>>, b: Seq<Seq<u8>>)
    ensures
        0 <= common_len(a, b) <= a.len(),
        common_len(a, b) <= b.len(),
    decreases a.len(),
{
    if a.len() != 0 && b.len() != 0 && a[0] == b[0] {
        lemma_common_len_bounds(a.skip(1), b.skip(1));
    }
}

/// `..` segments to climb out of the base directory, then the target's
/// remaining directory segments and its last segment.
pub open spec fn rel_segs(bsegs: Seq<Seq<u8>>, tsegs: Seq<Seq<u8>>) -> Seq<Seq<u8>>
    recommends
        bsegs.len() >= 1,
        tsegs.len() >= 1,
{
    let bdir = bsegs.drop_last();
    let tdir = tsegs.drop_last();
    let c = common_len(bdir, tdir);
    let ups = Seq::new((bdir.len() - c) as nat, |i: int| crate::scan::seq_dotdot());
    let tail = ups + tdir.skip(c) + seq![tsegs.last()];
    if tail[0].len() == 0 || scan(tail[0], 0, stop_fn(StopKind::Colon)) < tail[0].len() {
        seq![crate::scan::seq_dot()] + tail
    } else {
        tail
    }
}

/// The relative-path text: segments joined by `/`.
pub open spec fn rel_text(pieces: Seq<Seq<u8>>) -> Seq<u8>
    recommends
        pieces.len() >= 1,
{
    ser_segs(pieces).skip(1)
}

pub open spec fn q_suffix(q: Option<Seq<u8>>) -> Seq<u8> {
    match q {
        Some(v) => seq![0x3Fu8] + v,
        None => Seq::empty(),
    }
}

pub open spec fn f_suffix(f: Option<Seq<u8>>) -> Seq<u8> {
    match f {
        Some(v) => seq![0x23u8] + v,
        None => Seq::empty(),
    }
}

/// Whether only an absolute reference can reach the target from the base.
pub open spec fn needs_absolute(b: UrlModel, t: UrlModel) -> bool {
    ||| b.scheme != t.scheme
    ||| b.username != t.username
    ||| b.password != t.password
    ||| b.host != t.host
    ||| b.port != t.port
    ||| b.cannot_be_a_base()
    ||| t.cannot_be_a_base()
    ||| b.path->Segments_0.len() == 0
    ||| t.path->Segments_0.len() == 0
}

/// The shortest relative reference from `b` to `t`.
pub open spec fn spec_make_relative(b: UrlModel, t: UrlModel) -> Seq<u8> {
    if needs_absolute(b, t) {
        t.ser()
    } else {
        let bsegs = b.path->Segments_0;
        let tsegs = t.path->Segments_0;
        if bsegs != tsegs || (b.query != t.query && t.query is None) {
            rel_text(rel_segs(bsegs, tsegs)) + q_suffix(t.query) + f_suffix(t.fragment)
        } else if b.query != t.query {
            q_suffix(t.query) + f_suffix(t.fragment)
        } else {
            f_suffix(t.fragment)
        }
    }
}

/// Resolving the relative reference against the base reconstructs the
/// target, in the case where the reference is the target's own absolute
/// serialization: whenever scheme, userinfo, host or port differ or either
/// URL has an opaque or empty path.
pub proof fn lemma_make_relative_absolute(b: UrlModel, t: UrlModel)
    requires
        t.wf(),
        needs_absolute(b, t),
    ensures
        crate::join::spec_join(b, spec_make_relative(b, t)) == Some(t),
{
    crate::roundtrip::lemma_serialize_parse(t);
}

fn opt_eq(a: &Option<Vec<u8>>, b: &Option<Vec<u8>>) -> (r: bool)
    ensures
        r == (opt_bytes(*a) == opt_bytes(*b)),
{
    match (a, b) {
        (None, None) => true,
        (Some(x), Some(y)) => crate::scan::eq_bytes(x.as_slice(), y.as_slice()),
        _ => false,
    }
}

fn port_eq(a: Option<u16>, b: Option<u16>) -> (r: bool)
    ensures
        r == (a == b),
{
    match (a, b) {
        (None, None) => true,
        (Some(x), Some(y)) => x == y,
        _ => false,
    }
}

#[verifier::loop_isolation(false)]
fn segs_eq(a: &Vec<Vec<u8>>, b: &Vec<Vec<u8>>) -> (r: bool)
    ensures
        r == (a.deep_view() == b.deep_view()),
{
    proof {
        lemma_dv(*a);
        lemma_dv(*b);
    }
    if a.len() != b.len() {
        proof {
            if a.deep_view() == b.deep_view() {
                assert(a.deep_view().len() == b.deep_view().len());
            }
        }
        return false;
    }
    let mut i: usize = 0;
    while i < a.len()
        invariant
            i <= a@.len(),
            a@.len() == b@.len(),
            forall|j: int| 0 <= j < i ==> a.deep_view()[j] == b.deep_view()[j],
        decreases a@.len() - i,
    {
        if !crate::scan::eq_bytes(a[i].as_slice(), b[i].as_slice()) {
            proof {
                if a.deep_view() == b.deep_view() {
                    assert(a.deep_view()[i as int] == b.deep_view()[i as int]);
                }
            }
            return false;
        }
        i = i + 1;
    }
    proof {
        assert(a.deep_view() =~= b.deep_view());
    }
    true
}

/// Number of shared leading segments.
#[verifier::loop_isolation(false)]
fn common_prefix(a: &Vec<Vec<u8>>, alen: usize, b: &Vec<Vec<u8>>, blen: usize) -> (r: usize)
    requires
        alen <= a@.len(),
        blen <= b@.len(),
    ensures
        r == common_len(a.deep_view().take(alen as int), b.deep_view().take(blen as int)),
        r <= alen,
        r <= blen,
{
    let ghost av = a.deep_view().take(alen as int);
    let ghost bv = b.deep_view().take(blen as int);
    proof {
        lemma_dv(*a);
        lemma_dv(*b);
        lemma_common_len_bounds(av, bv);
    }
    let mut i: usize = 0;
    proof {
        assert(av.skip(0) =~= av);
        assert(bv.skip(0) =~= bv);
    }
    while i < alen && i < blen && crate::scan::eq_bytes(a[i].as_slice(), b[i].as_slice())
        invariant
            i <= alen,
            i <= blen,
            common_len(av, bv) == i + common_len(av.skip(i as int), bv.skip(i as int)),
        decreases alen - i,
    {
        proof {
            assert(av.skip(i as int)[0] == a@[i as int]@);
            assert(bv.skip(i as int)[0] == b@[i as int]@);
            assert(av.skip(i as int).skip(1) =~= av.skip(i as int + 1));
            assert(bv.skip(i as int).skip(1) =~= bv.skip(i as int + 1));
        }
        i = i + 1;
    }
    proof {
        if i < alen && i < blen {
            assert(av.skip(i as int)[0] == a@[i as int]@);
            assert(bv.skip(i as int)[0] == b@[i as int]@);
            assert(common_len(av.skip(i as int), bv.skip(i as int)) == 0);
        } else {
            assert(av.skip(i as int).len() == 0 || bv.skip(i as int).len() == 0);
            assert(common_len(av.skip(i as int), bv.skip(i as int)) == 0);
        }
    }
    i
}

/// The shortest relative reference from `base` to `target`: a pure, total
/// function — some reference always exists, the absolute serialization in
/// the worst case.
#[verifier::loop_isolation(false)]
#[verifier::rlimit(100)]
pub fn make_relative_url(base: &Url, target: &Url) -> (r: Vec<u8>)
    ensures
        r@ == spec_make_relative(base@, target@),
{
    let (babs, tabs) = match (&base.path, &target.path) {
        (UrlPath::Segments(bs), UrlPath::Segments(ts)) => (bs, ts),
        _ => {
            return target.serialize();
        },
    };
    if !crate::scan::eq_bytes(base.scheme.as_slice(), target.scheme.as_slice())
        || !crate::scan::eq_bytes(base.username.as_slice(), target.username.as_slice()) || !opt_eq(
        &base.password,
        &target.password,
    ) || !opt_eq(&base.host, &target.host) || !port_eq(base.port, target.port) || babs.len() == 0
        || tabs.len() == 0 {
        return target.serialize();
    }
    let mut out: Vec<u8> = Vec::new();
    let paths_differ = !segs_eq(babs, tabs);
    let query_differ = !opt_eq(&base.query, &target.query);
    if paths_differ || (query_differ && target.query.is_none()) {
        // Relative path: climb out of the base directory, then descend.
        let ghost bsegs = babs.deep_view();
        let ghost tsegs = tabs.deep_view();
        let c = common_prefix(babs, babs.len() - 1, tabs, tabs.len() - 1);
        proof {
            assert(babs.deep_view().take(babs@.len() - 1) =~= bsegs.drop_last());
            assert(tabs.deep_view().take(tabs@.len() - 1) =~= tsegs.drop_last());
        }
        let ups = babs.len() - 1 - c;
        let mut pieces: Vec<Vec<u8>> = Vec::new();
        let mut k: usize = 0;
        while k < ups
            invariant
                k <= ups,
                pieces.deep_view() == Seq::new(k as nat, |i: int| crate::scan::seq_dotdot()),
            decreases ups - k,
        {
            let ghost pre = pieces.deep_view();
            proof {
                lemma_dv(pieces);
            }
            let mut dd: Vec<u8> = Vec::new();
            dd.push(0x2E);
            dd.push(0x2E);
            proof {
                assert(dd@ =~= crate::scan::seq_dotdot());
            }
            pieces.push(dd);
            k = k + 1;
            proof {
                lemma_dv(pieces);
                assert(pieces.deep_view() =~= Seq::new(
                    k as nat,
                    |i: int| crate::scan::seq_dotdot(),
                ));
            }
        }
        let mut k2 = c;
        while k2 < tabs.len() - 1
            invariant
                c <= k2 <= tabs@.len() - 1,
                tabs@.len() >= 1,
                c <= babs@.len() - 1,
                pieces.deep_view() == Seq::new(ups as nat, |i: int| crate::scan::seq_dotdot())
                    + tsegs.drop_last().subrange(c as int, k2 as int),
                tsegs == tabs.deep_view(),
                ups == babs@.len() - 1 - c,
            decreases tabs@.len() - k2,
        {
            let ghost pre = pieces.deep_view();
            proof {
                lemma_dv(pieces);
            }
            pieces.push(subvec(tabs[k2].as_slice(), 0, tabs[k2].len()));
            k2 = k2 + 1;
            proof {
                lemma_dv(pieces);
                lemma_dv(*tabs);
                assert(tabs@[k2 - 1]@.subrange(0, tabs@[k2 - 1]@.len() as int) =~= tabs@[k2
                    - 1]@);
                assert(tsegs.drop_last()[k2 - 1] == tsegs[k2 - 1]);
                assert(pieces.deep_view() =~= Seq::new(
                    ups as nat,
                    |i: int| crate::scan::seq_dotdot(),
                ) + tsegs.drop_last().subrange(c as int, k2 as int));
            }
        }
        let last = subvec(tabs[tabs.len() - 1].as_slice(), 0, tabs[tabs.len() - 1].len());
        let ghost pre = pieces.deep_view();
        proof {
            lemma_dv(pieces);
        }
        pieces.push(last);
        proof {
            lemma_dv(pieces);
            lemma_dv(*tabs);
            assert(tabs@[tabs@.len() - 1]@.subrange(
                0,
                tabs@[tabs@.len() - 1]@.len() as int,
            ) =~= tabs@[tabs@.len() - 1]@);
            assert(tsegs.drop_last().subrange(c as int, tsegs.len() - 1) =~= tsegs.drop_last().skip(
                c as int,
            ));
            assert(pieces.deep_view() =~= Seq::new(ups as nat, |i: int| crate::scan::seq_dotdot())
                + tsegs.drop_last().skip(c as int) + seq![tsegs.last()]);
        }
        // Guard an ambiguous first piece behind a `.` segment.
        let first_len = pieces[0].len();
        let colon = crate::scan::scan_from(pieces[0].as_slice(), 0, StopKind::Colon);
        let guarded = first_len == 0 || colon < first_len;
        proof {
            lemma_dv(pieces);
        }
        if guarded {
            let mut with_dot: Vec<Vec<u8>> = Vec::new();
            let mut d: Vec<u8> = Vec::new();
            d.push(0x2E);
            proof {
                assert(d@ =~= crate::scan::seq_dot());
            }
            with_dot.push(d);
            let ghost tailv = pieces.deep_view();
            let mut rest = pieces;
            with_dot.append(&mut rest);
            proof {
                lemma_dv(with_dot);
                assert(with_dot.deep_view() =~= seq![crate::scan::seq_dot()] + tailv);
                assert(with_dot.deep_view() =~= rel_segs(bsegs, tsegs));
            }
            pieces = with_dot;
        } else {
            proof {
                assert(pieces.deep_view() =~= rel_segs(bsegs, tsegs));
            }
        }
        let mut tmp: Vec<u8> = Vec::new();
        crate::model::push_segs(&mut tmp, &pieces);
        proof {
            assert(pieces.deep_view().len() >= 1);
            assert(ser_segs(pieces.deep_view()).len() >= 1);
        }
        out = subvec(tmp.as_slice(), 1, tmp.len());
        proof {
            assert(tmp@.subrange(1, tmp@.len() as int) =~= ser_segs(pieces.deep_view()).skip(1));
        }
        match &target.query {
            Some(q) => {
                out.push(0x3F);
                crate::model::push_all(&mut out, q.as_slice());
            },
            None => {},
        }
        match &target.fragment {
            Some(f) => {
                out.push(0x23);
                crate::model::push_all(&mut out, f.as_slice());
            },
            None => {},
        }
        proof {
            assert(out@ =~= spec_make_relative(base@, target@));
        }
        out
    } else if query_differ {
        match &target.query {
            Some(q) => {
                out.push(0x3F);
                crate::model::push_all(&mut out, q.as_slice());
            },
            None => {
                proof {
                    assert(false);
                }
            },
        }
        match &target.fragment {
            Some(f) => {
                out.push(0x23);
                crate::model::push_all(&mut out, f.as_slice());
            },
            None => {},
        }
        proof {
            assert(out@ =~= spec_make_relative(base@, target@));
        }
        out
    } else {
        match &target.fragment {
            Some(f) => {
                out.push(0x23);
                crate::model::push_all(&mut out, f.as_slice());
            },
            None => {},
        }
        proof {
            assert(out@ =~= spec_make_relative(base@, target@));
        }
        out
    }
}

} // verus!
