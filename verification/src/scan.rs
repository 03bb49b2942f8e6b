//! Sequence scanning primitives shared by the parser, the serializer and
//! their inverse lemmas: first-stop scanning, last-byte search, whitespace
//! trimming, path-segment splitting/serialization and dot-segment removal.

use vstd::prelude::*;

verus! {

/// First index `k >= i` with `stop(s[k])`, or `s.len()` if none.
pub open spec fn scan(s: Seq<u8>, i: int, stop: spec_fn(u8) -> bool) -> int
    decreases s.len() - i,
{
    if i < 0 || i >= s.len() {
        s.len() as int
    } else if stop(s[i]) {
        i
    } else {
        scan(s, i + 1, stop)
    }
}

pub proof fn lemma_scan_bounds(s: Seq<u8>, i: int, stop: spec_fn(u8) -> bool)
    requires
        0 <= i <= s.len(),
    ensures
        i <= scan(s, i, stop) <= s.len(),
        forall|j: int| i <= j < scan(s, i, stop) ==> !stop(s[j]),
        scan(s, i, stop) < s.len() ==> stop(s[scan(s, i, stop)]),
    decreases s.len() - i,
{
    if i < s.len() && !stop(s[i]) {
        lemma_scan_bounds(s, i + 1, stop);
    }
}

/// If no byte in `[i, k)` stops and `k` is the length or a stop, the scan
/// from `i` ends exactly at `k`.
pub proof fn lemma_scan_runs(s: Seq<u8>, i: int, k: int, stop: spec_fn(u8) -> bool)
    requires
        0 <= i <= k <= s.len(),
        forall|j: int| i <= j < k ==> !stop(s[j]),
        k == s.len() || stop(s[k]),
    ensures
        scan(s, i, stop) == k,
    decreases k - i,
{
    if i < k {
        lemma_scan_runs(s, i + 1, k, stop);
    }
}

/// Index of the last occurrence of `b` in `s`, if any.
pub open spec fn last_index(s: Seq<u8>, b: u8) -> Option<int>
    decreases s.len(),
{
    if s.len() == 0 {
        None
    } else if s[s.len() - 1] == b {
        Some(s.len() - 1)
    } else {
        last_index(s.drop_last(), b)
    }
}

pub proof fn lemma_last_index_none(s: Seq<u8>, b: u8)
    requires
        forall|i: int| 0 <= i < s.len() ==> s[i] != b,
    ensures
        last_index(s, b) is None,
    decreases s.len(),
{
    if s.len() > 0 {
        lemma_last_index_none(s.drop_last(), b);
    }
}

/// In `u + [b] + t` with `b` absent from `t`, the last `b` is at `u.len()`.
pub proof fn lemma_last_index_concat(u: Seq<u8>, t: Seq<u8>, b: u8)
    requires
        forall|i: int| 0 <= i < t.len() ==> t[i] != b,
    ensures
        last_index(u + seq![b] + t, b) == Some(u.len() as int),
    decreases t.len(),
{
    let w = u + seq![b] + t;
    if t.len() == 0 {
        assert(w[w.len() - 1] == b);
    } else {
        assert(w[w.len() - 1] == t[t.len() - 1]);
        assert(w.drop_last() =~= u + seq![b] + t.drop_last());
        lemma_last_index_concat(u, t.drop_last(), b);
    }
}

/// Drop trailing bytes `<= 0x20`.
pub open spec fn trim_end(s: Seq<u8>) -> Seq<u8>
    decreases s.len(),
{
    if s.len() > 0 && s[s.len() - 1] <= 0x20 {
        trim_end(s.drop_last())
    } else {
        s
    }
}

/// Strip leading and trailing ASCII controls and space.
pub open spec fn spec_trim(s: Seq<u8>) -> Seq<u8> {
    trim_end(s.skip(scan(s, 0, |b: u8| b > 0x20)))
}

/// Trimming leaves a sequence without controls or spaces unchanged.
pub proof fn lemma_trim_identity(s: Seq<u8>)
    requires
        forall|i: int| 0 <= i < s.len() ==> s[i] > 0x20,
    ensures
        spec_trim(s) == s,
{
    lemma_scan_runs(s, 0, 0, |b: u8| b > 0x20);
    assert(s.skip(0) =~= s);
}

/// A path separator: `/`, and `\` too for special schemes.
pub open spec fn is_sep(b: u8, special: bool) -> bool {
    b == 0x2F || (special && b == 0x5C)
}

/// Split on separators; always returns at least one (possibly empty) piece.
pub open spec fn split_seps(s: Seq<u8>, special: bool) -> Seq<Seq<u8>>
    decreases s.len(),
    via split_seps_decreases
{
    let k = scan(s, 0, |b: u8| is_sep(b, special));
    if k == s.len() {
        seq![s]
    } else {
        seq![s.take(k)] + split_seps(s.skip(k + 1), special)
    }
}

#[via_fn]
proof fn split_seps_decreases(s: Seq<u8>, special: bool) {
    lemma_scan_bounds(s, 0, |b: u8| is_sep(b, special));
}

/// Serialize segments: one leading `/` before each segment.
pub open spec fn ser_segs(segs: Seq<Seq<u8>>) -> Seq<u8>
    decreases segs.len(),
{
    if segs.len() == 0 {
        Seq::empty()
    } else {
        seq![0x2Fu8] + segs[0] + ser_segs(segs.skip(1))
    }
}

pub open spec fn sep_free(s: Seq<u8>, special: bool) -> bool {
    forall|i: int| 0 <= i < s.len() ==> !is_sep(s[i], special)
}

/// Splitting `first ++ ser_segs(segs)` recovers `[first] ++ segs` when no
/// piece contains a separator.
pub proof fn lemma_split_ser(first: Seq<u8>, segs: Seq<Seq<u8>>, special: bool)
    requires
        sep_free(first, special),
        forall|i: int| 0 <= i < segs.len() ==> sep_free(#[trigger] segs[i], special),
    ensures
        split_seps(first + ser_segs(segs), special) == seq![first] + segs,
    decreases segs.len(),
{
    let stop = |b: u8| is_sep(b, special);
    let w = first + ser_segs(segs);
    if segs.len() == 0 {
        assert(w =~= first);
        lemma_scan_runs(w, 0, w.len() as int, stop);
        assert(split_seps(w, special) =~= seq![first] + segs);
    } else {
        assert(w[first.len() as int] == 0x2F);
        assert forall|j: int| 0 <= j < first.len() implies !stop(w[j]) by {
            assert(w[j] == first[j]);
        }
        lemma_scan_runs(w, 0, first.len() as int, stop);
        assert(w.take(first.len() as int) =~= first);
        assert(w.skip(first.len() as int + 1) =~= segs[0] + ser_segs(segs.skip(1)));
        lemma_split_ser(segs[0], segs.skip(1), special);
        assert(seq![segs[0]] + segs.skip(1) =~= segs);
        assert(split_seps(w, special) =~= seq![first] + segs);
    }
}

pub open spec fn seq_dot() -> Seq<u8> {
    seq![0x2Eu8]
}

pub open spec fn seq_dotdot() -> Seq<u8> {
    seq![0x2Eu8, 0x2Eu8]
}

/// Dot-segment removal over a worklist: `.` is skipped, `..` pops the last
/// output segment; either, in last position, leaves an empty segment.
pub open spec fn rm_rec(acc: Seq<Seq<u8>>, rest: Seq<Seq<u8>>) -> Seq<Seq<u8>>
    decreases rest.len(),
{
    if rest.len() == 0 {
        acc
    } else {
        let h = rest[0];
        let tail = rest.skip(1);
        let at_end = rest.len() == 1;
        if h == seq_dot() {
            if at_end {
                rm_rec(acc.push(Seq::empty()), tail)
            } else {
                rm_rec(acc, tail)
            }
        } else if h == seq_dotdot() {
            let acc2 = if acc.len() > 0 {
                acc.drop_last()
            } else {
                acc
            };
            if at_end {
                rm_rec(acc2.push(Seq::empty()), tail)
            } else {
                rm_rec(acc2, tail)
            }
        } else {
            rm_rec(acc.push(h), tail)
        }
    }
}

pub open spec fn rm_dots(pieces: Seq<Seq<u8>>) -> Seq<Seq<u8>> {
    rm_rec(Seq::empty(), pieces)
}

pub open spec fn dot_free(segs: Seq<Seq<u8>>) -> bool {
    forall|i: int|
        0 <= i < segs.len() ==> #[trigger] segs[i] != seq_dot() && segs[i] != seq_dotdot()
}

/// On a dot-free worklist, removal just appends it to the accumulator.
pub proof fn lemma_rm_rec_dotfree(acc: Seq<Seq<u8>>, rest: Seq<Seq<u8>>)
    requires
        dot_free(rest),
    ensures
        rm_rec(acc, rest) == acc + rest,
    decreases rest.len(),
{
    if rest.len() == 0 {
        assert(acc + rest =~= acc);
    } else {
        assert(rest[0] != seq_dot() && rest[0] != seq_dotdot());
        lemma_rm_rec_dotfree(acc.push(rest[0]), rest.skip(1));
        assert(acc.push(rest[0]) + rest.skip(1) =~= acc + rest);
    }
}

/// Removal keeps any bytewise segment property that the empty segment has,
/// yields a dot-free result, and never empties a nonempty worklist.
pub proof fn lemma_rm_rec_props(p: spec_fn(Seq<u8>) -> bool, acc: Seq<Seq<u8>>, rest: Seq<
    Seq<u8>,
>)
    requires
        p(Seq::<u8>::empty()),
        forall|i: int| 0 <= i < acc.len() ==> p(#[trigger] acc[i]),
        forall|i: int| 0 <= i < rest.len() ==> p(#[trigger] rest[i]),
        dot_free(acc),
    ensures
        forall|i: int| 0 <= i < rm_rec(acc, rest).len() ==> p(#[trigger] rm_rec(acc, rest)[i]),
        dot_free(rm_rec(acc, rest)),
        rest.len() >= 1 ==> rm_rec(acc, rest).len() >= 1,
        rest.len() == 0 ==> rm_rec(acc, rest) == acc,
    decreases rest.len(),
{
    if rest.len() > 0 {
        let h = rest[0];
        let tail = rest.skip(1);
        let at_end = rest.len() == 1;
        assert(Seq::<u8>::empty().len() == 0 && seq_dot().len() == 1 && seq_dotdot().len() == 2);
        assert(Seq::<u8>::empty() != seq_dot() && Seq::<u8>::empty() != seq_dotdot());
        assert forall|a: Seq<Seq<u8>>| dot_free(a) implies dot_free(
            a.push(Seq::<u8>::empty()),
        ) by {
            assert(forall|i: int|
                0 <= i < a.len() ==> #[trigger] a.push(Seq::<u8>::empty())[i] == a[i]);
        }
        if h == seq_dot() {
            if at_end {
                lemma_rm_rec_props(p, acc.push(Seq::empty()), tail);
            } else {
                lemma_rm_rec_props(p, acc, tail);
            }
        } else if h == seq_dotdot() {
            let acc2 = if acc.len() > 0 {
                acc.drop_last()
            } else {
                acc
            };
            assert(forall|i: int| 0 <= i < acc2.len() ==> p(#[trigger] acc2[i]));
            if at_end {
                lemma_rm_rec_props(p, acc2.push(Seq::empty()), tail);
            } else {
                lemma_rm_rec_props(p, acc2, tail);
            }
        } else {
            lemma_rm_rec_props(p, acc.push(h), tail);
        }
    }
}

/// The parser's stop sets, one per scanning context. `AuthEnd(special)`
/// additionally stops on `\` for special schemes; `NonSlash` stops on the
/// first byte that is neither `/` nor `\`.
#[derive(Clone, Copy)]
pub enum StopKind {
    NotWs,
    NonScheme,
    AuthEnd(bool),
    Colon,
    RBracket,
    QueryOrHash,
    Hash,
    NonSlash,
    Sep(bool),
    Amp,
    EqSign,
}

pub open spec fn stop_spec(k: StopKind, b: u8) -> bool {
    match k {
        StopKind::NotWs => b > 0x20,
        StopKind::NonScheme => !crate::ascii::spec_is_scheme_byte(b),
        StopKind::AuthEnd(special) => b == 0x2F || b == 0x3F || b == 0x23 || (special && b
            == 0x5C),
        StopKind::Colon => b == 0x3A,
        StopKind::RBracket => b == 0x5D,
        StopKind::QueryOrHash => b == 0x3F || b == 0x23,
        StopKind::Hash => b == 0x23,
        StopKind::NonSlash => b != 0x2F && b != 0x5C,
        StopKind::Sep(special) => is_sep(b, special),
        StopKind::Amp => b == 0x26,
        StopKind::EqSign => b == 0x3D,
    }
}

pub open spec fn stop_fn(k: StopKind) -> spec_fn(u8) -> bool {
    |b: u8| stop_spec(k, b)
}

fn stop_exec(k: StopKind, b: u8) -> (r: bool)
    ensures
        r == stop_spec(k, b),
{
    match k {
        StopKind::NotWs => b > 0x20,
        StopKind::NonScheme => !crate::ascii::is_scheme_byte(b),
        StopKind::AuthEnd(special) => b == 0x2F || b == 0x3F || b == 0x23 || (special && b
            == 0x5C),
        StopKind::Colon => b == 0x3A,
        StopKind::RBracket => b == 0x5D,
        StopKind::QueryOrHash => b == 0x3F || b == 0x23,
        StopKind::Hash => b == 0x23,
        StopKind::NonSlash => b != 0x2F && b != 0x5C,
        StopKind::Sep(special) => b == 0x2F || (special && b == 0x5C),
        StopKind::Amp => b == 0x26,
        StopKind::EqSign => b == 0x3D,
    }
}

/// First stop position at or after `i`.
pub fn scan_from(s: &[u8], i: usize, k: StopKind) -> (r: usize)
    requires
        i <= s@.len(),
    ensures
        r == scan(s@, i as int, stop_fn(k)),
        i <= r <= s@.len(),
        forall|j: int| i <= j < r ==> !stop_spec(k, s@[j]),
        r < s@.len() ==> stop_spec(k, s@[r as int]),
{
    let mut j = i;
    while j < s.len() && !stop_exec(k, s[j])
        invariant
            i <= j <= s@.len(),
            scan(s@, i as int, stop_fn(k)) == scan(s@, j as int, stop_fn(k)),
        decreases s@.len() - j,
    {
        j = j + 1;
    }
    proof {
        lemma_scan_bounds(s@, i as int, stop_fn(k));
    }
    j
}

/// Index of the last `b` in `s`, if any.
pub fn rfind_byte(s: &[u8], b: u8) -> (r: Option<usize>)
    ensures
        match r {
            Some(i) => last_index(s@, b) == Some(i as int) && i < s@.len(),
            None => last_index(s@, b) is None,
        },
{
    let mut j = s.len();
    proof {
        assert(s@.take(s@.len() as int) =~= s@);
    }
    while j > 0
        invariant
            j <= s@.len(),
            last_index(s@, b) == last_index(s@.take(j as int), b),
        decreases j,
    {
        proof {
            assert(s@.take(j as int).drop_last() =~= s@.take(j as int - 1));
            assert(s@.take(j as int).last() == s@[j - 1]);
        }
        if s[j - 1] == b {
            return Some(j - 1);
        }
        j = j - 1;
    }
    proof {
        assert(s@.take(0) =~= Seq::<u8>::empty());
    }
    None
}

/// Copy of `s[a..b]`.
pub fn subvec(s: &[u8], a: usize, b: usize) -> (r: Vec<u8>)
    requires
        a <= b <= s@.len(),
    ensures
        r@ == s@.subrange(a as int, b as int),
{
    let mut out: Vec<u8> = Vec::new();
    let mut i = a;
    while i < b
        invariant
            a <= i <= b <= s@.len(),
            out@ == s@.subrange(a as int, i as int),
        decreases b - i,
    {
        out.push(s[i]);
        i = i + 1;
        proof {
            assert(s@.subrange(a as int, i as int) =~= s@.subrange(a as int, i as int - 1).push(
                s@[i - 1],
            ));
        }
    }
    out
}

pub fn eq_bytes(a: &[u8], b: &[u8]) -> (r: bool)
    ensures
        r == (a@ == b@),
{
    if a.len() != b.len() {
        proof {
            if a@ == b@ {
                assert(a@.len() == b@.len());
            }
        }
        return false;
    }
    let mut i: usize = 0;
    while i < a.len()
        invariant
            i <= a@.len(),
            a@.len() == b@.len(),
            forall|j: int| 0 <= j < i ==> a@[j] == b@[j],
        decreases a@.len() - i,
    {
        if a[i] != b[i] {
            proof {
                if a@ == b@ {
                    assert(a@[i as int] == b@[i as int]);
                }
            }
            return false;
        }
        i = i + 1;
    }
    proof {
        assert(a@ =~= b@);
    }
    true
}

/// The deep view of a segment vector, elementwise.
pub proof fn lemma_dv(v: Vec<Vec<u8>>)
    ensures
        v.deep_view().len() == v@.len(),
        forall|i: int| 0 <= i < v@.len() ==> v.deep_view()[i] == #[trigger] v@[i]@,
{
    assert forall|i: int| 0 <= i < v@.len() implies v.deep_view()[i] == #[trigger] v@[i]@ by {
        assert(v@[i].deep_view() =~= v@[i]@);
    }
}

/// Strip leading and trailing ASCII controls and space.
pub fn trim_bytes(s: &[u8]) -> (r: Vec<u8>)
    ensures
        r@ == spec_trim(s@),
{
    let a = scan_from(s, 0, StopKind::NotWs);
    let mut e = s.len();
    proof {
        assert(s@.skip(a as int).take(s@.len() - a as int) =~= s@.skip(a as int));
    }
    while e > a && s[e - 1] <= 0x20
        invariant
            a <= e <= s@.len(),
            trim_end(s@.skip(a as int)) == trim_end(s@.skip(a as int).take(e - a as int)),
        decreases e,
    {
        proof {
            let t = s@.skip(a as int);
            assert(t.take(e - a as int).last() == s@[e - 1]);
            assert(t.take(e - a as int).drop_last() =~= t.take(e - 1 - a as int));
        }
        e = e - 1;
    }
    proof {
        let t = s@.skip(a as int);
        if e > a {
            assert(t.take(e - a as int).last() == s@[e - 1]);
        }
        assert(trim_end(t.take(e - a as int)) == t.take(e - a as int));
        assert(t.take(e - a as int) =~= s@.subrange(a as int, e as int));
        assert(stop_fn(StopKind::NotWs) =~= (|b: u8| b > 0x20));
    }
    subvec(s, a, e)
}

} // verus!
