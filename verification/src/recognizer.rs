//! The prefix recognizer: maps a request path to the registered pattern
//! that matches it best, or to the partially matching candidates.
//!
//! Every non-catch-all pattern segment consumes exactly one path segment
//! (the text between two `/`), so the segments of any two patterns that
//! match one path line up position by position.  At each position a literal
//! is preferred over a parameter, and a parameter over a catch-all; the
//! recognizer returns the pattern that is least in the induced
//! position-by-position (lexicographic) order.

use vstd::prelude::*;
use crate::strutil::{str_eq, lcp, lemma_lcp_bounds};
use crate::uri::{Segment, SegSpec, seg_end, lemma_seg_end, lemma_seg_end_unique, find_seg_end, render, render_path};

verus! {

/// One pattern segment matches one path segment.
pub open spec fn seg_matches(g: SegSpec, t: Seq<char>) -> bool {
    match g {
        SegSpec::Literal(l) => t == l,
        SegSpec::Param(_) => true,
        SegSpec::CatchAll(_) => true,
    }
}

/// The pattern suffix from `k` matches the path from position `i`,
/// where `i` points just past a `/`.
pub open spec fn match_from(segs: Seq<SegSpec>, k: int, path: Seq<char>, i: int) -> bool
    decreases segs.len() - k,
{
    if k < 0 || k >= segs.len() {
        i == path.len()
    } else if segs[k].is_catch_all() {
        k == segs.len() - 1
    } else {
        let j = seg_end(path, i);
        seg_matches(segs[k], path.subrange(i, j)) && (if k == segs.len() - 1 {
            j == path.len()
        } else {
            j < path.len() && match_from(segs, k + 1, path, j + 1)
        })
    }
}

/// The pattern matches the whole path.
pub open spec fn uri_matches(segs: Seq<SegSpec>, path: Seq<char>) -> bool {
    path.len() >= 1 && path[0] == '/' && match_from(segs, 0, path, 1)
}

/// The capture ranges (start and end positions in the path) that matching
/// the pattern suffix from `k` against the path from `i` extracts.
pub open spec fn caps_from(segs: Seq<SegSpec>, k: int, path: Seq<char>, i: int) -> Seq<(int, int)>
    decreases segs.len() - k,
{
    if k < 0 || k >= segs.len() {
        seq![]
    } else if segs[k].is_catch_all() {
        seq![(i, path.len() as int)]
    } else {
        let j = seg_end(path, i);
        (match segs[k] {
            SegSpec::Param(_) => seq![(i, j)],
            _ => Seq::<(int, int)>::empty(),
        }) + caps_from(segs, k + 1, path, j + 1)
    }
}

/// The capture ranges of a whole-path match.
pub open spec fn uri_captures(segs: Seq<SegSpec>, path: Seq<char>) -> Seq<(int, int)> {
    caps_from(segs, 0, path, 1)
}

/// Captured path parameters: positions into the queried path, in the order
/// of the pattern's captures.
#[derive(Clone, Debug)]
pub struct Captures {
    pub ranges: Vec<(usize, usize)>,
}

impl View for Captures {
    type V = Seq<(int, int)>;

    open spec fn view(&self) -> Seq<(int, int)> {
        self.ranges@.map_values(|r: (usize, usize)| (r.0 as int, r.1 as int))
    }
}

/// Matches one compiled pattern against a path; on success returns the
/// captured ranges.
pub fn match_uri(segs: &Vec<Segment>, path: &str) -> (r: Option<Captures>)
    requires
        path@.len() >= 1,
        path@[0] == '/',
    ensures
        match r {
            Some(c) => uri_matches(segs@.map_values(|g: Segment| g@), path@)
                && c@ == uri_captures(segs@.map_values(|g: Segment| g@), path@),
            None => !uri_matches(segs@.map_values(|g: Segment| g@), path@),
        },
{
    let ghost model = segs@.map_values(|g: Segment| g@);
    let len = path.unicode_len();
    let mut ranges: Vec<(usize, usize)> = Vec::new();
    let mut k: usize = 0;
    let mut i: usize = 1;
    proof {
        assert(ranges@.map_values(|r: (usize, usize)| (r.0 as int, r.1 as int))
            =~= Seq::<(int, int)>::empty());
    }
    loop
        invariant
            0 <= k <= segs.len(),
            1 <= i <= len,
            len == path@.len(),
            path@[0] == '/',
            model == segs@.map_values(|g: Segment| g@),
            uri_matches(model, path@) == match_from(model, k as int, path@, i as int),
            match_from(model, k as int, path@, i as int) ==> uri_captures(model, path@)
                =~= ranges@.map_values(|r: (usize, usize)| (r.0 as int, r.1 as int))
                    + caps_from(model, k as int, path@, i as int),
        decreases segs.len() - k,
    {
        if k >= segs.len() {
            if i == len {
                let c = Captures { ranges };
                return Some(c);
            } else {
                return None;
            }
        }
        let ghost built = ranges@.map_values(|r: (usize, usize)| (r.0 as int, r.1 as int));
        match &segs[k] {
            Segment::CatchAll(_) => {
                if k == segs.len() - 1 {
                    ranges.push((i, len));
                    proof {
                        assert(ranges@.map_values(|r: (usize, usize)| (r.0 as int, r.1 as int))
                            =~= built.push((i as int, len as int)));
                        assert(caps_from(model, k as int, path@, i as int)
                            =~= seq![(i as int, len as int)]);
                    }
                    let c = Captures { ranges };
                    return Some(c);
                } else {
                    return None;
                }
            },
            Segment::Literal(l) => {
                let j = find_seg_end(path, i);
                proof {
                    lemma_seg_end(path@, i as int);
                }
                let sub = path.substring_char(i, j);
                if !str_eq(sub, l.as_str()) {
                    assert(!seg_matches(model[k as int], path@.subrange(i as int, j as int)));
                    return None;
                }
                if k == segs.len() - 1 {
                    if j == len {
                        proof {
                            assert(caps_from(model, k as int, path@, i as int)
                                =~= caps_from(model, k as int + 1, path@, j as int + 1));
                        }
                        let c = Captures { ranges };
                        return Some(c);
                    } else {
                        return None;
                    }
                } else {
                    if j >= len {
                        return None;
                    }
                    proof {
                        assert(caps_from(model, k as int, path@, i as int)
                            =~= caps_from(model, k as int + 1, path@, j as int + 1));
                    }
                    k = k + 1;
                    i = j + 1;
                }
            },
            Segment::Param(_) => {
                let j = find_seg_end(path, i);
                proof {
                    lemma_seg_end(path@, i as int);
                }
                ranges.push((i, j));
                proof {
                    assert(ranges@.map_values(|r: (usize, usize)| (r.0 as int, r.1 as int))
                        =~= built.push((i as int, j as int)));
                }
                if k == segs.len() - 1 {
                    if j == len {
                        proof {
                            assert(caps_from(model, k as int, path@, i as int)
                                =~= seq![(i as int, j as int)]
                                    + caps_from(model, k as int + 1, path@, j as int + 1));
                            assert(caps_from(model, k as int + 1, path@, j as int + 1)
                                =~= Seq::<(int, int)>::empty());
                        }
                        let c = Captures { ranges };
                        return Some(c);
                    } else {
                        return None;
                    }
                } else {
                    if j >= len {
                        return None;
                    }
                    proof {
                        assert(caps_from(model, k as int, path@, i as int)
                            =~= seq![(i as int, j as int)]
                                + caps_from(model, k as int + 1, path@, j as int + 1));
                    }
                    k = k + 1;
                    i = j + 1;
                }
            },
        }
    }
}

/// The preference rank of a segment: literal before parameter before
/// catch-all.
pub open spec fn rank(g: SegSpec) -> int {
    match g {
        SegSpec::Literal(_) => 0,
        SegSpec::Param(_) => 1,
        SegSpec::CatchAll(_) => 2,
    }
}

pub open spec fn rank_seq(segs: Seq<SegSpec>) -> Seq<int> {
    segs.map_values(|g: SegSpec| rank(g))
}

/// Strict lexicographic order on rank sequences; a proper prefix comes
/// before its extensions.
pub open spec fn lex_lt(a: Seq<int>, b: Seq<int>) -> bool
    decreases a.len(),
{
    if b.len() == 0 {
        false
    } else if a.len() == 0 {
        true
    } else if a[0] < b[0] {
        true
    } else if a[0] > b[0] {
        false
    } else {
        lex_lt(a.drop_first(), b.drop_first())
    }
}

/// The pattern `p` is preferred over `q` at every path both match.
pub open spec fn precedes(p: Seq<SegSpec>, q: Seq<SegSpec>) -> bool {
    lex_lt(rank_seq(p), rank_seq(q))
}

pub proof fn lemma_lex_lt_irrefl(a: Seq<int>)
    ensures
        !lex_lt(a, a),
    decreases a.len(),
{
    if a.len() > 0 {
        lemma_lex_lt_irrefl(a.drop_first());
    }
}

pub proof fn lemma_lex_lt_trans(a: Seq<int>, b: Seq<int>, c: Seq<int>)
    requires
        lex_lt(a, b),
        lex_lt(b, c),
    ensures
        lex_lt(a, c),
    decreases a.len(),
{
    if a.len() > 0 && b.len() > 0 && c.len() > 0 && a[0] == b[0] && b[0] == c[0] {
        lemma_lex_lt_trans(a.drop_first(), b.drop_first(), c.drop_first());
    }
}

pub proof fn lemma_lex_lt_total(a: Seq<int>, b: Seq<int>)
    requires
        !lex_lt(a, b),
        !lex_lt(b, a),
    ensures
        a == b,
    decreases a.len(),
{
    if a.len() == 0 || b.len() == 0 {
        assert(a =~= b);
    } else {
        lemma_lex_lt_total(a.drop_first(), b.drop_first());
        assert(a.drop_first() =~= b.drop_first());
        assert(a.len() == b.len());
        assert forall|t: int| 0 <= t < a.len() implies a[t] == b[t] by {
            if t >= 1 {
                assert(a.drop_first()[t - 1] == b.drop_first()[t - 1]);
            }
        }
        assert(a =~= b);
    }
}

/// The rank of a compiled segment.
fn rank_of(g: &Segment) -> (r: u8)
    ensures
        r as int == rank(g@),
{
    match g {
        Segment::Literal(_) => 0,
        Segment::Param(_) => 1,
        Segment::CatchAll(_) => 2,
    }
}

/// Decides whether `p` is preferred over `q`.
pub fn cmp_priority(p: &Vec<Segment>, q: &Vec<Segment>) -> (r: bool)
    ensures
        r == precedes(
            p@.map_values(|g: Segment| g@),
            q@.map_values(|g: Segment| g@),
        ),
{
    let ghost pm = p@.map_values(|g: Segment| g@);
    let ghost qm = q@.map_values(|g: Segment| g@);
    let mut k: usize = 0;
    proof {
        assert(rank_seq(pm).skip(0) =~= rank_seq(pm));
        assert(rank_seq(qm).skip(0) =~= rank_seq(qm));
    }
    loop
        invariant
            k <= p.len(),
            k <= q.len(),
            pm == p@.map_values(|g: Segment| g@),
            qm == q@.map_values(|g: Segment| g@),
            lex_lt(rank_seq(pm), rank_seq(qm))
                == lex_lt(rank_seq(pm).skip(k as int), rank_seq(qm).skip(k as int)),
        decreases p.len() - k,
    {
        let ghost pa = rank_seq(pm).skip(k as int);
        let ghost qa = rank_seq(qm).skip(k as int);
        if k >= q.len() {
            proof {
                assert(qa.len() == 0);
            }
            return false;
        }
        if k >= p.len() {
            proof {
                assert(pa.len() == 0 && qa.len() > 0);
            }
            return true;
        }
        let rp = rank_of(&p[k]);
        let rq = rank_of(&q[k]);
        proof {
            assert(pa[0] == rank_seq(pm)[k as int]);
            assert(qa[0] == rank_seq(qm)[k as int]);
        }
        if rp < rq {
            return true;
        }
        if rp > rq {
            return false;
        }
        proof {
            assert(pa.drop_first() =~= rank_seq(pm).skip(k as int + 1));
            assert(qa.drop_first() =~= rank_seq(qm).skip(k as int + 1));
        }
        k = k + 1;
    }
}

/// The structural key of a segment: its kind, and its text for literals.
/// Capture names do not enter the key.
pub open spec fn seg_key(g: SegSpec) -> (int, Seq<char>) {
    match g {
        SegSpec::Literal(t) => (0, t),
        SegSpec::Param(_) => (1, Seq::<char>::empty()),
        SegSpec::CatchAll(_) => (2, Seq::<char>::empty()),
    }
}

/// The structural key of a pattern; two patterns with one key match the
/// same paths.
pub open spec fn key_seq(segs: Seq<SegSpec>) -> Seq<(int, Seq<char>)> {
    segs.map_values(|g: SegSpec| seg_key(g))
}

/// Decides structural equality of two patterns, capture names ignored.
pub fn uri_key_eq(p: &Vec<Segment>, q: &Vec<Segment>) -> (r: bool)
    ensures
        r == (key_seq(p@.map_values(|g: Segment| g@))
            == key_seq(q@.map_values(|g: Segment| g@))),
{
    let ghost pm = p@.map_values(|g: Segment| g@);
    let ghost qm = q@.map_values(|g: Segment| g@);
    if p.len() != q.len() {
        proof {
            assert(key_seq(pm).len() != key_seq(qm).len());
        }
        return false;
    }
    let mut k: usize = 0;
    while k < p.len()
        invariant
            k <= p.len(),
            p.len() == q.len(),
            pm == p@.map_values(|g: Segment| g@),
            qm == q@.map_values(|g: Segment| g@),
            forall|t: int| 0 <= t < k ==> seg_key(pm[t]) == seg_key(qm[t]),
        decreases p.len() - k,
    {
        let same = match (&p[k], &q[k]) {
            (Segment::Literal(a), Segment::Literal(b)) => str_eq(a.as_str(), b.as_str()),
            (Segment::Param(_), Segment::Param(_)) => true,
            (Segment::CatchAll(_), Segment::CatchAll(_)) => true,
            _ => false,
        };
        if !same {
            proof {
                assert(key_seq(pm)[k as int] != key_seq(qm)[k as int]);
            }
            return false;
        }
        k = k + 1;
    }
    proof {
        assert(key_seq(pm) =~= key_seq(qm));
    }
    true
}

/// Two patterns that match one path and agree in rank everywhere also agree
/// in key everywhere: the matched path forces the literal texts.
pub proof fn lemma_match_rank_key(
    p: Seq<SegSpec>,
    q: Seq<SegSpec>,
    path: Seq<char>,
    k: int,
    i: int,
)
    requires
        0 <= k <= p.len(),
        p.len() == q.len(),
        0 <= i <= path.len(),
        match_from(p, k, path, i),
        match_from(q, k, path, i),
        forall|t: int| k <= t < p.len() ==> rank(p[t]) == rank(q[t]),
    ensures
        forall|t: int| k <= t < p.len() ==> seg_key(p[t]) == seg_key(q[t]),
    decreases p.len() - k,
{
    if k < p.len() {
        lemma_seg_end(path, i);
        let j = seg_end(path, i);
        if p[k].is_catch_all() {
            assert(q[k].is_catch_all());
            assert(seg_key(p[k]) == seg_key(q[k]));
        } else {
            assert(!q[k].is_catch_all());
            assert(seg_matches(p[k], path.subrange(i, j)));
            assert(seg_matches(q[k], path.subrange(i, j)));
            assert(seg_key(p[k]) == seg_key(q[k])) by {
                match p[k] {
                    SegSpec::Literal(t) => {
                        assert(rank(q[k]) == 0);
                    },
                    SegSpec::Param(_) => {
                        assert(rank(q[k]) == 1);
                    },
                    SegSpec::CatchAll(_) => {},
                }
            }
            if k < p.len() - 1 {
                lemma_match_rank_key(p, q, path, k + 1, j + 1);
            }
        }
    }
}

/// Of two distinct registered patterns that both match a path, exactly one
/// is preferred over the other.
pub proof fn lemma_matchers_ordered(p: Seq<SegSpec>, q: Seq<SegSpec>, path: Seq<char>)
    requires
        uri_matches(p, path),
        uri_matches(q, path),
        key_seq(p) != key_seq(q),
    ensures
        precedes(p, q) <==> !precedes(q, p),
{
    if !precedes(p, q) && !precedes(q, p) {
        lemma_lex_lt_total(rank_seq(p), rank_seq(q));
        assert(p.len() == q.len()) by {
            assert(rank_seq(p).len() == rank_seq(q).len());
        }
        assert forall|t: int| 0 <= t < p.len() implies rank(p[t]) == rank(q[t]) by {
            assert(rank_seq(p)[t] == rank_seq(q)[t]);
        }
        lemma_match_rank_key(p, q, path, 0, 1);
        assert(key_seq(p) =~= key_seq(q));
    }
    if precedes(p, q) && precedes(q, p) {
        lemma_lex_lt_trans(rank_seq(p), rank_seq(q), rank_seq(p));
        lemma_lex_lt_irrefl(rank_seq(p));
    }
}

/// Every segment of the pattern is a literal.
pub open spec fn all_literal(segs: Seq<SegSpec>) -> bool {
    forall|k: int| 0 <= k < segs.len() ==> rank(#[trigger] segs[k]) == 0
}

/// In the strict order, only a shorter all-literal pattern can precede an
/// all-literal pattern.
pub proof fn lemma_lex_lt_all_zero(a: Seq<int>, b: Seq<int>)
    requires
        lex_lt(a, b),
        forall|k: int| 0 <= k < b.len() ==> b[k] == 0,
        forall|k: int| 0 <= k < a.len() ==> a[k] >= 0,
    ensures
        forall|k: int| 0 <= k < a.len() ==> a[k] == 0,
        a.len() < b.len(),
    decreases a.len(),
{
    if a.len() > 0 {
        assert(a[0] == 0);
        lemma_lex_lt_all_zero(a.drop_first(), b.drop_first());
        assert forall|k: int| 0 <= k < a.len() implies a[k] == 0 by {
            if k > 0 {
                assert(a.drop_first()[k - 1] == 0);
            }
        }
    }
}

/// A proper all-literal pattern matches its own rendered path.
proof fn lemma_literal_render_match_from(p: Seq<SegSpec>, k: int, path: Seq<char>, i: int)
    requires
        crate::uri::pattern_proper(p),
        all_literal(p),
        0 <= k < p.len(),
        1 <= i <= path.len(),
        path.subrange(i - 1, path.len() as int) == crate::uri::render_segs(p.skip(k)),
    ensures
        match_from(p, k, path, i),
    decreases p.len() - k,
{
    let tail = p.skip(k);
    assert(tail[0] == p[k]);
    assert(tail.drop_first() =~= p.skip(k + 1));
    assert(rank(p[k]) == 0);
    let t = p[k]->Literal_0;
    assert(crate::uri::seg_text(tail[0]) == t);
    let rest = crate::uri::render_segs(p.skip(k + 1));
    let suffix = path.subrange(i - 1, path.len() as int);
    assert(suffix =~= seq!['/'] + t + rest);
    assert(path.len() - (i - 1) == 1 + t.len() + rest.len());
    assert forall|u: int| 0 <= u < t.len() implies #[trigger] path[i + u] == t[u] by {
        assert(suffix[1 + u] == t[u]);
    }
    assert forall|u: int| 0 <= u < t.len() implies #[trigger] path[i + u] != '/' by {
        assert(t[u] != '/');
    }
    assert forall|u: int| i <= u < i + t.len() implies path[u] != '/' by {
        assert(path[i + (u - i)] != '/');
    }
    if k == p.len() - 1 {
        assert(p.skip(k + 1) =~= Seq::<SegSpec>::empty());
        assert(rest.len() == 0);
        assert(path.len() == i + t.len() as int);
        lemma_seg_end_unique(path, i, i + t.len() as int);
        assert forall|u: int| 0 <= u < t.len()
            implies path.subrange(i, i + t.len() as int)[u] == t[u] by {
            assert(path[i + u] == t[u]);
        }
        assert(path.subrange(i, i + t.len() as int) =~= t);
        assert(seg_matches(p[k], path.subrange(i, seg_end(path, i))));
    } else {
        assert(p.skip(k + 1).len() > 0);
        assert(rest[0] == '/');
        assert(path[i + t.len() as int] == suffix[1 + t.len() as int]);
        assert(path[i + t.len() as int] == '/');
        lemma_seg_end_unique(path, i, i + t.len() as int);
        let j = i + t.len() as int;
        assert forall|u: int| 0 <= u < t.len()
            implies path.subrange(i, j)[u] == t[u] by {
            assert(path[i + u] == t[u]);
        }
        assert(path.subrange(i, j) =~= t);
        assert(seg_matches(p[k], path.subrange(i, seg_end(path, i))));
        assert(j < path.len());
        assert forall|u: int| 0 <= u < rest.len()
            implies path.subrange(j, path.len() as int)[u] == rest[u] by {
            assert(suffix[1 + t.len() as int + u] == path[j + u]);
            assert(suffix[1 + t.len() as int + u] == rest[u]);
        }
        assert(path.subrange(j, path.len() as int) =~= rest);
        lemma_literal_render_match_from(p, k + 1, path, j + 1);
    }
}

/// A proper pattern of literal segments matches exactly the path it renders
/// to.
pub proof fn lemma_literal_matches_render(p: Seq<SegSpec>)
    requires
        crate::uri::pattern_proper(p),
        all_literal(p),
    ensures
        uri_matches(p, crate::uri::render_path(p)),
{
    let path = crate::uri::render_path(p);
    crate::uri::lemma_render_starts_slash(p);
    if p.len() == 0 {
        assert(path =~= seq!['/']);
        assert(match_from(p, 0, path, 1));
    } else {
        assert(p.skip(0) =~= p);
        assert(path.subrange(0, path.len() as int) =~= path);
        lemma_literal_render_match_from(p, 0, path, 1);
    }
}

/// Two proper all-literal patterns that match one path are equal.
pub proof fn lemma_literal_matchers_equal(
    p: Seq<SegSpec>,
    q: Seq<SegSpec>,
    path: Seq<char>,
    k: int,
    i: int,
)
    requires
        crate::uri::pattern_proper(p),
        crate::uri::pattern_proper(q),
        all_literal(p),
        all_literal(q),
        0 <= k <= p.len(),
        k <= q.len(),
        0 <= i <= path.len(),
        match_from(p, k, path, i),
        match_from(q, k, path, i),
    ensures
        p.len() == q.len(),
        forall|t: int| k <= t < p.len() ==> p[t] == q[t],
    decreases p.len() - k,
{
    lemma_seg_end(path, i);
    let j = seg_end(path, i);
    if k == p.len() && k == q.len() {
    } else if k < p.len() && k == q.len() {
        assert(i == path.len());
        assert(j == path.len());
        assert(rank(p[k]) == 0);
        let t = p[k]->Literal_0;
        assert(t == path.subrange(i, j));
        assert(t.len() == 0);
        assert(false);
    } else if k == p.len() && k < q.len() {
        assert(i == path.len());
        assert(j == path.len());
        assert(rank(q[k]) == 0);
        let t = q[k]->Literal_0;
        assert(t == path.subrange(i, j));
        assert(t.len() == 0);
        assert(false);
    } else {
        assert(rank(p[k]) == 0 && rank(q[k]) == 0);
        let tp = p[k]->Literal_0;
        let tq = q[k]->Literal_0;
        assert(tp == path.subrange(i, j) && tq == path.subrange(i, j));
        assert(p[k] == q[k]);
        if k == p.len() - 1 && k == q.len() - 1 {
        } else if k == p.len() - 1 {
            assert(j == path.len());
            assert(false);
        } else if k == q.len() - 1 {
            assert(j == path.len());
            assert(false);
        } else {
            assert(j < path.len());
            lemma_literal_matchers_equal(p, q, path, k + 1, j + 1);
        }
    }
}

/// A failure to register a pattern.
#[derive(Clone, Copy, Debug, PartialEq, Eq, Structural)]
pub enum ConflictError {
    /// The same pattern (capture names ignored) is already registered for a
    /// different resource.
    DuplicateUri,
}

#[derive(Debug)]
struct Entry {
    segs: Vec<Segment>,
    text: String,
}

/// The set of registered patterns, ordered by registration; the index of a
/// pattern is the resource identifier it recognizes.
#[derive(Debug)]
pub struct Recognizer {
    entries: Vec<Entry>,
}

/// The result of recognizing one path.
#[derive(Debug)]
pub enum RecognizeResult {
    /// The path matches a registered pattern exactly.
    Matched(usize, Captures),
    /// No pattern matches, but these registrations share the longest prefix
    /// the path shares with any pattern.
    PartiallyMatched(Vec<usize>),
    /// The path shares no prefix with any registered pattern.
    NotMatched,
}

impl Recognizer {
    /// How many patterns are registered.
    pub closed spec fn count(self) -> int {
        self.entries@.len() as int
    }

    /// The model of the pattern registered at `i`.
    pub closed spec fn pat_at(self, i: int) -> Seq<SegSpec> {
        self.entries@[i].segs@.map_values(|g: Segment| g@)
    }

    /// The rendered text of the pattern registered at `i`.
    pub closed spec fn text_at(self, i: int) -> Seq<char> {
        self.entries@[i].text@
    }

    /// Every stored text renders its pattern, and no two patterns share a
    /// structural key.
    pub open spec fn wf(self) -> bool {
        &&& forall|i: int| 0 <= i < self.count()
            ==> #[trigger] self.text_at(i) == render_path(self.pat_at(i))
        &&& forall|i: int, j: int| 0 <= i < j < self.count()
            ==> key_seq(#[trigger] self.pat_at(i)) != key_seq(#[trigger] self.pat_at(j))
    }

    /// The longest prefix that the path shares with any of the first `n`
    /// registered patterns' texts.
    pub open spec fn share_max(self, path: Seq<char>, n: int) -> int
        decreases n,
    {
        if n <= 0 {
            0
        } else {
            let m = self.share_max(path, n - 1);
            let l = lcp(self.text_at(n - 1), path);
            if l > m {
                l
            } else {
                m
            }
        }
    }

    pub proof fn lemma_share_max(self, path: Seq<char>, n: int)
        ensures
            self.share_max(path, n) >= 0,
            forall|i: int| 0 <= i < n
                ==> lcp(#[trigger] self.text_at(i), path) <= self.share_max(path, n),
        decreases n,
    {
        if n > 0 {
            self.lemma_share_max(path, n - 1);
            lemma_lcp_bounds(self.text_at(n - 1), path);
        }
    }

    /// A positive longest shared prefix is achieved by some pattern.
    pub proof fn lemma_share_max_achieved(self, path: Seq<char>, n: int)
        requires
            self.share_max(path, n) > 0,
        ensures
            exists|m: int| 0 <= m < n
                && lcp(#[trigger] self.text_at(m), path) == self.share_max(path, n),
        decreases n,
    {
        if n > 0 {
            let prev = self.share_max(path, n - 1);
            let l = lcp(self.text_at(n - 1), path);
            if l > prev {
                assert(lcp(self.text_at(n - 1), path) == self.share_max(path, n));
            } else {
                self.lemma_share_max_achieved(path, n - 1);
            }
        }
    }

    /// An empty recognizer.
    pub fn new() -> (r: Recognizer)
        ensures
            r.wf(),
            r.count() == 0,
    {
        Recognizer { entries: Vec::new() }
    }

    /// The number of registered patterns.
    pub fn len(&self) -> (r: usize)
        ensures
            r == self.count(),
    {
        self.entries.len()
    }

    /// Registers a pattern; fails when the same pattern, capture names
    /// ignored, is already present.
    pub fn insert(&mut self, segs: Vec<Segment>) -> (r: Result<usize, ConflictError>)
        requires
            old(self).wf(),
        ensures
            final(self).wf(),
            match r {
                Ok(id) => {
                    &&& id == old(self).count()
                    &&& final(self).count() == old(self).count() + 1
                    &&& final(self).pat_at(id as int) == segs@.map_values(|g: Segment| g@)
                    &&& forall|i: int| 0 <= i < old(self).count()
                        ==> #[trigger] final(self).pat_at(i) == old(self).pat_at(i)
                            && final(self).text_at(i) == old(self).text_at(i)
                    &&& forall|i: int| 0 <= i < old(self).count()
                        ==> key_seq(#[trigger] old(self).pat_at(i))
                            != key_seq(segs@.map_values(|g: Segment| g@))
                },
                Err(e) => {
                    &&& e == ConflictError::DuplicateUri
                    &&& *final(self) == *old(self)
                    &&& exists|i: int| 0 <= i < final(self).count()
                        && key_seq(#[trigger] final(self).pat_at(i))
                            == key_seq(segs@.map_values(|g: Segment| g@))
                },
            },
    {
        let ghost new_model = segs@.map_values(|g: Segment| g@);
        let mut k: usize = 0;
        while k < self.entries.len()
            invariant
                *self == *old(self),
                self.wf(),
                k <= self.entries@.len(),
                new_model == segs@.map_values(|g: Segment| g@),
                forall|i: int| 0 <= i < k
                    ==> key_seq(#[trigger] self.pat_at(i)) != key_seq(new_model),
            decreases self.entries@.len() - k,
        {
            if uri_key_eq(&self.entries[k].segs, &segs) {
                proof {
                    assert(key_seq(self.pat_at(k as int)) == key_seq(new_model));
                }
                return Err(ConflictError::DuplicateUri);
            }
            k = k + 1;
        }
        let text = render(&segs);
        let id = self.entries.len();
        let ghost old_entries = self.entries@;
        self.entries.push(Entry { segs, text });
        proof {
            assert forall|i: int| 0 <= i < old_entries.len()
                implies #[trigger] self.pat_at(i) == old(self).pat_at(i)
                    && self.text_at(i) == old(self).text_at(i) by {
                assert(self.entries@[i] == old_entries[i]);
            }
            assert(self.pat_at(id as int) == new_model);
            assert(self.text_at(id as int) == render_path(new_model));
            assert forall|i: int, j: int| 0 <= i < j < self.count()
                implies key_seq(#[trigger] self.pat_at(i))
                    != key_seq(#[trigger] self.pat_at(j)) by {
                if j < id {
                    assert(old(self).pat_at(i) == self.pat_at(i));
                    assert(old(self).pat_at(j) == self.pat_at(j));
                } else {
                    assert(j == id);
                    assert(key_seq(old(self).pat_at(i)) != key_seq(new_model));
                }
            }
            assert forall|i: int| 0 <= i < self.count()
                implies #[trigger] self.text_at(i) == render_path(self.pat_at(i)) by {
                if i < id {
                    assert(old(self).text_at(i) == render_path(old(self).pat_at(i)));
                }
            }
        }
        Ok(id)
    }

    /// Recognizes a path: the preferred exact match with its captures, the
    /// partially matching candidates, or nothing.
    pub fn recognize(&self, path: &str) -> (r: RecognizeResult)
        requires
            self.wf(),
        ensures
            match r {
                RecognizeResult::Matched(idx, c) => {
                    &&& 0 <= idx < self.count()
                    &&& uri_matches(self.pat_at(idx as int), path@)
                    &&& c@ == uri_captures(self.pat_at(idx as int), path@)
                    &&& forall|m: int| 0 <= m < self.count() && m != idx
                        && uri_matches(#[trigger] self.pat_at(m), path@)
                        ==> precedes(self.pat_at(idx as int), self.pat_at(m))
                },
                RecognizeResult::PartiallyMatched(cands) => {
                    &&& forall|m: int| 0 <= m < self.count()
                        ==> !uri_matches(#[trigger] self.pat_at(m), path@)
                    &&& self.share_max(path@, self.count()) >= 1
                    &&& forall|t: int| 0 <= t < cands@.len()
                        ==> 0 <= #[trigger] cands@[t] < self.count()
                            && lcp(self.text_at(cands@[t] as int), path@)
                                == self.share_max(path@, self.count())
                    &&& forall|m: int| 0 <= m < self.count()
                        && lcp(#[trigger] self.text_at(m), path@)
                            == self.share_max(path@, self.count())
                        ==> cands@.contains(m as usize)
                    &&& forall|a: int, b: int| 0 <= a < b < cands@.len()
                        ==> cands@[a] < cands@[b]
                    &&& cands@.len() > 0
                },
                RecognizeResult::NotMatched => {
                    &&& forall|m: int| 0 <= m < self.count()
                        ==> !uri_matches(#[trigger] self.pat_at(m), path@)
                    &&& self.share_max(path@, self.count()) == 0
                },
            },
    {
        let n = self.entries.len();

        // Phase one: the preferred exact match.
        if path.unicode_len() >= 1 && path.get_char(0) == '/' {
            let mut best: Option<(usize, Captures)> = None;
            let mut k: usize = 0;
            while k < n
                invariant
                    k <= n,
                    n == self.count(),
                    self.wf(),
                    path@.len() >= 1,
                    path@[0] == '/',
                    match best {
                        None => forall|m: int| 0 <= m < k
                            ==> !uri_matches(#[trigger] self.pat_at(m), path@),
                        Some((b, ref c)) => {
                            &&& 0 <= b < k
                            &&& uri_matches(self.pat_at(b as int), path@)
                            &&& c@ == uri_captures(self.pat_at(b as int), path@)
                            &&& forall|m: int| 0 <= m < k && m != b
                                && uri_matches(#[trigger] self.pat_at(m), path@)
                                ==> precedes(self.pat_at(b as int), self.pat_at(m))
                        },
                    },
                decreases n - k,
            {
                match match_uri(&self.entries[k].segs, path) {
                    Some(c) => {
                        match best {
                            None => {
                                best = Some((k, c));
                            },
                            Some((b, bc)) => {
                                let ghost bp = self.pat_at(b as int);
                                let ghost kp = self.pat_at(k as int);
                                if cmp_priority(&self.entries[k].segs, &self.entries[b].segs) {
                                    proof {
                                        assert forall|m: int| 0 <= m < k && m != k
                                            && uri_matches(#[trigger] self.pat_at(m), path@)
                                            implies precedes(kp, self.pat_at(m)) by {
                                            if m != b {
                                                lemma_lex_lt_trans(
                                                    rank_seq(kp),
                                                    rank_seq(bp),
                                                    rank_seq(self.pat_at(m)),
                                                );
                                            }
                                        }
                                    }
                                    best = Some((k, c));
                                } else {
                                    proof {
                                        lemma_matchers_ordered(bp, kp, path@);
                                    }
                                    best = Some((b, bc));
                                }
                            },
                        }
                    },
                    None => {},
                }
                k = k + 1;
            }
            match best {
                Some((b, c)) => {
                    return RecognizeResult::Matched(b, c);
                },
                None => {},
            }
        }
        proof {
            if !(path@.len() >= 1 && path@[0] == '/') {
                assert forall|m: int| 0 <= m < self.count()
                    implies !uri_matches(#[trigger] self.pat_at(m), path@) by {}
            }
        }

        // Phase two: the longest shared prefix, and who shares it.
        let mut max: usize = 0;
        let mut k: usize = 0;
        while k < n
            invariant
                k <= n,
                n == self.count(),
                self.wf(),
                max == self.share_max(path@, k as int),
            decreases n - k,
        {
            let l = crate::strutil::lcp_str(self.entries[k].text.as_str(), path);
            if l > max {
                max = l;
            }
            k = k + 1;
        }

        if max == 0 {
            return RecognizeResult::NotMatched;
        }

        let mut cands: Vec<usize> = Vec::new();
        let mut k: usize = 0;
        while k < n
            invariant
                k <= n,
                n == self.count(),
                self.wf(),
                max == self.share_max(path@, n as int),
                forall|t: int| 0 <= t < cands@.len()
                    ==> 0 <= #[trigger] cands@[t] < k
                        && lcp(self.text_at(cands@[t] as int), path@) == max,
                forall|m: int| 0 <= m < k && lcp(#[trigger] self.text_at(m), path@) == max
                    ==> cands@.contains(m as usize),
                forall|a: int, b: int| 0 <= a < b < cands@.len() ==> cands@[a] < cands@[b],
            decreases n - k,
        {
            let l = crate::strutil::lcp_str(self.entries[k].text.as_str(), path);
            let ghost before = cands@;
            if l == max {
                cands.push(k);
                proof {
                    assert(cands@ =~= before.push(k));
                    assert forall|m: int|
                        0 <= m < k + 1 && lcp(#[trigger] self.text_at(m), path@) == max as int
                        implies cands@.contains(m as usize) by {
                        if m < k {
                            assert(before.contains(m as usize));
                            let t = choose|t: int| 0 <= t < before.len() && before[t] == m as usize;
                            assert(cands@[t] == m as usize);
                        } else {
                            assert(cands@[cands@.len() - 1] == m as usize);
                        }
                    }
                }
            } else {
                proof {
                    assert forall|m: int|
                        0 <= m < k + 1 && lcp(#[trigger] self.text_at(m), path@) == max as int
                        implies cands@.contains(m as usize) by {
                        assert(m < k);
                    }
                }
            }
            k = k + 1;
        }
        proof {
            self.lemma_share_max_achieved(path@, n as int);
            let m = choose|m: int| 0 <= m < n
                && lcp(#[trigger] self.text_at(m), path@) == self.share_max(path@, n as int);
            assert(cands@.contains(m as usize));
        }
        RecognizeResult::PartiallyMatched(cands)
    }
}

} // verus!
