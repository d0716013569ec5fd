//! Small verified helpers on strings and characters.

use vstd::prelude::*;

verus! {

/// Equality of two string slices, decided character by character.
pub fn str_eq(a: &str, b: &str) -> (r: bool)
    ensures
        r == (a@ == b@),
{
    let alen = a.unicode_len();
    let blen = b.unicode_len();
    if alen != blen {
        assert(a@ != b@) by {
            assert(a@.len() != b@.len());
        }
        return false;
    }
    let mut i: usize = 0;
    while i < alen
        invariant
            i <= alen,
            alen == a@.len(),
            alen == b@.len(),
            forall|k: int| 0 <= k < i ==> a@[k] == b@[k],
        decreases alen - i,
    {
        let ca = a.get_char(i);
        let cb = b.get_char(i);
        if ca != cb {
            assert(a@ != b@) by {
                assert(a@[i as int] != b@[i as int]);
            }
            return false;
        }
        i = i + 1;
    }
    proof {
        assert(a@ =~= b@);
    }
    true
}

/// The longest common prefix of two sequences.
pub open spec fn lcp<T>(a: Seq<T>, b: Seq<T>) -> int
    decreases a.len(),
{
    if a.len() == 0 || b.len() == 0 || a[0] != b[0] {
        0
    } else {
        1 + lcp(a.drop_first(), b.drop_first())
    }
}

pub proof fn lemma_lcp_bounds<T>(a: Seq<T>, b: Seq<T>)
    ensures
        0 <= lcp(a, b) <= a.len(),
        lcp(a, b) <= b.len(),
    decreases a.len(),
{
    if a.len() == 0 || b.len() == 0 || a[0] != b[0] {
    } else {
        lemma_lcp_bounds(a.drop_first(), b.drop_first());
    }
}

/// The sequences agree strictly before the longest common prefix and, where
/// both go on, differ right at it.
pub proof fn lemma_lcp_agree<T>(a: Seq<T>, b: Seq<T>)
    ensures
        forall|k: int| 0 <= k < lcp(a, b) ==> a[k] == b[k],
        lcp(a, b) < a.len() && lcp(a, b) < b.len() ==> a[lcp(a, b)] != b[lcp(a, b)],
    decreases a.len(),
{
    lemma_lcp_bounds(a, b);
    if a.len() == 0 || b.len() == 0 || a[0] != b[0] {
    } else {
        let da = a.drop_first();
        let db = b.drop_first();
        lemma_lcp_bounds(da, db);
        lemma_lcp_agree(da, db);
        let l = lcp(a, b);
        assert(l == 1 + lcp(da, db));
        assert forall|k: int| 0 <= k < l implies a[k] == b[k] by {
            if k > 0 {
                assert(da[k - 1] == db[k - 1]);
            }
        }
        if l < a.len() && l < b.len() {
            assert(lcp(da, db) < da.len() && lcp(da, db) < db.len());
            assert(da[l - 1] != db[l - 1]);
            assert(a[l] == da[l - 1] && b[l] == db[l - 1]);
        }
    }
}

/// If the sequences agree on their first `i` characters, the longest common
/// prefix is at least `i`.
pub proof fn lemma_lcp_at_least<T>(a: Seq<T>, b: Seq<T>, i: int)
    requires
        0 <= i <= a.len(),
        i <= b.len(),
        forall|k: int| 0 <= k < i ==> a[k] == b[k],
    ensures
        lcp(a, b) >= i,
    decreases i,
{
    lemma_lcp_bounds(a, b);
    if i > 0 {
        assert(a[0] == b[0]);
        assert forall|k: int| 0 <= k < i - 1 implies a.drop_first()[k] == b.drop_first()[k] by {
            assert(a[k + 1] == b[k + 1]);
        }
        lemma_lcp_at_least(a.drop_first(), b.drop_first(), i - 1);
    }
}

/// Computes the longest common prefix of two strings.
pub fn lcp_str(a: &str, b: &str) -> (r: usize)
    ensures
        r == lcp(a@, b@),
{
    let alen = a.unicode_len();
    let blen = b.unicode_len();
    let mut i: usize = 0;
    loop
        invariant
            0 <= i <= alen,
            i <= blen,
            alen == a@.len(),
            blen == b@.len(),
            forall|k: int| 0 <= k < i ==> a@[k] == b@[k],
        decreases alen - i,
    {
        proof {
            lemma_lcp_bounds(a@, b@);
            lemma_lcp_agree(a@, b@);
            lemma_lcp_at_least(a@, b@, i as int);
        }
        if i >= alen || i >= blen {
            return i;
        }
        let ca = a.get_char(i);
        let cb = b.get_char(i);
        if ca != cb {
            assert(lcp(a@, b@) <= i) by {
                if lcp(a@, b@) > i {
                    assert(a@[i as int] == b@[i as int]);
                }
            }
            return i;
        }
        i = i + 1;
    }
}

/// `p` is a prefix of `t`.
pub open spec fn is_prefix_of<T>(p: Seq<T>, t: Seq<T>) -> bool {
    p.len() <= t.len() && t.subrange(0, p.len() as int) == p
}

pub proof fn lemma_lcp_prefix<T>(p: Seq<T>, t: Seq<T>)
    ensures
        is_prefix_of(p, t) <==> lcp(t, p) == p.len(),
{
    lemma_lcp_bounds(t, p);
    lemma_lcp_agree(t, p);
    if lcp(t, p) == p.len() {
        assert(t.subrange(0, p.len() as int) =~= p);
    }
    if is_prefix_of(p, t) {
        assert forall|k: int| 0 <= k < p.len() implies t[k] == p[k] by {
            assert(t.subrange(0, p.len() as int)[k] == t[k]);
        }
        lemma_lcp_at_least(t, p, p.len() as int);
    }
}

/// Whether `t` starts with `p`.
pub fn str_starts_with(t: &str, p: &str) -> (r: bool)
    ensures
        r == is_prefix_of(p@, t@),
{
    proof {
        lemma_lcp_prefix(p@, t@);
    }
    let l = lcp_str(t, p);
    l == p.unicode_len()
}

/// The longest common prefix of two index vectors.
pub fn lcp_usize(a: &Vec<usize>, b: &Vec<usize>) -> (r: usize)
    ensures
        r == lcp(a@, b@),
{
    let mut i: usize = 0;
    loop
        invariant
            0 <= i <= a.len(),
            i <= b.len(),
            forall|k: int| 0 <= k < i ==> a@[k] == b@[k],
        decreases a.len() - i,
    {
        proof {
            lemma_lcp_bounds(a@, b@);
            lemma_lcp_agree(a@, b@);
            lemma_lcp_at_least(a@, b@, i as int);
        }
        if i >= a.len() || i >= b.len() {
            return i;
        }
        if a[i] != b[i] {
            assert(lcp(a@, b@) <= i) by {
                if lcp(a@, b@) > i {
                    assert(a@[i as int] == b@[i as int]);
                }
            }
            return i;
        }
        i = i + 1;
    }
}

/// The first `n` elements of an index vector, as a fresh vector.
pub fn take_prefix(v: &Vec<usize>, n: usize) -> (r: Vec<usize>)
    requires
        n <= v@.len(),
    ensures
        r@ == v@.take(n as int),
{
    let mut r: Vec<usize> = Vec::new();
    let mut k: usize = 0;
    while k < n
        invariant
            k <= n <= v@.len(),
            r@ =~= v@.take(k as int),
        decreases n - k,
    {
        r.push(v[k]);
        proof {
            assert(r@ =~= v@.take(k as int + 1));
        }
        k = k + 1;
    }
    r
}

} // verus!
