//! Laws of the host-suffix matching relation that `Domains` answers.
use vstd::prelude::*;
use crate::domains::{
    fold, fold_all, is_host, is_host_byte, is_suffix_of, lemma_code_fold, matches_any,
    pattern_bytes, suffix_match,
};

verus! {

/// ASCII upper case of a byte.
pub open spec fn upper(b: u8) -> u8 {
    if 97 <= b <= 122 {
        (b - 32) as u8
    } else {
        b
    }
}

/// ASCII upper case of a byte sequence.
pub open spec fn upper_all(s: Seq<u8>) -> Seq<u8> {
    s.map_values(|b: u8| upper(b))
}

proof fn lemma_fold_concat(a: Seq<u8>, b: Seq<u8>)
    ensures
        fold_all(a + b) == fold_all(a) + fold_all(b),
{
    assert(fold_all(a + b) =~= fold_all(a) + fold_all(b));
}

proof fn lemma_suffix_trans(a: Seq<u8>, b: Seq<u8>, c: Seq<u8>)
    requires
        is_suffix_of(a, b),
        is_suffix_of(b, c),
    ensures
        is_suffix_of(a, c),
{
    assert forall|k: int| 0 <= k < a.len() implies c.subrange(
        c.len() - a.len(),
        c.len() as int,
    )[k] == a[k] by {
        assert(b.subrange(b.len() - a.len(), b.len() as int)[k] == a[k]);
        assert(c.subrange(c.len() - b.len(), c.len() as int)[b.len() - a.len() + k] == b[b.len()
            - a.len() + k]);
    }
    assert(c.subrange(c.len() - a.len(), c.len() as int) =~= a);
}

/// Hosts with the same lower case are matched alike.
proof fn lemma_same_fold(pats: Set<Seq<u8>>, h1: Seq<u8>, h2: Seq<u8>)
    requires
        fold_all(h1) == fold_all(h2),
    ensures
        matches_any(pats, h1) == matches_any(pats, h2),
{
    if matches_any(pats, h1) {
        let p = choose|p: Seq<u8>| #[trigger] pats.contains(p) && suffix_match(h1, p);
        assert(suffix_match(h2, p));
    }
    if matches_any(pats, h2) {
        let p = choose|p: Seq<u8>| #[trigger] pats.contains(p) && suffix_match(h2, p);
        assert(suffix_match(h1, p));
    }
}

/// For patterns `P ⊆ Q`, the patterns `Q` and `P ∪ Q` cover the same hosts.
pub proof fn law_union_of_subset(p: Set<Seq<u8>>, q: Set<Seq<u8>>, h: Seq<u8>)
    requires
        p.subset_of(q),
    ensures
        matches_any(q, h) == matches_any(p.union(q), h),
{
    assert(p.union(q) =~= q);
}

/// A pattern covers every host made of a prefix, a dot and the pattern.
pub proof fn law_dot_prefix(pats: Set<Seq<u8>>, p: Seq<u8>, x: Seq<u8>)
    requires
        pats.contains(p),
    ensures
        matches_any(pats, x + seq![46u8] + p),
{
    let d = seq![46u8];
    lemma_fold_concat(x + d, p);
    lemma_fold_concat(x, d);
    let fh = fold_all(x + d + p);
    assert(fold_all(d) =~= d);
    assert(fh.subrange(fh.len() - (p.len() + 1), fh.len() as int) =~= d + fold_all(p));
    assert(suffix_match(x + d + p, p));
}

/// A host `x + p` is covered exactly when some pattern equals it up to case,
/// or equals, up to case, what follows one of its dots.
pub proof fn law_suffix_after_dot(pats: Set<Seq<u8>>, x: Seq<u8>, p: Seq<u8>)
    ensures
        matches_any(pats, x + p) <==> exists|q: Seq<u8>|
            #[trigger] pats.contains(q) && (fold_all(x + p) == fold_all(q) || exists|k: int|
                0 <= k < (x + p).len() && (x + p)[k] == 46 && fold_all(
                    (x + p).subrange(k + 1, (x + p).len() as int),
                ) == fold_all(q)),
{
    let h = x + p;
    let n = h.len() as int;
    assert forall|q: Seq<u8>|
        suffix_match(h, q) <==> (fold_all(h) == fold_all(q) || exists|k: int|
            0 <= k < n && h[k] == 46 && fold_all(h.subrange(k + 1, n)) == fold_all(q)) by {
        let fq = fold_all(q);
        let fh = fold_all(h);
        let m = q.len() as int;
        if is_suffix_of(seq![46u8] + fq, fh) {
            let k = n - m - 1;
            assert(fh.subrange(k, n)[0] == 46u8);
            assert(h[k] == 46);
            assert(fold_all(h.subrange(k + 1, n)) =~= fh.subrange(k + 1, n));
            assert(fh.subrange(k + 1, n) =~= fh.subrange(k, n).subrange(1, m + 1));
            assert((seq![46u8] + fq).subrange(1, m + 1) =~= fq);
        }
        if exists|k: int| 0 <= k < n && h[k] == 46 && fold_all(h.subrange(k + 1, n)) == fq {
            let k = choose|k: int|
                0 <= k < n && h[k] == 46 && fold_all(h.subrange(k + 1, n)) == fq;
            assert(fold_all(h.subrange(k + 1, n)).len() == n - k - 1);
            assert(fq.len() == m);
            assert(fh.subrange(n - (m + 1), n) =~= seq![46u8] + fq) by {
                assert forall|j: int| 0 <= j < m + 1 implies fh.subrange(n - (m + 1), n)[j] == (
                seq![46u8] + fq)[j] by {
                    if j > 0 {
                        assert(fold_all(h.subrange(k + 1, n))[j - 1] == fq[j - 1]);
                    }
                }
            }
        }
    }
}

/// Upper- and lower-case spellings of a host are matched alike.
pub proof fn law_case_folding(pats: Set<Seq<u8>>, h: Seq<u8>)
    ensures
        matches_any(pats, upper_all(h)) == matches_any(pats, fold_all(h)),
{
    assert(fold_all(upper_all(h)) =~= fold_all(fold_all(h)));
    lemma_same_fold(pats, upper_all(h), fold_all(h));
}

/// Adding a pattern that is already present changes nothing.
pub proof fn law_add_again(pats: Set<Seq<u8>>, p: Seq<u8>, h: Seq<u8>)
    requires
        pats.contains(p),
    ensures
        pats.insert(p) == pats,
        matches_any(pats.insert(p), h) == matches_any(pats, h),
{
    assert(pats.insert(p) =~= pats);
}

/// Building from a list of patterns given twice over covers the same hosts
/// as building from the list once.
pub proof fn law_build_twice(ps: Seq<Seq<u8>>, h: Seq<u8>)
    ensures
        (ps + ps).to_set() == ps.to_set(),
        matches_any((ps + ps).to_set(), h) == matches_any(ps.to_set(), h),
{
    assert forall|x: Seq<u8>| (ps + ps).to_set().contains(x) == ps.to_set().contains(x) by {
        if (ps + ps).to_set().contains(x) {
            let i = choose|i: int| 0 <= i < (ps + ps).len() && (ps + ps)[i] == x;
            if i < ps.len() {
                assert(ps[i] == x);
            } else {
                assert(ps[i - ps.len()] == x);
            }
        }
        if ps.to_set().contains(x) {
            let i = choose|i: int| 0 <= i < ps.len() && ps[i] == x;
            assert((ps + ps)[i] == x);
        }
    }
    assert((ps + ps).to_set() =~= ps.to_set());
}

/// `Domains::new` on a list of pattern strings given twice over builds the
/// same pattern set, so the two matchers answer every host alike.
pub proof fn law_new_twice(ps: Seq<&str>, h: Seq<u8>)
    ensures
        pattern_bytes(ps + ps).to_set() == pattern_bytes(ps).to_set(),
        matches_any(pattern_bytes(ps + ps).to_set(), h) == matches_any(
            pattern_bytes(ps).to_set(),
            h,
        ),
{
    let b = pattern_bytes(ps);
    assert(pattern_bytes(ps + ps) =~= b + b);
    law_build_twice(b, h);
}

/// Patterns are made of host bytes, so a host whose last byte is outside
/// the alphabet is matched by none of them.
pub proof fn law_invalid_last_byte(pats: Set<Seq<u8>>, h: Seq<u8>)
    requires
        forall|p: Seq<u8>| #[trigger] pats.contains(p) ==> is_host(p),
        h.len() > 0,
        !is_host_byte(h.last()),
    ensures
        !matches_any(pats, h),
{
    if matches_any(pats, h) {
        let p = choose|p: Seq<u8>| #[trigger] pats.contains(p) && suffix_match(h, p);
        let n = h.len() as int;
        let m = p.len() as int;
        let fh = fold_all(h);
        let fp = fold_all(p);
        if fh == fp {
            assert(fh.len() == fp.len());
            assert(fh[n - 1] == fp[n - 1]);
            lemma_code_fold(p[n - 1], h[n - 1]);
        } else {
            let d = seq![46u8] + fp;
            assert(fh.subrange(n - (m + 1), n)[m] == d[m]);
            if m == 0 {
                assert(fold(h[n - 1]) == 46);
            } else {
                assert(fold(h[n - 1]) == fold(p[m - 1]));
                lemma_code_fold(p[m - 1], h[n - 1]);
            }
        }
    }
}

/// A pattern `x + "." + p` next to `p` covers no further host.
pub proof fn law_subsumed(pats: Set<Seq<u8>>, p: Seq<u8>, x: Seq<u8>, h: Seq<u8>)
    requires
        pats.contains(p),
    ensures
        matches_any(pats.insert(x + seq![46u8] + p), h) == matches_any(pats, h),
{
    let q = x + seq![46u8] + p;
    let big = pats.insert(q);
    if matches_any(big, h) {
        let r = choose|r: Seq<u8>| #[trigger] big.contains(r) && suffix_match(h, r);
        if r == q {
            let d = seq![46u8];
            lemma_fold_concat(x + d, p);
            lemma_fold_concat(x, d);
            assert(fold_all(d) =~= d);
            let fq = fold_all(q);
            assert(is_suffix_of(d + fold_all(p), fq)) by {
                assert(fq.subrange(fq.len() - (p.len() + 1), fq.len() as int) =~= d + fold_all(p));
            }
            if fold_all(h) == fq {
            } else {
                assert(is_suffix_of(fq, d + fq)) by {
                    assert((d + fq).subrange(1, (d + fq).len() as int) =~= fq);
                }
                lemma_suffix_trans(fq, d + fq, fold_all(h));
                lemma_suffix_trans(d + fold_all(p), fq, fold_all(h));
            }
            assert(suffix_match(h, p));
        }
    }
    if matches_any(pats, h) {
        let r = choose|r: Seq<u8>| #[trigger] pats.contains(r) && suffix_match(h, r);
        assert(big.contains(r));
    }
}

} // verus!
