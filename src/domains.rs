//! Host-suffix matcher: a dense 38-ary trie walked from the last byte of a
//! host name to the first, with the terminal flag packed into the child
//! pointer of each slot.
use vstd::prelude::*;
use vstd::string::StringSliceAdditionalSpecFns;
use vstd::utf8::encode_utf8;
use crate::error::Error;

verus! {

/// Slots per trie block: 26 letters, 10 digits, `.` and `-`.
pub const NUM_CHILDREN: usize = 38;

const NUM_ALPHABET: usize = 26;

const NUM_DIGIT: usize = 10;

/// ASCII `A`, `Z`, `a`, `z`, `0`, `9`, `.` and `-`.
const UPPER_A: u8 = 65;

const UPPER_Z: u8 = 90;

const LOWER_A: u8 = 97;

const LOWER_Z: u8 = 122;

const DIGIT_0: u8 = 48;

const DIGIT_9: u8 = 57;

pub const DOT: u8 = 46;

const DASH: u8 = 45;

/// Slot value of a pattern end without children.
pub const MATCHED: usize = usize::MAX;

/// Slot value of an empty slot. Child pointers lie below it; a child pointer
/// plus this value marks a pattern end that also has children.
pub const NOT_MATCHED: usize = usize::MAX / 2 + 1;

// ---------------------------------------------------------------------------
// The alphabet and the matching relation.

/// A byte allowed in a host pattern.
pub open spec fn is_host_byte(b: u8) -> bool {
    (65 <= b <= 90) || (97 <= b <= 122) || (48 <= b <= 57) || b == 46 || b == 45
}

/// A byte sequence made of host bytes only.
pub open spec fn is_host(s: Seq<u8>) -> bool {
    forall|i: int| 0 <= i < s.len() ==> is_host_byte(#[trigger] s[i])
}

/// Index of a host byte in the alphabet; letters of either case share one.
pub open spec fn code_of(b: u8) -> int {
    if 65 <= b <= 90 {
        b - 65
    } else if 97 <= b <= 122 {
        b - 97
    } else if 48 <= b <= 57 {
        b - 48 + 26
    } else if b == 46 {
        36
    } else {
        37
    }
}

/// ASCII lower case of a byte.
pub open spec fn fold(b: u8) -> u8 {
    if 65 <= b <= 90 {
        (b + 32) as u8
    } else {
        b
    }
}

/// ASCII lower case of a byte sequence.
pub open spec fn fold_all(s: Seq<u8>) -> Seq<u8> {
    s.map_values(|b: u8| fold(b))
}

/// `s` is a suffix of `t`.
pub open spec fn is_suffix_of(s: Seq<u8>, t: Seq<u8>) -> bool {
    s.len() <= t.len() && t.subrange(t.len() - s.len(), t.len() as int) == s
}

/// Host `h` is covered by pattern `p`: up to ASCII case, `h` is `p` or ends
/// with `"." + p`.
pub open spec fn suffix_match(h: Seq<u8>, p: Seq<u8>) -> bool {
    fold_all(h) == fold_all(p) || is_suffix_of(seq![46u8] + fold_all(p), fold_all(h))
}

/// Host `h` is covered by some pattern of `pats`.
pub open spec fn matches_any(pats: Set<Seq<u8>>, h: Seq<u8>) -> bool {
    exists|p: Seq<u8>| #[trigger] pats.contains(p) && suffix_match(h, p)
}

/// The bytes of each pattern string.
pub open spec fn pattern_bytes(ps: Seq<&str>) -> Seq<Seq<u8>> {
    ps.map_values(|s: &str| s.spec_bytes())
}

/// The UTF-8 bytes of each string.
pub open spec fn string_bytes(v: Seq<String>) -> Seq<Seq<u8>> {
    v.map_values(|s: String| encode_utf8(s@))
}

/// Total length of a list of patterns.
pub open spec fn total_len(ps: Seq<Seq<u8>>) -> nat
    decreases ps.len(),
{
    if ps.len() == 0 {
        0
    } else {
        total_len(ps.drop_last()) + ps.last().len()
    }
}

pub(crate) proof fn lemma_total_len_prefix(ps: Seq<Seq<u8>>, i: int)
    requires
        0 <= i <= ps.len(),
    ensures
        total_len(ps.take(i)) <= total_len(ps),
    decreases ps.len() - i,
{
    if i < ps.len() {
        lemma_total_len_prefix(ps, i + 1);
        assert(ps.take(i + 1).drop_last() =~= ps.take(i));
    } else {
        assert(ps.take(i) =~= ps);
    }
}

// ---------------------------------------------------------------------------
// The slot encoding.

spec fn has_child(v: usize) -> bool {
    v != NOT_MATCHED && v != MATCHED
}

spec fn is_term(v: usize) -> bool {
    v > NOT_MATCHED
}

spec fn base_of(v: usize) -> int {
    if v > NOT_MATCHED {
        v - NOT_MATCHED
    } else {
        v as int
    }
}

/// Codes of `p` read from its last byte to its first.
pub(crate) open spec fn rcodes(p: Seq<u8>) -> Seq<int> {
    Seq::new(p.len(), |k: int| code_of(p[p.len() - 1 - k]))
}

/// Codes of the bytes of `h` from its last byte down to index `i`.
pub(crate) open spec fn rc_suffix(h: Seq<u8>, i: int) -> Seq<int> {
    Seq::new((h.len() - i) as nat, |k: int| code_of(h[h.len() - 1 - k]))
}

/// The slot reached by walking the codes `w` from slot 0, or -1.
spec fn slot_at(t: Seq<usize>, w: Seq<int>) -> int
    decreases w.len(),
{
    if w.len() == 0 {
        0
    } else {
        let s = slot_at(t, w.drop_last());
        if 0 <= s < t.len() && has_child(t[s]) && 0 <= w.last() < 38 {
            base_of(t[s]) + w.last()
        } else {
            -1
        }
    }
}

spec fn term_at(t: Seq<usize>, w: Seq<int>) -> bool {
    0 <= slot_at(t, w) < t.len() && is_term(t[slot_at(t, w)])
}

/// The child block of slot `i` lies past it, inside the array, and its slots
/// carry the label of `i` extended by their code.
spec fn child_ok(t: Seq<usize>, lab: Seq<Seq<int>>, i: int) -> bool {
    let c = base_of(t[i]);
    &&& i < c
    &&& c + 38 <= t.len()
    &&& (c - 1) % 38 == 0
    &&& c < MATCHED - NOT_MATCHED
    &&& forall|k: int| 0 <= k < 38 ==> #[trigger] lab[c + k] == lab[i].push(k)
}

spec fn shape_ok(t: Seq<usize>, lab: Seq<Seq<int>>) -> bool {
    &&& t.len() >= 1
    &&& (t.len() - 1) % 38 == 0
    &&& lab.len() == t.len()
    &&& lab[0] == Seq::<int>::empty()
    &&& forall|i: int| 0 <= i < t.len() && has_child(#[trigger] t[i]) ==> child_ok(t, lab, i)
}

/// The slot layout of a trie: one entry slot followed by whole blocks of 38
/// slots; a slot is `MATCHED`, `NOT_MATCHED`, or points, with or without the
/// pattern-end flag, at a block that starts past it and lies in the array.
pub open spec fn slot_layout_ok(t: Seq<usize>) -> bool {
    &&& t.len() >= 1
    &&& (t.len() - 1) % 38 == 0
    &&& forall|i: int|
        0 <= i < t.len() && #[trigger] t[i] != NOT_MATCHED && t[i] != MATCHED ==> {
            let c = if t[i] > NOT_MATCHED {
                t[i] - NOT_MATCHED
            } else {
                t[i] as int
            };
            &&& 1 <= c
            &&& i < c
            &&& c + 38 <= t.len()
            &&& (c - 1) % 38 == 0
        }
}

/// Every pattern end in the trie stands for a pattern of `pats`.
#[verifier::opaque]
spec fn sound(t: Seq<usize>, lab: Seq<Seq<int>>, pats: Set<Seq<u8>>) -> bool {
    forall|i: int|
        0 <= i < t.len() && is_term(#[trigger] t[i]) ==> exists|p: Seq<u8>|
            #[trigger] pats.contains(p) && rcodes(p) == lab[i]
}

/// The walk of `p` meets a pattern end either at its own end or right before
/// one of its dots.
spec fn covered(t: Seq<usize>, p: Seq<u8>) -> bool {
    exists|j: int|
        0 <= j <= p.len() && (j == p.len() || rcodes(p)[j] == 36) && #[trigger] term_at(
            t,
            rcodes(p).take(j),
        )
}

#[verifier::opaque]
spec fn complete(t: Seq<usize>, pats: Set<Seq<u8>>) -> bool {
    forall|p: Seq<u8>| #[trigger] pats.contains(p) ==> is_host(p) && covered(t, p)
}

spec fn trie_inv(t: Seq<usize>, lab: Seq<Seq<int>>, pats: Set<Seq<u8>>) -> bool {
    shape_ok(t, lab) && sound(t, lab, pats) && complete(t, pats)
}

/// `t2` keeps every child pointer and every pattern end of `t`.
spec fn extends(t: Seq<usize>, t2: Seq<usize>) -> bool {
    &&& t.len() <= t2.len()
    &&& forall|x: int|
        0 <= x < t.len() ==> (has_child(#[trigger] t[x]) ==> has_child(t2[x]) && base_of(t2[x])
            == base_of(t[x])) && (is_term(t[x]) ==> is_term(t2[x]))
}

/// `t`, `lab` keep every pointer, pattern end and label of `t0`, `lab0` and
/// add no pattern end.
#[verifier::opaque]
spec fn grows(t0: Seq<usize>, lab0: Seq<Seq<int>>, t: Seq<usize>, lab: Seq<Seq<int>>) -> bool {
    &&& extends(t0, t)
    &&& forall|x: int|
        0 <= x < t.len() && is_term(#[trigger] t[x]) ==> x < t0.len() && is_term(t0[x])
    &&& forall|x: int| 0 <= x < lab0.len() ==> #[trigger] lab[x] == lab0[x]
}

proof fn lemma_grows_refl(t: Seq<usize>, lab: Seq<Seq<int>>)
    ensures
        grows(t, lab, t, lab),
{
    reveal(grows);
}

proof fn lemma_grows_trans(
    t0: Seq<usize>,
    lab0: Seq<Seq<int>>,
    t1: Seq<usize>,
    lab1: Seq<Seq<int>>,
    t2: Seq<usize>,
    lab2: Seq<Seq<int>>,
)
    requires
        grows(t0, lab0, t1, lab1),
        grows(t1, lab1, t2, lab2),
        lab0.len() <= lab1.len(),
    ensures
        grows(t0, lab0, t2, lab2),
{
    reveal(grows);
    assert forall|x: int|
        0 <= x < t0.len() implies (has_child(#[trigger] t0[x]) ==> has_child(t2[x]) && base_of(
        t2[x],
    ) == base_of(t0[x])) && (is_term(t0[x]) ==> is_term(t2[x])) by {
        assert(x < t1.len());
        if has_child(t0[x]) {
            assert(has_child(t1[x]));
        }
        if is_term(t0[x]) {
            assert(is_term(t1[x]));
        }
    }
    assert forall|x: int| 0 <= x < t2.len() && is_term(#[trigger] t2[x]) implies x < t0.len()
        && is_term(t0[x]) by {
        assert(is_term(t1[x]));
    }
    assert forall|x: int| 0 <= x < lab0.len() implies #[trigger] lab2[x] == lab0[x] by {
        assert(lab1[x] == lab0[x]);
    }
}

// ---------------------------------------------------------------------------
// Lemmas on the alphabet.

pub(crate) proof fn lemma_code_fold(a: u8, b: u8)
    requires
        is_host_byte(a),
    ensures
        is_host_byte(b) ==> ((code_of(a) == code_of(b)) == (fold(a) == fold(b))),
        fold(a) == fold(b) ==> is_host_byte(b),
        0 <= code_of(a) < 38,
        (code_of(a) == 36) == (a == 46),
        (fold(a) == 46) == (a == 46),
{
}

/// Equal codes over a stretch of host bytes mean equal folded bytes.
pub(crate) proof fn lemma_rc_fold(h: Seq<u8>, i: int, p: Seq<u8>)
    requires
        0 <= i <= h.len(),
        is_host(p),
        forall|k: int| i <= k < h.len() ==> is_host_byte(#[trigger] h[k]),
        rc_suffix(h, i) == rcodes(p),
    ensures
        fold_all(h.subrange(i, h.len() as int)) == fold_all(p),
{
    let n = h.len() as int;
    let m = p.len() as int;
    assert(rc_suffix(h, i).len() == n - i);
    assert(rcodes(p).len() == m);
    assert(m == n - i);
    assert forall|k: int| 0 <= k < m implies fold(h[i + k]) == fold(p[k]) by {
        let q = m - 1 - k;
        assert(rc_suffix(h, i)[q] == rcodes(p)[q]);
        assert(rc_suffix(h, i)[q] == code_of(h[i + k]));
        assert(rcodes(p)[q] == code_of(p[k]));
        assert(is_host_byte(p[k]));
        assert(is_host_byte(h[i + k]));
        lemma_code_fold(p[k], h[i + k]);
    }
    assert(fold_all(h.subrange(i, n)) =~= fold_all(p));
}

// ---------------------------------------------------------------------------
// Lemmas on walks.

proof fn lemma_slot_label(t: Seq<usize>, lab: Seq<Seq<int>>, w: Seq<int>)
    requires
        shape_ok(t, lab),
        slot_at(t, w) != -1,
    ensures
        0 <= slot_at(t, w) < t.len(),
        lab[slot_at(t, w)] == w,
    decreases w.len(),
{
    if w.len() == 0 {
        assert(w =~= Seq::<int>::empty());
    } else {
        let s = slot_at(t, w.drop_last());
        lemma_slot_label(t, lab, w.drop_last());
        assert(child_ok(t, lab, s));
        let k = w.last();
        assert(lab[base_of(t[s]) + k] == lab[s].push(k));
        assert(w.drop_last().push(k) =~= w);
    }
}

proof fn lemma_slot_prefix(t: Seq<usize>, w: Seq<int>, d: int)
    requires
        slot_at(t, w) >= 0,
        0 <= d < w.len(),
    ensures
        0 <= slot_at(t, w.take(d)) < t.len(),
        has_child(t[slot_at(t, w.take(d))]),
        slot_at(t, w.take(d + 1)) == base_of(t[slot_at(t, w.take(d))]) + w[d],
    decreases w.len(),
{
    let w2 = w.drop_last();
    assert(w.take(d + 1).drop_last() =~= w.take(d));
    if d == w.len() - 1 {
        assert(w.take(d) =~= w2);
        assert(w.take(d + 1) =~= w);
    } else {
        assert(w.take(d) =~= w2.take(d));
        assert(w.take(d + 1) =~= w2.take(d + 1));
        lemma_slot_prefix(t, w2, d);
    }
}

proof fn lemma_extends(t: Seq<usize>, t2: Seq<usize>, w: Seq<int>)
    requires
        extends(t, t2),
        slot_at(t, w) >= 0,
    ensures
        slot_at(t2, w) == slot_at(t, w),
    decreases w.len(),
{
    if w.len() > 0 {
        lemma_extends(t, t2, w.drop_last());
    }
}

proof fn lemma_complete_mono(t: Seq<usize>, t2: Seq<usize>, pats: Set<Seq<u8>>)
    requires
        complete(t, pats),
        extends(t, t2),
    ensures
        complete(t2, pats),
{
    reveal(complete);
    assert forall|p: Seq<u8>| #[trigger] pats.contains(p) implies is_host(p) && covered(t2, p) by {
        let j = choose|j: int|
            0 <= j <= p.len() && (j == p.len() || rcodes(p)[j] == 36) && #[trigger] term_at(
                t,
                rcodes(p).take(j),
            );
        lemma_extends(t, t2, rcodes(p).take(j));
        assert(term_at(t2, rcodes(p).take(j)));
    }
}

/// The walk of `h` stopped at depth `|h| - i` on a pattern end followed by a
/// dot or by the start of `h`: `h` is covered.
proof fn lemma_found(t: Seq<usize>, lab: Seq<Seq<int>>, pats: Set<Seq<u8>>, h: Seq<u8>, i: int)
    requires
        trie_inv(t, lab, pats),
        0 <= i <= h.len(),
        forall|k: int| i <= k < h.len() ==> is_host_byte(#[trigger] h[k]),
        term_at(t, rc_suffix(h, i)),
        i == 0 || h[i - 1] == 46,
    ensures
        matches_any(pats, h),
{
    reveal(sound);
    reveal(complete);
    let s = slot_at(t, rc_suffix(h, i));
    lemma_slot_label(t, lab, rc_suffix(h, i));
    let p = choose|p: Seq<u8>| #[trigger] pats.contains(p) && rcodes(p) == lab[s];
    lemma_rc_fold(h, i, p);
    let n = h.len() as int;
    if i == 0 {
        assert(h.subrange(0, n) =~= h);
    } else {
        assert(fold_all(h).subrange(i - 1, n) =~= seq![46u8] + fold_all(p)) by {
            assert(fold_all(h.subrange(i, n)) =~= fold_all(h).subrange(i, n));
        }
    }
    assert(suffix_match(h, p));
}

/// What a match of `h` by the host pattern `p` says about the bytes of `h`.
proof fn lemma_match_facts(h: Seq<u8>, p: Seq<u8>)
    requires
        is_host(p),
        suffix_match(h, p),
    ensures
        p.len() <= h.len(),
        p.len() < h.len() ==> h[h.len() - p.len() - 1] == 46,
        forall|k: int| h.len() - p.len() <= k < h.len() ==> is_host_byte(#[trigger] h[k]),
        forall|e: int|
            0 <= e <= p.len() ==> #[trigger] rc_suffix(h, h.len() - e) == rcodes(p).take(e),
        forall|j: int| 0 <= j < p.len() && rcodes(p)[j] == 36 ==> h[h.len() - 1 - j] == 46,
{
    let n = h.len() as int;
    let m = p.len() as int;
    assert(m <= n && forall|k: int| 0 <= k < m ==> fold(#[trigger] h[n - m + k]) == fold(p[k]))
        by {
        if fold_all(h) == fold_all(p) {
            assert(fold_all(h).len() == fold_all(p).len());
            assert forall|k: int| 0 <= k < m implies fold(#[trigger] h[n - m + k]) == fold(p[k]) by {
                assert(fold_all(h)[k] == fold_all(p)[k]);
            }
        } else {
            let s = seq![46u8] + fold_all(p);
            assert forall|k: int| 0 <= k < m implies fold(#[trigger] h[n - m + k]) == fold(p[k]) by {
                assert(fold_all(h).subrange(n - m - 1, n)[k + 1] == s[k + 1]);
            }
        }
    }
    assert(m < n ==> h[n - m - 1] == 46) by {
        if m < n {
            if fold_all(h) == fold_all(p) {
                assert(fold_all(h).len() == fold_all(p).len());
            } else {
                assert(fold_all(h).subrange(n - m - 1, n)[0] == 46u8);
                lemma_code_fold(46u8, h[n - m - 1]);
            }
        }
    }
    assert forall|k: int| n - m <= k < n implies is_host_byte(#[trigger] h[k]) by {
        assert(fold(h[n - m + (k - (n - m))]) == fold(p[k - (n - m)]));
        lemma_code_fold(p[k - (n - m)], h[k]);
    }
    assert forall|e: int| 0 <= e <= m implies #[trigger] rc_suffix(h, n - e) == rcodes(p).take(e) by {
        assert forall|q: int| 0 <= q < e implies rc_suffix(h, n - e)[q] == rcodes(p).take(e)[q] by {
            assert(fold(h[n - m + (m - 1 - q)]) == fold(p[m - 1 - q]));
            lemma_code_fold(p[m - 1 - q], h[n - 1 - q]);
        }
        assert(rc_suffix(h, n - e) =~= rcodes(p).take(e));
    }
    assert forall|j: int| 0 <= j < m && rcodes(p)[j] == 36 implies h[n - 1 - j] == 46 by {
        assert(fold(h[n - m + (m - 1 - j)]) == fold(p[m - 1 - j]));
        lemma_code_fold(p[m - 1 - j], h[n - 1 - j]);
        lemma_code_fold(p[m - 1 - j], p[m - 1 - j]);
    }
}

/// The walk of `h` stopped at depth `|h| - i` without a match: no pattern
/// covers `h`.
proof fn lemma_no_match(
    t: Seq<usize>,
    lab: Seq<Seq<int>>,
    pats: Set<Seq<u8>>,
    h: Seq<u8>,
    i: int,
)
    requires
        complete(t, pats),
        0 <= i <= h.len(),
        slot_at(t, rc_suffix(h, i)) >= 0,
        forall|d: int|
            i < d <= h.len() ==> !(#[trigger] term_at(t, rc_suffix(h, d)) && h[d - 1] == 46),
        i == 0 ==> !term_at(t, rc_suffix(h, 0)),
        i > 0 ==> !(term_at(t, rc_suffix(h, i)) && h[i - 1] == 46),
        i > 0 ==> !(has_child(t[slot_at(t, rc_suffix(h, i))]) && is_host_byte(h[i - 1])),
    ensures
        !matches_any(pats, h),
{
    reveal(complete);
    if matches_any(pats, h) {
        let n = h.len() as int;
        let p = choose|p: Seq<u8>| #[trigger] pats.contains(p) && suffix_match(h, p);
        let m = p.len() as int;
        assert(is_host(p) && covered(t, p));
        let rp = rcodes(p);
        let j = choose|j: int|
            0 <= j <= p.len() && (j == p.len() || rp[j] == 36) && #[trigger] term_at(
                t,
                rp.take(j),
            );
        lemma_match_facts(h, p);
        assert(j < n ==> h[n - j - 1] == 46);
        let dd = n - i;
        if j < dd {
            assert(rc_suffix(h, n - j) == rp.take(j));
            assert(!(term_at(t, rc_suffix(h, n - j)) && h[n - j - 1] == 46));
        } else if j == dd {
            assert(rc_suffix(h, n - dd) == rp.take(dd));
        } else {
            assert(rc_suffix(h, n - dd) == rp.take(dd));
            lemma_slot_prefix(t, rp.take(j), dd);
            assert(rp.take(j).take(dd) =~= rp.take(dd));
            assert(is_host_byte(h[n - 1 - dd]));
        }
    }
}

/// Appending a fresh block of empty slots under the childless slot `cur` and
/// pointing `cur` at it keeps the shape, every pointer and pattern end, and
/// adds no pattern end.
proof fn lemma_attach(t: Seq<usize>, lab: Seq<Seq<int>>, cur: int, nv: usize)
    requires
        shape_ok(t, lab),
        0 <= cur < t.len(),
        !has_child(t[cur]),
        has_child(nv),
        base_of(nv) == t.len(),
        t.len() < MATCHED - NOT_MATCHED,
        is_term(nv) == is_term(t[cur]),
    ensures
        ({
            let t2 = (t + Seq::new(38, |k: int| NOT_MATCHED)).update(cur, nv);
            let lab2 = lab + Seq::new(38, |k: int| lab[cur].push(k));
            &&& shape_ok(t2, lab2)
            &&& grows(t, lab, t2, lab2)
        }),
{
    reveal(grows);
    let t2 = (t + Seq::new(38, |k: int| NOT_MATCHED)).update(cur, nv);
    let lab2 = lab + Seq::new(38, |k: int| lab[cur].push(k));
    assert forall|i: int| 0 <= i < t2.len() && has_child(#[trigger] t2[i]) implies child_ok(
        t2,
        lab2,
        i,
    ) by {
        if i == cur {
            assert forall|k: int| 0 <= k < 38 implies #[trigger] lab2[base_of(t2[i]) + k]
                == lab2[i].push(k) by {
                assert(lab2[t.len() + k] == lab[cur].push(k));
            }
        } else {
            assert(i < t.len());
            assert(child_ok(t, lab, i));
            let c = base_of(t[i]);
            assert forall|k: int| 0 <= k < 38 implies #[trigger] lab2[c + k] == lab2[i].push(k) by {
                assert(lab[c + k] == lab[i].push(k));
            }
        }
    }
    assert(lab2[0] == lab[0]);
}

/// Setting the pattern-end flag on the slot reached by the codes of `s`
/// yields a trie for the patterns with `s` added.
proof fn lemma_set_term(
    t: Seq<usize>,
    lab: Seq<Seq<int>>,
    pats: Set<Seq<u8>>,
    s: Seq<u8>,
    nv: usize,
)
    requires
        trie_inv(t, lab, pats),
        is_host(s),
        0 <= slot_at(t, rcodes(s)) < t.len(),
        is_term(nv),
        has_child(nv) == has_child(t[slot_at(t, rcodes(s))]),
        has_child(nv) ==> base_of(nv) == base_of(t[slot_at(t, rcodes(s))]),
    ensures
        trie_inv(t.update(slot_at(t, rcodes(s)), nv), lab, pats.insert(s)),
{
    reveal(sound);
    reveal(complete);
    let cur = slot_at(t, rcodes(s));
    let t2 = t.update(cur, nv);
    let pats2 = pats.insert(s);
    lemma_slot_label(t, lab, rcodes(s));
    assert forall|i: int| 0 <= i < t2.len() && has_child(#[trigger] t2[i]) implies child_ok(
        t2,
        lab,
        i,
    ) by {
        assert(child_ok(t, lab, i));
    }
    assert forall|i: int| 0 <= i < t2.len() && is_term(#[trigger] t2[i]) implies exists|p: Seq<u8>|
        #[trigger] pats2.contains(p) && rcodes(p) == lab[i] by {
        if i == cur {
            assert(pats2.contains(s));
        } else {
            let p = choose|p: Seq<u8>| #[trigger] pats.contains(p) && rcodes(p) == lab[i];
            assert(pats2.contains(p));
        }
    }
    lemma_complete_mono(t, t2, pats);
    assert(rcodes(s).take(s.len() as int) =~= rcodes(s));
    lemma_extends(t, t2, rcodes(s));
    assert(term_at(t2, rcodes(s).take(s.len() as int)));
    assert(covered(t2, s));
}

/// A trie that keeps the pointers and pattern ends of a valid one, with no
/// new pattern end and labels extended, is valid for the same patterns.
proof fn lemma_keep(
    t0: Seq<usize>,
    lab0: Seq<Seq<int>>,
    pats: Set<Seq<u8>>,
    t: Seq<usize>,
    lab: Seq<Seq<int>>,
)
    requires
        trie_inv(t0, lab0, pats),
        shape_ok(t, lab),
        grows(t0, lab0, t, lab),
    ensures
        trie_inv(t, lab, pats),
{
    reveal(sound);
    reveal(grows);
    assert forall|i: int| 0 <= i < t.len() && is_term(#[trigger] t[i]) implies exists|p: Seq<u8>|
        #[trigger] pats.contains(p) && rcodes(p) == lab[i] by {
        assert(is_term(t0[i]));
        assert(lab[i] == lab0[i]);
    }
    lemma_complete_mono(t0, t, pats);
}

/// Adding a pattern that the trie already covers.
proof fn lemma_add_covered(t: Seq<usize>, lab: Seq<Seq<int>>, pats: Set<Seq<u8>>, s: Seq<u8>)
    requires
        trie_inv(t, lab, pats),
        is_host(s),
        covered(t, s),
    ensures
        trie_inv(t, lab, pats.insert(s)),
{
    reveal(sound);
    reveal(complete);
    let pats2 = pats.insert(s);
    assert forall|i: int| 0 <= i < t.len() && is_term(#[trigger] t[i]) implies exists|p: Seq<u8>|
        #[trigger] pats2.contains(p) && rcodes(p) == lab[i] by {
        let p = choose|p: Seq<u8>| #[trigger] pats.contains(p) && rcodes(p) == lab[i];
        assert(pats2.contains(p));
    }
}

// ---------------------------------------------------------------------------
// The matcher.

/// A set of host patterns compiled into a packed suffix trie.
pub struct Domains {
    host_trie: Vec<usize>,
    labels: Ghost<Seq<Seq<int>>>,
    patterns: Ghost<Set<Seq<u8>>>,
}

impl View for Domains {
    type V = Set<Seq<u8>>;

    /// The patterns added so far, as given (before case folding).
    closed spec fn view(&self) -> Set<Seq<u8>> {
        self.patterns@
    }
}

impl Domains {
    /// The trie is well formed and answers exactly for the patterns added.
    pub closed spec fn wf(&self) -> bool {
        trie_inv(self.host_trie@, self.labels@, self.patterns@)
    }

    /// Number of slots in use.
    pub closed spec fn size(&self) -> nat {
        self.host_trie@.len()
    }

    /// The slots of the trie.
    pub closed spec fn slots(&self) -> Seq<usize> {
        self.host_trie@
    }

    /// A well-formed matcher has the slot layout of a trie, and every
    /// pattern it holds is made of host bytes.
    pub proof fn lemma_layout(&self)
        requires
            self.wf(),
        ensures
            slot_layout_ok(self.slots()),
            self.size() == self.slots().len(),
            forall|p: Seq<u8>| #[trigger] self@.contains(p) ==> is_host(p),
    {
        reveal(complete);
        let t = self.host_trie@;
        assert forall|i: int|
            0 <= i < t.len() && #[trigger] t[i] != NOT_MATCHED && t[i] != MATCHED implies {
            let c = if t[i] > NOT_MATCHED {
                t[i] - NOT_MATCHED
            } else {
                t[i] as int
            };
            &&& 1 <= c
            &&& i < c
            &&& c + 38 <= t.len()
            &&& (c - 1) % 38 == 0
        } by {
            assert(has_child(t[i]));
            assert(child_ok(t, self.labels@, i));
        }
    }

    /// An empty matcher.
    pub fn empty() -> (r: Domains)
        ensures
            r.wf(),
            r@ == Set::<Seq<u8>>::empty(),
            r.size() == 1,
            r.slots() == seq![NOT_MATCHED],
    {
        let ghost lab = seq![Seq::<int>::empty()];
        let ghost pats = Set::<Seq<u8>>::empty();
        let r = Domains { host_trie: vec![NOT_MATCHED], labels: Ghost(lab), patterns: Ghost(pats) };
        proof {
            reveal(sound);
            reveal(complete);
            assert(r.host_trie@ =~= seq![NOT_MATCHED]);
        }
        r
    }

    /// Index of a host byte in the alphabet.
    pub(crate) fn codec(ch: u8) -> (r: Result<usize, Error>)
        ensures
            is_host_byte(ch) ==> r == Ok::<usize, Error>(code_of(ch) as usize),
            !is_host_byte(ch) ==> r == Err::<usize, Error>(Error::UnexpectedCharacter(ch)),
    {
        if UPPER_A <= ch && ch <= UPPER_Z {
            Ok((ch - UPPER_A) as usize)
        } else if LOWER_A <= ch && ch <= LOWER_Z {
            Ok((ch - LOWER_A) as usize)
        } else if DIGIT_0 <= ch && ch <= DIGIT_9 {
            Ok((ch - DIGIT_0) as usize + NUM_ALPHABET)
        } else if ch == DOT {
            Ok(NUM_ALPHABET + NUM_DIGIT)
        } else if ch == DASH {
            Ok(NUM_ALPHABET + NUM_DIGIT + 1)
        } else {
            Err(Error::UnexpectedCharacter(ch))
        }
    }

    /// Appends a block of empty slots for the children of `parent`.
    fn new_block(&mut self, parent: usize) -> (c: usize)
        requires
            parent < old(self).labels@.len(),
        ensures
            c == old(self).host_trie@.len(),
            final(self).host_trie@ == old(self).host_trie@ + Seq::new(38, |k: int| NOT_MATCHED),
            final(self).labels@ == old(self).labels@ + Seq::new(
                38,
                |k: int| old(self).labels@[parent as int].push(k),
            ),
            final(self).patterns == old(self).patterns,
    {
        let c = self.host_trie.len();
        let ghost t0 = self.host_trie@;
        let ghost lab0 = self.labels@;
        let mut k: usize = 0;
        while k < NUM_CHILDREN
            invariant
                k <= NUM_CHILDREN,
                self.host_trie@ == t0 + Seq::new(k as nat, |j: int| NOT_MATCHED),
                self.labels@ == lab0,
                self.patterns == old(self).patterns,
                t0 == old(self).host_trie@,
                lab0 == old(self).labels@,
                c == t0.len(),
            decreases NUM_CHILDREN - k,
        {
            self.host_trie.push(NOT_MATCHED);
            k = k + 1;
            assert(self.host_trie@ =~= t0 + Seq::new(k as nat, |j: int| NOT_MATCHED));
        }
        let ghost lab2 = lab0 + Seq::new(38, |k: int| lab0[parent as int].push(k));
        self.labels = Ghost(lab2);
        c
    }

    /// The child block of slot `current`, allocated if the slot has none;
    /// `None` when no room is left for another block.
    fn child_block(&mut self, current: usize) -> (r: Option<usize>)
        requires
            shape_ok(old(self).host_trie@, old(self).labels@),
            current < old(self).host_trie@.len(),
        ensures
            final(self).patterns == old(self).patterns,
            r is None ==> *final(self) == *old(self) && !has_child(old(self).host_trie@[current as int])
                && old(self).host_trie@.len() >= MATCHED - NOT_MATCHED,
            r is Some ==> {
                &&& shape_ok(final(self).host_trie@, final(self).labels@)
                &&& grows(old(self).host_trie@, old(self).labels@, final(self).host_trie@, final(self).labels@)
                &&& has_child(final(self).host_trie@[current as int])
                &&& base_of(final(self).host_trie@[current as int]) == r->Some_0
                &&& final(self).host_trie@.len() <= old(self).host_trie@.len() + 38
                &&& (has_child(old(self).host_trie@[current as int]) ==> *final(self) == *old(self))
            },
    {
        let v = self.host_trie[current];
        if v == MATCHED || v == NOT_MATCHED {
            let c = self.host_trie.len();
            if c >= MATCHED - NOT_MATCHED {
                return None;
            }
            let nv = if v == MATCHED {
                c + NOT_MATCHED
            } else {
                c
            };
            let ghost t1 = self.host_trie@;
            let ghost lab1 = self.labels@;
            self.new_block(current);
            self.host_trie.set(current, nv);
            proof {
                lemma_attach(t1, lab1, current as int, nv);
                assert(self.host_trie@ =~= (t1 + Seq::new(38, |k: int| NOT_MATCHED)).update(
                    current as int,
                    nv,
                ));
            }
            Some(c)
        } else {
            proof {
                lemma_grows_refl(self.host_trie@, self.labels@);
            }
            if v > NOT_MATCHED {
                Some(v - NOT_MATCHED)
            } else {
                Some(v)
            }
        }
    }

    /// Adds a pattern made of host bytes only.
    #[verifier::rlimit(40)]
    fn insert_valid(&mut self, suffix: &[u8]) -> (r: Result<(), Error>)
        requires
            old(self).wf(),
            is_host(suffix@),
        ensures
            final(self).wf(),
            final(self).size() <= old(self).size() + 38 * suffix@.len(),
            old(self).size() <= final(self).size(),
            (final(self).size() - old(self).size()) % 38 == 0,
            r is Ok || r == Err::<(), Error>(Error::TooManyDomains),
            r is Ok ==> final(self)@ == old(self)@.insert(suffix@),
            r is Err ==> final(self)@ == old(self)@,
            r == Err::<(), Error>(Error::TooManyDomains) ==> old(self).size() + 38 * suffix@.len()
                >= MATCHED - NOT_MATCHED,
    {
        let ghost s = suffix@;
        let ghost n = s.len() as int;
        assert(is_host(s));
        let ghost t0 = self.host_trie@;
        let ghost lab0 = self.labels@;
        let ghost pats0 = self.patterns@;
        let ghost rc = rcodes(s);
        let mut current: usize = 0;
        let mut i: usize = suffix.len();
        assert(rc.take(0) =~= Seq::<int>::empty());
        proof {
            lemma_grows_refl(t0, lab0);
        }
        while i > 0
            invariant
                trie_inv(t0, lab0, pats0),
                shape_ok(self.host_trie@, self.labels@),
                grows(t0, lab0, self.host_trie@, self.labels@),
                lab0.len() == t0.len(),
                self.patterns@ == pats0,
                t0 == old(self).host_trie@,
                pats0 == old(self)@,
                s == suffix@,
                n == s.len(),
                rc == rcodes(s),
                is_host(s),
                0 <= i <= n,
                current < self.host_trie@.len(),
                current as int == slot_at(self.host_trie@, rc.take(n - i)),
                self.host_trie@.len() <= t0.len() + 38 * (n - i),
                t0.len() <= self.host_trie@.len(),
            decreases i,
        {
            let b = suffix[i - 1];
            proof {
                lemma_code_fold(b, b);
                assert(rc[n - i] == code_of(b));
            }
            let code = match Self::codec(b) {
                Ok(code) => code,
                Err(e) => return Err(e),
            };
            let v = self.host_trie[current];
            if v == MATCHED && b == DOT {
                proof {
                    assert(term_at(self.host_trie@, rc.take(n - i)));
                    assert(covered(self.host_trie@, s));
                    lemma_keep(t0, lab0, pats0, self.host_trie@, self.labels@);
                    lemma_add_covered(self.host_trie@, self.labels@, pats0, s);
                }
                self.patterns = Ghost(pats0.insert(s));
                return Ok(());
            }
            let ghost t1 = self.host_trie@;
            let ghost lab1 = self.labels@;
            let child = match self.child_block(current) {
                Some(c) => c,
                None => {
                    proof {
                        lemma_keep(t0, lab0, pats0, self.host_trie@, self.labels@);
                    }
                    return Err(Error::TooManyDomains);
                },
            };
            proof {
                reveal(grows);
                lemma_grows_trans(t0, lab0, t1, lab1, self.host_trie@, self.labels@);
                assert(t0.len() <= self.host_trie@.len());
            }
            proof {
                lemma_extends(t1, self.host_trie@, rc.take(n - i));
                assert(child_ok(self.host_trie@, self.labels@, current as int));
                assert(rc.take(n - i + 1).drop_last() =~= rc.take(n - i));
            }
            current = child + code;
            i = i - 1;
        }
        assert(rc.take(n) =~= rc);
        let v = self.host_trie[current];
        proof {
            lemma_keep(t0, lab0, pats0, self.host_trie@, self.labels@);
        }
        if v == NOT_MATCHED {
            proof {
                lemma_set_term(self.host_trie@, self.labels@, pats0, s, MATCHED);
            }
            self.host_trie.set(current, MATCHED);
        } else if v < NOT_MATCHED {
            proof {
                assert(child_ok(self.host_trie@, self.labels@, current as int));
                lemma_set_term(self.host_trie@, self.labels@, pats0, s, (v + NOT_MATCHED) as usize);
            }
            self.host_trie.set(current, v + NOT_MATCHED);
        } else {
            proof {
                lemma_set_term(self.host_trie@, self.labels@, pats0, s, v);
                assert(self.host_trie@.update(current as int, v) =~= self.host_trie@);
            }
        }
        self.patterns = Ghost(pats0.insert(s));
        Ok(())
    }

    /// Adds the pattern `suffix`: afterwards every host equal to it, or
    /// ending with `"."` followed by it, is matched (up to ASCII case).
    /// A pattern whose walk crosses the end of a shorter one at a dot is
    /// already covered and leaves the trie as it is.
    pub fn add_host(&mut self, suffix: &[u8]) -> (r: Result<(), Error>)
        requires
            old(self).wf(),
        ensures
            final(self).wf(),
            final(self).size() <= old(self).size() + 38 * suffix@.len(),
            old(self).size() <= final(self).size(),
            (final(self).size() - old(self).size()) % 38 == 0,
            is_host(suffix@) ==> (r is Ok || r == Err::<(), Error>(Error::TooManyDomains)),
            !is_host(suffix@) ==> exists|k: int|
                0 <= k < suffix@.len() && !is_host_byte(#[trigger] suffix@[k]) && r == Err::<
                    (),
                    Error,
                >(Error::UnexpectedCharacter(suffix@[k])) && forall|k2: int|
                    k < k2 < suffix@.len() ==> is_host_byte(#[trigger] suffix@[k2]),
            r is Ok ==> final(self)@ == old(self)@.insert(suffix@),
            r is Err ==> final(self)@ == old(self)@,
            r == Err::<(), Error>(Error::TooManyDomains) ==> old(self).size() + 38 * suffix@.len()
                >= MATCHED - NOT_MATCHED,
    {
        let ghost s = suffix@;
        let ghost n = s.len() as int;
        // Reject bytes outside the alphabet, the last one first.
        let mut k: usize = suffix.len();
        while k > 0
            invariant
                0 <= k <= suffix@.len(),
                forall|j: int| k <= j < suffix@.len() ==> is_host_byte(#[trigger] suffix@[j]),
                self.wf(),
                *self == *old(self),
            decreases k,
        {
            if let Err(e) = Self::codec(suffix[k - 1]) {
                return Err(e);
            }
            k = k - 1;
        }
        self.insert_valid(suffix)
    }

    /// Builds a matcher from `patterns`, added in order, with its storage
    /// trimmed. Fails on the first pattern that cannot be added.
    pub fn new(patterns: &[&str]) -> (r: Result<Domains, Error>)
        ensures
            r is Ok ==> r->Ok_0.wf() && r->Ok_0@ == pattern_bytes(patterns@).to_set(),
            (forall|i: int|
                0 <= i < patterns@.len() ==> is_host(#[trigger] pattern_bytes(patterns@)[i])) && 1
                + 38 * total_len(pattern_bytes(patterns@)) < MATCHED - NOT_MATCHED ==> r is Ok,
            (exists|i: int|
                0 <= i < patterns@.len() && !is_host(#[trigger] pattern_bytes(patterns@)[i]))
                ==> r is Err,
            r is Err ==> r == Err::<Domains, Error>(Error::TooManyDomains) || exists|i: int, k: int|
                0 <= i < patterns@.len() && 0 <= k < pattern_bytes(patterns@)[i].len()
                    && !is_host_byte(pattern_bytes(patterns@)[i][k]) && r == Err::<Domains, Error>(
                    Error::UnexpectedCharacter(#[trigger] pattern_bytes(patterns@)[i][k]),
                ),
    {
        let ghost ps = pattern_bytes(patterns@);
        let mut d = Domains::empty();
        let mut i: usize = 0;
        while i < patterns.len()
            invariant
                ps == pattern_bytes(patterns@),
                0 <= i <= patterns@.len(),
                d.wf(),
                d@ == ps.take(i as int).to_set(),
                d.size() <= 1 + 38 * total_len(ps.take(i as int)),
                forall|k: int| 0 <= k < i ==> is_host(#[trigger] ps[k]),
            decreases patterns@.len() - i,
        {
            let bytes = patterns[i].as_bytes();
            let ghost before = d.size();
            proof {
                assert(ps.take(i + 1).drop_last() =~= ps.take(i as int));
                lemma_total_len_prefix(ps, i + 1);
            }
            match d.add_host(bytes) {
                Ok(()) => {},
                Err(e) => {
                    proof {
                        if !is_host(ps[i as int]) {
                            let k = choose|k: int|
                                0 <= k < bytes@.len() && !is_host_byte(#[trigger] bytes@[k]) && Err::<
                                    (),
                                    Error,
                                >(e) == Err::<(), Error>(Error::UnexpectedCharacter(bytes@[k]))
                                    && forall|k2: int|
                                    k < k2 < bytes@.len() ==> is_host_byte(#[trigger] bytes@[k2]);
                            assert(!is_host_byte(pattern_bytes(patterns@)[i as int][k]));
                        }
                    }
                    return Err(e);
                },
            }
            proof {
                assert(ps.take(i + 1).to_set() =~= ps.take(i as int).to_set().insert(ps[i as int]))
                    by {
                    assert(ps.take(i + 1) =~= ps.take(i as int).push(ps[i as int]));
                    ps.take(i as int).lemma_push_to_set_commute(ps[i as int]);
                }
            }
            i = i + 1;
        }
        proof {
            assert(ps.take(patterns@.len() as int) =~= ps);
        }
        d.build();
        Ok(d)
    }

    /// Builds a matcher from owned pattern strings, as `new` does.
    pub fn from_strs(patterns: &Vec<String>) -> (r: Result<Domains, Error>)
        ensures
            r is Ok ==> r->Ok_0.wf() && r->Ok_0@ == string_bytes(patterns@).to_set(),
            (forall|i: int|
                0 <= i < patterns@.len() ==> is_host(#[trigger] string_bytes(patterns@)[i])) && 1
                + 38 * total_len(string_bytes(patterns@)) < MATCHED - NOT_MATCHED ==> r is Ok,
            (exists|i: int|
                0 <= i < patterns@.len() && !is_host(#[trigger] string_bytes(patterns@)[i]))
                ==> r is Err,
            r is Err ==> r == Err::<Domains, Error>(Error::TooManyDomains) || exists|i: int, k: int|
                0 <= i < patterns@.len() && 0 <= k < string_bytes(patterns@)[i].len()
                    && !is_host_byte(string_bytes(patterns@)[i][k]) && r == Err::<Domains, Error>(
                    Error::UnexpectedCharacter(#[trigger] string_bytes(patterns@)[i][k]),
                ),
    {
        let mut strs: Vec<&str> = Vec::new();
        let mut i: usize = 0;
        while i < patterns.len()
            invariant
                0 <= i <= patterns@.len(),
                strs@.len() == i,
                forall|k: int| 0 <= k < i ==> (#[trigger] strs@[k])@ == patterns@[k]@,
            decreases patterns@.len() - i,
        {
            strs.push(patterns[i].as_str());
            i = i + 1;
        }
        assert(pattern_bytes(strs@) =~= string_bytes(patterns@));
        Domains::new(strs.as_slice())
    }

    /// Trims the storage to the slots in use.
    pub fn build(&mut self)
        requires
            old(self).wf(),
        ensures
            final(self).wf(),
            final(self)@ == old(self)@,
            final(self).size() == old(self).size(),
    {
        shrink_slots(&mut self.host_trie);
    }

    /// Whether some pattern covers `uri`; the same answer as `contain_host`.
    pub fn mat(&self, uri: &[u8]) -> (r: bool)
        requires
            self.wf(),
        ensures
            r == matches_any(self@, uri@),
    {
        self.contain_host(uri)
    }

    /// Whether some pattern covers `uri`: up to ASCII case, `uri` is the
    /// pattern or ends with `"."` followed by it.
    pub fn contain_host(&self, uri: &[u8]) -> (r: bool)
        requires
            self.wf(),
        ensures
            r == matches_any(self@, uri@),
    {
        let ghost t = self.host_trie@;
        let ghost h = uri@;
        let mut current: usize = 0;
        let mut i: usize = uri.len();
        assert(rc_suffix(h, h.len() as int) =~= Seq::<int>::empty());
        while i > 0
            invariant
                self.wf(),
                t == self.host_trie@,
                h == uri@,
                0 <= i <= h.len(),
                current < t.len(),
                current as int == slot_at(t, rc_suffix(h, i as int)),
                forall|k: int| i <= k < h.len() ==> is_host_byte(#[trigger] h[k]),
                forall|d: int|
                    i < d <= h.len() ==> !(#[trigger] term_at(t, rc_suffix(h, d)) && h[d - 1]
                        == 46),
            decreases i,
        {
            let b = uri[i - 1];
            let child = self.host_trie[current];
            if child > NOT_MATCHED && b == DOT {
                proof {
                    lemma_found(t, self.labels@, self.patterns@, h, i as int);
                }
                return true;
            }
            if child == NOT_MATCHED || child == MATCHED {
                proof {
                    lemma_no_match(t, self.labels@, self.patterns@, h, i as int);
                }
                return false;
            }
            match Self::codec(b) {
                Ok(n) => {
                    proof {
                        assert(child_ok(t, self.labels@, current as int));
                        lemma_code_fold(b, b);
                        assert(rc_suffix(h, i - 1).drop_last() =~= rc_suffix(h, i as int));
                    }
                    current = n + (if child > NOT_MATCHED {
                        child - NOT_MATCHED
                    } else {
                        child
                    });
                },
                Err(_) => {
                    proof {
                        lemma_no_match(t, self.labels@, self.patterns@, h, i as int);
                    }
                    return false;
                },
            }
            i = i - 1;
        }
        proof {
            if is_term(t[current as int]) {
                lemma_found(t, self.labels@, self.patterns@, h, 0);
            } else {
                lemma_no_match(t, self.labels@, self.patterns@, h, 0);
            }
        }
        self.host_trie[current] > NOT_MATCHED
    }
}

impl Default for Domains {
    fn default() -> (r: Domains)
        ensures
            r.wf(),
            r@ == Set::<Seq<u8>>::empty(),
            r.size() == 1,
            r.slots() == seq![NOT_MATCHED],
    {
        Domains::empty()
    }
}

/// Relies on `Vec::shrink_to_fit`, which drops spare capacity and keeps the
/// elements.
#[verifier::external_body]
fn shrink_slots(v: &mut Vec<usize>)
    ensures
        final(v)@ == old(v)@,
{
    v.shrink_to_fit();
}

} // verus!
