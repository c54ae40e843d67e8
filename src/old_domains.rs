//! The plain-suffix trie: the first, simpler form of the host matcher. A
//! pattern end has no children, so the shortest pattern on a path wins, and a
//! host matches when it ends with a pattern, with no dot required before it.
use vstd::prelude::*;
use vstd::string::StringSliceAdditionalSpecFns;
use crate::domains::{
    Domains as PackedDomains, code_of, fold, fold_all, is_host, is_host_byte, is_suffix_of,
    lemma_code_fold, lemma_rc_fold, pattern_bytes, rc_suffix, rcodes, total_len,
};
use crate::error::Error;

verus! {

/// Slot value of a pattern end.
pub const MATCHED: usize = usize::MAX;

/// Slot value of an empty slot; child pointers lie below it.
pub const NOT_MATCHED: usize = usize::MAX - 1;

const NUM_CHILDREN: usize = 38;

/// Up to ASCII case, `h` ends with `p`.
pub open spec fn ends_with_folded(h: Seq<u8>, p: Seq<u8>) -> bool {
    is_suffix_of(fold_all(p), fold_all(h))
}

/// Up to ASCII case, `h` ends with some pattern of `pats`.
pub open spec fn ends_with_any(pats: Set<Seq<u8>>, h: Seq<u8>) -> bool {
    exists|p: Seq<u8>| #[trigger] pats.contains(p) && ends_with_folded(h, p)
}

spec fn has_child(v: usize) -> bool {
    v < NOT_MATCHED
}

spec fn slot_at(t: Seq<usize>, w: Seq<int>) -> int
    decreases w.len(),
{
    if w.len() == 0 {
        0
    } else {
        let s = slot_at(t, w.drop_last());
        if 0 <= s < t.len() && has_child(t[s]) && 0 <= w.last() < 38 {
            t[s] + w.last()
        } else {
            -1
        }
    }
}

spec fn term_at(t: Seq<usize>, w: Seq<int>) -> bool {
    0 <= slot_at(t, w) < t.len() && t[slot_at(t, w)] == MATCHED
}

spec fn shape_ok(t: Seq<usize>, lab: Seq<Seq<int>>) -> bool {
    &&& t.len() >= 1
    &&& lab.len() == t.len()
    &&& lab[0] == Seq::<int>::empty()
    &&& forall|i: int|
        0 <= i < t.len() && has_child(#[trigger] t[i]) ==> {
            &&& i < t[i]
            &&& t[i] + 38 <= t.len()
            &&& t[i] < NOT_MATCHED - 38
            &&& forall|k: int| 0 <= k < 38 ==> #[trigger] lab[t[i] + k] == lab[i].push(k)
        }
}

#[verifier::opaque]
spec fn sound(t: Seq<usize>, lab: Seq<Seq<int>>, pats: Set<Seq<u8>>) -> bool {
    forall|i: int|
        0 <= i < t.len() && #[trigger] t[i] == MATCHED ==> exists|p: Seq<u8>|
            #[trigger] pats.contains(p) && rcodes(p) == lab[i]
}

/// The walk of each pattern meets a pattern end, at its own end or earlier.
#[verifier::opaque]
spec fn complete(t: Seq<usize>, pats: Set<Seq<u8>>) -> bool {
    forall|p: Seq<u8>|
        #[trigger] pats.contains(p) ==> is_host(p) && exists|j: int|
            0 <= j <= p.len() && #[trigger] term_at(t, rcodes(p).take(j))
}

spec fn trie_inv(t: Seq<usize>, lab: Seq<Seq<int>>, pats: Set<Seq<u8>>) -> bool {
    shape_ok(t, lab) && sound(t, lab, pats) && complete(t, pats)
}

proof fn lemma_slot_label(t: Seq<usize>, lab: Seq<Seq<int>>, w: Seq<int>)
    requires
        shape_ok(t, lab),
        slot_at(t, w) != -1,
    ensures
        0 <= slot_at(t, w) < t.len(),
        lab[slot_at(t, w)] == w,
    decreases w.len(),
{
    if w.len() == 0 {
        assert(w =~= Seq::<int>::empty());
    } else {
        let s = slot_at(t, w.drop_last());
        lemma_slot_label(t, lab, w.drop_last());
        let k = w.last();
        assert(lab[t[s] + k] == lab[s].push(k));
        assert(w.drop_last().push(k) =~= w);
    }
}

proof fn lemma_slot_prefix(t: Seq<usize>, w: Seq<int>, d: int)
    requires
        slot_at(t, w) >= 0,
        0 <= d < w.len(),
    ensures
        0 <= slot_at(t, w.take(d)) < t.len(),
        has_child(t[slot_at(t, w.take(d))]),
    decreases w.len(),
{
    let w2 = w.drop_last();
    if d == w.len() - 1 {
        assert(w.take(d) =~= w2);
    } else {
        assert(w.take(d) =~= w2.take(d));
        lemma_slot_prefix(t, w2, d);
    }
}

/// Pointing a childless slot at a new block, or filling a new block, leaves
/// every walk that already ends in the array where it was.
proof fn lemma_walk_kept(t: Seq<usize>, t2: Seq<usize>, w: Seq<int>)
    requires
        t.len() <= t2.len(),
        forall|x: int| 0 <= x < t.len() && has_child(#[trigger] t[x]) ==> t2[x] == t[x],
        slot_at(t, w) >= 0,
    ensures
        slot_at(t2, w) == slot_at(t, w),
    decreases w.len(),
{
    if w.len() > 0 {
        lemma_walk_kept(t, t2, w.drop_last());
    }
}

/// After setting slot `cur` to a pattern end, a walk either ends where it did
/// or crosses `cur`.
proof fn lemma_walk_cut(t: Seq<usize>, cur: int, w: Seq<int>)
    requires
        0 <= cur < t.len(),
        slot_at(t, w) >= 0,
    ensures
        slot_at(t.update(cur, MATCHED), w) == slot_at(t, w) || exists|d: int|
            0 <= d <= w.len() && #[trigger] slot_at(t.update(cur, MATCHED), w.take(d)) == cur,
    decreases w.len(),
{
    let t2 = t.update(cur, MATCHED);
    if w.len() > 0 {
        let w2 = w.drop_last();
        lemma_walk_cut(t, cur, w2);
        if slot_at(t2, w2) == slot_at(t, w2) {
            if slot_at(t, w2) == cur {
                assert(w.take(w.len() - 1) =~= w2);
                assert(slot_at(t2, w.take(w.len() - 1)) == cur);
            }
        } else {
            let d = choose|d: int| 0 <= d <= w2.len() && #[trigger] slot_at(t2, w2.take(d)) == cur;
            assert(w.take(d) =~= w2.take(d));
            assert(slot_at(t2, w.take(d)) == cur);
        }
    } else {
        assert(w.take(0) =~= w);
    }
}

proof fn lemma_match_facts(h: Seq<u8>, p: Seq<u8>)
    requires
        is_host(p),
        ends_with_folded(h, p),
    ensures
        p.len() <= h.len(),
        forall|k: int| h.len() - p.len() <= k < h.len() ==> is_host_byte(#[trigger] h[k]),
        forall|e: int|
            0 <= e <= p.len() ==> #[trigger] rc_suffix(h, h.len() - e) == rcodes(p).take(e),
{
    let n = h.len() as int;
    let m = p.len() as int;
    let fh = fold_all(h);
    assert forall|k: int| 0 <= k < m implies fold(#[trigger] h[n - m + k]) == fold(p[k]) by {
        assert(fh.subrange(n - m, n)[k] == fold_all(p)[k]);
    }
    assert forall|k: int| n - m <= k < n implies is_host_byte(#[trigger] h[k]) by {
        assert(fold(h[n - m + (k - (n - m))]) == fold(p[k - (n - m)]));
        lemma_code_fold(p[k - (n - m)], h[k]);
    }
    assert forall|e: int| 0 <= e <= m implies #[trigger] rc_suffix(h, n - e) == rcodes(p).take(e) by {
        assert forall|q: int| 0 <= q < e implies rc_suffix(h, n - e)[q] == rcodes(p).take(e)[q] by {
            assert(fold(h[n - m + (m - 1 - q)]) == fold(p[m - 1 - q]));
            lemma_code_fold(p[m - 1 - q], h[n - 1 - q]);
        }
        assert(rc_suffix(h, n - e) =~= rcodes(p).take(e));
    }
}

proof fn lemma_found(t: Seq<usize>, lab: Seq<Seq<int>>, pats: Set<Seq<u8>>, h: Seq<u8>, i: int)
    requires
        trie_inv(t, lab, pats),
        0 <= i <= h.len(),
        forall|k: int| i <= k < h.len() ==> is_host_byte(#[trigger] h[k]),
        term_at(t, rc_suffix(h, i)),
    ensures
        ends_with_any(pats, h),
{
    reveal(sound);
    reveal(complete);
    let s = slot_at(t, rc_suffix(h, i));
    lemma_slot_label(t, lab, rc_suffix(h, i));
    let p = choose|p: Seq<u8>| #[trigger] pats.contains(p) && rcodes(p) == lab[s];
    lemma_rc_fold(h, i, p);
    let n = h.len() as int;
    assert(fold_all(h.subrange(i, n)) =~= fold_all(h).subrange(i, n));
    assert(ends_with_folded(h, p));
}

proof fn lemma_no_match(t: Seq<usize>, pats: Set<Seq<u8>>, h: Seq<u8>, i: int)
    requires
        complete(t, pats),
        0 <= i <= h.len(),
        slot_at(t, rc_suffix(h, i)) >= 0,
        forall|d: int| i <= d <= h.len() ==> !(#[trigger] term_at(t, rc_suffix(h, d))),
        i > 0 ==> !(has_child(t[slot_at(t, rc_suffix(h, i))]) && is_host_byte(h[i - 1])),
    ensures
        !ends_with_any(pats, h),
{
    reveal(complete);
    if ends_with_any(pats, h) {
        let n = h.len() as int;
        let p = choose|p: Seq<u8>| #[trigger] pats.contains(p) && ends_with_folded(h, p);
        let rp = rcodes(p);
        let j = choose|j: int| 0 <= j <= p.len() && #[trigger] term_at(t, rp.take(j));
        lemma_match_facts(h, p);
        let dd = n - i;
        if j <= dd {
            assert(rc_suffix(h, n - j) == rp.take(j));
        } else {
            assert(rc_suffix(h, n - dd) == rp.take(dd));
            lemma_slot_prefix(t, rp.take(j), dd);
            assert(rp.take(j).take(dd) =~= rp.take(dd));
            assert(is_host_byte(h[n - 1 - dd]));
        }
    }
}

/// A set of host patterns in a plain-suffix trie.
pub struct Domains {
    host_trie: Vec<usize>,
    labels: Ghost<Seq<Seq<int>>>,
    patterns: Ghost<Set<Seq<u8>>>,
}

impl View for Domains {
    type V = Set<Seq<u8>>;

    closed spec fn view(&self) -> Set<Seq<u8>> {
        self.patterns@
    }
}

impl Domains {
    pub closed spec fn wf(&self) -> bool {
        trie_inv(self.host_trie@, self.labels@, self.patterns@)
    }

    pub closed spec fn size(&self) -> nat {
        self.host_trie@.len()
    }

    fn empty() -> (r: Domains)
        ensures
            r.wf(),
            r@ == Set::<Seq<u8>>::empty(),
            r.size() == 1,
    {
        let ghost lab = seq![Seq::<int>::empty()];
        let ghost pats = Set::<Seq<u8>>::empty();
        let r = Domains { host_trie: vec![NOT_MATCHED], labels: Ghost(lab), patterns: Ghost(pats) };
        proof {
            reveal(sound);
            reveal(complete);
        }
        r
    }

    /// Adds a pattern of host bytes. A pattern whose walk meets the end of a
    /// shorter one is already covered; a pattern that ends where longer ones
    /// pass replaces them.
    #[verifier::rlimit(40)]
    fn add_host(&mut self, suffix: &[u8]) -> (r: Result<(), Error>)
        requires
            old(self).wf(),
            is_host(suffix@),
        ensures
            final(self).wf(),
            final(self).size() <= old(self).size() + 38 * suffix@.len(),
            r is Ok || r == Err::<(), Error>(Error::TooManyDomains),
            r is Ok ==> final(self)@ == old(self)@.insert(suffix@),
            r is Err ==> final(self)@ == old(self)@,
            r == Err::<(), Error>(Error::TooManyDomains) ==> old(self).size() + 38 * suffix@.len()
                >= NOT_MATCHED - 38,
    {
        let ghost s = suffix@;
        let ghost n = s.len() as int;
        let ghost t0 = self.host_trie@;
        let ghost lab0 = self.labels@;
        let ghost pats0 = self.patterns@;
        let ghost rc = rcodes(s);
        let mut current: usize = 0;
        let mut i: usize = suffix.len();
        assert(rc.take(0) =~= Seq::<int>::empty());
        while i > 0
            invariant
                trie_inv(t0, lab0, pats0),
                shape_ok(self.host_trie@, self.labels@),
                t0.len() <= self.host_trie@.len(),
                lab0.len() == t0.len(),
                forall|x: int|
                    0 <= x < t0.len() && #[trigger] t0[x] != NOT_MATCHED ==> self.host_trie@[x]
                        == t0[x],
                forall|x: int|
                    0 <= x < self.host_trie@.len() && #[trigger] self.host_trie@[x] == MATCHED ==> x
                        < t0.len() && t0[x] == MATCHED,
                forall|x: int| 0 <= x < lab0.len() ==> #[trigger] self.labels@[x] == lab0[x],
                self.patterns@ == pats0,
                t0 == old(self).host_trie@,
                pats0 == old(self)@,
                s == suffix@,
                n == s.len(),
                rc == rcodes(s),
                is_host(s),
                0 <= i <= n,
                current < self.host_trie@.len(),
                current as int == slot_at(self.host_trie@, rc.take(n - i)),
                self.host_trie@.len() <= t0.len() + 38 * (n - i),
            decreases i,
        {
            let b = suffix[i - 1];
            proof {
                lemma_code_fold(b, b);
                assert(rc[n - i] == code_of(b));
            }
            let code = match PackedDomains::codec(b) {
                Ok(code) => code,
                Err(e) => return Err(e),
            };
            let v = self.host_trie[current];
            if v == MATCHED {
                proof {
                    self.lemma_keep(t0, lab0, pats0);
                    assert(term_at(self.host_trie@, rc.take(n - i)));
                    lemma_add_covered(self.host_trie@, self.labels@, pats0, s, n - i);
                }
                self.patterns = Ghost(pats0.insert(s));
                return Ok(());
            }
            let ghost t1 = self.host_trie@;
            if v == NOT_MATCHED {
                let c = self.host_trie.len();
                if c >= NOT_MATCHED - NUM_CHILDREN {
                    proof {
                        self.lemma_keep(t0, lab0, pats0);
                    }
                    return Err(Error::TooManyDomains);
                }
                let ghost lab1 = self.labels@;
                let mut k: usize = 0;
                while k < NUM_CHILDREN
                    invariant
                        k <= NUM_CHILDREN,
                        self.host_trie@ == t1 + Seq::new(k as nat, |j: int| NOT_MATCHED),
                        self.labels@ == lab1,
                        self.patterns@ == pats0,
                        c == t1.len(),
                    decreases NUM_CHILDREN - k,
                {
                    self.host_trie.push(NOT_MATCHED);
                    k = k + 1;
                    assert(self.host_trie@ =~= t1 + Seq::new(k as nat, |j: int| NOT_MATCHED));
                }
                let ghost lab2 = lab1 + Seq::new(38, |k: int| lab1[current as int].push(k));
                self.labels = Ghost(lab2);
                self.host_trie.set(current, c);
                proof {
                    let t2 = self.host_trie@;
                    assert forall|x: int| 0 <= x < t2.len() && has_child(#[trigger] t2[x]) implies {
                        &&& x < t2[x]
                        &&& t2[x] + 38 <= t2.len()
                        &&& t2[x] < NOT_MATCHED - 38
                        &&& forall|k: int|
                            0 <= k < 38 ==> #[trigger] lab2[t2[x] + k] == lab2[x].push(k)
                    } by {
                        if x != current {
                            assert(x < t1.len());
                            assert(has_child(t1[x]));
                            assert forall|k: int| 0 <= k < 38 implies #[trigger] lab2[t2[x] + k]
                                == lab2[x].push(k) by {
                                assert(lab1[t1[x] + k] == lab1[x].push(k));
                            }
                        } else {
                            assert forall|k: int| 0 <= k < 38 implies #[trigger] lab2[t2[x] + k]
                                == lab2[x].push(k) by {
                                assert(lab2[c + k] == lab1[current as int].push(k));
                            }
                        }
                    }
                    assert(lab2[0] == lab1[0]);
                }
            }
            let child = self.host_trie[current];
            proof {
                assert(has_child(self.host_trie@[current as int]));
                lemma_walk_kept(t1, self.host_trie@, rc.take(n - i));
                assert(rc.take(n - i + 1).drop_last() =~= rc.take(n - i));
            }
            current = child + code;
            i = i - 1;
        }
        assert(rc.take(n) =~= rc);
        proof {
            self.lemma_keep(t0, lab0, pats0);
            lemma_slot_label(self.host_trie@, self.labels@, rc);
            lemma_set_term(self.host_trie@, self.labels@, pats0, s, current as int);
        }
        self.host_trie.set(current, MATCHED);
        self.patterns = Ghost(pats0.insert(s));
        Ok(())
    }

    proof fn lemma_keep(&self, t0: Seq<usize>, lab0: Seq<Seq<int>>, pats: Set<Seq<u8>>)
        requires
            trie_inv(t0, lab0, pats),
            shape_ok(self.host_trie@, self.labels@),
            t0.len() <= self.host_trie@.len(),
            lab0.len() == t0.len(),
            forall|x: int|
                0 <= x < t0.len() && #[trigger] t0[x] != NOT_MATCHED ==> self.host_trie@[x] == t0[x],
            forall|x: int|
                0 <= x < self.host_trie@.len() && #[trigger] self.host_trie@[x] == MATCHED ==> x
                    < t0.len() && t0[x] == MATCHED,
            forall|x: int| 0 <= x < lab0.len() ==> #[trigger] self.labels@[x] == lab0[x],
        ensures
            trie_inv(self.host_trie@, self.labels@, pats),
    {
        reveal(sound);
        reveal(complete);
        let t = self.host_trie@;
        let lab = self.labels@;
        assert forall|i: int| 0 <= i < t.len() && #[trigger] t[i] == MATCHED implies exists|
            p: Seq<u8>,
        | #[trigger] pats.contains(p) && rcodes(p) == lab[i] by {
            assert(t0[i] == MATCHED);
            assert(lab[i] == lab0[i]);
        }
        assert forall|p: Seq<u8>| #[trigger] pats.contains(p) implies is_host(p) && exists|j: int|
            0 <= j <= p.len() && #[trigger] term_at(t, rcodes(p).take(j)) by {
            let j = choose|j: int| 0 <= j <= p.len() && #[trigger] term_at(t0, rcodes(p).take(j));
            assert forall|x: int| 0 <= x < t0.len() && has_child(#[trigger] t0[x]) implies t[x]
                == t0[x] by {
                assert(t0[x] != NOT_MATCHED);
            }
            lemma_walk_kept(t0, t, rcodes(p).take(j));
            assert(term_at(t, rcodes(p).take(j)));
        }
    }

    /// Builds a matcher from `patterns`, added in order. Fails on the first
    /// pattern that cannot be added.
    pub fn new(patterns: &[&str]) -> (r: Result<Domains, Error>)
        ensures
            r is Ok ==> r->Ok_0.wf() && r->Ok_0@ == pattern_bytes(patterns@).to_set(),
            (forall|i: int|
                0 <= i < patterns@.len() ==> is_host(#[trigger] pattern_bytes(patterns@)[i])) && 1
                + 38 * total_len(pattern_bytes(patterns@)) < NOT_MATCHED - 38 ==> r is Ok,
            (exists|i: int|
                0 <= i < patterns@.len() && !is_host(#[trigger] pattern_bytes(patterns@)[i]))
                ==> r is Err,
            r is Err ==> r == Err::<Domains, Error>(Error::TooManyDomains) || exists|i: int, k: int|
                0 <= i < patterns@.len() && 0 <= k < pattern_bytes(patterns@)[i].len()
                    && !is_host_byte(pattern_bytes(patterns@)[i][k]) && r == Err::<Domains, Error>(
                    Error::UnexpectedCharacter(#[trigger] pattern_bytes(patterns@)[i][k]),
                ),
    {
        let ghost ps = pattern_bytes(patterns@);
        let mut d = Domains::empty();
        let mut i: usize = 0;
        while i < patterns.len()
            invariant
                ps == pattern_bytes(patterns@),
                0 <= i <= patterns@.len(),
                d.wf(),
                d@ == ps.take(i as int).to_set(),
                d.size() <= 1 + 38 * total_len(ps.take(i as int)),
                forall|k: int| 0 <= k < i ==> is_host(#[trigger] ps[k]),
            decreases patterns@.len() - i,
        {
            let bytes = patterns[i].as_bytes();
            proof {
                assert(ps.take(i + 1).drop_last() =~= ps.take(i as int));
                crate::domains::lemma_total_len_prefix(ps, i + 1);
            }
            let mut k: usize = bytes.len();
            while k > 0
                invariant
                    0 <= k <= bytes@.len(),
                    forall|j: int| k <= j < bytes@.len() ==> is_host_byte(#[trigger] bytes@[j]),
                    ps == pattern_bytes(patterns@),
                    i < patterns@.len(),
                    bytes@ == patterns@[i as int].spec_bytes(),
                decreases k,
            {
                if let Err(e) = PackedDomains::codec(bytes[k - 1]) {
                    proof {
                        assert(ps[i as int] == bytes@);
                        assert(!is_host_byte(pattern_bytes(patterns@)[i as int][k - 1]));
                    }
                    return Err(e);
                }
                k = k - 1;
            }
            proof {
                assert(ps[i as int] == bytes@);
            }
            match d.add_host(bytes) {
                Ok(()) => {},
                Err(e) => {
                    return Err(e);
                },
            }
            proof {
                assert(ps.take(i + 1).to_set() =~= ps.take(i as int).to_set().insert(ps[i as int]))
                    by {
                    assert(ps.take(i + 1) =~= ps.take(i as int).push(ps[i as int]));
                    ps.take(i as int).lemma_push_to_set_commute(ps[i as int]);
                }
            }
            i = i + 1;
        }
        proof {
            assert(ps.take(patterns@.len() as int) =~= ps);
        }
        Ok(d)
    }

    /// Whether, up to ASCII case, `uri` ends with some pattern.
    pub fn mat(&self, uri: &[u8]) -> (r: bool)
        requires
            self.wf(),
        ensures
            r == ends_with_any(self@, uri@),
    {
        let ghost t = self.host_trie@;
        let ghost h = uri@;
        let mut current: usize = 0;
        let mut i: usize = uri.len();
        assert(rc_suffix(h, h.len() as int) =~= Seq::<int>::empty());
        while i > 0
            invariant
                self.wf(),
                t == self.host_trie@,
                h == uri@,
                0 <= i <= h.len(),
                current < t.len(),
                current as int == slot_at(t, rc_suffix(h, i as int)),
                forall|k: int| i <= k < h.len() ==> is_host_byte(#[trigger] h[k]),
                forall|d: int| i < d <= h.len() ==> !(#[trigger] term_at(t, rc_suffix(h, d))),
            decreases i,
        {
            let v = self.host_trie[current];
            if v == MATCHED {
                proof {
                    lemma_found(t, self.labels@, self.patterns@, h, i as int);
                }
                return true;
            }
            if v == NOT_MATCHED {
                proof {
                    lemma_no_match(t, self.patterns@, h, i as int);
                }
                return false;
            }
            match PackedDomains::codec(uri[i - 1]) {
                Ok(n) => {
                    proof {
                        assert(has_child(t[current as int]));
                        lemma_code_fold(uri@[i - 1], uri@[i - 1]);
                        assert(rc_suffix(h, i - 1).drop_last() =~= rc_suffix(h, i as int));
                    }
                    current = v + n;
                },
                Err(_) => {
                    proof {
                        lemma_no_match(t, self.patterns@, h, i as int);
                    }
                    return false;
                },
            }
            i = i - 1;
        }
        proof {
            if t[current as int] == MATCHED {
                lemma_found(t, self.labels@, self.patterns@, h, 0);
            } else {
                lemma_no_match(t, self.patterns@, h, 0);
            }
        }
        self.host_trie[current] == MATCHED
    }
}

/// Adding a pattern whose first `j` codes already lead to a pattern end.
proof fn lemma_add_covered(
    t: Seq<usize>,
    lab: Seq<Seq<int>>,
    pats: Set<Seq<u8>>,
    s: Seq<u8>,
    j: int,
)
    requires
        trie_inv(t, lab, pats),
        is_host(s),
        0 <= j <= s.len(),
        term_at(t, rcodes(s).take(j)),
    ensures
        trie_inv(t, lab, pats.insert(s)),
{
    reveal(sound);
    reveal(complete);
    let pats2 = pats.insert(s);
    assert forall|i: int| 0 <= i < t.len() && #[trigger] t[i] == MATCHED implies exists|p: Seq<u8>|
        #[trigger] pats2.contains(p) && rcodes(p) == lab[i] by {
        let p = choose|p: Seq<u8>| #[trigger] pats.contains(p) && rcodes(p) == lab[i];
        assert(pats2.contains(p));
    }
}

/// Setting the slot reached by the codes of `s` to a pattern end.
proof fn lemma_set_term(t: Seq<usize>, lab: Seq<Seq<int>>, pats: Set<Seq<u8>>, s: Seq<u8>, cur: int)
    requires
        trie_inv(t, lab, pats),
        is_host(s),
        cur == slot_at(t, rcodes(s)),
        0 <= cur < t.len(),
        lab[cur] == rcodes(s),
    ensures
        trie_inv(t.update(cur, MATCHED), lab, pats.insert(s)),
{
    reveal(sound);
    reveal(complete);
    let t2 = t.update(cur, MATCHED);
    let pats2 = pats.insert(s);
    assert forall|i: int| 0 <= i < t2.len() && #[trigger] t2[i] == MATCHED implies exists|
        p: Seq<u8>,
    | #[trigger] pats2.contains(p) && rcodes(p) == lab[i] by {
        if i == cur {
            assert(pats2.contains(s));
        } else {
            let p = choose|p: Seq<u8>| #[trigger] pats.contains(p) && rcodes(p) == lab[i];
            assert(pats2.contains(p));
        }
    }
    assert forall|p: Seq<u8>| #[trigger] pats2.contains(p) implies is_host(p) && exists|j: int|
        0 <= j <= p.len() && #[trigger] term_at(t2, rcodes(p).take(j)) by {
        if p == s {
            assert(rcodes(s).take(s.len() as int) =~= rcodes(s));
            lemma_walk_cut(t, cur, rcodes(s));
            if slot_at(t2, rcodes(s)) != cur {
                let d = choose|d: int|
                    0 <= d <= rcodes(s).len() && #[trigger] slot_at(t2, rcodes(s).take(d)) == cur;
                assert(term_at(t2, rcodes(p).take(d)));
            } else {
                assert(term_at(t2, rcodes(p).take(s.len() as int)));
            }
        } else {
            let j = choose|j: int| 0 <= j <= p.len() && #[trigger] term_at(t, rcodes(p).take(j));
            let w = rcodes(p).take(j);
            lemma_walk_cut(t, cur, w);
            if slot_at(t2, w) == slot_at(t, w) {
                assert(term_at(t2, w));
            } else {
                let d = choose|d: int| 0 <= d <= w.len() && #[trigger] slot_at(t2, w.take(d)) == cur;
                assert(w.take(d) =~= rcodes(p).take(d));
                assert(term_at(t2, rcodes(p).take(d)));
            }
        }
    }
    assert forall|i: int| 0 <= i < t2.len() && has_child(#[trigger] t2[i]) implies {
        &&& i < t2[i]
        &&& t2[i] + 38 <= t2.len()
        &&& t2[i] < NOT_MATCHED - 38
        &&& forall|k: int| 0 <= k < 38 ==> #[trigger] lab[t2[i] + k] == lab[i].push(k)
    } by {
        assert(has_child(t[i]));
    }
}

} // verus!
