//! Two host matchers built on general string-search engines, kept as
//! baselines for the trie: Aho-Corasick over reversed host names, and one
//! regular expression for the whole pattern list.
use vstd::prelude::*;
use vstd::string::StringSliceAdditionalSpecFns;
use crate::domains::{is_suffix_of, pattern_bytes};

verus! {

/// `s` read backwards.
pub open spec fn rev(s: Seq<u8>) -> Seq<u8> {
    Seq::new(s.len(), |i: int| s[s.len() - 1 - i])
}

/// `p` is a prefix of `s`.
pub open spec fn is_prefix_of(p: Seq<u8>, s: Seq<u8>) -> bool {
    p.len() <= s.len() && s.take(p.len() as int) == p
}

/// Byte for byte, `h` is `p` or ends with `"." + p`.
pub open spec fn dotted_match(h: Seq<u8>, p: Seq<u8>) -> bool {
    h == p || is_suffix_of(seq![46u8] + p, h)
}

/// The bytes of `s`, reversed.
fn reversed(s: &[u8]) -> (r: Vec<u8>)
    ensures
        r@ == rev(s@),
{
    let mut r: Vec<u8> = Vec::new();
    let mut i: usize = s.len();
    while i > 0
        invariant
            0 <= i <= s@.len(),
            r@ == rev(s@).take(s@.len() - i),
        decreases i,
    {
        r.push(s[i - 1]);
        i = i - 1;
        assert(r@ =~= rev(s@).take(s@.len() - i));
    }
    assert(rev(s@).take(s@.len() as int) =~= rev(s@));
    r
}

proof fn lemma_rev_prefix(p: Seq<u8>, s: Seq<u8>)
    ensures
        is_prefix_of(rev(p), rev(s)) == is_suffix_of(p, s),
{
    let n = s.len() as int;
    let m = p.len() as int;
    if is_prefix_of(rev(p), rev(s)) {
        assert forall|k: int| 0 <= k < m implies s.subrange(n - m, n)[k] == p[k] by {
            assert(rev(s).take(m)[m - 1 - k] == rev(p)[m - 1 - k]);
        }
        assert(s.subrange(n - m, n) =~= p);
    }
    if is_suffix_of(p, s) {
        assert forall|k: int| 0 <= k < m implies rev(s).take(m)[k] == rev(p)[k] by {
            assert(s.subrange(n - m, n)[m - 1 - k] == p[m - 1 - k]);
        }
        assert(rev(s).take(m) =~= rev(p));
    }
}

// ---------------------------------------------------------------------------
// Aho-Corasick.

/// Some pattern of length `e` is a prefix of `hay`.
pub open spec fn starts_with_one_of(hay: Seq<u8>, pats: Seq<Seq<u8>>, e: int) -> bool {
    exists|i: int| 0 <= i < pats.len() && pats[i].len() == e && is_prefix_of(#[trigger] pats[i], hay)
}

/// `AhoCorasickBuilder::build_with_size::<u32>` (with `auto_configure` and
/// `anchored(true)`) succeeds on these patterns.
pub uninterp spec fn ac_builds(patterns: Seq<Seq<u8>>) -> bool;

/// An anchored Aho-Corasick automaton of `aho_corasick`.
#[verifier::external_body]
pub struct AcAutomaton {
    ac: aho_corasick::AhoCorasick<u32>,
}

/// The patterns an automaton was built from, in order.
pub uninterp spec fn ac_patterns(a: AcAutomaton) -> Seq<Seq<u8>>;

/// Relies on `AhoCorasickBuilder` with `auto_configure`, `anchored(true)`
/// and `build_with_size::<u32>`, which fails when the automaton needs more
/// states than `u32` numbers; the outcome depends on the patterns alone.
#[verifier::external_body]
fn ac_build(patterns: &Vec<Vec<u8>>) -> (r: Option<AcAutomaton>)
    ensures
        r is Some <==> ac_builds(patterns@.map_values(|p: Vec<u8>| p@)),
        r matches Some(a) ==> ac_patterns(a) == patterns@.map_values(|p: Vec<u8>| p@),
{
    aho_corasick::AhoCorasickBuilder::new()
        .auto_configure(patterns)
        .anchored(true)
        .build_with_size(patterns)
        .ok()
        .map(|ac| AcAutomaton { ac })
}

/// Relies on `AhoCorasick::find_overlapping_iter`: on an anchored automaton
/// it reports every pattern that starts the haystack, and the end of such a
/// match is the pattern's length.
#[verifier::external_body]
fn ac_match_ends(a: &AcAutomaton, hay: &[u8]) -> (r: Vec<usize>)
    requires
        forall|i: int| 0 <= i < ac_patterns(*a).len() ==> (#[trigger] ac_patterns(*a)[i]).len() > 0,
    ensures
        forall|e: usize| #[trigger] r@.contains(e) <==> starts_with_one_of(hay@, ac_patterns(*a), e as int),
{
    a.ac.find_overlapping_iter(hay).map(|m| m.end()).collect()
}

/// Host matcher on an Aho-Corasick automaton of the reversed patterns.
pub struct AcMatcher {
    ac: AcAutomaton,
    patterns: Ghost<Seq<Seq<u8>>>,
}

impl View for AcMatcher {
    type V = Seq<Seq<u8>>;

    closed spec fn view(&self) -> Seq<Seq<u8>> {
        self.patterns@
    }
}

impl AcMatcher {
    pub closed spec fn wf(&self) -> bool {
        &&& ac_patterns(self.ac) == self.patterns@.map_values(|p: Seq<u8>| rev(p))
        &&& forall|i: int| 0 <= i < self.patterns@.len() ==> (#[trigger] self.patterns@[i]).len() > 0
    }

    /// A matcher for `proxy`; `None` if a pattern is empty or the automaton
    /// cannot be built.
    pub fn new(proxy: &[&str]) -> (r: Option<AcMatcher>)
        ensures
            r matches Some(m) ==> m.wf() && m@ == pattern_bytes(proxy@),
            (exists|i: int| 0 <= i < proxy@.len() && (#[trigger] pattern_bytes(proxy@)[i]).len() == 0)
                ==> r is None,
            (forall|i: int| 0 <= i < proxy@.len() ==> (#[trigger] pattern_bytes(proxy@)[i]).len() > 0)
                ==> (r is Some <==> ac_builds(pattern_bytes(proxy@).map_values(|p: Seq<u8>| rev(p)))),
    {
        let ghost ps = pattern_bytes(proxy@);
        let mut patterns: Vec<Vec<u8>> = Vec::new();
        let mut i: usize = 0;
        while i < proxy.len()
            invariant
                ps == pattern_bytes(proxy@),
                0 <= i <= proxy@.len(),
                patterns@.len() == i,
                forall|k: int| 0 <= k < i ==> (#[trigger] patterns@[k])@ == rev(ps[k]),
                forall|k: int| 0 <= k < i ==> (#[trigger] ps[k]).len() > 0,
            decreases proxy@.len() - i,
        {
            let b = proxy[i].as_bytes();
            assert(b@ == ps[i as int]);
            if b.len() == 0 {
                return None;
            }
            patterns.push(reversed(b));
            i = i + 1;
        }
        assert(patterns@.map_values(|p: Vec<u8>| p@) =~= ps.map_values(|p: Seq<u8>| rev(p)));
        match ac_build(&patterns) {
            Some(ac) => {
                let m = AcMatcher { ac, patterns: Ghost(ps) };
                assert(ac_patterns(m.ac) =~= ps.map_values(|p: Seq<u8>| rev(p)));
                Some(m)
            },
            None => None,
        }
    }

    /// Whether, byte for byte, `domain` is a pattern or ends with `"."`
    /// followed by one.
    pub fn mat(&self, domain: &[u8]) -> (r: bool)
        requires
            self.wf(),
        ensures
            r == exists|i: int| 0 <= i < self@.len() && dotted_match(domain@, #[trigger] self@[i]),
    {
        let match_domain = reversed(domain);
        let domain_len = domain.len();
        proof {
            assert forall|i: int| 0 <= i < ac_patterns(self.ac).len() implies (#[trigger] ac_patterns(self.ac)[i]).len() > 0 by {
                assert(ac_patterns(self.ac)[i] == rev(self.patterns@[i]));
            }
        }
        let ends = ac_match_ends(&self.ac, match_domain.as_slice());
        let ghost pats = self.patterns@;
        let ghost d = domain@;
        let ghost n = d.len() as int;
        let mut k: usize = 0;
        while k < ends.len()
            invariant
                self.wf(),
                pats == self.patterns@,
                d == domain@,
                n == d.len(),
                n == domain_len,
                match_domain@ == rev(d),
                forall|e: usize|
                    #[trigger] ends@.contains(e) <==> starts_with_one_of(rev(d), ac_patterns(self.ac), e as int),
                0 <= k <= ends@.len(),
                forall|j: int|
                    0 <= j < k ==> !(ends@[j] >= n || match_domain@[#[trigger] ends@[j] as int] == 46),
            decreases ends@.len() - k,
        {
            let e = ends[k];
            if e >= match_domain.len() || match_domain[e] == 46 {
                proof {
                    assert(ends@[k as int] == e);
                    assert(ends@.contains(e));
                    let i = choose|i: int|
                        0 <= i < ac_patterns(self.ac).len() && ac_patterns(self.ac)[i].len() == e
                            && is_prefix_of(#[trigger] ac_patterns(self.ac)[i], rev(d));
                    assert(ac_patterns(self.ac)[i] == rev(pats[i]));
                    lemma_rev_prefix(pats[i], d);
                    self.lemma_found(d, i);
                }
                return true;
            }
            k = k + 1;
        }
        proof {
            if exists|i: int| 0 <= i < pats.len() && dotted_match(d, #[trigger] pats[i]) {
                let i = choose|i: int| 0 <= i < pats.len() && dotted_match(d, #[trigger] pats[i]);
                let p = pats[i];
                let m = p.len() as int;
                assert(p.len() > 0);
                assert(is_suffix_of(p, d)) by {
                    if d != p {
                        assert forall|q: int| 0 <= q < m implies d.subrange(n - m, n)[q] == p[q] by {
                            assert(d.subrange(n - m - 1, n)[q + 1] == (seq![46u8] + p)[q + 1]);
                        }
                        assert(d.subrange(n - m, n) =~= p);
                    } else {
                        assert(d.subrange(0, n) =~= d);
                    }
                }
                lemma_rev_prefix(p, d);
                assert(ac_patterns(self.ac)[i] == rev(p));
                let e = m as usize;
                assert(e as int == m);
                assert(is_prefix_of(ac_patterns(self.ac)[i], rev(d)));
                assert(starts_with_one_of(rev(d), ac_patterns(self.ac), e as int));
                assert(ends@.contains(e));
                let j = choose|j: int| 0 <= j < ends@.len() && ends@[j] == e;
                if m < n {
                    assert(d != p);
                    assert(d.subrange(n - m - 1, n)[0] == (seq![46u8] + p)[0]);
                    assert(rev(d)[m] == d[n - 1 - m]);
                }
                assert(ends@[j] >= n || match_domain@[ends@[j] as int] == 46);
            }
        }
        false
    }

    proof fn lemma_found(&self, d: Seq<u8>, i: int)
        requires
            self.wf(),
            0 <= i < self@.len(),
            is_suffix_of(self@[i], d),
            self@[i].len() >= d.len() || rev(d)[self@[i].len() as int] == 46,
        ensures
            exists|i: int| 0 <= i < self@.len() && dotted_match(d, #[trigger] self@[i]),
    {
        let p = self@[i];
        let n = d.len() as int;
        let m = p.len() as int;
        if m >= n {
            assert(d.subrange(n - m, n) =~= d);
            assert(d == p);
        } else {
            assert(rev(d)[m] == d[n - 1 - m]);
            assert(d.subrange(n - m - 1, n) =~= seq![46u8] + p) by {
                assert forall|q: int| 0 <= q < m + 1 implies d.subrange(n - m - 1, n)[q] == (seq![46u8] + p)[q] by {
                    if q > 0 {
                        assert(d.subrange(n - m, n)[q - 1] == p[q - 1]);
                    }
                }
            }
        }
        assert(dotted_match(d, self@[i]));
    }
}

// ---------------------------------------------------------------------------
// Regular expression.

/// A compiled `regex::bytes::Regex`.
#[verifier::external_body]
pub struct CompiledRegex {
    reg: regex::bytes::Regex,
}

/// The pattern a compiled regular expression was built from.
pub uninterp spec fn regex_source(r: CompiledRegex) -> Seq<u8>;

/// Whether the regular expression `pattern` matches somewhere in `hay`.
pub uninterp spec fn regex_is_match(pattern: Seq<u8>, hay: Seq<u8>) -> bool;

/// The bytes are UTF-8 text that `regex::bytes::Regex::new` accepts.
pub uninterp spec fn regex_compiles(pattern: Seq<u8>) -> bool;

/// Relies on `regex::bytes::Regex::new`, which compiles a pattern or fails
/// on a syntax error or a size limit, the same way for the same pattern;
/// the pattern is handed over as UTF-8.
#[verifier::external_body]
fn regex_compile(pattern: &Vec<u8>) -> (r: Option<CompiledRegex>)
    ensures
        r is Some <==> regex_compiles(pattern@),
        r matches Some(c) ==> regex_source(c) == pattern@,
{
    let text = std::str::from_utf8(pattern).ok()?;
    regex::bytes::Regex::new(text).ok().map(|reg| CompiledRegex { reg })
}

/// Relies on `regex::bytes::Regex::is_match`, whose answer depends on the
/// pattern and the haystack alone.
#[verifier::external_body]
fn regex_match(c: &CompiledRegex, hay: &[u8]) -> (r: bool)
    ensures
        r == regex_is_match(regex_source(*c), hay@),
{
    c.reg.is_match(hay)
}

/// `p` with each `.` escaped as `\.`.
pub open spec fn escaped(p: Seq<u8>) -> Seq<u8>
    decreases p.len(),
{
    if p.len() == 0 {
        Seq::empty()
    } else {
        escaped(p.drop_last()) + if p.last() == 46 {
            seq![92u8, 46u8]
        } else {
            seq![p.last()]
        }
    }
}

/// `(p1)|(p2)|...` over the escaped patterns.
pub open spec fn alternatives(ps: Seq<Seq<u8>>) -> Seq<u8>
    decreases ps.len(),
{
    if ps.len() == 0 {
        Seq::empty()
    } else {
        let group = seq![40u8] + escaped(ps.last()) + seq![41u8];
        if ps.len() == 1 {
            group
        } else {
            alternatives(ps.drop_last()) + seq![124u8] + group
        }
    }
}

/// `^(.*\.)?(` + the alternatives + `)$`.
pub open spec fn host_regex(ps: Seq<Seq<u8>>) -> Seq<u8> {
    seq![94u8, 40u8, 46u8, 42u8, 92u8, 46u8, 41u8, 63u8, 40u8] + alternatives(ps) + seq![41u8, 36u8]
}

/// Appends `tail` to `v`.
fn append_bytes(v: &mut Vec<u8>, tail: &[u8])
    ensures
        final(v)@ == old(v)@ + tail@,
{
    let mut i: usize = 0;
    while i < tail.len()
        invariant
            0 <= i <= tail@.len(),
            v@ == old(v)@ + tail@.take(i as int),
        decreases tail@.len() - i,
    {
        v.push(tail[i]);
        i = i + 1;
        assert(v@ =~= old(v)@ + tail@.take(i as int));
    }
    assert(tail@.take(tail@.len() as int) =~= tail@);
}

/// Appends `p` with each `.` escaped.
fn append_escaped(v: &mut Vec<u8>, p: &[u8])
    ensures
        final(v)@ == old(v)@ + escaped(p@),
{
    let mut i: usize = 0;
    while i < p.len()
        invariant
            0 <= i <= p@.len(),
            v@ == old(v)@ + escaped(p@.take(i as int)),
        decreases p@.len() - i,
    {
        assert(p@.take(i + 1).drop_last() =~= p@.take(i as int));
        if p[i] == 46 {
            v.push(92);
        }
        v.push(p[i]);
        i = i + 1;
        assert(v@ =~= old(v)@ + escaped(p@.take(i as int)));
    }
    assert(p@.take(p@.len() as int) =~= p@);
}

/// Host matcher on one regular expression for the whole list.
pub struct RegexMatcher {
    reg: CompiledRegex,
    pattern: Ghost<Seq<u8>>,
}

impl RegexMatcher {
    pub closed spec fn wf(&self) -> bool {
        regex_source(self.reg) == self.pattern@
    }

    /// The regular expression the matcher runs.
    pub closed spec fn source(&self) -> Seq<u8> {
        self.pattern@
    }

    /// A matcher for `proxy`: `^(.*\.)?((p1)|(p2)|...)$` with the dots of the
    /// patterns escaped; `None` if the list is empty (the expression would
    /// then match hosts without any pattern) or does not compile.
    pub fn new(proxy: &[&str]) -> (r: Option<RegexMatcher>)
        ensures
            r matches Some(m) ==> m.wf() && m.source() == host_regex(pattern_bytes(proxy@)),
            proxy@.len() == 0 ==> r is None,
            proxy@.len() > 0 ==> (r is Some <==> regex_compiles(host_regex(pattern_bytes(proxy@)))),
    {
        if proxy.len() == 0 {
            return None;
        }
        let ghost ps = pattern_bytes(proxy@);
        let mut pattern: Vec<u8> = Vec::new();
        append_bytes(&mut pattern, &[94, 40, 46, 42, 92, 46, 41, 63, 40]);
        let ghost head = pattern@;
        assert(head =~= seq![94u8, 40u8, 46u8, 42u8, 92u8, 46u8, 41u8, 63u8, 40u8]);
        let mut i: usize = 0;
        while i < proxy.len()
            invariant
                ps == pattern_bytes(proxy@),
                0 <= i <= proxy@.len(),
                head == seq![94u8, 40u8, 46u8, 42u8, 92u8, 46u8, 41u8, 63u8, 40u8],
                pattern@ == head + alternatives(ps.take(i as int)),
            decreases proxy@.len() - i,
        {
            assert(ps.take(i + 1).drop_last() =~= ps.take(i as int));
            assert(ps.take(i + 1).last() == ps[i as int]);
            let ghost before = pattern@;
            if i > 0 {
                pattern.push(124);
            }
            pattern.push(40);
            let b = proxy[i].as_bytes();
            assert(b@ == ps[i as int]);
            append_escaped(&mut pattern, b);
            pattern.push(41);
            proof {
                let group = seq![40u8] + escaped(ps[i as int]) + seq![41u8];
                if i > 0 {
                    assert(pattern@ =~= before + seq![124u8] + group);
                } else {
                    assert(pattern@ =~= before + group);
                }
                assert(pattern@ =~= head + alternatives(ps.take(i + 1)));
            }
            i = i + 1;
        }
        assert(ps.take(proxy@.len() as int) =~= ps);
        append_bytes(&mut pattern, &[41, 36]);
        assert(pattern@ =~= host_regex(ps));
        let ghost source = pattern@;
        match regex_compile(&pattern) {
            Some(reg) => Some(RegexMatcher { reg, pattern: Ghost(source) }),
            None => None,
        }
    }

    /// Whether the expression matches `domain`.
    pub fn mat(&self, domain: &[u8]) -> (r: bool)
        requires
            self.wf(),
        ensures
            r == regex_is_match(self.source(), domain@),
    {
        regex_match(&self.reg, domain)
    }
}

} // verus!
