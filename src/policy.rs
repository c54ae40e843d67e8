//! The routing policy: a block list of hosts, a block list of IP prefixes, one
//! host rule and one IP rule, built from configuration lists, and the decision
//! taken for each connection.
use vstd::prelude::*;
use vstd::utf8::encode_utf8;
use crate::domains::{
    fold, fold_all, is_host, matches_any, string_bytes, total_len, Domains, MATCHED, NOT_MATCHED,
};
use crate::error::Error;
use crate::ips::{any_contains, ipnet_parsed, parse_ipnet, prefix_valid, Addr, IpPrefix, Ips};

verus! {

/// How a connection leaves the proxy.
#[derive(Clone, Copy, Debug, PartialEq, Eq, Structural)]
pub enum Connection {
    Direct,
    Socks5,
}

/// The decision for a connection. `Resolve` asks the caller to look the
/// host up and decide again on its first address.
#[derive(Clone, Copy, Debug, PartialEq, Eq, Structural)]
pub enum Route {
    Block,
    Direct,
    Socks5,
    Resolve,
}

pub open spec fn route_of(c: Connection) -> Route {
    match c {
        Connection::Direct => Route::Direct,
        Connection::Socks5 => Route::Socks5,
    }
}

/// Hosts that go direct, or hosts that go through the SOCKS5 upstream.
pub enum DomainRule {
    Direct(Domains),
    Proxy(Domains),
}

impl DomainRule {
    pub open spec fn wf(&self) -> bool {
        match self {
            DomainRule::Direct(d) => d.wf(),
            DomainRule::Proxy(d) => d.wf(),
        }
    }

    /// The connection the rule names for host `h`, if the rule covers it.
    pub open spec fn spec_connection(&self, h: Seq<u8>) -> Option<Connection> {
        match self {
            DomainRule::Direct(d) => if matches_any(d@, h) {
                Some(Connection::Direct)
            } else {
                None
            },
            DomainRule::Proxy(d) => if matches_any(d@, h) {
                Some(Connection::Socks5)
            } else {
                None
            },
        }
    }

    pub fn get_connection(&self, uri: &[u8]) -> (r: Option<Connection>)
        requires
            self.wf(),
        ensures
            r == self.spec_connection(uri@),
    {
        match self {
            DomainRule::Direct(domains) => {
                if domains.contain_host(uri) {
                    Some(Connection::Direct)
                } else {
                    None
                }
            },
            DomainRule::Proxy(domains) => {
                if domains.contain_host(uri) {
                    Some(Connection::Socks5)
                } else {
                    None
                }
            },
        }
    }
}

/// Addresses that go direct (others through SOCKS5), or addresses that go
/// through SOCKS5 (others direct).
pub enum IpRule {
    Direct(Ips),
    Proxy(Ips),
}

impl IpRule {
    pub open spec fn wf(&self) -> bool {
        match self {
            IpRule::Direct(ips) => ips.wf(),
            IpRule::Proxy(ips) => ips.wf(),
        }
    }

    pub open spec fn spec_connection(&self, a: Addr) -> Connection {
        match self {
            IpRule::Direct(ips) => if any_contains(ips@, a) {
                Connection::Direct
            } else {
                Connection::Socks5
            },
            IpRule::Proxy(ips) => if any_contains(ips@, a) {
                Connection::Socks5
            } else {
                Connection::Direct
            },
        }
    }

    pub fn get_connection(&self, ip: Addr) -> (r: Connection)
        requires
            self.wf(),
        ensures
            r == self.spec_connection(ip),
    {
        match self {
            IpRule::Direct(ips) => {
                if ips.contain_ip(ip) {
                    Connection::Direct
                } else {
                    Connection::Socks5
                }
            },
            IpRule::Proxy(ips) => {
                if ips.contain_ip(ip) {
                    Connection::Socks5
                } else {
                    Connection::Direct
                }
            },
        }
    }
}

/// The compiled policy.
pub struct Policy {
    pub blockdomains: Domains,
    pub blockips: Ips,
    pub domain_rule: DomainRule,
    pub ip_rule: IpRule,
}

impl Policy {
    pub open spec fn wf(&self) -> bool {
        self.blockdomains.wf() && self.blockips.wf() && self.domain_rule.wf() && self.ip_rule.wf()
    }

    /// The decision for a connection to address `a`.
    pub open spec fn spec_route_ip(&self, a: Addr) -> Route {
        if any_contains(self.blockips@, a) {
            Route::Block
        } else {
            route_of(self.ip_rule.spec_connection(a))
        }
    }

    /// The decision for a connection to `host`, which reads as the address
    /// `literal` when it is an IP literal.
    pub open spec fn spec_route_host(&self, host: Seq<u8>, literal: Option<Addr>) -> Route {
        match literal {
            Some(a) => self.spec_route_ip(a),
            None => if matches_any(self.blockdomains@, host) {
                Route::Block
            } else {
                match self.domain_rule.spec_connection(host) {
                    Some(c) => route_of(c),
                    None => Route::Resolve,
                }
            },
        }
    }

    /// Blocked addresses are blocked; the IP rule decides the others.
    pub fn route_ip(&self, ip: Addr) -> (r: Route)
        requires
            self.wf(),
        ensures
            r == self.spec_route_ip(ip),
    {
        if self.blockips.contain_ip(ip) {
            Route::Block
        } else {
            match self.ip_rule.get_connection(ip) {
                Connection::Direct => Route::Direct,
                Connection::Socks5 => Route::Socks5,
            }
        }
    }

    /// An IP literal is decided by address. A host name is blocked if the
    /// block list covers it, else routed by the host rule if that covers it,
    /// else left to be resolved.
    pub fn route_host(&self, host: &[u8], literal: Option<Addr>) -> (r: Route)
        requires
            self.wf(),
        ensures
            r == self.spec_route_host(host@, literal),
    {
        match literal {
            Some(ip) => self.route_ip(ip),
            None => {
                if self.blockdomains.contain_host(host) {
                    Route::Block
                } else {
                    match self.domain_rule.get_connection(host) {
                        Some(Connection::Direct) => Route::Direct,
                        Some(Connection::Socks5) => Route::Socks5,
                        None => Route::Resolve,
                    }
                }
            },
        }
    }

    /// The decision once a host name has been resolved: on the first address
    /// found, or `None` when there is none.
    pub fn route_resolved(&self, addrs: &[Addr]) -> (r: Option<Route>)
        requires
            self.wf(),
        ensures
            addrs@.len() == 0 ==> r is None,
            addrs@.len() > 0 ==> r == Some(self.spec_route_ip(addrs@[0])),
    {
        if addrs.len() == 0 {
            None
        } else {
            Some(self.route_ip(addrs[0]))
        }
    }
}

/// A blocked host name is blocked whatever the rules say, and so is a host
/// whose address is blocked.
pub proof fn law_block_first(p: Policy, host: Seq<u8>, a: Addr)
    ensures
        matches_any(p.blockdomains@, host) ==> p.spec_route_host(host, None) == Route::Block,
        any_contains(p.blockips@, a) ==> p.spec_route_host(host, Some(a)) == Route::Block,
        any_contains(p.blockips@, a) ==> p.spec_route_ip(a) == Route::Block,
{
}

// ---------------------------------------------------------------------------
// Building the policy from configuration lists.

/// One country of the geo-IP table.
pub struct GeoEntry {
    pub country_code: String,
    pub nets: Vec<IpPrefix>,
}

/// The lists of the configuration file.
pub struct PolicyConfig {
    pub blockdomains: Vec<String>,
    pub blockips: Vec<String>,
    pub directdomains: Option<Vec<String>>,
    pub proxydomains: Option<Vec<String>>,
    pub directips: Option<Vec<String>>,
    pub proxyips: Option<Vec<String>>,
}

/// The geo-IP table holds valid prefixes only.
pub open spec fn geo_valid(geo: Seq<GeoEntry>) -> bool {
    forall|e: int, k: int|
        0 <= e < geo.len() && 0 <= k < geo[e].nets@.len() ==> prefix_valid(
            #[trigger] geo[e].nets@[k],
        )
}

/// The bytes start with `geo:`.
pub open spec fn is_geo_token(b: Seq<u8>) -> bool {
    b.len() >= 4 && b[0] == 103 && b[1] == 101 && b[2] == 111 && b[3] == 58
}

/// The prefixes of every country whose code equals `code` up to ASCII case,
/// in table order.
pub open spec fn geo_nets(code: Seq<u8>, geo: Seq<GeoEntry>) -> Seq<IpPrefix>
    decreases geo.len(),
{
    if geo.len() == 0 {
        Seq::empty()
    } else {
        geo_nets(code, geo.drop_last()) + if fold_all(encode_utf8(geo.last().country_code@))
            == fold_all(code) {
            geo.last().nets@
        } else {
            Seq::empty()
        }
    }
}

/// The prefixes an IP string stands for: a `geo:` token expands through the
/// table, anything else must parse as a CIDR prefix.
pub open spec fn token_nets(tok: Seq<char>, geo: Seq<GeoEntry>) -> Option<Seq<IpPrefix>> {
    let b = encode_utf8(tok);
    if is_geo_token(b) {
        Some(geo_nets(b.subrange(4, b.len() as int), geo))
    } else {
        match ipnet_parsed(tok) {
            Some(p) => Some(seq![p]),
            None => None,
        }
    }
}

/// The prefixes of a list of IP strings, or `None` if one of them is
/// ill-formed.
pub open spec fn tokens_nets(toks: Seq<String>, geo: Seq<GeoEntry>) -> Option<Seq<IpPrefix>>
    decreases toks.len(),
{
    if toks.len() == 0 {
        Some(Seq::empty())
    } else {
        match (tokens_nets(toks.drop_last(), geo), token_nets(toks.last()@, geo)) {
            (Some(a), Some(b)) => Some(a + b),
            _ => None,
        }
    }
}

/// The IP strings of a list expanded, with the `geo:` tokens that found no
/// country flagged.
pub struct Expansion {
    pub nets: Vec<IpPrefix>,
    pub missing_geo: Vec<bool>,
}

/// `a` and `b` are equal up to ASCII case.
pub fn eq_ignore_ascii_case(a: &[u8], b: &[u8]) -> (r: bool)
    ensures
        r == (fold_all(a@) == fold_all(b@)),
{
    if a.len() != b.len() {
        assert(fold_all(a@).len() != fold_all(b@).len());
        return false;
    }
    let mut i: usize = 0;
    while i < a.len()
        invariant
            a@.len() == b@.len(),
            0 <= i <= a@.len(),
            forall|k: int| 0 <= k < i ==> fold(#[trigger] a@[k]) == fold(b@[k]),
        decreases a@.len() - i,
    {
        let x = if 65 <= a[i] && a[i] <= 90 {
            a[i] + 32
        } else {
            a[i]
        };
        let y = if 65 <= b[i] && b[i] <= 90 {
            b[i] + 32
        } else {
            b[i]
        };
        if x != y {
            assert(fold_all(a@)[i as int] != fold_all(b@)[i as int]);
            return false;
        }
        i = i + 1;
    }
    assert(fold_all(a@) =~= fold_all(b@));
    true
}

/// The prefixes of every country whose code equals `code` up to ASCII case.
pub fn expand_geo(code: &[u8], geo: &Vec<GeoEntry>) -> (r: Vec<IpPrefix>)
    ensures
        r@ == geo_nets(code@, geo@),
{
    let mut r: Vec<IpPrefix> = Vec::new();
    let mut e: usize = 0;
    while e < geo.len()
        invariant
            0 <= e <= geo@.len(),
            r@ == geo_nets(code@, geo@.take(e as int)),
        decreases geo@.len() - e,
    {
        let entry = &geo[e];
        assert(geo@.take(e + 1).drop_last() =~= geo@.take(e as int));
        if eq_ignore_ascii_case(entry.country_code.as_str().as_bytes(), code) {
            let ghost before = r@;
            let mut k: usize = 0;
            while k < entry.nets.len()
                invariant
                    0 <= k <= entry.nets@.len(),
                    r@ == before + entry.nets@.take(k as int),
                decreases entry.nets@.len() - k,
            {
                r.push(entry.nets[k]);
                k = k + 1;
                assert(r@ =~= before + entry.nets@.take(k as int));
            }
            assert(entry.nets@.take(entry.nets@.len() as int) =~= entry.nets@);
        } else {
            assert(r@ =~= r@ + Seq::<IpPrefix>::empty());
        }
        e = e + 1;
    }
    assert(geo@.take(geo@.len() as int) =~= geo@);
    r
}

proof fn lemma_geo_nets_valid(code: Seq<u8>, geo: Seq<GeoEntry>)
    requires
        geo_valid(geo),
    ensures
        forall|k: int| 0 <= k < geo_nets(code, geo).len() ==> prefix_valid(#[trigger] geo_nets(code, geo)[k]),
    decreases geo.len(),
{
    if geo.len() > 0 {
        let g = geo.drop_last();
        assert(geo_valid(g)) by {
            assert forall|e: int, k: int| 0 <= e < g.len() && 0 <= k < g[e].nets@.len() implies prefix_valid(
                #[trigger] g[e].nets@[k],
            ) by {
                assert(g[e] == geo[e]);
            }
        }
        lemma_geo_nets_valid(code, g);
        let last = geo.last();
        assert forall|k: int| 0 <= k < last.nets@.len() implies prefix_valid(#[trigger] last.nets@[k]) by {
            assert(geo[geo.len() - 1].nets@[k] == last.nets@[k]);
        }
        let a = geo_nets(code, g);
        let b = if fold_all(encode_utf8(last.country_code@)) == fold_all(code) {
            last.nets@
        } else {
            Seq::empty()
        };
        assert(geo_nets(code, geo) == a + b);
        assert forall|k: int| 0 <= k < (a + b).len() implies prefix_valid(#[trigger] (a + b)[k]) by {
            if k >= a.len() {
                assert((a + b)[k] == b[k - a.len()]);
            } else {
                assert((a + b)[k] == a[k]);
            }
        }
    }
}

proof fn lemma_tokens_none(toks: Seq<String>, geo: Seq<GeoEntry>, j: int)
    requires
        0 <= j <= toks.len(),
        tokens_nets(toks.take(j), geo) is None,
    ensures
        tokens_nets(toks, geo) is None,
    decreases toks.len() - j,
{
    if j < toks.len() {
        assert(toks.take(j + 1).drop_last() =~= toks.take(j));
        lemma_tokens_none(toks, geo, j + 1);
    } else {
        assert(toks.take(j) =~= toks);
    }
}

/// Expands a list of IP strings into prefixes. Fails on the first string
/// that is neither a `geo:` token nor a CIDR prefix.
pub fn to_ipnets(ip_strings: &Vec<String>, geo: &Vec<GeoEntry>) -> (r: Result<Expansion, Error>)
    requires
        geo_valid(geo@),
    ensures
        tokens_nets(ip_strings@, geo@) is Some <==> r is Ok,
        r matches Ok(x) ==> {
            &&& Some(x.nets@) == tokens_nets(ip_strings@, geo@)
            &&& forall|k: int| 0 <= k < x.nets@.len() ==> prefix_valid(#[trigger] x.nets@[k])
            &&& x.missing_geo@.len() == ip_strings@.len()
            &&& forall|i: int|
                0 <= i < ip_strings@.len() ==> #[trigger] x.missing_geo@[i] == (is_geo_token(
                    encode_utf8(ip_strings@[i]@),
                ) && geo_nets(
                    encode_utf8(ip_strings@[i]@).subrange(4, encode_utf8(ip_strings@[i]@).len() as int),
                    geo@,
                ).len() == 0)
        },
        r matches Err(e) ==> exists|i: int|
            0 <= i < ip_strings@.len() && #[trigger] token_nets(ip_strings@[i]@, geo@) is None
                && (e matches Error::IllegalIpNet(s) && s@ == ip_strings@[i]@),
{
    let mut nets: Vec<IpPrefix> = Vec::new();
    let mut missing: Vec<bool> = Vec::new();
    let mut i: usize = 0;
    while i < ip_strings.len()
        invariant
            geo_valid(geo@),
            0 <= i <= ip_strings@.len(),
            Some(nets@) == tokens_nets(ip_strings@.take(i as int), geo@),
            forall|k: int| 0 <= k < nets@.len() ==> prefix_valid(#[trigger] nets@[k]),
            missing@.len() == i,
            forall|j: int|
                0 <= j < i ==> #[trigger] missing@[j] == (is_geo_token(encode_utf8(ip_strings@[j]@))
                    && geo_nets(
                    encode_utf8(ip_strings@[j]@).subrange(4, encode_utf8(ip_strings@[j]@).len() as int),
                    geo@,
                ).len() == 0),
        decreases ip_strings@.len() - i,
    {
        let s = ip_strings[i].as_str();
        let b = s.as_bytes();
        let ghost tok = ip_strings@[i as int]@;
        assert(ip_strings@.take(i + 1).drop_last() =~= ip_strings@.take(i as int));
        assert(ip_strings@.take(i + 1).last() == ip_strings@[i as int]);
        let ghost before = nets@;
        if b.len() >= 4 && b[0] == 103 && b[1] == 101 && b[2] == 111 && b[3] == 58 {
            let code = &b[4..b.len()];
            let found = expand_geo(code, geo);
            proof {
                lemma_geo_nets_valid(code@, geo@);
            }
            missing.push(found.len() == 0);
            let mut k: usize = 0;
            while k < found.len()
                invariant
                    0 <= k <= found@.len(),
                    nets@ == before + found@.take(k as int),
                    forall|j: int| 0 <= j < found@.len() ==> prefix_valid(#[trigger] found@[j]),
                    forall|j: int| 0 <= j < before.len() ==> prefix_valid(#[trigger] before[j]),
                decreases found@.len() - k,
            {
                nets.push(found[k]);
                k = k + 1;
                assert(nets@ =~= before + found@.take(k as int));
            }
            assert(found@.take(found@.len() as int) =~= found@);
            assert forall|j: int| 0 <= j < nets@.len() implies prefix_valid(#[trigger] nets@[j]) by {
                if j >= before.len() {
                    assert(nets@[j] == found@[j - before.len()]);
                }
            }
        } else {
            match parse_ipnet(s) {
                Some(p) => {
                    nets.push(p);
                    missing.push(false);
                    assert(nets@ =~= before + seq![p]);
                },
                None => {
                    proof {
                        assert(token_nets(ip_strings@[i as int]@, geo@) is None);
                        assert(tokens_nets(ip_strings@.take(i + 1), geo@) is None);
                        lemma_tokens_none(ip_strings@, geo@, i + 1);
                    }
                    return Err(Error::IllegalIpNet(ip_strings[i].clone()));
                },
            }
        }
        i = i + 1;
    }
    assert(ip_strings@.take(ip_strings@.len() as int) =~= ip_strings@);
    Ok(Expansion { nets, missing_geo: missing })
}

/// Exactly one list of each direct/proxy pair is given.
pub open spec fn config_consistent(cfg: &PolicyConfig) -> bool {
    (cfg.directdomains is Some) != (cfg.proxydomains is Some) && (cfg.directips is Some) != (
    cfg.proxyips is Some)
}

/// Every pattern of the list is made of host bytes, and the list is small
/// enough for the trie.
pub open spec fn domain_list_ok(l: Seq<String>) -> bool {
    (forall|i: int| 0 <= i < l.len() ==> is_host(#[trigger] string_bytes(l)[i])) && 1 + 38
        * total_len(string_bytes(l)) < MATCHED - NOT_MATCHED
}

/// Some string of the list is a `geo:` token.
pub open spec fn has_geo(l: Seq<String>) -> bool {
    exists|i: int| 0 <= i < l.len() && is_geo_token(#[trigger] encode_utf8(l[i]@))
}

/// Whether some string of `list` is a `geo:` token.
pub fn has_geo_token(list: &Vec<String>) -> (r: bool)
    ensures
        r == has_geo(list@),
{
    let mut i: usize = 0;
    while i < list.len()
        invariant
            0 <= i <= list@.len(),
            forall|k: int| 0 <= k < i ==> !is_geo_token(#[trigger] encode_utf8(list@[k]@)),
        decreases list@.len() - i,
    {
        let b = list[i].as_str().as_bytes();
        if b.len() >= 4 && b[0] == 103 && b[1] == 101 && b[2] == 111 && b[3] == 58 {
            return true;
        }
        i = i + 1;
    }
    false
}

/// Whether the configuration names a `geo:` token, so that the geo-IP table
/// has to be loaded.
pub fn needs_geo(cfg: &PolicyConfig) -> (r: bool)
    ensures
        r == (has_geo(cfg.blockips@) || (cfg.directips matches Some(l) && has_geo(l@)) || (
        cfg.proxyips matches Some(l) && has_geo(l@))),
{
    if has_geo_token(&cfg.blockips) {
        return true;
    }
    if let Some(l) = &cfg.directips {
        if has_geo_token(l) {
            return true;
        }
    }
    if let Some(l) = &cfg.proxyips {
        if has_geo_token(l) {
            return true;
        }
    }
    false
}

/// `s` is a `geo:` token of `list` that matches no country of the table.
pub open spec fn listed_missing(list: Seq<String>, geo: Seq<GeoEntry>, s: Seq<char>) -> bool {
    exists|i: int| 0 <= i < list.len() && list[i]@ == s && geo_missing(s, geo)
}

/// The `geo:` tokens of `list` that match no country of the table.
pub fn missing_geo_tokens(list: &Vec<String>, geo: &Vec<GeoEntry>) -> (r: Vec<String>)
    ensures
        forall|k: int| 0 <= k < r@.len() ==> listed_missing(list@, geo@, #[trigger] r@[k]@),
        forall|i: int|
            0 <= i < list@.len() && geo_missing(#[trigger] list@[i]@, geo@) ==> exists|k: int|
                0 <= k < r@.len() && r@[k]@ == list@[i]@,
{
    let mut out: Vec<String> = Vec::new();
    let mut i: usize = 0;
    while i < list.len()
        invariant
            0 <= i <= list@.len(),
            forall|k: int| 0 <= k < out@.len() ==> listed_missing(list@, geo@, #[trigger] out@[k]@),
            forall|j: int|
                0 <= j < i && geo_missing(#[trigger] list@[j]@, geo@) ==> exists|k: int|
                    0 <= k < out@.len() && out@[k]@ == list@[j]@,
        decreases list@.len() - i,
    {
        let b = list[i].as_str().as_bytes();
        if b.len() >= 4 && b[0] == 103 && b[1] == 101 && b[2] == 111 && b[3] == 58 {
            let found = expand_geo(&b[4..b.len()], geo);
            if found.len() == 0 {
                let ghost before = out@;
                out.push(list[i].clone());
                proof {
                    assert(out@[before.len() as int]@ == list@[i as int]@);
                    assert(geo_missing(list@[i as int]@, geo@));
                    assert(listed_missing(list@, geo@, list@[i as int]@));
                    assert forall|k: int| 0 <= k < out@.len() implies listed_missing(
                        list@,
                        geo@,
                        #[trigger] out@[k]@,
                    ) by {
                        if k < before.len() {
                            assert(out@[k] == before[k]);
                        }
                    }
                    assert forall|j: int|
                        0 <= j < i + 1 && geo_missing(#[trigger] list@[j]@, geo@) implies exists|k: int|
                        0 <= k < out@.len() && out@[k]@ == list@[j]@ by {
                        if j < i {
                            let k = choose|k: int| 0 <= k < before.len() && before[k]@ == list@[j]@;
                            assert(out@[k] == before[k]);
                        } else {
                            assert(out@[before.len() as int]@ == list@[j]@);
                        }
                    }
                }
            }
        }
        i = i + 1;
    }
    out
}

/// A `geo:` token that matches no country of the table.
pub open spec fn geo_missing(tok: Seq<char>, geo: Seq<GeoEntry>) -> bool {
    let b = encode_utf8(tok);
    is_geo_token(b) && geo_nets(b.subrange(4, b.len() as int), geo).len() == 0
}

/// An IP set of the prefixes a list of IP strings stands for.
fn ips_from(list: &Vec<String>, geo: &Vec<GeoEntry>) -> (r: Result<Ips, Error>)
    requires
        geo_valid(geo@),
    ensures
        tokens_nets(list@, geo@) is Some <==> r is Ok,
        r matches Ok(ips) ==> ips.wf() && Some(ips@) == tokens_nets(list@, geo@),
        r matches Err(e) ==> e is IllegalIpNet,
{
    match to_ipnets(list, geo) {
        Ok(x) => Ips::from_ipnets(&x.nets),
        Err(e) => Err(e),
    }
}

/// Builds the policy from the configuration lists and the geo-IP table.
pub fn build_policy(cfg: &PolicyConfig, geo: &Vec<GeoEntry>) -> (r: Result<Policy, Error>)
    requires
        geo_valid(geo@),
    ensures
        r == Err::<Policy, Error>(Error::ConfigInconsistency) <==> !config_consistent(cfg),
        r matches Ok(p) ==> {
            &&& p.wf()
            &&& p.blockdomains@ == string_bytes(cfg.blockdomains@).to_set()
            &&& Some(p.blockips@) == tokens_nets(cfg.blockips@, geo@)
            &&& (cfg.directdomains matches Some(l) ==> (p.domain_rule matches DomainRule::Direct(d)
                && d@ == string_bytes(l@).to_set()))
            &&& (cfg.proxydomains matches Some(l) ==> (p.domain_rule matches DomainRule::Proxy(d)
                && d@ == string_bytes(l@).to_set()))
            &&& (cfg.directips matches Some(l) ==> (p.ip_rule matches IpRule::Direct(ips) && Some(
                ips@,
            ) == tokens_nets(l@, geo@)))
            &&& (cfg.proxyips matches Some(l) ==> (p.ip_rule matches IpRule::Proxy(ips) && Some(
                ips@,
            ) == tokens_nets(l@, geo@)))
        },
        config_consistent(cfg) && domain_list_ok(cfg.blockdomains@) && tokens_nets(
            cfg.blockips@,
            geo@,
        ) is Some && (cfg.directdomains matches Some(l) ==> domain_list_ok(l@))
            && (cfg.proxydomains matches Some(l) ==> domain_list_ok(l@)) && (
        cfg.directips matches Some(l) ==> tokens_nets(l@, geo@) is Some) && (
        cfg.proxyips matches Some(l) ==> tokens_nets(l@, geo@) is Some) ==> r is Ok,
        r matches Err(Error::IllegalIpNet(_)) ==> tokens_nets(cfg.blockips@, geo@) is None || (
        cfg.directips matches Some(l) && tokens_nets(l@, geo@) is None) || (
        cfg.proxyips matches Some(l) && tokens_nets(l@, geo@) is None),
{
    let domains_given = match (&cfg.directdomains, &cfg.proxydomains) {
        (Some(_), None) => true,
        (None, Some(_)) => true,
        _ => false,
    };
    let ips_given = match (&cfg.directips, &cfg.proxyips) {
        (Some(_), None) => true,
        (None, Some(_)) => true,
        _ => false,
    };
    if !domains_given || !ips_given {
        return Err(Error::ConfigInconsistency);
    }
    let blockdomains = match Domains::from_strs(&cfg.blockdomains) {
        Ok(d) => d,
        Err(e) => return Err(e),
    };
    let blockips = match ips_from(&cfg.blockips, geo) {
        Ok(ips) => ips,
        Err(e) => return Err(e),
    };
    let domain_rule = match (&cfg.directdomains, &cfg.proxydomains) {
        (Some(l), None) => match Domains::from_strs(l) {
            Ok(d) => DomainRule::Direct(d),
            Err(e) => return Err(e),
        },
        (_, Some(l)) => match Domains::from_strs(l) {
            Ok(d) => DomainRule::Proxy(d),
            Err(e) => return Err(e),
        },
        _ => return Err(Error::ConfigInconsistency),
    };
    let ip_rule = match (&cfg.directips, &cfg.proxyips) {
        (Some(l), None) => match ips_from(l, geo) {
            Ok(ips) => IpRule::Direct(ips),
            Err(e) => return Err(e),
        },
        (_, Some(l)) => match ips_from(l, geo) {
            Ok(ips) => IpRule::Proxy(ips),
            Err(e) => return Err(e),
        },
        _ => return Err(Error::ConfigInconsistency),
    };
    Ok(Policy { blockdomains, blockips, domain_rule, ip_rule })
}

} // verus!
