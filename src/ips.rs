//! Sets of IP prefixes: IPv4 and IPv6 prefixes added one by one, merged, and
//! then asked whether they cover an address.
use vstd::prelude::*;
use vstd::arithmetic::power2::pow2;
use ipnet::{Ipv4Net, Ipv6Net};
use iprange::IpRange;
use crate::error::Error;

verus! {

/// An IP address, as the integer of its bits.
#[derive(Clone, Copy, Debug, PartialEq, Eq, Structural)]
pub enum Addr {
    V4(u32),
    V6(u128),
}

/// A CIDR prefix: an address and the number of leading bits that count.
#[allow(inconsistent_fields)]
#[derive(Clone, Copy, Debug, PartialEq, Eq, Structural)]
pub enum IpPrefix {
    V4 { addr: u32, len: u8 },
    V6 { addr: u128, len: u8 },
}

/// The prefix length fits the address family.
pub open spec fn prefix_valid(p: IpPrefix) -> bool {
    match p {
        IpPrefix::V4 { len, .. } => len <= 32,
        IpPrefix::V6 { len, .. } => len <= 128,
    }
}

/// `x` and `a`, read as `bits`-bit integers, agree on their first `len` bits.
pub open spec fn same_leading_bits(x: int, a: int, bits: nat, len: nat) -> bool {
    len <= bits && x / (pow2((bits - len) as nat) as int) == a / (pow2((bits - len) as nat) as int)
}

/// The prefix `p` covers the address `a`.
pub open spec fn prefix_contains(p: IpPrefix, a: Addr) -> bool {
    match (p, a) {
        (IpPrefix::V4 { addr, len }, Addr::V4(x)) => same_leading_bits(
            x as int,
            addr as int,
            32,
            len as nat,
        ),
        (IpPrefix::V6 { addr, len }, Addr::V6(x)) => same_leading_bits(
            x as int,
            addr as int,
            128,
            len as nat,
        ),
        _ => false,
    }
}

/// Some prefix of `nets` covers `a`: the plain scan over the prefixes.
pub open spec fn any_contains(nets: Seq<IpPrefix>, a: Addr) -> bool {
    exists|i: int| 0 <= i < nets.len() && prefix_contains(#[trigger] nets[i], a)
}

// ---------------------------------------------------------------------------
// The outside range sets.

/// An `iprange` range of IPv4 networks.
#[verifier::external_body]
pub struct V4Range {
    inner: IpRange<Ipv4Net>,
}

/// An `iprange` range of IPv6 networks.
#[verifier::external_body]
pub struct V6Range {
    inner: IpRange<Ipv6Net>,
}

/// The IPv4 addresses that a range covers.
pub uninterp spec fn v4_covered(r: V4Range) -> Set<u32>;

/// The IPv6 addresses that a range covers.
pub uninterp spec fn v6_covered(r: V6Range) -> Set<u128>;

/// Relies on `IpRange::new`: a range without networks covers nothing.
#[verifier::external_body]
fn v4_range_new() -> (r: V4Range)
    ensures
        v4_covered(r) == Set::<u32>::empty(),
{
    V4Range { inner: IpRange::new() }
}

/// Relies on `IpRange::new`: a range without networks covers nothing.
#[verifier::external_body]
fn v6_range_new() -> (r: V6Range)
    ensures
        v6_covered(r) == Set::<u128>::empty(),
{
    V6Range { inner: IpRange::new() }
}

/// Relies on `Ipv4Net::new`, which accepts prefix lengths up to 32, and on
/// `IpRange::add`, whose trie insert marks the node reached by the first
/// `len` bits of `addr` as covering its whole subtree.
#[verifier::external_body]
fn v4_range_add(r: &mut V4Range, addr: u32, len: u8)
    requires
        len <= 32,
    ensures
        v4_covered(*final(r)) == v4_covered(*old(r)).union(
            Set::new(|x: u32| same_leading_bits(x as int, addr as int, 32, len as nat)),
        ),
{
    if let Ok(net) = Ipv4Net::new(addr.into(), len) {
        r.inner.add(net);
    }
}

/// Relies on `Ipv6Net::new`, which accepts prefix lengths up to 128, and on
/// `IpRange::add`, as for IPv4.
#[verifier::external_body]
fn v6_range_add(r: &mut V6Range, addr: u128, len: u8)
    requires
        len <= 128,
    ensures
        v6_covered(*final(r)) == v6_covered(*old(r)).union(
            Set::new(|x: u128| same_leading_bits(x as int, addr as int, 128, len as nat)),
        ),
{
    if let Ok(net) = Ipv6Net::new(addr.into(), len) {
        r.inner.add(net);
    }
}

/// Relies on `IpRange::simplify`, which merges sibling networks and keeps
/// the addresses covered.
#[verifier::external_body]
fn v4_range_simplify(r: &mut V4Range)
    ensures
        v4_covered(*final(r)) == v4_covered(*old(r)),
{
    r.inner.simplify();
}

/// Relies on `IpRange::simplify`, as for IPv4.
#[verifier::external_body]
fn v6_range_simplify(r: &mut V6Range)
    ensures
        v6_covered(*final(r)) == v6_covered(*old(r)),
{
    r.inner.simplify();
}

/// Relies on `IpRange::contains`, which searches the trie for a network
/// above the single address.
#[verifier::external_body]
fn v4_range_contains(r: &V4Range, x: u32) -> (b: bool)
    ensures
        b == v4_covered(*r).contains(x),
{
    r.inner.contains(&x)
}

/// Relies on `IpRange::contains`, as for IPv4.
#[verifier::external_body]
fn v6_range_contains(r: &V6Range, x: u128) -> (b: bool)
    ensures
        b == v6_covered(*r).contains(x),
{
    r.inner.contains(&x)
}

/// What `ipnet` reads from a CIDR string (`IpNet::from_str`).
pub uninterp spec fn ipnet_parsed(s: Seq<char>) -> Option<IpPrefix>;

/// Relies on `IpNet::from_str`: an address, `/` and a prefix length of at
/// most 32 for IPv4 or 128 for IPv6.
#[verifier::external_body]
pub(crate) fn parse_ipnet(s: &str) -> (r: Option<IpPrefix>)
    ensures
        r == ipnet_parsed(s@),
        r matches Some(p) ==> prefix_valid(p),
{
    match s.parse::<ipnet::IpNet>() {
        Ok(ipnet::IpNet::V4(n)) => Some(IpPrefix::V4 { addr: u32::from(n.addr()), len: n.prefix_len() }),
        Ok(ipnet::IpNet::V6(n)) => Some(IpPrefix::V6 { addr: u128::from(n.addr()), len: n.prefix_len() }),
        Err(_) => None,
    }
}

// ---------------------------------------------------------------------------
// The set.

/// IPv4 and IPv6 prefix sets, each answering containment.
pub struct Ips {
    ipv4: V4Range,
    ipv6: V6Range,
    nets: Ghost<Seq<IpPrefix>>,
}

impl View for Ips {
    type V = Seq<IpPrefix>;

    /// The prefixes added, in order, before any merging.
    closed spec fn view(&self) -> Seq<IpPrefix> {
        self.nets@
    }
}

impl Ips {
    /// The ranges cover exactly the addresses of the prefixes added.
    pub closed spec fn wf(&self) -> bool {
        &&& forall|i: int| 0 <= i < self.nets@.len() ==> prefix_valid(#[trigger] self.nets@[i])
        &&& forall|x: u32| #[trigger]
            v4_covered(self.ipv4).contains(x) == any_contains(self.nets@, Addr::V4(x))
        &&& forall|x: u128| #[trigger]
            v6_covered(self.ipv6).contains(x) == any_contains(self.nets@, Addr::V6(x))
    }

    /// An empty set.
    pub fn new() -> (r: Ips)
        ensures
            r.wf(),
            r@ == Seq::<IpPrefix>::empty(),
    {
        let ghost nets = Seq::<IpPrefix>::empty();
        Ips { ipv4: v4_range_new(), ipv6: v6_range_new(), nets: Ghost(nets) }
    }

    /// Adds one prefix.
    pub fn add_ip(&mut self, ipnet: IpPrefix) -> (r: Result<(), Error>)
        requires
            old(self).wf(),
            prefix_valid(ipnet),
        ensures
            r is Ok,
            final(self).wf(),
            final(self)@ == old(self)@.push(ipnet),
    {
        let ghost old_nets = self.nets@;
        let ghost nets = old_nets.push(ipnet);
        match ipnet {
            IpPrefix::V4 { addr, len } => {
                v4_range_add(&mut self.ipv4, addr, len);
            },
            IpPrefix::V6 { addr, len } => {
                v6_range_add(&mut self.ipv6, addr, len);
            },
        }
        self.nets = Ghost(nets);
        proof {
            assert forall|a: Addr| #[trigger] any_contains(nets, a) == (any_contains(old_nets, a)
                || prefix_contains(ipnet, a)) by {
                if any_contains(nets, a) {
                    let i = choose|i: int| 0 <= i < nets.len() && prefix_contains(#[trigger] nets[i], a);
                    if i < old_nets.len() {
                        assert(old_nets[i] == nets[i]);
                    }
                }
                if any_contains(old_nets, a) {
                    let i = choose|i: int|
                        0 <= i < old_nets.len() && prefix_contains(#[trigger] old_nets[i], a);
                    assert(nets[i] == old_nets[i]);
                }
                if prefix_contains(ipnet, a) {
                    assert(nets[old_nets.len() as int] == ipnet);
                }
            }
            assert forall|x: u32| #[trigger] v4_covered(self.ipv4).contains(x) == any_contains(
                nets,
                Addr::V4(x),
            ) by {
                assert(any_contains(nets, Addr::V4(x)) == (any_contains(old_nets, Addr::V4(x))
                    || prefix_contains(ipnet, Addr::V4(x))));
            }
            assert forall|x: u128| #[trigger] v6_covered(self.ipv6).contains(x) == any_contains(
                nets,
                Addr::V6(x),
            ) by {
                assert(any_contains(nets, Addr::V6(x)) == (any_contains(old_nets, Addr::V6(x))
                    || prefix_contains(ipnet, Addr::V6(x))));
            }
            assert forall|i: int| 0 <= i < nets.len() implies prefix_valid(#[trigger] nets[i]) by {
                if i < old_nets.len() {
                    assert(nets[i] == old_nets[i]);
                }
            }
        }
        Ok(())
    }

    /// Merges adjacent and nested prefixes; the addresses covered stay.
    pub fn build(&mut self)
        requires
            old(self).wf(),
        ensures
            final(self).wf(),
            final(self)@ == old(self)@,
    {
        v4_range_simplify(&mut self.ipv4);
        v6_range_simplify(&mut self.ipv6);
    }

    /// Whether some prefix added covers `ip`.
    pub fn contain_ip(&self, ip: Addr) -> (r: bool)
        requires
            self.wf(),
        ensures
            r == any_contains(self@, ip),
    {
        match ip {
            Addr::V4(x) => v4_range_contains(&self.ipv4, x),
            Addr::V6(x) => v6_range_contains(&self.ipv6, x),
        }
    }

    /// A merged set of the prefixes `ipnets`.
    pub fn from_ipnets(ipnets: &Vec<IpPrefix>) -> (r: Result<Ips, Error>)
        requires
            forall|i: int| 0 <= i < ipnets@.len() ==> prefix_valid(#[trigger] ipnets@[i]),
        ensures
            r is Ok,
            r matches Ok(ips) ==> ips.wf() && ips@ == ipnets@,
    {
        let mut ips = Ips::new();
        let mut i: usize = 0;
        while i < ipnets.len()
            invariant
                0 <= i <= ipnets@.len(),
                forall|k: int| 0 <= k < ipnets@.len() ==> prefix_valid(#[trigger] ipnets@[k]),
                ips.wf(),
                ips@ == ipnets@.take(i as int),
            decreases ipnets@.len() - i,
        {
            let r = ips.add_ip(ipnets[i]);
            proof {
                assert(ipnets@.take(i + 1) =~= ipnets@.take(i as int).push(ipnets@[i as int]));
            }
            i = i + 1;
        }
        assert(ipnets@.take(ipnets@.len() as int) =~= ipnets@);
        ips.build();
        Ok(ips)
    }
}

impl Default for Ips {
    fn default() -> (r: Ips)
        ensures
            r.wf(),
            r@ == Seq::<IpPrefix>::empty(),
    {
        Ips::new()
    }
}

// ---------------------------------------------------------------------------
// Geo-IP records.

/// The bytes read as a big-endian unsigned integer.
pub open spec fn be_value(s: Seq<u8>) -> nat
    decreases s.len(),
{
    if s.len() == 0 {
        0
    } else {
        be_value(s.drop_last()) * 256 + s.last() as nat
    }
}

/// `256` to the power `k`.
pub open spec fn pow256(k: nat) -> nat
    decreases k,
{
    if k == 0 {
        1
    } else {
        pow256((k - 1) as nat) * 256
    }
}

proof fn lemma_be_value_bound(s: Seq<u8>)
    ensures
        be_value(s) < pow256(s.len()),
    decreases s.len(),
{
    if s.len() > 0 {
        lemma_be_value_bound(s.drop_last());
        let a = be_value(s.drop_last());
        let b = pow256(s.drop_last().len());
        let l = s.last() as int;
        assert(a * 256 + l < b * 256) by (nonlinear_arith)
            requires
                a < b,
                0 <= l < 256,
        ;
    }
}

/// The prefix of a geo-IP record: 4 address bytes for IPv4 or 16 for IPv6,
/// most significant first, and a prefix length; `None` when the address
/// has another length or the prefix length does not fit the family.
pub fn cidr_to_prefix(ip: &[u8], prefix: u32) -> (r: Option<IpPrefix>)
    ensures
        ip@.len() == 4 && prefix <= 32 ==> r == Some(
            IpPrefix::V4 { addr: be_value(ip@) as u32, len: prefix as u8 },
        ),
        ip@.len() == 16 && prefix <= 128 ==> r == Some(
            IpPrefix::V6 { addr: be_value(ip@) as u128, len: prefix as u8 },
        ),
        !(ip@.len() == 4 && prefix <= 32) && !(ip@.len() == 16 && prefix <= 128) ==> r is None,
        r matches Some(p) ==> prefix_valid(p),
{
    let n = ip.len();
    if !((n == 4 && prefix <= 32) || (n == 16 && prefix <= 128)) {
        return None;
    }
    proof {
        reveal_with_fuel(pow256, 17);
    }
    let mut acc: u128 = 0;
    let mut i: usize = 0;
    while i < n
        invariant
            n == ip@.len(),
            n <= 16,
            0 <= i <= n,
            acc as int == be_value(ip@.take(i as int)),
            pow256(16) == 0x1_0000_0000_0000_0000_0000_0000_0000_0000,
        decreases n - i,
    {
        proof {
            assert(ip@.take(i + 1).drop_last() =~= ip@.take(i as int));
            lemma_be_value_bound(ip@.take(i + 1));
            lemma_pow256_mono((i + 1) as nat, 16);
        }
        acc = acc * 256 + ip[i] as u128;
        i = i + 1;
    }
    assert(ip@.take(n as int) =~= ip@);
    proof {
        lemma_be_value_bound(ip@);
    }
    if n == 4 {
        Some(IpPrefix::V4 { addr: acc as u32, len: prefix as u8 })
    } else {
        Some(IpPrefix::V6 { addr: acc, len: prefix as u8 })
    }
}

proof fn lemma_pow256_mono(a: nat, b: nat)
    requires
        a <= b,
    ensures
        pow256(a) <= pow256(b),
    decreases b - a,
{
    if a < b {
        lemma_pow256_mono(a, (b - 1) as nat);
        assert(pow256(b) == pow256((b - 1) as nat) * 256);
    }
}

} // verus!
