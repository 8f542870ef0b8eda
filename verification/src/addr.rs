//! IP addresses by their numeric value, CIDR blocks and ordered sets of
//! hosts.

use crate::ordered::{
    in_order_u128, in_order_u32, insert_span_u128, insert_span_u32, lemma_ascending_unique,
};
use std::collections::BTreeSet;
use vstd::arithmetic::div_mod::{
    lemma_div_pos_is_pos, lemma_fundamental_div_mod, lemma_mod_pos_bound, lemma_small_mod,
};
use vstd::arithmetic::power2::{
    lemma2_to64, lemma2_to64_rest, lemma_pow2_adds, lemma_pow2_pos,
    lemma_pow2_strictly_increases, lemma_pow2_unfold, pow2,
};
use vstd::prelude::*;

verus! {

/// An IP address, held as the number that its bytes spell in network order.
#[derive(Clone, Copy, Debug, PartialEq, Eq, Structural, PartialOrd, Ord, Hash)]
pub enum IpAddress {
    /// An IPv4 address: 32 bits, the first octet highest.
    V4(u32),
    /// An IPv6 address: 128 bits, the first segment highest.
    V6(u128),
}

impl IpAddress {
    /// The width of the address in bits.
    pub open spec fn bits(self) -> nat {
        match self {
            IpAddress::V4(_) => 32,
            IpAddress::V6(_) => 128,
        }
    }

    /// The address as a number.
    pub open spec fn value(self) -> int {
        match self {
            IpAddress::V4(a) => a as int,
            IpAddress::V6(a) => a as int,
        }
    }

    /// Whether both addresses are IPv4 or both are IPv6.
    pub open spec fn same_family(self, other: IpAddress) -> bool {
        self is V4 <==> other is V4
    }

    /// The order of hosts: every IPv4 address comes before every IPv6
    /// address, and within a family the smaller number comes first.
    pub open spec fn before(self, other: IpAddress) -> bool {
        match (self, other) {
            (IpAddress::V4(a), IpAddress::V4(b)) => a < b,
            (IpAddress::V4(_), IpAddress::V6(_)) => true,
            (IpAddress::V6(_), IpAddress::V4(_)) => false,
            (IpAddress::V6(a), IpAddress::V6(b)) => a < b,
        }
    }

    /// Tells whether `self` comes before `other` in the order of hosts.
    pub fn is_before(&self, other: &IpAddress) -> (r: bool)
        ensures
            r == self.before(*other),
    {
        match (*self, *other) {
            (IpAddress::V4(a), IpAddress::V4(b)) => a < b,
            (IpAddress::V4(_), IpAddress::V6(_)) => true,
            (IpAddress::V6(_), IpAddress::V4(_)) => false,
            (IpAddress::V6(a), IpAddress::V6(b)) => a < b,
        }
    }
}

/// Whether each host of `s` comes before the next in the order of hosts.
pub open spec fn ascending_hosts(s: Seq<IpAddress>) -> bool {
    forall|i: int, j: int| 0 <= i < j < s.len() ==> s[i].before(s[j])
}

/// An ascending list of hosts holds each host once.
pub proof fn lemma_hosts_no_duplicates(s: Seq<IpAddress>)
    requires
        ascending_hosts(s),
    ensures
        s.no_duplicates(),
{
    assert forall|i: int, j: int| 0 <= i < s.len() && 0 <= j < s.len() && i != j implies s[i]
        != s[j] by {
        if i < j {
            assert(s[i].before(s[j]));
        } else {
            assert(s[j].before(s[i]));
        }
    }
}

/// An ascending list of hosts is fixed by the hosts it holds.
pub proof fn lemma_host_list_unique(a: Seq<IpAddress>, b: Seq<IpAddress>)
    requires
        ascending_hosts(a),
        ascending_hosts(b),
        a.to_set() == b.to_set(),
    ensures
        a == b,
{
    assert forall|x: IpAddress| a.contains(x) <==> b.contains(x) by {
        assert(a.to_set().contains(x) == a.contains(x));
        assert(b.to_set().contains(x) == b.contains(x));
    }
    lemma_ascending_unique(a, b, |x: IpAddress, y: IpAddress| x.before(y));
}

/// The addresses of one family from `lo` to `hi`, both included; none where
/// the two are of different families or `lo` lies above `hi`.
pub open spec fn address_span(lo: IpAddress, hi: IpAddress) -> Set<IpAddress> {
    Set::new(
        |a: IpAddress|
            a.same_family(lo) && a.same_family(hi) && lo.value() <= a.value() <= hi.value(),
    )
}

/// An address with a prefix length: the block of addresses that share the
/// first `prefix` bits of `addr`.
#[derive(Clone, Copy, Debug, PartialEq, Eq, Structural)]
pub struct Network {
    pub addr: IpAddress,
    pub prefix: u8,
}

impl Network {
    /// The prefix is no longer than the address.
    pub open spec fn wf(self) -> bool {
        self.prefix <= self.addr.bits()
    }

    /// The number of bits that the prefix leaves free.
    pub open spec fn host_bits(self) -> nat {
        (self.addr.bits() - self.prefix) as nat
    }

    /// The lowest address of the block: `addr` with its free bits cleared.
    pub open spec fn first(self) -> int {
        self.addr.value() - self.addr.value() % (pow2(self.host_bits()) as int)
    }

    /// The highest address of the block: `addr` with its free bits set.
    pub open spec fn last(self) -> int {
        self.first() + pow2(self.host_bits()) - 1
    }

    /// Whether the lowest and highest address of the block are set aside as
    /// network and broadcast address: so in an IPv4 block of four addresses
    /// or more.
    pub open spec fn reserves_ends(self) -> bool {
        self.addr is V4 && self.prefix <= 30
    }

    /// The lowest address of the block that a host can have.
    pub open spec fn first_host(self) -> int {
        if self.reserves_ends() {
            self.first() + 1
        } else {
            self.first()
        }
    }

    /// The highest address of the block that a host can have.
    pub open spec fn last_host(self) -> int {
        if self.reserves_ends() {
            self.last() - 1
        } else {
            self.last()
        }
    }

    /// The addresses of the block that a host can have.
    pub open spec fn hosts(self) -> Set<IpAddress> {
        Set::new(
            |a: IpAddress|
                a.same_family(self.addr) && self.first_host() <= a.value() <= self.last_host(),
        )
    }

    /// The lowest and the highest host address of the block.
    ///
    /// An IPv4 block with a prefix of at most 30 bits keeps its lowest
    /// address for the network and its highest for broadcast, so its hosts
    /// lie strictly between them. An IPv4 block of two addresses or of one,
    /// and every IPv6 block, gives all its addresses to hosts.
    pub fn host_span(&self) -> (r: (IpAddress, IpAddress))
        requires
            self.wf(),
        ensures
            r.0.same_family(self.addr),
            r.1.same_family(self.addr),
            r.0.value() == self.first_host(),
            r.1.value() == self.last_host(),
            r.0.value() <= r.1.value(),
            address_span(r.0, r.1) == self.hosts(),
    {
        proof {
            lemma_pow2_values();
            lemma_pow2_pos(self.host_bits());
        }
        let r = match self.addr {
            IpAddress::V4(a) => {
                let (first, last) = block_bounds(a as u128, 32 - self.prefix, 32);
                if self.prefix <= 30 {
                    proof {
                        lemma_pow2_strictly_increases(1, self.host_bits());
                        lemma2_to64();
                    }
                    (IpAddress::V4((first + 1) as u32), IpAddress::V4((last - 1) as u32))
                } else {
                    (IpAddress::V4(first as u32), IpAddress::V4(last as u32))
                }
            },
            IpAddress::V6(a) => {
                let (first, last) = block_bounds(a, 128 - self.prefix, 128);
                (IpAddress::V6(first), IpAddress::V6(last))
            },
        };
        assert(address_span(r.0, r.1) =~= self.hosts());
        r
    }
}

/// The values of the powers of two that bound the address families.
proof fn lemma_pow2_values()
    ensures
        pow2(32) == 0x1_0000_0000,
        pow2(127) == 0x8000_0000_0000_0000_0000_0000_0000_0000,
        pow2(128) == 0x1_0000_0000_0000_0000_0000_0000_0000_0000,
{
    lemma2_to64();
    lemma2_to64_rest();
    lemma_pow2_adds(64, 63);
    lemma_pow2_adds(64, 64);
}

/// The block of `2^h` addresses around `v` lies within the `2^bits`
/// addresses of its family.
proof fn lemma_block_within(v: int, h: nat, bits: nat)
    requires
        h <= bits,
        0 <= v < pow2(bits),
    ensures
        0 <= v % (pow2(h) as int) <= v,
        v - v % (pow2(h) as int) + pow2(h) <= pow2(bits),
{
    let s = pow2(h) as int;
    let m = pow2((bits - h) as nat) as int;
    lemma_pow2_pos(h);
    lemma_pow2_pos((bits - h) as nat);
    lemma_pow2_adds(h, (bits - h) as nat);
    let q = v / s;
    let r = v % s;
    lemma_fundamental_div_mod(v, s);
    lemma_mod_pos_bound(v, s);
    lemma_div_pos_is_pos(v, s);
    assert(q < m) by (nonlinear_arith)
        requires
            v == s * q + r,
            0 <= r,
            v < s * m,
            s > 0,
    {
    }
    assert(s * q + s <= s * m) by (nonlinear_arith)
        requires
            q + 1 <= m,
            s > 0,
    {
    }
    assert(r <= v) by (nonlinear_arith)
        requires
            v == s * q + r,
            q >= 0,
            s > 0,
    {
    }
}

/// Two to the power of `h`.
fn two_to(h: u8) -> (r: u128)
    requires
        h <= 127,
    ensures
        r == pow2(h as nat),
{
    let mut r: u128 = 1;
    let mut i: u8 = 0;
    proof {
        lemma2_to64();
    }
    while i < h
        invariant
            i <= h <= 127,
            r == pow2(i as nat),
        decreases h - i,
    {
        proof {
            lemma_pow2_unfold((i + 1) as nat);
            lemma_pow2_values();
            if i + 1 < 127 {
                lemma_pow2_strictly_increases((i + 1) as nat, 127);
            }
        }
        r = r * 2;
        i = i + 1;
    }
    r
}

/// The lowest and the highest address of the block of `2^h` addresses that
/// holds `value`, in a family of `bits` bits.
fn block_bounds(value: u128, h: u8, bits: u8) -> (r: (u128, u128))
    requires
        h <= bits <= 128,
        value < pow2(bits as nat),
    ensures
        r.0 == value as int - (value as int) % (pow2(h as nat) as int),
        r.1 == r.0 + pow2(h as nat) - 1,
        r.1 < pow2(bits as nat),
{
    proof {
        lemma_pow2_values();
        lemma_block_within(value as int, h as nat, bits as nat);
        lemma_pow2_pos(h as nat);
        if bits < 128 {
            lemma_pow2_strictly_increases(bits as nat, 128);
        }
    }
    if h == 128 {
        proof {
            lemma_small_mod(value as nat, pow2(128));
        }
        (0, u128::MAX)
    } else {
        let size = two_to(h);
        let first = value - value % size;
        let last = first + (size - 1);
        (first, last)
    }
}

/// A set of hosts, kept in the order of hosts.
pub struct HostSet {
    v4: BTreeSet<u32>,
    v6: BTreeSet<u128>,
}

impl View for HostSet {
    type V = Set<IpAddress>;

    closed spec fn view(&self) -> Set<IpAddress> {
        Set::new(
            |a: IpAddress|
                match a {
                    IpAddress::V4(x) => self.v4@.contains(x),
                    IpAddress::V6(x) => self.v6@.contains(x),
                },
        )
    }
}

impl HostSet {
    /// A set without hosts.
    pub fn new() -> (s: HostSet)
        ensures
            s@ == Set::<IpAddress>::empty(),
    {
        let s = HostSet { v4: BTreeSet::new(), v6: BTreeSet::new() };
        assert(s@ =~= Set::<IpAddress>::empty());
        s
    }

    /// Adds every address from `lo` to `hi`: nothing where they are of
    /// different families or `lo` lies above `hi`.
    pub fn insert_span(&mut self, lo: IpAddress, hi: IpAddress)
        ensures
            final(self)@ == old(self)@.union(address_span(lo, hi)),
    {
        match (lo, hi) {
            (IpAddress::V4(a), IpAddress::V4(b)) => {
                insert_span_u32(&mut self.v4, a, b);
            },
            (IpAddress::V6(a), IpAddress::V6(b)) => {
                insert_span_u128(&mut self.v6, a, b);
            },
            _ => {},
        }
        assert(self@ =~= old(self)@.union(address_span(lo, hi)));
    }

    /// Adds one address.
    pub fn insert(&mut self, a: IpAddress)
        ensures
            final(self)@ == old(self)@.insert(a),
    {
        self.insert_span(a, a);
        assert(old(self)@.union(address_span(a, a)) =~= old(self)@.insert(a));
    }

    /// The hosts of the set in the order of hosts, each once.
    pub fn to_vec(&self) -> (v: Vec<IpAddress>)
        ensures
            ascending_hosts(v@),
            v@.to_set() == self@,
    {
        let a = in_order_u32(&self.v4);
        let b = in_order_u128(&self.v6);
        let mut v: Vec<IpAddress> = Vec::new();
        let mut i: usize = 0;
        while i < a.len()
            invariant
                i <= a.len(),
                v@.len() == i,
                forall|k: int| 0 <= k < i ==> v@[k] == IpAddress::V4(a@[k]),
            decreases a.len() - i,
        {
            v.push(IpAddress::V4(a[i]));
            i = i + 1;
        }
        let mut j: usize = 0;
        while j < b.len()
            invariant
                j <= b.len(),
                v@.len() == a.len() + j,
                forall|k: int| 0 <= k < a.len() ==> v@[k] == IpAddress::V4(a@[k]),
                forall|k: int| 0 <= k < j ==> v@[a.len() + k] == IpAddress::V6(b@[k]),
            decreases b.len() - j,
        {
            v.push(IpAddress::V6(b[j]));
            j = j + 1;
        }
        proof {
            let n = a.len() as int;
            assert forall|x: int, y: int| 0 <= x < y < v@.len() implies v@[x].before(v@[y]) by {
                if x >= n {
                    assert(v@[n + (x - n)] == IpAddress::V6(b@[x - n]));
                }
                if y >= n {
                    assert(v@[n + (y - n)] == IpAddress::V6(b@[y - n]));
                }
            }
            assert forall|addr: IpAddress| v@.to_set().contains(addr) <==> self@.contains(
                addr,
            ) by {
                if v@.contains(addr) {
                    let k = choose|k: int| 0 <= k < v@.len() && v@[k] == addr;
                    if k < n {
                        assert(a@.contains(a@[k]));
                    } else {
                        assert(v@[n + (k - n)] == IpAddress::V6(b@[k - n]));
                        assert(b@.contains(b@[k - n]));
                    }
                }
                if self@.contains(addr) {
                    match addr {
                        IpAddress::V4(x) => {
                            assert(a@.to_set().contains(x));
                            let k = choose|k: int| 0 <= k < a@.len() && a@[k] == x;
                            assert(v@[k] == addr);
                        },
                        IpAddress::V6(x) => {
                            assert(b@.to_set().contains(x));
                            let k = choose|k: int| 0 <= k < b@.len() && b@[k] == x;
                            assert(v@[n + k] == addr);
                        },
                    }
                }
            }
            assert(v@.to_set() =~= self@);
        }
        v
    }
}

} // verus!
