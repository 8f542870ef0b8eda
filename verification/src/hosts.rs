//! Host lists: single addresses, inclusive IPv4 ranges and CIDR blocks,
//! expanded into an ordered list of hosts without duplicates.

use crate::addr::{
    address_span, ascending_hosts, lemma_hosts_no_duplicates, HostSet, IpAddress, Network,
};
use crate::text::{chars_of, copy_text, find, find_char, trim, trim_span};
use vstd::prelude::*;
use vstd::string::{StrSliceExecFns, StringExecFns};

verus! {

/// Why a host list was turned down, with the offending token.
#[derive(Debug)]
pub enum ResolveTargetError {
    /// A token without `/` and `-` is no IP address.
    InvalidIp(String),
    /// A token with a `/` is no block in CIDR notation.
    InvalidCidr(String),
    /// A `start-end` token has a side that is no IP address, mixes the
    /// address families, is not IPv4, or runs backwards.
    InvalidRange(String),
}

/// A `ResolveTargetError` with its token as a sequence of characters.
pub enum TargetFault {
    InvalidIp(Seq<char>),
    InvalidCidr(Seq<char>),
    InvalidRange(Seq<char>),
}

impl View for ResolveTargetError {
    type V = TargetFault;

    open spec fn view(&self) -> TargetFault {
        match self {
            ResolveTargetError::InvalidIp(token) => TargetFault::InvalidIp(token@),
            ResolveTargetError::InvalidCidr(token) => TargetFault::InvalidCidr(token@),
            ResolveTargetError::InvalidRange(token) => TargetFault::InvalidRange(token@),
        }
    }
}

/// What the message of a fault says: the rule that was broken, then the
/// token.
pub open spec fn target_fault_text(fault: TargetFault) -> Seq<char> {
    match fault {
        TargetFault::InvalidIp(token) => "invalid IP address: "@ + token,
        TargetFault::InvalidCidr(token) => "invalid CIDR notation: "@ + token,
        TargetFault::InvalidRange(token) => "invalid range format: "@ + token,
    }
}

impl ResolveTargetError {
    /// A message for the user that names the broken rule and the token.
    pub fn message(&self) -> (m: String)
        ensures
            m@ == target_fault_text(self@),
    {
        match self {
            ResolveTargetError::InvalidIp(token) => "invalid IP address: ".to_owned().concat(
                token.as_str(),
            ),
            ResolveTargetError::InvalidCidr(token) => "invalid CIDR notation: ".to_owned().concat(
                token.as_str(),
            ),
            ResolveTargetError::InvalidRange(token) => "invalid range format: ".to_owned().concat(
                token.as_str(),
            ),
        }
    }
}

/// The error type of the `ipnetwork` crate, carried through as it comes.
#[verifier::external_type_specification]
#[verifier::external_body]
pub struct ExIpNetworkError(ipnetwork::IpNetworkError);

/// What the `ipnetwork` crate reads in `text`: an address with a prefix
/// length, or nothing where `text` is neither an IP address nor a block in
/// CIDR notation.
pub uninterp spec fn network_notation(text: Seq<char>) -> Option<Network>;

/// Parses `text` with `ipnetwork::IpNetwork`'s `FromStr::from_str`.
///
/// Trusted: the outcome depends on `text` alone, and is named
/// `network_notation`; a network that comes back has a prefix no longer
/// than its address, since `Ipv4Network::new` and `Ipv6Network::new` refuse
/// any other. The address is handed on as a number, the prefix as it is.
#[verifier::external_body]
fn parse_network(text: &str) -> (r: Result<Network, ipnetwork::IpNetworkError>)
    ensures
        match r {
            Ok(net) => network_notation(text@) == Some(net) && net.wf(),
            Err(_) => network_notation(text@) is None,
        },
{
    match text.parse::<ipnetwork::IpNetwork>() {
        Ok(ipnetwork::IpNetwork::V4(n)) => Ok(
            Network { addr: IpAddress::V4(u32::from(n.ip())), prefix: n.prefix() },
        ),
        Ok(ipnetwork::IpNetwork::V6(n)) => Ok(
            Network { addr: IpAddress::V6(u128::from(n.ip())), prefix: n.prefix() },
        ),
        Err(e) => Err(e),
    }
}

/// Reads `text` as an address or block; `None` where it is neither.
fn read_network(text: &str) -> (r: Option<Network>)
    ensures
        r == network_notation(text@),
        r matches Some(net) ==> net.wf(),
{
    match parse_network(text) {
        Ok(net) => Some(net),
        Err(_) => None,
    }
}

/// The two ends of an address range, where both sides were read as
/// addresses, both are IPv4 and the first does not lie above the second.
pub open spec fn range_ends(start: Option<Network>, end: Option<Network>) -> Option<
    (IpAddress, IpAddress),
> {
    match (start, end) {
        (Some(s), Some(e)) => if s.addr is V4 && e.addr is V4 && s.addr.value()
            <= e.addr.value() {
            Some((s.addr, e.addr))
        } else {
            None
        },
        _ => None,
    }
}

/// Decides what range two parsed sides make: its two ends, or `None` where
/// a side is missing, a side is not IPv4, or the range runs backwards.
pub fn range_bounds(start: Option<Network>, end: Option<Network>) -> (r: Option<
    (IpAddress, IpAddress),
>)
    ensures
        r == range_ends(start, end),
{
    match (start, end) {
        (Some(s), Some(e)) => match (s.addr, e.addr) {
            (IpAddress::V4(a), IpAddress::V4(b)) => {
                if a <= b {
                    Some((s.addr, e.addr))
                } else {
                    None
                }
            },
            _ => None,
        },
        _ => None,
    }
}

/// What was read in a token, by the token's form. Each part is `None` where
/// the text was neither an address nor a block.
#[derive(Clone, Copy, Debug)]
pub enum TokenReading {
    /// A token with a `/`, read as a CIDR block.
    Block(Option<Network>),
    /// A token with a `-` and no `/`: its two sides, trimmed, each read as
    /// an address.
    Range(Option<Network>, Option<Network>),
    /// Any other token, read as one address.
    Single(Option<Network>),
}

/// The reading of a trimmed, non-empty token.
pub open spec fn reading_of(token: Seq<char>) -> TokenReading {
    let dash = find(token, '-');
    if find(token, '/') < token.len() {
        TokenReading::Block(network_notation(token))
    } else if dash < token.len() {
        TokenReading::Range(
            network_notation(trim(token.take(dash as int))),
            network_notation(trim(token.skip(dash as int + 1))),
        )
    } else {
        TokenReading::Single(network_notation(token))
    }
}

/// The hosts that a reading stands for: the hosts of a block, the
/// addresses of an IPv4 range from its first to its last, or one address.
/// `None` where a part is missing or the range is none.
pub open spec fn reading_hosts(reading: TokenReading) -> Option<Set<IpAddress>> {
    match reading {
        TokenReading::Block(Some(net)) => Some(net.hosts()),
        TokenReading::Range(start, end) => match range_ends(start, end) {
            Some((lo, hi)) => Some(address_span(lo, hi)),
            None => None,
        },
        TokenReading::Single(Some(net)) => Some(set![net.addr]),
        _ => None,
    }
}

/// The fault of a token whose reading stands for no hosts.
pub open spec fn reading_fault(reading: TokenReading, token: Seq<char>) -> TargetFault {
    match reading {
        TokenReading::Block(_) => TargetFault::InvalidCidr(token),
        TokenReading::Range(_, _) => TargetFault::InvalidRange(token),
        TokenReading::Single(_) => TargetFault::InvalidIp(token),
    }
}

/// The hosts that a trimmed, non-empty token stands for, or its fault.
pub open spec fn host_token(token: Seq<char>) -> Result<Set<IpAddress>, TargetFault> {
    match reading_hosts(reading_of(token)) {
        Some(hosts) => Ok(hosts),
        None => Err(reading_fault(reading_of(token), token)),
    }
}

/// Adds the hosts that `reading` stands for to `set`. Gives `false`, and
/// leaves `set` as it is, where the reading stands for none.
pub fn insert_reading(set: &mut HostSet, reading: TokenReading) -> (added: bool)
    requires
        reading matches TokenReading::Block(Some(net)) ==> net.wf(),
    ensures
        match reading_hosts(reading) {
            Some(hosts) => added && final(set)@ == old(set)@.union(hosts),
            None => !added && final(set)@ == old(set)@,
        },
{
    match reading {
        TokenReading::Block(Some(net)) => {
            let (lo, hi) = net.host_span();
            set.insert_span(lo, hi);
            true
        },
        TokenReading::Range(start, end) => match range_bounds(start, end) {
            Some((lo, hi)) => {
                set.insert_span(lo, hi);
                true
            },
            None => false,
        },
        TokenReading::Single(Some(net)) => {
            set.insert(net.addr);
            assert(old(set)@.insert(net.addr) =~= old(set)@.union(set![net.addr]));
            true
        },
        _ => false,
    }
}

/// The error for `token`, whose reading stands for no hosts.
pub fn fault_of(reading: TokenReading, token: String) -> (e: ResolveTargetError)
    ensures
        e@ == reading_fault(reading, token@),
{
    match reading {
        TokenReading::Block(_) => ResolveTargetError::InvalidCidr(token),
        TokenReading::Range(_, _) => ResolveTargetError::InvalidRange(token),
        TokenReading::Single(_) => ResolveTargetError::InvalidIp(token),
    }
}

/// The hosts that one comma-separated item adds: none where it is blank.
pub open spec fn host_item(item: Seq<char>) -> Result<Set<IpAddress>, TargetFault> {
    let token = trim(item);
    if token.len() == 0 {
        Ok(Set::empty())
    } else {
        host_token(token)
    }
}

/// The hosts of a comma-separated list, or the fault of its first bad item.
pub open spec fn host_spec(s: Seq<char>) -> Result<Set<IpAddress>, TargetFault>
    decreases s.len(),
{
    let cut = find(s, ',');
    match host_item(s.take(cut as int)) {
        Err(fault) => Err(fault),
        Ok(first) => if cut >= s.len() {
            Ok(first)
        } else {
            match host_spec(s.skip(cut as int + 1)) {
                Ok(rest) => Ok(first.union(rest)),
                Err(fault) => Err(fault),
            }
        },
    }
}

/// `acc` joined with what the rest of a list denotes, or the rest's fault.
pub open spec fn with_rest(
    acc: Set<IpAddress>,
    rest: Result<Set<IpAddress>, TargetFault>,
) -> Result<Set<IpAddress>, TargetFault> {
    match rest {
        Ok(more) => Ok(acc.union(more)),
        Err(fault) => Err(fault),
    }
}

/// Reads the token `chars[a..b]`, which is trimmed and not empty.
fn read_token(list: &str, chars: &Vec<char>, a: usize, b: usize) -> (r: TokenReading)
    requires
        a < b <= chars.len(),
        chars@ == list@,
    ensures
        r == reading_of(chars@.subrange(a as int, b as int)),
        r matches TokenReading::Block(Some(net)) ==> net.wf(),
{
    let ghost token = chars@.subrange(a as int, b as int);
    let slash = find_char(chars, a, b, '/');
    let dash = find_char(chars, a, b, '-');
    if slash < b {
        TokenReading::Block(read_network(list.substring_char(a, b)))
    } else if dash < b {
        let (a1, b1) = trim_span(chars, a, dash);
        let (a2, b2) = trim_span(chars, dash + 1, b);
        proof {
            assert(token.take(dash - a) =~= chars@.subrange(a as int, dash as int));
            assert(token.skip(dash - a + 1) =~= chars@.subrange(dash + 1, b as int));
        }
        let start = read_network(list.substring_char(a1, b1));
        let end = read_network(list.substring_char(a2, b2));
        TokenReading::Range(start, end)
    } else {
        TokenReading::Single(read_network(list.substring_char(a, b)))
    }
}

/// Expands a host specification into its hosts, in the order of hosts and
/// each once.
///
/// The specification is a comma-separated list of IP addresses, inclusive
/// IPv4 ranges `start-end` and CIDR blocks `address/prefix`. White space
/// around an item and around the sides of a range is ignored, and blank
/// items are skipped. A block gives the addresses that its hosts can have
/// (see `Network::host_span`). The first item that is none of the three
/// ends the reading with its fault. What is an address and what a block in
/// CIDR notation is for the `ipnetwork` crate to say.
pub fn parse_ips(target: &str) -> (r: Result<Vec<IpAddress>, ResolveTargetError>)
    ensures
        match host_spec(target@) {
            Ok(hosts) => r matches Ok(v) && v@.to_set() == hosts,
            Err(fault) => r matches Err(e) && e@ == fault,
        },
        r matches Ok(v) ==> ascending_hosts(v@) && v@.no_duplicates(),
{
    let chars = chars_of(target);
    let hi = chars.len();
    let mut set = HostSet::new();
    let mut pos: usize = 0;
    proof {
        assert(chars@.subrange(0, hi as int) =~= chars@);
        lemma_with_rest_empty(host_spec(target@));
    }
    loop
        invariant_except_break
            pos <= hi == chars.len(),
            chars@ == target@,
            host_spec(target@) == with_rest(
                set@,
                host_spec(chars@.subrange(pos as int, hi as int)),
            ),
        ensures
            host_spec(target@) == Ok::<Set<IpAddress>, TargetFault>(set@),
        decreases hi - pos,
    {
        let ghost s = chars@.subrange(pos as int, hi as int);
        let ghost acc = set@;
        let cut = find_char(&chars, pos, hi, ',');
        let (a, b) = trim_span(&chars, pos, cut);
        proof {
            assert(s.take(cut - pos) =~= chars@.subrange(pos as int, cut as int));
            if cut < hi {
                assert(s.skip(cut - pos + 1) =~= chars@.subrange(cut + 1, hi as int));
            }
        }
        if a < b {
            let reading = read_token(target, &chars, a, b);
            if !insert_reading(&mut set, reading) {
                return Err(fault_of(reading, copy_text(target, a, b)));
            }
        } else {
            assert(set@ =~= acc.union(Set::empty()));
        }
        let ghost first = host_item(s.take(cut - pos))->Ok_0;
        assert(set@ == acc.union(first));
        if cut == hi {
            break ;
        }
        proof {
            let rest = host_spec(s.skip(cut - pos + 1));
            if let Ok(more) = rest {
                assert(acc.union(first.union(more)) =~= set@.union(more));
            }
        }
        pos = cut + 1;
    }
    let hosts = set.to_vec();
    proof {
        lemma_hosts_no_duplicates(hosts@);
    }
    Ok(hosts)
}

/// Joining nothing with the rest of a list leaves what the rest denotes.
proof fn lemma_with_rest_empty(rest: Result<Set<IpAddress>, TargetFault>)
    ensures
        with_rest(Set::empty(), rest) == rest,
{
    if let Ok(more) = rest {
        assert(Set::<IpAddress>::empty().union(more) =~= more);
    }
}

} // verus!
