//! Port lists: single ports, inclusive ranges and the wildcard, expanded
//! into an ascending list without duplicates.

use crate::text::{
    chars_of, copy_text, decimal_u16, find, find_char, read_u16, trim, trim_span,
};
use crate::ordered::{in_order_u16, insert_span_u16, span_u16};
use std::collections::BTreeSet;
use vstd::prelude::*;
use vstd::string::StringExecFns;

verus! {

/// Why a port list was turned down, with the offending token.
#[derive(Debug)]
pub enum ParseListError {
    /// A token that names a single port is no number from 1 to 65535.
    InvalidNumber(String),
    /// A `start-end` token has a side that is no number up to 65535, starts
    /// at 0, or runs backwards.
    InvalidRange(String),
}

/// A `ParseListError` with its token as a sequence of characters.
pub enum ListFault {
    InvalidNumber(Seq<char>),
    InvalidRange(Seq<char>),
}

impl View for ParseListError {
    type V = ListFault;

    open spec fn view(&self) -> ListFault {
        match self {
            ParseListError::InvalidNumber(token) => ListFault::InvalidNumber(token@),
            ParseListError::InvalidRange(token) => ListFault::InvalidRange(token@),
        }
    }
}

/// Whether each element of `s` is smaller than the next.
pub open spec fn ascending(s: Seq<u16>) -> bool {
    forall|i: int, j: int| 0 <= i < j < s.len() ==> s[i] < s[j]
}

/// What the message of a fault says: the rule that was broken, then the
/// token.
pub open spec fn list_fault_text(fault: ListFault) -> Seq<char> {
    match fault {
        ListFault::InvalidNumber(token) => "invalid number: "@ + token,
        ListFault::InvalidRange(token) => "invalid range: "@ + token,
    }
}

impl ParseListError {
    /// A message for the user that names the broken rule and the token.
    pub fn message(&self) -> (m: String)
        ensures
            m@ == list_fault_text(self@),
    {
        match self {
            ParseListError::InvalidNumber(token) => "invalid number: ".to_owned().concat(
                token.as_str(),
            ),
            ParseListError::InvalidRange(token) => "invalid range: ".to_owned().concat(
                token.as_str(),
            ),
        }
    }
}

/// An ascending list of ports from 1 to 65535: what reading a port
/// specification gives.
pub open spec fn is_port_set(ports: Seq<u16>) -> bool {
    ascending(ports) && forall|i: int| 0 <= i < ports.len() ==> ports[i] >= 1
}

/// The first and last port that a trimmed, non-empty token stands for.
pub open spec fn port_token(token: Seq<char>) -> Result<(u16, u16), ListFault> {
    let dash = find(token, '-');
    if dash >= token.len() {
        match decimal_u16(token) {
            Some(p) if p >= 1 => Ok((p, p)),
            _ => Err(ListFault::InvalidNumber(token)),
        }
    } else {
        match (decimal_u16(token.take(dash as int)), decimal_u16(token.skip(dash as int + 1))) {
            (Some(a), Some(b)) if 1 <= a <= b => Ok((a, b)),
            _ => Err(ListFault::InvalidRange(token)),
        }
    }
}

/// The ports that one comma-separated item adds: none where it is blank.
pub open spec fn port_item(item: Seq<char>) -> Result<Set<u16>, ListFault> {
    let token = trim(item);
    if token.len() == 0 {
        Ok(Set::empty())
    } else {
        match port_token(token) {
            Ok((a, b)) => Ok(span_u16(a, b)),
            Err(fault) => Err(fault),
        }
    }
}

/// The ports of a comma-separated list, or the fault of its first bad item.
pub open spec fn port_items(s: Seq<char>) -> Result<Set<u16>, ListFault>
    decreases s.len(),
{
    let cut = find(s, ',');
    match port_item(s.take(cut as int)) {
        Err(fault) => Err(fault),
        Ok(first) => if cut >= s.len() {
            Ok(first)
        } else {
            match port_items(s.skip(cut as int + 1)) {
                Ok(rest) => Ok(first.union(rest)),
                Err(fault) => Err(fault),
            }
        },
    }
}

/// What a port specification denotes: every port for the wildcard `*`,
/// else the ports of its items.
pub open spec fn port_spec(s: Seq<char>) -> Result<Set<u16>, ListFault> {
    let t = trim(s);
    if t == seq!['*'] {
        Ok(span_u16(1, 0xFFFF))
    } else {
        port_items(t)
    }
}

/// `acc` joined with what the rest of a list denotes, or the rest's fault.
pub open spec fn with_rest(acc: Set<u16>, rest: Result<Set<u16>, ListFault>) -> Result<
    Set<u16>,
    ListFault,
> {
    match rest {
        Ok(more) => Ok(acc.union(more)),
        Err(fault) => Err(fault),
    }
}

/// Reads the token `chars[a..b]`, which is trimmed and not empty.
fn read_token(list: &str, chars: &Vec<char>, a: usize, b: usize) -> (r: Result<
    (u16, u16),
    ParseListError,
>)
    requires
        a < b <= chars.len(),
        chars@ == list@,
    ensures
        match port_token(chars@.subrange(a as int, b as int)) {
            Ok(pair) => r matches Ok(p) && p == pair,
            Err(fault) => r matches Err(e) && e@ == fault,
        },
{
    let ghost token = chars@.subrange(a as int, b as int);
    let dash = find_char(chars, a, b, '-');
    if dash == b {
        match read_u16(chars, a, b) {
            Some(p) => {
                if p >= 1 {
                    Ok((p, p))
                } else {
                    Err(ParseListError::InvalidNumber(copy_text(list, a, b)))
                }
            },
            None => Err(ParseListError::InvalidNumber(copy_text(list, a, b))),
        }
    } else {
        proof {
            assert(token.take(dash - a) =~= chars@.subrange(a as int, dash as int));
            assert(token.skip(dash - a + 1) =~= chars@.subrange(dash + 1, b as int));
        }
        let first = read_u16(chars, a, dash);
        let second = read_u16(chars, dash + 1, b);
        match (first, second) {
            (Some(x), Some(y)) => {
                if 1 <= x && x <= y {
                    Ok((x, y))
                } else {
                    Err(ParseListError::InvalidRange(copy_text(list, a, b)))
                }
            },
            _ => Err(ParseListError::InvalidRange(copy_text(list, a, b))),
        }
    }
}

/// Expands a port specification into its ports, smallest first and each
/// once.
///
/// The specification is `*` for every port from 1 to 65535, or a
/// comma-separated list of single ports and inclusive `start-end` ranges.
/// White space around the list and around each item is ignored, and blank
/// items are skipped. The first item that is no port or no range ends the
/// reading with its fault.
pub fn parse_ports(list: &str) -> (r: Result<Vec<u16>, ParseListError>)
    ensures
        match port_spec(list@) {
            Ok(ports) => r matches Ok(v) && v@.to_set() == ports,
            Err(fault) => r matches Err(e) && e@ == fault,
        },
        r matches Ok(v) ==> is_port_set(v@) && v@.no_duplicates(),
{
    let chars = chars_of(list);
    let (lo, hi) = trim_span(&chars, 0, chars.len());
    let ghost t = chars@.subrange(lo as int, hi as int);
    proof {
        assert(chars@.subrange(0, chars.len() as int) =~= chars@);
    }
    let mut set: BTreeSet<u16> = BTreeSet::new();
    if hi - lo == 1 && chars[lo] == '*' {
        proof {
            assert(t =~= seq!['*']);
        }
        insert_span_u16(&mut set, 1, 0xFFFF);
        assert(set@ =~= span_u16(1, 0xFFFF));
        let all = in_order_u16(&set);
        proof {
            lemma_port_list(list@, all@);
        }
        return Ok(all);
    }
    proof {
        assert(seq!['*'].len() == 1 && seq!['*'][0] == '*');
        assert(t != seq!['*']);
        assert(set@.union(Set::empty()) =~= Set::<u16>::empty());
        lemma_with_rest_empty(port_items(t));
    }
    let mut pos: usize = lo;
    loop
        invariant_except_break
            lo <= pos <= hi <= chars.len(),
            chars@ == list@,
            port_spec(list@) == with_rest(
                set@,
                port_items(chars@.subrange(pos as int, hi as int)),
            ),
        ensures
            port_spec(list@) == Ok::<Set<u16>, ListFault>(set@),
        decreases hi - pos,
    {
        let ghost s = chars@.subrange(pos as int, hi as int);
        let ghost acc = set@;
        let cut = find_char(&chars, pos, hi, ',');
        let (a, b) = trim_span(&chars, pos, cut);
        proof {
            assert(s.take(cut - pos) =~= chars@.subrange(pos as int, cut as int));
            if cut < hi {
                assert(s.skip(cut - pos + 1) =~= chars@.subrange(cut + 1, hi as int));
            }
        }
        if a < b {
            match read_token(list, &chars, a, b) {
                Err(e) => {
                    return Err(e);
                },
                Ok((x, y)) => {
                    insert_span_u16(&mut set, x, y);
                },
            }
        } else {
            assert(set@ =~= acc.union(Set::empty()));
        }
        let ghost first = port_item(s.take(cut - pos))->Ok_0;
        assert(set@ == acc.union(first));
        if cut == hi {
            break ;
        }
        proof {
            let rest = port_items(s.skip(cut - pos + 1));
            if let Ok(more) = rest {
                assert(acc.union(first.union(more)) =~= set@.union(more));
            }
        }
        pos = cut + 1;
    }
    let ports = in_order_u16(&set);
    proof {
        lemma_port_list(list@, ports@);
    }
    Ok(ports)
}

/// No item stands for port 0.
pub proof fn lemma_port_items_valid(s: Seq<char>)
    ensures
        port_items(s) matches Ok(ports) ==> !ports.contains(0),
    decreases s.len(),
{
    let cut = find(s, ',');
    if port_item(s.take(cut as int)) is Ok && cut < s.len() {
        lemma_port_items_valid(s.skip(cut as int + 1));
    }
}

/// For every specification that denotes ports, they are ports from 1 to
/// 65535, and their ascending list is a port set and holds each once.
pub proof fn lemma_port_list(s: Seq<char>, v: Seq<u16>)
    requires
        port_spec(s) matches Ok(ports) && v.to_set() == ports,
        ascending(v),
    ensures
        is_port_set(v),
        v.no_duplicates(),
{
    lemma_port_items_valid(trim(s));
    assert forall|i: int| 0 <= i < v.len() implies v[i] >= 1 by {
        assert(v.contains(v[i]));
        assert(v.to_set().contains(v[i]));
    }
}

/// Joining nothing with the rest of a list leaves what the rest denotes.
proof fn lemma_with_rest_empty(rest: Result<Set<u16>, ListFault>)
    ensures
        with_rest(Set::empty(), rest) == rest,
{
    if let Ok(more) = rest {
        assert(Set::<u16>::empty().union(more) =~= more);
    }
}

} // verus!
