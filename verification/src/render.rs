//! The canonical text of a port list, and the proof that reading it gives
//! the list back.

use crate::ordered::{lemma_ascending_unique, span_u16};
use crate::ports::{
    ascending, is_port_set, port_item, port_items, port_spec, port_token, ListFault,
};
use crate::text::{
    all_digits, decimal, decimal_u16, digits_value, find, is_digit, lemma_find_at,
    lemma_trim_end_at, lemma_trim_start_at, trim, trim_end, trim_start,
};
use vstd::prelude::*;
use vstd::string::StringExecFns;

verus! {

/// The character that stands for the digit `d`.
pub open spec fn digit_char(d: nat) -> char {
    (0x30 + d) as char
}

/// `n` in base ten, without sign or leading zeros.
pub open spec fn digits(n: nat) -> Seq<char>
    decreases n,
{
    if n < 10 {
        seq![digit_char(n)]
    } else {
        digits(n / 10).push(digit_char(n % 10))
    }
}

/// The canonical text of a port list: its ports in base ten, in the order
/// of the list, with a comma between each two.
pub open spec fn port_text(ports: Seq<u16>) -> Seq<char>
    decreases ports.len(),
{
    if ports.len() == 0 {
        Seq::empty()
    } else if ports.len() == 1 {
        digits(ports[0] as nat)
    } else {
        digits(ports[0] as nat) + seq![','] + port_text(ports.skip(1))
    }
}

/// The text of a number is made of digits, at least one, and denotes the
/// number.
pub proof fn lemma_digits(n: nat)
    ensures
        digits(n).len() >= 1,
        all_digits(digits(n)),
        digits_value(digits(n)) == n,
    decreases n,
{
    let s = digits(n);
    if n < 10 {
        assert(s.drop_last() =~= Seq::<char>::empty());
        assert(digits_value(s.drop_last()) == 0);
        assert(s.last() == digit_char(n));
    } else {
        lemma_digits(n / 10);
        assert(s.drop_last() =~= digits(n / 10));
        assert(s.last() == digit_char(n % 10));
        assert forall|i: int| 0 <= i < s.len() implies is_digit(#[trigger] s[i]) by {
            if i < s.len() - 1 {
                assert(s[i] == digits(n / 10)[i]);
            }
        }
    }
}

/// Text that is made of digits, at least one, is its own trimmed form,
/// holds no `-`, and reads as the number that its digits denote.
proof fn lemma_digits_token(s: Seq<char>)
    requires
        s.len() >= 1,
        all_digits(s),
    ensures
        trim(s) == s,
        find(s, '-') == s.len(),
        find(s, ',') == s.len(),
        decimal(s) == Some(digits_value(s)),
{
    assert(is_digit(s[0]) && is_digit(s[s.len() - 1]));
    lemma_trim_start_at(s, 0);
    assert(s.skip(0) =~= s);
    lemma_trim_end_at(s, s.len() as int);
    assert(s.take(s.len() as int) =~= s);
    assert forall|i: int| 0 <= i < s.len() implies s[i] != '-' && s[i] != ',' by {
        assert(is_digit(s[i]));
    }
    lemma_find_at(s, '-', s.len() as int);
    lemma_find_at(s, ',', s.len() as int);
}

/// The text of one port from 1 to 65535 is an item that stands for this
/// port alone.
proof fn lemma_port_item_of_digits(p: u16)
    requires
        p >= 1,
    ensures
        port_item(digits(p as nat)) == Ok::<Set<u16>, ListFault>(set![p]),
{
    let s = digits(p as nat);
    lemma_digits(p as nat);
    lemma_digits_token(s);
    assert(decimal_u16(s) == Some(p));
    assert(port_token(s) == Ok::<(u16, u16), ListFault>((p, p)));
    assert(span_u16(p, p) =~= set![p]);
}

/// The canonical text of a list is empty, or begins and ends with a digit.
proof fn lemma_port_text_ends(ports: Seq<u16>)
    ensures
        ports.len() == 0 ==> port_text(ports).len() == 0,
        ports.len() > 0 ==> port_text(ports).len() > 0 && is_digit(port_text(ports)[0])
            && is_digit(port_text(ports).last()),
    decreases ports.len(),
{
    if ports.len() > 0 {
        let d = digits(ports[0] as nat);
        lemma_digits(ports[0] as nat);
        assert(is_digit(d[0]) && is_digit(d[d.len() - 1]));
        if ports.len() > 1 {
            lemma_port_text_ends(ports.skip(1));
        }
    }
}

/// The items of the canonical text of a list of ports from 1 to 65535
/// stand for the ports of the list.
proof fn lemma_port_items_of_text(ports: Seq<u16>)
    requires
        forall|i: int| 0 <= i < ports.len() ==> ports[i] >= 1,
    ensures
        port_items(port_text(ports)) == Ok::<Set<u16>, ListFault>(ports.to_set()),
    decreases ports.len(),
{
    let s = port_text(ports);
    if ports.len() == 0 {
        assert(s.take(0) =~= s);
        assert(trim_start(s) == s);
        assert(trim_end(s) == s);
        assert(ports.to_set() =~= Set::<u16>::empty());
    } else {
        let p = ports[0];
        let d = digits(p as nat);
        lemma_digits(p as nat);
        lemma_digits_token(d);
        lemma_port_item_of_digits(p);
        if ports.len() == 1 {
            assert(s.take(s.len() as int) =~= s);
            assert(ports.to_set() =~= set![p]) by {
                assert forall|x: u16| ports.to_set().contains(x) <==> x == p by {
                    assert(ports.contains(x) <==> x == p) by {
                        assert(ports[0] == p);
                    }
                }
            }
        } else {
            let rest = ports.skip(1);
            let c = d.len() as int;
            assert forall|i: int| 0 <= i < c implies s[i] != ',' by {
                assert(s[i] == d[i]);
                assert(is_digit(d[i]));
            }
            assert(s[c] == ',');
            lemma_find_at(s, ',', c);
            assert(s.take(c) =~= d);
            assert(s.skip(c + 1) =~= port_text(rest));
            lemma_port_items_of_text(rest);
            assert(set![p].union(rest.to_set()) =~= ports.to_set()) by {
                assert forall|x: u16|
                    set![p].union(rest.to_set()).contains(x) <==> ports.to_set().contains(x) by {
                    if rest.contains(x) {
                        let k = choose|k: int| 0 <= k < rest.len() && rest[k] == x;
                        assert(ports[k + 1] == x);
                    }
                    if ports.contains(x) {
                        let k = choose|k: int| 0 <= k < ports.len() && ports[k] == x;
                        if k > 0 {
                            assert(rest[k - 1] == x);
                        }
                    }
                    assert(ports[0] == p);
                    assert(ports.to_set().contains(x) == ports.contains(x));
                    assert(rest.to_set().contains(x) == rest.contains(x));
                }
            }
        }
    }
}

/// Reading is idempotent on what it gives: the canonical text of a port
/// set denotes the ports of that set, and the set is the only ascending
/// list of them. So `parse_ports`, given the text, returns the set.
pub proof fn lemma_parse_ports_idempotent(ports: Seq<u16>)
    requires
        is_port_set(ports),
    ensures
        port_spec(port_text(ports)) == Ok::<Set<u16>, ListFault>(ports.to_set()),
        forall|v: Seq<u16>| ascending(v) && v.to_set() == ports.to_set() ==> v == ports,
{
    let s = port_text(ports);
    lemma_port_text_ends(ports);
    lemma_port_items_of_text(ports);
    if s.len() > 0 {
        lemma_trim_start_at(s, 0);
        assert(s.skip(0) =~= s);
        lemma_trim_end_at(s, s.len() as int);
        assert(s.take(s.len() as int) =~= s);
        assert(seq!['*'][0] == '*');
    } else {
        assert(trim_start(s) == s);
        assert(trim_end(s) == s);
        assert(seq!['*'].len() == 1);
    }
    assert(trim(s) == s);
    assert(s != seq!['*']);
    assert forall|v: Seq<u16>| ascending(v) && v.to_set() == ports.to_set() implies v
        == ports by {
        lemma_port_list_unique(v, ports);
    }
}

/// An ascending list of ports is fixed by the ports it holds.
pub proof fn lemma_port_list_unique(a: Seq<u16>, b: Seq<u16>)
    requires
        ascending(a),
        ascending(b),
        a.to_set() == b.to_set(),
    ensures
        a == b,
{
    assert forall|x: u16| a.contains(x) <==> b.contains(x) by {
        assert(a.to_set().contains(x) == a.contains(x));
        assert(b.to_set().contains(x) == b.contains(x));
    }
    lemma_ascending_unique(a, b, |x: u16, y: u16| x < y);
}

/// The text of the digit `d`.
fn digit_text(d: u16) -> (t: &'static str)
    requires
        d < 10,
    ensures
        t@ == seq![digit_char(d as nat)],
{
    proof {
        reveal_strlit("0");
        reveal_strlit("1");
        reveal_strlit("2");
        reveal_strlit("3");
        reveal_strlit("4");
        reveal_strlit("5");
        reveal_strlit("6");
        reveal_strlit("7");
        reveal_strlit("8");
        reveal_strlit("9");
    }
    let t = match d {
        0 => "0",
        1 => "1",
        2 => "2",
        3 => "3",
        4 => "4",
        5 => "5",
        6 => "6",
        7 => "7",
        8 => "8",
        _ => "9",
    };
    assert(t@ =~= seq![digit_char(d as nat)]);
    t
}

/// Appends `n` in base ten to `out`.
fn push_number(out: &mut String, n: u16)
    ensures
        final(out)@ == old(out)@ + digits(n as nat),
    decreases n,
{
    if n >= 10 {
        push_number(out, n / 10);
    }
    out.append(digit_text(n % 10));
    assert(out@ =~= old(out)@ + digits(n as nat));
}

/// Writes a port list as text: its ports in base ten, in the order of the
/// list, with a comma between each two.
pub fn render_ports(ports: &Vec<u16>) -> (text: String)
    ensures
        text@ == port_text(ports@),
{
    let mut out = String::new();
    let mut i: usize = 0;
    proof {
        assert(ports@.skip(0) =~= ports@);
    }
    while i < ports.len()
        invariant
            i <= ports.len(),
            i == 0 ==> out@.len() == 0,
            port_text(ports@) == if i == 0 {
                port_text(ports@.skip(0))
            } else if i == ports.len() {
                out@
            } else {
                out@ + seq![','] + port_text(ports@.skip(i as int))
            },
        decreases ports.len() - i,
    {
        let ghost before = out@;
        let ghost tail = ports@.skip(i as int);
        if i > 0 {
            proof {
                reveal_strlit(",");
            }
            out.append(",");
            assert(out@ =~= before + seq![',']);
        }
        push_number(&mut out, ports[i]);
        proof {
            assert(tail[0] == ports@[i as int]);
            assert(tail.skip(1) =~= ports@.skip(i + 1));
            let d = digits(ports@[i as int] as nat);
            if i == 0 {
                assert(out@ =~= d);
            } else {
                assert(out@ =~= before + seq![','] + d);
            }
            if tail.len() > 1 {
                assert(out@ + seq![','] + port_text(ports@.skip(i + 1)) =~= if i == 0 {
                    port_text(tail)
                } else {
                    before + seq![','] + port_text(tail)
                });
            }
        }
        i = i + 1;
    }
    out
}

} // verus!
