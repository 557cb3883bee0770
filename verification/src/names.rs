//! The names of the pools that receive queues are fed from.

use vstd::prelude::*;
use vstd::string::StringExecFns;

verus! {

/// The character of the decimal digit `d`.
pub open spec fn digit_char(d: nat) -> char {
    if d == 0 {
        '0'
    } else if d == 1 {
        '1'
    } else if d == 2 {
        '2'
    } else if d == 3 {
        '3'
    } else if d == 4 {
        '4'
    } else if d == 5 {
        '5'
    } else if d == 6 {
        '6'
    } else if d == 7 {
        '7'
    } else if d == 8 {
        '8'
    } else {
        '9'
    }
}

/// `n` in decimal digits, without leading zeros.
pub open spec fn decimal(n: nat) -> Seq<char>
    decreases n,
{
    if n < 10 {
        seq![digit_char(n)]
    } else {
        decimal(n / 10).push(digit_char(n % 10))
    }
}

/// The name of the pool of the receive queue `queue_id` of the port
/// `port_id`.
pub open spec fn rxq_name(port_id: u16, queue_id: u16) -> Seq<char> {
    "rxq_be0dd4ab_"@ + decimal(port_id as nat) + "_"@ + decimal(queue_id as nat)
}

/// Two numbers with the same digits are the same.
pub proof fn lemma_decimal_injective(a: nat, b: nat)
    requires
        decimal(a) == decimal(b),
    ensures
        a == b,
    decreases a,
{
    lemma_decimal_len(a);
    lemma_decimal_len(b);
    if a < 10 || b < 10 {
        assert(a < 10 && b < 10);
        assert(decimal(a)[0] == decimal(b)[0]);
        assert(digit_char(a) == digit_char(b));
    } else {
        lemma_decimal_injective(a / 10, b / 10);
        assert(digit_char(a % 10) == digit_char(b % 10));
        assert(a % 10 == b % 10);
    }
}

/// A number has one digit if it is below ten, and more if it is not.
proof fn lemma_decimal_len(n: nat)
    ensures
        n < 10 ==> decimal(n).len() == 1 && decimal(n)[0] == digit_char(n),
        n >= 10 ==> decimal(n).len() >= 2 && decimal(n).last() == digit_char(n % 10)
            && decimal(n).drop_last() == decimal(n / 10),
    decreases n,
{
    if n >= 10 {
        lemma_decimal_len(n / 10);
        assert(decimal(n).drop_last() =~= decimal(n / 10));
    } else {
        assert(decimal(n) =~= seq![digit_char(n)]);
    }
}

/// The pools of two queues of one port have the same name only if the
/// queues are the same.
pub proof fn lemma_rxq_name_injective(port_id: u16, a: u16, b: u16)
    requires
        rxq_name(port_id, a) == rxq_name(port_id, b),
    ensures
        a == b,
{
    let head = "rxq_be0dd4ab_"@ + decimal(port_id as nat) + "_"@;
    let na = head + decimal(a as nat);
    let nb = head + decimal(b as nat);
    assert(na == rxq_name(port_id, a));
    assert(nb == rxq_name(port_id, b));
    assert(na.subrange(head.len() as int, na.len() as int) =~= decimal(a as nat));
    assert(nb.subrange(head.len() as int, nb.len() as int) =~= decimal(b as nat));
    lemma_decimal_injective(a as nat, b as nat);
}

/// The decimal digit `d` as a string.
fn digit_str(d: u16) -> (s: &'static str)
    requires
        d < 10,
    ensures
        s@ == seq![digit_char(d as nat)],
{
    proof {
        reveal_strlit("0");
        reveal_strlit("1");
        reveal_strlit("2");
        reveal_strlit("3");
        reveal_strlit("4");
        reveal_strlit("5");
        reveal_strlit("6");
        reveal_strlit("7");
        reveal_strlit("8");
        reveal_strlit("9");
    }
    let s = if d == 0 {
        "0"
    } else if d == 1 {
        "1"
    } else if d == 2 {
        "2"
    } else if d == 3 {
        "3"
    } else if d == 4 {
        "4"
    } else if d == 5 {
        "5"
    } else if d == 6 {
        "6"
    } else if d == 7 {
        "7"
    } else if d == 8 {
        "8"
    } else {
        "9"
    };
    assert(s@ =~= seq![digit_char(d as nat)]);
    s
}

/// Writes `n` in decimal digits behind what `s` holds.
fn push_decimal(s: &mut String, n: u16)
    ensures
        final(s)@ == old(s)@ + decimal(n as nat),
    decreases n,
{
    if n >= 10 {
        push_decimal(s, n / 10);
    }
    s.append(digit_str(n % 10));
    proof {
        assert(s@ =~= old(s)@ + decimal(n as nat));
    }
}

/// The name of the pool of the receive queue `queue_id` of the port
/// `port_id`.
pub fn rxq_pool_name(port_id: u16, queue_id: u16) -> (name: String)
    ensures
        name@ == rxq_name(port_id, queue_id),
{
    let mut name = String::from_str("rxq_be0dd4ab_");
    push_decimal(&mut name, port_id);
    name.append("_");
    push_decimal(&mut name, queue_id);
    name
}

} // verus!
