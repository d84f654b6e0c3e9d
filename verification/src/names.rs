//! Synthetic names: how the interpreter names what the source left unnamed.

use vstd::prelude::*;
use vstd::string::*;

verus! {

/// The name under which a function's result is kept.
pub const RETURN_VAR: &'static str = "RETURN";

/// The character of a decimal digit.
pub open spec fn digit_char(d: nat) -> char {
    if d == 0 {
        '0'
    } else if d == 1 {
        '1'
    } else if d == 2 {
        '2'
    } else if d == 3 {
        '3'
    } else if d == 4 {
        '4'
    } else if d == 5 {
        '5'
    } else if d == 6 {
        '6'
    } else if d == 7 {
        '7'
    } else if d == 8 {
        '8'
    } else {
        '9'
    }
}

/// The decimal numeral of `n`, without leading zeros.
pub open spec fn decimal(n: nat) -> Seq<char>
    decreases n,
{
    if n < 10 {
        seq![digit_char(n)]
    } else {
        decimal(n / 10).push(digit_char(n % 10))
    }
}

/// The name of the `n`-th anonymous item.
pub open spec fn random_name(n: u32) -> Seq<char> {
    seq!['#'] + decimal(n as nat)
}

/// The name of the item that holds what the `n`-th call, of `id`, gave back.
pub open spec fn return_name(id: Seq<char>, n: u32) -> Seq<char> {
    id + seq!['_', 'R', 'E', 'T', 'U', 'R', 'N', '_'] + decimal(n as nat)
}

/// Different numbers have different numerals.
pub proof fn lemma_decimal_injective(a: nat, b: nat)
    requires
        decimal(a) == decimal(b),
    ensures
        a == b,
    decreases a,
{
    if a < 10 {
        assert(decimal(a).len() == 1);
        if b >= 10 {
            lemma_decimal_len(b / 10);
            assert(decimal(b).len() == decimal(b / 10).len() + 1);
        } else {
            assert(decimal(a)[0] == digit_char(a));
            assert(decimal(b)[0] == digit_char(b));
        }
    } else {
        assert(decimal(a).len() == decimal(a / 10).len() + 1);
        lemma_decimal_len(a / 10);
        if b < 10 {
            assert(decimal(b).len() == 1);
        } else {
            let da = decimal(a / 10);
            let db = decimal(b / 10);
            assert(decimal(a).last() == digit_char(a % 10));
            assert(decimal(b).last() == digit_char(b % 10));
            assert(decimal(a).drop_last() =~= da);
            assert(decimal(b).drop_last() =~= db);
            lemma_decimal_injective(a / 10, b / 10);
        }
    }
}

/// A numeral has at least one digit.
pub proof fn lemma_decimal_len(n: nat)
    ensures
        decimal(n).len() >= 1,
    decreases n,
{
    if n >= 10 {
        lemma_decimal_len(n / 10);
    }
}

/// Anonymous items with different numbers have different names.
pub proof fn lemma_random_name_injective(a: u32, b: u32)
    requires
        random_name(a) == random_name(b),
    ensures
        a == b,
{
    assert(random_name(a).subrange(1, random_name(a).len() as int) =~= decimal(a as nat));
    assert(random_name(b).subrange(1, random_name(b).len() as int) =~= decimal(b as nat));
    lemma_decimal_injective(a as nat, b as nat);
}

/// Two calls of one callee with different numbers give back under different
/// names.
pub proof fn lemma_return_name_injective(id: Seq<char>, a: u32, b: u32)
    requires
        return_name(id, a) == return_name(id, b),
    ensures
        a == b,
{
    let from = id.len() + 8;
    assert(return_name(id, a).subrange(from as int, return_name(id, a).len() as int)
        =~= decimal(a as nat));
    assert(return_name(id, b).subrange(from as int, return_name(id, b).len() as int)
        =~= decimal(b as nat));
    lemma_decimal_injective(a as nat, b as nat);
}

/// The numeral of the digit `d`.
fn digit_str(d: u32) -> (s: &'static str)
    requires
        d < 10,
    ensures
        s@ == seq![digit_char(d as nat)],
{
    proof {
        reveal_strlit("0");
        reveal_strlit("1");
        reveal_strlit("2");
        reveal_strlit("3");
        reveal_strlit("4");
        reveal_strlit("5");
        reveal_strlit("6");
        reveal_strlit("7");
        reveal_strlit("8");
        reveal_strlit("9");
    }
    let s = if d == 0 {
        "0"
    } else if d == 1 {
        "1"
    } else if d == 2 {
        "2"
    } else if d == 3 {
        "3"
    } else if d == 4 {
        "4"
    } else if d == 5 {
        "5"
    } else if d == 6 {
        "6"
    } else if d == 7 {
        "7"
    } else if d == 8 {
        "8"
    } else {
        "9"
    };
    assert(s@ =~= seq![digit_char(d as nat)]);
    s
}

/// Appends the decimal numeral of `n` to `s`.
pub fn append_decimal(s: &mut String, n: u32)
    ensures
        final(s)@ == old(s)@ + decimal(n as nat),
    decreases n,
{
    if n >= 10 {
        append_decimal(s, n / 10);
    }
    let ghost before = s@;
    s.append(digit_str(n % 10));
    proof {
        if n >= 10 {
            assert(s@ =~= old(s)@ + decimal(n as nat));
        } else {
            assert(s@ =~= old(s)@ + decimal(n as nat));
        }
    }
}

/// The name of the `n`-th anonymous item.
pub fn make_random_name(n: u32) -> (s: String)
    ensures
        s@ == random_name(n),
{
    proof {
        reveal_strlit("#");
    }
    let mut s = String::from_str("#");
    append_decimal(&mut s, n);
    assert(s@ =~= random_name(n));
    s
}

/// The name of the item that holds what the `n`-th call, of `id`, gave back.
pub fn make_return_name(id: &str, n: u32) -> (s: String)
    ensures
        s@ == return_name(id@, n),
{
    proof {
        reveal_strlit("_RETURN_");
    }
    let mut s = String::from_str(id);
    s.append("_RETURN_");
    append_decimal(&mut s, n);
    assert(s@ =~= return_name(id@, n));
    s
}

} // verus!
