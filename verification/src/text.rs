//! Numbers as text.

use vstd::prelude::*;

verus! {

/// The sixteen digits.
pub open spec fn digit_char(d: int) -> char {
    seq!['0', '1', '2', '3', '4', '5', '6', '7', '8', '9', 'a', 'b', 'c', 'd', 'e', 'f'][d]
}

/// A number in decimal, without leading zeros.
pub open spec fn decimal(n: nat) -> Seq<char>
    decreases n,
{
    if n < 10 {
        seq![digit_char(n as int)]
    } else {
        decimal(n / 10).push(digit_char((n % 10) as int))
    }
}

/// A number in hexadecimal, without leading zeros.
pub open spec fn hexadecimal(n: nat) -> Seq<char>
    decreases n,
{
    if n < 16 {
        seq![digit_char(n as int)]
    } else {
        hexadecimal(n / 16).push(digit_char((n % 16) as int))
    }
}

/// A digit as text.
pub fn digit_text(d: u64) -> (text: &'static str)
    requires
        d < 16,
    ensures
        text@ == seq![digit_char(d as int)],
{
    proof {
        reveal_strlit("0");
        reveal_strlit("1");
        reveal_strlit("2");
        reveal_strlit("3");
        reveal_strlit("4");
        reveal_strlit("5");
        reveal_strlit("6");
        reveal_strlit("7");
        reveal_strlit("8");
        reveal_strlit("9");
        reveal_strlit("a");
        reveal_strlit("b");
        reveal_strlit("c");
        reveal_strlit("d");
        reveal_strlit("e");
        reveal_strlit("f");
    }
    match d {
        0 => "0",
        1 => "1",
        2 => "2",
        3 => "3",
        4 => "4",
        5 => "5",
        6 => "6",
        7 => "7",
        8 => "8",
        9 => "9",
        10 => "a",
        11 => "b",
        12 => "c",
        13 => "d",
        14 => "e",
        _ => "f",
    }
}

/// Appends a number in decimal.
pub fn push_decimal(out: &mut String, n: u64)
    ensures
        final(out)@ == old(out)@ + decimal(n as nat),
    decreases n,
{
    if n >= 10 {
        push_decimal(out, n / 10);
    }
    out.append(digit_text(n % 10));
}

/// Appends a number in hexadecimal.
pub fn push_hexadecimal(out: &mut String, n: u64)
    ensures
        final(out)@ == old(out)@ + hexadecimal(n as nat),
    decreases n,
{
    if n >= 16 {
        push_hexadecimal(out, n / 16);
    }
    out.append(digit_text(n % 16));
}

/// A decimal number consists of the ten decimal digits.
pub proof fn lemma_decimal_has_only_digits(n: nat)
    ensures
        decimal(n).len() > 0,
        forall|i: int| 0 <= i < decimal(n).len() ==> '0' <= #[trigger] decimal(n)[i] <= '9',
    decreases n,
{
    if n >= 10 {
        lemma_decimal_has_only_digits(n / 10);
    }
}

/// Different digits have different characters.
pub proof fn lemma_hex_digit_is_injective(a: int, b: int)
    requires
        0 <= a < 16,
        0 <= b < 16,
        digit_char(a) == digit_char(b),
    ensures
        a == b,
{
    assert(digit_char(a) as int == if a < 10 {
        48 + a
    } else {
        87 + a
    });
    assert(digit_char(b) as int == if b < 10 {
        48 + b
    } else {
        87 + b
    });
}

/// Different numbers have different decimals.
pub proof fn lemma_decimal_is_injective(a: nat, b: nat)
    requires
        decimal(a) == decimal(b),
    ensures
        a == b,
    decreases a,
{
    if a < 10 {
        assert(decimal(a) == seq![digit_char(a as int)]);
        if b < 10 {
            assert(decimal(b) == seq![digit_char(b as int)]);
            assert(decimal(a)[0] == digit_char(a as int));
            assert(decimal(b)[0] == digit_char(b as int));
            lemma_hex_digit_is_injective(a as int, b as int);
        } else {
            lemma_decimal_has_only_digits(b / 10);
            assert(decimal(b) == decimal(b / 10).push(digit_char((b % 10) as int)));
            assert(decimal(b).len() >= 2);
        }
    } else {
        lemma_decimal_has_only_digits(a / 10);
        assert(decimal(a) == decimal(a / 10).push(digit_char((a % 10) as int)));
        assert(decimal(a).len() >= 2);
        if b < 10 {
            assert(decimal(b) == seq![digit_char(b as int)]);
        } else {
            assert(decimal(b) == decimal(b / 10).push(digit_char((b % 10) as int)));
            assert(decimal(a).drop_last() =~= decimal(a / 10));
            assert(decimal(b).drop_last() =~= decimal(b / 10));
            lemma_decimal_is_injective(a / 10, b / 10);
            assert(decimal(a).last() == digit_char((a % 10) as int));
            assert(decimal(b).last() == digit_char((b % 10) as int));
            lemma_hex_digit_is_injective((a % 10) as int, (b % 10) as int);
        }
    }
}

/// What a digit counts, by its place in the alphabet.
pub open spec fn digit_value(c: char) -> int {
    if c as int <= 57 {
        c as int - 48
    } else {
        c as int - 87
    }
}

/// The number that digits to the base ten stand for.
pub open spec fn decimal_value(digits: Seq<char>) -> int
    decreases digits.len(),
{
    if digits.len() == 0 {
        0
    } else {
        10 * decimal_value(digits.drop_last()) + digit_value(digits.last())
    }
}

/// The number that digits to the base sixteen stand for.
pub open spec fn hexadecimal_value(digits: Seq<char>) -> int
    decreases digits.len(),
{
    if digits.len() == 0 {
        0
    } else {
        16 * hexadecimal_value(digits.drop_last()) + digit_value(digits.last())
    }
}

/// The sixteen digits are the ten decimal ones and the letters from `a` to `f`,
/// and count what they should.
pub proof fn law_digits_count_up(d: int)
    requires
        0 <= d < 16,
    ensures
        digit_value(digit_char(d)) == d,
        '0' <= digit_char(d) <= '9' || 'a' <= digit_char(d) <= 'f',
{
    assert(digit_char(d) as int == if d < 10 {
        48 + d
    } else {
        87 + d
    });
}

/// A number in decimal reads back as that number, and has no leading zero.
pub proof fn law_decimal_reads_back(n: nat)
    ensures
        decimal_value(decimal(n)) == n,
        decimal(n).len() > 0,
        decimal(n).len() > 1 ==> decimal(n)[0] != '0',
        forall|i: int| 0 <= i < decimal(n).len() ==> '0' <= #[trigger] decimal(n)[i] <= '9',
    decreases n,
{
    lemma_decimal_has_only_digits(n);
    let last = digit_char((n % 10) as int);
    law_digits_count_up((n % 10) as int);
    if n < 10 {
        assert(decimal(n).drop_last() =~= Seq::empty());
        assert(decimal(n).last() == last);
        assert(decimal_value(decimal(n).drop_last()) == 0);
    } else {
        law_decimal_reads_back(n / 10);
        assert(decimal(n).drop_last() =~= decimal(n / 10));
        assert(decimal(n).last() == last);
        assert(decimal(n)[0] == decimal(n / 10)[0]);
        if n / 10 < 10 {
            law_digits_count_up((n / 10) as int);
            assert(decimal(n / 10)[0] == digit_char((n / 10) as int));
        } else {
            assert(decimal(n / 10).len() > 1) by {
                lemma_decimal_has_only_digits(n / 10 / 10);
            }
        }
    }
}

/// A number in hexadecimal reads back as that number, and has no leading zero.
pub proof fn law_hexadecimal_reads_back(n: nat)
    ensures
        hexadecimal_value(hexadecimal(n)) == n,
        hexadecimal(n).len() > 0,
        hexadecimal(n).len() > 1 ==> hexadecimal(n)[0] != '0',
    decreases n,
{
    let last = digit_char((n % 16) as int);
    law_digits_count_up((n % 16) as int);
    if n < 16 {
        assert(hexadecimal(n).drop_last() =~= Seq::empty());
        assert(hexadecimal(n).last() == last);
        assert(hexadecimal_value(hexadecimal(n).drop_last()) == 0);
    } else {
        law_hexadecimal_reads_back(n / 16);
        assert(hexadecimal(n).drop_last() =~= hexadecimal(n / 16));
        assert(hexadecimal(n).last() == last);
        assert(hexadecimal(n)[0] == hexadecimal(n / 16)[0]);
        if n / 16 < 16 {
            law_digits_count_up((n / 16) as int);
            assert(hexadecimal(n / 16)[0] == digit_char((n / 16) as int));
        } else {
            law_hexadecimal_reads_back(n / 16 / 16);
            assert(hexadecimal(n / 16).len() > 1);
        }
    }
}

/// Different numbers have different hexadecimals.
pub proof fn lemma_hexadecimal_is_injective(a: nat, b: nat)
    requires
        hexadecimal(a) == hexadecimal(b),
    ensures
        a == b,
{
    law_hexadecimal_reads_back(a);
    law_hexadecimal_reads_back(b);
}

/// Text that stands between the same words is the same.
pub proof fn lemma_same_between(
    before: Seq<char>,
    x: Seq<char>,
    y: Seq<char>,
    after: Seq<char>,
)
    requires
        before + x + after == before + y + after,
    ensures
        x == y,
{
    let n = before.len() as int;
    let s = before + x + after;
    let t = before + y + after;
    assert(s.len() == n + x.len() + after.len());
    assert(t.len() == n + y.len() + after.len());
    assert(x =~= s.subrange(n, n + x.len()));
    assert(y =~= t.subrange(n, n + y.len()));
}

} // verus!
