//! Numbers and parts of text, as text.

use vstd::prelude::*;
use vstd::string::*;

verus! {

/// `String::push` of std: one character more at the end.
pub assume_specification[ String::push ](s: &mut String, c: char)
    ensures
        final(s)@ == old(s)@.push(c),
;

/// The character of a digit below sixteen, with small letters.
pub open spec fn digit(d: nat) -> char
    recommends
        d < 16,
{
    if d < 10 {
        (d + 48) as char
    } else {
        (d + 87) as char
    }
}

/// A number in decimal notation.
pub open spec fn decimal(n: nat) -> Seq<char>
    decreases n,
{
    if n < 10 {
        seq![digit(n)]
    } else {
        decimal(n / 10).push(digit(n % 10))
    }
}

/// A number in hexadecimal notation, with leading zeros up to four digits.
pub open spec fn hex4(n: u16) -> Seq<char> {
    seq![
        digit(n as nat / 4096),
        digit(n as nat / 256 % 16),
        digit(n as nat / 16 % 16),
        digit(n as nat % 16),
    ]
}

fn digit_char(d: u8) -> (c: char)
    requires
        d < 16,
    ensures
        c == digit(d as nat),
{
    if d < 10 {
        (d + 48) as char
    } else {
        (d + 87) as char
    }
}

/// Adds a number in decimal notation.
pub fn push_decimal(s: &mut String, n: u128)
    ensures
        final(s)@ == old(s)@ + decimal(n as nat),
    decreases n,
{
    if n >= 10 {
        push_decimal(s, n / 10);
    }
    s.push(digit_char((n % 10) as u8));
    assert(s@ =~= old(s)@ + decimal(n as nat));
}

/// Adds a number in hexadecimal notation of four digits.
pub fn push_hex4(s: &mut String, n: u16)
    ensures
        final(s)@ == old(s)@ + hex4(n),
{
    s.push(digit_char((n / 4096) as u8));
    s.push(digit_char((n / 256 % 16) as u8));
    s.push(digit_char((n / 16 % 16) as u8));
    s.push(digit_char((n % 16) as u8));
    assert(s@ =~= old(s)@ + hex4(n));
}

proof fn lemma_digit(a: nat, b: nat)
    requires
        a < 16,
        b < 16,
        digit(a) == digit(b),
    ensures
        a == b,
{
}

/// Two numbers with the same decimal notation are the same.
pub proof fn lemma_decimal_injective(a: nat, b: nat)
    requires
        decimal(a) == decimal(b),
    ensures
        a == b,
    decreases a,
{
    assert(decimal(a).last() == digit(a % 10));
    assert(decimal(b).last() == digit(b % 10));
    lemma_digit(a % 10, b % 10);
    lemma_decimal_len(a / 10);
    lemma_decimal_len(b / 10);
    if a >= 10 && b >= 10 {
        assert(decimal(a).drop_last() =~= decimal(a / 10));
        assert(decimal(b).drop_last() =~= decimal(b / 10));
        lemma_decimal_injective(a / 10, b / 10);
    }
}

proof fn lemma_decimal_len(n: nat)
    ensures
        decimal(n).len() > 0,
    decreases n,
{
}

/// The number that decimal digits stand for.
pub open spec fn read_decimal(s: Seq<char>) -> int
    decreases s.len(),
{
    if s.len() == 0 {
        0
    } else {
        read_decimal(s.drop_last()) * 10 + (s.last() as int - '0' as int)
    }
}

/// A number in decimal notation reads back as that number, and consists of
/// decimal digits, the first of them zero only where it is the only one.
pub proof fn law_decimal_reads_back(n: nat)
    ensures
        read_decimal(decimal(n)) == n,
        decimal(n).len() > 0,
        forall|i: int| 0 <= i < decimal(n).len() ==> '0' <= #[trigger] decimal(n)[i] <= '9',
        n > 0 ==> decimal(n)[0] != '0',
    decreases n,
{
    if n >= 10 {
        law_decimal_reads_back(n / 10);
        assert(decimal(n).drop_last() =~= decimal(n / 10));
    } else {
        assert(decimal(n).drop_last() =~= Seq::empty());
        assert(read_decimal(decimal(n).drop_last()) == 0);
    }
}

/// The number that a hexadecimal digit stands for.
pub open spec fn read_digit(c: char) -> int {
    if '0' <= c <= '9' {
        c as int - '0' as int
    } else {
        c as int - 'a' as int + 10
    }
}

/// A number in hexadecimal notation of four digits reads back as that number.
pub proof fn law_hex4_reads_back(n: u16)
    ensures
        hex4(n).len() == 4,
        ((read_digit(hex4(n)[0]) * 16 + read_digit(hex4(n)[1])) * 16 + read_digit(hex4(n)[2])) * 16
            + read_digit(hex4(n)[3]) == n,
        forall|i: int|
            0 <= i < 4 ==> '0' <= #[trigger] hex4(n)[i] <= '9' || 'a' <= hex4(n)[i] <= 'f',
{
}

} // verus!
