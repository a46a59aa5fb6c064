//! Small text helpers.

use vstd::prelude::*;

verus! {

/// The decimal digit `d`.
pub open spec fn digit(d: nat) -> char {
    if d == 0 {
        '0'
    } else if d == 1 {
        '1'
    } else if d == 2 {
        '2'
    } else if d == 3 {
        '3'
    } else if d == 4 {
        '4'
    } else if d == 5 {
        '5'
    } else if d == 6 {
        '6'
    } else if d == 7 {
        '7'
    } else if d == 8 {
        '8'
    } else {
        '9'
    }
}

/// The decimal notation of `n`, without leading zeros.
pub open spec fn decimal(n: nat) -> Seq<char>
    decreases n,
{
    if n < 10 {
        seq![digit(n)]
    } else {
        decimal(n / 10).push(digit(n % 10))
    }
}

/// Append the decimal notation of `n` to `s`.
pub fn append_decimal(s: &mut String, n: u64)
    ensures
        final(s)@ == old(s)@ + decimal(n as nat),
    decreases n,
{
    if n >= 10 {
        append_decimal(s, n / 10);
    }
    let d: u64 = n % 10;
    let ghost before = s@;
    proof {
        reveal_strlit("0");
        reveal_strlit("1");
        reveal_strlit("2");
        reveal_strlit("3");
        reveal_strlit("4");
        reveal_strlit("5");
        reveal_strlit("6");
        reveal_strlit("7");
        reveal_strlit("8");
        reveal_strlit("9");
    }
    if d == 0 {
        s.append("0");
    } else if d == 1 {
        s.append("1");
    } else if d == 2 {
        s.append("2");
    } else if d == 3 {
        s.append("3");
    } else if d == 4 {
        s.append("4");
    } else if d == 5 {
        s.append("5");
    } else if d == 6 {
        s.append("6");
    } else if d == 7 {
        s.append("7");
    } else if d == 8 {
        s.append("8");
    } else {
        s.append("9");
    }
    assert(s@ =~= before + seq![digit(d as nat)]);
    assert(s@ =~= old(s)@ + decimal(n as nat));
}

/// Whether two texts are the same.
pub fn same_text(a: &str, b: &str) -> (r: bool)
    ensures
        r == (a@ == b@),
{
    let a: String = String::from_str(a);
    let b: String = String::from_str(b);
    a == b
}

/// The characters of a text.
pub fn chars_of(text: &str) -> (v: Vec<char>)
    ensures
        v@ == text@,
{
    broadcast use vstd::string::axiom_spec_iter;

    let mut v: Vec<char> = Vec::new();
    for c in it: text.chars()
        invariant
            it.seq() == text@,
            v@ == it.seq().take(it.index() as int),
    {
        v.push(c);
        assert(v@ =~= it.seq().take(it.index() + 1));
    }
    assert(v@ =~= text@);
    v
}

/// Whether a character is white space.
pub open spec fn is_white(c: char) -> bool {
    let n = c as u32;
    ||| 0x09 <= n <= 0x0D
    ||| n == 0x20 || n == 0x85 || n == 0xA0 || n == 0x1680
    ||| 0x2000 <= n <= 0x200A
    ||| n == 0x2028 || n == 0x2029 || n == 0x202F || n == 0x205F || n == 0x3000
}

/// Whether a character is white space.
pub fn white(c: char) -> (b: bool)
    ensures
        b == is_white(c),
{
    let n: u32 = c as u32;
    let low: bool = (0x09 <= n && n <= 0x0D) || n == 0x20 || n == 0x85 || n == 0xA0 || n == 0x1680;
    let high: bool = (0x2000 <= n && n <= 0x200A) || n == 0x2028 || n == 0x2029 || n == 0x202F || n == 0x205F
        || n == 0x3000;
    low || high
}

/// The number that decimal digits say.
pub open spec fn said(digits: Seq<char>) -> int
    decreases digits.len(),
{
    if digits.len() == 0 {
        0
    } else {
        10 * said(digits.drop_last()) + (digits.last() as u32 - 0x30)
    }
}

/// A number in decimal has digits only, with no zero in front, and they say the number.
pub proof fn law_decimal_says_the_number(n: nat)
    ensures
        said(decimal(n)) == n,
        decimal(n).len() >= 1,
        forall|i: int| 0 <= i < decimal(n).len() ==> 0x30 <= #[trigger] decimal(n)[i] as u32 <= 0x39,
        n > 0 ==> decimal(n)[0] != '0',
        n < 10 ==> decimal(n).len() == 1,
    decreases n,
{
    let d = decimal(n);
    if n < 10 {
        assert(d.drop_last() =~= Seq::empty());
        assert(said(d.drop_last()) == 0);
    } else {
        law_decimal_says_the_number(n / 10);
        assert(d.drop_last() =~= decimal(n / 10));
        assert(d[0] == decimal(n / 10)[0]);
        assert forall|i: int| 0 <= i < d.len() implies 0x30 <= #[trigger] d[i] as u32 <= 0x39 by {
            if i < d.len() - 1 {
                assert(d[i] == decimal(n / 10)[i]);
            }
        }
    }
}

/// White space: the tab and the four controls after it, the space, the next line control, and the spaces and separators
/// outside of the Latin block; among what can be printed in ASCII the space alone.
pub proof fn law_white_space(c: char)
    ensures
        is_white('\t') && is_white('\n') && is_white('\r') && is_white(' '),
        is_white('\u{b}') && is_white('\u{c}') && is_white('\u{85}') && is_white('\u{a0}'),
        is_white('\u{1680}') && is_white('\u{2028}') && is_white('\u{2029}'),
        is_white('\u{202f}') && is_white('\u{205f}') && is_white('\u{3000}'),
        0x2000 <= c as u32 <= 0x200A ==> is_white(c),
        0x21 <= c as u32 <= 0x7E ==> !is_white(c),
        (c as u32) < 0x09 || 0x0E <= c as u32 <= 0x1F || 0x7F <= c as u32 <= 0x84 ==> !is_white(c),
        0x86 <= c as u32 <= 0x9F || 0xA1 <= c as u32 <= 0x167F || 0x1681 <= c as u32 <= 0x1FFF ==> !is_white(c),
        0x200B <= c as u32 <= 0x2027 || 0x202A <= c as u32 <= 0x202E || 0x2030 <= c as u32 <= 0x205E ==> !is_white(c),
        0x2060 <= c as u32 <= 0x2FFF || 0x3001 <= c as u32 ==> !is_white(c),
{
}

} // verus!
