//! Decimal and hexadecimal renderings of numbers.

use vstd::prelude::*;
use vstd::string::*;

verus! {

broadcast use vstd::string::group_string_axioms;

/// The character of a digit below 16 (lower-case letters past 9).
pub open spec fn digit_char(d: nat) -> char {
    if d == 0 { '0' }
    else if d == 1 { '1' }
    else if d == 2 { '2' }
    else if d == 3 { '3' }
    else if d == 4 { '4' }
    else if d == 5 { '5' }
    else if d == 6 { '6' }
    else if d == 7 { '7' }
    else if d == 8 { '8' }
    else if d == 9 { '9' }
    else if d == 10 { 'a' }
    else if d == 11 { 'b' }
    else if d == 12 { 'c' }
    else if d == 13 { 'd' }
    else if d == 14 { 'e' }
    else { 'f' }
}

/// The digits of `n` in base `b`, most significant first, without leading zeros
/// (zero is the single digit `0`).
pub open spec fn digits_in_base(n: nat, b: nat) -> Seq<char>
    recommends
        2 <= b <= 16,
    decreases n,
{
    if b < 2 || n < b {
        seq![digit_char(n % 16)]
    } else {
        proof {
            assert(n / b < n) by (nonlinear_arith)
                requires
                    b >= 2,
                    n >= b,
            ;
        }
        digits_in_base(n / b, b).push(digit_char(n % b))
    }
}

/// `n` written in decimal.
pub open spec fn decimal(n: nat) -> Seq<char> {
    digits_in_base(n, 10)
}

/// `n` written in hexadecimal with a `0x` prefix.
pub open spec fn hex_prefixed(n: nat) -> Seq<char> {
    seq!['0', 'x'] + digits_in_base(n, 16)
}

fn digit_str(d: u64) -> (r: &'static str)
    requires
        d < 16,
    ensures
        r@ == seq![digit_char(d as nat)],
{
    proof {
        reveal_strlit("0");
        reveal_strlit("1");
        reveal_strlit("2");
        reveal_strlit("3");
        reveal_strlit("4");
        reveal_strlit("5");
        reveal_strlit("6");
        reveal_strlit("7");
        reveal_strlit("8");
        reveal_strlit("9");
        reveal_strlit("a");
        reveal_strlit("b");
        reveal_strlit("c");
        reveal_strlit("d");
        reveal_strlit("e");
        reveal_strlit("f");
    }
    if d == 0 { "0" }
    else if d == 1 { "1" }
    else if d == 2 { "2" }
    else if d == 3 { "3" }
    else if d == 4 { "4" }
    else if d == 5 { "5" }
    else if d == 6 { "6" }
    else if d == 7 { "7" }
    else if d == 8 { "8" }
    else if d == 9 { "9" }
    else if d == 10 { "a" }
    else if d == 11 { "b" }
    else if d == 12 { "c" }
    else if d == 13 { "d" }
    else if d == 14 { "e" }
    else { "f" }
}

/// Appends the digits of `n` in base `b` to `s`.
pub fn push_digits(s: &mut String, n: u64, b: u64)
    requires
        2 <= b <= 16,
    ensures
        final(s)@ == old(s)@ + digits_in_base(n as nat, b as nat),
    decreases n,
{
    if n >= b {
        assert(n / b < n) by (nonlinear_arith)
            requires
                b >= 2,
                n >= b,
        ;
        push_digits(s, n / b, b);
        s.append(digit_str(n % b));
        assert(final(s)@ =~= old(s)@ + digits_in_base(n as nat, b as nat));
    } else {
        assert(n % 16 == n);
        s.append(digit_str(n));
    }
}

/// Appends `n` in decimal to `s`.
pub fn push_decimal(s: &mut String, n: u64)
    ensures
        final(s)@ == old(s)@ + decimal(n as nat),
{
    push_digits(s, n, 10);
}

/// `n` in decimal.
pub fn decimal_text(n: u64) -> (r: String)
    ensures
        r@ == decimal(n as nat),
{
    let mut s = String::new();
    push_decimal(&mut s, n);
    assert(s@ =~= decimal(n as nat));
    s
}

/// Appends `n` in hexadecimal with the `0x` prefix to `s`.
pub fn push_hex_prefixed(s: &mut String, n: u64)
    ensures
        final(s)@ == old(s)@ + hex_prefixed(n as nat),
{
    proof {
        reveal_strlit("0x");
    }
    s.append("0x");
    push_digits(s, n, 16);
    assert(final(s)@ =~= old(s)@ + hex_prefixed(n as nat));
}

/// The value of a digit character: `0`-`9` and `a`-`f` (past 9), or -1 for
/// any other character.
pub open spec fn hex_digit_value(c: char) -> int {
    if '0' <= c && c <= '9' {
        c as int - '0' as int
    } else if 'a' <= c && c <= 'f' {
        c as int - 'a' as int + 10
    } else {
        -1
    }
}

/// The number that a string of digits denotes in base `b`, most significant
/// digit first.
pub open spec fn value_in_base(w: Seq<char>, b: int) -> int
    decreases w.len(),
{
    if w.len() == 0 {
        0
    } else {
        value_in_base(w.drop_last(), b) * b + hex_digit_value(w.last())
    }
}

/// A well-formed numeral in base `b` that denotes `n`: at least one digit,
/// every character a digit below `b`, no leading zero, and the value `n`.
pub open spec fn numeral_of(w: Seq<char>, b: int, n: int) -> bool {
    &&& w.len() >= 1
    &&& forall|k: int| 0 <= k < w.len() ==> 0 <= #[trigger] hex_digit_value(w[k]) < b
    &&& (w.len() == 1 || w[0] != '0')
    &&& value_in_base(w, b) == n
}

proof fn lemma_digit_char_value(d: nat)
    requires
        d < 16,
    ensures
        hex_digit_value(digit_char(d)) == d,
        digit_char(d) == '0' <==> d == 0,
{
}

/// The digits of `n` in base `b` are a well-formed numeral that denotes `n`.
pub proof fn lemma_digits_denote(n: nat, b: nat)
    requires
        2 <= b <= 16,
    ensures
        numeral_of(digits_in_base(n, b), b as int, n as int),
    decreases n,
{
    let w = digits_in_base(n, b);
    if n < b {
        assert(n % 16 == n);
        lemma_digit_char_value(n);
        assert(w == seq![digit_char(n)]);
        assert(w.drop_last() =~= Seq::<char>::empty());
        assert(value_in_base(Seq::<char>::empty(), b as int) == 0);
        assert(value_in_base(w, b as int) == value_in_base(w.drop_last(), b as int) * b + hex_digit_value(w.last()));
        assert(value_in_base(w, b as int) == n);
        assert(numeral_of(w, b as int, n as int));
    } else {
        let q = n / b;
        let r = n % b;
        assert(q < n && q >= 1 && q * b + r == n && r < b) by (nonlinear_arith)
            requires
                b >= 2,
                n >= b,
                q == n / b,
                r == n % b,
        ;
        lemma_digits_denote(q, b);
        lemma_digit_char_value(r);
        let w1 = digits_in_base(q, b);
        assert(w == w1.push(digit_char(r)));
        assert(w.drop_last() =~= w1);
        assert(w[0] == w1[0]);
        if q < b {
            assert(q % 16 == q);
            lemma_digit_char_value(q);
            assert(w1 == seq![digit_char(q)]);
        } else {
            assert(q / b <= q) by (nonlinear_arith)
                requires
                    b >= 2,
            ;
            lemma_digits_denote(q / b, b);
            assert(w1 == digits_in_base(q / b, b).push(digit_char(q % b)));
        }
        assert forall|k: int| 0 <= k < w.len() implies 0 <= #[trigger] hex_digit_value(w[k]) < b by {
            if k < w1.len() {
                assert(w[k] == w1[k]);
            }
        }
        assert(value_in_base(w, b as int) == value_in_base(w1, b as int) * b + hex_digit_value(digit_char(r)));
        assert(value_in_base(w, b as int) == n);
        assert(w.len() == 1 || w[0] != '0');
    }
}

/// The hexadecimal text of `n` is `0x` followed by a well-formed base-16
/// numeral that denotes `n`; the decimal text of `n` is a well-formed
/// base-10 numeral that denotes `n`.
pub proof fn lemma_number_texts_denote(n: nat)
    ensures
        hex_prefixed(n).len() >= 3,
        hex_prefixed(n)[0] == '0',
        hex_prefixed(n)[1] == 'x',
        numeral_of(hex_prefixed(n).subrange(2, hex_prefixed(n).len() as int), 16, n as int),
        numeral_of(decimal(n), 10, n as int),
{
    lemma_digits_denote(n, 16);
    lemma_digits_denote(n, 10);
    assert(hex_prefixed(n).subrange(2, hex_prefixed(n).len() as int) =~= digits_in_base(n, 16));
}

} // verus!
