//! Numbers and fragments that make up error messages.

use vstd::prelude::*;

verus! {

/// The digit `d` of a number written in base sixteen or lower.
pub open spec fn digit_char(d: int) -> char {
    if d == 0 { '0' } else if d == 1 { '1' } else if d == 2 { '2' } else if d == 3 { '3' }
    else if d == 4 { '4' } else if d == 5 { '5' } else if d == 6 { '6' } else if d == 7 { '7' }
    else if d == 8 { '8' } else if d == 9 { '9' } else if d == 10 { 'a' } else if d == 11 { 'b' }
    else if d == 12 { 'c' } else if d == 13 { 'd' } else if d == 14 { 'e' } else { 'f' }
}

/// `n` in base `base`, most significant digit first, without leading zeros.
pub open spec fn digits(n: nat, base: nat) -> Seq<char>
    decreases n,
{
    if base < 2 || n < base {
        seq![digit_char(n as int)]
    } else {
        proof {
            assert(n / base < n) by (nonlinear_arith)
                requires
                    base >= 2,
                    n >= base,
            ;
        }
        digits(n / base, base).push(digit_char((n % base) as int))
    }
}

/// `n` in decimal.
pub open spec fn decimal(n: nat) -> Seq<char> {
    digits(n, 10)
}

/// `n` in decimal, with a sign in front when it is negative.
pub open spec fn decimal_signed(n: int) -> Seq<char> {
    if n < 0 { "-"@ + decimal((-n) as nat) } else { decimal(n as nat) }
}

/// `zeros` zeros.
pub open spec fn zeros(count: nat) -> Seq<char> {
    Seq::new(count, |i: int| '0')
}

/// `n` in lower-case hexadecimal behind `0x`, with zeros in front of the
/// digits so that there are at least `width` of them.
pub open spec fn hex(n: nat, width: nat) -> Seq<char> {
    let d = digits(n, 16);
    "0x"@ + (if d.len() < width { zeros((width - d.len()) as nat) } else { Seq::empty() }) + d
}

/// A number between two fragments.
pub open spec fn msg1(a: Seq<char>, n: nat, b: Seq<char>) -> Seq<char> {
    a + decimal(n) + b
}

/// Two numbers between three fragments.
pub open spec fn msg2(a: Seq<char>, n: nat, b: Seq<char>, m: nat, c: Seq<char>) -> Seq<char> {
    msg1(a, n, b) + decimal(m) + c
}

/// Three numbers between four fragments.
pub open spec fn msg3(
    a: Seq<char>,
    n: nat,
    b: Seq<char>,
    m: nat,
    c: Seq<char>,
    k: nat,
    d: Seq<char>,
) -> Seq<char> {
    msg2(a, n, b, m, c) + decimal(k) + d
}

/// A string between two fragments.
pub open spec fn msg_str(a: Seq<char>, s: Seq<char>, b: Seq<char>) -> Seq<char> {
    a + s + b
}

fn digit_str(d: u128) -> (s: &'static str)
    requires
        d < 16,
    ensures
        s@ == seq![digit_char(d as int)],
{
    proof {
        reveal_strlit("0"); reveal_strlit("1"); reveal_strlit("2"); reveal_strlit("3");
        reveal_strlit("4"); reveal_strlit("5"); reveal_strlit("6"); reveal_strlit("7");
        reveal_strlit("8"); reveal_strlit("9"); reveal_strlit("a"); reveal_strlit("b");
        reveal_strlit("c"); reveal_strlit("d"); reveal_strlit("e"); reveal_strlit("f");
    }
    if d == 0 { "0" } else if d == 1 { "1" } else if d == 2 { "2" } else if d == 3 { "3" }
    else if d == 4 { "4" } else if d == 5 { "5" } else if d == 6 { "6" } else if d == 7 { "7" }
    else if d == 8 { "8" } else if d == 9 { "9" } else if d == 10 { "a" } else if d == 11 { "b" }
    else if d == 12 { "c" } else if d == 13 { "d" } else if d == 14 { "e" } else { "f" }
}

fn digits_string(n: u128, base: u128) -> (s: String)
    requires
        2 <= base <= 16,
    ensures
        s@ == digits(n as nat, base as nat),
    decreases n,
{
    if n < base {
        digit_str(n).to_string()
    } else {
        assert(n / base < n) by (nonlinear_arith)
            requires
                base >= 2,
                n >= base,
        ;
        let mut s = digits_string(n / base, base);
        s.append(digit_str(n % base));
        assert(s@ =~= digits(n as nat, base as nat));
        s
    }
}

/// `n` in decimal.
pub fn decimal_string(n: u64) -> (s: String)
    ensures
        s@ == decimal(n as nat),
{
    digits_string(n as u128, 10)
}

/// `n` in decimal, for numbers that 64 bits may not hold.
pub fn decimal_string_wide(n: u128) -> (s: String)
    ensures
        s@ == decimal(n as nat),
{
    digits_string(n, 10)
}

/// `n` in decimal, with a sign in front when it is negative.
pub fn decimal_signed_string(n: i64) -> (s: String)
    ensures
        s@ == decimal_signed(n as int),
{
    if n < 0 {
        let magnitude: u64 = if n == i64::MIN { 0x8000_0000_0000_0000 } else { (-n) as u64 };
        let mut s = "-".to_string();
        let d = decimal_string(magnitude);
        s.append(d.as_str());
        s
    } else {
        decimal_string(n as u64)
    }
}

/// `n` in lower-case hexadecimal, padded to `width` digits.
pub fn hex_string(n: u64, width: usize) -> (s: String)
    requires
        width <= 16,
    ensures
        s@ == hex(n as nat, width as nat),
{
    let d = digits_string(n as u128, 16);
    let mut pad = String::new();
    let len: usize = d.as_str().unicode_len();
    let mut i: usize = len;
    assert(pad@ =~= zeros(0));
    while i < width
        invariant
            len <= i,
            i <= width || i == len,
            pad@ == zeros((i - len) as nat),
        decreases width - i,
    {
        proof {
            reveal_strlit("0");
        }
        pad.append("0");
        assert(pad@ =~= zeros((i + 1 - len) as nat));
        i += 1;
    }
    let mut s = "0x".to_string();
    s.append(pad.as_str());
    s.append(d.as_str());
    proof {
        let w = width as nat;
        if d@.len() < w {
        } else {
            assert(zeros(0) =~= Seq::<char>::empty());
        }
    }
    s
}

/// A number between two fragments.
pub fn text1(a: &str, n: u64, b: &str) -> (s: String)
    ensures
        s@ == msg1(a@, n as nat, b@),
{
    let mut s = a.to_string();
    let d = decimal_string(n);
    s.append(d.as_str());
    s.append(b);
    s
}

/// Two numbers between three fragments.
pub fn text2(a: &str, n: u64, b: &str, m: u64, c: &str) -> (s: String)
    ensures
        s@ == msg2(a@, n as nat, b@, m as nat, c@),
{
    let mut s = text1(a, n, b);
    let d = decimal_string(m);
    s.append(d.as_str());
    s.append(c);
    s
}

/// Three numbers between four fragments.
pub fn text3(a: &str, n: u64, b: &str, m: u64, c: &str, k: u64, d: &str) -> (s: String)
    ensures
        s@ == msg3(a@, n as nat, b@, m as nat, c@, k as nat, d@),
{
    let mut s = text2(a, n, b, m, c);
    let e = decimal_string(k);
    s.append(e.as_str());
    s.append(d);
    s
}

/// A string between two fragments.
pub fn text_str(a: &str, s: &str, b: &str) -> (r: String)
    ensures
        r@ == msg_str(a@, s@, b@),
{
    let mut r = a.to_string();
    r.append(s);
    r.append(b);
    r
}

/// What a digit stands for.
pub open spec fn digit_value(c: char) -> int {
    if c <= '9' {
        c as int - 48
    } else {
        c as int - 87
    }
}

/// The number that digits stand for, the most significant one first.
pub open spec fn number(s: Seq<char>, base: nat) -> int
    decreases s.len(),
{
    if s.len() == 0 {
        0
    } else {
        number(s.drop_last(), base) * base + digit_value(s.last())
    }
}

/// The digits that a number is written with stand for that number, and the
/// first of them is no zero unless it is the only one.
pub proof fn law_digits_stand_for_number(n: nat, base: nat)
    requires
        2 <= base <= 16,
    ensures
        number(digits(n, base), base) == n,
        digits(n, base).len() > 0,
        n > 0 ==> digits(n, base)[0] != '0',
    decreases n,
{
    let s = digits(n, base);
    if n < base {
        assert(s.drop_last() =~= Seq::<char>::empty());
        assert(number(s.drop_last(), base) == 0);
        assert(number(s, base) == number(s.drop_last(), base) * base + digit_value(s.last()));
        assert(0 * base == 0) by (nonlinear_arith);
    } else {
        assert(n / base < n && n / base > 0) by (nonlinear_arith)
            requires
                2 <= base <= n,
        ;
        law_digits_stand_for_number(n / base, base);
        let front = digits(n / base, base);
        assert(s.drop_last() =~= front);
        assert(s[0] == front[0]);
        assert(n / base * base + n % base == n && n % base < base) by (nonlinear_arith)
            requires
                base > 0,
        ;
        assert(digit_value(s.last()) == n % base);
    }
}

/// Zeros in front of digits change nothing of the number.
proof fn lemma_zeros_in_front(count: nat, s: Seq<char>, base: nat)
    ensures
        number(zeros(count) + s, base) == number(s, base),
    decreases count + s.len(),
{
    let all = zeros(count) + s;
    if s.len() > 0 {
        lemma_zeros_in_front(count, s.drop_last(), base);
        assert(all.drop_last() =~= zeros(count) + s.drop_last());
        assert(all.last() == s.last());
    } else if count > 0 {
        let fewer = (count - 1) as nat;
        lemma_zeros_in_front(fewer, s, base);
        assert(all.drop_last() =~= zeros(fewer) + s);
        assert(all.last() == '0');
        assert(0 * base == 0) by (nonlinear_arith);
    } else {
        assert(all =~= s);
    }
}

/// A number in hexadecimal stands behind `0x`, with at least as many digits as
/// are asked for.
pub proof fn law_hexadecimal_stands_for_number(n: nat, width: nat)
    ensures
        hex(n, width).take(2) == seq!['0', 'x'],
        hex(n, width).len() >= 2 + width,
        number(hex(n, width).skip(2), 16) == n,
{
    reveal_strlit("0x");
    let d = digits(n, 16);
    law_digits_stand_for_number(n, 16);
    let pad = if d.len() < width {
        (width - d.len()) as nat
    } else {
        0
    };
    lemma_zeros_in_front(pad, d, 16);
    assert(hex(n, width).skip(2) =~= zeros(pad) + d);
    assert(hex(n, width).take(2) =~= seq!['0', 'x']);
}

} // verus!
