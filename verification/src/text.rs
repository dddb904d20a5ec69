//! Building text one character at a time: decimal numerals, zero padding and
//! hexadecimal digits, each with the sequence of characters it appends.

use vstd::prelude::*;

verus! {

/// `String::push` appends exactly the given character to the end of the string.
pub assume_specification[ String::push ](s: &mut String, c: char)
    ensures
        final(s)@ == old(s)@.push(c),
;

/// The character that writes the decimal digit `d`, for `0 <= d <= 9`.
pub open spec fn digit_char(d: int) -> char {
    (48 + d) as char
}

/// The decimal numeral of `n`, without leading zeros (a lone `0` for zero).
pub open spec fn decimal(n: nat) -> Seq<char>
    decreases n,
{
    if n < 10 {
        seq![digit_char(n as int)]
    } else {
        decimal(n / 10).push(digit_char((n % 10) as int))
    }
}

/// The numeral of a signed integer: a minus sign before the numeral of its
/// magnitude when it is negative.
pub open spec fn signed_decimal(v: int) -> Seq<char> {
    if v < 0 {
        seq!['-'] + decimal((-v) as nat)
    } else {
        decimal(v as nat)
    }
}

/// `k` zeros.
pub open spec fn zeros(k: nat) -> Seq<char> {
    Seq::new(k, |i: int| '0')
}

/// The decimal numeral of `n`, with zeros put before it until it has at least
/// `width` characters. A numeral that is already that long is left as it is.
pub open spec fn zero_padded(n: nat, width: nat) -> Seq<char> {
    let d = decimal(n);
    if d.len() >= width {
        d
    } else {
        zeros((width - d.len()) as nat) + d
    }
}

/// The numeral of a signed integer in a field of `width` characters, the sign
/// counted in and standing before the zeros.
pub open spec fn signed_zero_padded(v: int, width: nat) -> Seq<char> {
    if v < 0 {
        seq!['-'] + zero_padded((-v) as nat, if width > 0 { (width - 1) as nat } else { 0 })
    } else {
        zero_padded(v as nat, width)
    }
}

/// `10` to the power `n`.
pub open spec fn pow10(n: nat) -> nat
    decreases n,
{
    if n == 0 {
        1
    } else {
        10 * pow10((n - 1) as nat)
    }
}

/// A numeral is never empty.
pub proof fn lemma_decimal_nonempty(n: nat)
    ensures
        decimal(n).len() >= 1,
    decreases n,
{
    if n >= 10 {
        lemma_decimal_nonempty(n / 10);
    }
}

/// Padding a numeral is padding all but its last digit to one character less.
pub proof fn lemma_zero_padded_step(n: nat, width: nat)
    ensures
        n < 10 ==> zero_padded(n, width) == zeros(if width > 0 { (width - 1) as nat } else { 0 })
            + decimal(n),
        n >= 10 ==> zero_padded(n, width) == zero_padded(
            n / 10,
            if width > 0 { (width - 1) as nat } else { 0 },
        ).push(digit_char((n % 10) as int)),
{
    let rest: nat = if width > 0 { (width - 1) as nat } else { 0 };
    if n < 10 {
        assert(decimal(n).len() == 1);
        if width > 1 {
            assert(zero_padded(n, width) =~= zeros(rest) + decimal(n));
        } else {
            assert(zeros(rest) + decimal(n) =~= decimal(n));
        }
    } else {
        let head = decimal(n / 10);
        let last = digit_char((n % 10) as int);
        lemma_decimal_nonempty(n / 10);
        assert(decimal(n) == head.push(last));
        if head.len() >= rest {
            assert(zero_padded(n / 10, rest) == head);
            assert(zero_padded(n, width) == decimal(n));
        } else {
            let pad = zeros((rest - head.len()) as nat);
            assert(zero_padded(n / 10, rest) == pad + head);
            assert(zero_padded(n, width) =~= (pad + head).push(last));
        }
    }
}

fn digit_of(d: u8) -> (c: char)
    requires
        d < 10,
    ensures
        c == digit_char(d as int),
{
    (48u8 + d) as char
}

/// Appends the decimal numeral of `n`.
pub fn push_decimal(s: &mut String, n: u128)
    ensures
        final(s)@ == old(s)@ + decimal(n as nat),
    decreases n,
{
    if n >= 10 {
        push_decimal(s, n / 10);
    }
    s.push(digit_of((n % 10) as u8));
}

/// Appends `k` zeros.
pub fn push_zeros(s: &mut String, k: usize)
    ensures
        final(s)@ == old(s)@ + zeros(k as nat),
{
    let mut i: usize = 0;
    while i < k
        invariant
            i <= k,
            s@ == old(s)@ + zeros(i as nat),
        decreases k - i,
    {
        s.push('0');
        i = i + 1;
        assert(s@ =~= old(s)@ + zeros(i as nat));
    }
}

/// Appends the decimal numeral of `n`, padded with zeros to `width` characters.
pub fn push_zero_padded(s: &mut String, n: u128, width: usize)
    ensures
        final(s)@ == old(s)@ + zero_padded(n as nat, width as nat),
    decreases n,
{
    let rest: usize = if width > 0 {
        width - 1
    } else {
        0
    };
    proof {
        lemma_zero_padded_step(n as nat, width as nat);
    }
    if n >= 10 {
        push_zero_padded(s, n / 10, rest);
    } else {
        push_zeros(s, rest);
    }
    s.push(digit_of((n % 10) as u8));
}

/// The magnitude of a 128-bit signed integer.
pub fn magnitude(v: i128) -> (m: u128)
    ensures
        m == if v < 0 {
            -(v as int)
        } else {
            v as int
        },
{
    if v >= 0 {
        v as u128
    } else {
        (-(v + 1)) as u128 + 1
    }
}

/// Appends the numeral of a signed integer.
pub fn push_signed_decimal(s: &mut String, v: i128)
    ensures
        final(s)@ == old(s)@ + signed_decimal(v as int),
{
    if v < 0 {
        s.push('-');
    }
    push_decimal(s, magnitude(v));
}

/// Appends the numeral of a signed integer in a field of `width` characters.
pub fn push_signed_zero_padded(s: &mut String, v: i128, width: usize)
    ensures
        final(s)@ == old(s)@ + signed_zero_padded(v as int, width as nat),
{
    if v < 0 {
        s.push('-');
        push_zero_padded(s, magnitude(v), if width > 0 {
            width - 1
        } else {
            0
        });
    } else {
        push_zero_padded(s, magnitude(v), width);
    }
}

/// The character that writes the hexadecimal digit `d`, for `0 <= d <= 15`:
/// `A` to `F` for the digits above nine if `upper`, else `a` to `f`.
pub open spec fn hex_digit_char(d: int, upper: bool) -> char {
    if d < 10 {
        (48 + d) as char
    } else if upper {
        (55 + d) as char
    } else {
        (87 + d) as char
    }
}

/// The bytes in hexadecimal, two digits each, the high one first.
pub open spec fn hex_text(bytes: Seq<u8>, upper: bool) -> Seq<char>
    decreases bytes.len(),
{
    if bytes.len() == 0 {
        Seq::<char>::empty()
    } else {
        hex_text(bytes.drop_last(), upper).push(hex_digit_char(bytes.last() as int / 16, upper)).push(
            hex_digit_char(bytes.last() as int % 16, upper),
        )
    }
}

fn hex_digit_of(d: u8, upper: bool) -> (c: char)
    requires
        d < 16,
    ensures
        c == hex_digit_char(d as int, upper),
{
    if d < 10 {
        (48u8 + d) as char
    } else if upper {
        (55u8 + d) as char
    } else {
        (87u8 + d) as char
    }
}

/// Appends the bytes in hexadecimal.
pub fn push_hex(s: &mut String, bytes: &[u8], upper: bool)
    ensures
        final(s)@ == old(s)@ + hex_text(bytes@, upper),
{
    let mut i: usize = 0;
    while i < bytes.len()
        invariant
            i <= bytes@.len(),
            s@ == old(s)@ + hex_text(bytes@.take(i as int), upper),
        decreases bytes@.len() - i,
    {
        let b = bytes[i];
        s.push(hex_digit_of(b / 16, upper));
        s.push(hex_digit_of(b % 16, upper));
        i = i + 1;
        proof {
            assert(bytes@.take(i as int).drop_last() =~= bytes@.take(i - 1));
            assert(s@ =~= old(s)@ + hex_text(bytes@.take(i as int), upper));
        }
    }
    assert(bytes@.take(i as int) =~= bytes@);
}

/// The characters of a string, in a vector.
pub fn chars_of(s: &str) -> (v: Vec<char>)
    ensures
        v@ == s@,
{
    let mut v: Vec<char> = Vec::new();
    for c in it: s.chars()
        invariant
            v@ == it.seq().take(it.index() as int),
            it.seq() == s@,
    {
        v.push(c);
        assert(v@ =~= it.seq().take(it.index() + 1));
    }
    assert(v@ =~= s@);
    v
}

} // verus!
