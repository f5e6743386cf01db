//! Exact decimal and hexadecimal rendering of machine integers, with the
//! lemmas the layout engines use to prove element ids unique.

use vstd::prelude::*;

verus! {

/// The decimal digit character for a value in 0..=9.
pub open spec fn digit_char(d: int) -> char {
    if d == 0 {
        '0'
    } else if d == 1 {
        '1'
    } else if d == 2 {
        '2'
    } else if d == 3 {
        '3'
    } else if d == 4 {
        '4'
    } else if d == 5 {
        '5'
    } else if d == 6 {
        '6'
    } else if d == 7 {
        '7'
    } else if d == 8 {
        '8'
    } else {
        '9'
    }
}

pub open spec fn is_digit(c: char) -> bool {
    '0' <= c <= '9'
}

/// The decimal digits of a nonnegative number, most significant first.
pub open spec fn dec_seq(n: int) -> Seq<char>
    decreases n,
{
    if n < 10 {
        seq![digit_char(n)]
    } else {
        dec_seq(n / 10).push(digit_char(n % 10))
    }
}

proof fn lemma_digit_char_props(d: int)
    requires
        0 <= d <= 9,
    ensures
        is_digit(digit_char(d)),
        forall|e: int| 0 <= e <= 9 && e != d ==> digit_char(e) != digit_char(d),
{
}

pub proof fn lemma_dec_seq_digits(n: int)
    requires
        n >= 0,
    ensures
        dec_seq(n).len() >= 1,
        forall|i: int| 0 <= i < dec_seq(n).len() ==> is_digit(#[trigger] dec_seq(n)[i]),
    decreases n,
{
    if n < 10 {
        lemma_digit_char_props(n);
    } else {
        lemma_dec_seq_digits(n / 10);
        lemma_digit_char_props(n % 10);
    }
}

pub proof fn lemma_dec_seq_injective(a: int, b: int)
    requires
        a >= 0,
        b >= 0,
        dec_seq(a) == dec_seq(b),
    ensures
        a == b,
    decreases a,
{
    lemma_dec_seq_digits(a);
    lemma_dec_seq_digits(b);
    if a < 10 && b < 10 {
        lemma_digit_char_props(a);
        lemma_digit_char_props(b);
        assert(dec_seq(a) =~= seq![digit_char(a)]);
        assert(dec_seq(b) =~= seq![digit_char(b)]);
        assert(dec_seq(a)[0] == digit_char(a));
        assert(dec_seq(b)[0] == digit_char(b));
    } else if a < 10 {
        lemma_dec_seq_digits(b / 10);
        assert(dec_seq(b).len() >= 2);
    } else if b < 10 {
        lemma_dec_seq_digits(a / 10);
        assert(dec_seq(a).len() >= 2);
    } else {
        assert(dec_seq(a).last() == digit_char(a % 10));
        assert(dec_seq(b).last() == digit_char(b % 10));
        lemma_digit_char_props(a % 10);
        lemma_digit_char_props(b % 10);
        assert(a % 10 == b % 10);
        assert(dec_seq(a).drop_last() =~= dec_seq(a / 10));
        assert(dec_seq(b).drop_last() =~= dec_seq(b / 10));
        lemma_dec_seq_injective(a / 10, b / 10);
    }
}

/// The decimal digit string for a value in 0..=9.
fn digit_str(d: u64) -> (r: &'static str)
    requires
        d <= 9,
    ensures
        r@ =~= seq![digit_char(d as int)],
{
    proof {
        reveal_strlit("0");
        reveal_strlit("1");
        reveal_strlit("2");
        reveal_strlit("3");
        reveal_strlit("4");
        reveal_strlit("5");
        reveal_strlit("6");
        reveal_strlit("7");
        reveal_strlit("8");
        reveal_strlit("9");
    }
    if d == 0 {
        "0"
    } else if d == 1 {
        "1"
    } else if d == 2 {
        "2"
    } else if d == 3 {
        "3"
    } else if d == 4 {
        "4"
    } else if d == 5 {
        "5"
    } else if d == 6 {
        "6"
    } else if d == 7 {
        "7"
    } else if d == 8 {
        "8"
    } else {
        "9"
    }
}

/// Renders a number in decimal.
pub fn u64_to_dec(n: u64) -> (r: String)
    ensures
        r@ == dec_seq(n as int),
    decreases n,
{
    if n < 10 {
        let mut s = String::new();
        s.append(digit_str(n));
        proof {
            assert(s@ =~= dec_seq(n as int));
        }
        s
    } else {
        let mut s = u64_to_dec(n / 10);
        s.append(digit_str(n % 10));
        proof {
            assert(s@ =~= dec_seq(n as int));
        }
        s
    }
}

/// `n` zeros.
pub open spec fn zeros(n: int) -> Seq<char>
    decreases n,
{
    if n <= 0 {
        Seq::empty()
    } else {
        zeros(n - 1).push('0')
    }
}

/// The decimal rendering of `n`, left-padded with zeros to at least `width`
/// characters.
pub open spec fn padded_dec_seq(n: int, width: int) -> Seq<char> {
    zeros(width - dec_seq(n).len()) + dec_seq(n)
}

/// Renders a number in decimal, left-padded with zeros to `width` characters.
pub fn u64_to_dec_padded(n: u64, width: usize) -> (r: String)
    requires
        width <= 8192,
    ensures
        r@ == padded_dec_seq(n as int, width as int),
{
    let digits = u64_to_dec(n);
    let dlen = digits.as_str().unicode_len();
    let mut s = String::new();
    if dlen < width {
        let mut k: usize = 0;
        let pad = width - dlen;
        while k < pad
            invariant
                k <= pad,
                s@ == zeros(k as int),
            decreases pad - k,
        {
            s.append("0");
            proof {
                reveal_strlit("0");
                assert(s@ =~= zeros(k + 1));
            }
            k = k + 1;
        }
    }
    proof {
        if dlen >= width {
            assert(zeros(width - dec_seq(n as int).len()) =~= Seq::<char>::empty());
            assert(s@ =~= zeros(width - dec_seq(n as int).len()));
        }
    }
    s.append(digits.as_str());
    s
}

/// The hexadecimal digit character for a value in 0..=15, upper case.
pub open spec fn hex_char(d: int) -> char {
    if d < 10 {
        digit_char(d)
    } else if d == 10 {
        'A'
    } else if d == 11 {
        'B'
    } else if d == 12 {
        'C'
    } else if d == 13 {
        'D'
    } else if d == 14 {
        'E'
    } else {
        'F'
    }
}

/// The two hexadecimal digits of a byte.
pub open spec fn byte_hex(b: int) -> Seq<char> {
    seq![hex_char(b / 16), hex_char(b % 16)]
}

fn hex_str(d: u8) -> (r: &'static str)
    requires
        d <= 15,
    ensures
        r@ =~= seq![hex_char(d as int)],
{
    proof {
        reveal_strlit("A");
        reveal_strlit("B");
        reveal_strlit("C");
        reveal_strlit("D");
        reveal_strlit("E");
        reveal_strlit("F");
    }
    if d < 10 {
        digit_str(d as u64)
    } else if d == 10 {
        "A"
    } else if d == 11 {
        "B"
    } else if d == 12 {
        "C"
    } else if d == 13 {
        "D"
    } else if d == 14 {
        "E"
    } else {
        "F"
    }
}

/// Appends the two hexadecimal digits of a byte.
pub fn push_byte_hex(s: &mut String, b: u8)
    ensures
        final(s)@ == old(s)@ + byte_hex(b as int),
{
    s.append(hex_str(b / 16));
    s.append(hex_str(b % 16));
    proof {
        assert(s@ =~= old(s)@ + byte_hex(b as int));
    }
}

} // verus!
