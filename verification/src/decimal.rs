//! Numbers in decimal notation.
use vstd::prelude::*;

verus! {

/// The character of a digit.
pub open spec fn digit(d: int) -> char {
    (48 + d) as char
}

/// A number in decimal notation.
pub open spec fn decimal(n: nat) -> Seq<char>
    decreases n,
{
    if n < 10 {
        seq![digit(n as int)]
    } else {
        decimal(n / 10).push(digit((n % 10) as int))
    }
}

/// `n` times the character `c`.
pub open spec fn repeated(c: char, n: nat) -> Seq<char> {
    Seq::new(n, |i: int| c)
}

/// A text, filled up with `c` from the left to at least `width` characters.
pub open spec fn pad_left(s: Seq<char>, c: char, width: nat) -> Seq<char> {
    if s.len() < width {
        repeated(c, (width - s.len()) as nat) + s
    } else {
        s
    }
}

/// A number in decimal notation, filled up with zeros to at least `width` digits.
pub open spec fn zero_padded(n: nat, width: nat) -> Seq<char> {
    pad_left(decimal(n), '0', width)
}

/// Appends a digit.
fn push_digit(out: &mut String, d: u64)
    requires
        d < 10,
    ensures
        final(out)@ == old(out)@.push(digit(d as int)),
{
    let ghost was = out@;
    proof {
        reveal_strlit("0");
        reveal_strlit("1");
        reveal_strlit("2");
        reveal_strlit("3");
        reveal_strlit("4");
        reveal_strlit("5");
        reveal_strlit("6");
        reveal_strlit("7");
        reveal_strlit("8");
        reveal_strlit("9");
    }
    let s: &str = match d {
        0 => "0",
        1 => "1",
        2 => "2",
        3 => "3",
        4 => "4",
        5 => "5",
        6 => "6",
        7 => "7",
        8 => "8",
        _ => "9",
    };
    assert(s@ =~= seq![digit(d as int)]);
    out.append(s);
    assert(out@ =~= was.push(digit(d as int)));
}

/// Appends a number in decimal notation.
pub fn push_decimal(out: &mut String, n: u64)
    ensures
        final(out)@ == old(out)@ + decimal(n as nat),
    decreases n,
{
    let ghost was = out@;
    if n >= 10 {
        push_decimal(out, n / 10);
    }
    push_digit(out, n % 10);
    assert(out@ =~= was + decimal(n as nat));
}

/// A number in decimal notation.
pub fn decimal_text(n: u64) -> (r: String)
    ensures
        r@ == decimal(n as nat),
{
    let mut out = String::new();
    push_decimal(&mut out, n);
    assert(out@ =~= decimal(n as nat));
    out
}

/// The text, filled up with `c`, a text of one character, to at least `width`.
pub fn pad(text: &str, c: &str, width: usize) -> (r: String)
    requires
        c@.len() == 1,
    ensures
        r@ == pad_left(text@, c@[0], width as nat),
{
    let mut out = String::new();
    let len: usize = text.unicode_len();
    let mut n: usize = len;
    while n < width
        invariant
            n >= len,
            n <= width || n == len,
            c@.len() == 1,
            out@ =~= repeated(c@[0], (n - len) as nat),
        decreases width - n,
    {
        let ghost was = out@;
        out.append(c);
        n += 1;
        assert(out@ =~= was.push(c@[0]));
    }
    out.append(text);
    assert(out@ =~= pad_left(text@, c@[0], width as nat));
    out
}

/// A number in decimal notation, filled up with zeros to at least `width` digits.
pub fn zero_pad(n: u64, width: usize) -> (r: String)
    ensures
        r@ == zero_padded(n as nat, width as nat),
{
    proof {
        reveal_strlit("0");
    }
    let text = decimal_text(n);
    pad(text.as_str(), "0", width)
}

/// Two numbers that are written the same are the same.
pub proof fn law_decimal_is_unique(a: nat, b: nat)
    requires
        decimal(a) == decimal(b),
    ensures
        a == b,
    decreases a,
{
    lemma_decimal_len(a);
    lemma_decimal_len(b);
    let s = decimal(a);
    assert(s.last() == digit((a % 10) as int));
    assert(s.last() == digit((b % 10) as int));
    if a >= 10 {
        assert(s.drop_last() =~= decimal(a / 10));
        assert(s.drop_last() =~= decimal(b / 10));
        law_decimal_is_unique(a / 10, b / 10);
    }
}

proof fn lemma_decimal_len(n: nat)
    ensures
        decimal(n).len() >= 1,
        n >= 10 ==> decimal(n).len() >= 2,
    decreases n,
{
    if n >= 10 {
        lemma_decimal_len(n / 10);
    }
}

} // verus!
