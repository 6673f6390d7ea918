//! Building text.

use vstd::arithmetic::div_mod::lemma_div_denominator;
use vstd::arithmetic::power::{lemma_pow_positive, pow};
use vstd::prelude::*;
use vstd::string::StringExecFns;

verus! {

/// The digit that stands for `d`.
pub open spec fn digit(d: nat) -> char {
    seq!['0', '1', '2', '3', '4', '5', '6', '7', '8', '9'][d as int]
}

/// `n` in decimal notation.
pub open spec fn decimal(n: nat) -> Seq<char>
    decreases n,
{
    if n < 10 {
        seq![digit(n)]
    } else {
        decimal(n / 10).push(digit(n % 10))
    }
}

/// `n` blanks.
pub open spec fn blanks(n: nat) -> Seq<char> {
    Seq::new(n, |i: int| ' ')
}

/// One piece more.
pub proof fn lemma_pieces<A>(n: nat, piece: spec_fn(int) -> Seq<A>)
    ensures
        Seq::new(n + 1, piece).flatten() == Seq::new(n, piece).flatten() + piece(n as int),
{
    let some = Seq::new(n, piece);
    some.lemma_flatten_push(piece(n as int));
    assert(Seq::new(n + 1, piece) =~= some.push(piece(n as int)));
}

/// The digits of a number in decimal notation, counted from the right: the one
/// at `i` says how often the `i`th power of ten is left over. There are as many
/// as the number needs, and at least one.
pub proof fn law_decimal_notation(n: nat, i: nat)
    ensures
        decimal(n).len() > 0,
        n < pow(10, decimal(n).len()),
        decimal(n).len() > 1 ==> pow(10, (decimal(n).len() - 1) as nat) <= n,
        i < decimal(n).len() ==> decimal(n)[decimal(n).len() - 1 - i] as int == '0' as int + (n as int
            / pow(10, i)) % 10,
    decreases n,
{
    let text = decimal(n);
    let len = text.len();
    reveal(pow);
    assert(pow(10, 0) == 1);
    if n < 10 {
        assert(pow(10, 1) == 10 * pow(10, 0));
        assert(n as int / 1 == n as int);
    } else {
        let rest = decimal(n / 10);
        law_decimal_notation(n / 10, 0);
        assert(pow(10, len) == 10 * pow(10, rest.len()));
        if rest.len() > 1 {
            assert(pow(10, rest.len()) == 10 * pow(10, (rest.len() - 1) as nat));
        } else {
            assert(pow(10, 1) == 10 * pow(10, 0));
        }
        if i == 0 {
            assert(n as int / 1 == n as int);
        } else if i < len {
            let less = (i - 1) as nat;
            law_decimal_notation(n / 10, less);
            assert(text[len - 1 - i] == rest[rest.len() - 1 - less]);
            assert(pow(10, i) == 10 * pow(10, less));
            lemma_pow_positive(10, less);
            lemma_div_denominator(n as int, 10, pow(10, less));
        }
    }
}

/// The digit that stands for `d`, as text.
fn digit_text(d: u64) -> (text: &'static str)
    requires
        d < 10,
    ensures
        text@ == seq![digit(d as nat)],
{
    proof {
        reveal_strlit("0");
        reveal_strlit("1");
        reveal_strlit("2");
        reveal_strlit("3");
        reveal_strlit("4");
        reveal_strlit("5");
        reveal_strlit("6");
        reveal_strlit("7");
        reveal_strlit("8");
        reveal_strlit("9");
    }
    if d == 0 {
        "0"
    } else if d == 1 {
        "1"
    } else if d == 2 {
        "2"
    } else if d == 3 {
        "3"
    } else if d == 4 {
        "4"
    } else if d == 5 {
        "5"
    } else if d == 6 {
        "6"
    } else if d == 7 {
        "7"
    } else if d == 8 {
        "8"
    } else {
        "9"
    }
}

/// Write `n` in decimal notation behind `out`.
pub fn push_decimal(out: &mut String, n: u64)
    ensures
        final(out)@ == old(out)@ + decimal(n as nat),
    decreases n,
{
    if n >= 10 {
        push_decimal(out, n / 10);
    }
    out.append(digit_text(n % 10));
    assert(out@ =~= old(out)@ + decimal(n as nat));
}

/// Write `n` blanks behind `out`.
pub fn push_blanks(out: &mut String, n: usize)
    ensures
        final(out)@ == old(out)@ + blanks(n as nat),
{
    let mut i: usize = 0;
    assert(out@ =~= old(out)@ + blanks(0));
    while i < n
        invariant
            i <= n,
            out@ == old(out)@ + blanks(i as nat),
        decreases n - i,
    {
        proof {
            reveal_strlit(" ");
        }
        out.append(" ");
        i = i + 1;
        assert(out@ =~= old(out)@ + blanks(i as nat));
    }
}

/// `String::push` of std: it appends one character to the end of the text.
pub assume_specification[ String::push ](text: &mut String, c: char)
    ensures
        final(text)@ == old(text)@.push(c),
;

/// The characters of a text.
pub fn chars_of(text: &str) -> (chars: Vec<char>)
    ensures
        chars@ == text@,
{
    let mut chars: Vec<char> = Vec::new();
    for c in iter: text.chars()
        invariant
            iter.seq() == text@,
            chars@ == text@.take(iter.index() as int),
    {
        chars.push(c);
        assert(chars@ =~= text@.take(iter.index() + 1));
    }
    assert(chars@ =~= text@);
    chars
}

/// Blanks are blanks, as many as asked for.
pub proof fn law_blanks(n: nat, i: int)
    ensures
        blanks(n).len() == n,
        0 <= i < n ==> blanks(n)[i] == ' ',
{
}

} // verus!
