//! Generated label names. The disassembler names jump targets "l0", "l1",
//! "l2", ... in order of first encounter; this module defines what those
//! names are and builds them as strings.

use vstd::prelude::*;

verus! {

/// The decimal digit character for a value below ten.
pub open spec fn digit_char(d: nat) -> char {
    if d == 0 {
        '0'
    } else if d == 1 {
        '1'
    } else if d == 2 {
        '2'
    } else if d == 3 {
        '3'
    } else if d == 4 {
        '4'
    } else if d == 5 {
        '5'
    } else if d == 6 {
        '6'
    } else if d == 7 {
        '7'
    } else if d == 8 {
        '8'
    } else {
        '9'
    }
}

/// The decimal digits of `n`, most significant first, with no leading zeros
/// (a single zero digit for zero itself).
pub open spec fn dec_digits(n: nat) -> Seq<char>
    decreases n,
{
    if n < 10 {
        seq![digit_char(n)]
    } else {
        dec_digits(n / 10).push(digit_char(n % 10))
    }
}

/// The generated name for the label with counter value `n`: the letter 'l'
/// followed by `n` in decimal.
pub open spec fn label_name(n: nat) -> Seq<char> {
    seq!['l'] + dec_digits(n)
}

/// Distinct digit values give distinct digit characters.
proof fn lemma_digit_char_injective(a: nat, b: nat)
    requires
        a < 10,
        b < 10,
        digit_char(a) == digit_char(b),
    ensures
        a == b,
{
}

/// A number of ten or more has at least two decimal digits.
proof fn lemma_dec_digits_len(n: nat)
    ensures
        dec_digits(n).len() >= 1,
        n >= 10 ==> dec_digits(n).len() >= 2,
    decreases n,
{
    if n >= 10 {
        lemma_dec_digits_len(n / 10);
    }
}

/// Decimal representations are unique: distinct numbers have distinct digit
/// sequences.
pub proof fn lemma_dec_digits_injective(a: nat, b: nat)
    requires
        dec_digits(a) == dec_digits(b),
    ensures
        a == b,
    decreases a,
{
    if a < 10 && b < 10 {
        assert(dec_digits(a) == seq![digit_char(a)]);
        assert(dec_digits(b) == seq![digit_char(b)]);
        assert(digit_char(a) == dec_digits(a)[0]);
        assert(digit_char(b) == dec_digits(b)[0]);
        lemma_digit_char_injective(a, b);
    } else if a < 10 {
        lemma_dec_digits_len(b);
        assert(dec_digits(a).len() == 1);
    } else if b < 10 {
        lemma_dec_digits_len(a);
        assert(dec_digits(b).len() == 1);
    } else {
        let da = dec_digits(a / 10);
        let db = dec_digits(b / 10);
        assert(dec_digits(a) == da.push(digit_char(a % 10)));
        assert(dec_digits(b) == db.push(digit_char(b % 10)));
        lemma_dec_digits_len(a / 10);
        lemma_dec_digits_len(b / 10);
        assert(dec_digits(a).last() == digit_char(a % 10));
        assert(dec_digits(b).last() == digit_char(b % 10));
        lemma_digit_char_injective(a % 10, b % 10);
        assert(da =~= dec_digits(a).drop_last());
        assert(db =~= dec_digits(b).drop_last());
        lemma_dec_digits_injective(a / 10, b / 10);
    }
}

/// Distinct counter values give distinct label names.
pub proof fn lemma_label_name_injective(a: nat, b: nat)
    requires
        label_name(a) == label_name(b),
    ensures
        a == b,
{
    assert(dec_digits(a) =~= label_name(a).drop_first());
    assert(dec_digits(b) =~= label_name(b).drop_first());
    lemma_dec_digits_injective(a, b);
}

/// The one-character string for a decimal digit.
fn digit_str(d: usize) -> (s: &'static str)
    requires
        d < 10,
    ensures
        s@ =~= seq![digit_char(d as nat)],
{
    proof {
        reveal_strlit("0");
        reveal_strlit("1");
        reveal_strlit("2");
        reveal_strlit("3");
        reveal_strlit("4");
        reveal_strlit("5");
        reveal_strlit("6");
        reveal_strlit("7");
        reveal_strlit("8");
        reveal_strlit("9");
    }
    if d == 0 {
        "0"
    } else if d == 1 {
        "1"
    } else if d == 2 {
        "2"
    } else if d == 3 {
        "3"
    } else if d == 4 {
        "4"
    } else if d == 5 {
        "5"
    } else if d == 6 {
        "6"
    } else if d == 7 {
        "7"
    } else if d == 8 {
        "8"
    } else {
        "9"
    }
}

/// Builds the decimal string of `n`.
fn dec_str(n: usize) -> (s: String)
    ensures
        s@ == dec_digits(n as nat),
    decreases n,
{
    if n < 10 {
        let mut s = String::new();
        s.append(digit_str(n));
        assert(s@ =~= dec_digits(n as nat));
        s
    } else {
        let mut s = dec_str(n / 10);
        s.append(digit_str(n % 10));
        assert(s@ =~= dec_digits(n as nat));
        s
    }
}

/// Builds the generated label name for counter value `n`.
pub fn make_label(n: usize) -> (s: String)
    ensures
        s@ == label_name(n as nat),
{
    proof {
        reveal_strlit("l");
    }
    let mut s = String::new();
    s.append("l");
    let digits = dec_str(n);
    s.append(digits.as_str());
    assert(s@ =~= label_name(n as nat));
    s
}

} // verus!
