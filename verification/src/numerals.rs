//! Decimal numerals: specification-level digit sequences, verified rendering
//! into `String`s, and digit parsing, shared by the timestamp utilities and
//! the document renderer.

use vstd::prelude::*;

verus! {

/// The character that denotes a single decimal digit value.
pub open spec fn spec_digit(d: int) -> char {
    if d == 0 {
        '0'
    } else if d == 1 {
        '1'
    } else if d == 2 {
        '2'
    } else if d == 3 {
        '3'
    } else if d == 4 {
        '4'
    } else if d == 5 {
        '5'
    } else if d == 6 {
        '6'
    } else if d == 7 {
        '7'
    } else if d == 8 {
        '8'
    } else {
        '9'
    }
}

/// The decimal numeral of a non-negative integer, most significant digit
/// first, without leading zeroes (zero itself renders as a single `'0'`).
pub open spec fn spec_dec(n: int) -> Seq<char>
    recommends
        n >= 0,
    decreases n,
{
    if n < 10 {
        seq![spec_digit(n)]
    } else {
        spec_dec(n / 10).push(spec_digit(n % 10))
    }
}

/// The numeral zero-padded on the left to at least two characters.
pub open spec fn spec_pad2(n: int) -> Seq<char>
    recommends
        n >= 0,
{
    if n < 10 {
        seq!['0', spec_digit(n)]
    } else {
        spec_dec(n)
    }
}

/// The numeral zero-padded on the left to at least three characters.
pub open spec fn spec_pad3(n: int) -> Seq<char>
    recommends
        n >= 0,
{
    if n < 10 {
        seq!['0', '0', spec_digit(n)]
    } else if n < 100 {
        seq!['0'] + spec_dec(n)
    } else {
        spec_dec(n)
    }
}

/// The value of a decimal digit character; any non-digit maps to 10.
pub open spec fn digit_val(c: char) -> int {
    if c == '0' {
        0
    } else if c == '1' {
        1
    } else if c == '2' {
        2
    } else if c == '3' {
        3
    } else if c == '4' {
        4
    } else if c == '5' {
        5
    } else if c == '6' {
        6
    } else if c == '7' {
        7
    } else if c == '8' {
        8
    } else if c == '9' {
        9
    } else {
        10
    }
}

/// Whether a character is a decimal digit.
pub open spec fn is_digit(c: char) -> bool {
    digit_val(c) < 10
}

/// Whether every character of a sequence is a decimal digit.
pub open spec fn all_digits(s: Seq<char>) -> bool {
    forall|i: int| 0 <= i < s.len() ==> is_digit(#[trigger] s[i])
}

/// The non-negative integer denoted by a sequence of decimal digits,
/// most significant digit first.
pub open spec fn dec_val(s: Seq<char>) -> int
    recommends
        all_digits(s),
    decreases s.len(),
{
    if s.len() == 0 {
        0
    } else {
        dec_val(s.drop_last()) * 10 + digit_val(s.last())
    }
}

/// Rendering a number and reading the digits back recovers the number:
/// `dec_val` inverts `spec_dec`. The numeral is non-empty, consists of
/// digits only, and starts with a non-zero digit unless the number is zero.
pub proof fn lemma_dec_val_of_spec_dec(n: int)
    requires
        n >= 0,
    ensures
        dec_val(spec_dec(n)) == n,
        all_digits(spec_dec(n)),
        spec_dec(n).len() >= 1,
    decreases n,
{
    reveal_with_fuel(dec_val, 5);
    if n < 10 {
        assert(spec_dec(n) =~= seq![spec_digit(n)]);
        assert(spec_dec(n).drop_last() =~= Seq::<char>::empty());
    } else {
        lemma_dec_val_of_spec_dec(n / 10);
        let s = spec_dec(n);
        assert(s =~= spec_dec(n / 10).push(spec_digit(n % 10)));
        assert(s.drop_last() =~= spec_dec(n / 10));
        assert(s.last() == spec_digit(n % 10));
        assert(digit_val(spec_digit(n % 10)) == n % 10);
        assert(dec_val(s) == (n / 10) * 10 + n % 10);
        assert((n / 10) * 10 + n % 10 == n) by (nonlinear_arith)
            requires n >= 0;
        assert(forall|i: int| 0 <= i < s.len() ==> is_digit(#[trigger] s[i]));
    }
}

/// A numeral of a number below one hundred has at most two characters,
/// and exactly two when the number is at least ten.
pub proof fn lemma_spec_dec_len2(n: int)
    requires
        10 <= n < 100,
    ensures
        spec_dec(n).len() == 2,
{
    assert(spec_dec(n) =~= spec_dec(n / 10).push(spec_digit(n % 10)));
    assert(spec_dec(n / 10).len() == 1);
}

/// A numeral of a number in the hundreds has exactly three characters.
pub proof fn lemma_spec_dec_len3(n: int)
    requires
        100 <= n < 1000,
    ensures
        spec_dec(n).len() == 3,
{
    assert(spec_dec(n) =~= spec_dec(n / 10).push(spec_digit(n % 10)));
    lemma_spec_dec_len2(n / 10);
}

/// A leading zero does not change the value a digit string denotes.
pub proof fn lemma_dec_val_leading_zero(s: Seq<char>)
    ensures
        dec_val(seq!['0'] + s) == dec_val(s),
    decreases s.len(),
{
    reveal_with_fuel(dec_val, 5);
    let z = seq!['0'] + s;
    if s.len() == 0 {
        assert(z =~= seq!['0']);
        assert(z.drop_last() =~= Seq::<char>::empty());
    } else {
        assert(z.drop_last() =~= seq!['0'] + s.drop_last());
        assert(z.last() == s.last());
        lemma_dec_val_leading_zero(s.drop_last());
    }
}

/// The two-character padded numeral denotes the number itself.
pub proof fn lemma_dec_val_of_spec_pad2(n: int)
    requires
        0 <= n,
    ensures
        dec_val(spec_pad2(n)) == n,
        all_digits(spec_pad2(n)),
        spec_pad2(n).len() >= 2,
        n < 100 ==> spec_pad2(n).len() == 2,
{
    reveal_with_fuel(dec_val, 5);
    if n < 10 {
        let s = spec_pad2(n);
        assert(s =~= seq!['0', spec_digit(n)]);
        assert(s.drop_last() =~= seq!['0']);
        assert(seq!['0'].drop_last() =~= Seq::<char>::empty());
        assert(dec_val(s) == digit_val(spec_digit(n)));
    } else {
        lemma_dec_val_of_spec_dec(n);
        if n < 100 {
            lemma_spec_dec_len2(n);
        } else {
            assert(spec_dec(n) =~= spec_dec(n / 10).push(spec_digit(n % 10)));
            lemma_dec_val_of_spec_dec(n / 10);
        }
    }
}

/// The three-character padded numeral denotes the number itself.
pub proof fn lemma_dec_val_of_spec_pad3(n: int)
    requires
        0 <= n < 1000,
    ensures
        dec_val(spec_pad3(n)) == n,
        all_digits(spec_pad3(n)),
        spec_pad3(n).len() == 3,
{
    reveal_with_fuel(dec_val, 5);
    if n < 10 {
        let s = spec_pad3(n);
        assert(s =~= seq!['0', '0', spec_digit(n)]);
        assert(s.drop_last() =~= seq!['0', '0']);
        assert(seq!['0', '0'].drop_last() =~= seq!['0']);
        assert(seq!['0'].drop_last() =~= Seq::<char>::empty());
        assert(dec_val(s) == digit_val(spec_digit(n)));
    } else if n < 100 {
        lemma_dec_val_of_spec_dec(n);
        lemma_spec_dec_len2(n);
        lemma_dec_val_leading_zero(spec_dec(n));
    } else {
        lemma_dec_val_of_spec_dec(n);
        lemma_spec_dec_len3(n);
    }
}

/// A digit string never denotes a negative value.
pub proof fn lemma_dec_val_nonneg(s: Seq<char>)
    requires
        all_digits(s),
    ensures
        dec_val(s) >= 0,
    decreases s.len(),
{
    if s.len() > 0 {
        assert(all_digits(s.drop_last())) by {
            assert(forall|i: int|
                0 <= i < s.len() - 1 ==> (#[trigger] s.drop_last()[i]) == s[i]);
        }
        lemma_dec_val_nonneg(s.drop_last());
        assert(digit_val(s.last()) >= 0);
        assert(dec_val(s.drop_last()) * 10 >= 0) by (nonlinear_arith)
            requires dec_val(s.drop_last()) >= 0;
    }
}

/// Reading one more digit multiplies the value read so far by ten and adds
/// the digit.
pub proof fn lemma_dec_val_take_step(s: Seq<char>, k: int)
    requires
        0 <= k < s.len(),
    ensures
        dec_val(s.take(k + 1)) == dec_val(s.take(k)) * 10 + digit_val(s[k]),
{
    assert(s.take(k + 1).drop_last() =~= s.take(k));
    assert(s.take(k + 1).last() == s[k]);
}

/// The value denoted by a digit string only grows as more digits are read.
pub proof fn lemma_dec_val_take_mono(s: Seq<char>, k: int, j: int)
    requires
        all_digits(s),
        0 <= k <= j <= s.len(),
    ensures
        dec_val(s.take(j)) >= dec_val(s.take(k)),
    decreases j - k,
{
    if j > k {
        lemma_dec_val_take_mono(s, k, j - 1);
        lemma_dec_val_take_step(s, j - 1);
        assert(all_digits(s.take(j - 1))) by {
            assert(forall|i: int|
                0 <= i < j - 1 ==> (#[trigger] s.take(j - 1)[i]) == s[i]);
        }
        lemma_dec_val_nonneg(s.take(j - 1));
        assert(dec_val(s.take(j - 1)) * 10 >= dec_val(s.take(j - 1))) by (nonlinear_arith)
            requires dec_val(s.take(j - 1)) >= 0;
    }
}

/// The whole digit string denotes at least what any prefix denotes.
pub proof fn lemma_dec_val_prefix_le(s: Seq<char>, k: int)
    requires
        all_digits(s),
        0 <= k <= s.len(),
    ensures
        dec_val(s) >= dec_val(s.take(k)),
{
    lemma_dec_val_take_mono(s, k, s.len() as int);
    assert(s.take(s.len() as int) =~= s);
}

/// Appends the character of one decimal digit to a string.
pub fn append_digit(out: &mut String, d: u64)
    requires
        d < 10,
    ensures
        final(out)@ == old(out)@ + seq![spec_digit(d as int)],
{
    proof {
        reveal_strlit("0");
        reveal_strlit("1");
        reveal_strlit("2");
        reveal_strlit("3");
        reveal_strlit("4");
        reveal_strlit("5");
        reveal_strlit("6");
        reveal_strlit("7");
        reveal_strlit("8");
        reveal_strlit("9");
    }
    match d {
        0 => out.append("0"),
        1 => out.append("1"),
        2 => out.append("2"),
        3 => out.append("3"),
        4 => out.append("4"),
        5 => out.append("5"),
        6 => out.append("6"),
        7 => out.append("7"),
        8 => out.append("8"),
        _ => out.append("9"),
    }
    assert(final(out)@ =~= old(out)@ + seq![spec_digit(d as int)]);
}

/// Appends the decimal numeral of a number to a string, most significant
/// digit first.
pub fn append_dec(out: &mut String, n: u64)
    ensures
        final(out)@ == old(out)@ + spec_dec(n as int),
    decreases n,
{
    if n >= 10 {
        append_dec(out, n / 10);
        append_digit(out, n % 10);
        assert(final(out)@ =~= old(out)@ + spec_dec(n as int));
    } else {
        append_digit(out, n);
    }
}

/// Appends the two-character zero-padded numeral of a number.
pub fn append_pad2(out: &mut String, n: u64)
    ensures
        final(out)@ == old(out)@ + spec_pad2(n as int),
{
    if n < 10 {
        proof {
            reveal_strlit("0");
        }
        out.append("0");
        append_digit(out, n);
        assert(final(out)@ =~= old(out)@ + spec_pad2(n as int));
    } else {
        append_dec(out, n);
    }
}

/// Appends the three-character zero-padded numeral of a number.
pub fn append_pad3(out: &mut String, n: u64)
    ensures
        final(out)@ == old(out)@ + spec_pad3(n as int),
{
    if n < 10 {
        proof {
            reveal_strlit("00");
        }
        out.append("00");
        append_digit(out, n);
        assert(final(out)@ =~= old(out)@ + spec_pad3(n as int));
    } else if n < 100 {
        proof {
            reveal_strlit("0");
        }
        out.append("0");
        append_dec(out, n);
        assert(final(out)@ =~= old(out)@ + spec_pad3(n as int));
    } else {
        append_dec(out, n);
    }
}

/// The digit value of a character, or `None` when it is not a digit.
pub fn digit_of_char(c: char) -> (r: Option<u64>)
    ensures
        r matches Some(d) ==> d < 10 && digit_val(c) == d as int,
        r is None <==> !is_digit(c),
{
    match c {
        '0' => Some(0),
        '1' => Some(1),
        '2' => Some(2),
        '3' => Some(3),
        '4' => Some(4),
        '5' => Some(5),
        '6' => Some(6),
        '7' => Some(7),
        '8' => Some(8),
        '9' => Some(9),
        _ => None,
    }
}

} // verus!
