//! Writing numbers and columns.
use vstd::prelude::*;

verus! {

/// `String::push` of std: appends one character to the end of the string.
pub assume_specification [String::push](s: &mut String, c: char)
    ensures
        final(s)@ == old(s)@.push(c),
;

/// The character of a decimal digit.
pub open spec fn digit(d: nat) -> char {
    (d + '0' as nat) as char
}

/// A number in decimal, without leading zeros.
pub open spec fn decimal(n: nat) -> Seq<char>
    decreases n,
{
    if n < 10 {
        seq![digit(n)]
    } else {
        decimal(n / 10).push(digit(n % 10))
    }
}

/// A number in decimal, with a sign where it is negative.
pub open spec fn signed_decimal(n: int) -> Seq<char> {
    if n < 0 {
        seq!['-'] + decimal((-n) as nat)
    } else {
        decimal(n as nat)
    }
}

/// A number in decimal, of at least two digits.
pub open spec fn two_digits(n: nat) -> Seq<char> {
    if n < 10 {
        seq!['0'] + decimal(n)
    } else {
        decimal(n)
    }
}

/// `n` spaces.
pub open spec fn spaces(n: nat) -> Seq<char> {
    Seq::new(n, |i: int| ' ')
}

/// `s` filled up with spaces on its right to at least `width` characters.
pub open spec fn column(s: Seq<char>, width: nat) -> Seq<char> {
    if s.len() < width {
        s + spaces((width - s.len()) as nat)
    } else {
        s
    }
}

/// `part` stands in `whole`.
pub open spec fn holds(whole: Seq<char>, part: Seq<char>) -> bool {
    exists|i: int|
        0 <= i <= whole.len() - part.len() && #[trigger] whole.subrange(i, i + part.len()) == part
}

/// Appends a number in decimal.
pub fn push_decimal(out: &mut String, n: u64)
    ensures
        final(out)@ == old(out)@ + decimal(n as nat),
    decreases n,
{
    if n >= 10 {
        push_decimal(out, n / 10);
    }
    let d: u8 = (n % 10) as u8;
    out.push((d + 48u8) as char);
    proof {
        if n < 10 {
            assert(n % 10 == n);
        }
        assert(out@ =~= old(out)@ + decimal(n as nat));
    }
}

/// Appends a number in decimal, of at least two digits.
pub fn push_two_digits(out: &mut String, n: u64)
    ensures
        final(out)@ == old(out)@ + two_digits(n as nat),
{
    if n < 10 {
        out.push('0');
    }
    push_decimal(out, n);
    assert(out@ =~= old(out)@ + two_digits(n as nat));
}

/// A number in decimal, with a sign where it is negative.
pub fn signed_decimal_string(n: i32) -> (s: String)
    ensures
        s@ == signed_decimal(n as int),
{
    let mut s = String::new();
    let wide: i64 = n as i64;
    if wide < 0 {
        s.push('-');
        push_decimal(&mut s, (-wide) as u64);
    } else {
        push_decimal(&mut s, wide as u64);
    }
    assert(s@ =~= signed_decimal(n as int));
    s
}

/// Appends `s` as a column of at least `width` characters.
pub fn push_column(out: &mut String, s: &str, width: usize)
    ensures
        final(out)@ == old(out)@ + column(s@, width as nat),
{
    out.append(s);
    let mut n: usize = s.unicode_len();
    let ghost len: nat = s@.len();
    assert(out@ =~= old(out)@ + s@ + spaces(0));
    while n < width
        invariant
            len == s@.len(),
            len <= n,
            n <= width || n == len,
            out@ == old(out)@ + s@ + spaces((n - len) as nat),
        decreases width - n,
    {
        out.push(' ');
        n = n + 1;
        assert(out@ =~= old(out)@ + s@ + spaces((n - len) as nat));
    }
    assert(out@ =~= old(out)@ + column(s@, width as nat));
}

/// A number in decimal is made of digits, has no leading zero, and has the value
/// of the number. No other text is and has all that.
pub proof fn decimal_has_its_value(n: nat)
    ensures
        decimal(n).len() > 0,
        forall|i: int| 0 <= i < decimal(n).len() ==> '0' <= #[trigger] decimal(n)[i] <= '9',
        decimal(n).len() > 1 ==> decimal(n)[0] != '0',
        decimal(n).fold_left(0int, |v: int, c: char| 10 * v + (c as int - '0' as int)) == n,
    decreases n,
{
    let step = |v: int, c: char| 10 * v + (c as int - '0' as int);
    let s = decimal(n);
    reveal_with_fuel(Seq::fold_left, 2);
    if n < 10 {
        assert(s.drop_last() =~= Seq::empty());
    } else {
        decimal_has_its_value(n / 10);
        assert(s.drop_last() =~= decimal(n / 10));
        assert(s.last() == digit(n % 10));
        assert forall|i: int| 0 <= i < s.len() implies '0' <= #[trigger] s[i] <= '9' by {
            if i < s.len() - 1 {
                assert(s[i] == decimal(n / 10)[i]);
            }
        }
        assert(s[0] == decimal(n / 10)[0]);
        if decimal(n / 10).len() == 1 {
            lemma_decimal_of_several_digits(n);
        }
    }
}

proof fn lemma_decimal_of_several_digits(n: nat)
    requires
        n >= 10,
    ensures
        decimal(n)[0] != '0',
    decreases n,
{
    if n / 10 >= 10 {
        lemma_decimal_of_several_digits(n / 10);
    }
    assert(decimal(n / 10).len() > 0);
    assert(decimal(n)[0] == decimal(n / 10)[0]);
}

/// Below ten, a number is its one digit; below a hundred, its two.
pub proof fn short_decimals(n: nat)
    ensures
        n < 10 ==> decimal(n) == seq![(48 + n) as char],
        10 <= n < 100 ==> decimal(n) == seq![(48 + n / 10) as char, (48 + n % 10) as char],
        n < 100 ==> two_digits(n) == seq![(48 + n / 10) as char, (48 + n % 10) as char],
        n >= 100 ==> two_digits(n) == decimal(n),
{
    reveal_with_fuel(decimal, 3);
    if 10 <= n < 100 {
        assert(decimal(n) =~= seq![(48 + n / 10) as char, (48 + n % 10) as char]);
    }
    if n < 10 {
        assert(two_digits(n) =~= seq![(48 + n / 10) as char, (48 + n % 10) as char]);
    }
}

/// The sign of a negative number stands before the digits of its absolute value;
/// no other number has one.
pub proof fn sign_stands_before_the_digits(n: int)
    ensures
        n >= 0 ==> signed_decimal(n) == decimal(n as nat),
        n < 0 ==> signed_decimal(n).len() > 1 && signed_decimal(n)[0] == '-',
        n < 0 ==> signed_decimal(n).skip(1) == decimal((-n) as nat),
{
    if n < 0 {
        decimal_has_its_value((-n) as nat);
        assert(signed_decimal(n).skip(1) =~= decimal((-n) as nat));
    }
}

/// A column begins with its text, has nothing but spaces behind it, and is as
/// wide as asked for, or as its text where that is wider.
pub proof fn column_is_text_and_spaces(s: Seq<char>, width: nat)
    ensures
        column(s, width).len() == if s.len() < width { width } else { s.len() },
        column(s, width).take(s.len() as int) == s,
        forall|i: int| s.len() <= i < width ==> #[trigger] column(s, width)[i] == ' ',
{
    assert(column(s, width).take(s.len() as int) =~= s);
}

} // verus!
