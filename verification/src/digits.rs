//! Decimal rendering of numbers, with and without zero padding (what the
//! formats `{}`, `{:02}`, `{:03}` and `{:04}` produce for unsigned integers).
use vstd::prelude::*;
use vstd::string::*;
use crate::text::push_char;

verus! {

/// The character of a decimal digit.
pub open spec fn digit_char(d: nat) -> char {
    if d == 0 {
        '0'
    } else if d == 1 {
        '1'
    } else if d == 2 {
        '2'
    } else if d == 3 {
        '3'
    } else if d == 4 {
        '4'
    } else if d == 5 {
        '5'
    } else if d == 6 {
        '6'
    } else if d == 7 {
        '7'
    } else if d == 8 {
        '8'
    } else {
        '9'
    }
}

/// The decimal digits of `n`, most significant first, without leading zeros
/// (a single `0` for zero).
pub open spec fn decimal(n: nat) -> Seq<char>
    decreases n,
{
    if n < 10 {
        seq![digit_char(n)]
    } else {
        decimal(n / 10).push(digit_char(n % 10))
    }
}

/// `n` in decimal, preceded by as many `0` as make it at least `width` long.
pub open spec fn zero_padded(n: nat, width: nat) -> Seq<char> {
    let digits = decimal(n);
    if digits.len() >= width {
        digits
    } else {
        Seq::new((width - digits.len()) as nat, |i: int| '0') + digits
    }
}

fn digit(d: u64) -> (c: char)
    requires
        d < 10,
    ensures
        c == digit_char(d as nat),
{
    if d == 0 {
        '0'
    } else if d == 1 {
        '1'
    } else if d == 2 {
        '2'
    } else if d == 3 {
        '3'
    } else if d == 4 {
        '4'
    } else if d == 5 {
        '5'
    } else if d == 6 {
        '6'
    } else if d == 7 {
        '7'
    } else if d == 8 {
        '8'
    } else {
        '9'
    }
}

/// Appends `n` in decimal.
pub fn push_decimal(s: &mut String, n: u64)
    ensures
        final(s)@ == old(s)@ + decimal(n as nat),
    decreases n,
{
    if n >= 10 {
        push_decimal(s, n / 10);
    }
    push_char(s, digit(n % 10));
    proof {
        if n >= 10 {
            assert(old(s)@ + decimal(n as nat) =~= old(s)@ + decimal((n / 10) as nat) + seq![
                digit_char((n % 10) as nat),
            ]);
        } else {
            assert(old(s)@ + decimal(n as nat) =~= old(s)@.push(digit_char((n % 10) as nat)));
        }
    }
}

/// The number of decimal digits of `n`.
pub fn decimal_len(n: u64) -> (len: usize)
    ensures
        len == decimal(n as nat).len(),
        1 <= len <= 20,
    decreases n,
{
    if n >= 10 {
        let l = decimal_len(n / 10);
        assert(l <= 19) by {
            reveal_with_fuel(pow10, 20);
            lemma_decimal_len_bound((n / 10) as nat, 19);
        }
        l + 1
    } else {
        1
    }
}

/// Ten to the power `k`.
pub open spec fn pow10(k: nat) -> nat
    decreases k,
{
    if k == 0 {
        1
    } else {
        10 * pow10((k - 1) as nat)
    }
}

/// A number below `10^k` has at most `k` digits.
pub proof fn lemma_decimal_len_bound(n: nat, k: nat)
    requires
        1 <= k,
        n < pow10(k),
    ensures
        decimal(n).len() <= k,
    decreases k,
{
    if n >= 10 {
        assert(k >= 2) by {
            if k == 1 {
                assert(pow10(1) == 10) by {
                    reveal_with_fuel(pow10, 2);
                }
            }
        }
        lemma_decimal_len_bound(n / 10, (k - 1) as nat);
    }
}

/// Every character is a decimal digit.
pub open spec fn all_digits(s: Seq<char>) -> bool {
    forall|i: int| 0 <= i < s.len() ==> '0' <= #[trigger] s[i] <= '9'
}

/// The decimal form of a number is a non-empty run of digits.
pub proof fn lemma_decimal_digits(n: nat)
    ensures
        all_digits(decimal(n)),
        decimal(n).len() >= 1,
    decreases n,
{
    if n >= 10 {
        lemma_decimal_digits(n / 10);
    }
}

/// A number has one decimal form: two numbers with the same digits are equal.
pub proof fn lemma_decimal_injective(n: nat, m: nat)
    requires
        decimal(n) == decimal(m),
    ensures
        n == m,
    decreases n,
{
    lemma_decimal_digits(n / 10);
    lemma_decimal_digits(m / 10);
    if n < 10 && m < 10 {
        assert(decimal(n)[0] == digit_char(n));
        assert(decimal(m)[0] == digit_char(m));
    } else if n >= 10 && m >= 10 {
        assert(decimal(n).last() == digit_char(n % 10));
        assert(decimal(m).last() == digit_char(m % 10));
        assert(decimal(n).drop_last() =~= decimal(n / 10));
        assert(decimal(m).drop_last() =~= decimal(m / 10));
        lemma_decimal_injective(n / 10, m / 10);
    } else if n < 10 {
        assert(decimal(n).len() == 1);
        assert(decimal(m).len() == decimal(m / 10).len() + 1);
    } else {
        assert(decimal(m).len() == 1);
        assert(decimal(n).len() == decimal(n / 10).len() + 1);
    }
}

/// The value of a decimal digit character.
pub open spec fn digit_value(c: char) -> int {
    c as int - '0' as int
}

/// The number that a run of decimal digits writes, most significant first.
pub open spec fn digits_value(s: Seq<char>) -> int
    decreases s.len(),
{
    if s.len() == 0 {
        0
    } else {
        digits_value(s.drop_last()) * 10 + digit_value(s.last())
    }
}

/// The character of a digit is a digit and has that value.
pub proof fn lemma_digit_char_value(d: nat)
    requires
        d < 10,
    ensures
        digit_value(digit_char(d)) == d,
        '0' <= digit_char(d) <= '9',
{
}

/// The decimal form of `n` writes `n`.
pub proof fn lemma_decimal_value(n: nat)
    ensures
        digits_value(decimal(n)) == n,
    decreases n,
{
    if n < 10 {
        lemma_digit_char_value(n);
        assert(decimal(n).drop_last() =~= Seq::<char>::empty());
        assert(digits_value(Seq::<char>::empty()) == 0);
        assert(decimal(n).last() == digit_char(n));
    } else {
        lemma_decimal_value(n / 10);
        lemma_digit_char_value(n % 10);
        assert(decimal(n).drop_last() =~= decimal(n / 10));
        assert(decimal(n).last() == digit_char(n % 10));
        assert((n / 10) * 10 + n % 10 == n);
    }
}

/// Leading zeros do not change the number that digits write.
pub proof fn lemma_leading_zeros_value(k: nat, d: Seq<char>)
    ensures
        digits_value(Seq::new(k, |i: int| '0') + d) == digits_value(d),
    decreases d.len() + k,
{
    let z = Seq::new(k, |i: int| '0');
    if d.len() == 0 {
        assert(z + d =~= z);
        if k > 0 {
            lemma_leading_zeros_value((k - 1) as nat, d);
            assert(Seq::new((k - 1) as nat, |i: int| '0') + d =~= z.drop_last());
        }
    } else {
        lemma_leading_zeros_value(k, d.drop_last());
        assert((z + d).drop_last() =~= z + d.drop_last());
    }
}

/// `n` zero-padded to `width` is a run of digits that writes `n`, exactly
/// `width` long when `n` has at most `width` digits.
pub proof fn lemma_zero_padded_value(n: nat, width: nat)
    ensures
        digits_value(zero_padded(n, width)) == n,
        all_digits(zero_padded(n, width)),
        width >= 1 && n < pow10(width) ==> zero_padded(n, width).len() == width,
{
    lemma_decimal_value(n);
    lemma_decimal_digits(n);
    let d = decimal(n);
    if d.len() < width {
        lemma_leading_zeros_value((width - d.len()) as nat, d);
        let z = Seq::new((width - d.len()) as nat, |i: int| '0');
        assert forall|i: int| 0 <= i < (z + d).len() implies '0' <= #[trigger] (z + d)[i] <= '9' by {
            if i >= z.len() {
                assert((z + d)[i] == d[i - z.len()]);
            }
        }
    }
    if width >= 1 && n < pow10(width) {
        lemma_decimal_len_bound(n, width);
    }
}

/// Appends `n` in decimal, zero-padded to at least `width` characters.
pub fn push_zero_padded(s: &mut String, n: u64, width: usize)
    ensures
        final(s)@ == old(s)@ + zero_padded(n as nat, width as nat),
{
    let len = decimal_len(n);
    let ghost start = s@;
    if len < width {
        let mut k: usize = 0;
        while k < width - len
            invariant
                k <= width - len,
                s@ == start + Seq::new(k as nat, |i: int| '0'),
            decreases width - len - k,
        {
            push_char(s, '0');
            k = k + 1;
            assert(s@ =~= start + Seq::new(k as nat, |i: int| '0'));
        }
    }
    let ghost mid = s@;
    push_decimal(s, n);
    assert(s@ =~= start + zero_padded(n as nat, width as nat));
}

/// `n` in decimal.
pub fn decimal_string(n: u64) -> (s: String)
    ensures
        s@ == decimal(n as nat),
{
    let mut s = String::new();
    push_decimal(&mut s, n);
    assert(s@ =~= decimal(n as nat));
    s
}

} // verus!
