//! Decimal rendering and parsing for the external labels the solver sees.
//!
//! Symbolic names and integer constants are printed in decimal; model values
//! coming back from the solver are parsed from decimal. The round trip between
//! the two directions is proved below.

use vstd::prelude::*;

verus! {

/// The decimal digit character for a value below ten.
pub open spec fn digit_char(d: nat) -> char {
    if d == 0 {
        '0'
    } else if d == 1 {
        '1'
    } else if d == 2 {
        '2'
    } else if d == 3 {
        '3'
    } else if d == 4 {
        '4'
    } else if d == 5 {
        '5'
    } else if d == 6 {
        '6'
    } else if d == 7 {
        '7'
    } else if d == 8 {
        '8'
    } else {
        '9'
    }
}

/// Whether a character is a decimal digit.
pub open spec fn is_digit(c: char) -> bool {
    c == '0' || c == '1' || c == '2' || c == '3' || c == '4' || c == '5' || c == '6' || c == '7'
        || c == '8' || c == '9'
}

/// The numeric value of a decimal digit character.
pub open spec fn digit_val(c: char) -> nat {
    if c == '0' {
        0
    } else if c == '1' {
        1
    } else if c == '2' {
        2
    } else if c == '3' {
        3
    } else if c == '4' {
        4
    } else if c == '5' {
        5
    } else if c == '6' {
        6
    } else if c == '7' {
        7
    } else if c == '8' {
        8
    } else {
        9
    }
}

/// The canonical decimal rendering of a number: no sign, no leading zeros
/// (except for the single digit of zero itself).
pub open spec fn dec_digits(n: nat) -> Seq<char>
    decreases n,
{
    if n < 10 {
        seq![digit_char(n)]
    } else {
        dec_digits(n / 10).push(digit_char(n % 10))
    }
}

/// Whether every character of a sequence is a decimal digit.
pub open spec fn all_digits(s: Seq<char>) -> bool {
    forall|i: int| 0 <= i < s.len() ==> is_digit(#[trigger] s[i])
}

/// The number denoted by a sequence of decimal digits (most significant first).
pub open spec fn dec_value(s: Seq<char>) -> nat
    decreases s.len(),
{
    if s.len() == 0 {
        0
    } else {
        dec_value(s.drop_last()) * 10 + digit_val(s.last())
    }
}

/// Rendering a number and reading the digits back gives the number again.
pub proof fn lemma_dec_digits_value(n: nat)
    ensures
        dec_value(dec_digits(n)) == n,
        all_digits(dec_digits(n)),
        dec_digits(n).len() >= 1,
    decreases n,
{
    if n < 10 {
        let s = dec_digits(n);
        assert(s.len() == 1);
        assert(s.last() == digit_char(n));
        assert(s.drop_last() =~= Seq::<char>::empty());
        assert(dec_value(s.drop_last()) == 0);
        assert(dec_value(s) == digit_val(digit_char(n)));
    } else {
        lemma_dec_digits_value(n / 10);
        let s = dec_digits(n);
        assert(s.drop_last() =~= dec_digits(n / 10));
        assert(s.last() == digit_char(n % 10));
        assert(digit_val(digit_char(n % 10)) == n % 10);
        assert(dec_value(s) == (n / 10) * 10 + n % 10);
        assert(n == 10 * (n / 10) + n % 10) by {
            vstd::arithmetic::div_mod::lemma_fundamental_div_mod(n as int, 10);
        }
    }
}

/// A digit sequence denotes at least as much as any of its prefixes.
pub proof fn lemma_dec_value_take_mono(s: Seq<char>, j: int, k: int)
    requires
        0 <= j <= k <= s.len(),
    ensures
        dec_value(s.take(j)) <= dec_value(s.take(k)),
    decreases k - j,
{
    if j < k {
        lemma_dec_value_take_mono(s, j, k - 1);
        let t = s.take(k);
        assert(t.drop_last() =~= s.take(k - 1));
        assert(dec_value(s.take(k - 1)) * 10 >= dec_value(s.take(k - 1))) by {
            vstd::arithmetic::mul::lemma_mul_inequality(1, 10, dec_value(s.take(k - 1)) as int);
        }
    }
}

/// Appends the decimal rendering of `n` to `out`.
pub fn append_dec(out: &mut String, n: u128)
    ensures
        final(out)@ == old(out)@ + dec_digits(n as nat),
    decreases n,
{
    if n >= 10 {
        append_dec(out, n / 10);
    }
    let d = n % 10;
    proof {
        reveal_strlit("0");
        reveal_strlit("1");
        reveal_strlit("2");
        reveal_strlit("3");
        reveal_strlit("4");
        reveal_strlit("5");
        reveal_strlit("6");
        reveal_strlit("7");
        reveal_strlit("8");
        reveal_strlit("9");
    }
    if d == 0 {
        out.append("0");
    } else if d == 1 {
        out.append("1");
    } else if d == 2 {
        out.append("2");
    } else if d == 3 {
        out.append("3");
    } else if d == 4 {
        out.append("4");
    } else if d == 5 {
        out.append("5");
    } else if d == 6 {
        out.append("6");
    } else if d == 7 {
        out.append("7");
    } else if d == 8 {
        out.append("8");
    } else {
        out.append("9");
    }
    proof {
        if n < 10 {
            assert(final(out)@ =~= old(out)@ + dec_digits(n as nat));
        } else {
            assert(dec_digits(n as nat) == dec_digits((n as nat) / 10).push(
                digit_char((n as nat) % 10),
            ));
            assert(final(out)@ =~= old(out)@ + dec_digits(n as nat));
        }
    }
}

/// Parses the decimal number written in `s` between the character positions
/// `from` (inclusive) and `to` (exclusive). Returns `None` when the range is
/// empty, when some character in it is not a digit, or when the denoted value
/// does not fit in the result type.
pub fn parse_dec(s: &str, from: usize, to: usize) -> (r: Option<u128>)
    requires
        from <= to <= s@.len(),
    ensures
        match r {
            Some(v) => {
                &&& from < to
                &&& all_digits(s@.subrange(from as int, to as int))
                &&& v as nat == dec_value(s@.subrange(from as int, to as int))
            },
            None => {
                ||| from == to
                ||| !all_digits(s@.subrange(from as int, to as int))
                ||| dec_value(s@.subrange(from as int, to as int)) > u128::MAX
            },
        },
{
    if from == to {
        return None;
    }
    let ghost sub = s@.subrange(from as int, to as int);
    let mut acc: u128 = 0;
    let mut i: usize = from;
    while i < to
        invariant
            from <= i <= to <= s@.len(),
            sub == s@.subrange(from as int, to as int),
            all_digits(sub.take(i - from)),
            acc as nat == dec_value(sub.take(i - from)),
        decreases to - i,
    {
        let c = s.get_char(i);
        let d: u128 = if c == '0' {
            0
        } else if c == '1' {
            1
        } else if c == '2' {
            2
        } else if c == '3' {
            3
        } else if c == '4' {
            4
        } else if c == '5' {
            5
        } else if c == '6' {
            6
        } else if c == '7' {
            7
        } else if c == '8' {
            8
        } else if c == '9' {
            9
        } else {
            proof {
                assert(sub[i - from] == s@[i as int]);
                assert(!is_digit(sub[i - from]));
            }
            return None;
        };
        proof {
            assert(sub[i - from] == s@[i as int]);
            assert(is_digit(sub[i - from]));
            assert(digit_val(sub[i - from]) == d as nat);
            assert(sub.take(i - from + 1).drop_last() =~= sub.take(i - from));
            assert(sub.take(i - from + 1).last() == sub[i - from]);
        }
        let limit = (u128::MAX - d) / 10;
        if acc > limit {
            proof {
                assert(acc * 10 + d > u128::MAX) by {
                    vstd::arithmetic::div_mod::lemma_fundamental_div_mod(
                        (u128::MAX - d) as int,
                        10,
                    );
                    vstd::arithmetic::mul::lemma_mul_inequality(
                        limit as int + 1,
                        acc as int,
                        10,
                    );
                };
                assert(dec_value(sub.take(i - from + 1)) > u128::MAX);
                if all_digits(sub) {
                    lemma_dec_value_take_mono(sub, i - from + 1, sub.len() as int);
                    assert(sub.take(sub.len() as int) =~= sub);
                }
            }
            return None;
        }
        proof {
            assert(acc * 10 + d <= u128::MAX) by {
                vstd::arithmetic::div_mod::lemma_fundamental_div_mod((u128::MAX - d) as int, 10);
                vstd::arithmetic::mul::lemma_mul_inequality(acc as int, limit as int, 10);
            };
        }
        acc = acc * 10 + d;
        i = i + 1;
    }
    proof {
        assert(sub.take(to - from) =~= sub);
    }
    Some(acc)
}

} // verus!
