use vstd::prelude::*;
use vstd::string::*;

use crate::ast::TokenizeError;

verus! {

/// The character class the tokenizer treats as an ASCII decimal digit.
pub open spec fn is_digit(c: char) -> bool {
    48 <= c as u32 && c as u32 <= 57
}

/// Numeric value of a single decimal digit character.
pub open spec fn digit_val(c: char) -> nat {
    (c as u32 - 48) as nat
}

/// Numeric value of a run of decimal digit characters, most significant
/// digit first.
pub open spec fn digits_val(s: Seq<char>) -> nat
    decreases s.len(),
{
    if s.len() == 0 {
        0
    } else {
        digits_val(s.drop_last()) * 10 + digit_val(s.last())
    }
}

/// A digit run is worth at least as much as any of its prefixes.
pub proof fn lemma_digits_val_prefix(s: Seq<char>, i: int)
    requires
        0 <= i <= s.len(),
    ensures
        digits_val(s.take(i)) <= digits_val(s),
    decreases s.len() - i,
{
    if i < s.len() {
        assert(s.take(i + 1).drop_last() =~= s.take(i));
        assert(s.take(i + 1).last() == s[i]);
        assert(digits_val(s.take(i)) <= digits_val(s.take(i + 1)));
        lemma_digits_val_prefix(s, i + 1);
    } else {
        assert(s.take(i) =~= s);
    }
}

/// The decimal digit character for d < 10.
pub open spec fn digit_char(d: nat) -> char {
    if d == 0 {
        '0'
    } else if d == 1 {
        '1'
    } else if d == 2 {
        '2'
    } else if d == 3 {
        '3'
    } else if d == 4 {
        '4'
    } else if d == 5 {
        '5'
    } else if d == 6 {
        '6'
    } else if d == 7 {
        '7'
    } else if d == 8 {
        '8'
    } else {
        '9'
    }
}

/// Decimal digit characters of n, most significant first, no leading zeros.
pub open spec fn dec_rep(n: nat) -> Seq<char>
    decreases n,
{
    if n < 10 {
        seq![digit_char(n)]
    } else {
        dec_rep(n / 10).push(digit_char(n % 10))
    }
}

/// Decimal text of a 32-bit signed integer, with a leading minus sign when
/// negative, as std's formatting would print it.
pub open spec fn int_repr(n: int) -> Seq<char> {
    if n < 0 {
        seq!['-'] + dec_rep((-n) as nat)
    } else {
        dec_rep(n as nat)
    }
}

/// The one-character string slice for a decimal digit.
pub fn digit_str(d: u32) -> (r: &'static str)
    requires
        d < 10,
    ensures
        r@ == seq![digit_char(d as nat)],
{
    proof {
        reveal_strlit("0");
        reveal_strlit("1");
        reveal_strlit("2");
        reveal_strlit("3");
        reveal_strlit("4");
        reveal_strlit("5");
        reveal_strlit("6");
        reveal_strlit("7");
        reveal_strlit("8");
        reveal_strlit("9");
    }
    let r: &'static str = if d == 0 {
        "0"
    } else if d == 1 {
        "1"
    } else if d == 2 {
        "2"
    } else if d == 3 {
        "3"
    } else if d == 4 {
        "4"
    } else if d == 5 {
        "5"
    } else if d == 6 {
        "6"
    } else if d == 7 {
        "7"
    } else {
        "8"
    };
    let r = if d == 9 { "9" } else { r };
    proof {
        assert(r@ =~= seq![digit_char(d as nat)]);
    }
    r
}

/// Appends the decimal digits of n to out.
pub fn push_dec(n: u32, out: &mut String)
    ensures
        final(out)@ == old(out)@ + dec_rep(n as nat),
    decreases n,
{
    if n >= 10 {
        push_dec(n / 10, out);
        let s = digit_str(n % 10);
        out.append(s);
        proof {
            assert(out@ =~= old(out)@ + dec_rep(n as nat));
        }
    } else {
        let s = digit_str(n);
        out.append(s);
        proof {
            assert(out@ =~= old(out)@ + dec_rep(n as nat));
        }
    }
}

/// Decimal text of x.
pub fn int_text(x: i32) -> (r: String)
    ensures
        r@ == int_repr(x as int),
{
    let mut out = String::new();
    if x < 0 {
        proof {
            reveal_strlit("-");
        }
        out.append("-");
        let xi: i64 = x as i64;
        let neg: i64 = -xi;
        assert(0 <= neg < 0x1_0000_0000i64);
        let u: u32 = neg as u32;
        push_dec(u, &mut out);
        proof {
            assert("-"@ =~= seq!['-']);
            assert(out@ =~= int_repr(x as int));
        }
    } else {
        let u: u32 = x as u32;
        push_dec(u, &mut out);
        proof {
            assert(out@ =~= int_repr(x as int));
        }
    }
    out
}

/// Parses a run of ASCII decimal digit characters as a 32-bit signed
/// integer, reporting overflow past `i32::MAX` as an error.
pub fn parse_digits(s: &str) -> (r: Result<i32, TokenizeError>)
    requires
        forall|k: int| 0 <= k < s@.len() ==> is_digit(s@[k]),
    ensures
        match r {
            Ok(v) => digits_val(s@) <= i32::MAX && 0 <= v && v as nat == digits_val(s@),
            Err(e) => digits_val(s@) > i32::MAX && e == TokenizeError::IntegerOverflow,
        },
{
    let n = s.unicode_len();
    let mut acc: u64 = 0;
    let mut i: usize = 0;
    while i < n
        invariant
            n as nat == s@.len(),
            0 <= i <= n,
            forall|k: int| 0 <= k < s@.len() ==> is_digit(s@[k]),
            acc as nat == digits_val(s@.take(i as int)),
            acc <= 0x7fff_ffffu64,
        decreases n - i,
    {
        let c = s.get_char(i);
        assert(is_digit(s@[i as int]));
        let d: u32 = (c as u32) - 48;
        acc = acc * 10 + (d as u64);
        proof {
            assert(s@.take(i as int + 1).drop_last() =~= s@.take(i as int));
            assert(s@.take(i as int + 1).last() == s@[i as int]);
            assert(acc as nat == digits_val(s@.take(i as int + 1)));
        }
        i = i + 1;
        if acc > 0x7fff_ffff {
            proof {
                lemma_digits_val_prefix(s@, i as int);
            }
            return Err(TokenizeError::IntegerOverflow);
        }
    }
    proof {
        assert(s@.take(n as int) =~= s@);
    }
    Ok(acc as i32)
}

} // verus!
