//! Decimal text for unsigned numbers: the snapshot header stores an entry
//! count as decimal digits, and `u32` values serialize the same way. The
//! codec is exact: printing then parsing gives the number back, and parsing
//! accepts precisely nonempty all-digit strings whose value fits.

use vstd::prelude::*;

verus! {

/// Whether `c` is a decimal digit.
pub open spec fn is_digit(c: char) -> bool {
    48 <= c as u32 <= 57
}

/// The numeric value of a digit character (0 for a non-digit).
pub open spec fn digit_val(c: char) -> nat {
    if is_digit(c) {
        (c as u32 - 48) as nat
    } else {
        0
    }
}

/// The digit character for a value below ten.
pub open spec fn digit_char_spec(d: nat) -> char {
    if d == 0 {
        '0'
    } else if d == 1 {
        '1'
    } else if d == 2 {
        '2'
    } else if d == 3 {
        '3'
    } else if d == 4 {
        '4'
    } else if d == 5 {
        '5'
    } else if d == 6 {
        '6'
    } else if d == 7 {
        '7'
    } else if d == 8 {
        '8'
    } else {
        '9'
    }
}

/// The decimal digits of `n`, most significant first, no sign and no leading
/// zero except for zero itself.
pub open spec fn dec_digits(n: nat) -> Seq<char>
    decreases n,
{
    if n < 10 {
        seq![digit_char_spec(n)]
    } else {
        dec_digits(n / 10).push(digit_char_spec(n % 10))
    }
}

/// Whether `s` is a nonempty run of decimal digits.
pub open spec fn is_dec(s: Seq<char>) -> bool {
    s.len() > 0 && forall|i: int| 0 <= i < s.len() ==> is_digit(#[trigger] s[i])
}

/// The number the digit string `s` denotes.
pub open spec fn dec_val(s: Seq<char>) -> nat
    decreases s.len(),
{
    if s.len() == 0 {
        0
    } else {
        dec_val(s.drop_last()) * 10 + digit_val(s.last())
    }
}

/// Relies on String::push: appends exactly the given character.
#[verifier::external_body]
pub(crate) fn push_char(s: &mut String, c: char)
    ensures
        final(s)@ == old(s)@.push(c),
{
    s.push(c);
}

/// The digit character for a value below ten.
fn digit_char(d: usize) -> (c: char)
    requires
        d < 10,
    ensures
        c == digit_char_spec(d as nat),
{
    if d == 0 {
        '0'
    } else if d == 1 {
        '1'
    } else if d == 2 {
        '2'
    } else if d == 3 {
        '3'
    } else if d == 4 {
        '4'
    } else if d == 5 {
        '5'
    } else if d == 6 {
        '6'
    } else if d == 7 {
        '7'
    } else if d == 8 {
        '8'
    } else {
        '9'
    }
}

/// Prints `n` as decimal digits.
pub fn dec_string(n: usize) -> (s: String)
    ensures
        s@ == dec_digits(n as nat),
    decreases n,
{
    if n < 10 {
        let mut s = String::new();
        push_char(&mut s, digit_char(n));
        proof {
            assert(s@ =~= dec_digits(n as nat));
        }
        s
    } else {
        let mut s = dec_string(n / 10);
        push_char(&mut s, digit_char(n % 10));
        proof {
            assert(s@ =~= dec_digits(n as nat));
        }
        s
    }
}

/// A longer digit prefix never denotes a smaller number.
proof fn lemma_dec_val_prefix_le(s: Seq<char>, i: int, j: int)
    requires
        0 <= i <= j <= s.len(),
    ensures
        dec_val(s.take(i)) <= dec_val(s.take(j)),
    decreases j - i,
{
    if i < j {
        lemma_dec_val_prefix_le(s, i, j - 1);
        assert(s.take(j).drop_last() =~= s.take(j - 1));
        assert(s.take(j).len() == j);
        assert(dec_val(s.take(j)) == dec_val(s.take(j - 1)) * 10 + digit_val(s.take(j).last()));
    }
}

/// Parses a nonempty all-digit string into a `usize`; anything else — empty,
/// a stray character, or a value too large — is rejected.
pub fn parse_usize(s: &str) -> (r: Option<usize>)
    ensures
        r == (if is_dec(s@) && dec_val(s@) <= usize::MAX {
            Some(dec_val(s@) as usize)
        } else {
            None::<usize>
        }),
{
    let n = s.unicode_len();
    if n == 0 {
        return None;
    }
    let mut val: usize = 0;
    let mut i: usize = 0;
    while i < n
        invariant
            n == s@.len(),
            0 < n,
            i <= n,
            forall|j: int| 0 <= j < i ==> is_digit(#[trigger] s@[j]),
            val == dec_val(s@.take(i as int)),
        decreases n - i,
    {
        let c = s.get_char(i);
        let u = c as u32;
        if u < 48 || u > 57 {
            assert(!is_digit(s@[i as int]));
            return None;
        }
        let d = (u - 48) as usize;
        proof {
            assert(s@.take(i + 1).drop_last() =~= s@.take(i as int));
            assert(s@.take(i + 1).last() == s@[i as int]);
            assert(dec_val(s@.take(i + 1)) == dec_val(s@.take(i as int)) * 10 + d);
        }
        let big = match val.checked_mul(10) {
            Some(m) => m.checked_add(d),
            None => None,
        };
        match big {
            Some(next) => {
                val = next;
            },
            None => {
                proof {
                    assert(dec_val(s@.take(i + 1)) > usize::MAX);
                    lemma_dec_val_prefix_le(s@, i + 1, n as int);
                    assert(s@.take(n as int) =~= s@);
                }
                return None;
            },
        }
        i = i + 1;
    }
    proof {
        assert(s@.take(n as int) =~= s@);
    }
    Some(val)
}

/// Parses a nonempty all-digit string into a `u32`; anything else — empty, a
/// stray character, or a value too large — is rejected.
pub fn parse_u32(s: &str) -> (r: Option<u32>)
    ensures
        r == (if is_dec(s@) && dec_val(s@) <= u32::MAX {
            Some(dec_val(s@) as u32)
        } else {
            None::<u32>
        }),
{
    match parse_usize(s) {
        Some(v) => {
            if v <= u32::MAX as usize {
                Some(v as u32)
            } else {
                None
            }
        },
        None => None,
    }
}

/// A digit character round-trips through its value and is neither the entry
/// delimiter nor a line break.
proof fn lemma_digit_char_ok(d: nat)
    requires
        d < 10,
    ensures
        is_digit(digit_char_spec(d)),
        digit_val(digit_char_spec(d)) == d,
        digit_char_spec(d) != '|',
        digit_char_spec(d) != '\n',
{
}

/// Printing a number gives a digit string that parses back to it and
/// contains neither the entry delimiter nor a line break.
pub proof fn lemma_dec_digits_ok(n: nat)
    ensures
        is_dec(dec_digits(n)),
        dec_val(dec_digits(n)) == n,
        forall|i: int|
            0 <= i < dec_digits(n).len() ==> (#[trigger] dec_digits(n)[i]) != '|' && dec_digits(
                n,
            )[i] != '\n',
    decreases n,
{
    if n < 10 {
        lemma_digit_char_ok(n);
        let s = dec_digits(n);
        assert(s.len() == 1);
        assert(s.last() == digit_char_spec(n));
        assert(s.drop_last().len() == 0);
        assert(dec_val(s.drop_last()) == 0);
        assert(dec_val(s) == dec_val(s.drop_last()) * 10 + digit_val(s.last()));
    } else {
        lemma_dec_digits_ok(n / 10);
        lemma_digit_char_ok(n % 10);
        let p = dec_digits(n / 10);
        let r = dec_digits(n);
        assert(r == p.push(digit_char_spec(n % 10)));
        assert(r.drop_last() =~= p);
        assert(r.last() == digit_char_spec(n % 10));
        assert(dec_val(r) == dec_val(p) * 10 + (n % 10));
        assert(n / 10 * 10 + n % 10 == n);
        assert forall|i: int| 0 <= i < r.len() implies is_digit(#[trigger] r[i]) by {
            if i < p.len() {
                assert(r[i] == p[i]);
            }
        }
    }
}

} // verus!
