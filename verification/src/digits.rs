//! Decimal digit strings: the truncated integer part of a shares value, its
//! numeric value, and rendering an amount back to a decimal string.
use vstd::prelude::*;

verus! {

use crate::DropError;

/// True of the ten ASCII decimal digits.
pub open spec fn is_digit(c: char) -> bool {
    48 <= c as u32 && c as u32 <= 57
}

/// The numeric value of one decimal digit.
pub open spec fn digit_val(c: char) -> nat
    recommends
        is_digit(c),
{
    (c as u32 - 48) as nat
}

/// Every character of `s` is a decimal digit.
pub open spec fn all_digits(s: Seq<char>) -> bool {
    forall|i: int| 0 <= i < s.len() ==> is_digit(#[trigger] s[i])
}

/// The index of the first `.` in `s`, or `s.len()` if there is none.
pub open spec fn dot_pos(s: Seq<char>) -> int
    decreases s.len(),
{
    if s.len() == 0 {
        0
    } else if s[0] == '.' {
        0
    } else {
        1 + dot_pos(s.drop_first())
    }
}

/// Everything before the first `.` of `s`; all of `s` when it has no `.`.
pub open spec fn int_part(s: Seq<char>) -> Seq<char> {
    s.take(dot_pos(s))
}

/// The number a digit string denotes in base ten.
pub open spec fn dec_val(s: Seq<char>) -> nat
    recommends
        all_digits(s),
    decreases s.len(),
{
    if s.len() == 0 {
        0
    } else {
        dec_val(s.drop_last()) * 10 + digit_val(s.last())
    }
}

/// A shares string is usable when its integer part is a nonempty run of
/// decimal digits.
pub open spec fn valid_shares(s: Seq<char>) -> bool {
    int_part(s).len() > 0 && all_digits(int_part(s))
}

/// `dot_pos` is the first dot: in range, no dot before it, a dot at it when
/// it is not the end.
pub proof fn lemma_dot_pos(s: Seq<char>)
    ensures
        0 <= dot_pos(s) <= s.len(),
        forall|j: int| 0 <= j < dot_pos(s) ==> #[trigger] s[j] != '.',
        dot_pos(s) < s.len() ==> s[dot_pos(s)] == '.',
    decreases s.len(),
{
    if s.len() == 0 {
    } else if s[0] == '.' {
    } else {
        lemma_dot_pos(s.drop_first());
        assert forall|j: int| 0 <= j < dot_pos(s) implies #[trigger] s[j] != '.' by {
            if j > 0 {
                assert(s.drop_first()[j - 1] == s[j]);
            }
        }
        if dot_pos(s) < s.len() {
            assert(s.drop_first()[dot_pos(s) - 1] == s[dot_pos(s)]);
        }
    }
}

/// A digit string's value only grows as digits are appended: the value of a
/// prefix is at most the value of the whole.
pub proof fn lemma_dec_val_prefix(s: Seq<char>, i: int)
    requires
        0 <= i <= s.len(),
        all_digits(s),
    ensures
        dec_val(s.take(i)) <= dec_val(s),
    decreases s.len() - i,
{
    if i < s.len() {
        assert(s.take(i + 1).drop_last() =~= s.take(i));
        assert(s.take(i + 1).last() == s[i]);
        assert(dec_val(s.take(i)) <= dec_val(s.take(i)) * 10 + digit_val(s[i]));
        lemma_dec_val_prefix(s, i + 1);
    } else {
        assert(s.take(i) =~= s);
    }
}

/// Any position with a dot, and only non-dots before it, is `dot_pos`.
pub proof fn lemma_dot_pos_unique(s: Seq<char>, i: int)
    requires
        0 <= i <= s.len(),
        forall|j: int| 0 <= j < i ==> #[trigger] s[j] != '.',
        i < s.len() ==> s[i] == '.',
    ensures
        dot_pos(s) == i,
    decreases s.len(),
{
    if s.len() == 0 {
    } else if s[0] == '.' {
        assert(i == 0);
    } else {
        assert(i != 0);
        assert forall|j: int| 0 <= j < i - 1 implies #[trigger] s.drop_first()[j] != '.' by {
            assert(s.drop_first()[j] == s[j + 1]);
        }
        if i - 1 < s.drop_first().len() {
            assert(s.drop_first()[i - 1] == s[i]);
        }
        lemma_dot_pos_unique(s.drop_first(), i - 1);
    }
}

/// The digit character for one base-ten digit.
pub open spec fn digit_char(d: nat) -> char
    recommends
        d < 10,
{
    if d == 0 {
        '0'
    } else if d == 1 {
        '1'
    } else if d == 2 {
        '2'
    } else if d == 3 {
        '3'
    } else if d == 4 {
        '4'
    } else if d == 5 {
        '5'
    } else if d == 6 {
        '6'
    } else if d == 7 {
        '7'
    } else if d == 8 {
        '8'
    } else {
        '9'
    }
}

/// The base-ten rendering of `n`: most significant digit first, no leading
/// zero except for `n == 0` itself.
pub open spec fn dec_str(n: nat) -> Seq<char>
    decreases n,
{
    if n < 10 {
        seq![digit_char(n)]
    } else {
        dec_str(n / 10).push(digit_char(n % 10))
    }
}

/// Rendering is faithful: the rendered string is a nonempty run of digits
/// that reads back as the same number.
pub proof fn lemma_dec_str_reads_back(n: nat)
    ensures
        dec_str(n).len() >= 1,
        all_digits(dec_str(n)),
        dec_val(dec_str(n)) == n,
    decreases n,
{
    if n < 10 {
        assert(dec_str(n) == seq![digit_char(n)]);
        assert(dec_str(n).len() == 1);
        assert(dec_str(n).last() == digit_char(n));
        assert(dec_str(n).drop_last() =~= Seq::<char>::empty());
        assert(dec_val(Seq::<char>::empty()) == 0);
        assert(dec_val(dec_str(n)) == digit_val(digit_char(n)));
    } else {
        lemma_dec_str_reads_back(n / 10);
        let rest = dec_str(n / 10);
        let whole = rest.push(digit_char(n % 10));
        assert(dec_str(n) == whole);
        assert(whole.drop_last() =~= rest);
        assert(whole.last() == digit_char(n % 10));
        assert(dec_val(whole) == dec_val(rest) * 10 + digit_val(digit_char(n % 10)));
        assert forall|i: int| 0 <= i < whole.len() implies is_digit(#[trigger] whole[i]) by {
            if i < rest.len() {
                assert(whole[i] == rest[i]);
            }
        }
    }
}

/// The one-character string for one base-ten digit.
fn digit_str(d: u128) -> (r: &'static str)
    requires
        d < 10,
    ensures
        r@ == seq![digit_char(d as nat)],
{
    if d == 0 {
        proof {
            reveal_strlit("0");
            assert("0"@ =~= seq![digit_char(0)]);
        }
        "0"
    } else if d == 1 {
        proof {
            reveal_strlit("1");
            assert("1"@ =~= seq![digit_char(1)]);
        }
        "1"
    } else if d == 2 {
        proof {
            reveal_strlit("2");
            assert("2"@ =~= seq![digit_char(2)]);
        }
        "2"
    } else if d == 3 {
        proof {
            reveal_strlit("3");
            assert("3"@ =~= seq![digit_char(3)]);
        }
        "3"
    } else if d == 4 {
        proof {
            reveal_strlit("4");
            assert("4"@ =~= seq![digit_char(4)]);
        }
        "4"
    } else if d == 5 {
        proof {
            reveal_strlit("5");
            assert("5"@ =~= seq![digit_char(5)]);
        }
        "5"
    } else if d == 6 {
        proof {
            reveal_strlit("6");
            assert("6"@ =~= seq![digit_char(6)]);
        }
        "6"
    } else if d == 7 {
        proof {
            reveal_strlit("7");
            assert("7"@ =~= seq![digit_char(7)]);
        }
        "7"
    } else if d == 8 {
        proof {
            reveal_strlit("8");
            assert("8"@ =~= seq![digit_char(8)]);
        }
        "8"
    } else {
        proof {
            reveal_strlit("9");
            assert("9"@ =~= seq![digit_char(9)]);
        }
        "9"
    }
}

/// Renders an amount as its base-ten string, for a report row.
pub fn amount_string(n: u128) -> (r: String)
    ensures
        r@ == dec_str(n as nat),
    decreases n,
{
    if n < 10 {
        digit_str(n).to_owned()
    } else {
        let mut out = amount_string(n / 10);
        out.append(digit_str(n % 10));
        proof {
            assert(out@ =~= dec_str((n / 10) as nat).push(digit_char((n % 10) as nat)));
        }
        out
    }
}

/// Parses a shares string as a whole number of units: everything before the
/// first `.` is read as a base-ten integer (truncation toward zero, never
/// rounding); any other shape, and a value beyond `u128`, is a schema error.
pub fn parse_shares(s: &str) -> (r: Result<u128, DropError>)
    ensures
        r is Ok <==> valid_shares(s@) && dec_val(int_part(s@)) <= u128::MAX,
        r matches Ok(v) ==> v as nat == dec_val(int_part(s@)),
        r is Err ==> r == Err::<u128, DropError>(DropError::Schema),
{
    let n = s.unicode_len();
    let mut i: usize = 0;
    let mut val: u128 = 0;
    while i < n
        invariant
            i <= n,
            n == s@.len(),
            forall|j: int| 0 <= j < i ==> #[trigger] s@[j] != '.' && is_digit(s@[j]),
            val as nat == dec_val(s@.take(i as int)),
        decreases n - i,
    {
        let c = s.get_char(i);
        let u = c as u32;
        if u == 46 {
            // A dot: the integer part ends here.
            proof {
                lemma_dot_pos_unique(s@, i as int);
            }
            if i == 0 {
                return Err(DropError::Schema);
            }
            return Ok(val);
        }
        if u < 48 || 57 < u {
            // Neither dot nor digit: the integer part holds this character.
            proof {
                lemma_dot_pos(s@);
                if dot_pos(s@) <= i {
                    assert(s@[dot_pos(s@)] != '.');
                }
                assert(int_part(s@)[i as int] == s@[i as int]);
            }
            return Err(DropError::Schema);
        }
        let d: u128 = (u - 48) as u128;
        proof {
            assert(s@.take(i + 1).drop_last() =~= s@.take(i as int));
            assert(s@.take(i + 1).last() == s@[i as int]);
        }
        let stepped = match val.checked_mul(10) {
            Some(m) => m.checked_add(d),
            None => None,
        };
        match stepped {
            Some(v) => {
                val = v;
            },
            None => {
                // The integer part does not fit in a u128.
                proof {
                    assert(dec_val(s@.take(i + 1)) > u128::MAX);
                    if valid_shares(s@) {
                        lemma_dot_pos(s@);
                        if dot_pos(s@) <= i {
                            assert(s@[dot_pos(s@)] != '.');
                        }
                        assert(int_part(s@).take(i + 1) =~= s@.take(i + 1));
                        lemma_dec_val_prefix(int_part(s@), i + 1);
                    }
                }
                return Err(DropError::Schema);
            },
        }
        i = i + 1;
    }
    proof {
        lemma_dot_pos_unique(s@, n as int);
        assert(s@.take(n as int) =~= s@);
    }
    if n == 0 {
        return Err(DropError::Schema);
    }
    Ok(val)
}

} // verus!
