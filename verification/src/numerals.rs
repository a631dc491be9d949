//! Decimal numerals: digit strings, their numeric values, and the canonical
//! decimal rendering of a number. Version components and build-metadata
//! counters are carried as such numerals.

use vstd::prelude::*;
use vstd::string::*;

verus! {

/// A decimal digit character.
pub open spec fn is_digit(c: char) -> bool {
    48 <= c as u32 && c as u32 <= 57
}

/// The numeric value of a digit character (zero for any other character).
pub open spec fn digit_val(c: char) -> nat {
    if is_digit(c) {
        (c as u32 - 48) as nat
    } else {
        0
    }
}

/// The digit character of a value below ten.
pub open spec fn digit_char(d: nat) -> char {
    if d == 0 {
        '0'
    } else if d == 1 {
        '1'
    } else if d == 2 {
        '2'
    } else if d == 3 {
        '3'
    } else if d == 4 {
        '4'
    } else if d == 5 {
        '5'
    } else if d == 6 {
        '6'
    } else if d == 7 {
        '7'
    } else if d == 8 {
        '8'
    } else {
        '9'
    }
}

/// Every character of the string is a decimal digit.
pub open spec fn all_digits(s: Seq<char>) -> bool {
    forall|i: int| 0 <= i < s.len() ==> is_digit(#[trigger] s[i])
}

/// A canonical numeral: non-empty, digits only, and no leading zero.
pub open spec fn is_numeral(s: Seq<char>) -> bool {
    &&& s.len() > 0
    &&& all_digits(s)
    &&& (s[0] != '0' || s.len() == 1)
}

/// The numeric value of a digit string.
pub open spec fn digits_val(s: Seq<char>) -> nat
    decreases s.len(),
{
    if s.len() == 0 {
        0
    } else {
        digits_val(s.drop_last()) * 10 + digit_val(s.last())
    }
}

/// Ten to the n-th power.
pub open spec fn pow10(n: nat) -> nat
    decreases n,
{
    if n == 0 {
        1
    } else {
        10 * pow10((n - 1) as nat)
    }
}

/// The canonical decimal rendering of a natural number.
pub open spec fn render_nat(n: nat) -> Seq<char>
    decreases n,
{
    if n < 10 {
        seq![digit_char(n)]
    } else {
        render_nat(n / 10).push(digit_char(n % 10))
    }
}

/// The codes of the ten digit characters.
proof fn lemma_digit_codes()
    ensures
        '0' as u32 == 48 && '1' as u32 == 49 && '2' as u32 == 50 && '3' as u32 == 51 && '4'
            as u32 == 52 && '5' as u32 == 53 && '6' as u32 == 54 && '7' as u32 == 55 && '8'
            as u32 == 56 && '9' as u32 == 57,
{
}

/// A digit character is the digit character of its own value.
proof fn lemma_digit_char_val(c: char)
    requires
        is_digit(c),
    ensures
        digit_char(digit_val(c)) == c,
        c != '0' ==> digit_val(c) >= 1,
{
    lemma_digit_codes();
}

pub proof fn lemma_pow10_pos(n: nat)
    ensures
        pow10(n) >= 1,
    decreases n,
{
    if n > 0 {
        lemma_pow10_pos((n - 1) as nat);
    }
}

/// A digit string of length `n` has a value below ten to the `n`.
pub proof fn lemma_digits_val_upper(s: Seq<char>)
    ensures
        digits_val(s) < pow10(s.len()),
    decreases s.len(),
{
    if s.len() > 0 {
        lemma_digits_val_upper(s.drop_last());
    }
}

/// A digit string with a non-zero leading digit has a value of at least ten
/// to the length less one.
pub proof fn lemma_digits_val_lower(s: Seq<char>)
    requires
        all_digits(s),
        s.len() > 0,
        s[0] != '0',
    ensures
        digits_val(s) >= pow10((s.len() - 1) as nat),
    decreases s.len(),
{
    if s.len() == 1 {
        reveal_with_fuel(digits_val, 2);
        assert(s.drop_last() =~= Seq::<char>::empty());
        assert(s.last() == s[0]);
        assert(is_digit(s[0]));
        lemma_digit_char_val(s[0]);
        assert(digit_val(s[0]) >= 1);
    } else {
        lemma_digits_val_lower(s.drop_last());
    }
}

/// Reading further digits never shrinks the value.
pub proof fn lemma_digits_val_prefix(s: Seq<char>, i: int)
    requires
        0 <= i <= s.len(),
    ensures
        digits_val(s.take(i)) <= digits_val(s),
    decreases s.len() - i,
{
    if i < s.len() {
        assert(s.take(i + 1).drop_last() =~= s.take(i));
        lemma_digits_val_prefix(s, i + 1);
    } else {
        assert(s.take(i) =~= s);
    }
}

/// A canonical numeral is exactly the rendering of its own value.
pub proof fn lemma_numeral_render(s: Seq<char>)
    requires
        is_numeral(s),
    ensures
        render_nat(digits_val(s)) == s,
    decreases s.len(),
{
    if s.len() == 1 {
        reveal_with_fuel(digits_val, 2);
        assert(s.drop_last() =~= Seq::<char>::empty());
        assert(s.last() == s[0]);
        assert(is_digit(s[0]));
        lemma_digit_char_val(s[0]);
        assert(digits_val(s) == digit_val(s[0]));
        assert(digit_char(digit_val(s[0])) == s[0]);
        assert(render_nat(digits_val(s)) =~= s);
    } else {
        let t = s.drop_last();
        assert(t[0] == s[0]);
        lemma_numeral_render(t);
        lemma_digits_val_lower(t);
        lemma_pow10_pos((t.len() - 1) as nat);
        let v: nat = digits_val(s);
        let d: nat = digit_val(s.last());
        assert(s.last() == s[s.len() - 1]);
        assert(is_digit(s.last()));
        lemma_digit_char_val(s.last());
        assert(d < 10);
        assert(v == digits_val(t) * 10 + d);
        assert(v / 10 == digits_val(t) && v % 10 == d) by (nonlinear_arith)
            requires
                v == digits_val(t) * 10 + d,
                d < 10,
        ;
        assert(v >= 10);
        assert(digit_char(d) == s.last());
        assert(t.push(s.last()) =~= s);
    }
}

/// A rendered number is a non-empty string of digits.
pub proof fn lemma_render_nat_digits(n: nat)
    ensures
        render_nat(n).len() > 0,
        all_digits(render_nat(n)),
    decreases n,
{
    lemma_digit_codes();
    if n >= 10 {
        lemma_render_nat_digits(n / 10);
        let r = render_nat(n);
        let t = render_nat(n / 10);
        assert forall|i: int| 0 <= i < r.len() implies is_digit(#[trigger] r[i]) by {
            if i < t.len() {
                assert(r[i] == t[i]);
            } else {
                assert(r[i] == digit_char(n % 10));
            }
        }
    }
}

/// Reads the value of the digit string `s[from..to]`; `None` when the range
/// is empty, holds a non-digit, or the value does not fit in `u64`.
pub fn parse_digits_val(s: &str, from: usize, to: usize) -> (r: Option<u64>)
    requires
        from <= to <= s@.len(),
    ensures
        (match r {
            Some(v) => {
                &&& to > from
                &&& all_digits(s@.subrange(from as int, to as int))
                &&& digits_val(s@.subrange(from as int, to as int)) == v
            },
            None => !({
                &&& to > from
                &&& all_digits(s@.subrange(from as int, to as int))
                &&& digits_val(s@.subrange(from as int, to as int)) <= u64::MAX
            }),
        }),
{
    if from == to {
        return None;
    }
    let ghost sub = s@.subrange(from as int, to as int);
    let mut val: u64 = 0;
    let mut i: usize = from;
    while i < to
        invariant
            from <= i <= to <= s@.len(),
            from < to,
            sub == s@.subrange(from as int, to as int),
            all_digits(sub.take(i as int - from as int)),
            digits_val(sub.take(i as int - from as int)) == val,
        decreases to - i,
    {
        let c = s.get_char(i);
        let code: u32 = c as u32;
        proof {
            assert(sub[i as int - from as int] == s@[i as int]);
        }
        if code < 48 || code > 57 {
            return None;
        }
        let d: u64 = (code - 48) as u64;
        proof {
            assert(sub.take(i as int - from as int + 1).drop_last() =~= sub.take(
                i as int - from as int,
            ));
            assert(sub.take(i as int - from as int + 1).last() == sub[i as int - from as int]);
        }
        let stepped: Option<u64> = match val.checked_mul(10) {
            Some(m) => m.checked_add(d),
            None => None,
        };
        match stepped {
            Some(nv) => {
                val = nv;
                i = i + 1;
            },
            None => {
                proof {
                    lemma_digits_val_prefix(sub, i as int - from as int + 1);
                }
                return None;
            },
        }
    }
    proof {
        assert(sub.take(to as int - from as int) =~= sub);
    }
    Some(val)
}

/// Parses `s[from..to]` as a canonical numeral whose value fits in `u64`.
pub fn parse_numeral(s: &str, from: usize, to: usize) -> (r: Option<u64>)
    requires
        from <= to <= s@.len(),
    ensures
        (match r {
            Some(v) => is_numeral(s@.subrange(from as int, to as int)) && digits_val(
                s@.subrange(from as int, to as int),
            ) == v,
            None => !(is_numeral(s@.subrange(from as int, to as int)) && digits_val(
                s@.subrange(from as int, to as int),
            ) <= u64::MAX),
        }),
{
    if from == to {
        return None;
    }
    if to - from > 1 {
        let c0 = s.get_char(from);
        if c0 == '0' {
            // a numeral of several digits must not start with zero
            return None;
        }
    }
    parse_digits_val(s, from, to)
}

/// The one-character string of a digit value.
fn digit_str(d: u64) -> (r: &'static str)
    requires
        d < 10,
    ensures
        r@ == seq![digit_char(d as nat)],
{
    proof {
        reveal_strlit("0");
        reveal_strlit("1");
        reveal_strlit("2");
        reveal_strlit("3");
        reveal_strlit("4");
        reveal_strlit("5");
        reveal_strlit("6");
        reveal_strlit("7");
        reveal_strlit("8");
        reveal_strlit("9");
    }
    let r = if d == 0 {
        "0"
    } else if d == 1 {
        "1"
    } else if d == 2 {
        "2"
    } else if d == 3 {
        "3"
    } else if d == 4 {
        "4"
    } else if d == 5 {
        "5"
    } else if d == 6 {
        "6"
    } else if d == 7 {
        "7"
    } else if d == 8 {
        "8"
    } else {
        "9"
    };
    proof {
        assert(r@ =~= seq![digit_char(d as nat)]);
    }
    r
}

/// Renders a number as its canonical decimal numeral.
pub fn render_u64(n: u64) -> (r: String)
    ensures
        r@ == render_nat(n as nat),
    decreases n,
{
    if n < 10 {
        let r = digit_str(n).to_owned();
        proof {
            assert(r@ =~= render_nat(n as nat));
        }
        r
    } else {
        let mut r = render_u64(n / 10);
        r.append(digit_str(n % 10));
        proof {
            assert(r@ =~= render_nat(n as nat));
        }
        r
    }
}

} // verus!

