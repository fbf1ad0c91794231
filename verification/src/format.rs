//! Rendering an amount of cents as dollars-and-cents text with exactly two
//! digits after the decimal point, as in `4.50` or `-0.05`.

use vstd::prelude::*;
use vstd::string::*;

use crate::digits::all_digits;
use crate::digits::dec_digits;
use crate::digits::digit_char;
use crate::digits::digit_str;
use crate::digits::is_digit;
use crate::digits::lemma_dec_digits_all_digits;
use crate::digits::u64_to_dec;

verus! {

/// The magnitude of `c`.
pub open spec fn abs_val(c: int) -> int {
    if c < 0 {
        -c
    } else {
        c
    }
}

/// The text that renders `c` cents: an optional minus sign, the whole dollars
/// without leading zeros, a dot, and exactly two digits of cents.
pub open spec fn spec_format_cents(c: int) -> Seq<char> {
    let a = abs_val(c);
    let sign: Seq<char> = if c < 0 {
        seq!['-']
    } else {
        Seq::<char>::empty()
    };
    sign + dec_digits((a / 100) as nat) + seq!['.'] + seq![
        digit_char((a % 100) / 10),
        digit_char(a % 100 % 10),
    ]
}

/// Render `c` cents as dollars-and-cents text.
pub fn format_cents(c: i64) -> (s: String)
    ensures
        s@ == spec_format_cents(c as int),
{
    let neg = c < 0;
    let mag: u64 = if neg {
        (-(c as i128)) as u64
    } else {
        c as u64
    };
    proof {
        assert(mag as int == abs_val(c as int));
    }
    let mut s = if neg {
        String::from_str("-")
    } else {
        String::new()
    };
    let whole = u64_to_dec(mag / 100);
    s.append(whole.as_str());
    s.append(".");
    let f = mag % 100;
    s.append(digit_str(f / 10));
    s.append(digit_str(f % 10));
    proof {
        reveal_strlit("-");
        reveal_strlit(".");
        assert(("-")@ =~= seq!['-']);
        assert((".")@ =~= seq!['.']);
        assert(s@ =~= spec_format_cents(c as int));
    }
    s
}

/// Law: however many digits the amount itself carries, the rendered text always
/// shows exactly two digits after the decimal point — the character three from
/// the end is the only dot, and the two after it are digits.
pub proof fn lemma_two_decimal_places(c: int)
    ensures
        spec_format_cents(c).len() >= 4,
        spec_format_cents(c)[spec_format_cents(c).len() - 3] == '.',
        is_digit(spec_format_cents(c)[spec_format_cents(c).len() - 2]),
        is_digit(spec_format_cents(c)[spec_format_cents(c).len() - 1]),
        forall|i: int|
            0 <= i < spec_format_cents(c).len() - 3 ==> spec_format_cents(c)[i] != '.',
{
    let a = abs_val(c);
    let w = dec_digits((a / 100) as nat);
    lemma_dec_digits_all_digits((a / 100) as nat);
    assert(is_digit(digit_char((a % 100) / 10)));
    assert(is_digit(digit_char(a % 100 % 10)));
    let s = spec_format_cents(c);
    let signlen: int = if c < 0 {
        1
    } else {
        0
    };
    assert(s.len() == signlen + w.len() + 3);
    assert forall|i: int| 0 <= i < s.len() - 3 implies s[i] != '.' by {
        if i < signlen {
            assert(s[i] == '-');
        } else {
            assert(s[i] == w[i - signlen]);
            assert(is_digit(w[i - signlen]));
        }
    }
}

} // verus!
