//! Parsing a line of text as a decimal amount, yielding exact cents.
//!
//! The accepted shape is an optional sign, then digits with at most one dot
//! and at most two digits after it, with at least one digit in all; this is
//! the plain-decimal shape of a money amount, held exactly as cents.

use vstd::prelude::*;
use vstd::string::*;

use crate::digits::all_digits;
use crate::digits::digit_of;
use crate::digits::digits_val;
use crate::digits::is_digit;
use crate::digits::lemma_digits_val_bound;
use crate::digits::lemma_digits_val_lower;
use crate::digits::lemma_digits_val_skip_zeros;
use crate::digits::lemma_digits_val_snoc;
use crate::digits::lemma_pow10_monotone;
use crate::digits::lemma_pow10_values;
use crate::digits::pow10;

verus! {

/// 1 when the text opens with a sign character, else 0.
pub open spec fn sign_skip(s: Seq<char>) -> int {
    if s.len() > 0 && (s[0] == '-' || s[0] == '+') {
        1
    } else {
        0
    }
}

/// Does the text denote a negative amount?
pub open spec fn is_negative(s: Seq<char>) -> bool {
    s.len() > 0 && s[0] == '-'
}

/// The position of the first dot at or after `i`, or the length when none.
pub open spec fn dot_pos(s: Seq<char>, i: int) -> int
    recommends
        0 <= i <= s.len(),
    decreases s.len() - i,
{
    if i >= s.len() {
        s.len() as int
    } else if s[i] == '.' {
        i
    } else {
        dot_pos(s, i + 1)
    }
}

/// The digits before the dot (sign excluded).
pub open spec fn int_part(s: Seq<char>) -> Seq<char> {
    s.subrange(sign_skip(s), dot_pos(s, sign_skip(s)))
}

/// The digits after the dot, empty when there is no dot.
pub open spec fn frac_part(s: Seq<char>) -> Seq<char> {
    if dot_pos(s, sign_skip(s)) < s.len() {
        s.subrange(dot_pos(s, sign_skip(s)) + 1, s.len() as int)
    } else {
        Seq::<char>::empty()
    }
}

/// Is the text a decimal amount: optional sign, digits with at most one dot,
/// at most two digits after the dot, and at least one digit in all?
pub open spec fn valid_amount(s: Seq<char>) -> bool {
    &&& all_digits(int_part(s))
    &&& all_digits(frac_part(s))
    &&& frac_part(s).len() <= 2
    &&& int_part(s).len() + frac_part(s).len() >= 1
}

/// The cents that the digits after the dot contribute: one digit counts as
/// tenths, two as hundredths.
pub open spec fn frac_cents(fp: Seq<char>) -> int {
    if fp.len() == 1 {
        digits_val(fp) * 10
    } else {
        digits_val(fp)
    }
}

/// The unsigned number of cents the text denotes.
pub open spec fn magnitude_cents(s: Seq<char>) -> int {
    digits_val(int_part(s)) * 100 + frac_cents(frac_part(s))
}

/// The signed number of cents the text denotes.
pub open spec fn spec_amount_cents(s: Seq<char>) -> int {
    if is_negative(s) {
        -magnitude_cents(s)
    } else {
        magnitude_cents(s)
    }
}

/// A run free of dots that ends at a dot or at the end pins down `dot_pos`.
proof fn lemma_dot_pos_at(s: Seq<char>, a: int, i: int)
    requires
        0 <= a <= i <= s.len(),
        forall|j: int| a <= j < i ==> s[j] != '.',
        i == s.len() || s[i] == '.',
    ensures
        dot_pos(s, a) == i,
    decreases i - a,
{
    if a < i {
        lemma_dot_pos_at(s, a + 1, i);
    }
}

/// Read the digit run `s[from..to)` as a number; up to seventeen digits always
/// fit the machine word.
fn digits_to_u64(s: &str, lo: usize, hi: usize) -> (v: u64)
    requires
        lo <= hi <= s@.len(),
        hi - lo <= 17,
        forall|j: int| lo <= j < hi ==> is_digit(s@[j]),
    ensures
        v as int == digits_val(s@.subrange(lo as int, hi as int)),
        (v as int) < pow10((hi - lo) as nat),
{
    let mut acc: u64 = 0;
    let mut i: usize = lo;
    proof {
        assert(s@.subrange(lo as int, lo as int) =~= Seq::<char>::empty());
    }
    while i < hi
        invariant
            lo <= i <= hi,
            hi <= s@.len(),
            hi - lo <= 17,
            forall|j: int| lo <= j < hi ==> is_digit(s@[j]),
            acc as int == digits_val(s@.subrange(lo as int, i as int)),
            (acc as int) < pow10((i - lo) as nat),
        decreases hi - i,
    {
        let c = s.get_char(i);
        let dg = digit_of(c).unwrap();
        proof {
            lemma_pow10_monotone((i - lo + 1) as nat, 17);
            lemma_pow10_values();
            assert(pow10((i - lo + 1) as nat) == 10 * pow10((i - lo) as nat));
            lemma_digits_val_snoc(s@.subrange(lo as int, i as int), s@[i as int]);
            assert(s@.subrange(lo as int, i as int + 1) =~= s@.subrange(
                lo as int,
                i as int,
            ).push(s@[i as int]));
        }
        acc = acc * 10 + dg;
        i = i + 1;
    }
    acc
}

/// Parse a trimmed line as a decimal amount of cents.
///
/// Returns the exact signed cents when the text has the decimal shape and the
/// value fits the machine's signed cents type, and nothing otherwise.
pub fn parse_amount(s: &str) -> (r: Option<i64>)
    ensures
        r is Some <==> valid_amount(s@) && i64::MIN <= spec_amount_cents(s@) <= i64::MAX,
        r matches Some(v) ==> v as int == spec_amount_cents(s@),
{
    let n = s.unicode_len();
    let mut start: usize = 0;
    let mut neg = false;
    if n > 0 {
        let c0 = s.get_char(0);
        if c0 == '-' {
            start = 1;
            neg = true;
        } else if c0 == '+' {
            start = 1;
        }
    }
    proof {
        assert(start as int == sign_skip(s@));
        assert(neg == is_negative(s@));
    }
    // locate the first dot after the sign
    let mut d: usize = n;
    let mut i: usize = start;
    while i < n
        invariant_except_break
            start <= i <= n,
            n == s@.len(),
            d == n,
            forall|j: int| start <= j < i ==> s@[j] != '.',
        ensures
            start <= d <= n,
            n == s@.len(),
            forall|j: int| start <= j < d ==> s@[j] != '.',
            d == n || s@[d as int] == '.',
        decreases n - i,
    {
        if s.get_char(i) == '.' {
            d = i;
            break;
        }
        i = i + 1;
    }
    proof {
        lemma_dot_pos_at(s@, start as int, d as int);
        assert(int_part(s@) == s@.subrange(start as int, d as int));
    }
    let intlen = d - start;
    let fraclen = if d < n {
        n - d - 1
    } else {
        0
    };
    proof {
        if d < n {
            assert(frac_part(s@) == s@.subrange(d as int + 1, n as int));
        } else {
            assert(frac_part(s@) == Seq::<char>::empty());
        }
        assert(int_part(s@).len() == intlen);
        assert(frac_part(s@).len() == fraclen);
    }
    // every character of the integer part must be a digit
    let mut i: usize = start;
    while i < d
        invariant
            start <= i <= d,
            d <= n,
            n == s@.len(),
            int_part(s@) == s@.subrange(start as int, d as int),
            forall|j: int| start <= j < i ==> is_digit(s@[j]),
        decreases d - i,
    {
        if digit_of(s.get_char(i)).is_none() {
            proof {
                assert(int_part(s@)[i - start] == s@[i as int]);
                assert(!all_digits(int_part(s@)));
            }
            return None;
        }
        i = i + 1;
    }
    proof {
        assert forall|k: int| 0 <= k < int_part(s@).len() implies is_digit(int_part(s@)[k]) by {
            assert(int_part(s@)[k] == s@[start + k]);
        }
        assert(all_digits(int_part(s@)));
    }
    // every character after the dot must be a digit
    if d < n {
        let mut i: usize = d + 1;
        while i < n
            invariant
                d + 1 <= i <= n,
                d < n,
                n == s@.len(),
                frac_part(s@) == s@.subrange(d as int + 1, n as int),
                forall|j: int| d + 1 <= j < i ==> is_digit(s@[j]),
            decreases n - i,
        {
            if digit_of(s.get_char(i)).is_none() {
                proof {
                    assert(frac_part(s@)[i - d - 1] == s@[i as int]);
                    assert(!all_digits(frac_part(s@)));
                }
                return None;
            }
            i = i + 1;
        }
        proof {
            assert forall|k: int| 0 <= k < frac_part(s@).len() implies is_digit(
                frac_part(s@)[k],
            ) by {
                assert(frac_part(s@)[k] == s@[d + 1 + k]);
            }
        }
    }
    proof {
        assert(all_digits(frac_part(s@)));
    }
    if fraclen > 2 {
        return None;
    }
    if intlen == 0 && fraclen == 0 {
        return None;
    }
    proof {
        assert(valid_amount(s@));
    }
    // skip leading zeros of the integer part to count significant digits
    let mut z: usize = start;
    while z < d
        invariant_except_break
            start <= z <= d,
            d <= n,
            n == s@.len(),
            forall|j: int| start <= j < z ==> s@[j] == '0',
        ensures
            start <= z <= d,
            d <= n,
            n == s@.len(),
            forall|j: int| start <= j < z ==> s@[j] == '0',
            z == d || s@[z as int] != '0',
        decreases d - z,
    {
        if s.get_char(z) != '0' {
            break;
        }
        z = z + 1;
    }
    let sig = d - z;
    proof {
        let ip = int_part(s@);
        assert forall|j: int| 0 <= j < z - start implies ip[j] == '0' by {
            assert(ip[j] == s@[start + j]);
        }
        lemma_digits_val_skip_zeros(ip, z as int - start as int);
        assert(ip.subrange(z as int - start as int, ip.len() as int) =~= s@.subrange(
            z as int,
            d as int,
        ));
        assert(digits_val(ip) == digits_val(s@.subrange(z as int, d as int)));
        lemma_digits_val_bound(frac_part(s@));
        assert(frac_cents(frac_part(s@)) >= 0);
    }
    if sig > 17 {
        // at least eighteen significant whole digits: the amount cannot fit
        proof {
            let ip = int_part(s@);
            let stripped = s@.subrange(z as int, d as int);
            assert forall|k: int| 0 <= k < stripped.len() implies is_digit(stripped[k]) by {
                assert(stripped[k] == ip[z - start + k]);
            }
            assert(stripped[0] == s@[z as int]);
            lemma_digits_val_lower(stripped);
            lemma_pow10_monotone(17, (sig - 1) as nat);
            lemma_pow10_values();
            assert(digits_val(ip) >= 100_000_000_000_000_000);
            assert(digits_val(ip) * 100 >= 10_000_000_000_000_000_000);
            assert(magnitude_cents(s@) >= 10_000_000_000_000_000_000);
        }
        return None;
    }
    let whole = digits_to_u64(s, z, d);
    proof {
        assert(whole as int == digits_val(int_part(s@)));
        lemma_pow10_monotone(sig as nat, 17);
        lemma_pow10_values();
        assert((whole as int) < 100_000_000_000_000_000);
    }
    let mut fcents: u64 = 0;
    if d < n {
        let fv = digits_to_u64(s, d + 1, n);
        proof {
            assert(fv as int == digits_val(frac_part(s@)));
            lemma_pow10_monotone(fraclen as nat, 2);
            lemma_pow10_values();
        }
        if fraclen == 1 {
            fcents = fv * 10;
        } else {
            fcents = fv;
        }
    }
    proof {
        assert(fcents as int == frac_cents(frac_part(s@)));
        assert(fcents <= 99);
    }
    let mag: u64 = whole * 100 + fcents;
    proof {
        assert(mag as int == magnitude_cents(s@));
    }
    if neg {
        if mag <= 9_223_372_036_854_775_808u64 {
            let v: i64 = (-(mag as i128)) as i64;
            proof {
                assert(v as int == spec_amount_cents(s@));
            }
            Some(v)
        } else {
            None
        }
    } else {
        if mag <= 9_223_372_036_854_775_807u64 {
            let v: i64 = mag as i64;
            proof {
                assert(v as int == spec_amount_cents(s@));
            }
            Some(v)
        } else {
            None
        }
    }
}

} // verus!
