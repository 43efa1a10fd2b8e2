//! Storage sizes as users write them, such as `100GB`, `1TB` or `1TiB`.

use crate::binary64::{
    lemma_ratio_is_positive, nearest, product, ratio, rounded, unit, Binary64, UNIT_EXPONENT,
};
use crate::natural::Natural;
use crate::text::{
    chars_of, concat3, lower_ascii_is, lower_ascii_text, trim, trimmed,
};
use vstd::prelude::*;
use vstd::string::*;

verus! {

/// Whether `c` can stand in the number of a size.
pub open spec fn is_number_char(c: char) -> bool {
    '0' <= c <= '9' || c == '.'
}

/// How many characters of `s`, from its start, can stand in a number.
pub open spec fn number_length(s: Seq<char>) -> nat
    decreases s.len(),
{
    if s.len() > 0 && is_number_char(s[0]) {
        1 + number_length(s.drop_first())
    } else {
        0
    }
}

/// How often `c` stands in `s`.
pub open spec fn occurrences(s: Seq<char>, c: char) -> nat
    decreases s.len(),
{
    if s.len() == 0 {
        0
    } else {
        occurrences(s.drop_last(), c) + (if s.last() == c {
            1nat
        } else {
            0nat
        })
    }
}

/// The digits of `s` read as one decimal number, the point passed over.
pub open spec fn digits_value(s: Seq<char>) -> nat
    decreases s.len(),
{
    if s.len() == 0 {
        0
    } else if s.last() == '.' {
        digits_value(s.drop_last())
    } else {
        10 * digits_value(s.drop_last()) + (s.last() as u32 - 48) as nat
    }
}

/// How many digits of `s` follow the point.
pub open spec fn places(s: Seq<char>) -> nat
    decreases s.len(),
{
    if s.len() == 0 || occurrences(s, '.') == 0 || s.last() == '.' {
        0
    } else {
        1 + places(s.drop_last())
    }
}

/// Ten to the power of `k`.
pub open spec fn ten_to(k: nat) -> nat
    decreases k,
{
    if k == 0 {
        1
    } else {
        10 * ten_to((k - 1) as nat)
    }
}

/// The number that `s`, made of digits and points, writes: there is none without
/// a digit or with a second point.
pub open spec fn numeral(s: Seq<char>) -> Option<Binary64> {
    if occurrences(s, '.') <= 1 && s.len() > occurrences(s, '.') {
        Some(Binary64 { bits: rounded(digits_value(s) * unit(), ten_to(places(s))) })
    } else {
        None
    }
}

/// How many decimal gigabytes the unit `word` is, as a ratio.
pub open spec fn unit_ratio(word: Seq<char>) -> Option<(nat, nat)> {
    if word == ""@ || word == "g"@ || word == "gb"@ {
        Some((1, 1))
    } else if word == "m"@ || word == "mb"@ {
        Some((1, 1000))
    } else if word == "t"@ || word == "tb"@ {
        Some((1000, 1))
    } else if word == "mib"@ {
        Some((1_048_576, 1_000_000_000))
    } else if word == "gib"@ {
        Some((1_073_741_824, 1_000_000_000))
    } else if word == "tib"@ {
        Some((1_099_511_627_776, 1_000_000_000))
    } else {
        None
    }
}

/// The decimal gigabytes that `input` writes, if it is a size.
pub open spec fn storage_size(input: Seq<char>) -> Option<Binary64> {
    let s = trimmed(input);
    let n = number_length(s) as int;
    let word = lower_ascii_text(trimmed(s.skip(n)));
    match (numeral(s.take(n)), unit_ratio(word)) {
        (Some(number), Some((numerator, denominator))) => {
            let gb = product(number, ratio(numerator, denominator));
            if gb.is_finite() {
                Some(gb)
            } else {
                None
            }
        },
        _ => None,
    }
}

/// What is said of an input that is no size.
pub open spec fn invalid_size_message(input: Seq<char>) -> Seq<char> {
    "Invalid storage size '"@ + input
        + "': use a non-negative size such as 100GB, 1TB, or 1TiB"@
}

/// The number of a text ends at its first other character.
pub proof fn lemma_number_length(s: Seq<char>, n: int)
    requires
        0 <= n <= s.len(),
        forall|i: int| 0 <= i < n ==> is_number_char(s[i]),
        n < s.len() ==> !is_number_char(s[n]),
    ensures
        number_length(s) == n,
    decreases n,
{
    if n > 0 {
        let t = s.drop_first();
        assert forall|i: int| 0 <= i < n - 1 implies is_number_char(t[i]) by {
            assert(t[i] == s[i + 1]);
        }
        lemma_number_length(t, n - 1);
    }
}

proof fn lemma_ten_to_pos(k: nat)
    ensures
        ten_to(k) > 0,
    decreases k,
{
    if k > 0 {
        lemma_ten_to_pos((k - 1) as nat);
    }
}

/// The number that the first `n` characters write.
fn parse_numeral(v: &Vec<char>, n: usize) -> (r: Option<Binary64>)
    requires
        n <= v@.len(),
        forall|i: int| 0 <= i < n ==> is_number_char(v@[i]),
    ensures
        r == numeral(v@.take(n as int)),
        r is Some ==> r->0.is_unsigned_amount(),
{
    let mut value = Natural::from_u64(0);
    let mut scale = Natural::from_u64(1);
    let ten = Natural::from_u64(10);
    let mut points: usize = 0;
    let mut i: usize = 0;
    while i < n
        invariant
            i <= n <= v@.len(),
            points <= i,
            forall|j: int| 0 <= j < n ==> is_number_char(v@[j]),
            ten@ == 10,
            points == occurrences(v@.take(i as int), '.'),
            value@ == digits_value(v@.take(i as int)),
            scale@ == ten_to(places(v@.take(i as int))),
        decreases n - i,
    {
        let c: char = v[i];
        proof {
            assert(v@.take(i + 1).drop_last() =~= v@.take(i as int));
            assert(v@.take(i + 1).last() == c);
        }
        if c == '.' {
            points += 1;
            scale = Natural::from_u64(1);
        } else {
            let d: u64 = c as u64 - 48;
            value = value.times(&ten).plus(&Natural::from_u64(d));
            if points > 0 {
                scale = scale.times(&ten);
            }
        }
        i += 1;
    }
    if points <= 1 && n > points {
        proof {
            lemma_ten_to_pos(places(v@.take(n as int)));
        }
        Some(
            Binary64 {
                bits: nearest(&value.times(&Natural::power_of_two(UNIT_EXPONENT)), &scale),
            },
        )
    } else {
        None
    }
}

/// How many decimal gigabytes a unit is, in any case.
fn parse_unit(word: &str) -> (r: Option<(u64, u64)>)
    ensures
        match (r, unit_ratio(lower_ascii_text(word@))) {
            (Some((a, b)), Some((c, d))) => a == c && b == d && 1 <= a <= 0x100_0000_0000 && 1 <= b
                <= 0x100_0000_0000,
            (None, None) => true,
            _ => false,
        },
{
    if lower_ascii_is(word, "") || lower_ascii_is(word, "g") || lower_ascii_is(word, "gb") {
        Some((1, 1))
    } else if lower_ascii_is(word, "m") || lower_ascii_is(word, "mb") {
        Some((1, 1000))
    } else if lower_ascii_is(word, "t") || lower_ascii_is(word, "tb") {
        Some((1000, 1))
    } else if lower_ascii_is(word, "mib") {
        Some((1_048_576, 1_000_000_000))
    } else if lower_ascii_is(word, "gib") {
        Some((1_073_741_824, 1_000_000_000))
    } else if lower_ascii_is(word, "tib") {
        Some((1_099_511_627_776, 1_000_000_000))
    } else {
        None
    }
}

/// Parse storage into decimal gigabytes. Units are decimal unless they are
/// written with an `i`, and no unit means gigabytes.
pub fn parse_storage_size(input: &str) -> (r: Result<Binary64, String>)
    ensures
        match r {
            Ok(gb) => storage_size(input@) == Some(gb) && gb.is_finite() && gb.is_unsigned_amount(),
            Err(message) => storage_size(input@) is None && message@ == invalid_size_message(
                input@,
            ),
        },
{
    let s = trim(input);
    let v = chars_of(s);
    let mut n: usize = 0;
    while n < v.len() && (('0' <= v[n] && v[n] <= '9') || v[n] == '.')
        invariant
            n <= v@.len(),
            forall|i: int| 0 <= i < n ==> is_number_char(v@[i]),
        decreases v.len() - n,
    {
        n += 1;
    }
    proof {
        lemma_number_length(v@, n as int);
        assert(s@.subrange(n as int, s@.len() as int) =~= s@.skip(n as int));
    }
    let number = parse_numeral(&v, n);
    let scale = parse_unit(trim(s.substring_char(n, v.len())));
    match (number, scale) {
        (Some(number), Some((numerator, denominator))) => {
            proof {
                lemma_ratio_is_positive(numerator as nat, denominator as nat);
            }
            let gb = number.times(Binary64::from_ratio(numerator, denominator));
            if gb.finite() {
                return Ok(gb);
            }
        },
        _ => {},
    }
    Err(
        concat3(
            "Invalid storage size '",
            input,
            "': use a non-negative size such as 100GB, 1TB, or 1TiB",
        ),
    )
}

} // verus!
