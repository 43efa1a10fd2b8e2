//! What holds of every storage size.

use crate::binary64::{
    lemma_one, lemma_ratio_is_positive, lemma_rounded_exists, magnitude, product, ratio, rounded,
    rounds_to, unit, Binary64, FRACTION_SPAN, INFINITY_BITS, ONE_BITS, UNIT_EXPONENT,
};
use crate::binary64_laws::{
    lemma_double, lemma_product_by_one, lemma_ratio_one, lemma_rounded_exact, lemma_rounded_scaled,
    results_are_nearest,
};
use crate::storage::is_valid_size;
use crate::storage_size::{
    digits_value, invalid_size_message, is_number_char, lemma_number_length, number_length, numeral,
    occurrences, places, storage_size, ten_to, unit_ratio,
};
use crate::text::{
    decimal, digit_char, is_white_space, lower_ascii, lower_ascii_text, trimmed, without_trailing,
};
use crate::text_laws::{
    is_blank, lemma_lower_trimmed, lemma_without_trailing_prefix, padding_does_not_matter,
    trimming_takes_white_space_alone,
};
use vstd::arithmetic::power::pow;
use vstd::prelude::*;

verus! {

/// White space around a size does not matter.
pub proof fn white_space_around_does_not_matter(
    before: Seq<char>,
    s: Seq<char>,
    after: Seq<char>,
)
    requires
        is_blank(before),
        is_blank(after),
    ensures
        storage_size(before + s + after) == storage_size(s),
{
    padding_does_not_matter(before, s, after);
}

proof fn lemma_trailing_of_sum(n: Seq<char>, x: Seq<char>)
    requires
        n.len() > 0,
        !is_white_space(n.last()),
    ensures
        without_trailing(n + x) == n + without_trailing(x),
    decreases x.len(),
{
    if x.len() == 0 {
        assert(n + x =~= n);
        assert(n + without_trailing(x) =~= n);
    } else if is_white_space(x.last()) {
        assert((n + x).drop_last() =~= n + x.drop_last());
        lemma_trailing_of_sum(n, x.drop_last());
    }
}

/// What a number followed by `x` writes depends on the number and on `x` without the
/// white space around it.
proof fn lemma_number_and_rest(n: Seq<char>, x: Seq<char>)
    requires
        n.len() > 0,
        forall|i: int| 0 <= i < n.len() ==> is_number_char(#[trigger] n[i]),
        x.len() > 0 ==> !is_number_char(x[0]),
    ensures
        number_length(trimmed(n + x)) == n.len(),
        trimmed(n + x).take(n.len() as int) == n,
        trimmed(trimmed(n + x).skip(n.len() as int)) == trimmed(x),
{
    let k = n.len() as int;
    let rest = without_trailing(x);
    assert(is_number_char(n[0]) && is_number_char(n[k - 1]));
    assert((n + x)[0] == n[0]);
    lemma_trailing_of_sum(n, x);
    lemma_without_trailing_prefix(x);
    let t = n + rest;
    assert(trimmed(n + x) == t);
    assert forall|i: int| 0 <= i < k implies is_number_char(t[i]) by {
        assert(t[i] == n[i]);
    }
    if k < t.len() {
        assert(t[k] == rest[0] && rest[0] == x[0]);
    }
    lemma_number_length(t, k);
    assert(t.take(k) =~= n);
    assert(t.skip(k) =~= rest);
}

/// White space between the number and the unit does not matter.
pub proof fn white_space_before_the_unit_does_not_matter(
    n: Seq<char>,
    between: Seq<char>,
    unit: Seq<char>,
)
    requires
        n.len() > 0,
        forall|i: int| 0 <= i < n.len() ==> is_number_char(#[trigger] n[i]),
        is_blank(between),
        unit.len() > 0 ==> !is_number_char(unit[0]),
    ensures
        storage_size(n + between + unit) == storage_size(n + unit),
{
    let x = between + unit;
    assert(n + between + unit =~= n + x);
    if between.len() > 0 {
        assert(is_white_space(between[0]));
        assert(x[0] == between[0]);
    } else {
        assert(x =~= unit);
    }
    lemma_number_and_rest(n, x);
    lemma_number_and_rest(n, unit);
    padding_does_not_matter(between, unit, Seq::empty());
    assert(between + unit + Seq::<char>::empty() =~= x);
}

/// A size starts with a digit or a point: nothing else is one, such as a sign, a
/// bare unit or the name of no number.
pub proof fn sizes_start_with_a_number(s: Seq<char>)
    requires
        storage_size(s) is Some,
    ensures
        trimmed(s).len() > 0,
        is_number_char(trimmed(s)[0]),
{
    let t = trimmed(s);
    if t.len() == 0 || !is_number_char(t[0]) {
        assert(number_length(t) == 0);
        assert(t.take(0) =~= Seq::empty());
        assert(numeral(t.take(0)) is None);
    }
}

proof fn lemma_lower_keeps(c: char)
    ensures
        is_number_char(lower_ascii(c)) == is_number_char(c),
        is_number_char(c) ==> lower_ascii(c) == c,
        lower_ascii(lower_ascii(c)) == lower_ascii(c),
{
}

proof fn lemma_lower_number(s: Seq<char>)
    ensures
        number_length(lower_ascii_text(s)) == number_length(s),
        number_length(s) <= s.len(),
        forall|i: int| 0 <= i < number_length(s) ==> is_number_char(#[trigger] s[i]),
    decreases s.len(),
{
    if s.len() > 0 {
        lemma_lower_keeps(s[0]);
        if is_number_char(s[0]) {
            let rest = s.drop_first();
            lemma_lower_number(rest);
            assert(lower_ascii_text(s).drop_first() =~= lower_ascii_text(rest));
            assert forall|i: int| 0 <= i < number_length(s) implies is_number_char(
                #[trigger] s[i],
            ) by {
                if i > 0 {
                    assert(rest[i - 1] == s[i]);
                }
            }
        }
    }
}

/// The case of the unit does not matter.
pub proof fn case_of_the_unit_does_not_matter(s: Seq<char>)
    ensures
        storage_size(lower_ascii_text(s)) == storage_size(s),
{
    lemma_lower_trimmed(s);
    let t = trimmed(s);
    let low = lower_ascii_text(t);
    assert(trimmed(lower_ascii_text(s)) == low);
    lemma_lower_number(t);
    let n = number_length(t) as int;
    assert(low.take(n) =~= t.take(n)) by {
        assert forall|i: int| 0 <= i < n implies low.take(n)[i] == t.take(n)[i] by {
            assert(is_number_char(t[i]));
            lemma_lower_keeps(t[i]);
        }
    }
    let word = t.skip(n);
    assert(low.skip(n) =~= lower_ascii_text(word));
    lemma_lower_trimmed(word);
    let w = trimmed(word);
    assert(lower_ascii_text(lower_ascii_text(w)) =~= lower_ascii_text(w)) by {
        assert forall|i: int| 0 <= i < w.len() implies lower_ascii(lower_ascii(w[i]))
            == lower_ascii(w[i]) by {
            lemma_lower_keeps(w[i]);
        }
    }
}

/// What a user writes as a size can be asked for: it is finite and not negative.
pub proof fn sizes_can_be_asked_for(s: Seq<char>)
    requires
        storage_size(s) is Some,
    ensures
        is_valid_size(storage_size(s)->0),
{
    let gb = storage_size(s)->0;
    let t = trimmed(s);
    let n = number_length(t) as int;
    let number = numeral(t.take(n))->0;
    let (numerator, denominator) = unit_ratio(lower_ascii_text(trimmed(t.skip(n))))->0;
    let scale = ratio(numerator, denominator);
    vstd::arithmetic::power2::lemma_pow2_pos(UNIT_EXPONENT as nat);
    lemma_rounded_exists((number.number() * scale.number()) as nat, unit());
    assert(gb.is_unsigned_amount());
}

// Numbers.

/// Whether `s` holds digits alone.
pub open spec fn is_digits(s: Seq<char>) -> bool {
    forall|i: int| 0 <= i < s.len() ==> '0' <= #[trigger] s[i] <= '9'
}

/// Whether `s` can be the number of a size: digits and points, at least one character.
pub open spec fn is_number_text(s: Seq<char>) -> bool {
    s.len() > 0 && forall|i: int|
        0 <= i < s.len() ==> '0' <= #[trigger] s[i] <= '9' || s[i] == '.'
}

/// Whether `s` can stand behind a number without being read as part of it.
pub open spec fn ends_number(s: Seq<char>) -> bool {
    s.len() > 0 ==> !('0' <= s[0] <= '9') && s[0] != '.'
}

/// What a number and what follows it write, taken apart.
proof fn lemma_size_of_parts(n: Seq<char>, unit: Seq<char>)
    requires
        is_number_text(n),
        ends_number(unit),
    ensures
        storage_size(n + unit) == match (numeral(n), unit_ratio(lower_ascii_text(trimmed(unit)))) {
            (Some(number), Some((a, b))) => if product(number, ratio(a, b)).is_finite() {
                Some(product(number, ratio(a, b)))
            } else {
                None
            },
            _ => None,
        },
{
    assert forall|i: int| 0 <= i < n.len() implies is_number_char(#[trigger] n[i]) by {}
    lemma_number_and_rest(n, unit);
}

/// The number alone is what it writes, in gigabytes.
proof fn lemma_size_of_number(n: Seq<char>)
    requires
        is_number_text(n),
    ensures
        storage_size(n) == match numeral(n) {
            Some(number) => if number.is_finite() {
                Some(number)
            } else {
                None
            },
            None => None,
        },
        numeral(n) is Some ==> numeral(n)->0.is_unsigned_amount(),
{
    let none = Seq::<char>::empty();
    assert(n + none =~= n);
    lemma_size_of_parts(n, none);
    assert(trimmed(none) =~= none);
    reveal_strlit("");
    assert(lower_ascii_text(none) =~= ""@);
    lemma_ratio_one();
    if numeral(n) is Some {
        lemma_numeral_rounds(n);
        lemma_product_by_one(numeral(n)->0);
    }
}

/// A number that is written is rounded once.
proof fn lemma_numeral_rounds(n: Seq<char>)
    requires
        numeral(n) is Some,
    ensures
        ten_to(places(n)) > 0,
        numeral(n)->0.bits == rounded(digits_value(n) * unit(), ten_to(places(n))),
        rounds_to(digits_value(n) * unit(), ten_to(places(n)), numeral(n)->0.bits),
        numeral(n)->0.is_unsigned_amount(),
{
    lemma_ten_to(places(n));
    lemma_rounded_exists(digits_value(n) * unit(), ten_to(places(n)));
}

proof fn lemma_ten_to(k: nat)
    ensures
        ten_to(k) > 0,
        ten_to(k) == pow(10, k),
    decreases k,
{
    reveal(pow);
    if k > 0 {
        lemma_ten_to((k - 1) as nat);
    }
}

/// What a unit is worth: one of it.
proof fn lemma_size_of_one(unit: Seq<char>)
    requires
        ends_number(unit),
    ensures
        is_number_text("1"@),
        storage_size("1"@ + unit) == match unit_ratio(lower_ascii_text(trimmed(unit))) {
            Some((a, b)) => Some(ratio(a, b)),
            None => None,
        },
        unit_ratio(lower_ascii_text(trimmed(unit))) matches Some((a, b)) ==> {
            &&& ratio(a, b).is_finite()
            &&& ratio(a, b).is_unsigned_amount()
            &&& ratio(a, b).number() > 0
            &&& ratio(a, b).bits <= 1063 * FRACTION_SPAN
        },
{
    reveal_strlit("1");
    let one = "1"@;
    assert(one =~= seq!['1']);
    lemma_size_of_parts(one, unit);
    lemma_single_digit(1);
    lemma_ratio_one();
    if unit_ratio(lower_ascii_text(trimmed(unit))) is Some {
        let (a, b) = unit_ratio(lower_ascii_text(trimmed(unit)))->0;
        lemma_ratio_is_positive(a, b);
        lemma_product_by_one(ratio(a, b));
    }
}

/// What one digit writes.
proof fn lemma_single_digit(d: nat)
    requires
        d < 10,
    ensures
        numeral(seq![digit_char(d)]) == Some(ratio(d, 1)),
        is_number_text(seq![digit_char(d)]),
{
    lemma_decimal_reads_back(d);
    assert(decimal(d) =~= seq![digit_char(d)]);
}

/// A number in decimal is digits that are read as that number.
proof fn lemma_decimal_reads_back(k: nat)
    ensures
        is_digits(decimal(k)),
        decimal(k).len() > 0,
        digits_value(decimal(k)) == k,
        occurrences(decimal(k), '.') == 0,
        places(decimal(k)) == 0,
        numeral(decimal(k)) == Some(ratio(k, 1)),
    decreases k,
{
    let s = decimal(k);
    let d = k % 10;
    assert(digit_char(d) as u32 == 48 + d);
    if k < 10 {
        let none = Seq::<char>::empty();
        assert(s.drop_last() =~= none);
        assert(digits_value(none) == 0 && occurrences(none, '.') == 0);
        assert(s.last() == digit_char(k) && s.last() != '.');
    } else {
        lemma_decimal_reads_back(k / 10);
        assert(s.drop_last() =~= decimal(k / 10));
        assert(s.last() == digit_char(d) && s.last() != '.');
        assert forall|i: int| 0 <= i < s.len() implies '0' <= #[trigger] s[i] <= '9' by {
            if i < s.len() - 1 {
                assert(s[i] == decimal(k / 10)[i]);
            }
        }
    }
    assert(ten_to(0) == 1);
}

/// A number and a unit are worth the number alone times what one of the unit is worth,
/// rounded once, and are no size where that is infinite or where one of the two is
/// none. `bits` is the pattern of the rounded product.
pub proof fn units_multiply(n: Seq<char>, unit_word: Seq<char>) -> (bits: u64)
    requires
        is_number_text(n),
        ends_number(unit_word),
    ensures
        match (storage_size(n), storage_size("1"@ + unit_word)) {
            (Some(x), Some(y)) => {
                &&& rounds_to((x.number() * y.number()) as nat, unit(), bits)
                &&& bits < INFINITY_BITS ==> storage_size(n + unit_word) == Some(
                    Binary64 { bits },
                )
                &&& bits == INFINITY_BITS ==> storage_size(n + unit_word) is None
            },
            _ => storage_size(n + unit_word) is None,
        },
{
    lemma_size_of_parts(n, unit_word);
    lemma_size_of_number(n);
    lemma_size_of_one(unit_word);
    match (storage_size(n), storage_size("1"@ + unit_word)) {
        (Some(x), Some(y)) => {
            results_are_nearest(x, y);
            product(x, y).bits
        },
        _ => 0,
    }
}

/// Two of a unit are twice one of it, and none of it is nothing.
pub proof fn two_are_twice_one(unit_word: Seq<char>)
    requires
        ends_number(unit_word),
    ensures
        storage_size("1"@ + unit_word) is Some <==> storage_size("2"@ + unit_word) is Some,
        storage_size("1"@ + unit_word) is Some <==> storage_size("0"@ + unit_word) is Some,
        storage_size("1"@ + unit_word) matches Some(y) ==> {
            &&& storage_size("2"@ + unit_word)->0.number() == 2 * y.number()
            &&& storage_size("0"@ + unit_word)->0.number() == 0
            &&& y.number() > 0
        },
{
    reveal_strlit("0");
    reveal_strlit("2");
    assert("0"@ =~= seq![digit_char(0)]);
    assert("2"@ =~= seq![digit_char(2)]);
    lemma_single_digit(0);
    lemma_single_digit(2);
    lemma_size_of_one(unit_word);
    lemma_size_of_parts("0"@, unit_word);
    lemma_size_of_parts("2"@, unit_word);
    vstd::arithmetic::power2::lemma_pow2_pos(UNIT_EXPONENT as nat);
    lemma_one();
    let u = unit();
    if storage_size("1"@ + unit_word) is Some {
        let y = storage_size("1"@ + unit_word)->0;
        let m = y.number() as nat;
        // Nothing.
        lemma_rounded_exact(0, 1);
        assert(0 * u == 0 && magnitude(0) * 1 == 0) by (nonlinear_arith)
            requires
                magnitude(0) == 0,
        ;
        assert(ratio(0, 1).bits == 0);
        lemma_rounded_exact(0, u);
        assert(0 * m == 0 && magnitude(0) * u == 0) by (nonlinear_arith)
            requires
                magnitude(0) == 0,
        ;
        assert(product(ratio(0, 1), y).bits == 0);
        // Twice as much.
        let two = lemma_double(Binary64 { bits: ONE_BITS });
        lemma_rounded_exact(two, 1);
        assert(magnitude(two as int) * 1 == 2 * u);
        assert(ratio(2, 1).bits == two);
        let twice = lemma_double(y);
        lemma_rounded_exact(twice, u);
        assert((2 * u) * m == (2 * m) * u) by (nonlinear_arith);
        assert(product(ratio(2, 1), y).bits == twice);
    }
}

/// A whole number in decimal is read as that number, rounded once. `bits` is the
/// pattern nearest to it.
pub proof fn whole_numbers_are_read_back(k: nat) -> (bits: u64)
    ensures
        rounds_to(k * unit(), 1, bits),
        bits < INFINITY_BITS ==> storage_size(decimal(k)) == Some(Binary64 { bits }),
        bits == INFINITY_BITS ==> storage_size(decimal(k)) is None,
{
    lemma_decimal_reads_back(k);
    lemma_size_of_number(decimal(k));
    lemma_rounded_exists(k * unit(), 1);
    ratio(k, 1).bits
}

/// So many zeros.
pub open spec fn zeros(k: nat) -> Seq<char> {
    Seq::new(k, |i: int| '0')
}

proof fn lemma_digits_have_no_point(s: Seq<char>)
    requires
        is_digits(s),
    ensures
        occurrences(s, '.') == 0,
        places(s) == 0,
    decreases s.len(),
{
    if s.len() > 0 {
        let rest = s.drop_last();
        assert forall|i: int| 0 <= i < rest.len() implies '0' <= #[trigger] rest[i] <= '9' by {
            assert(rest[i] == s[i]);
        }
        lemma_digits_have_no_point(rest);
        assert('0' <= s[s.len() - 1] <= '9');
    }
}

/// Digits behind others count for so much less.
proof fn lemma_digits_behind(s: Seq<char>, f: Seq<char>)
    requires
        is_digits(f),
    ensures
        digits_value(s + f) == digits_value(s) * ten_to(f.len()) + digits_value(f),
        occurrences(s + f, '.') == occurrences(s, '.'),
        occurrences(s, '.') > 0 ==> places(s + f) == places(s) + f.len(),
    decreases f.len(),
{
    if f.len() == 0 {
        assert(s + f =~= s);
        assert(ten_to(0) == 1);
    } else {
        let rest = f.drop_last();
        assert forall|i: int| 0 <= i < rest.len() implies '0' <= #[trigger] rest[i] <= '9' by {
            assert(rest[i] == f[i]);
        }
        lemma_digits_behind(s, rest);
        assert((s + f).drop_last() =~= s + rest);
        assert((s + f).last() == f.last());
        assert('0' <= f[f.len() - 1] <= '9');
        let (v, t) = (digits_value(s), ten_to(rest.len()));
        assert(10 * (v * t) == v * (10 * t)) by (nonlinear_arith);
    }
}

/// A point behind digits changes nothing of what they are read as.
proof fn lemma_point_behind(a: Seq<char>)
    requires
        is_digits(a),
    ensures
        digits_value(a.push('.')) == digits_value(a),
        occurrences(a.push('.'), '.') == 1,
        places(a.push('.')) == 0,
{
    assert(a.push('.').drop_last() =~= a);
    lemma_digits_have_no_point(a);
}

/// A decimal fraction is read as that number, rounded once: `whole`, a point, zeros and
/// `fraction` write `whole` and as much more as the digits behind the point are of the
/// power of ten of their number.
pub proof fn fractions_are_read_back(whole: nat, leading: nat, fraction: nat) -> (bits: u64)
    ensures
        ({
            let behind = zeros(leading) + decimal(fraction);
            let scale = pow(10, behind.len());
            let s = decimal(whole) + seq!['.'] + behind;
            &&& scale > 0
            &&& rounds_to(
                (whole * scale + fraction) as nat * unit(),
                scale as nat,
                bits,
            )
            &&& bits < INFINITY_BITS ==> storage_size(s) == Some(Binary64 { bits })
            &&& bits == INFINITY_BITS ==> storage_size(s) is None
        }),
{
    let (a, z, f) = (decimal(whole), zeros(leading), decimal(fraction));
    let behind = z + f;
    let s = a + seq!['.'] + behind;
    lemma_decimal_reads_back(whole);
    lemma_decimal_reads_back(fraction);
    lemma_zeros(leading);
    lemma_digits_behind(z, f);
    assert(0 * ten_to(f.len()) == 0) by (nonlinear_arith);
    assert(digits_value(behind) == fraction);
    assert forall|i: int| 0 <= i < behind.len() implies '0' <= #[trigger] behind[i] <= '9' by {
        if i < z.len() {
            assert(behind[i] == z[i]);
        } else {
            assert(behind[i] == f[i - z.len()]);
        }
    }
    lemma_point_behind(a);
    assert(a + seq!['.'] =~= a.push('.'));
    lemma_digits_behind(a.push('.'), behind);
    lemma_ten_to(behind.len());
    assert forall|i: int| 0 <= i < s.len() implies '0' <= #[trigger] s[i] <= '9' || s[i] == '.' by {
        if i < a.len() {
            assert(s[i] == a[i]);
        } else if i > a.len() {
            assert(s[i] == behind[i - a.len() - 1]);
        }
    }
    lemma_size_of_number(s);
    lemma_numeral_rounds(s);
    numeral(s)->0.bits
}

proof fn lemma_zeros(k: nat)
    ensures
        is_digits(zeros(k)),
        digits_value(zeros(k)) == 0,
    decreases k,
{
    if k > 0 {
        let m = (k - 1) as nat;
        lemma_zeros(m);
        assert(zeros(k).drop_last() =~= zeros(m));
        assert(zeros(k).last() == '0');
    }
}

/// Numbers that are read alike are worth the same before every unit.
proof fn lemma_same_numeral(a: Seq<char>, b: Seq<char>, unit_word: Seq<char>)
    requires
        is_number_text(a),
        is_number_text(b),
        ends_number(unit_word),
        numeral(a) == numeral(b),
    ensures
        storage_size(a + unit_word) == storage_size(b + unit_word),
{
    lemma_size_of_parts(a, unit_word);
    lemma_size_of_parts(b, unit_word);
}

/// Zeros before a number change nothing, `digit` being where it has a digit.
pub proof fn leading_zeros_do_not_matter(
    k: nat,
    n: Seq<char>,
    digit: int,
    unit_word: Seq<char>,
)
    requires
        is_number_text(n),
        0 <= digit < n.len(),
        n[digit] != '.',
        ends_number(unit_word),
    ensures
        storage_size(zeros(k) + n + unit_word) == storage_size(n + unit_word),
{
    let s = zeros(k) + n;
    lemma_zeros_before(k, n);
    lemma_points_are_fewer(n, digit);
    assert forall|i: int| 0 <= i < s.len() implies '0' <= #[trigger] s[i] <= '9' || s[i] == '.' by {
        if i < k {
            assert(s[i] == zeros(k)[i]);
        } else {
            assert(s[i] == n[i - k]);
        }
    }
    lemma_same_numeral(s, n, unit_word);
}

proof fn lemma_points_are_fewer(n: Seq<char>, digit: int)
    ensures
        occurrences(n, '.') <= n.len(),
        0 <= digit < n.len() && n[digit] != '.' ==> occurrences(n, '.') < n.len(),
    decreases n.len(),
{
    if n.len() > 0 {
        let rest = n.drop_last();
        lemma_points_are_fewer(rest, digit);
        if 0 <= digit < rest.len() {
            assert(rest[digit] == n[digit]);
        }
    }
}

proof fn lemma_zeros_before(k: nat, n: Seq<char>)
    ensures
        digits_value(zeros(k) + n) == digits_value(n),
        occurrences(zeros(k) + n, '.') == occurrences(n, '.'),
        places(zeros(k) + n) == places(n),
    decreases n.len(),
{
    let s = zeros(k) + n;
    if n.len() == 0 {
        assert(s =~= zeros(k));
        lemma_zeros(k);
        lemma_digits_have_no_point(s);
    } else {
        assert(s.drop_last() =~= zeros(k) + n.drop_last());
        assert(s.last() == n.last());
        lemma_zeros_before(k, n.drop_last());
    }
}

/// A point behind a whole number changes nothing, and neither do zeros behind a point.
pub proof fn trailing_zeros_do_not_matter(
    a: Seq<char>,
    f: Seq<char>,
    k: nat,
    unit_word: Seq<char>,
)
    requires
        is_digits(a),
        is_digits(f),
        a.len() + f.len() > 0,
        ends_number(unit_word),
    ensures
        a.len() > 0 ==> storage_size(a + seq!['.'] + unit_word) == storage_size(a + unit_word),
        storage_size(a + seq!['.'] + f + zeros(k) + unit_word) == storage_size(
            a + seq!['.'] + f + unit_word,
        ),
{
    let p = a.push('.');
    assert(a + seq!['.'] =~= p);
    lemma_point_behind(a);
    lemma_digits_have_no_point(a);
    assert forall|i: int| 0 <= i < p.len() implies '0' <= #[trigger] p[i] <= '9' || p[i] == '.' by {
        if i < a.len() {
            assert(p[i] == a[i]);
        }
    }
    if a.len() > 0 {
        lemma_same_numeral(p, a, unit_word);
    }
    let s = p + f;
    let t = s + zeros(k);
    lemma_digits_behind(p, f);
    lemma_zeros(k);
    lemma_digits_behind(s, zeros(k));
    assert forall|i: int| 0 <= i < s.len() implies '0' <= #[trigger] s[i] <= '9' || s[i] == '.' by {
        if i < p.len() {
            assert(s[i] == p[i]);
        } else {
            assert(s[i] == f[i - p.len()]);
        }
    }
    assert forall|i: int| 0 <= i < t.len() implies '0' <= #[trigger] t[i] <= '9' || t[i] == '.' by {
        if i < s.len() {
            assert(t[i] == s[i]);
        } else {
            assert(t[i] == zeros(k)[i - s.len()]);
        }
    }
    lemma_ten_to(places(s));
    lemma_ten_to(k);
    lemma_ten_to_adds(places(s), k);
    let (v, u, c) = (digits_value(s), unit(), ten_to(k));
    assert((v * c) * u == (v * u) * c) by (nonlinear_arith);
    lemma_rounded_scaled(v * u, ten_to(places(s)), c);
    lemma_same_numeral(t, s, unit_word);
}

proof fn lemma_ten_to_adds(a: nat, b: nat)
    ensures
        ten_to(a + b) == ten_to(a) * ten_to(b),
    decreases b,
{
    if b == 0 {
        assert(ten_to(0) == 1);
    } else {
        let c = (b - 1) as nat;
        lemma_ten_to_adds(a, c);
        let (x, y) = (ten_to(a), ten_to(c));
        assert(10 * (x * y) == x * (10 * y)) by (nonlinear_arith);
    }
}

/// Two points make no number, and neither does a point without a digit.
pub proof fn points_alone_and_second_points_are_refused(
    n: Seq<char>,
    unit_word: Seq<char>,
    i: int,
    j: int,
)
    requires
        is_number_text(n),
        ends_number(unit_word),
        0 <= i < j < n.len() && n[i] == '.' && n[j] == '.' || forall|k: int|
            0 <= k < n.len() ==> #[trigger] n[k] == '.',
    ensures
        storage_size(n + unit_word) is None,
{
    lemma_size_of_parts(n, unit_word);
    if 0 <= i < j < n.len() && n[i] == '.' && n[j] == '.' {
        lemma_points_counted(n, i, j);
    } else {
        lemma_points_alone(n);
    }
}

proof fn lemma_points_counted(n: Seq<char>, i: int, j: int)
    requires
        0 <= j < n.len(),
        n[j] == '.',
    ensures
        occurrences(n, '.') >= 1,
        0 <= i < j && n[i] == '.' ==> occurrences(n, '.') >= 2,
    decreases n.len(),
{
    let rest = n.drop_last();
    if j < n.len() - 1 {
        assert(rest[j] == n[j]);
        if 0 <= i < j {
            assert(rest[i] == n[i]);
        }
        lemma_points_counted(rest, i, j);
    } else if 0 <= i < j && n[i] == '.' {
        assert(rest[i] == n[i]);
        lemma_points_counted(rest, -1, i);
    }
}

proof fn lemma_points_alone(n: Seq<char>)
    requires
        forall|k: int| 0 <= k < n.len() ==> #[trigger] n[k] == '.',
    ensures
        occurrences(n, '.') == n.len(),
    decreases n.len(),
{
    if n.len() > 0 {
        let rest = n.drop_last();
        assert forall|k: int| 0 <= k < rest.len() implies #[trigger] rest[k] == '.' by {
            assert(rest[k] == n[k]);
        }
        lemma_points_alone(rest);
        assert(n[n.len() - 1] == '.');
    }
}

// Units.

/// Whether `word` is `unit`, in any case and with any white space around it.
pub open spec fn is_unit(word: Seq<char>, unit: Seq<char>) -> bool {
    lower_ascii_text(trimmed(word)) == unit
}

/// One of a unit is as many bytes as its name says, in billions: thousands of
/// thousands, or where it is written with an `i`, powers of 1024. `bits` is the pattern
/// nearest to the bytes over a billion.
pub proof fn units_are_bytes_over_a_billion(word: Seq<char>, bytes: nat) -> (bits: u64)
    requires
        ends_number(word),
        ({
            ||| bytes == 1000 * 1000 && (is_unit(word, "m"@) || is_unit(word, "mb"@))
            ||| bytes == 1000 * 1000 * 1000 && (is_unit(word, ""@) || is_unit(word, "g"@)
                || is_unit(word, "gb"@))
            ||| bytes == 1000 * 1000 * 1000 * 1000 && (is_unit(word, "t"@) || is_unit(word, "tb"@))
            ||| bytes == 1024 * 1024 && is_unit(word, "mib"@)
            ||| bytes == 1024 * 1024 * 1024 && is_unit(word, "gib"@)
            ||| bytes == 1024 * 1024 * 1024 * 1024 && is_unit(word, "tib"@)
        }),
    ensures
        rounds_to(bytes * unit(), 1_000_000_000, bits),
        storage_size("1"@ + word) == Some(Binary64 { bits }),
{
    lemma_size_of_one(word);
    lemma_units_differ();
    lemma_rounded_exists(bytes * unit(), 1_000_000_000);
    let u = unit();
    let bits = rounded(bytes * u, 1_000_000_000);
    if bytes == 1000 * 1000 {
        lemma_rounded_scaled(1 * u, 1000, 1_000_000);
        assert((1 * u) * 1_000_000 == bytes * u) by (nonlinear_arith)
            requires
                bytes == 1_000_000,
        ;
    } else if bytes == 1000 * 1000 * 1000 {
        lemma_rounded_scaled(1 * u, 1, 1_000_000_000);
        assert((1 * u) * 1_000_000_000 == bytes * u) by (nonlinear_arith)
            requires
                bytes == 1_000_000_000,
        ;
    } else if bytes == 1000 * 1000 * 1000 * 1000 {
        lemma_rounded_scaled(1000 * u, 1, 1_000_000_000);
        assert((1000 * u) * 1_000_000_000 == bytes * u) by (nonlinear_arith)
            requires
                bytes == 1_000_000_000_000,
        ;
    }
    bits
}

/// Nothing else is a unit.
pub proof fn nothing_else_is_a_unit(n: Seq<char>, word: Seq<char>)
    requires
        is_number_text(n),
        ends_number(word),
        storage_size(n + word) is Some,
    ensures
        is_unit(word, ""@) || is_unit(word, "g"@) || is_unit(word, "gb"@) || is_unit(word, "m"@)
            || is_unit(word, "mb"@) || is_unit(word, "t"@) || is_unit(word, "tb"@) || is_unit(
            word,
            "mib"@,
        ) || is_unit(word, "gib"@) || is_unit(word, "tib"@),
{
    lemma_size_of_parts(n, word);
}

/// A size is a number and what follows it, but for white space around it.
pub proof fn sizes_are_a_number_and_a_unit(input: Seq<char>) -> (parts: (Seq<char>, Seq<char>))
    requires
        storage_size(input) is Some,
    ensures
        is_number_text(parts.0),
        ends_number(parts.1),
        trimmed(input) == parts.0 + parts.1,
        storage_size(input) == storage_size(parts.0 + parts.1),
{
    sizes_start_with_a_number(input);
    let s = trimmed(input);
    let k = number_length(s) as int;
    lemma_lower_number(s);
    let (n, word) = (s.take(k), s.skip(k));
    assert(s =~= n + word);
    lemma_number_is_longest(s);
    assert forall|i: int| 0 <= i < n.len() implies '0' <= #[trigger] n[i] <= '9' || n[i] == '.' by {
        assert(is_number_char(s[i]));
    }
    let (before, after) = trimming_takes_white_space_alone(input);
    padding_does_not_matter(before, s, after);
    (n, word)
}

proof fn lemma_number_is_longest(s: Seq<char>)
    ensures
        number_length(s) <= s.len(),
        number_length(s) < s.len() ==> !is_number_char(s[number_length(s) as int]),
        s.len() > 0 && is_number_char(s[0]) ==> number_length(s) > 0,
    decreases s.len(),
{
    if s.len() > 0 && is_number_char(s[0]) {
        lemma_number_is_longest(s.drop_first());
    }
}

proof fn lemma_units_differ()
    ensures
        ""@.len() == 0,
        "g"@ == seq!['g'],
        "gb"@ == seq!['g', 'b'],
        "m"@ == seq!['m'],
        "mb"@ == seq!['m', 'b'],
        "t"@ == seq!['t'],
        "tb"@ == seq!['t', 'b'],
        "mib"@ == seq!['m', 'i', 'b'],
        "gib"@ == seq!['g', 'i', 'b'],
        "tib"@ == seq!['t', 'i', 'b'],
        unit_ratio("m"@) == Some((1nat, 1000nat)),
        unit_ratio("mb"@) == Some((1nat, 1000nat)),
        unit_ratio(""@) == Some((1nat, 1nat)),
        unit_ratio("g"@) == Some((1nat, 1nat)),
        unit_ratio("gb"@) == Some((1nat, 1nat)),
        unit_ratio("t"@) == Some((1000nat, 1nat)),
        unit_ratio("tb"@) == Some((1000nat, 1nat)),
        unit_ratio("mib"@) == Some((1_048_576nat, 1_000_000_000nat)),
        unit_ratio("gib"@) == Some((1_073_741_824nat, 1_000_000_000nat)),
        unit_ratio("tib"@) == Some((1_099_511_627_776nat, 1_000_000_000nat)),
{
    reveal_strlit("");
    reveal_strlit("g");
    reveal_strlit("gb");
    reveal_strlit("m");
    reveal_strlit("mb");
    reveal_strlit("t");
    reveal_strlit("tb");
    reveal_strlit("mib");
    reveal_strlit("gib");
    reveal_strlit("tib");
    assert("g"@ =~= seq!['g'] && "m"@ =~= seq!['m'] && "t"@ =~= seq!['t']);
    assert("gb"@ =~= seq!['g', 'b'] && "mb"@ =~= seq!['m', 'b'] && "tb"@ =~= seq!['t', 'b']);
    assert("mib"@ =~= seq!['m', 'i', 'b'] && "gib"@ =~= seq!['g', 'i', 'b']);
    assert("tib"@ =~= seq!['t', 'i', 'b']);
    assert("g"@[0] == 'g' && "gb"@[0] == 'g' && "gib"@[0] == 'g');
    assert("m"@[0] == 'm' && "mb"@[0] == 'm' && "mib"@[0] == 'm');
    assert("t"@[0] == 't' && "tb"@[0] == 't' && "tib"@[0] == 't');
}

/// A refusal quotes what was written.
pub proof fn refusals_quote_the_input(input: Seq<char>)
    ensures
        invalid_size_message(input) == "Invalid storage size '"@ + input
            + "': use a non-negative size such as 100GB, 1TB, or 1TiB"@,
{
}

} // verus!
