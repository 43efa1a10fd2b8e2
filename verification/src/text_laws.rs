//! What holds of trimmed text, and of text in lower case.

use crate::text::{
    comes_before, decimal, is_ascii_text, is_white_space, lower_ascii, lower_ascii_text, lowercase,
    occurs_in, trimmed, without_leading, without_trailing,
};
use vstd::prelude::*;

verus! {

/// Whether `s` holds white space alone.
pub open spec fn is_blank(s: Seq<char>) -> bool {
    forall|i: int| 0 <= i < s.len() ==> is_white_space(#[trigger] s[i])
}

proof fn lemma_leading_blank(before: Seq<char>, s: Seq<char>)
    requires
        is_blank(before),
    ensures
        without_leading(before + s) == without_leading(s),
    decreases before.len(),
{
    if before.len() > 0 {
        let rest = before.drop_first();
        assert forall|i: int| 0 <= i < rest.len() implies is_white_space(#[trigger] rest[i]) by {
            assert(rest[i] == before[i + 1]);
        }
        lemma_leading_blank(rest, s);
        assert(is_white_space((before + s)[0]));
        assert((before + s).drop_first() =~= rest + s);
    } else {
        assert(before + s =~= s);
    }
}

proof fn lemma_leading_of_push(s: Seq<char>, c: char)
    requires
        is_white_space(c),
    ensures
        is_blank(s) ==> without_leading(s).len() == 0 && without_leading(s.push(c)).len() == 0,
        !is_blank(s) ==> without_leading(s.push(c)) == without_leading(s).push(c),
    decreases s.len(),
{
    if s.len() == 0 {
        assert(s.push(c).drop_first() =~= Seq::<char>::empty());
        assert(without_leading(s.push(c)) == without_leading(Seq::<char>::empty()));
    } else if is_white_space(s[0]) {
        let rest = s.drop_first();
        lemma_leading_of_push(rest, c);
        assert(s.push(c).drop_first() =~= rest.push(c));
        assert(s.push(c)[0] == s[0]);
        assert(is_blank(s) <==> is_blank(rest)) by {
            if is_blank(rest) {
                assert forall|i: int| 0 <= i < s.len() implies is_white_space(#[trigger] s[i]) by {
                    if i > 0 {
                        assert(rest[i - 1] == s[i]);
                    }
                }
            }
            if is_blank(s) {
                assert forall|i: int| 0 <= i < rest.len() implies is_white_space(
                    #[trigger] rest[i],
                ) by {
                    assert(rest[i] == s[i + 1]);
                }
            }
        }
    } else {
        assert(s.push(c)[0] == s[0]);
        assert(!is_blank(s));
    }
}

proof fn lemma_trailing_blank(s: Seq<char>, after: Seq<char>)
    requires
        is_blank(after),
    ensures
        trimmed(s + after) == trimmed(s),
    decreases after.len(),
{
    if after.len() > 0 {
        let c = after.last();
        assert(is_white_space(after[after.len() - 1]));
        let rest = after.drop_last();
        assert forall|i: int| 0 <= i < rest.len() implies is_white_space(#[trigger] rest[i]) by {
            assert(rest[i] == after[i]);
        }
        lemma_trailing_blank(s, rest);
        let t = s + rest;
        assert(s + after =~= t.push(c));
        lemma_leading_of_push(t, c);
        if !is_blank(t) {
            assert(without_leading(t).push(c).drop_last() =~= without_leading(t));
        } else {
            assert(without_leading(t) =~= without_leading(t.push(c)));
        }
    } else {
        assert(s + after =~= s);
    }
}

/// White space around a text is all that trimming takes away.
pub proof fn padding_does_not_matter(before: Seq<char>, s: Seq<char>, after: Seq<char>)
    requires
        is_blank(before),
        is_blank(after),
    ensures
        trimmed(before + s + after) == trimmed(s),
{
    lemma_trailing_blank(before + s, after);
    lemma_leading_blank(before, s);
}

/// Taking away the white space at the end leaves a first part and takes a blank one.
pub proof fn lemma_without_trailing_prefix(s: Seq<char>)
    ensures
        without_trailing(s).len() <= s.len(),
        without_trailing(s) == s.take(without_trailing(s).len() as int),
        trimmed(without_trailing(s)) == trimmed(s),
    decreases s.len(),
{
    if s.len() > 0 && is_white_space(s.last()) {
        let shorter = s.drop_last();
        lemma_without_trailing_prefix(shorter);
        let n = without_trailing(shorter).len() as int;
        assert(shorter.take(n) =~= s.take(n));
        let end = seq![s.last()];
        assert(shorter + end =~= s);
        lemma_trailing_blank(shorter, end);
    } else {
        assert(s.take(s.len() as int) =~= s);
    }
}

proof fn lemma_lower_keeps_white_space(c: char)
    ensures
        is_white_space(lower_ascii(c)) == is_white_space(c),
{
}

proof fn lemma_lower_leading(s: Seq<char>)
    ensures
        without_leading(lower_ascii_text(s)) == lower_ascii_text(without_leading(s)),
    decreases s.len(),
{
    if s.len() > 0 {
        lemma_lower_keeps_white_space(s[0]);
        if is_white_space(s[0]) {
            lemma_lower_leading(s.drop_first());
            assert(lower_ascii_text(s).drop_first() =~= lower_ascii_text(s.drop_first()));
        }
    }
}

proof fn lemma_lower_trailing(s: Seq<char>)
    ensures
        without_trailing(lower_ascii_text(s)) == lower_ascii_text(without_trailing(s)),
    decreases s.len(),
{
    if s.len() > 0 {
        lemma_lower_keeps_white_space(s.last());
        assert(lower_ascii_text(s).last() == lower_ascii(s.last()));
        if is_white_space(s.last()) {
            lemma_lower_trailing(s.drop_last());
            assert(lower_ascii_text(s).drop_last() =~= lower_ascii_text(s.drop_last()));
        }
    }
}

/// Trimming and putting ASCII letters in lower case can be done in either order.
pub proof fn lemma_lower_trimmed(s: Seq<char>)
    ensures
        trimmed(lower_ascii_text(s)) == lower_ascii_text(trimmed(s)),
{
    lemma_lower_leading(s);
    lemma_lower_trailing(without_leading(s));
}

proof fn lemma_ascii_leading(s: Seq<char>)
    requires
        is_ascii_text(s),
    ensures
        is_ascii_text(without_leading(s)),
    decreases s.len(),
{
    if s.len() > 0 && is_white_space(s[0]) {
        let rest = s.drop_first();
        assert forall|i: int| 0 <= i < rest.len() implies (#[trigger] rest[i]) <= '\u{7f}' by {
            assert(rest[i] == s[i + 1]);
        }
        lemma_ascii_leading(rest);
    }
}

/// What is left of ASCII text by trimming is ASCII.
pub proof fn lemma_ascii_trimmed(s: Seq<char>)
    requires
        is_ascii_text(s),
    ensures
        is_ascii_text(trimmed(s)),
{
    lemma_ascii_leading(s);
    let t = without_leading(s);
    lemma_without_trailing_prefix(t);
    let u = trimmed(s);
    assert forall|i: int| 0 <= i < u.len() implies (#[trigger] u[i]) <= '\u{7f}' by {
        assert(u[i] == t[i]);
    }
}

/// ASCII texts that differ in case alone have the same lower case.
pub proof fn lower_case_ignores_ascii_case(a: Seq<char>, b: Seq<char>)
    requires
        is_ascii_text(a),
        is_ascii_text(b),
        lower_ascii_text(a) == lower_ascii_text(b),
    ensures
        lowercase(a) == lowercase(b),
{
}

/// Trimming leaves nothing exactly of a blank text.
pub proof fn lemma_blank_trimmed(s: Seq<char>)
    ensures
        is_blank(s) <==> trimmed(s).len() == 0,
{
    let (before, after) = trimming_takes_white_space_alone(s);
    let t = trimmed(s);
    if t.len() == 0 {
        assert forall|i: int| 0 <= i < s.len() implies is_white_space(#[trigger] s[i]) by {
            if i < before.len() {
                assert(s[i] == before[i]);
            } else {
                assert(s[i] == after[i - before.len()]);
            }
        }
    } else {
        assert(s[before.len() as int] == t[0]);
    }
}

/// Trimming takes white space at both ends, and nothing else: what is left neither
/// starts nor ends with any.
pub proof fn trimming_takes_white_space_alone(s: Seq<char>) -> (ends: (Seq<char>, Seq<char>))
    ensures
        is_blank(ends.0),
        is_blank(ends.1),
        s == ends.0 + trimmed(s) + ends.1,
        trimmed(s).len() > 0 ==> !is_white_space(trimmed(s)[0]) && !is_white_space(
            trimmed(s).last(),
        ),
{
    let before = lemma_leading_taken(s);
    let t = without_leading(s);
    let after = lemma_trailing_taken(t);
    assert(s =~= before + trimmed(s) + after);
    if trimmed(s).len() > 0 {
        assert(trimmed(s)[0] == t[0]);
    }
    (before, after)
}

proof fn lemma_leading_taken(s: Seq<char>) -> (before: Seq<char>)
    ensures
        is_blank(before),
        s == before + without_leading(s),
        without_leading(s).len() > 0 ==> !is_white_space(without_leading(s)[0]),
    decreases s.len(),
{
    if s.len() > 0 && is_white_space(s[0]) {
        let rest = lemma_leading_taken(s.drop_first());
        let before = seq![s[0]] + rest;
        assert(s =~= seq![s[0]] + s.drop_first());
        assert(s =~= before + without_leading(s));
        before
    } else {
        assert(s =~= Seq::<char>::empty() + s);
        Seq::empty()
    }
}

proof fn lemma_trailing_taken(s: Seq<char>) -> (after: Seq<char>)
    ensures
        is_blank(after),
        s == without_trailing(s) + after,
        without_trailing(s).len() > 0 ==> !is_white_space(without_trailing(s).last()),
    decreases s.len(),
{
    if s.len() > 0 && is_white_space(s.last()) {
        let rest = lemma_trailing_taken(s.drop_last());
        let after = rest.push(s.last());
        assert(s =~= s.drop_last().push(s.last()));
        assert(s =~= without_trailing(s) + after);
        after
    } else {
        assert(s =~= s + Seq::<char>::empty());
        Seq::empty()
    }
}

/// A text occurs in another exactly where the other is made of it and what stands
/// before and after it.
pub proof fn occurrences_split_a_text(part: Seq<char>, before: Seq<char>, after: Seq<char>)
    ensures
        occurs_in(part, before + part + after),
{
    let s = before + part + after;
    let i = before.len() as int;
    assert(s.subrange(i, i + part.len()) =~= part);
}

/// What stands before and after a text that occurs in another.
pub proof fn texts_split_at_an_occurrence(part: Seq<char>, s: Seq<char>) -> (ends: (
    Seq<char>,
    Seq<char>,
))
    requires
        occurs_in(part, s),
    ensures
        s == ends.0 + part + ends.1,
{
    let i = choose|i: int|
        0 <= i <= s.len() - part.len() && #[trigger] s.subrange(i, i + part.len()) == part;
    let (before, after) = (s.take(i), s.skip(i + part.len()));
    assert(s =~= before + s.subrange(i, i + part.len()) + after);
    (before, after)
}

/// What occurs in a part of a text occurs in the text.
pub proof fn lemma_occurs_transitive(part: Seq<char>, whole: Seq<char>, s: Seq<char>)
    requires
        occurs_in(part, whole),
        occurs_in(whole, s),
    ensures
        occurs_in(part, s),
{
    let (a, b) = texts_split_at_an_occurrence(part, whole);
    let (c, d) = texts_split_at_an_occurrence(whole, s);
    occurrences_split_a_text(part, c + a, b + d);
    assert(s =~= (c + a) + part + (b + d));
}

/// Texts are ordered by the first character in which they differ; where one ends
/// before they differ, it comes first.
pub proof fn first_difference_decides(a: Seq<char>, b: Seq<char>, k: int)
    requires
        0 <= k <= a.len(),
        k <= b.len(),
        a.take(k) == b.take(k),
    ensures
        k < a.len() && k < b.len() && a[k] != b[k] ==> comes_before(a, b) == (a[k] < b[k]),
        k == a.len() && k < b.len() ==> comes_before(a, b),
        k == b.len() ==> !comes_before(a, b),
    decreases k,
{
    if k > 0 {
        assert(a[0] == a.take(k)[0] && b[0] == b.take(k)[0]);
        let (x, y) = (a.drop_first(), b.drop_first());
        assert(x.take(k - 1) =~= a.take(k).drop_first());
        assert(y.take(k - 1) =~= b.take(k).drop_first());
        first_difference_decides(x, y, k - 1);
    }
}

/// Only the letters from A to Z change in lower case, each to the letter of its place
/// from a to z.
pub proof fn ascii_letters_alone_have_a_lower_case(c: char)
    ensures
        'A' <= c <= 'Z' ==> 'a' <= lower_ascii(c) <= 'z' && lower_ascii(c) as u32 - 'a' as u32
            == c as u32 - 'A' as u32,
        !('A' <= c <= 'Z') ==> lower_ascii(c) == c,
        lower_ascii(lower_ascii(c)) == lower_ascii(c),
{
}

/// A number in decimal is digits without a zero before them, the last of which is the
/// rest by ten.
pub proof fn decimals_have_no_leading_zeros(n: nat)
    ensures
        decimal(n).len() > 0,
        decimal(n).len() > 1 ==> decimal(n)[0] != '0',
        decimal(n).last() as u32 == '0' as u32 + n % 10,
        n >= 10 ==> decimal(n).drop_last() == decimal(n / 10),
        n < 10 ==> decimal(n).len() == 1,
    decreases n,
{
    if n >= 10 {
        decimals_have_no_leading_zeros(n / 10);
        assert(decimal(n).drop_last() =~= decimal(n / 10));
        assert(decimal(n)[0] == decimal(n / 10)[0]);
        if n / 10 < 10 {
            assert(decimal(n / 10)[0] == decimal(n / 10).last());
        }
    }
}

} // verus!
