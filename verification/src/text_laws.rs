//! What holds of white space, letter case and numerals.

use vstd::prelude::*;

use crate::text::{
    begins_with, decimal, is_alphanumeric, is_blank, is_space, is_upper_or_digit, trimmed,
    trimmed_end, trimmed_start, trimmed_text, upper,
};

verus! {

/// Trimming takes white space off both ends of a text, all of it and nothing else.
pub proof fn law_trimmed(s: Seq<char>) -> (place: (int, int))
    ensures
        0 <= place.0 <= place.1 <= s.len(),
        trimmed(s) == s.subrange(place.0, place.1),
        forall|i: int| 0 <= i < place.0 ==> is_space(#[trigger] s[i]),
        forall|i: int| place.1 <= i < s.len() ==> is_space(#[trigger] s[i]),
        trimmed(s).len() > 0 ==> !is_space(trimmed(s)[0]) && !is_space(trimmed(s).last()),
        trimmed(s).len() == 0 <==> is_blank(s),
        trimmed_text(s) == (if is_blank(s) {
            None
        } else {
            Some(trimmed(s))
        }),
{
    let a = lemma_start(s);
    let t = trimmed_start(s);
    let n = lemma_end(t);
    let place = (a, a + n);
    assert(trimmed(s) =~= s.subrange(place.0, place.1));
    assert forall|i: int| place.1 <= i < s.len() implies is_space(#[trigger] s[i]) by {
        assert(t[i - a] == s[i]);
    }
    crate::text::lemma_blank(s);
    if n > 0 {
        assert(trimmed(s)[0] == t[0]);
    }
    place
}

proof fn lemma_start(s: Seq<char>) -> (a: int)
    ensures
        0 <= a <= s.len(),
        trimmed_start(s) == s.subrange(a, s.len() as int),
        forall|i: int| 0 <= i < a ==> is_space(#[trigger] s[i]),
        trimmed_start(s).len() > 0 ==> !is_space(trimmed_start(s)[0]),
    decreases s.len(),
{
    if s.len() > 0 && is_space(s[0]) {
        let rest = s.subrange(1, s.len() as int);
        let a = lemma_start(rest);
        assert(rest.subrange(a, rest.len() as int) =~= s.subrange(a + 1, s.len() as int));
        assert forall|i: int| 0 <= i < a + 1 implies is_space(#[trigger] s[i]) by {
            if i > 0 {
                assert(rest[i - 1] == s[i]);
            }
        }
        a + 1
    } else {
        assert(s =~= s.subrange(0, s.len() as int));
        0
    }
}

proof fn lemma_end(s: Seq<char>) -> (n: int)
    ensures
        0 <= n <= s.len(),
        trimmed_end(s) == s.subrange(0, n),
        forall|i: int| n <= i < s.len() ==> is_space(#[trigger] s[i]),
        n > 0 ==> !is_space(s[n - 1]),
    decreases s.len(),
{
    if s.len() > 0 && is_space(s[s.len() - 1]) {
        let rest = s.subrange(0, s.len() - 1);
        let n = lemma_end(rest);
        assert(rest.subrange(0, n) =~= s.subrange(0, n));
        assert forall|i: int| n <= i < s.len() implies is_space(#[trigger] s[i]) by {
            if i < s.len() - 1 {
                assert(rest[i] == s[i]);
            }
        }
        n
    } else {
        assert(s =~= s.subrange(0, s.len() as int));
        s.len() as int
    }
}

/// The characters that are white space.
pub proof fn law_space(c: char)
    ensures
        is_space(c) <==> c == '\t' || c == '\n' || c == '\u{b}' || c == '\u{c}' || c == '\r' || c
            == ' ' || c == '\u{85}' || c == '\u{a0}' || c == '\u{1680}' || ('\u{2000}' <= c && c
            <= '\u{200a}') || c == '\u{2028}' || c == '\u{2029}' || c == '\u{202f}' || c
            == '\u{205f}' || c == '\u{3000}',
{
}

/// Letters and digits of ASCII, and the capitals of its letters.
pub proof fn law_letters(c: char)
    ensures
        is_alphanumeric(c) <==> ('a' <= c && c <= 'z') || ('A' <= c && c <= 'Z') || ('0' <= c && c
            <= '9'),
        is_upper_or_digit(c) <==> ('A' <= c && c <= 'Z') || ('0' <= c && c <= '9'),
        ('a' <= c && c <= 'z') ==> upper(c) as int == c as int - 32,
        !('a' <= c && c <= 'z') ==> upper(c) == c,
{
}

/// The number that decimal digits stand for.
pub open spec fn decimal_value(s: Seq<char>) -> int
    decreases s.len(),
{
    if s.len() == 0 {
        0
    } else {
        decimal_value(s.drop_last()) * 10 + (s.last() as int - '0' as int)
    }
}

/// A numeral is made of digits, stands for its number, and has no zero in front, unless it
/// is zero itself.
pub proof fn law_decimal(n: nat)
    ensures
        decimal(n).len() > 0,
        decimal_value(decimal(n)) == n,
        forall|i: int| 0 <= i < decimal(n).len() ==> '0' <= #[trigger] decimal(n)[i] <= '9',
        decimal(n).len() > 1 ==> decimal(n)[0] != '0',
        n > 0 ==> decimal(n)[0] != '0',
    decreases n,
{
    let s = decimal(n);
    if n < 10 {
        assert(s.drop_last() =~= Seq::<char>::empty());
        assert(decimal_value(s.drop_last()) == 0);
        assert(s.last() as int == 48 + n);
    } else {
        law_decimal(n / 10);
        assert(s.drop_last() =~= decimal(n / 10));
        assert(s.last() as int == 48 + n % 10);
        assert(s[0] == decimal(n / 10)[0]);
        assert forall|i: int| 0 <= i < s.len() implies '0' <= #[trigger] s[i] <= '9' by {
            if i < s.len() - 1 {
                assert(s[i] == decimal(n / 10)[i]);
            }
        }
    }
}

/// A text begins with another where it is the other with something behind it.
pub proof fn law_begins_with(prefix: Seq<char>, rest: Seq<char>, s: Seq<char>)
    ensures
        begins_with(prefix + rest, prefix),
        begins_with(s, prefix) ==> s == prefix + s.skip(prefix.len() as int),
{
    assert((prefix + rest).subrange(0, prefix.len() as int) =~= prefix);
    if begins_with(s, prefix) {
        assert(s =~= s.subrange(0, prefix.len() as int) + s.skip(prefix.len() as int));
    }
}

} // verus!
