//! Text: white space, letter case, numerals and concatenation.

use vstd::prelude::*;

verus! {

/// The characters with the Unicode property White_Space.
pub open spec fn is_space(c: char) -> bool {
    let n = c as u32;
    ||| 0x9 <= n <= 0xd
    ||| n == 0x20
    ||| n == 0x85
    ||| n == 0xa0
    ||| n == 0x1680
    ||| 0x2000 <= n <= 0x200a
    ||| n == 0x2028
    ||| n == 0x2029
    ||| n == 0x202f
    ||| n == 0x205f
    ||| n == 0x3000
}

/// Nothing but white space.
pub open spec fn is_blank(s: Seq<char>) -> bool {
    forall|i: int| 0 <= i < s.len() ==> is_space(#[trigger] s[i])
}

/// `s` without its leading white space.
pub open spec fn trimmed_start(s: Seq<char>) -> Seq<char>
    decreases s.len(),
{
    if s.len() > 0 && is_space(s[0]) {
        trimmed_start(s.subrange(1, s.len() as int))
    } else {
        s
    }
}

/// `s` without its trailing white space.
pub open spec fn trimmed_end(s: Seq<char>) -> Seq<char>
    decreases s.len(),
{
    if s.len() > 0 && is_space(s[s.len() - 1]) {
        trimmed_end(s.subrange(0, s.len() - 1))
    } else {
        s
    }
}

/// `s` without the white space at either end.
pub open spec fn trimmed(s: Seq<char>) -> Seq<char> {
    trimmed_end(trimmed_start(s))
}

/// `s` trimmed, unless nothing is left.
pub open spec fn trimmed_text(s: Seq<char>) -> Option<Seq<char>> {
    if trimmed(s).len() > 0 {
        Some(trimmed(s))
    } else {
        None
    }
}

/// What trimming leaves of a text is empty exactly where the text is blank.
pub proof fn lemma_blank(s: Seq<char>)
    ensures
        is_blank(s) <==> trimmed(s).len() == 0,
    decreases s.len(),
{
    if s.len() > 0 && is_space(s[0]) {
        let rest = s.subrange(1, s.len() as int);
        lemma_blank(rest);
        assert(forall|i: int| 1 <= i < s.len() ==> #[trigger] s[i] == rest[i - 1]);
        assert(forall|i: int| 0 <= i < rest.len() ==> #[trigger] rest[i] == s[i + 1]);
    } else if s.len() > 0 {
        assert(!is_space(s[0]));
        lemma_keeps_first(s);
    }
}

proof fn lemma_keeps_first(s: Seq<char>)
    requires
        s.len() > 0,
        !is_space(s[0]),
    ensures
        trimmed_end(s).len() > 0,
        trimmed_end(s)[0] == s[0],
    decreases s.len(),
{
    if is_space(s[s.len() - 1]) {
        lemma_keeps_first(s.subrange(0, s.len() - 1));
    }
}

/// A text that begins and ends with something else than white space stays as it is.
pub proof fn lemma_trimmed_stays(s: Seq<char>)
    requires
        s.len() > 0,
        !is_space(s[0]),
        !is_space(s[s.len() - 1]),
    ensures
        trimmed(s) == s,
{
}

/// Trimming a text that is trimmed changes nothing.
pub proof fn lemma_trimmed_twice(s: Seq<char>)
    ensures
        trimmed(trimmed(s)) == trimmed(s),
{
    lemma_trimmed_start(s);
    lemma_trimmed_end(trimmed_start(s));
    let t = trimmed(s);
    if t.len() > 0 {
        lemma_keeps_first(trimmed_start(s));
        lemma_trimmed_stays(t);
    }
}

proof fn lemma_trimmed_start(s: Seq<char>)
    ensures
        trimmed_start(s).len() > 0 ==> !is_space(trimmed_start(s)[0]),
    decreases s.len(),
{
    if s.len() > 0 && is_space(s[0]) {
        lemma_trimmed_start(s.subrange(1, s.len() as int));
    }
}

proof fn lemma_trimmed_end(s: Seq<char>)
    ensures
        trimmed_end(s).len() <= s.len(),
        trimmed_end(s).len() > 0 ==> !is_space(trimmed_end(s)[trimmed_end(s).len() - 1]),
    decreases s.len(),
{
    if s.len() > 0 && is_space(s[s.len() - 1]) {
        lemma_trimmed_end(s.subrange(0, s.len() - 1));
    }
}

/// Whether a character is white space.
pub fn space(c: char) -> (r: bool)
    ensures
        r == is_space(c),
{
    let n: u32 = c as u32;
    (0x9 <= n && n <= 0xd) || n == 0x20 || n == 0x85 || n == 0xa0 || n == 0x1680 || (0x2000 <= n && n
        <= 0x200a) || n == 0x2028 || n == 0x2029 || n == 0x202f || n == 0x205f || n == 0x3000
}

/// Whether two texts are equal.
pub fn text_eq(a: &str, b: &str) -> (r: bool)
    ensures
        r == (a@ == b@),
{
    a.to_owned() == b.to_owned()
}

/// The characters of a text.
pub fn chars_of(s: &str) -> (r: Vec<char>)
    ensures
        r@ == s@,
{
    let mut out: Vec<char> = Vec::new();
    for c in it: s.chars()
        invariant
            out@ == it.seq().take(it.index()),
            it.seq() == s@,
    {
        out.push(c);
    }
    out
}

/// `s` without the white space at either end.
pub fn trim(s: &str) -> (r: &str)
    ensures
        r@ == trimmed(s@),
{
    let chars = chars_of(s);
    let mut from: usize = 0;
    assert(s@.subrange(0, s@.len() as int) =~= s@);
    while from < chars.len() && space(chars[from])
        invariant
            chars@ == s@,
            from <= s@.len(),
            trimmed_start(s@) == trimmed_start(s@.subrange(from as int, s@.len() as int)),
        decreases s@.len() - from,
    {
        let ghost rest = s@.subrange(from as int, s@.len() as int);
        assert(rest.subrange(1, rest.len() as int) =~= s@.subrange(from + 1, s@.len() as int));
        from += 1;
    }
    let ghost start = s@.subrange(from as int, s@.len() as int);
    assert(trimmed_start(s@) == start);
    let mut to: usize = chars.len();
    assert(start == s@.subrange(from as int, to as int));
    while from < to && space(chars[to - 1])
        invariant
            chars@ == s@,
            from <= to <= s@.len(),
            trimmed_end(start) == trimmed_end(s@.subrange(from as int, to as int)),
        decreases to,
    {
        let ghost rest = s@.subrange(from as int, to as int);
        assert(rest.subrange(0, rest.len() - 1) =~= s@.subrange(from as int, to - 1));
        to -= 1;
    }
    s.substring_char(from, to)
}

/// Whether a text is nothing but white space.
pub fn blank(s: &str) -> (r: bool)
    ensures
        r == is_blank(s@),
        r == (trimmed(s@).len() == 0),
{
    proof {
        lemma_blank(s@);
    }
    let t = trim(s);
    t.unicode_len() == 0
}

/// `s` trimmed, unless nothing is left.
pub fn trim_text(s: &str) -> (r: Option<&str>)
    ensures
        match r {
            Some(t) => trimmed_text(s@) == Some(t@),
            None => trimmed_text(s@) is None,
        },
{
    let t = trim(s);
    if t.unicode_len() == 0 {
        None
    } else {
        Some(t)
    }
}

/// `std::string::String::push` appends one character.
pub assume_specification[ std::string::String::push ](s: &mut std::string::String, c: char)
    ensures
        final(s)@ == old(s)@.push(c),
;

/// Two texts, one behind the other.
pub fn glue(a: &str, b: &str) -> (r: String)
    ensures
        r@ == a@ + b@,
{
    let mut out = a.to_owned();
    out.append(b);
    out
}

/// A letter from `A` to `Z` or a digit.
pub open spec fn is_upper_or_digit(c: char) -> bool {
    'A' <= c <= 'Z' || '0' <= c <= '9'
}

/// An ASCII letter or digit.
pub open spec fn is_alphanumeric(c: char) -> bool {
    'a' <= c <= 'z' || 'A' <= c <= 'Z' || '0' <= c <= '9'
}

/// The capital of an ASCII letter; other characters are their own.
pub open spec fn upper(c: char) -> char {
    if 'a' <= c <= 'z' {
        (c as u32 - 32) as char
    } else {
        c
    }
}

/// The capital of an ASCII letter; other characters are their own.
pub fn to_upper(c: char) -> (r: char)
    ensures
        r == upper(c),
{
    if 'a' <= c && c <= 'z' {
        ((c as u8) - 32) as char
    } else {
        c
    }
}

/// An ASCII letter or digit.
pub fn alphanumeric(c: char) -> (r: bool)
    ensures
        r == is_alphanumeric(c),
{
    ('a' <= c && c <= 'z') || ('A' <= c && c <= 'Z') || ('0' <= c && c <= '9')
}

/// `s` begins with `prefix`.
pub open spec fn begins_with(s: Seq<char>, prefix: Seq<char>) -> bool {
    prefix.len() <= s.len() && s.subrange(0, prefix.len() as int) == prefix
}

/// Whether `s` begins with `prefix`.
pub fn starts_with(s: &str, prefix: &str) -> (r: bool)
    ensures
        r == begins_with(s@, prefix@),
{
    let n: usize = prefix.unicode_len();
    if s.unicode_len() < n {
        return false;
    }
    text_eq(s.substring_char(0, n), prefix)
}

/// The digit that stands for a number below ten.
pub open spec fn digit(n: nat) -> char {
    (48 + n) as char
}

/// The decimal numeral of a number.
pub open spec fn decimal(n: nat) -> Seq<char>
    decreases n,
{
    if n < 10 {
        seq![digit(n)]
    } else {
        decimal(n / 10).push(digit(n % 10))
    }
}

/// The decimal numeral of a number.
pub fn numeral(n: u64) -> (r: String)
    ensures
        r@ == decimal(n as nat),
    decreases n,
{
    if n < 10 {
        let mut out = String::new();
        out.push((48u8 + n as u8) as char);
        assert(out@ =~= seq![digit(n as nat)]);
        out
    } else {
        let mut out = numeral(n / 10);
        out.push((48u8 + (n % 10) as u8) as char);
        out
    }
}

/// The characters of a text, where there is one.
pub open spec fn optional_text(s: Option<String>) -> Option<Seq<char>> {
    match s {
        Some(s) => Some(s@),
        None => None,
    }
}

/// The characters of each text.
pub open spec fn texts(s: Seq<String>) -> Seq<Seq<char>> {
    Seq::new(s.len(), |i: int| s[i]@)
}

/// A copy of a text, where there is one.
pub fn clone_text(s: &Option<String>) -> (r: Option<String>)
    ensures
        optional_text(r) == optional_text(*s),
{
    match s {
        Some(s) => Some(s.clone()),
        None => None,
    }
}

/// Whether a text is among others.
pub fn among(names: &Vec<String>, name: &str) -> (r: bool)
    ensures
        r == texts(names@).contains(name@),
{
    let ghost all = texts(names@);
    let mut i: usize = 0;
    while i < names.len()
        invariant
            i <= names@.len(),
            all == texts(names@),
            forall|j: int| 0 <= j < i ==> #[trigger] all[j] != name@,
        decreases names@.len() - i,
    {
        if text_eq(names[i].as_str(), name) {
            assert(all[i as int] == name@);
            return true;
        }
        i += 1;
    }
    false
}

} // verus!
