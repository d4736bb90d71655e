//! The names of MCP servers in the file of dsh: one to thirty-two letters, digits,
//! underscores and hyphens.

use vstd::prelude::*;

use crate::text::{alphanumeric, chars_of, is_alphanumeric, is_space, text_eq, trim, trimmed};

verus! {

/// The longest name that dsh accepts.
pub const SERVER_NAME_MAX_LEN: usize = 32;

/// How much of a long name is kept in front of its hash.
pub const HEAD_LEN: usize = 23;

/// A character that may stand in the name of a server.
pub open spec fn is_name_char(c: char) -> bool {
    is_alphanumeric(c) || c == '_' || c == '-'
}

/// A name that dsh accepts.
pub open spec fn is_server_name(s: Seq<char>) -> bool {
    1 <= s.len() <= SERVER_NAME_MAX_LEN && forall|i: int|
        0 <= i < s.len() ==> is_name_char(#[trigger] s[i])
}

/// A character as it stands in a name: a hyphen where it may not stand there itself.
pub open spec fn folded_char(c: char) -> char {
    if is_name_char(c) {
        c
    } else {
        '-'
    }
}

/// A text with a hyphen for each character that may not stand in a name.
pub open spec fn folded(s: Seq<char>) -> Seq<char> {
    Seq::new(s.len(), |i: int| folded_char(s[i]))
}

/// The FNV-1a hash of some bytes.
pub open spec fn fnv1a(bytes: Seq<u8>) -> u32
    decreases bytes.len(),
{
    if bytes.len() == 0 {
        0x811c_9dc5
    } else {
        (fnv1a(bytes.drop_last()) ^ (bytes.last() as u32)).wrapping_mul(0x0100_0193)
    }
}

/// The hexadecimal digit that stands for a number below sixteen.
pub open spec fn hex_digit(n: u32) -> char {
    if n < 10 {
        (48 + n) as char
    } else {
        (87 + n) as char
    }
}

/// The eight hexadecimal digits of a number.
pub open spec fn hex8(n: u32) -> Seq<char> {
    seq![
        hex_digit(n / 0x1000_0000 % 16),
        hex_digit(n / 0x100_0000 % 16),
        hex_digit(n / 0x10_0000 % 16),
        hex_digit(n / 0x1_0000 % 16),
        hex_digit(n / 0x1000 % 16),
        hex_digit(n / 0x100 % 16),
        hex_digit(n / 0x10 % 16),
        hex_digit(n % 16),
    ]
}

/// A text without its trailing hyphens.
pub open spec fn without_hyphens(s: Seq<char>) -> Seq<char>
    decreases s.len(),
{
    if s.len() > 0 && s[s.len() - 1] == '-' {
        without_hyphens(s.subrange(0, s.len() - 1))
    } else {
        s
    }
}

/// The part of a name in front of its hash.
pub open spec fn head_of(s: Seq<char>) -> Seq<char> {
    let kept = if folded(s).len() > HEAD_LEN {
        folded(s).subrange(0, HEAD_LEN as int)
    } else {
        folded(s)
    };
    let head = without_hyphens(kept);
    if head.len() == 0 {
        "server"@
    } else {
        head
    }
}

/// The name of a server for an id. A clean id is its own name; of any other, what
/// can stand in a name is followed by a hash of the id, so that different ids that
/// look alike get different names. A blank id gives `server`.
pub open spec fn server_name_of(id: Seq<char>) -> Seq<char> {
    let t = trimmed(id);
    if t.len() == 0 {
        "server"@
    } else if folded(t) == t && t.len() <= SERVER_NAME_MAX_LEN {
        t
    } else {
        head_of(t) + seq!['-'] + hex8(fnv1a(vstd::utf8::encode_utf8(t)))
    }
}

/// Every id gets a name that dsh accepts.
pub proof fn law_server_name(id: Seq<char>)
    ensures
        is_server_name(server_name_of(id)),
{
    reveal_strlit("server");
    let t = trimmed(id);
    if t.len() > 0 {
        let kept = if folded(t).len() > HEAD_LEN {
            folded(t).subrange(0, HEAD_LEN as int)
        } else {
            folded(t)
        };
        lemma_without_hyphens(kept);
        let n = fnv1a(vstd::utf8::encode_utf8(t));
        assert forall|i: int| 0 <= i < 8 implies is_name_char(#[trigger] hex8(n)[i]) by {
            assert(forall|d: u32| d < 16 ==> is_name_char(#[trigger] hex_digit(d)));
        }
        let head = head_of(t);
        assert forall|i: int| 0 <= i < head.len() implies is_name_char(#[trigger] head[i]) by {}
        if !(folded(t) == t && t.len() <= SERVER_NAME_MAX_LEN) {
            let name = server_name_of(id);
            assert forall|i: int| 0 <= i < name.len() implies is_name_char(#[trigger] name[i]) by {
                if i < head.len() {
                    assert(name[i] == head[i]);
                } else if i > head.len() {
                    assert(name[i] == hex8(n)[i - head.len() - 1]);
                }
            }
        } else {
            assert forall|i: int| 0 <= i < t.len() implies is_name_char(#[trigger] t[i]) by {
                assert(folded(t)[i] == t[i]);
            }
        }
    }
}

/// An id that is a name already is its own name.
pub proof fn law_clean_name(id: Seq<char>)
    requires
        is_server_name(id),
    ensures
        server_name_of(id) == id,
{
    assert(!is_space(id[0]));
    assert(!is_space(id[id.len() - 1]));
    assert(trimmed(id) == id);
    assert(folded(id) =~= id);
}

proof fn lemma_without_hyphens(s: Seq<char>)
    ensures
        without_hyphens(s).len() <= s.len(),
        forall|i: int| 0 <= i < without_hyphens(s).len() ==> #[trigger] without_hyphens(s)[i] == s[i],
    decreases s.len(),
{
    if s.len() > 0 && s[s.len() - 1] == '-' {
        lemma_without_hyphens(s.subrange(0, s.len() - 1));
    }
}

/// The FNV-1a hash of the bytes of a text.
pub fn fnv1a_32(s: &str) -> (r: u32)
    ensures
        r == fnv1a(vstd::utf8::encode_utf8(s@)),
{
    let bytes = s.as_bytes();
    let ghost all = vstd::utf8::encode_utf8(s@);
    let mut hash: u32 = 0x811c_9dc5;
    let mut i: usize = 0;
    while i < bytes.len()
        invariant
            i <= bytes@.len(),
            bytes@ == all,
            hash == fnv1a(all.take(i as int)),
        decreases bytes@.len() - i,
    {
        assert(all.take(i + 1).drop_last() =~= all.take(i as int));
        hash = (hash ^ (bytes[i] as u32)).wrapping_mul(0x0100_0193);
        i += 1;
    }
    assert(all.take(i as int) =~= all);
    hash
}

/// The hexadecimal digit that stands for a number below sixteen.
fn to_hex_digit(n: u32) -> (r: char)
    requires
        n < 16,
    ensures
        r == hex_digit(n),
{
    if n < 10 {
        (48u8 + n as u8) as char
    } else {
        (87u8 + n as u8) as char
    }
}

/// Appends the eight hexadecimal digits of a number.
fn push_hex(out: &mut String, n: u32)
    ensures
        final(out)@ == old(out)@ + hex8(n),
{
    out.push(to_hex_digit(n / 0x1000_0000 % 16));
    out.push(to_hex_digit(n / 0x100_0000 % 16));
    out.push(to_hex_digit(n / 0x10_0000 % 16));
    out.push(to_hex_digit(n / 0x1_0000 % 16));
    out.push(to_hex_digit(n / 0x1000 % 16));
    out.push(to_hex_digit(n / 0x100 % 16));
    out.push(to_hex_digit(n / 0x10 % 16));
    out.push(to_hex_digit(n % 16));
    assert(out@ =~= old(out)@ + hex8(n));
}

/// A text with a hyphen for each character that may not stand in a name.
fn fold(s: &str) -> (r: String)
    ensures
        r@ == folded(s@),
{
    let chars = chars_of(s);
    let mut out = String::new();
    let mut i: usize = 0;
    while i < chars.len()
        invariant
            i <= chars@.len(),
            chars@ == s@,
            out@ =~= folded(s@).take(i as int),
        decreases chars@.len() - i,
    {
        let c = chars[i];
        out.push(if alphanumeric(c) || c == '_' || c == '-' {
            c
        } else {
            '-'
        });
        i += 1;
    }
    assert(folded(s@).take(i as int) =~= folded(s@));
    out
}

/// The name of a server for an id.
pub fn sanitize_server_name(id: &str) -> (r: String)
    ensures
        r@ == server_name_of(id@),
        is_server_name(r@),
{
    proof {
        law_server_name(id@);
    }
    let t = trim(id);
    let n: usize = t.unicode_len();
    if n == 0 {
        return "server".to_owned();
    }
    let all = fold(t);
    if text_eq(all.as_str(), t) && n <= SERVER_NAME_MAX_LEN {
        return all;
    }
    let kept = if n > HEAD_LEN {
        all.as_str().substring_char(0, HEAD_LEN)
    } else {
        all.as_str()
    };
    let mut to: usize = kept.unicode_len();
    assert(kept@.subrange(0, to as int) =~= kept@);
    while to > 0 && kept.get_char(to - 1) == '-'
        invariant
            to <= kept@.len(),
            without_hyphens(kept@) == without_hyphens(kept@.subrange(0, to as int)),
        decreases to,
    {
        assert(kept@.subrange(0, to as int).subrange(0, to - 1) =~= kept@.subrange(0, to - 1));
        to -= 1;
    }
    let mut name = if to == 0 {
        "server".to_owned()
    } else {
        kept.substring_char(0, to).to_owned()
    };
    name.push('-');
    push_hex(&mut name, fnv1a_32(t));
    assert(name@ =~= server_name_of(id@));
    name
}

} // verus!
