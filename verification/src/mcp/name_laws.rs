//! What holds of the names of MCP servers: a clean id is its own name, and ids that only
//! look alike get names that differ.

use vstd::prelude::*;

use crate::mcp::server_name::{
    fnv1a, folded, folded_char, head_of, hex8, hex_digit, is_name_char, is_server_name,
    law_clean_name, law_server_name, server_name_of, without_hyphens, HEAD_LEN, SERVER_NAME_MAX_LEN,
};
use crate::text::{is_blank, lemma_blank, trimmed};

verus! {

/// The characters of a name in front of its last nine.
pub open spec fn front(name: Seq<char>) -> Seq<char> {
    name.take(name.len() - 9)
}

/// The value of a hexadecimal digit.
pub open spec fn digit_value(c: char) -> int {
    if '0' <= c <= '9' {
        c as int - '0' as int
    } else {
        c as int - 'a' as int + 10
    }
}

/// The number that hexadecimal digits stand for, the most significant first.
pub open spec fn hex_value(s: Seq<char>) -> int
    decreases s.len(),
{
    if s.len() == 0 {
        0
    } else {
        hex_value(s.drop_last()) * 16 + digit_value(s.last())
    }
}

/// The letters, the digits, the underscore and the hyphen may stand in a name.
pub proof fn law_name_chars(c: char)
    ensures
        is_name_char(c) <==> 'a' <= c <= 'z' || 'A' <= c <= 'Z' || '0' <= c <= '9' || c == '_' || c
            == '-',
{
}

/// The hash begins with a fixed number; each byte is mixed into the lower bits, and the
/// result is multiplied by a fixed prime.
pub proof fn law_hash_step(bytes: Seq<u8>, b: u8)
    ensures
        fnv1a(Seq::empty()) == 0x811c_9dc5u32,
        fnv1a(bytes.push(b)) == (fnv1a(bytes) ^ (b as u32)).wrapping_mul(0x0100_0193),
{
    assert(bytes.push(b).drop_last() =~= bytes);
}

/// Mixing in a byte loses nothing of what was hashed before.
proof fn lemma_mix(x: u32, y: u32, a: u32, b: u32)
    requires
        (x ^ a).wrapping_mul(0x0100_0193) == (y ^ b).wrapping_mul(0x0100_0193),
    ensures
        x ^ a == y ^ b,
{
    lemma_times_prime(x ^ a);
    lemma_times_prime(y ^ b);
}

/// Multiplying by the prime can be undone.
proof fn lemma_times_prime(x: u32)
    ensures
        x.wrapping_mul(0x0100_0193).wrapping_mul(0x359c_449b) == x,
{
    let p = x.wrapping_mul(0x0100_0193);
    let m: int = 0x1_0000_0000;
    assert(p as int == (x as int * 0x0100_0193) % m) by {
        vstd::arithmetic::div_mod::lemma_fundamental_div_mod(x as int * 0x0100_0193, m);
    }
    assert(p.wrapping_mul(0x359c_449b) as int == (p as int * 0x359c_449b) % m);
    assert((p as int * 0x359c_449b) % m == (x as int * 0x0100_0193 * 0x359c_449b) % m) by {
        vstd::arithmetic::div_mod::lemma_mul_mod_noop_left(x as int * 0x0100_0193, 0x359c_449b, m);
    }
    assert(x as int * 0x0100_0193 * 0x359c_449b == x as int + (x as int * 0x35_9c99) * m) by (nonlinear_arith)
        requires
            m == 0x1_0000_0000,
    ;
    vstd::arithmetic::div_mod::lemma_mod_multiples_vanish(x as int * 0x35_9c99, x as int, m);
    assert(x as int % m == x as int) by {
        vstd::arithmetic::div_mod::lemma_small_mod(x as nat, m as nat);
    }
}

/// Bytes that differ in one place have different hashes.
pub proof fn law_hash_differs(x: Seq<u8>, y: Seq<u8>, i: int)
    requires
        x.len() == y.len(),
        0 <= i < x.len(),
        x[i] != y[i],
        forall|j: int| 0 <= j < x.len() && j != i ==> x[j] == y[j],
    ensures
        fnv1a(x) != fnv1a(y),
    decreases x.len(),
{
    let a = x.drop_last();
    let b = y.drop_last();
    assert(x =~= a.push(x.last()) && y =~= b.push(y.last()));
    law_hash_step(a, x.last());
    law_hash_step(b, y.last());
    let p = x.last() as u32;
    let q = y.last() as u32;
    if fnv1a(x) == fnv1a(y) {
        lemma_mix(fnv1a(a), fnv1a(b), p, q);
        let h = fnv1a(a);
        let g = fnv1a(b);
        if i == x.len() - 1 {
            assert(a =~= b);
            assert(p == q) by (bit_vector)
                requires
                    h ^ p == h ^ q,
            ;
        } else {
            law_hash_differs(a, b, i);
            assert(h == g) by (bit_vector)
                requires
                    h ^ p == g ^ p,
            ;
        }
    }
}

proof fn lemma_hex_digit(d: u32)
    requires
        d < 16,
    ensures
        digit_value(hex_digit(d)) == d,
        '0' <= hex_digit(d) <= '9' || 'a' <= hex_digit(d) <= 'f',
{
}

/// The number that eight hexadecimal digits stand for.
proof fn lemma_hex_value(s: Seq<char>)
    requires
        s.len() == 8,
    ensures
        hex_value(s) == digit_value(s[0]) * 0x1000_0000 + digit_value(s[1]) * 0x100_0000
            + digit_value(s[2]) * 0x10_0000 + digit_value(s[3]) * 0x1_0000 + digit_value(s[4])
            * 0x1000 + digit_value(s[5]) * 0x100 + digit_value(s[6]) * 0x10 + digit_value(s[7]),
{
    let s7 = s.drop_last();
    let s6 = s7.drop_last();
    let s5 = s6.drop_last();
    let s4 = s5.drop_last();
    let s3 = s4.drop_last();
    let s2 = s3.drop_last();
    let s1 = s2.drop_last();
    assert(hex_value(s1.drop_last()) == 0);
    assert(hex_value(s1) == digit_value(s[0]));
    assert(hex_value(s2) == hex_value(s1) * 16 + digit_value(s[1]));
    assert(hex_value(s3) == hex_value(s2) * 16 + digit_value(s[2]));
    assert(hex_value(s4) == hex_value(s3) * 16 + digit_value(s[3]));
    assert(hex_value(s5) == hex_value(s4) * 16 + digit_value(s[4]));
    assert(hex_value(s6) == hex_value(s5) * 16 + digit_value(s[5]));
    assert(hex_value(s7) == hex_value(s6) * 16 + digit_value(s[6]));
    assert(hex_value(s) == hex_value(s7) * 16 + digit_value(s[7]));
}

/// A number is made up of its hexadecimal digits.
proof fn lemma_digits(n: u32)
    ensures
        n == (n / 0x1000_0000 % 16) * 0x1000_0000 + (n / 0x100_0000 % 16) * 0x100_0000 + (n
            / 0x10_0000 % 16) * 0x10_0000 + (n / 0x1_0000 % 16) * 0x1_0000 + (n / 0x1000 % 16)
            * 0x1000 + (n / 0x100 % 16) * 0x100 + (n / 0x10 % 16) * 0x10 + (n % 16),
{
    let q1 = n / 0x10;
    let q2 = n / 0x100;
    let q3 = n / 0x1000;
    let q4 = n / 0x1_0000;
    let q5 = n / 0x10_0000;
    let q6 = n / 0x100_0000;
    let q7 = n / 0x1000_0000;
    assert(q2 == q1 / 16 && q3 == q2 / 16 && q4 == q3 / 16 && q5 == q4 / 16 && q6 == q5 / 16 && q7
        == q6 / 16 && q7 < 16) by (bit_vector)
        requires
            q1 == n / 0x10,
            q2 == n / 0x100,
            q3 == n / 0x1000,
            q4 == n / 0x1_0000,
            q5 == n / 0x10_0000,
            q6 == n / 0x100_0000,
            q7 == n / 0x1000_0000,
    ;
    assert(n == q1 * 16 + n % 16);
    assert(q1 == q2 * 16 + q1 % 16);
    assert(q2 == q3 * 16 + q2 % 16);
    assert(q3 == q4 * 16 + q3 % 16);
    assert(q4 == q5 * 16 + q4 % 16);
    assert(q5 == q6 * 16 + q5 % 16);
    assert(q6 == q7 * 16 + q6 % 16);
    assert(q7 == q7 % 16);
}

/// The eight hexadecimal digits of a number stand for that number.
#[verifier::rlimit(30)]
pub proof fn law_hex(n: u32)
    ensures
        hex8(n).len() == 8,
        hex_value(hex8(n)) == n,
        forall|i: int|
            0 <= i < 8 ==> '0' <= #[trigger] hex8(n)[i] <= '9' || 'a' <= hex8(n)[i] <= 'f',
{
    lemma_hex_digit(n / 0x1000_0000 % 16);
    lemma_hex_digit(n / 0x100_0000 % 16);
    lemma_hex_digit(n / 0x10_0000 % 16);
    lemma_hex_digit(n / 0x1_0000 % 16);
    lemma_hex_digit(n / 0x1000 % 16);
    lemma_hex_digit(n / 0x100 % 16);
    lemma_hex_digit(n / 0x10 % 16);
    lemma_hex_digit(n % 16);
    lemma_digits(n);
    lemma_hex_value(hex8(n));
    assert(forall|i: int|
        0 <= i < 8 ==> '0' <= #[trigger] hex8(n)[i] <= '9' || 'a' <= hex8(n)[i] <= 'f');
}

/// What is cut off with the hyphens at the end of a text is hyphens.
proof fn lemma_cut(s: Seq<char>)
    ensures
        ({
            let w = without_hyphens(s);
            &&& w.len() <= s.len()
            &&& w == s.take(w.len() as int)
            &&& w.len() > 0 ==> w.last() != '-'
            &&& forall|i: int| w.len() <= i < s.len() ==> #[trigger] s[i] == '-'
        }),
    decreases s.len(),
{
    if s.len() > 0 && s[s.len() - 1] == '-' {
        let shorter = s.subrange(0, s.len() - 1);
        lemma_cut(shorter);
        let w = without_hyphens(s);
        assert(w =~= s.take(w.len() as int)) by {
            assert(w == shorter.take(w.len() as int));
        }
        assert forall|i: int| w.len() <= i < s.len() implies #[trigger] s[i] == '-' by {
            if i < s.len() - 1 {
                assert(shorter[i] == s[i]);
            }
        }
    } else {
        assert(s =~= s.take(s.len() as int));
    }
}

/// A blank id gives the name `server`; an id that is a name, blanks around it aside, is its
/// own name. Every other id gives a name of two parts with a hyphen between them. The
/// second part is the hash of the whole id, blanks around it aside, in hexadecimal. The
/// first is the beginning of the id, with a hyphen for each character that may not stand in
/// a name, without hyphens at its end; it is `server` where nothing else is left.
#[verifier::rlimit(80)]
pub proof fn law_name_parts(id: Seq<char>)
    ensures
        is_blank(id) ==> server_name_of(id) == "server"@,
        is_server_name(trimmed(id)) ==> server_name_of(id) == trimmed(id),
        !is_blank(id) && !is_server_name(trimmed(id)) ==> {
            let t = trimmed(id);
            let name = server_name_of(id);
            let n = name.len() - 9;
            let kept = if t.len() < 23 {
                t.len() as int
            } else {
                23
            };
            &&& 1 <= n <= 23
            &&& name[n] == '-'
            &&& hex_value(name.skip(n + 1)) == fnv1a(vstd::utf8::encode_utf8(t))
            &&& forall|i: int|
                n < i < name.len() ==> '0' <= #[trigger] name[i] <= '9' || 'a' <= name[i] <= 'f'
            &&& if forall|i: int| 0 <= i < kept ==> !is_name_char(#[trigger] t[i]) || t[i] == '-' {
                front(name) == "server"@
            } else {
                &&& n <= kept
                &&& is_name_char(t[n - 1]) && t[n - 1] != '-'
                &&& forall|i: int|
                    0 <= i < n ==> #[trigger] name[i] == (if is_name_char(t[i]) {
                        t[i]
                    } else {
                        '-'
                    })
                &&& forall|i: int| n <= i < kept ==> !is_name_char(#[trigger] t[i]) || t[i] == '-'
            }
        },
{
    let t = trimmed(id);
    lemma_blank(id);
    reveal_strlit("server");
    if t.len() > 0 {
        assert(is_server_name(t) <==> folded(t) == t && t.len() <= SERVER_NAME_MAX_LEN) by {
            if is_server_name(t) {
                assert(folded(t) =~= t);
            }
            if folded(t) == t && t.len() <= SERVER_NAME_MAX_LEN {
                assert forall|i: int| 0 <= i < t.len() implies is_name_char(#[trigger] t[i]) by {
                    assert(folded(t)[i] == t[i]);
                }
            }
        }
        if !is_server_name(t) {
            let name = server_name_of(id);
            let h = fnv1a(vstd::utf8::encode_utf8(t));
            let head = head_of(t);
            let kept = if folded(t).len() > HEAD_LEN {
                folded(t).subrange(0, HEAD_LEN as int)
            } else {
                folded(t)
            };
            let w = without_hyphens(kept);
            let n = head.len() as int;
            lemma_cut(kept);
            law_hex(h);
            assert(name == head + seq!['-'] + hex8(h));
            assert(name.skip(n + 1) =~= hex8(h));
            assert(front(name) =~= head);
            assert forall|i: int| n < i < name.len() implies '0' <= #[trigger] name[i] <= '9'
                || 'a' <= name[i] <= 'f' by {
                assert(name[i] == hex8(h)[i - n - 1]);
            }
            let len = kept.len() as int;
            assert forall|i: int| 0 <= i < len implies #[trigger] kept[i] == folded_char(t[i]) by {}
            if w.len() == 0 {
                assert forall|i: int| 0 <= i < len implies !is_name_char(#[trigger] t[i]) || t[i]
                    == '-' by {
                    assert(kept[i] == '-');
                }
            } else {
                assert(w[n - 1] == kept[n - 1]);
                assert(kept[n - 1] != '-');
                assert(is_name_char(t[n - 1]) && t[n - 1] != '-');
                assert forall|i: int| 0 <= i < n implies #[trigger] name[i] == (if is_name_char(
                    t[i],
                ) {
                    t[i]
                } else {
                    '-'
                }) by {
                    assert(name[i] == w[i]);
                    assert(w[i] == kept[i]);
                }
                assert forall|i: int| n <= i < len implies !is_name_char(#[trigger] t[i]) || t[i]
                    == '-' by {
                    assert(kept[i] == '-');
                }
            }
        }
    }
}

/// Two ids that are no names themselves, and whose hashes differ, get different names.
pub proof fn law_names_differ(a: Seq<char>, b: Seq<char>)
    requires
        !is_blank(a),
        !is_blank(b),
        !is_server_name(trimmed(a)),
        !is_server_name(trimmed(b)),
        fnv1a(vstd::utf8::encode_utf8(trimmed(a))) != fnv1a(vstd::utf8::encode_utf8(trimmed(b))),
    ensures
        server_name_of(a) != server_name_of(b),
{
    law_name_parts(a);
    law_name_parts(b);
}

/// Two ids that are no names themselves, and that differ in one byte, get different names,
/// wherever they differ.
pub proof fn law_alike_ids(a: Seq<char>, b: Seq<char>, i: int)
    requires
        !is_blank(a),
        !is_blank(b),
        !is_server_name(trimmed(a)),
        !is_server_name(trimmed(b)),
        ({
            let x = vstd::utf8::encode_utf8(trimmed(a));
            let y = vstd::utf8::encode_utf8(trimmed(b));
            &&& x.len() == y.len()
            &&& 0 <= i < x.len()
            &&& x[i] != y[i]
            &&& forall|j: int| 0 <= j < x.len() && j != i ==> x[j] == y[j]
        }),
    ensures
        server_name_of(a) != server_name_of(b),
{
    law_hash_differs(
        vstd::utf8::encode_utf8(trimmed(a)),
        vstd::utf8::encode_utf8(trimmed(b)),
        i,
    );
    law_names_differ(a, b);
}

/// Two ids that are names get different names, unless they are the same.
pub proof fn law_clean_names_differ(a: Seq<char>, b: Seq<char>)
    requires
        is_server_name(a),
        is_server_name(b),
        a != b,
    ensures
        server_name_of(a) != server_name_of(b),
{
    law_clean_name(a);
    law_clean_name(b);
}

/// Blanks around an id make no difference to its name, and naming a name changes nothing.
pub proof fn law_name_of_name(id: Seq<char>)
    ensures
        server_name_of(trimmed(id)) == server_name_of(id),
        server_name_of(server_name_of(id)) == server_name_of(id),
{
    crate::text::lemma_trimmed_twice(id);
    law_server_name(id);
    law_clean_name(server_name_of(id));
}

/// A name is one that dsh accepts where it has one to thirty-two letters, digits,
/// underscores and hyphens.
pub proof fn law_accepted_name(s: Seq<char>)
    ensures
        is_server_name(s) <==> 1 <= s.len() <= 32 && forall|i: int|
            0 <= i < s.len() ==> {
                let c = #[trigger] s[i];
                'a' <= c <= 'z' || 'A' <= c <= 'Z' || '0' <= c <= '9' || c == '_' || c == '-'
            },
{
    if is_server_name(s) {
        assert forall|i: int| 0 <= i < s.len() implies {
            let c = #[trigger] s[i];
            'a' <= c <= 'z' || 'A' <= c <= 'Z' || '0' <= c <= '9' || c == '_' || c == '-'
        } by {
            assert(is_name_char(s[i]));
        }
    }
}

} // verus!
