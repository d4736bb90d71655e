//! The mathematical model of a configuration document.
//!
//! A document, whether it was written as YAML or as JSON, is a [`Tree`]. The
//! entries of a mapping keep their order, but order plays no part in equality.

use vstd::prelude::*;
use vstd::relations::injective_on;
use vstd::set_lib::{lemma_int_range, lemma_map_size, lemma_subset_equality, set_int_range};

use crate::numeric::{is_finite, same_number, NumericView};

verus! {

/// A configuration document.
pub enum Tree {
    Null,
    Bool(bool),
    Number(NumericView),
    Text(Seq<char>),
    List(Seq<Tree>),
    Mapping(Seq<(Tree, Tree)>),
    /// A value under a tag; the tag is written with its leading `!`.
    Tagged(Seq<char>, Box<Tree>),
}

/// The entries of a mapping, in order.
pub type Entries = Seq<(Tree, Tree)>;

// ----------------------------------------------------------------------------
// Equality
// ----------------------------------------------------------------------------

/// Equality of documents: mappings are equal when they hold equal entries in
/// whatever order.
#[verifier::opaque]
pub open spec fn same(a: Tree, b: Tree) -> bool
    decreases a, 0nat,
{
    match a {
        Tree::Null => b is Null,
        Tree::Bool(x) => b == Tree::Bool(x),
        Tree::Number(x) => b is Number && same_number(x, b->Number_0),
        Tree::Text(x) => b == Tree::Text(x),
        Tree::List(x) => {
            &&& b is List
            &&& x.len() == b->List_0.len()
            &&& forall|i: int| 0 <= i < x.len() ==> same(#[trigger] x[i], b->List_0[i])
        },
        Tree::Mapping(x) => {
            &&& b is Mapping
            &&& x.len() == b->Mapping_0.len()
            &&& forall|i: int| 0 <= i < x.len() ==> occurs_in(#[trigger] x[i], b->Mapping_0)
            &&& forall|j: int|
                0 <= j < b->Mapping_0.len() ==> covers(x, #[trigger] b->Mapping_0[j])
        },
        Tree::Tagged(tag, x) => b is Tagged && tag == b->Tagged_0 && same(*x, *b->Tagged_1),
    }
}

/// Equality of two entries of a mapping.
pub open spec fn same_entry(a: (Tree, Tree), b: (Tree, Tree)) -> bool
    decreases a, 0nat,
{
    same(a.0, b.0) && same(a.1, b.1)
}

/// The mapping `m` holds an entry that equals `e`.
pub open spec fn occurs_in(e: (Tree, Tree), m: Entries) -> bool
    decreases e, 1nat,
{
    exists|j: int| 0 <= j < m.len() && same_entry(e, #[trigger] m[j])
}

/// The mapping `m` holds an entry that `e` equals.
pub open spec fn covers(m: Entries, e: (Tree, Tree)) -> bool
    decreases m, 0nat,
{
    exists|i: int| 0 <= i < m.len() && same_entry(#[trigger] m[i], e)
}

/// Every document equals itself.
pub proof fn lemma_same_reflexive(a: Tree)
    ensures
        same(a, a),
    decreases a,
{
    reveal(same);
    match a {
        Tree::List(x) => {
            assert forall|i: int| 0 <= i < x.len() implies same(#[trigger] x[i], x[i]) by {
                lemma_same_reflexive(x[i]);
            }
        },
        Tree::Mapping(x) => {
            assert forall|i: int| 0 <= i < x.len() implies #[trigger] same_entry(x[i], x[i]) by {
                lemma_same_reflexive(x[i].0);
                lemma_same_reflexive(x[i].1);
            }
            assert forall|i: int| 0 <= i < x.len() implies occurs_in(#[trigger] x[i], x) by {
                assert(same_entry(x[i], x[i]));
            }
            assert forall|i: int| 0 <= i < x.len() implies covers(x, #[trigger] x[i]) by {
                assert(same_entry(x[i], x[i]));
            }
        },
        Tree::Tagged(_, x) => {
            lemma_same_reflexive(*x);
        },
        _ => {},
    }
}

/// Equality of documents does not depend on the side.
pub proof fn lemma_same_symmetric(a: Tree, b: Tree)
    requires
        same(a, b),
    ensures
        same(b, a),
    decreases a,
{
    reveal(same);
    match a {
        Tree::List(x) => {
            let y = b->List_0;
            assert forall|i: int| 0 <= i < y.len() implies same(#[trigger] y[i], x[i]) by {
                assert(same(x[i], y[i]));
                lemma_same_symmetric(x[i], y[i]);
            }
        },
        Tree::Mapping(x) => {
            let y = b->Mapping_0;
            assert forall|j: int| 0 <= j < y.len() implies occurs_in(#[trigger] y[j], x) by {
                assert(covers(x, y[j]));
                let i = choose|i: int| 0 <= i < x.len() && same_entry(#[trigger] x[i], y[j]);
                assert(same_entry(x[i], y[j]));
                lemma_same_symmetric(x[i].0, y[j].0);
                lemma_same_symmetric(x[i].1, y[j].1);
                assert(same_entry(y[j], x[i]));
            }
            assert forall|i: int| 0 <= i < x.len() implies covers(y, #[trigger] x[i]) by {
                assert(occurs_in(x[i], y));
                let j = choose|j: int| 0 <= j < y.len() && same_entry(x[i], #[trigger] y[j]);
                assert(same_entry(x[i], y[j]));
                lemma_same_symmetric(x[i].0, y[j].0);
                lemma_same_symmetric(x[i].1, y[j].1);
                assert(same_entry(y[j], x[i]));
            }
        },
        Tree::Tagged(_, x) => {
            lemma_same_symmetric(*x, *b->Tagged_1);
        },
        _ => {},
    }
}

/// Two documents equal to a third are equal to each other.
pub proof fn lemma_same_transitive(a: Tree, b: Tree, c: Tree)
    requires
        same(a, b),
        same(b, c),
    ensures
        same(a, c),
    decreases a,
{
    reveal(same);
    match a {
        Tree::List(x) => {
            let y = b->List_0;
            let z = c->List_0;
            assert forall|i: int| 0 <= i < x.len() implies same(#[trigger] x[i], z[i]) by {
                assert(same(x[i], y[i]));
                assert(same(y[i], z[i]));
                lemma_same_transitive(x[i], y[i], z[i]);
            }
        },
        Tree::Mapping(x) => {
            let y = b->Mapping_0;
            let z = c->Mapping_0;
            assert forall|i: int| 0 <= i < x.len() implies occurs_in(#[trigger] x[i], z) by {
                assert(occurs_in(x[i], y));
                let j = choose|j: int| 0 <= j < y.len() && same_entry(x[i], #[trigger] y[j]);
                assert(same_entry(x[i], y[j]));
                assert(occurs_in(y[j], z));
                let k = choose|k: int| 0 <= k < z.len() && same_entry(y[j], #[trigger] z[k]);
                assert(same_entry(y[j], z[k]));
                lemma_same_transitive(x[i].0, y[j].0, z[k].0);
                lemma_same_transitive(x[i].1, y[j].1, z[k].1);
                assert(same_entry(x[i], z[k]));
            }
            assert forall|k: int| 0 <= k < z.len() implies covers(x, #[trigger] z[k]) by {
                assert(covers(y, z[k]));
                let j = choose|j: int| 0 <= j < y.len() && same_entry(#[trigger] y[j], z[k]);
                assert(same_entry(y[j], z[k]));
                assert(covers(x, y[j]));
                let i = choose|i: int| 0 <= i < x.len() && same_entry(#[trigger] x[i], y[j]);
                assert(same_entry(x[i], y[j]));
                lemma_same_transitive(x[i].0, y[j].0, z[k].0);
                lemma_same_transitive(x[i].1, y[j].1, z[k].1);
                assert(same_entry(x[i], z[k]));
            }
        },
        Tree::Tagged(_, x) => {
            lemma_same_transitive(*x, *b->Tagged_1, *c->Tagged_1);
        },
        _ => {},
    }
}

/// Only a text equals a text, and only the same one.
pub broadcast proof fn lemma_same_text(s: Seq<char>, t: Tree)
    ensures
        #[trigger] same(Tree::Text(s), t) <==> t == Tree::Text(s),
{
    reveal(same);
}

/// Equal documents equal the same documents.
pub proof fn lemma_same_congruent(a: Tree, b: Tree, c: Tree)
    requires
        same(a, b),
    ensures
        same(a, c) == same(b, c),
        same(c, a) == same(c, b),
{
    lemma_same_symmetric(a, b);
    if same(a, c) {
        lemma_same_transitive(b, a, c);
    }
    if same(b, c) {
        lemma_same_transitive(a, b, c);
    }
    if same(c, a) {
        lemma_same_transitive(c, a, b);
    }
    if same(c, b) {
        lemma_same_transitive(c, b, a);
    }
}

// ----------------------------------------------------------------------------
// Mappings
// ----------------------------------------------------------------------------

/// The entry at position `i` of `m` has a key that equals `k`.
pub open spec fn key_at(m: Entries, k: Tree, i: int) -> bool {
    0 <= i < m.len() && same(k, m[i].0)
}

/// Some entry of `m` has a key that equals `k`.
pub open spec fn has_key(m: Entries, k: Tree) -> bool {
    exists|i: int| #[trigger] key_at(m, k, i)
}

/// The position of the entry of `m` whose key equals `k`.
pub open spec fn index_of(m: Entries, k: Tree) -> int {
    choose|i: int| #[trigger] key_at(m, k, i)
}

/// The value that `m` holds under `k`.
pub open spec fn lookup(m: Entries, k: Tree) -> Option<Tree> {
    if has_key(m, k) {
        Some(m[index_of(m, k)].1)
    } else {
        None
    }
}

/// No two entries of `m` have equal keys.
pub open spec fn distinct_keys(m: Entries) -> bool {
    forall|i: int, j: int|
        0 <= i < m.len() && 0 <= j < m.len() && i != j ==> !same(
            (#[trigger] m[i]).0,
            (#[trigger] m[j]).0,
        )
}

/// What every document satisfies: a mapping holds each key once, a negative
/// integer is negative, and a tag is an exclamation mark with more behind it.
pub open spec fn well_formed(t: Tree) -> bool
    decreases t,
{
    match t {
        Tree::Number(NumericView::NegInt(i)) => i < 0,
        Tree::List(x) => forall|i: int| 0 <= i < x.len() ==> well_formed(#[trigger] x[i]),
        Tree::Mapping(x) => {
            &&& distinct_keys(x)
            &&& forall|i: int|
                0 <= i < x.len() ==> well_formed((#[trigger] x[i]).0) && well_formed(x[i].1)
        },
        Tree::Tagged(tag, x) => tag.len() >= 2 && tag[0] == '!' && well_formed(*x),
        _ => true,
    }
}

/// What a JSON document satisfies besides: keys are texts, numbers are finite,
/// and nothing is tagged.
pub open spec fn json_shaped(t: Tree) -> bool
    decreases t,
{
    match t {
        Tree::Number(NumericView::Float(bits)) => is_finite(bits),
        Tree::List(x) => forall|i: int| 0 <= i < x.len() ==> json_shaped(#[trigger] x[i]),
        Tree::Mapping(x) => forall|i: int|
            0 <= i < x.len() ==> (#[trigger] x[i]).0 is Text && json_shaped(x[i].1),
        Tree::Tagged(_, _) => false,
        _ => true,
    }
}

/// A well-formed JSON document.
pub open spec fn is_json(t: Tree) -> bool {
    well_formed(t) && json_shaped(t)
}

/// A document of at most `depth` levels that has no floats and no tags, and whose
/// keys are texts.
pub open spec fn exact(t: Tree, depth: nat) -> bool
    decreases t,
{
    match t {
        Tree::Number(NumericView::Float(_)) => false,
        Tree::List(x) => depth > 0 && forall|i: int|
            0 <= i < x.len() ==> exact(#[trigger] x[i], (depth - 1) as nat),
        Tree::Mapping(x) => depth > 0 && forall|i: int|
            0 <= i < x.len() ==> (#[trigger] x[i]).0 is Text && exact(x[i].1, (depth - 1) as nat),
        Tree::Tagged(_, _) => false,
        _ => true,
    }
}

/// A document that JSON keeps to the letter: it has no floats, whose last digit may
/// change, and is not nested too deep to be read.
pub open spec fn is_exact(t: Tree) -> bool {
    exact(t, 127)
}

/// The longest text that a document may hold and still be written and read as YAML.
pub open spec fn text_limit() -> nat {
    0x100_0000
}

/// A document of at most `depth` levels without tags, whose numbers are finite and
/// whose keys are texts.
pub open spec fn plain(t: Tree, depth: nat) -> bool
    decreases t,
{
    match t {
        Tree::Number(NumericView::Float(bits)) => is_finite(bits),
        Tree::Text(s) => s.len() <= text_limit(),
        Tree::List(x) => depth > 0 && forall|i: int|
            0 <= i < x.len() ==> plain(#[trigger] x[i], (depth - 1) as nat),
        Tree::Mapping(x) => depth > 0 && forall|i: int|
            0 <= i < x.len() ==> ((#[trigger] x[i]).0 matches Tree::Text(k) && k.len()
                <= text_limit()) && plain(x[i].1, (depth - 1) as nat),
        Tree::Tagged(_, _) => false,
        _ => true,
    }
}

/// A document that YAML keeps to the letter.
pub open spec fn is_plain(t: Tree) -> bool {
    plain(t, 128)
}

/// A tag of one exclamation mark and a text behind it that YAML can write and read.
pub open spec fn simple_tag(tag: Seq<char>) -> bool {
    &&& tag.len() > 1 && tag.len() <= text_limit()
    &&& tag[0] == '!' && tag[1] != '!'
    &&& forall|i: int|
        0 < i < tag.len() ==> #[trigger] tag[i] != ',' && tag[i] != '[' && tag[i] != ']' && tag[i]
            != '\0'
}

/// A mapping of one entry whose key has a tag, or is itself a mapping of one entry.
pub open spec fn lone_compound(x: Entries) -> bool {
    x.len() == 1 && (x[0].0 is Tagged || (x[0].0 matches Tree::Mapping(k) && k.len() == 1))
}

/// A document of at most `depth` levels, with simple tags and with no lone compound keys.
pub open spec fn storable(t: Tree, depth: nat) -> bool
    decreases t,
{
    match t {
        Tree::Text(s) => s.len() <= text_limit(),
        Tree::List(x) => depth > 0 && forall|i: int|
            0 <= i < x.len() ==> storable(#[trigger] x[i], (depth - 1) as nat),
        Tree::Mapping(x) => depth > 0 && !lone_compound(x) && forall|i: int|
            0 <= i < x.len() ==> storable((#[trigger] x[i]).0, (depth - 1) as nat) && storable(
                x[i].1,
                (depth - 1) as nat,
            ),
        Tree::Tagged(tag, x) => simple_tag(tag) && !(*x is Tagged) && storable(*x, depth),
        _ => true,
    }
}

/// A document that YAML reads as it has written it.
pub open spec fn is_storable(t: Tree) -> bool {
    storable(t, 128)
}

/// What is plain is storable.
pub proof fn lemma_plain_storable(t: Tree, depth: nat)
    requires
        plain(t, depth),
    ensures
        storable(t, depth),
    decreases t,
{
    match t {
        Tree::List(x) => {
            assert forall|i: int| 0 <= i < x.len() implies storable(
                #[trigger] x[i],
                (depth - 1) as nat,
            ) by {
                lemma_plain_storable(x[i], (depth - 1) as nat);
            }
        },
        Tree::Mapping(x) => {
            assert forall|i: int| 0 <= i < x.len() implies storable(
                (#[trigger] x[i]).0,
                (depth - 1) as nat,
            ) && storable(x[i].1, (depth - 1) as nat) by {
                lemma_plain_storable(x[i].1, (depth - 1) as nat);
            }
        },
        _ => {},
    }
}

/// A character that YAML accepts between double quotes once JSON has written it: the
/// control characters below the space are escaped, but those above `~` are not, nor
/// are the line breaks of Unicode.
pub open spec fn flow_char(c: char) -> bool {
    ||| c <= '~'
    ||| '\u{a0}' <= c && c != '\u{2028}' && c != '\u{2029}' && c != '\u{fffe}' && c != '\u{ffff}'
}

/// The bytes that a character takes between the quotes of JSON.
pub open spec fn flow_width(c: char) -> nat {
    if c == '"' || c == '\\' || c == '\u{8}' || c == '\t' || c == '\n' || c == '\u{c}' || c == '\r' {
        2
    } else if c <= '\u{1f}' {
        6
    } else if c <= '~' {
        1
    } else if c <= '\u{7ff}' {
        2
    } else if c <= '\u{ffff}' {
        3
    } else {
        4
    }
}

/// The bytes that a text takes between the quotes of JSON.
pub open spec fn flow_len(s: Seq<char>) -> nat
    decreases s.len(),
{
    if s.len() == 0 {
        0
    } else {
        flow_len(s.drop_last()) + flow_width(s.last())
    }
}

/// A text of characters that YAML accepts from JSON.
pub open spec fn flow_text(s: Seq<char>) -> bool {
    forall|i: int| 0 <= i < s.len() ==> flow_char(#[trigger] s[i])
}

/// The texts of the document have characters that YAML accepts from JSON, and its keys
/// are short enough to be taken for keys.
pub open spec fn flow_texts(t: Tree) -> bool
    decreases t,
{
    match t {
        Tree::Text(s) => flow_text(s),
        Tree::List(x) => forall|i: int| 0 <= i < x.len() ==> flow_texts(#[trigger] x[i]),
        Tree::Mapping(x) => forall|i: int|
            0 <= i < x.len() ==> ((#[trigger] x[i]).0 matches Tree::Text(k) && flow_text(k)
                && flow_len(k) <= 1022) && flow_texts(x[i].1),
        _ => true,
    }
}

/// A document whose JSON text YAML reads as the same document.
pub open spec fn is_flow(t: Tree) -> bool {
    is_plain(t) && flow_texts(t)
}

/// `m` with `v` under `k`: in place where the key is there, else at the end.
pub open spec fn with_key(m: Entries, k: Tree, v: Tree) -> Entries {
    if has_key(m, k) {
        m.update(index_of(m, k), (m[index_of(m, k)].0, v))
    } else {
        m.push((k, v))
    }
}

/// `m` without its entry at `i`, whose place the last entry takes.
pub open spec fn swap_removed(m: Entries, i: int) -> Entries {
    m.update(i, m.last()).drop_last()
}

/// `m` without the entry under `k`; the last entry takes its place.
pub open spec fn swapped_out(m: Entries, k: Tree) -> Entries {
    if has_key(m, k) {
        swap_removed(m, index_of(m, k))
    } else {
        m
    }
}

/// `m` without the entry under `k`; the others stay in their order.
pub open spec fn without_key(m: Entries, k: Tree) -> Entries {
    if has_key(m, k) {
        m.remove(index_of(m, k))
    } else {
        m
    }
}

/// `m` without the entry under `k`, with the others in their order or with the
/// last one in its place.
pub open spec fn without(m: Entries, k: Tree, ordered: bool) -> Entries {
    if ordered {
        without_key(m, k)
    } else {
        swapped_out(m, k)
    }
}

/// The entries of `other` whose keys `m` does not have, in order.
pub open spec fn missing_from(m: Entries, other: Entries) -> Entries {
    other.filter(|e: (Tree, Tree)| !has_key(m, e.0))
}

/// `m`, and behind it the entries of `other` whose keys it does not have.
pub open spec fn filled(m: Entries, other: Entries) -> Entries {
    m + missing_from(m, other)
}

/// The entries of `m` in their places, with the values that `new` has for their
/// keys, and behind them the entries of `new` whose keys `m` does not have.
pub open spec fn overlaid(m: Entries, new: Entries) -> Entries {
    Seq::new(
        m.len(),
        |i: int|
            (
                m[i].0,
                match lookup(new, m[i].0) {
                    Some(v) => v,
                    None => m[i].1,
                },
            ),
    ) + missing_from(m, new)
}

/// In a mapping that holds each key once, an entry is found by its key.
pub proof fn lemma_index_of(m: Entries, k: Tree, i: int)
    requires
        distinct_keys(m),
        key_at(m, k, i),
    ensures
        has_key(m, k),
        index_of(m, k) == i,
        lookup(m, k) == Some(m[i].1),
{
    let j = index_of(m, k);
    assert(key_at(m, k, j));
    if i != j {
        lemma_same_symmetric(k, m[i].0);
        lemma_same_transitive(m[i].0, k, m[j].0);
    }
}

/// Equal keys are found in the same place.
pub proof fn lemma_lookup_same(m: Entries, k: Tree, l: Tree)
    requires
        same(k, l),
        distinct_keys(m),
    ensures
        has_key(m, k) == has_key(m, l),
        lookup(m, k) == lookup(m, l),
        has_key(m, k) ==> index_of(m, k) == index_of(m, l),
{
    if has_key(m, k) {
        let i = index_of(m, k);
        assert(key_at(m, k, i));
        lemma_same_congruent(k, l, m[i].0);
        assert(key_at(m, l, i));
        lemma_index_of(m, l, i);
    }
    if has_key(m, l) {
        let i = index_of(m, l);
        assert(key_at(m, l, i));
        lemma_same_congruent(k, l, m[i].0);
        assert(key_at(m, k, i));
        lemma_index_of(m, k, i);
    }
}

/// Writing under a key changes what is found under that key alone, and keeps
/// each key once.
pub proof fn lemma_with_key(m: Entries, k: Tree, v: Tree)
    requires
        distinct_keys(m),
    ensures
        distinct_keys(with_key(m, k, v)),
        lookup(with_key(m, k, v), k) == Some(v),
        forall|l: Tree|
            #![trigger lookup(with_key(m, k, v), l)]
            #![trigger has_key(with_key(m, k, v), l)]
            !same(k, l) ==> lookup(with_key(m, k, v), l) == lookup(m, l) && has_key(
                with_key(m, k, v),
                l,
            ) == has_key(m, l),
{
    let w = with_key(m, k, v);
    lemma_same_reflexive(k);
    if has_key(m, k) {
        assert(key_at(m, k, index_of(m, k)));
        assert(key_at(w, k, index_of(m, k)));
        lemma_index_of(w, k, index_of(m, k));
    } else {
        assert forall|i: int, j: int| 0 <= i < w.len() && 0 <= j < w.len() && i != j implies !same(
            (#[trigger] w[i]).0,
            (#[trigger] w[j]).0,
        ) by {
            if i == m.len() {
                assert(!key_at(m, k, j));
            } else if j == m.len() {
                assert(!key_at(m, k, i));
                if same(w[i].0, k) {
                    lemma_same_symmetric(w[i].0, k);
                }
            }
        }
        assert(key_at(w, k, m.len() as int));
        lemma_index_of(w, k, m.len() as int);
    }
    assert forall|l: Tree| !same(k, l) implies #[trigger] lookup(w, l) == lookup(m, l) && has_key(
        w,
        l,
    ) == has_key(m, l) by {
        if has_key(m, l) {
            let i = index_of(m, l);
            assert(key_at(m, l, i));
            if has_key(m, k) && i == index_of(m, k) {
                assert(key_at(m, k, i));
                lemma_same_symmetric(l, m[i].0);
                lemma_same_transitive(k, m[i].0, l);
            }
            assert(key_at(w, l, i));
            lemma_index_of(w, l, i);
        }
        if has_key(w, l) {
            let i = index_of(w, l);
            assert(key_at(w, l, i));
            if i == m.len() {
                lemma_same_symmetric(l, k);
            } else {
                assert(key_at(m, l, i));
            }
        }
    }
}

/// Swapping a key out makes it absent, changes nothing else, and keeps each key once.
pub proof fn lemma_swapped_out(m: Entries, k: Tree)
    requires
        distinct_keys(m),
    ensures
        distinct_keys(swapped_out(m, k)),
        !has_key(swapped_out(m, k), k),
        forall|l: Tree|
            #![trigger lookup(swapped_out(m, k), l)]
            #![trigger has_key(swapped_out(m, k), l)]
            !same(k, l) ==> lookup(swapped_out(m, k), l) == lookup(m, l) && has_key(
                swapped_out(m, k),
                l,
            ) == has_key(m, l),
{
    let w = swapped_out(m, k);
    if has_key(m, k) {
        let i = index_of(m, k);
        let n = m.len() - 1;
        assert(key_at(m, k, i));
        assert forall|p: int| 0 <= p < w.len() implies #[trigger] w[p] == m[if p == i { n } else { p }] by {}
        if has_key(w, k) {
            let p = index_of(w, k);
            assert(key_at(w, k, p));
            let q = if p == i { n } else { p };
            assert(key_at(m, k, q));
            lemma_index_of(m, k, q);
        }
        assert forall|l: Tree| !same(k, l) implies #[trigger] lookup(w, l) == lookup(m, l) && has_key(
            w,
            l,
        ) == has_key(m, l) by {
            if has_key(m, l) {
                let j = index_of(m, l);
                assert(key_at(m, l, j));
                if j == i {
                    lemma_same_symmetric(l, m[i].0);
                    lemma_same_transitive(k, m[i].0, l);
                }
                let p = if j == n { i } else { j };
                assert(key_at(w, l, p));
                lemma_index_of(w, l, p);
            }
            if has_key(w, l) {
                let p = index_of(w, l);
                assert(key_at(w, l, p));
                let q = if p == i { n } else { p };
                assert(key_at(m, l, q));
            }
        }
    }
}

/// Removing a key makes it absent, changes nothing else, and keeps each key once.
pub proof fn lemma_without_key(m: Entries, k: Tree)
    requires
        distinct_keys(m),
    ensures
        distinct_keys(without_key(m, k)),
        !has_key(without_key(m, k), k),
        forall|l: Tree|
            #![trigger lookup(without_key(m, k), l)]
            #![trigger has_key(without_key(m, k), l)]
            !same(k, l) ==> lookup(without_key(m, k), l) == lookup(m, l) && has_key(
                without_key(m, k),
                l,
            ) == has_key(m, l),
{
    let w = without_key(m, k);
    if has_key(m, k) {
        let i = index_of(m, k);
        assert(key_at(m, k, i));
        assert forall|p: int| 0 <= p < w.len() implies #[trigger] w[p] == m[if p < i { p } else { p + 1 }] by {}
        if has_key(w, k) {
            let p = index_of(w, k);
            assert(key_at(w, k, p));
            let q = if p < i { p } else { p + 1 };
            assert(key_at(m, k, q));
            lemma_index_of(m, k, q);
        }
        assert forall|l: Tree| !same(k, l) implies #[trigger] lookup(w, l) == lookup(m, l) && has_key(
            w,
            l,
        ) == has_key(m, l) by {
            if has_key(m, l) {
                let j = index_of(m, l);
                assert(key_at(m, l, j));
                if j == i {
                    lemma_same_symmetric(l, m[i].0);
                    lemma_same_transitive(k, m[i].0, l);
                }
                let p = if j < i { j } else { j - 1 };
                assert(key_at(w, l, p));
                lemma_index_of(w, l, p);
            }
            if has_key(w, l) {
                let p = index_of(w, l);
                assert(key_at(w, l, p));
                let q = if p < i { p } else { p + 1 };
                assert(key_at(m, l, q));
            }
        }
    }
}

/// In mappings of one size that hold each key once, if every entry of the first
/// occurs in the second, every entry of the second is covered by the first.
pub proof fn lemma_covered(x: Entries, y: Entries)
    requires
        x.len() == y.len(),
        distinct_keys(x),
        forall|i: int| 0 <= i < x.len() ==> occurs_in(#[trigger] x[i], y),
    ensures
        forall|j: int| 0 <= j < y.len() ==> covers(x, #[trigger] y[j]),
{
    reveal(same);
    let n = x.len() as int;
    let dom = set_int_range(0, n);
    let f = |i: int| choose|j: int| 0 <= j < y.len() && same_entry(x[i], #[trigger] y[j]);
    let image = dom.map(f);
    assert forall|i: int| 0 <= i < n implies 0 <= #[trigger] f(i) < n && same_entry(x[i], y[f(i)]) by {
        assert(occurs_in(x[i], y));
    }
    assert(injective_on(f, dom)) by {
        assert forall|i: int, k: int|
            dom.contains(i) && dom.contains(k) && #[trigger] f(i) == #[trigger] f(k) implies i == k by {
            assert(same_entry(x[i], y[f(i)]));
            assert(same_entry(x[k], y[f(k)]));
            lemma_same_symmetric(x[k].0, y[f(k)].0);
            lemma_same_transitive(x[i].0, y[f(i)].0, x[k].0);
        }
    }
    lemma_int_range(0, n);
    lemma_map_size(dom, image, f);
    assert(image.subset_of(dom)) by {
        assert forall|j: int| #[trigger] image.contains(j) implies dom.contains(j) by {
            let i = choose|i: int| dom.contains(i) && f(i) == j;
            assert(0 <= f(i) < n);
        }
    }
    lemma_subset_equality(image, dom);
    assert forall|j: int| 0 <= j < y.len() implies covers(x, #[trigger] y[j]) by {
        assert(dom.contains(j));
        assert(image.contains(j));
        let i = choose|i: int| dom.contains(i) && f(i) == j;
        assert(same_entry(x[i], y[f(i)]));
    }
}

/// Choosing entries of a mapping by a condition keeps each key once, and what is
/// under the keys that are left.
pub proof fn lemma_filtered(m: Entries, p: spec_fn((Tree, Tree)) -> bool)
    requires
        distinct_keys(m),
    ensures
        distinct_keys(m.filter(p)),
        forall|j: int|
            0 <= j < m.filter(p).len() ==> m.contains(#[trigger] m.filter(p)[j]) && p(
                m.filter(p)[j],
            ),
        forall|i: int| 0 <= i < m.len() && p(m[i]) ==> m.filter(p).contains(#[trigger] m[i]),
    decreases m.len(),
{
    reveal(Seq::filter);
    let f = m.filter(p);
    if m.len() > 0 {
        let init = m.drop_last();
        let sub = init.filter(p);
        assert forall|i: int, j: int| 0 <= i < init.len() && 0 <= j < init.len() && i != j implies !same(
            (#[trigger] init[i]).0,
            (#[trigger] init[j]).0,
        ) by {
            assert(init[i] == m[i] && init[j] == m[j]);
        }
        lemma_filtered(init, p);
        assert forall|j: int| 0 <= j < f.len() implies m.contains(#[trigger] f[j]) && p(f[j]) by {
            if j < sub.len() {
                assert(f[j] == sub[j]);
                assert(init.contains(sub[j]));
                let i = choose|i: int| 0 <= i < init.len() && init[i] == sub[j];
                assert(m[i] == f[j]);
            } else {
                assert(f[j] == m[m.len() - 1]);
            }
        }
        assert forall|i: int| 0 <= i < m.len() && p(m[i]) implies f.contains(#[trigger] m[i]) by {
            if i < init.len() {
                assert(init[i] == m[i]);
                assert(sub.contains(init[i]));
                let j = choose|j: int| 0 <= j < sub.len() && sub[j] == init[i];
                assert(f[j] == m[i]);
            } else {
                assert(f[f.len() - 1] == m[i]);
            }
        }
        if p(m.last()) {
            assert forall|i: int, j: int| 0 <= i < f.len() && 0 <= j < f.len() && i != j implies !same(
                (#[trigger] f[i]).0,
                (#[trigger] f[j]).0,
            ) by {
                if i < sub.len() && j < sub.len() {
                    assert(f[i] == sub[i] && f[j] == sub[j]);
                } else if i < sub.len() {
                    assert(init.contains(sub[i]));
                    let q = choose|q: int| 0 <= q < init.len() && init[q] == sub[i];
                    assert(m[q] == f[i] && m[m.len() - 1] == f[j]);
                } else {
                    assert(init.contains(sub[j]));
                    let q = choose|q: int| 0 <= q < init.len() && init[q] == sub[j];
                    assert(m[q] == f[j] && m[m.len() - 1] == f[i]);
                }
            }
        }
    }
}

/// What is found among the entries that satisfy a condition.
pub proof fn lemma_filtered_lookup(m: Entries, p: spec_fn((Tree, Tree)) -> bool, k: Tree)
    requires
        distinct_keys(m),
    ensures
        has_key(m.filter(p), k) <==> has_key(m, k) && p(m[index_of(m, k)]),
        has_key(m.filter(p), k) ==> lookup(m.filter(p), k) == lookup(m, k),
{
    lemma_filtered(m, p);
    let f = m.filter(p);
    if has_key(f, k) {
        let j = index_of(f, k);
        assert(key_at(f, k, j));
        assert(m.contains(f[j]));
        let i = choose|i: int| 0 <= i < m.len() && m[i] == f[j];
        assert(key_at(m, k, i));
        lemma_index_of(m, k, i);
    }
    if has_key(m, k) && p(m[index_of(m, k)]) {
        let i = index_of(m, k);
        assert(key_at(m, k, i));
        assert(f.contains(m[i]));
        let j = choose|j: int| 0 <= j < f.len() && f[j] == m[i];
        assert(key_at(f, k, j));
        lemma_index_of(f, k, j);
    }
}

// ----------------------------------------------------------------------------
// Reading
// ----------------------------------------------------------------------------

/// The value under whatever tags it carries.
pub open spec fn untagged(t: Tree) -> Tree
    decreases t,
{
    match t {
        Tree::Tagged(_, x) => untagged(*x),
        _ => t,
    }
}

/// The entries of a mapping, tagged or not.
pub open spec fn entries_of(t: Tree) -> Option<Entries> {
    match untagged(t) {
        Tree::Mapping(m) => Some(m),
        _ => None,
    }
}

/// The items of a list, tagged or not.
pub open spec fn items_of(t: Tree) -> Option<Seq<Tree>> {
    match untagged(t) {
        Tree::List(x) => Some(x),
        _ => None,
    }
}

/// The characters of a text, tagged or not.
pub open spec fn text_of(t: Tree) -> Option<Seq<char>> {
    match untagged(t) {
        Tree::Text(s) => Some(s),
        _ => None,
    }
}

/// The value that a mapping, tagged or not, holds under a text.
pub open spec fn field(t: Tree, name: Seq<char>) -> Option<Tree> {
    match entries_of(t) {
        Some(m) => lookup(m, Tree::Text(name)),
        None => None,
    }
}

/// The text that a mapping holds under a text.
pub open spec fn text_field(t: Tree, name: Seq<char>) -> Option<Seq<char>> {
    match field(t, name) {
        Some(v) => text_of(v),
        None => None,
    }
}

/// A mapping, tagged or not, with other entries; its tags stay.
pub open spec fn refilled(t: Tree, m: Entries) -> Tree
    decreases t,
{
    match t {
        Tree::Tagged(tag, x) => Tree::Tagged(tag, Box::new(refilled(*x, m))),
        _ => Tree::Mapping(m),
    }
}

/// A list, tagged or not, with other items; its tags stay.
pub open spec fn relisted(t: Tree, x: Seq<Tree>) -> Tree
    decreases t,
{
    match t {
        Tree::Tagged(tag, inner) => Tree::Tagged(tag, Box::new(relisted(*inner, x))),
        _ => Tree::List(x),
    }
}

/// A mapping with other entries holds those entries, and is as well-formed as
/// they are.
pub proof fn lemma_refilled(t: Tree, m: Entries)
    ensures
        entries_of(refilled(t, m)) == Some(m),
        well_formed(t) && well_formed(Tree::Mapping(m)) ==> well_formed(refilled(t, m)),
        json_shaped(t) && json_shaped(Tree::Mapping(m)) ==> json_shaped(refilled(t, m)),
    decreases t,
{
    match t {
        Tree::Tagged(_, x) => {
            lemma_refilled(*x, m);
        },
        _ => {},
    }
}

/// A list with other items holds those items, and is as well-formed as they are.
pub proof fn lemma_relisted(t: Tree, x: Seq<Tree>)
    ensures
        items_of(relisted(t, x)) == Some(x),
        well_formed(t) && well_formed(Tree::List(x)) ==> well_formed(relisted(t, x)),
    decreases t,
{
    match t {
        Tree::Tagged(_, inner) => {
            lemma_relisted(*inner, x);
        },
        _ => {},
    }
}

/// The items of a well-formed list are well-formed.
pub proof fn lemma_item_well_formed(x: Seq<Tree>, i: int)
    requires
        well_formed(Tree::List(x)),
        0 <= i < x.len(),
    ensures
        well_formed(x[i]),
        json_shaped(Tree::List(x)) ==> json_shaped(x[i]),
{
    assert(Tree::List(x)->List_0[i] == x[i]);
}

/// The entries of a well-formed mapping are well-formed.
pub proof fn lemma_entry_well_formed(m: Entries, i: int)
    requires
        well_formed(Tree::Mapping(m)),
        0 <= i < m.len(),
    ensures
        distinct_keys(m),
        well_formed(m[i].0),
        well_formed(m[i].1),
        json_shaped(Tree::Mapping(m)) ==> m[i].0 is Text && json_shaped(m[i].1),
{
}

/// What is under the tags of a well-formed document is well-formed.
pub proof fn lemma_untagged(t: Tree)
    ensures
        well_formed(t) ==> well_formed(untagged(t)),
        json_shaped(t) ==> untagged(t) == t,
        !(untagged(t) is Tagged),
    decreases t,
{
    match t {
        Tree::Tagged(_, x) => {
            lemma_untagged(*x);
        },
        _ => {},
    }
}

/// What a well-formed mapping holds is well-formed.
pub proof fn lemma_lookup_well_formed(m: Entries, k: Tree)
    requires
        well_formed(Tree::Mapping(m)),
        has_key(m, k),
    ensures
        well_formed(lookup(m, k)->0),
        json_shaped(Tree::Mapping(m)) ==> json_shaped(lookup(m, k)->0),
        0 <= index_of(m, k) < m.len(),
{
    assert(key_at(m, k, index_of(m, k)));
}

/// Writing a well-formed value under a well-formed key keeps a mapping well-formed.
pub proof fn lemma_with_key_well_formed(m: Entries, k: Tree, v: Tree)
    requires
        well_formed(Tree::Mapping(m)),
        well_formed(k),
        well_formed(v),
    ensures
        well_formed(Tree::Mapping(with_key(m, k, v))),
        json_shaped(Tree::Mapping(m)) && k is Text && json_shaped(v) ==> json_shaped(
            Tree::Mapping(with_key(m, k, v)),
        ),
{
    lemma_with_key(m, k, v);
    if has_key(m, k) {
        assert(key_at(m, k, index_of(m, k)));
    }
}

/// Swapping a key out keeps a mapping well-formed.
pub proof fn lemma_swapped_out_well_formed(m: Entries, k: Tree)
    requires
        well_formed(Tree::Mapping(m)),
    ensures
        well_formed(Tree::Mapping(swapped_out(m, k))),
        json_shaped(Tree::Mapping(m)) ==> json_shaped(Tree::Mapping(swapped_out(m, k))),
{
    lemma_swapped_out(m, k);
    if has_key(m, k) {
        assert(key_at(m, k, index_of(m, k)));
        let w = swapped_out(m, k);
        assert forall|p: int| 0 <= p < w.len() implies #[trigger] w[p] == m[if p == index_of(m, k) {
            m.len() - 1
        } else {
            p
        }] by {}
    }
}

/// Removing a key keeps a mapping well-formed.
pub proof fn lemma_without_key_well_formed(m: Entries, k: Tree)
    requires
        well_formed(Tree::Mapping(m)),
    ensures
        well_formed(Tree::Mapping(without_key(m, k))),
        json_shaped(Tree::Mapping(m)) ==> json_shaped(Tree::Mapping(without_key(m, k))),
{
    lemma_without_key(m, k);
    if has_key(m, k) {
        let i = index_of(m, k);
        let w = without_key(m, k);
        assert(key_at(m, k, i));
        assert forall|p: int| 0 <= p < w.len() implies #[trigger] w[p] == m[if p < i { p } else { p + 1 }] by {}
    }
}

/// Removing a key, in either way, makes it absent, changes nothing else, and keeps
/// a mapping well-formed.
pub proof fn lemma_without(m: Entries, k: Tree, ordered: bool)
    requires
        well_formed(Tree::Mapping(m)),
    ensures
        well_formed(Tree::Mapping(without(m, k, ordered))),
        json_shaped(Tree::Mapping(m)) ==> json_shaped(Tree::Mapping(without(m, k, ordered))),
        !has_key(without(m, k, ordered), k),
        forall|l: Tree|
            #![trigger lookup(without(m, k, ordered), l)]
            #![trigger has_key(without(m, k, ordered), l)]
            !same(k, l) ==> lookup(without(m, k, ordered), l) == lookup(m, l) && has_key(
                without(m, k, ordered),
                l,
            ) == has_key(m, l),
{
    if ordered {
        lemma_without_key(m, k);
        lemma_without_key_well_formed(m, k);
    } else {
        lemma_swapped_out(m, k);
        lemma_swapped_out_well_formed(m, k);
    }
}

/// Choosing entries by a condition keeps a mapping well-formed.
pub proof fn lemma_filtered_well_formed(m: Entries, p: spec_fn((Tree, Tree)) -> bool)
    requires
        well_formed(Tree::Mapping(m)),
    ensures
        well_formed(Tree::Mapping(m.filter(p))),
        json_shaped(Tree::Mapping(m)) ==> json_shaped(Tree::Mapping(m.filter(p))),
{
    lemma_filtered(m, p);
    let f = m.filter(p);
    assert forall|j: int| 0 <= j < f.len() implies well_formed((#[trigger] f[j]).0) && well_formed(
        f[j].1,
    ) && (json_shaped(Tree::Mapping(m)) ==> f[j].0 is Text && json_shaped(f[j].1)) by {
        assert(m.contains(f[j]));
        let i = choose|i: int| 0 <= i < m.len() && m[i] == f[j];
        lemma_entry_well_formed(m, i);
    }
}

/// Writing what is there changes nothing.
pub proof fn lemma_with_key_twice(m: Entries, k: Tree, v: Tree)
    requires
        distinct_keys(m),
    ensures
        with_key(with_key(m, k, v), k, v) == with_key(m, k, v),
{
    let w = with_key(m, k, v);
    lemma_with_key(m, k, v);
    assert(has_key(w, k));
    assert(key_at(w, k, index_of(w, k)));
    assert(with_key(w, k, v) =~= w);
}

} // verus!
