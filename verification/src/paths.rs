//! What a document holds at a path of keys, and what merging a snippet into it, taking
//! one out of it and looking for one in it do to that.

use vstd::prelude::*;
use vstd::relations::injective_on;
use vstd::set_lib::{lemma_int_range, lemma_len_subset, lemma_map_size, set_int_range};

use crate::merge::{
    contains, contains_entries, law_merged_contains, law_pruned_empty, lemma_merged_entries,
    lemma_merged_well_formed, lemma_pruned_entries, merged, merged_entries, pruned, pruned_entries,
};
use crate::numeric::{is_nan, is_zero, NumericView};
use crate::tree::{
    covers, distinct_keys, entries_of, field, has_key, index_of, items_of, key_at, lemma_covered,
    lemma_entry_well_formed, lemma_index_of, lemma_lookup_same, lemma_lookup_well_formed,
    lemma_same_reflexive, lemma_same_symmetric, lemma_same_transitive, lookup, occurs_in, refilled,
    relisted, same, same_entry, swapped_out, text_field, text_of, well_formed, with_key,
    without_key, Entries, Tree,
};

verus! {

/// What a document holds at a path: the whole of it where the path has no keys, else
/// what the mapping under the first key holds at the rest.
pub open spec fn at(t: Tree, path: Seq<Tree>) -> Option<Tree>
    decreases path.len(),
{
    if path.len() == 0 {
        Some(t)
    } else {
        match t {
            Tree::Mapping(m) => match lookup(m, path[0]) {
                Some(v) => at(v, path.drop_first()),
                None => None,
            },
            _ => None,
        }
    }
}

/// The document holds something else than a mapping on the way down a path.
pub open spec fn blocked(t: Tree, path: Seq<Tree>) -> bool {
    exists|n: int|
        0 <= n < path.len() && #[trigger] at(t, path.take(n)) is Some && !(at(t, path.take(n))->0
            is Mapping)
}

/// Two documents hold equal values somewhere down a path, below their roots.
pub open spec fn agreed(t: Tree, s: Tree, path: Seq<Tree>) -> bool {
    exists|n: int|
        0 < n <= path.len() && #[trigger] at(t, path.take(n)) is Some && at(s, path.take(n)) is Some
            && same(at(t, path.take(n))->0, at(s, path.take(n))->0)
}

/// What `r` holds at a path is what it should where it is `t` with `s` merged in: what
/// `s` sets there; what `t` holds there, where `s` sets nothing on the way or at the end;
/// nothing, where `s` ends earlier; and a mapping where `s` has one, which is that of `s`
/// itself where `t` has none.
pub open spec fn merges_at(t: Tree, s: Tree, r: Tree, path: Seq<Tree>) -> bool {
    match at(s, path) {
        Some(Tree::Mapping(m)) => {
            &&& at(r, path) matches Some(Tree::Mapping(_))
            &&& !(at(t, path) matches Some(Tree::Mapping(_))) ==> at(r, path) == Some(
                Tree::Mapping(m),
            )
        },
        Some(v) => at(r, path) == Some(v),
        None => if blocked(s, path) {
            at(r, path) is None
        } else {
            at(r, path) == at(t, path)
        },
    }
}

/// What `r` holds at a path is what it should where it is `t` with `s` taken out: nothing
/// where the two agree, there or on the way; and else what `t` holds there. Of a mapping
/// that both have, and in which something agrees, what is left stays, unless nothing is.
pub open spec fn prunes_at(t: Tree, s: Tree, r: Tree, path: Seq<Tree>) -> bool {
    if agreed(t, s, path) {
        at(r, path) is None
    } else {
        match (at(t, path), at(s, path)) {
            (Some(Tree::Mapping(x)), Some(Tree::Mapping(_))) => {
                let left = exists|k: Tree| #[trigger] at(r, path.push(k)) is Some;
                if x.len() == 0 || left {
                    at(r, path) matches Some(Tree::Mapping(_))
                } else {
                    at(r, path) is None
                }
            },
            (before, _) => at(r, path) == before,
        }
    }
}

/// What a snippet has at a path, a document has there too: a mapping where the snippet
/// has one, and else an equal value.
pub open spec fn found_at(t: Tree, s: Tree, path: Seq<Tree>) -> bool {
    match at(s, path) {
        Some(Tree::Mapping(_)) => at(t, path) matches Some(Tree::Mapping(_)),
        Some(v) => at(t, path) matches Some(w) && same(w, v),
        None => true,
    }
}

// ----------------------------------------------------------------------------
// Paths
// ----------------------------------------------------------------------------

/// What a mapping holds down a path, by its first key.
pub proof fn lemma_at_first(t: Tree, path: Seq<Tree>, n: int)
    requires
        0 < n <= path.len(),
    ensures
        at(t, path.take(n)) == (match t {
            Tree::Mapping(m) => match lookup(m, path[0]) {
                Some(v) => at(v, path.drop_first().take(n - 1)),
                None => None,
            },
            _ => None,
        }),
        at(t, path.take(0)) == Some(t),
{
    assert(path.take(n).drop_first() =~= path.drop_first().take(n - 1));
    assert(path.take(n)[0] == path[0]);
    assert(path.take(0).len() == 0);
}

/// A path is blocked where the root is no mapping, or by what is under its first key.
pub proof fn lemma_blocked(t: Tree, path: Seq<Tree>)
    ensures
        path.len() == 0 ==> !blocked(t, path),
        path.len() > 0 ==> (blocked(t, path) <==> match t {
            Tree::Mapping(m) => lookup(m, path[0]) matches Some(v) && blocked(v, path.drop_first()),
            _ => true,
        }),
{
    if path.len() > 0 {
        let rest = path.drop_first();
        assert(path.take(0).len() == 0);
        assert(at(t, path.take(0)) == Some(t));
        if blocked(t, path) {
            let n = choose|n: int|
                0 <= n < path.len() && #[trigger] at(t, path.take(n)) is Some && !(at(
                    t,
                    path.take(n),
                )->0 is Mapping);
            if n > 0 {
                lemma_at_first(t, path, n);
                if let Tree::Mapping(m) = t {
                    let v = lookup(m, path[0])->0;
                    assert(at(v, rest.take(n - 1)) is Some);
                }
            }
        }
        if let Tree::Mapping(m) = t {
            if let Some(v) = lookup(m, path[0]) {
                if blocked(v, rest) {
                    let n = choose|n: int|
                        0 <= n < rest.len() && #[trigger] at(v, rest.take(n)) is Some && !(at(
                            v,
                            rest.take(n),
                        )->0 is Mapping);
                    lemma_at_first(t, path, n + 1);
                    assert(at(t, path.take(n + 1)) is Some);
                }
            }
        }
    }
}

/// Two documents agree down a path under its first key, or below that.
pub proof fn lemma_agreed(t: Tree, s: Tree, path: Seq<Tree>)
    ensures
        path.len() == 0 ==> !agreed(t, s, path),
        path.len() > 0 ==> (agreed(t, s, path) <==> match (t, s) {
            (Tree::Mapping(x), Tree::Mapping(y)) => match (lookup(x, path[0]), lookup(y, path[0])) {
                (Some(v), Some(w)) => same(v, w) || agreed(v, w, path.drop_first()),
                _ => false,
            },
            _ => false,
        }),
{
    if path.len() > 0 {
        let rest = path.drop_first();
        if agreed(t, s, path) {
            let n = choose|n: int|
                0 < n <= path.len() && #[trigger] at(t, path.take(n)) is Some && at(s, path.take(n))
                    is Some && same(at(t, path.take(n))->0, at(s, path.take(n))->0);
            lemma_at_first(t, path, n);
            lemma_at_first(s, path, n);
            let v = lookup(t->Mapping_0, path[0])->0;
            let w = lookup(s->Mapping_0, path[0])->0;
            if n == 1 {
                assert(rest.take(0).len() == 0);
            } else {
                assert(at(v, rest.take(n - 1)) is Some);
                assert(agreed(v, w, rest));
            }
        }
        if t is Mapping && s is Mapping {
            if let (Some(v), Some(w)) = (lookup(t->Mapping_0, path[0]), lookup(s->Mapping_0, path[0])) {
                if same(v, w) {
                    lemma_at_first(t, path, 1);
                    lemma_at_first(s, path, 1);
                    assert(rest.take(0).len() == 0);
                    assert(at(t, path.take(1)) is Some);
                } else if agreed(v, w, rest) {
                    let n = choose|n: int|
                        0 < n <= rest.len() && #[trigger] at(v, rest.take(n)) is Some && at(
                            w,
                            rest.take(n),
                        ) is Some && same(at(v, rest.take(n))->0, at(w, rest.take(n))->0);
                    lemma_at_first(t, path, n + 1);
                    lemma_at_first(s, path, n + 1);
                    assert(at(t, path.take(n + 1)) is Some);
                }
            }
        }
    }
}

// ----------------------------------------------------------------------------
// Laws
// ----------------------------------------------------------------------------

/// Merging a snippet into a document: at every path, what the snippet sets is found
/// afterwards, and what it does not set is as it was.
pub proof fn law_merged_at(t: Tree, s: Tree, path: Seq<Tree>)
    requires
        well_formed(t),
        well_formed(s),
    ensures
        merges_at(t, s, merged(t, s), path),
    decreases path.len(),
{
    lemma_blocked(s, path);
    if path.len() > 0 && t is Mapping && s is Mapping {
        let x = t->Mapping_0;
        let y = s->Mapping_0;
        let k = path[0];
        lemma_merged_entries(x, y);
        assert(has_key(merged_entries(x, y), k) <==> has_key(x, k) || has_key(y, k));
        if has_key(x, k) && has_key(y, k) {
            lemma_lookup_well_formed(x, k);
            lemma_lookup_well_formed(y, k);
            law_merged_at(lookup(x, k)->0, lookup(y, k)->0, path.drop_first());
        }
    }
}

/// A document holds a snippet exactly where it has what the snippet has at every path.
pub proof fn law_contains_at(t: Tree, s: Tree)
    requires
        well_formed(t),
        well_formed(s),
    ensures
        contains(t, s) <==> forall|path: Seq<Tree>| #[trigger] found_at(t, s, path),
{
    if contains(t, s) {
        assert forall|path: Seq<Tree>| #[trigger] found_at(t, s, path) by {
            lemma_contains_found(t, s, path);
        }
    }
    if forall|path: Seq<Tree>| #[trigger] found_at(t, s, path) {
        lemma_found_contains(t, s);
    }
}

proof fn lemma_contains_found(t: Tree, s: Tree, path: Seq<Tree>)
    requires
        well_formed(t),
        well_formed(s),
        contains(t, s),
    ensures
        found_at(t, s, path),
    decreases path.len(),
{
    if t is Mapping && s is Mapping {
        if path.len() > 0 {
            let x = t->Mapping_0;
            let y = s->Mapping_0;
            let k = path[0];
            if has_key(y, k) {
                let i = index_of(y, k);
                assert(key_at(y, k, i));
                assert(contains_entries(x, y));
                assert(has_key(x, y[i].0));
                lemma_entry_well_formed(y, i);
                if x.len() > 0 {
                    lemma_entry_well_formed(x, 0);
                }
                lemma_lookup_same(x, k, y[i].0);
                lemma_lookup_well_formed(x, k);
                lemma_contains_found(lookup(x, k)->0, y[i].1, path.drop_first());
            }
        }
    } else {
        lemma_same_shapes(t, s);
    }
}

/// Equal documents are both mappings or neither is.
pub proof fn lemma_same_shapes(t: Tree, s: Tree)
    requires
        same(t, s),
    ensures
        t is Mapping <==> s is Mapping,
        t is List <==> s is List,
        t is Text <==> s is Text,
        t is Number <==> s is Number,
        t is Bool <==> s is Bool,
        t is Null <==> s is Null,
        t is Tagged <==> s is Tagged,
{
    reveal(same);
}

proof fn lemma_found_contains(t: Tree, s: Tree)
    requires
        well_formed(t),
        well_formed(s),
        forall|path: Seq<Tree>| #[trigger] found_at(t, s, path),
    ensures
        contains(t, s),
    decreases s,
{
    assert(found_at(t, s, Seq::empty()));
    if s is Mapping {
        let x = t->Mapping_0;
        let y = s->Mapping_0;
        assert forall|i: int| 0 <= i < y.len() implies has_key(x, (#[trigger] y[i]).0) && contains(
            x[index_of(x, y[i].0)].1,
            y[i].1,
        ) by {
            let k = y[i].0;
            lemma_same_reflexive(k);
            assert(key_at(y, k, i));
            lemma_entry_well_formed(y, i);
            lemma_index_of(y, k, i);
            let one = seq![k];
            assert(one.drop_first().len() == 0);
            assert(found_at(t, s, one));
            assert(at(y[i].1, one.drop_first()) == Some(y[i].1));
            assert(at(s, one) == Some(y[i].1));
            assert(at(t, one) is Some);
            assert(has_key(x, k));
            lemma_lookup_well_formed(x, k);
            let v = lookup(x, k)->0;
            assert forall|path: Seq<Tree>| #[trigger] found_at(v, y[i].1, path) by {
                let longer = seq![k] + path;
                assert(longer.drop_first() =~= path);
                assert(longer[0] == k);
                assert(found_at(t, s, longer));
            }
            lemma_found_contains(v, y[i].1);
        }
    }
}

/// Taking a snippet out of a document: at every path below the root, what is the
/// snippet's there is gone afterwards, and what is not is as it was.
#[verifier::rlimit(30)]
pub proof fn law_pruned_at(t: Tree, s: Tree, path: Seq<Tree>, ordered: bool)
    requires
        well_formed(t),
        well_formed(s),
        path.len() > 0,
    ensures
        prunes_at(t, s, pruned(t, s, ordered), path),
    decreases path.len(),
{
    let r = pruned(t, s, ordered);
    lemma_agreed(t, s, path);
    if t is Mapping && s is Mapping {
        let x = t->Mapping_0;
        let y = s->Mapping_0;
        let z = r->Mapping_0;
        let k = path[0];
        let rest = path.drop_first();
        lemma_pruned_entries(x, y, y.len(), ordered);
        assert(lookup(z, k) == lookup(pruned_entries(x, y, y.len(), ordered), k));
        assert forall|l: Tree| #[trigger] at(r, path.push(l)) == (match lookup(z, k) {
            Some(w) => at(w, rest.push(l)),
            None => None,
        }) by {
            assert(path.push(l).drop_first() =~= rest.push(l));
            assert(path.push(l)[0] == k);
        }
        if has_key(x, k) && has_key(y, k) {
            let i = index_of(y, k);
            assert(key_at(y, k, i));
            let v = lookup(x, k)->0;
            let w = y[i].1;
            lemma_lookup_well_formed(x, k);
            lemma_lookup_well_formed(y, k);
            lemma_agreed(v, w, rest);
            if !same(v, w) {
                if v is Mapping && w is Mapping {
                    let u = pruned(v, w, ordered);
                    lemma_pruned_entries(v->Mapping_0, w->Mapping_0, w->Mapping_0.len(), ordered);
                    if rest.len() > 0 {
                        law_pruned_at(v, w, rest, ordered);
                        if u->Mapping_0.len() == 0 {
                            lemma_nothing_held(u->Mapping_0);
                        }
                        if agreed(v, w, rest) {
                        } else {
                            assert forall|l: Tree| lookup(z, k) is Some implies #[trigger] at(
                                r,
                                path.push(l),
                            ) == at(u, rest.push(l)) by {}
                            if exists|l: Tree| #[trigger] at(u, rest.push(l)) is Some {
                                let l = choose|l: Tree| #[trigger] at(u, rest.push(l)) is Some;
                                assert(rest.push(l)[0] == rest[0]);
                                assert(at(r, path.push(l)) == (match lookup(z, k) {
                                    Some(w) => at(w, rest.push(l)),
                                    None => None,
                                }));
                            }
                            if exists|l: Tree| #[trigger] at(r, path.push(l)) is Some {
                                let l = choose|l: Tree| #[trigger] at(r, path.push(l)) is Some;
                                assert(at(u, rest.push(l)) is Some);
                            }
                        }
                    } else {
                        lemma_left_over(u->Mapping_0);
                        if u->Mapping_0.len() == 0 {
                            lemma_nothing_held(u->Mapping_0);
                        }
                        assert forall|l: Tree| #[trigger] at(u, rest.push(l)) == lookup(
                            u->Mapping_0,
                            l,
                        ) by {
                            assert(rest.push(l).drop_first().len() == 0);
                            assert(rest.push(l)[0] == l);
                            if has_key(u->Mapping_0, l) {
                                assert(at(lookup(u->Mapping_0, l)->0, rest.push(l).drop_first())
                                    == lookup(u->Mapping_0, l));
                            }
                        }
                        if u->Mapping_0.len() > 0 {
                            let l = u->Mapping_0[0].0;
                            assert(lookup(u->Mapping_0, l) is Some);
                            assert(at(u, rest.push(l)) is Some);
                            assert(at(r, path.push(l)) == (match lookup(z, k) {
                                Some(w) => at(w, rest.push(l)),
                                None => None,
                            }));
                        }
                        if v->Mapping_0.len() == 0 {
                            law_pruned_empty(
                                w->Mapping_0,
                                w->Mapping_0.len(),
                                ordered,
                            );
                            assert(v->Mapping_0 =~= Seq::<(Tree, Tree)>::empty());
                        }
                        if exists|l: Tree| #[trigger] at(r, path.push(l)) is Some {
                            let l = choose|l: Tree| #[trigger] at(r, path.push(l)) is Some;
                            assert(lookup(z, k) is Some);
                        }
                    }
                } else {
                    assert(pruned(v, w, ordered) == v);
                }
            }
        }
    }
}

/// A mapping with an entry holds something under its key.
proof fn lemma_left_over(m: Entries)
    ensures
        m.len() > 0 ==> lookup(m, m[0].0) is Some,
{
    if m.len() > 0 {
        lemma_same_reflexive(m[0].0);
        assert(key_at(m, m[0].0, 0));
    }
}

/// An empty mapping holds nothing at any path below its root.
proof fn lemma_nothing_held(m: Entries)
    requires
        m.len() == 0,
    ensures
        forall|path: Seq<Tree>| path.len() > 0 ==> #[trigger] at(Tree::Mapping(m), path) is None,
{
}

/// A snippet counts as held exactly where merging it in gives an equal document.
pub proof fn law_held_changes_nothing(t: Tree, s: Tree)
    requires
        well_formed(t),
        well_formed(s),
    ensures
        contains(t, s) <==> same(merged(t, s), t),
{
    if contains(t, s) {
        lemma_held_merged(t, s);
    }
    if same(merged(t, s), t) {
        law_merged_contains(t, s);
        lemma_merged_well_formed(t, s);
        lemma_contains_congruent(merged(t, s), t, s);
    }
}

proof fn lemma_held_merged(t: Tree, s: Tree)
    requires
        well_formed(t),
        well_formed(s),
        contains(t, s),
    ensures
        same(merged(t, s), t),
    decreases s,
{
    if t is Mapping && s is Mapping {
        let x = t->Mapping_0;
        let y = s->Mapping_0;
        let m = merged_entries(x, y);
        lemma_merged_entries(x, y);
        let p = |e: (Tree, Tree)| !has_key(x, e.0);
        assert(contains_entries(x, y));
        assert forall|i: int| 0 <= i < y.len() implies !p(#[trigger] y[i]) by {}
        y.lemma_all_neg_filter_empty(p);
        assert(m.len() == x.len());
        reveal(same);
        assert forall|i: int| 0 <= i < x.len() implies #[trigger] same_entry(m[i], x[i]) by {
            lemma_same_reflexive(x[i].0);
            assert(m[i].0 == x[i].0);
            lemma_entry_well_formed(x, i);
            if has_key(y, x[i].0) {
                let j = index_of(y, x[i].0);
                assert(key_at(y, x[i].0, j));
                lemma_entry_well_formed(y, j);
                assert(has_key(x, y[j].0));
                lemma_lookup_same(x, x[i].0, y[j].0);
                assert(key_at(x, x[i].0, i));
                lemma_index_of(x, x[i].0, i);
                lemma_held_merged(x[i].1, y[j].1);
                assert(m[i].1 == merged(x[i].1, y[j].1));
            } else {
                lemma_same_reflexive(x[i].1);
                assert(m[i] == x[i]);
            }
        }
        assert forall|i: int| 0 <= i < m.len() implies occurs_in(#[trigger] m[i], x) by {
            assert(same_entry(m[i], x[i]));
        }
        assert forall|j: int| 0 <= j < x.len() implies covers(m, #[trigger] x[j]) by {
            assert(same_entry(m[j], x[j]));
        }
    } else {
        lemma_same_symmetric(t, s);
    }
}

/// Equal mappings hold equal values under each key.
pub proof fn lemma_same_lookup(a: Entries, b: Entries, k: Tree)
    requires
        well_formed(Tree::Mapping(a)),
        well_formed(Tree::Mapping(b)),
        same(Tree::Mapping(a), Tree::Mapping(b)),
    ensures
        has_key(a, k) <==> has_key(b, k),
        has_key(a, k) ==> same(lookup(a, k)->0, lookup(b, k)->0),
{
    reveal(same);
    if has_key(a, k) {
        let i = index_of(a, k);
        assert(key_at(a, k, i));
        assert(occurs_in(a[i], b));
        let j = choose|j: int| 0 <= j < b.len() && same_entry(a[i], #[trigger] b[j]);
        assert(same_entry(a[i], b[j]));
        lemma_same_transitive(k, a[i].0, b[j].0);
        assert(key_at(b, k, j));
        lemma_index_of(b, k, j);
    }
    if has_key(b, k) {
        let j = index_of(b, k);
        assert(key_at(b, k, j));
        assert(covers(a, b[j]));
        let i = choose|i: int| 0 <= i < a.len() && same_entry(#[trigger] a[i], b[j]);
        assert(same_entry(a[i], b[j]));
        lemma_same_symmetric(a[i].0, b[j].0);
        lemma_same_transitive(k, b[j].0, a[i].0);
        assert(key_at(a, k, i));
    }
}

/// What a document holds, an equal document holds too.
pub proof fn lemma_contains_congruent(a: Tree, b: Tree, s: Tree)
    requires
        well_formed(a),
        well_formed(b),
        well_formed(s),
        same(a, b),
        contains(a, s),
    ensures
        contains(b, s),
    decreases s,
{
    lemma_same_shapes(a, b);
    if a is Mapping && s is Mapping {
        let x = a->Mapping_0;
        let z = b->Mapping_0;
        let y = s->Mapping_0;
        assert(contains_entries(x, y));
        assert forall|i: int| 0 <= i < y.len() implies has_key(z, (#[trigger] y[i]).0) && contains(
            z[index_of(z, y[i].0)].1,
            y[i].1,
        ) by {
            assert(has_key(x, y[i].0));
            lemma_entry_well_formed(y, i);
            lemma_same_lookup(x, z, y[i].0);
            lemma_lookup_well_formed(x, y[i].0);
            lemma_lookup_well_formed(z, y[i].0);
            lemma_contains_congruent(lookup(x, y[i].0)->0, lookup(z, y[i].0)->0, y[i].1);
        }
    } else {
        lemma_same_symmetric(a, b);
        lemma_same_transitive(b, a, s);
    }
}

/// When documents are equal: values of one kind that are the same, integers by value, a
/// float to a float of the same value; lists item by item; mappings where each has the keys
/// of the other and equal values under them, in whatever order; and tagged values under the
/// same tag.
#[verifier::rlimit(30)]
pub proof fn law_same(a: Tree, b: Tree)
    requires
        well_formed(a),
        well_formed(b),
    ensures
        same(a, b) <==> match (a, b) {
            (Tree::Null, Tree::Null) => true,
            (Tree::Bool(x), Tree::Bool(y)) => x == y,
            (Tree::Text(x), Tree::Text(y)) => x == y,
            (Tree::Number(x), Tree::Number(y)) => match (x, y) {
                (NumericView::PosInt(u), NumericView::PosInt(v)) => u == v,
                (NumericView::NegInt(u), NumericView::NegInt(v)) => u == v,
                (NumericView::Float(u), NumericView::Float(v)) => u == v || (is_zero(u) && is_zero(
                    v,
                )) || (is_nan(u) && is_nan(v)),
                _ => false,
            },
            (Tree::List(x), Tree::List(y)) => x.len() == y.len() && forall|i: int|
                0 <= i < x.len() ==> same(#[trigger] x[i], y[i]),
            (Tree::Mapping(x), Tree::Mapping(y)) => forall|k: Tree|
                #![trigger has_key(x, k)]
                #![trigger has_key(y, k)]
                (has_key(x, k) <==> has_key(y, k)) && (has_key(x, k) ==> same(
                    lookup(x, k)->0,
                    lookup(y, k)->0,
                )),
            (Tree::Tagged(s, x), Tree::Tagged(t, y)) => s == t && same(*x, *y),
            _ => false,
        },
{
    reveal(same);
    if let (Tree::Mapping(x), Tree::Mapping(y)) = (a, b) {
        if same(a, b) {
            assert forall|k: Tree|
                #![trigger has_key(x, k)]
                #![trigger has_key(y, k)]
                (has_key(x, k) <==> has_key(y, k)) && (has_key(x, k) ==> same(
                    lookup(x, k)->0,
                    lookup(y, k)->0,
                )) by {
                lemma_same_lookup(x, y, k);
            }
        }
        if forall|k: Tree|
            #![trigger has_key(x, k)]
            #![trigger has_key(y, k)]
            (has_key(x, k) <==> has_key(y, k)) && (has_key(x, k) ==> same(
                lookup(x, k)->0,
                lookup(y, k)->0,
            )) {
            lemma_keys_agree(x, y);
            assert forall|k: Tree| #[trigger] has_key(y, k) implies has_key(x, k) && same(
                lookup(y, k)->0,
                lookup(x, k)->0,
            ) by {
                lemma_same_symmetric(lookup(x, k)->0, lookup(y, k)->0);
            }
            lemma_keys_agree(y, x);
            lemma_no_more(x, y);
            lemma_no_more(y, x);
            lemma_covered(x, y);
        }
    }
}

/// A mapping whose keys another has, with equal values, occurs in it entry by entry.
proof fn lemma_keys_agree(x: Entries, y: Entries)
    requires
        well_formed(Tree::Mapping(x)),
        well_formed(Tree::Mapping(y)),
        forall|k: Tree| #[trigger]
            has_key(x, k) ==> has_key(y, k) && same(lookup(x, k)->0, lookup(y, k)->0),
    ensures
        forall|i: int| 0 <= i < x.len() ==> occurs_in(#[trigger] x[i], y),
{
    reveal(same);
    assert forall|i: int| 0 <= i < x.len() implies occurs_in(#[trigger] x[i], y) by {
        let k = x[i].0;
        lemma_same_reflexive(k);
        assert(key_at(x, k, i));
        lemma_index_of(x, k, i);
        assert(has_key(x, k));
        let j = index_of(y, k);
        assert(key_at(y, k, j));
        assert(same_entry(x[i], y[j]));
    }
}

/// A mapping that holds each key once, and occurs in another, has no more entries.
proof fn lemma_no_more(x: Entries, y: Entries)
    requires
        distinct_keys(x),
        forall|i: int| 0 <= i < x.len() ==> occurs_in(#[trigger] x[i], y),
    ensures
        x.len() <= y.len(),
{
    reveal(same);
    let n = x.len() as int;
    let m = y.len() as int;
    let dom = set_int_range(0, n);
    let f = |i: int| choose|j: int| 0 <= j < y.len() && same_entry(x[i], #[trigger] y[j]);
    let image = dom.map(f);
    assert forall|i: int| 0 <= i < n implies 0 <= #[trigger] f(i) < m && same_entry(x[i], y[f(i)]) by {
        assert(occurs_in(x[i], y));
    }
    assert(injective_on(f, dom)) by {
        assert forall|i: int, k: int|
            dom.contains(i) && dom.contains(k) && #[trigger] f(i) == #[trigger] f(k) implies i == k by {
            assert(same_entry(x[i], y[f(i)]));
            assert(same_entry(x[k], y[f(k)]));
            lemma_same_symmetric(x[k].0, y[f(k)].0);
            lemma_same_transitive(x[i].0, y[f(i)].0, x[k].0);
        }
    }
    lemma_int_range(0, n);
    lemma_int_range(0, m);
    lemma_map_size(dom, image, f);
    assert(image.subset_of(set_int_range(0, m))) by {
        assert forall|j: int| #[trigger] image.contains(j) implies set_int_range(0, m).contains(j) by {
            let i = choose|i: int| dom.contains(i) && f(i) == j;
            assert(0 <= f(i) < m);
        }
    }
    lemma_len_subset(image, set_int_range(0, m));
}

/// Merging keeps the keys of a mapping in their places, and puts the keys that are new
/// behind them, in the order of the snippet.
pub proof fn law_merged_places(x: Entries, y: Entries, i: int)
    ensures
        ({
            let m = merged_entries(x, y);
            &&& m.len() >= x.len()
            &&& 0 <= i < x.len() ==> m[i].0 == x[i].0
            &&& m.skip(x.len() as int) == y.filter(|e: (Tree, Tree)| !has_key(x, e.0))
        }),
{
    let m = merged_entries(x, y);
    assert(m.skip(x.len() as int) =~= y.filter(|e: (Tree, Tree)| !has_key(x, e.0)));
}

/// Tags are looked through, however many there are, when a text, a list or a mapping is
/// asked for; a mapping or a list that gets other contents keeps them.
pub proof fn law_tags(tag: Seq<char>, x: Tree, m: Entries, items: Seq<Tree>)
    ensures
        ({
            let t = Tree::Tagged(tag, Box::new(x));
            &&& text_of(t) == text_of(x) && entries_of(t) == entries_of(x) && items_of(t)
                == items_of(x)
            &&& refilled(t, m) == Tree::Tagged(tag, Box::new(refilled(x, m)))
            &&& relisted(t, items) == Tree::Tagged(tag, Box::new(relisted(x, items)))
        }),
        !(x is Tagged) ==> {
            &&& refilled(x, m) == Tree::Mapping(m) && relisted(x, items) == Tree::List(items)
            &&& text_of(x) == (if x is Text {
                Some(x->Text_0)
            } else {
                None
            })
            &&& entries_of(x) == (if x is Mapping {
                Some(x->Mapping_0)
            } else {
                None
            })
            &&& items_of(x) == (if x is List {
                Some(x->List_0)
            } else {
                None
            })
        },
{
}

/// A field of a mapping is what it holds under the name, as a text; nothing else has fields.
pub proof fn law_field(t: Tree, name: Seq<char>)
    ensures
        entries_of(t) matches Some(m) ==> field(t, name) == lookup(m, Tree::Text(name)),
        entries_of(t) is None ==> field(t, name) is None,
        field(t, name) matches Some(v) ==> text_field(t, name) == text_of(v),
        field(t, name) is None ==> text_field(t, name) is None,
{
}

/// A value is written in the place of its key, or at the end where the key is new. A key is
/// removed with what stands behind it moving up, or with the last entry taking its place.
pub proof fn law_places(m: Entries, k: Tree, v: Tree)
    ensures
        has_key(m, k) ==> {
            let i = index_of(m, k);
            &&& 0 <= i < m.len() && same(k, m[i].0)
            &&& with_key(m, k, v) == m.update(i, (m[i].0, v))
            &&& without_key(m, k) == m.take(i) + m.skip(i + 1)
            &&& swapped_out(m, k).len() == m.len() - 1
            &&& i < m.len() - 1 ==> swapped_out(m, k) == m.take(m.len() - 1).update(i, m.last())
            &&& i == m.len() - 1 ==> swapped_out(m, k) == m.take(i)
        },
        !has_key(m, k) ==> with_key(m, k, v) == m.push((k, v)) && without_key(m, k) == m
            && swapped_out(m, k) == m,
{
    if has_key(m, k) {
        let i = index_of(m, k);
        assert(key_at(m, k, i));
        assert(without_key(m, k) =~= m.take(i) + m.skip(i + 1));
        if i < m.len() - 1 {
            assert(swapped_out(m, k) =~= m.take(m.len() - 1).update(i, m.last()));
        } else {
            assert(swapped_out(m, k) =~= m.take(i));
        }
    }
}

} // verus!
