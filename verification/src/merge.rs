//! Merging a configuration snippet into a document, and taking it out again.

use vstd::prelude::*;

use crate::tree::{
    distinct_keys, entries_of, filled, has_key, index_of, json_shaped, key_at,
    lemma_entry_well_formed, lemma_filtered, lemma_filtered_well_formed, lemma_index_of,
    lemma_lookup_same, lemma_lookup_well_formed, lemma_same_reflexive, lemma_same_symmetric,
    lemma_same_transitive, lemma_untagged, lemma_with_key, lemma_with_key_well_formed,
    lemma_without, lemma_without_key, lookup, missing_from, overlaid, same, well_formed, with_key,
    without, without_key, Entries, Tree,
};
use crate::value::{lemma_mapping_view, Datum, Table};

verus! {

// ----------------------------------------------------------------------------
// What merging and removing mean
// ----------------------------------------------------------------------------

/// `t` with `s` merged in: two mappings are merged key by key, and anything else
/// is replaced.
pub open spec fn merged(t: Tree, s: Tree) -> Tree
    decreases t,
{
    if t is Mapping && s is Mapping {
        Tree::Mapping(merged_entries(t->Mapping_0, s->Mapping_0))
    } else {
        s
    }
}

/// The entries of `t` in their places, those that `s` has merged with it, and
/// behind them the entries of `s` that `t` does not have.
pub open spec fn merged_entries(t: Entries, s: Entries) -> Entries
    decreases t,
{
    Seq::new(
        t.len(),
        |i: int|
            if 0 <= i < t.len() {
                (
                    t[i].0,
                    match lookup(s, t[i].0) {
                        Some(v) => merged(t[i].1, v),
                        None => t[i].1,
                    },
                )
            } else {
                (Tree::Null, Tree::Null)
            },
    ) + missing_from(t, s)
}

/// `t` holds everything that `s` does: of mappings, every entry of `s`.
pub open spec fn contains(t: Tree, s: Tree) -> bool
    decreases s,
{
    if t is Mapping && s is Mapping {
        contains_entries(t->Mapping_0, s->Mapping_0)
    } else {
        same(t, s)
    }
}

/// `t` has every key of `s`, and under it everything that `s` holds there.
pub open spec fn contains_entries(t: Entries, s: Entries) -> bool
    decreases s,
{
    forall|i: int|
        0 <= i < s.len() ==> has_key(t, (#[trigger] s[i]).0) && contains(
            t[index_of(t, s[i].0)].1,
            s[i].1,
        )
}

/// `t` without what `s` holds: a value is removed where it equals that of `s`,
/// and a mapping where everything in it was removed. Where `ordered`, what stays
/// keeps its order.
pub open spec fn pruned(t: Tree, s: Tree, ordered: bool) -> Tree
    decreases s, 0nat,
{
    if t is Mapping && s is Mapping {
        Tree::Mapping(pruned_entries(t->Mapping_0, s->Mapping_0, s->Mapping_0.len(), ordered))
    } else {
        t
    }
}

/// `t` after the first `n` entries of `s` have been taken out of it, one by one.
pub open spec fn pruned_entries(t: Entries, s: Entries, n: nat, ordered: bool) -> Entries
    decreases s, n,
{
    if n == 0 || n > s.len() {
        t
    } else {
        let before = pruned_entries(t, s, (n - 1) as nat, ordered);
        match lookup(before, s[n - 1].0) {
            Some(v) => match remnant(v, s[n - 1], ordered) {
                Some(w) => with_key(before, s[n - 1].0, w),
                None => without(before, s[n - 1].0, ordered),
            },
            None => before,
        }
    }
}

/// What is left of the value `v` when the entry `e` is taken out: nothing where it
/// is the entry's value, or a mapping that the removal empties.
pub open spec fn remnant(v: Tree, e: (Tree, Tree), ordered: bool) -> Option<Tree>
    decreases e, 0nat,
{
    if same(v, e.1) {
        None
    } else if entries_of(v) is Some && entries_of(e.1) is Some {
        let w = pruned(v, e.1, ordered);
        if entries_of(v)->0.len() > 0 && entries_of(w)->0.len() == 0 {
            None
        } else {
            Some(w)
        }
    } else {
        Some(v)
    }
}

// ----------------------------------------------------------------------------
// Facts
// ----------------------------------------------------------------------------

/// Merging two mappings keeps each key once; what is found afterwards is the
/// merged value, or what either of them holds alone.
pub proof fn lemma_merged_entries(t: Entries, s: Entries)
    requires
        distinct_keys(t),
        distinct_keys(s),
    ensures
        distinct_keys(merged_entries(t, s)),
        forall|k: Tree|
            #![trigger has_key(merged_entries(t, s), k)]
            #![trigger lookup(merged_entries(t, s), k)]
            {
                &&& has_key(merged_entries(t, s), k) <==> has_key(t, k) || has_key(s, k)
                &&& lookup(merged_entries(t, s), k) == (if has_key(t, k) && has_key(s, k) {
                    Some(merged(lookup(t, k)->0, lookup(s, k)->0))
                } else if has_key(t, k) {
                    lookup(t, k)
                } else {
                    lookup(s, k)
                })
            },
{
    let m = merged_entries(t, s);
    let p = |e: (Tree, Tree)| !has_key(t, e.0);
    let rest = missing_from(t, s);
    let n = t.len() as int;
    lemma_filtered(s, p);
    assert forall|i: int, j: int| 0 <= i < m.len() && 0 <= j < m.len() && i != j implies !same(
        (#[trigger] m[i]).0,
        (#[trigger] m[j]).0,
    ) by {
        if i < n && j < n {
            assert(m[i].0 == t[i].0 && m[j].0 == t[j].0);
        } else if i < n {
            assert(m[j] == rest[j - n]);
            if same(m[i].0, m[j].0) {
                lemma_same_symmetric(m[i].0, m[j].0);
                assert(key_at(t, rest[j - n].0, i));
                assert(p(rest[j - n]));
            }
        } else if j < n {
            assert(m[i] == rest[i - n]);
            if same(m[i].0, m[j].0) {
                assert(key_at(t, rest[i - n].0, j));
                assert(p(rest[i - n]));
            }
        } else {
            assert(m[i] == rest[i - n] && m[j] == rest[j - n]);
        }
    }
    assert forall|k: Tree|
        #![trigger has_key(m, k)]
        #![trigger lookup(m, k)]
        {
            &&& has_key(m, k) <==> has_key(t, k) || has_key(s, k)
            &&& lookup(m, k) == (if has_key(t, k) && has_key(s, k) {
                Some(merged(lookup(t, k)->0, lookup(s, k)->0))
            } else if has_key(t, k) {
                lookup(t, k)
            } else {
                lookup(s, k)
            })
        } by {
        if has_key(t, k) {
            let i = index_of(t, k);
            assert(key_at(t, k, i));
            assert(key_at(m, k, i));
            lemma_index_of(m, k, i);
            lemma_lookup_same(s, k, t[i].0);
        } else if has_key(s, k) {
            let i = index_of(s, k);
            assert(key_at(s, k, i));
            if has_key(t, s[i].0) {
                let j = index_of(t, s[i].0);
                assert(key_at(t, s[i].0, j));
                lemma_same_transitive(k, s[i].0, t[j].0);
                assert(key_at(t, k, j));
            }
            assert(p(s[i]));
            assert(rest.contains(s[i]));
            let j = choose|j: int| 0 <= j < rest.len() && rest[j] == s[i];
            assert(m[n + j] == s[i]);
            assert(key_at(m, k, n + j));
            lemma_index_of(m, k, n + j);
        } else if has_key(m, k) {
            let j = index_of(m, k);
            assert(key_at(m, k, j));
            if j < n {
                assert(key_at(t, k, j));
            } else {
                assert(m[j] == rest[j - n]);
                assert(s.contains(rest[j - n]));
                let i = choose|i: int| 0 <= i < s.len() && s[i] == rest[j - n];
                assert(key_at(s, k, i));
            }
        }
    }
}

/// Merging well-formed documents gives a well-formed document.
pub proof fn lemma_merged_well_formed(t: Tree, s: Tree)
    requires
        well_formed(t),
        well_formed(s),
    ensures
        well_formed(merged(t, s)),
        json_shaped(t) && json_shaped(s) ==> json_shaped(merged(t, s)),
    decreases t,
{
    if t is Mapping && s is Mapping {
        let x = t->Mapping_0;
        let y = s->Mapping_0;
        let m = merged_entries(x, y);
        let n = x.len() as int;
        lemma_merged_entries(x, y);
        lemma_filtered_well_formed(y, |e: (Tree, Tree)| !has_key(x, e.0));
        let rest = missing_from(x, y);
        assert forall|i: int| 0 <= i < m.len() implies well_formed((#[trigger] m[i]).0)
            && well_formed(m[i].1) && (json_shaped(t) && json_shaped(s) ==> m[i].0 is Text
            && json_shaped(m[i].1)) by {
            if i < n {
                lemma_entry_well_formed(x, i);
                if has_key(y, x[i].0) {
                    lemma_lookup_well_formed(y, x[i].0);
                    lemma_merged_well_formed(x[i].1, lookup(y, x[i].0)->0);
                }
            } else {
                assert(m[i] == rest[i - n]);
                lemma_entry_well_formed(rest, i - n);
            }
        }
    }
}

/// Taking out the first `n` entries of `s` keeps each key once. A key that is not
/// among them keeps its value; under one that is, what is left of the value stays.
pub proof fn lemma_pruned_entries(t: Entries, s: Entries, n: nat, ordered: bool)
    requires
        well_formed(Tree::Mapping(t)),
        well_formed(Tree::Mapping(s)),
        n <= s.len(),
    ensures
        well_formed(Tree::Mapping(pruned_entries(t, s, n, ordered))),
        json_shaped(Tree::Mapping(t)) ==> json_shaped(Tree::Mapping(pruned_entries(t, s, n, ordered))),
        forall|k: Tree| #[trigger]
            lookup(pruned_entries(t, s, n, ordered), k) == (if has_key(t, k) && has_key(s, k) && index_of(s, k)
                < n {
                remnant(lookup(t, k)->0, s[index_of(s, k)], ordered)
            } else {
                lookup(t, k)
            }),
    decreases s, n,
{
    if n > 0 {
        let before = pruned_entries(t, s, (n - 1) as nat, ordered);
        let after = pruned_entries(t, s, n, ordered);
        let e = s[n - 1];
        lemma_pruned_entries(t, s, (n - 1) as nat, ordered);
        lemma_entry_well_formed(s, n - 1);
        lemma_same_reflexive(e.0);
        assert(key_at(s, e.0, n - 1));
        lemma_index_of(s, e.0, n - 1);
        lemma_with_key(before, e.0, Tree::Null);
        lemma_without(before, e.0, ordered);
        if has_key(before, e.0) {
            let v = lookup(before, e.0)->0;
            lemma_lookup_well_formed(before, e.0);
            lemma_remnant_well_formed(v, e, ordered);
            if remnant(v, e, ordered) is Some {
                lemma_with_key(before, e.0, remnant(v, e, ordered)->0);
                lemma_with_key_well_formed(before, e.0, remnant(v, e, ordered)->0);
                if json_shaped(Tree::Mapping(t)) {
                    assert(before[index_of(before, e.0)].0 is Text);
                    assert(json_shaped(Tree::Mapping(after))) by {
                        assert forall|i: int| 0 <= i < after.len() implies (#[trigger] after[i]).0 is Text
                            && json_shaped(after[i].1) by {
                            lemma_entry_well_formed(before, i);
                        }
                    }
                }
            }
        }
        assert forall|k: Tree| #[trigger]
            lookup(after, k) == (if has_key(t, k) && has_key(s, k) && index_of(s, k) < n {
                remnant(lookup(t, k)->0, s[index_of(s, k)], ordered)
            } else {
                lookup(t, k)
            }) by {
            if same(e.0, k) {
                lemma_lookup_same(before, e.0, k);
                lemma_lookup_same(after, e.0, k);
                lemma_lookup_same(s, e.0, k);
            } else {
                if has_key(s, k) && index_of(s, k) == n - 1 {
                    assert(key_at(s, k, n - 1));
                    lemma_same_symmetric(k, e.0);
                }
            }
        }
    }
}

/// What is left of a well-formed value is well-formed.
pub proof fn lemma_remnant_well_formed(v: Tree, e: (Tree, Tree), ordered: bool)
    requires
        well_formed(v),
        well_formed(e.1),
    ensures
        remnant(v, e, ordered) matches Some(w) ==> well_formed(w) && (json_shaped(v) ==> json_shaped(w)),
    decreases e, 0nat,
{
    if entries_of(v) is Some && entries_of(e.1) is Some && v is Mapping && e.1 is Mapping {
        lemma_pruned_entries(v->Mapping_0, e.1->Mapping_0, e.1->Mapping_0.len(), ordered);
    }
}

/// Taking well-formed documents out of well-formed ones leaves well-formed ones.
pub proof fn lemma_pruned_well_formed(t: Tree, s: Tree, ordered: bool)
    requires
        well_formed(t),
        well_formed(s),
    ensures
        well_formed(pruned(t, s, ordered)),
        json_shaped(t) ==> json_shaped(pruned(t, s, ordered)),
{
    if t is Mapping && s is Mapping {
        lemma_pruned_entries(t->Mapping_0, s->Mapping_0, s->Mapping_0.len(), ordered);
    }
}

// ----------------------------------------------------------------------------
// Laws
// ----------------------------------------------------------------------------

/// A document holds everything that it holds.
pub proof fn law_contains_itself(t: Tree)
    requires
        well_formed(t),
    ensures
        contains(t, t),
    decreases t,
{
    if t is Mapping {
        let x = t->Mapping_0;
        assert forall|i: int| 0 <= i < x.len() implies has_key(x, (#[trigger] x[i]).0) && contains(
            x[index_of(x, x[i].0)].1,
            x[i].1,
        ) by {
            lemma_same_reflexive(x[i].0);
            assert(key_at(x, x[i].0, i));
            lemma_index_of(x, x[i].0, i);
            lemma_entry_well_formed(x, i);
            law_contains_itself(x[i].1);
        }
    } else {
        lemma_same_reflexive(t);
    }
}

/// Once a snippet has been merged in, the document holds everything in it.
pub proof fn law_merged_contains(t: Tree, s: Tree)
    requires
        well_formed(t),
        well_formed(s),
    ensures
        contains(merged(t, s), s),
    decreases s,
{
    if t is Mapping && s is Mapping {
        let x = t->Mapping_0;
        let y = s->Mapping_0;
        let m = merged_entries(x, y);
        lemma_merged_entries(x, y);
        assert forall|i: int| 0 <= i < y.len() implies has_key(m, (#[trigger] y[i]).0) && contains(
            m[index_of(m, y[i].0)].1,
            y[i].1,
        ) by {
            let k = y[i].0;
            lemma_same_reflexive(k);
            assert(key_at(y, k, i));
            lemma_index_of(y, k, i);
            lemma_entry_well_formed(y, i);
            assert(has_key(m, k));
            if has_key(x, k) {
                lemma_lookup_well_formed(x, k);
                law_merged_contains(lookup(x, k)->0, y[i].1);
            } else {
                law_contains_itself(y[i].1);
            }
        }
    } else {
        law_contains_itself(s);
    }
}

/// Merging a document into itself changes nothing.
pub proof fn law_merged_with_itself(t: Tree)
    requires
        well_formed(t),
    ensures
        merged(t, t) == t,
    decreases t,
{
    if t is Mapping {
        let x = t->Mapping_0;
        let p = |e: (Tree, Tree)| !has_key(x, e.0);
        assert forall|i: int| 0 <= i < x.len() implies lookup(x, (#[trigger] x[i]).0) == Some(x[i].1)
            && merged(x[i].1, x[i].1) == x[i].1 && !p(x[i]) by {
            lemma_same_reflexive(x[i].0);
            assert(key_at(x, x[i].0, i));
            lemma_index_of(x, x[i].0, i);
            lemma_entry_well_formed(x, i);
            law_merged_with_itself(x[i].1);
        }
        x.lemma_all_neg_filter_empty(p);
        assert(merged_entries(x, x) =~= x);
    }
}

/// Merging the same snippet in a second time changes nothing.
pub proof fn law_merged_idempotent(t: Tree, s: Tree)
    requires
        well_formed(t),
        well_formed(s),
    ensures
        merged(merged(t, s), s) == merged(t, s),
    decreases t,
{
    if t is Mapping && s is Mapping {
        let x = t->Mapping_0;
        let y = s->Mapping_0;
        let m = merged_entries(x, y);
        let n = x.len() as int;
        let rest = missing_from(x, y);
        let p = |e: (Tree, Tree)| !has_key(m, e.0);
        lemma_merged_entries(x, y);
        lemma_filtered(y, |e: (Tree, Tree)| !has_key(x, e.0));
        assert forall|i: int| 0 <= i < y.len() implies !p(#[trigger] y[i]) by {
            lemma_same_reflexive(y[i].0);
            assert(key_at(y, y[i].0, i));
            assert(has_key(m, y[i].0));
        }
        y.lemma_all_neg_filter_empty(p);
        let mm = merged_entries(m, y);
        assert forall|i: int| 0 <= i < m.len() implies #[trigger] mm[i] == m[i] by {
            if i < n {
                lemma_entry_well_formed(x, i);
                if has_key(y, x[i].0) {
                    lemma_lookup_well_formed(y, x[i].0);
                    law_merged_idempotent(x[i].1, lookup(y, x[i].0)->0);
                }
            } else {
                assert(m[i] == rest[i - n]);
                assert(y.contains(rest[i - n]));
                let j = choose|j: int| 0 <= j < y.len() && y[j] == rest[i - n];
                lemma_same_reflexive(y[j].0);
                assert(key_at(y, y[j].0, j));
                lemma_index_of(y, y[j].0, j);
                lemma_entry_well_formed(y, j);
                law_merged_with_itself(y[j].1);
            }
        }
        assert(mm =~= m);
    } else {
        law_merged_with_itself(s);
    }
}

/// Taking a snippet out changes nothing under a key that the snippet does not
/// have, nor a value that is no longer the snippet's; a value that still is goes,
/// and so does a mapping that is emptied by it. A mapping that was empty before
/// stays, unless it is the snippet's value itself.
pub proof fn law_pruned_lookup(t: Entries, s: Entries, k: Tree, ordered: bool)
    requires
        well_formed(Tree::Mapping(t)),
        well_formed(Tree::Mapping(s)),
    ensures
        lookup(pruned_entries(t, s, s.len(), ordered), k) == (match (lookup(t, k), lookup(s, k)) {
            (Some(v), Some(w)) => if same(v, w) {
                None
            } else if entries_of(v) is Some && entries_of(w) is Some {
                if entries_of(v)->0.len() > 0 && entries_of(pruned(v, w, ordered))->0.len() == 0 {
                    None
                } else {
                    Some(pruned(v, w, ordered))
                }
            } else {
                Some(v)
            },
            (v, _) => v,
        }),
{
    lemma_pruned_entries(t, s, s.len(), ordered);
    if has_key(s, k) {
        assert(key_at(s, k, index_of(s, k)));
    }
}

/// Nothing can be taken out of an empty mapping.
pub proof fn law_pruned_empty(s: Entries, n: nat, ordered: bool)
    ensures
        pruned_entries(Seq::empty(), s, n, ordered) == Seq::<(Tree, Tree)>::empty(),
    decreases n,
{
    if 0 < n <= s.len() {
        law_pruned_empty(s, (n - 1) as nat, ordered);
    }
}

/// No value of `s` is left in `t` under the key where `s` has it.
pub open spec fn clear_of(t: Tree, s: Tree) -> bool
    decreases s,
{
    t is Mapping && s is Mapping ==> {
        let x = t->Mapping_0;
        let y = s->Mapping_0;
        forall|i: int|
            0 <= i < y.len() && has_key(x, (#[trigger] y[i]).0) ==> {
                let v = x[index_of(x, y[i].0)].1;
                if entries_of(v) is Some && entries_of(y[i].1) is Some {
                    clear_of(v, y[i].1)
                } else {
                    !same(v, y[i].1)
                }
            }
    }
}

/// Once a snippet has been taken out, none of its values is left in its place.
pub proof fn law_pruned_clear(t: Tree, s: Tree, ordered: bool)
    requires
        well_formed(t),
        well_formed(s),
    ensures
        clear_of(pruned(t, s, ordered), s),
    decreases s,
{
    if t is Mapping && s is Mapping {
        let x = t->Mapping_0;
        let y = s->Mapping_0;
        let r = pruned_entries(x, y, y.len(), ordered);
        lemma_pruned_entries(x, y, y.len(), ordered);
        assert forall|i: int| 0 <= i < y.len() && has_key(r, (#[trigger] y[i]).0) implies {
            let v = r[index_of(r, y[i].0)].1;
            if entries_of(v) is Some && entries_of(y[i].1) is Some {
                clear_of(v, y[i].1)
            } else {
                !same(v, y[i].1)
            }
        } by {
            let k = y[i].0;
            lemma_same_reflexive(k);
            assert(key_at(y, k, i));
            lemma_index_of(y, k, i);
            lemma_entry_well_formed(y, i);
            assert(lookup(r, k) is Some);
            let v = lookup(x, k)->0;
            lemma_lookup_well_formed(x, k);
            lemma_untagged(v);
            lemma_untagged(y[i].1);
            law_pruned_clear(v, y[i].1, ordered);
        }
    }
}

/// A value taken out of itself leaves nothing.
pub proof fn law_pruned_from_itself(v: Tree, k: Tree, ordered: bool)
    ensures
        remnant(v, (k, v), ordered) is None,
{
    lemma_same_reflexive(v);
}

/// What is merged in without a shared key goes behind the document.
proof fn lemma_merged_apart(t: Entries, s: Entries)
    requires
        forall|l: Tree| has_key(s, l) ==> !has_key(t, l),
    ensures
        merged_entries(t, s) == t + s,
{
    let p = |e: (Tree, Tree)| !has_key(t, e.0);
    assert forall|i: int| 0 <= i < s.len() implies p(#[trigger] s[i]) by {
        lemma_same_reflexive(s[i].0);
        assert(key_at(s, s[i].0, i));
        assert(has_key(s, s[i].0));
    }
    lemma_filter_all(s, p);
    assert forall|i: int| 0 <= i < t.len() implies !has_key(s, (#[trigger] t[i]).0) by {
        lemma_same_reflexive(t[i].0);
        assert(key_at(t, t[i].0, i));
    }
    assert(merged_entries(t, s) =~= t + s);
}

/// Taking out the first `n` entries of a snippet that went behind a document leaves the
/// document in front.
proof fn lemma_front_stays(t: Entries, s: Entries, n: nat, ordered: bool)
    requires
        well_formed(Tree::Mapping(t)),
        well_formed(Tree::Mapping(s)),
        forall|l: Tree| has_key(s, l) ==> !has_key(t, l),
        n <= s.len(),
    ensures
        ({
            let w = pruned_entries(merged_entries(t, s), s, n, ordered);
            w.len() == t.len() + s.len() - n && w.take(t.len() as int) == t
        }),
    decreases n,
{
    let m = merged_entries(t, s);
    lemma_merged_apart(t, s);
    if n == 0 {
        assert(m.take(t.len() as int) =~= t);
    } else {
        let before = pruned_entries(m, s, (n - 1) as nat, ordered);
        let after = pruned_entries(m, s, n, ordered);
        let e = s[n - 1];
        lemma_front_stays(t, s, (n - 1) as nat, ordered);
        lemma_merged_well_formed(Tree::Mapping(t), Tree::Mapping(s));
        lemma_merged_entries(t, s);
        lemma_pruned_entries(m, s, (n - 1) as nat, ordered);
        lemma_same_reflexive(e.0);
        assert(key_at(s, e.0, n - 1));
        lemma_index_of(s, e.0, n - 1);
        assert(has_key(s, e.0));
        assert(has_key(m, e.0) && lookup(m, e.0) == Some(e.1));
        assert(lookup(before, e.0) == Some(e.1));
        law_pruned_from_itself(e.1, e.0, ordered);
        let i = index_of(before, e.0);
        assert(key_at(before, e.0, i));
        if i < t.len() {
            assert(before.take(t.len() as int)[i] == t[i]);
            assert(key_at(t, e.0, i));
        }
        assert(after == without(before, e.0, ordered));
        assert forall|j: int| 0 <= j < t.len() implies after[j] == t[j] by {
            assert(before.take(t.len() as int)[j] == before[j]);
        }
        assert(after.take(t.len() as int) =~= t);
    }
}

/// Taking out a snippet that was merged in restores the document to the letter, where
/// the snippet shares no key with the document.
pub proof fn law_merge_then_prune(t: Entries, s: Entries, ordered: bool)
    requires
        well_formed(Tree::Mapping(t)),
        well_formed(Tree::Mapping(s)),
        forall|l: Tree| has_key(s, l) ==> !has_key(t, l),
    ensures
        pruned_entries(merged_entries(t, s), s, s.len(), ordered) == t,
{
    let w = pruned_entries(merged_entries(t, s), s, s.len(), ordered);
    lemma_front_stays(t, s, s.len(), ordered);
    assert(w =~= w.take(t.len() as int));
}

/// The keys that both mappings have stand in the same order in both.
pub open spec fn keeps_order(m: Entries, w: Entries) -> bool {
    forall|k: Tree, l: Tree|
        #![trigger index_of(w, k), index_of(w, l)]
        has_key(m, k) && has_key(w, k) && has_key(m, l) && has_key(w, l) ==> (index_of(m, k)
            < index_of(m, l) <==> index_of(w, k) < index_of(w, l))
}

/// A mapping whose first keys are those of another keeps the order of its keys.
pub proof fn lemma_prefix_order(m: Entries, w: Entries)
    requires
        distinct_keys(m),
        distinct_keys(w),
        m.len() <= w.len(),
        forall|i: int| 0 <= i < m.len() ==> (#[trigger] w[i]).0 == m[i].0,
    ensures
        keeps_order(m, w),
{
    assert forall|k: Tree| #[trigger] has_key(m, k) implies index_of(w, k) == index_of(m, k) by {
        let i = index_of(m, k);
        assert(key_at(m, k, i));
        assert(w[i].0 == m[i].0);
        assert(key_at(w, k, i));
        lemma_index_of(w, k, i);
    }
}

/// Two steps that keep the order keep it together, where no key leaves in between.
pub proof fn lemma_order_chain(m: Entries, w: Entries, x: Entries)
    requires
        keeps_order(m, w),
        keeps_order(w, x),
        forall|k: Tree| has_key(m, k) && #[trigger] has_key(x, k) ==> has_key(w, k),
    ensures
        keeps_order(m, x),
{
    assert forall|k: Tree, l: Tree|
        #![trigger index_of(x, k), index_of(x, l)]
        has_key(m, k) && has_key(x, k) && has_key(m, l) && has_key(x, l) implies (index_of(m, k)
        < index_of(m, l) <==> index_of(x, k) < index_of(x, l)) by {
        assert(has_key(w, k) && has_key(w, l));
        assert(index_of(w, k) < index_of(w, l) <==> index_of(x, k) < index_of(x, l));
    }
}

/// Writing a value under a key keeps the order of the keys.
pub proof fn law_with_key_order(m: Entries, k: Tree, v: Tree)
    requires
        distinct_keys(m),
    ensures
        keeps_order(m, with_key(m, k, v)),
{
    lemma_with_key(m, k, v);
    if has_key(m, k) {
        assert(key_at(m, k, index_of(m, k)));
    }
    lemma_prefix_order(m, with_key(m, k, v));
}

/// Removing a key keeps the order of the others.
pub proof fn law_without_key_order(m: Entries, k: Tree)
    requires
        distinct_keys(m),
    ensures
        keeps_order(m, without_key(m, k)),
{
    let w = without_key(m, k);
    lemma_without_key(m, k);
    if has_key(m, k) {
        let i = index_of(m, k);
        assert(key_at(m, k, i));
        assert forall|l: Tree| #[trigger] has_key(w, l) implies index_of(m, l) == (if index_of(w, l) < i {
            index_of(w, l)
        } else {
            index_of(w, l) + 1
        }) by {
            let p = index_of(w, l);
            assert(key_at(w, l, p));
            let q = if p < i {
                p
            } else {
                p + 1
            };
            assert(w[p] == m[q]);
            assert(key_at(m, l, q));
            lemma_index_of(m, l, q);
        }
    }
}

/// Writing one mapping over another keeps the order of the keys that were there.
pub proof fn law_overlaid_order(m: Entries, new: Entries)
    requires
        well_formed(Tree::Mapping(m)),
        well_formed(Tree::Mapping(new)),
    ensures
        keeps_order(m, overlaid(m, new)),
{
    lemma_overlaid(m, new);
    lemma_prefix_order(m, overlaid(m, new));
}

/// Merging a snippet in keeps the order of the keys that were there.
pub proof fn law_merged_order(t: Entries, s: Entries)
    requires
        well_formed(Tree::Mapping(t)),
        well_formed(Tree::Mapping(s)),
    ensures
        keeps_order(t, merged_entries(t, s)),
{
    lemma_merged_entries(t, s);
    lemma_prefix_order(t, merged_entries(t, s));
}

/// Taking a snippet out in order keeps the order of the keys that stay.
pub proof fn law_pruned_order(t: Entries, s: Entries, n: nat)
    requires
        well_formed(Tree::Mapping(t)),
        well_formed(Tree::Mapping(s)),
        n <= s.len(),
    ensures
        keeps_order(t, pruned_entries(t, s, n, true)),
    decreases n,
{
    if n > 0 {
        let before = pruned_entries(t, s, (n - 1) as nat, true);
        let after = pruned_entries(t, s, n, true);
        let e = s[n - 1];
        law_pruned_order(t, s, (n - 1) as nat);
        lemma_pruned_entries(t, s, (n - 1) as nat, true);
        lemma_pruned_entries(t, s, n, true);
        assert(keeps_order(before, after)) by {
            if has_key(before, e.0) {
                match remnant(lookup(before, e.0)->0, e, true) {
                    Some(w) => law_with_key_order(before, e.0, w),
                    None => law_without_key_order(before, e.0),
                }
            } else {
                lemma_prefix_order(before, after);
            }
        }
        assert forall|k: Tree| #[trigger] has_key(after, k) implies has_key(before, k) by {
            assert(lookup(after, k) is Some);
            lemma_without_key(before, e.0);
            if has_key(before, e.0) {
                match remnant(lookup(before, e.0)->0, e, true) {
                    Some(w) => {
                        lemma_with_key(before, e.0, w);
                        if same(e.0, k) {
                            lemma_lookup_same(before, e.0, k);
                        }
                    },
                    None => {
                        if same(e.0, k) {
                            lemma_lookup_same(after, e.0, k);
                        }
                    },
                }
            }
        }
        lemma_order_chain(t, before, after);
    } else {
        lemma_prefix_order(t, pruned_entries(t, s, n, true));
    }
}

// ----------------------------------------------------------------------------
// Merging and removing
// ----------------------------------------------------------------------------

/// `target` with `source` merged in.
pub fn deep_merge(target: &Datum, source: &Datum) -> (r: Datum)
    requires
        well_formed(target@),
        well_formed(source@),
    ensures
        r@ == merged(target@, source@),
        well_formed(r@),
        json_shaped(target@) && json_shaped(source@) ==> json_shaped(r@),
    decreases target,
{
    broadcast use lemma_mapping_view;
    proof {
        lemma_merged_well_formed(target@, source@);
    }
    match (target, source) {
        (Datum::Mapping(t), Datum::Mapping(s)) => {
            assert(decreases_to!(*target => target->Mapping_0));
            Datum::Mapping(merge_tables(t, s))
        },
        _ => source.clone(),
    }
}

/// The entries of `target` with those of `source` merged in.
pub fn merge_tables(target: &Table, source: &Table) -> (r: Table)
    requires
        well_formed(Tree::Mapping(target@)),
        well_formed(Tree::Mapping(source@)),
    ensures
        r@ == merged_entries(target@, source@),
        well_formed(Tree::Mapping(r@)),
        json_shaped(Tree::Mapping(target@)) && json_shaped(Tree::Mapping(source@)) ==> json_shaped(
            Tree::Mapping(r@),
        ),
    decreases target,
{
    proof {
        lemma_merged_well_formed(Tree::Mapping(target@), Tree::Mapping(source@));
    }
    let mut out = Table::new();
    let ghost m = merged_entries(target@, source@);
    let mut i: usize = 0;
    while i < target.entries.len()
        invariant
            i <= target.entries@.len(),
            well_formed(Tree::Mapping(target@)),
            well_formed(Tree::Mapping(source@)),
            m == merged_entries(target@, source@),
            out@.len() == i,
            forall|j: int| 0 <= j < i ==> #[trigger] out@[j] == m[j],
        decreases target.entries@.len() - i,
    {
        assert(decreases_to!(*target => target.entries@));
        assert(decreases_to!(target.entries@ => target.entries@[i as int]));
        assert(decreases_to!(target.entries@[i as int] => target.entries@[i as int].1));
        proof {
            lemma_entry_well_formed(target@, i as int);
        }
        let key = target.entries[i].0.clone();
        let value = match source.position(&target.entries[i].0) {
            Some(j) => {
                proof {
                    lemma_entry_well_formed(source@, j as int);
                }
                deep_merge(&target.entries[i].1, &source.entries[j].1)
            },
            None => target.entries[i].1.clone(),
        };
        out.append(key, value);
        i += 1;
    }
    let ghost p = |e: (Tree, Tree)| !has_key(target@, e.0);
    let ghost first = out@;
    let mut i: usize = 0;
    assert(source@.take(0).filter(p) =~= Seq::<(Tree, Tree)>::empty()) by {
        reveal(Seq::filter);
    }
    while i < source.entries.len()
        invariant
            i <= source.entries@.len(),
            well_formed(Tree::Mapping(target@)),
            well_formed(Tree::Mapping(source@)),
            p == (|e: (Tree, Tree)| !has_key(target@, e.0)),
            out@ == first + source@.take(i as int).filter(p),
        decreases source.entries@.len() - i,
    {
        proof {
            lemma_entry_well_formed(source@, i as int);
            reveal(Seq::filter);
            assert(source@.take(i + 1).drop_last() =~= source@.take(i as int));
            assert(source@.take(i + 1).last() == source@[i as int]);
        }
        if target.position(&source.entries[i].0).is_none() {
            out.append(source.entries[i].0.clone(), source.entries[i].1.clone());
        }
        assert(out@ =~= first + source@.take(i + 1).filter(p));
        i += 1;
    }
    proof {
        assert(source@.take(source@.len() as int) =~= source@);
        assert(out@ =~= m);
    }
    out
}

/// Whether `target` holds everything that `source` does.
pub fn holds(target: &Datum, source: &Datum) -> (r: bool)
    requires
        well_formed(target@),
        well_formed(source@),
    ensures
        r == contains(target@, source@),
    decreases source,
{
    broadcast use lemma_mapping_view;
    match (target, source) {
        (Datum::Mapping(t), Datum::Mapping(s)) => {
            assert(decreases_to!(*source => source->Mapping_0));
            holds_entries(t, s)
        },
        _ => target.same_as(source),
    }
}

/// Whether `target` holds every entry of `source`.
pub fn holds_entries(target: &Table, source: &Table) -> (r: bool)
    requires
        well_formed(Tree::Mapping(target@)),
        well_formed(Tree::Mapping(source@)),
    ensures
        r == contains_entries(target@, source@),
    decreases source,
{
    let mut i: usize = 0;
    while i < source.entries.len()
        invariant
            i <= source.entries@.len(),
            well_formed(Tree::Mapping(target@)),
            well_formed(Tree::Mapping(source@)),
            forall|j: int|
                0 <= j < i ==> has_key(target@, (#[trigger] source@[j]).0) && contains(
                    target@[index_of(target@, source@[j].0)].1,
                    source@[j].1,
                ),
        decreases source.entries@.len() - i,
    {
        assert(decreases_to!(*source => source.entries@));
        assert(decreases_to!(source.entries@ => source.entries@[i as int]));
        assert(decreases_to!(source.entries@[i as int] => source.entries@[i as int].1));
        proof {
            lemma_entry_well_formed(source@, i as int);
        }
        match target.position(&source.entries[i].0) {
            Some(j) => {
                proof {
                    lemma_entry_well_formed(target@, j as int);
                }
                if !holds(&target.entries[j].1, &source.entries[i].1) {
                    assert(!contains(
                        target@[index_of(target@, source@[i as int].0)].1,
                        source@[i as int].1,
                    ));
                    return false;
                }
            },
            None => {
                assert(!has_key(target@, source@[i as int].0));
                return false;
            },
        }
        i += 1;
    }
    true
}

/// `target` without what `source` holds.
pub fn remove_matching(target: &Datum, source: &Datum, ordered: bool) -> (r: Datum)
    requires
        well_formed(target@),
        well_formed(source@),
    ensures
        r@ == pruned(target@, source@, ordered),
        well_formed(r@),
        json_shaped(target@) ==> json_shaped(r@),
    decreases source, 0nat,
{
    broadcast use lemma_mapping_view;
    proof {
        lemma_pruned_well_formed(target@, source@, ordered);
    }
    match (target, source) {
        (Datum::Mapping(t), Datum::Mapping(s)) => {
            assert(decreases_to!(*source => source->Mapping_0));
            Datum::Mapping(prune_table(t, s, ordered))
        },
        _ => target.clone(),
    }
}

/// What is left of `value` when `taken` is taken out of it.
pub fn leave_of(value: &Datum, taken: &Datum, ordered: bool) -> (r: Option<Datum>)
    requires
        well_formed(value@),
        well_formed(taken@),
    ensures
        forall|k: Tree|
            match r {
                Some(w) => #[trigger] remnant(value@, (k, taken@), ordered) == Some(w@),
                None => remnant(value@, (k, taken@), ordered) is None,
            },
    decreases taken, 1nat,
{
    if value.same_as(taken) {
        return None;
    }
    match (value.as_mapping(), taken.as_mapping()) {
        (Some(before), Some(_)) => {
            let w = remove_matching(value, taken, ordered);
            match w.as_mapping() {
                Some(after) => if !before.is_empty() && after.is_empty() {
                    None
                } else {
                    Some(w)
                },
                None => Some(w),
            }
        },
        _ => Some(value.clone()),
    }
}

/// `target` without the entries of `source`.
pub fn prune_table(target: &Table, source: &Table, ordered: bool) -> (r: Table)
    requires
        well_formed(Tree::Mapping(target@)),
        well_formed(Tree::Mapping(source@)),
    ensures
        r@ == pruned_entries(target@, source@, source@.len(), ordered),
        well_formed(Tree::Mapping(r@)),
        json_shaped(Tree::Mapping(target@)) ==> json_shaped(Tree::Mapping(r@)),
    decreases source, 0nat,
{
    let mut out = target.clone();
    let mut i: usize = 0;
    while i < source.entries.len()
        invariant
            i <= source.entries@.len(),
            well_formed(Tree::Mapping(target@)),
            well_formed(Tree::Mapping(source@)),
            out@ == pruned_entries(target@, source@, i as nat, ordered),
        decreases source.entries@.len() - i,
    {
        assert(decreases_to!(*source => source.entries@));
        assert(decreases_to!(source.entries@ => source.entries@[i as int]));
        assert(decreases_to!(source.entries@[i as int] => source.entries@[i as int].1));
        proof {
            lemma_entry_well_formed(source@, i as int);
            lemma_pruned_entries(target@, source@, i as nat, ordered);
        }
        if let Some(j) = out.position(&source.entries[i].0) {
            proof {
                lemma_entry_well_formed(out@, j as int);
            }
            let left = leave_of(&out.entries[j].1, &source.entries[i].1, ordered);
            proof {
                let e = source@[i as int];
                assert(e == (e.0, source.entries@[i as int].1@));
                assert(match left {
                    Some(w) => remnant(out@[j as int].1, e, ordered) == Some(w@),
                    None => remnant(out@[j as int].1, e, ordered) is None,
                });
            }
            match left {
                Some(w) => out.replace(j, w),
                None => if ordered {
                    out.remove_at(j)
                } else {
                    out.swap_remove(j)
                },
            }
        }
        i += 1;
    }
    proof {
        lemma_pruned_entries(target@, source@, source@.len(), ordered);
    }
    out
}

/// A mapping with the entries of another that it does not have behind its own.
pub fn fill(m: Table, other: &Table) -> (r: Table)
    requires
        well_formed(Tree::Mapping(m@)),
        well_formed(Tree::Mapping(other@)),
    ensures
        r@ == filled(m@, other@),
        well_formed(Tree::Mapping(r@)),
        json_shaped(Tree::Mapping(m@)) && json_shaped(Tree::Mapping(other@)) ==> json_shaped(
            Tree::Mapping(r@),
        ),
{
    let ghost p = |e: (Tree, Tree)| !has_key(m@, e.0);
    let mut extra = Table::new();
    let mut i: usize = 0;
    assert(other@.take(0).filter(p) =~= Seq::<(Tree, Tree)>::empty()) by {
        reveal(Seq::filter);
    }
    while i < other.entries.len()
        invariant
            i <= other.entries@.len(),
            well_formed(Tree::Mapping(m@)),
            well_formed(Tree::Mapping(other@)),
            p == (|e: (Tree, Tree)| !has_key(m@, e.0)),
            extra@ == other@.take(i as int).filter(p),
        decreases other.entries@.len() - i,
    {
        proof {
            lemma_entry_well_formed(other@, i as int);
            reveal(Seq::filter);
            assert(other@.take(i + 1).drop_last() =~= other@.take(i as int));
            assert(other@.take(i + 1).last() == other@[i as int]);
        }
        if m.position(&other.entries[i].0).is_none() {
            extra.append(other.entries[i].0.clone(), other.entries[i].1.clone());
        }
        i += 1;
    }
    assert(other@.take(other@.len() as int) =~= other@);
    let mut out = m;
    let ghost start = out@;
    let ghost rest = extra@;
    proof {
        lemma_filled(start, other@);
    }
    out.entries.append(&mut extra.entries);
    assert(out@ =~= start + rest);
    out
}

/// A mapping with the values of another written over its own, and behind them the
/// entries of the other that it does not have.
pub fn overlay(m: &Table, new: &Table) -> (r: Table)
    requires
        well_formed(Tree::Mapping(m@)),
        well_formed(Tree::Mapping(new@)),
    ensures
        r@ == overlaid(m@, new@),
        well_formed(Tree::Mapping(r@)),
        json_shaped(Tree::Mapping(m@)) && json_shaped(Tree::Mapping(new@)) ==> json_shaped(
            Tree::Mapping(r@),
        ),
{
    proof {
        lemma_overlaid(m@, new@);
    }
    let mut out = Table::new();
    let ghost whole = overlaid(m@, new@);
    let mut i: usize = 0;
    while i < m.entries.len()
        invariant
            i <= m.entries@.len(),
            well_formed(Tree::Mapping(m@)),
            well_formed(Tree::Mapping(new@)),
            whole == overlaid(m@, new@),
            out@.len() == i,
            forall|j: int| 0 <= j < i ==> #[trigger] out@[j] == whole[j],
        decreases m.entries@.len() - i,
    {
        proof {
            lemma_entry_well_formed(m@, i as int);
        }
        let value = match new.position(&m.entries[i].0) {
            Some(j) => new.entries[j].1.clone(),
            None => m.entries[i].1.clone(),
        };
        out.append(m.entries[i].0.clone(), value);
        i += 1;
    }
    let ghost p = |e: (Tree, Tree)| !has_key(m@, e.0);
    let ghost first = out@;
    let mut i: usize = 0;
    assert(new@.take(0).filter(p) =~= Seq::<(Tree, Tree)>::empty()) by {
        reveal(Seq::filter);
    }
    while i < new.entries.len()
        invariant
            i <= new.entries@.len(),
            well_formed(Tree::Mapping(m@)),
            well_formed(Tree::Mapping(new@)),
            p == (|e: (Tree, Tree)| !has_key(m@, e.0)),
            out@ == first + new@.take(i as int).filter(p),
        decreases new.entries@.len() - i,
    {
        proof {
            lemma_entry_well_formed(new@, i as int);
            reveal(Seq::filter);
            assert(new@.take(i + 1).drop_last() =~= new@.take(i as int));
            assert(new@.take(i + 1).last() == new@[i as int]);
        }
        if m.position(&new.entries[i].0).is_none() {
            out.append(new.entries[i].0.clone(), new.entries[i].1.clone());
        }
        assert(out@ =~= first + new@.take(i + 1).filter(p));
        i += 1;
    }
    proof {
        assert(new@.take(new@.len() as int) =~= new@);
        assert(out@ =~= whole);
    }
    out
}

/// Writing one mapping over another keeps each key once; what is found afterwards
/// is what the new one has, and else what was there.
pub proof fn lemma_overlaid(m: Entries, new: Entries)
    requires
        well_formed(Tree::Mapping(m)),
        well_formed(Tree::Mapping(new)),
    ensures
        well_formed(Tree::Mapping(overlaid(m, new))),
        json_shaped(Tree::Mapping(m)) && json_shaped(Tree::Mapping(new)) ==> json_shaped(
            Tree::Mapping(overlaid(m, new)),
        ),
        forall|k: Tree|
            #![trigger lookup(overlaid(m, new), k)]
            #![trigger has_key(overlaid(m, new), k)]
            {
                &&& lookup(overlaid(m, new), k) == (if has_key(new, k) {
                    lookup(new, k)
                } else {
                    lookup(m, k)
                })
                &&& has_key(overlaid(m, new), k) <==> has_key(m, k) || has_key(new, k)
            },
{
    let f = overlaid(m, new);
    let n = m.len() as int;
    let p = |e: (Tree, Tree)| !has_key(m, e.0);
    let rest = missing_from(m, new);
    lemma_filtered(new, p);
    lemma_filtered_well_formed(new, p);
    assert forall|i: int, j: int| 0 <= i < f.len() && 0 <= j < f.len() && i != j implies !same(
        (#[trigger] f[i]).0,
        (#[trigger] f[j]).0,
    ) by {
        if i < n && j < n {
            assert(f[i].0 == m[i].0 && f[j].0 == m[j].0);
        } else if i < n {
            assert(f[j] == rest[j - n]);
            if same(f[i].0, f[j].0) {
                lemma_same_symmetric(f[i].0, f[j].0);
                assert(key_at(m, rest[j - n].0, i));
                assert(p(rest[j - n]));
            }
        } else if j < n {
            assert(f[i] == rest[i - n]);
            if same(f[i].0, f[j].0) {
                assert(key_at(m, rest[i - n].0, j));
                assert(p(rest[i - n]));
            }
        } else {
            assert(f[i] == rest[i - n] && f[j] == rest[j - n]);
        }
    }
    assert forall|i: int| 0 <= i < f.len() implies well_formed((#[trigger] f[i]).0) && well_formed(
        f[i].1,
    ) && (json_shaped(Tree::Mapping(m)) && json_shaped(Tree::Mapping(new)) ==> f[i].0 is Text
        && json_shaped(f[i].1)) by {
        if i < n {
            lemma_entry_well_formed(m, i);
            if has_key(new, m[i].0) {
                lemma_lookup_well_formed(new, m[i].0);
            }
        } else {
            assert(f[i] == rest[i - n]);
            lemma_entry_well_formed(rest, i - n);
        }
    }
    assert forall|k: Tree|
        #![trigger lookup(f, k)]
        #![trigger has_key(f, k)]
        {
            &&& lookup(f, k) == (if has_key(new, k) {
                lookup(new, k)
            } else {
                lookup(m, k)
            })
            &&& has_key(f, k) <==> has_key(m, k) || has_key(new, k)
        } by {
        if has_key(m, k) {
            let i = index_of(m, k);
            assert(key_at(m, k, i));
            assert(key_at(f, k, i));
            lemma_index_of(f, k, i);
            lemma_lookup_same(new, k, m[i].0);
        } else if has_key(new, k) {
            let i = index_of(new, k);
            assert(key_at(new, k, i));
            lemma_lookup_same(m, k, new[i].0);
            assert(p(new[i]));
            assert(rest.contains(new[i]));
            let j = choose|j: int| 0 <= j < rest.len() && rest[j] == new[i];
            assert(f[n + j] == new[i]);
            assert(key_at(f, k, n + j));
            lemma_index_of(f, k, n + j);
        } else if has_key(f, k) {
            let j = index_of(f, k);
            assert(key_at(f, k, j));
            if j < n {
                assert(key_at(m, k, j));
            } else {
                assert(f[j] == rest[j - n]);
                assert(new.contains(rest[j - n]));
                let i = choose|i: int| 0 <= i < new.len() && new[i] == rest[j - n];
                assert(key_at(new, k, i));
            }
        }
    }
}

/// Writing over a mapping what it holds already changes nothing.
pub proof fn lemma_overlaid_held(m: Entries, new: Entries)
    requires
        distinct_keys(m),
        forall|k: Tree| #[trigger] has_key(new, k) ==> lookup(m, k) == lookup(new, k),
    ensures
        overlaid(m, new) == m,
{
    let p = |e: (Tree, Tree)| !has_key(m, e.0);
    assert forall|i: int| 0 <= i < new.len() implies !p(#[trigger] new[i]) by {
        lemma_same_reflexive(new[i].0);
        assert(key_at(new, new[i].0, i));
        assert(has_key(new, new[i].0));
    }
    new.lemma_all_neg_filter_empty(p);
    assert forall|i: int| 0 <= i < m.len() implies #[trigger] overlaid(m, new)[i] == m[i] by {
        lemma_same_reflexive(m[i].0);
        assert(key_at(m, m[i].0, i));
        lemma_index_of(m, m[i].0, i);
        if has_key(new, m[i].0) {
            assert(lookup(m, m[i].0) == lookup(new, m[i].0));
        }
    }
    assert(overlaid(m, new) =~= m);
}

/// Writing over an empty mapping gives what was written.
pub proof fn lemma_overlaid_nothing(new: Entries)
    ensures
        overlaid(Seq::empty(), new) == new,
{
    let none: Entries = Seq::empty();
    let p = |e: (Tree, Tree)| !has_key(none, e.0);
    assert forall|i: int| 0 <= i < new.len() implies p(#[trigger] new[i]) by {}
    lemma_filter_all(new, p);
    assert(overlaid(none, new) =~= new);
}

/// Writing the same over a mapping a second time changes nothing.
pub proof fn lemma_overlaid_twice(m: Entries, new: Entries)
    requires
        well_formed(Tree::Mapping(m)),
        well_formed(Tree::Mapping(new)),
    ensures
        overlaid(overlaid(m, new), new) == overlaid(m, new),
{
    lemma_overlaid(m, new);
    lemma_overlaid_held(overlaid(m, new), new);
}

/// Filling a mapping keeps what it has, and adds what the other has and it has not.
pub proof fn lemma_filled(m: Entries, other: Entries)
    requires
        well_formed(Tree::Mapping(m)),
        well_formed(Tree::Mapping(other)),
    ensures
        well_formed(Tree::Mapping(filled(m, other))),
        json_shaped(Tree::Mapping(m)) && json_shaped(Tree::Mapping(other)) ==> json_shaped(
            Tree::Mapping(filled(m, other)),
        ),
        forall|k: Tree|
            #![trigger lookup(filled(m, other), k)]
            #![trigger has_key(filled(m, other), k)]
            {
                &&& lookup(filled(m, other), k) == (if has_key(m, k) {
                    lookup(m, k)
                } else {
                    lookup(other, k)
                })
                &&& has_key(filled(m, other), k) <==> has_key(m, k) || has_key(other, k)
            },
{
    let f = filled(m, other);
    let n = m.len() as int;
    let p = |e: (Tree, Tree)| !has_key(m, e.0);
    let rest = missing_from(m, other);
    lemma_filtered(other, p);
    lemma_filtered_well_formed(other, p);
    assert forall|i: int, j: int| 0 <= i < f.len() && 0 <= j < f.len() && i != j implies !same(
        (#[trigger] f[i]).0,
        (#[trigger] f[j]).0,
    ) by {
        if i < n && j < n {
            assert(f[i] == m[i] && f[j] == m[j]);
        } else if i < n {
            assert(f[j] == rest[j - n]);
            if same(f[i].0, f[j].0) {
                lemma_same_symmetric(f[i].0, f[j].0);
                assert(key_at(m, rest[j - n].0, i));
                assert(p(rest[j - n]));
            }
        } else if j < n {
            assert(f[i] == rest[i - n]);
            if same(f[i].0, f[j].0) {
                assert(key_at(m, rest[i - n].0, j));
                assert(p(rest[i - n]));
            }
        } else {
            assert(f[i] == rest[i - n] && f[j] == rest[j - n]);
        }
    }
    assert forall|i: int| 0 <= i < f.len() implies well_formed((#[trigger] f[i]).0) && well_formed(
        f[i].1,
    ) && (json_shaped(Tree::Mapping(m)) && json_shaped(Tree::Mapping(other)) ==> f[i].0 is Text
        && json_shaped(f[i].1)) by {
        if i < n {
            lemma_entry_well_formed(m, i);
        } else {
            assert(f[i] == rest[i - n]);
            lemma_entry_well_formed(rest, i - n);
        }
    }
    assert forall|k: Tree|
        #![trigger lookup(f, k)]
        #![trigger has_key(f, k)]
        {
            &&& lookup(f, k) == (if has_key(m, k) {
                lookup(m, k)
            } else {
                lookup(other, k)
            })
            &&& has_key(f, k) <==> has_key(m, k) || has_key(other, k)
        } by {
        if has_key(m, k) {
            let i = index_of(m, k);
            assert(key_at(m, k, i));
            assert(key_at(f, k, i));
            lemma_index_of(f, k, i);
        } else if has_key(other, k) {
            let i = index_of(other, k);
            assert(key_at(other, k, i));
            lemma_lookup_same(m, k, other[i].0);
            assert(p(other[i]));
            assert(rest.contains(other[i]));
            let j = choose|j: int| 0 <= j < rest.len() && rest[j] == other[i];
            assert(f[n + j] == other[i]);
            assert(key_at(f, k, n + j));
            lemma_index_of(f, k, n + j);
        } else if has_key(f, k) {
            let j = index_of(f, k);
            assert(key_at(f, k, j));
            if j < n {
                assert(key_at(m, k, j));
            } else {
                assert(f[j] == rest[j - n]);
                assert(other.contains(rest[j - n]));
                let i = choose|i: int| 0 <= i < other.len() && other[i] == rest[j - n];
                assert(key_at(other, k, i));
            }
        }
    }
}

/// Filling a mapping from itself adds nothing.
pub proof fn lemma_filled_self(m: Entries)
    ensures
        filled(m, m) == m,
{
    let p = |e: (Tree, Tree)| !has_key(m, e.0);
    assert forall|i: int| 0 <= i < m.len() implies !p(#[trigger] m[i]) by {
        lemma_same_reflexive(m[i].0);
        assert(key_at(m, m[i].0, i));
    }
    m.lemma_all_neg_filter_empty(p);
    assert(filled(m, m) =~= m);
}

/// Filling a mapping from its own completion adds what it was completed with.
pub proof fn lemma_filled_twice(m: Entries, other: Entries)
    ensures
        filled(m, filled(m, other)) == filled(m, other),
{
    let p = |e: (Tree, Tree)| !has_key(m, e.0);
    let rest = missing_from(m, other);
    assert forall|i: int| 0 <= i < m.len() implies !p(#[trigger] m[i]) by {
        lemma_same_reflexive(m[i].0);
        assert(key_at(m, m[i].0, i));
    }
    m.lemma_all_neg_filter_empty(p);
    assert(m.filter(p) =~= Seq::<(Tree, Tree)>::empty());
    Seq::filter_distributes_over_add(m, rest, p);
    assert(rest.filter(p) == rest) by {
        lemma_filter_twice(other, p);
    }
    assert(filled(m, filled(m, other)) =~= filled(m, other));
}

/// Choosing by a condition that always holds drops nothing.
proof fn lemma_filter_all(s: Entries, p: spec_fn((Tree, Tree)) -> bool)
    requires
        forall|i: int| 0 <= i < s.len() ==> p(#[trigger] s[i]),
    ensures
        s.filter(p) == s,
    decreases s.len(),
{
    reveal(Seq::filter);
    if s.len() > 0 {
        assert(p(s[s.len() - 1]));
        lemma_filter_all(s.drop_last(), p);
        assert(s.drop_last().push(s.last()) =~= s);
    } else {
        assert(s.filter(p) =~= s);
    }
}

/// Choosing by the same condition a second time drops nothing.
proof fn lemma_filter_twice(s: Entries, p: spec_fn((Tree, Tree)) -> bool)
    ensures
        s.filter(p).filter(p) == s.filter(p),
    decreases s.len(),
{
    reveal(Seq::filter);
    if s.len() > 0 {
        lemma_filter_twice(s.drop_last(), p);
        if p(s.last()) {
            let sub = s.drop_last().filter(p);
            assert(sub.push(s.last()).drop_last() =~= sub);
        }
    }
}

} // verus!
