//! Common configuration: a snippet of settings that is merged into a document and
//! taken out of it again, without touching the keys that are kept for others.

use vstd::prelude::*;

use crate::merge::{
    clear_of, contains, contains_entries, holds_entries, keeps_order, law_merge_then_prune,
    law_merged_contains, law_merged_idempotent, law_merged_order, law_pruned_clear,
    law_pruned_empty, law_pruned_lookup, law_pruned_order, lemma_merged_entries,
    lemma_pruned_entries, merge_tables, merged, merged_entries, prune_table, pruned, pruned_entries,
};
use crate::paths::{
    at, found_at, law_contains_at, law_held_changes_nothing, law_merged_at, law_pruned_at,
    lemma_agreed, lemma_blocked, merges_at, prunes_at,
};
use crate::text::{text_eq, texts};
use crate::tree::{
    entries_of, has_key, index_of, json_shaped, key_at, lemma_filtered_lookup,
    lemma_filtered_well_formed, lookup, same, text_of, well_formed, Entries, Tree,
};
use crate::value::{Datum, Table};

verus! {

/// A key is protected where it is one of the given names.
pub open spec fn is_protected(k: Tree, names: Seq<Seq<char>>) -> bool {
    text_of(k) matches Some(s) && names.contains(s)
}

/// The entries of a snippet that are not protected.
pub open spec fn exposed(snippet: Entries, names: Seq<Seq<char>>) -> Entries {
    snippet.filter(|e: (Tree, Tree)| !is_protected(e.0, names))
}

/// A document with a snippet merged in.
pub open spec fn applied_to(root: Entries, snippet: Entries, names: Seq<Seq<char>>) -> Entries {
    merged_entries(root, exposed(snippet, names))
}

/// A document with a snippet taken out; where `ordered`, what stays keeps its order.
pub open spec fn taken_from(
    root: Entries,
    snippet: Entries,
    names: Seq<Seq<char>>,
    ordered: bool,
) -> Entries {
    pruned_entries(root, exposed(snippet, names), exposed(snippet, names).len(), ordered)
}

/// A document holds everything in a snippet.
pub open spec fn is_applied(root: Entries, snippet: Entries, names: Seq<Seq<char>>) -> bool {
    contains_entries(root, exposed(snippet, names))
}

// ----------------------------------------------------------------------------
// Laws
// ----------------------------------------------------------------------------

/// Equal documents are the same text, or neither is one.
pub proof fn lemma_same_text_of(a: Tree, b: Tree)
    requires
        same(a, b),
    ensures
        text_of(a) == text_of(b),
    decreases a,
{
    reveal(same);
    match a {
        Tree::Tagged(_, x) => {
            lemma_same_text_of(*x, *b->Tagged_1);
        },
        _ => {},
    }
}

proof fn lemma_protected_absent(snippet: Entries, names: Seq<Seq<char>>, k: Tree)
    requires
        well_formed(Tree::Mapping(snippet)),
        is_protected(k, names),
    ensures
        !has_key(exposed(snippet, names), k),
{
    lemma_filtered_lookup(snippet, |e: (Tree, Tree)| !is_protected(e.0, names), k);
    if has_key(snippet, k) {
        let i = index_of(snippet, k);
        assert(key_at(snippet, k, i));
        lemma_same_text_of(k, snippet[i].0);
    }
}

/// A document with a snippet taken out is well-formed.
pub proof fn lemma_taken_well_formed(
    root: Entries,
    snippet: Entries,
    names: Seq<Seq<char>>,
    ordered: bool,
)
    requires
        well_formed(Tree::Mapping(root)),
        well_formed(Tree::Mapping(snippet)),
    ensures
        well_formed(Tree::Mapping(taken_from(root, snippet, names, ordered))),
{
    let s = exposed(snippet, names);
    lemma_filtered_well_formed(snippet, |e: (Tree, Tree)| !is_protected(e.0, names));
    lemma_pruned_entries(root, s, s.len(), ordered);
}

/// Once a snippet has been applied, it counts as applied.
pub proof fn law_apply_then_applied(root: Entries, snippet: Entries, names: Seq<Seq<char>>)
    requires
        well_formed(Tree::Mapping(root)),
        well_formed(Tree::Mapping(snippet)),
    ensures
        is_applied(applied_to(root, snippet, names), snippet, names),
{
    lemma_filtered_well_formed(snippet, |e: (Tree, Tree)| !is_protected(e.0, names));
    law_merged_contains(Tree::Mapping(root), Tree::Mapping(exposed(snippet, names)));
}

/// Applying a snippet a second time changes nothing.
pub proof fn law_apply_idempotent(root: Entries, snippet: Entries, names: Seq<Seq<char>>)
    requires
        well_formed(Tree::Mapping(root)),
        well_formed(Tree::Mapping(snippet)),
    ensures
        applied_to(applied_to(root, snippet, names), snippet, names) == applied_to(
            root,
            snippet,
            names,
        ),
{
    let s = exposed(snippet, names);
    lemma_filtered_well_formed(snippet, |e: (Tree, Tree)| !is_protected(e.0, names));
    law_merged_idempotent(Tree::Mapping(root), Tree::Mapping(s));
    assert(merged(Tree::Mapping(root), Tree::Mapping(s)) == Tree::Mapping(merged_entries(root, s)));
}

/// Neither applying a snippet nor taking it out touches what is under a protected key.
pub proof fn law_protected_untouched(
    root: Entries,
    snippet: Entries,
    names: Seq<Seq<char>>,
    k: Tree,
    ordered: bool,
)
    requires
        well_formed(Tree::Mapping(root)),
        well_formed(Tree::Mapping(snippet)),
        is_protected(k, names),
    ensures
        lookup(applied_to(root, snippet, names), k) == lookup(root, k),
        lookup(taken_from(root, snippet, names, ordered), k) == lookup(root, k),
{
    let s = exposed(snippet, names);
    lemma_filtered_well_formed(snippet, |e: (Tree, Tree)| !is_protected(e.0, names));
    lemma_protected_absent(snippet, names, k);
    lemma_merged_entries(root, s);
    law_pruned_lookup(root, s, k, ordered);
}

/// Neither applying a snippet nor taking it out touches what is under a key that
/// the snippet does not have.
pub proof fn law_others_untouched(
    root: Entries,
    snippet: Entries,
    names: Seq<Seq<char>>,
    k: Tree,
    ordered: bool,
)
    requires
        well_formed(Tree::Mapping(root)),
        well_formed(Tree::Mapping(snippet)),
        !has_key(snippet, k),
    ensures
        lookup(applied_to(root, snippet, names), k) == lookup(root, k),
        lookup(taken_from(root, snippet, names, ordered), k) == lookup(root, k),
{
    let p = |e: (Tree, Tree)| !is_protected(e.0, names);
    let s = exposed(snippet, names);
    lemma_filtered_well_formed(snippet, p);
    lemma_filtered_lookup(snippet, p, k);
    lemma_merged_entries(root, s);
    law_pruned_lookup(root, s, k, ordered);
}

/// A value that was changed since, so that it is no longer the snippet's, is not
/// taken out, nor is a mapping that holds nothing.
pub proof fn law_changed_values_stay(
    root: Entries,
    snippet: Entries,
    names: Seq<Seq<char>>,
    k: Tree,
    ordered: bool,
)
    requires
        well_formed(Tree::Mapping(root)),
        well_formed(Tree::Mapping(snippet)),
        lookup(root, k) is Some,
        lookup(snippet, k) is Some,
        !same(lookup(root, k)->0, lookup(snippet, k)->0),
        entries_of(lookup(root, k)->0) is Some && entries_of(lookup(snippet, k)->0) is Some
            ==> entries_of(lookup(root, k)->0)->0.len() == 0,
    ensures
        lookup(taken_from(root, snippet, names, ordered), k) == lookup(root, k),
{
    let p = |e: (Tree, Tree)| !is_protected(e.0, names);
    let s = exposed(snippet, names);
    lemma_filtered_well_formed(snippet, p);
    lemma_filtered_lookup(snippet, p, k);
    law_pruned_lookup(root, s, k, ordered);
    let v = lookup(root, k)->0;
    let w = lookup(snippet, k)->0;
    if v is Mapping && w is Mapping {
        assert(v->Mapping_0 =~= Seq::<(Tree, Tree)>::empty());
        law_pruned_empty(w->Mapping_0, w->Mapping_0.len(), ordered);
    }
}

/// Once a snippet has been taken out, none of its values is left in its place.
pub proof fn law_taken_clear(
    root: Entries,
    snippet: Entries,
    names: Seq<Seq<char>>,
    ordered: bool,
)
    requires
        well_formed(Tree::Mapping(root)),
        well_formed(Tree::Mapping(snippet)),
    ensures
        clear_of(
            Tree::Mapping(taken_from(root, snippet, names, ordered)),
            Tree::Mapping(exposed(snippet, names)),
        ),
{
    let s = exposed(snippet, names);
    lemma_filtered_well_formed(snippet, |e: (Tree, Tree)| !is_protected(e.0, names));
    law_pruned_clear(Tree::Mapping(root), Tree::Mapping(s), ordered);
    assert(pruned(Tree::Mapping(root), Tree::Mapping(s), ordered) == Tree::Mapping(
        pruned_entries(root, s, s.len(), ordered),
    ));
}

/// Taking out a snippet that was applied restores the document to the letter, where the
/// snippet shares no key with the document.
pub proof fn law_apply_then_take(
    root: Entries,
    snippet: Entries,
    names: Seq<Seq<char>>,
    ordered: bool,
)
    requires
        well_formed(Tree::Mapping(root)),
        well_formed(Tree::Mapping(snippet)),
        forall|l: Tree| has_key(exposed(snippet, names), l) ==> !has_key(root, l),
    ensures
        taken_from(applied_to(root, snippet, names), snippet, names, ordered) == root,
{
    lemma_filtered_well_formed(snippet, |e: (Tree, Tree)| !is_protected(e.0, names));
    law_merge_then_prune(root, exposed(snippet, names), ordered);
}

/// Replacing one snippet by another: the new one counts as applied afterwards. Under a
/// key that the new one does not set, a value that still is the old one's is gone; one
/// that was changed since stays, unless both are mappings; and what neither of them
/// sets is untouched.
pub proof fn law_replaced(
    root: Entries,
    old_snippet: Entries,
    new_snippet: Entries,
    names: Seq<Seq<char>>,
    k: Tree,
    ordered: bool,
)
    requires
        well_formed(Tree::Mapping(root)),
        well_formed(Tree::Mapping(old_snippet)),
        well_formed(Tree::Mapping(new_snippet)),
    ensures
        ({
            let between = taken_from(root, old_snippet, names, ordered);
            let after = applied_to(between, new_snippet, names);
            let o = exposed(old_snippet, names);
            let n = exposed(new_snippet, names);
            &&& is_applied(after, new_snippet, names)
            &&& !has_key(n, k) ==> lookup(after, k) == lookup(between, k)
            &&& !has_key(n, k) && !has_key(o, k) ==> lookup(after, k) == lookup(root, k)
            &&& !has_key(n, k) && has_key(o, k) && has_key(root, k) ==> {
                let v = lookup(root, k)->0;
                let w = lookup(o, k)->0;
                &&& same(v, w) ==> lookup(after, k) is None
                &&& !same(v, w) && !(entries_of(v) is Some && entries_of(w) is Some) ==> lookup(
                    after,
                    k,
                ) == Some(v)
            }
        }),
{
    let p = |e: (Tree, Tree)| !is_protected(e.0, names);
    let between = taken_from(root, old_snippet, names, ordered);
    let o = exposed(old_snippet, names);
    let n = exposed(new_snippet, names);
    lemma_filtered_well_formed(old_snippet, p);
    lemma_filtered_well_formed(new_snippet, p);
    lemma_pruned_entries(root, o, o.len(), ordered);
    law_pruned_lookup(root, o, k, ordered);
    law_apply_then_applied(between, new_snippet, names);
    lemma_merged_entries(between, n);
}

/// Neither applying a snippet nor taking it out in order moves a key that is in the
/// document before and after.
pub proof fn law_snippet_in_order(root: Entries, snippet: Entries, names: Seq<Seq<char>>)
    requires
        well_formed(Tree::Mapping(root)),
        well_formed(Tree::Mapping(snippet)),
    ensures
        keeps_order(root, applied_to(root, snippet, names)),
        keeps_order(root, taken_from(root, snippet, names, true)),
{
    let s = exposed(snippet, names);
    lemma_filtered_well_formed(snippet, |e: (Tree, Tree)| !is_protected(e.0, names));
    law_merged_order(root, s);
    law_pruned_order(root, s, s.len());
}

/// What the entries of a snippet that are not protected hold at a path is what the snippet
/// holds there, unless the path begins with a protected key.
proof fn lemma_exposed_at(snippet: Entries, names: Seq<Seq<char>>, path: Seq<Tree>)
    requires
        well_formed(Tree::Mapping(snippet)),
        path.len() > 0,
    ensures
        at(Tree::Mapping(exposed(snippet, names)), path) == (if is_protected(path[0], names) {
            None
        } else {
            at(Tree::Mapping(snippet), path)
        }),
        lookup(exposed(snippet, names), path[0]) == (if is_protected(path[0], names) {
            None
        } else {
            lookup(snippet, path[0])
        }),
{
    let k = path[0];
    let p = |e: (Tree, Tree)| !is_protected(e.0, names);
    lemma_filtered_lookup(snippet, p, k);
    if has_key(snippet, k) {
        let i = index_of(snippet, k);
        assert(key_at(snippet, k, i));
        lemma_same_text_of(k, snippet[i].0);
    }
}

/// Applying a snippet touches nothing under a protected key. At every other path, what
/// the snippet sets is found afterwards, and what it does not set is as it was.
pub proof fn law_applied_at(root: Entries, snippet: Entries, names: Seq<Seq<char>>, path: Seq<Tree>)
    requires
        well_formed(Tree::Mapping(root)),
        well_formed(Tree::Mapping(snippet)),
        path.len() > 0,
    ensures
        ({
            let t = Tree::Mapping(root);
            let r = Tree::Mapping(applied_to(root, snippet, names));
            if is_protected(path[0], names) {
                at(r, path) == at(t, path)
            } else {
                merges_at(t, Tree::Mapping(snippet), r, path)
            }
        }),
{
    let t = Tree::Mapping(root);
    let s = Tree::Mapping(exposed(snippet, names));
    lemma_filtered_well_formed(snippet, |e: (Tree, Tree)| !is_protected(e.0, names));
    law_merged_at(t, s, path);
    assert(merged(t, s) == Tree::Mapping(applied_to(root, snippet, names)));
    lemma_exposed_at(snippet, names, path);
    lemma_blocked(s, path);
    lemma_blocked(Tree::Mapping(snippet), path);
}

/// Taking a snippet out touches nothing under a protected key. At every other path, what
/// is the snippet's there is gone afterwards, and what is not is as it was.
pub proof fn law_taken_at(
    root: Entries,
    snippet: Entries,
    names: Seq<Seq<char>>,
    path: Seq<Tree>,
    ordered: bool,
)
    requires
        well_formed(Tree::Mapping(root)),
        well_formed(Tree::Mapping(snippet)),
        path.len() > 0,
    ensures
        ({
            let t = Tree::Mapping(root);
            let r = Tree::Mapping(taken_from(root, snippet, names, ordered));
            if is_protected(path[0], names) {
                at(r, path) == at(t, path)
            } else {
                prunes_at(t, Tree::Mapping(snippet), r, path)
            }
        }),
{
    let t = Tree::Mapping(root);
    let s = Tree::Mapping(exposed(snippet, names));
    lemma_filtered_well_formed(snippet, |e: (Tree, Tree)| !is_protected(e.0, names));
    law_pruned_at(t, s, path, ordered);
    assert(pruned(t, s, ordered) == Tree::Mapping(taken_from(root, snippet, names, ordered)));
    lemma_exposed_at(snippet, names, path);
    lemma_agreed(t, s, path);
    lemma_agreed(t, Tree::Mapping(snippet), path);
}

/// A snippet counts as applied exactly where the document has what the snippet has at
/// every path that does not begin with a protected key.
pub proof fn law_is_applied_at(root: Entries, snippet: Entries, names: Seq<Seq<char>>)
    requires
        well_formed(Tree::Mapping(root)),
        well_formed(Tree::Mapping(snippet)),
    ensures
        is_applied(root, snippet, names) <==> forall|path: Seq<Tree>|
            path.len() > 0 && !is_protected(path[0], names) ==> #[trigger] found_at(
                Tree::Mapping(root),
                Tree::Mapping(snippet),
                path,
            ),
{
    let t = Tree::Mapping(root);
    let s = Tree::Mapping(exposed(snippet, names));
    let whole = Tree::Mapping(snippet);
    lemma_filtered_well_formed(snippet, |e: (Tree, Tree)| !is_protected(e.0, names));
    law_contains_at(t, s);
    assert(contains(t, s) == is_applied(root, snippet, names));
    if contains(t, s) {
        assert forall|path: Seq<Tree>|
            path.len() > 0 && !is_protected(path[0], names) implies #[trigger] found_at(
            t,
            whole,
            path,
        ) by {
            lemma_exposed_at(snippet, names, path);
            assert(found_at(t, s, path));
        }
    }
    if forall|path: Seq<Tree>|
        path.len() > 0 && !is_protected(path[0], names) ==> #[trigger] found_at(t, whole, path) {
        assert forall|path: Seq<Tree>| #[trigger] found_at(t, s, path) by {
            if path.len() > 0 {
                lemma_exposed_at(snippet, names, path);
                if !is_protected(path[0], names) {
                    assert(found_at(t, whole, path));
                }
            }
        }
    }
}

/// A snippet counts as applied exactly where applying it gives an equal document.
pub proof fn law_applied_changes_nothing(root: Entries, snippet: Entries, names: Seq<Seq<char>>)
    requires
        well_formed(Tree::Mapping(root)),
        well_formed(Tree::Mapping(snippet)),
    ensures
        is_applied(root, snippet, names) <==> same(
            Tree::Mapping(applied_to(root, snippet, names)),
            Tree::Mapping(root),
        ),
{
    let t = Tree::Mapping(root);
    let s = Tree::Mapping(exposed(snippet, names));
    lemma_filtered_well_formed(snippet, |e: (Tree, Tree)| !is_protected(e.0, names));
    law_held_changes_nothing(t, s);
    assert(contains(t, s) == is_applied(root, snippet, names));
    assert(merged(t, s) == Tree::Mapping(applied_to(root, snippet, names)));
}

// ----------------------------------------------------------------------------
// Snippets
// ----------------------------------------------------------------------------

/// Whether a key is one of the given names.
pub fn protected(key: &Datum, names: &Vec<String>) -> (r: bool)
    ensures
        r == is_protected(key@, texts(names@)),
{
    match key.as_str() {
        Some(s) => {
            let mut i: usize = 0;
            while i < names.len()
                invariant
                    i <= names@.len(),
                    text_of(key@) == Some(s@),
                    forall|j: int| 0 <= j < i ==> #[trigger] texts(names@)[j] != s@,
                decreases names@.len() - i,
            {
                if text_eq(s, names[i].as_str()) {
                    assert(texts(names@)[i as int] == s@);
                    return true;
                }
                i += 1;
            }
            assert(!texts(names@).contains(s@));
            false
        },
        None => false,
    }
}

/// The entries of a snippet that are not protected.
pub fn unprotected(snippet: &Table, names: &Vec<String>) -> (r: Table)
    requires
        well_formed(Tree::Mapping(snippet@)),
    ensures
        r@ == exposed(snippet@, texts(names@)),
        well_formed(Tree::Mapping(r@)),
        json_shaped(Tree::Mapping(snippet@)) ==> json_shaped(Tree::Mapping(r@)),
{
    let ghost p = |e: (Tree, Tree)| !is_protected(e.0, texts(names@));
    let mut out = Table::new();
    let mut i: usize = 0;
    assert(snippet@.take(0).filter(p) =~= Seq::<(Tree, Tree)>::empty()) by {
        reveal(Seq::filter);
    }
    while i < snippet.entries.len()
        invariant
            i <= snippet.entries@.len(),
            p == (|e: (Tree, Tree)| !is_protected(e.0, texts(names@))),
            out@ == snippet@.take(i as int).filter(p),
        decreases snippet.entries@.len() - i,
    {
        proof {
            reveal(Seq::filter);
            assert(snippet@.take(i + 1).drop_last() =~= snippet@.take(i as int));
            assert(snippet@.take(i + 1).last() == snippet@[i as int]);
        }
        if !protected(&snippet.entries[i].0, names) {
            out.append(snippet.entries[i].0.clone(), snippet.entries[i].1.clone());
        }
        i += 1;
    }
    proof {
        assert(snippet@.take(snippet@.len() as int) =~= snippet@);
        lemma_filtered_well_formed(snippet@, p);
    }
    out
}

/// A document with a snippet merged in.
pub fn apply_snippet(root: &Table, snippet: &Table, names: &Vec<String>) -> (r: Table)
    requires
        well_formed(Tree::Mapping(root@)),
        well_formed(Tree::Mapping(snippet@)),
    ensures
        r@ == applied_to(root@, snippet@, texts(names@)),
        well_formed(Tree::Mapping(r@)),
        json_shaped(Tree::Mapping(root@)) && json_shaped(Tree::Mapping(snippet@)) ==> json_shaped(
            Tree::Mapping(r@),
        ),
{
    merge_tables(root, &unprotected(snippet, names))
}

/// A document with a snippet taken out.
pub fn take_snippet(root: &Table, snippet: &Table, names: &Vec<String>, ordered: bool) -> (r: Table)
    requires
        well_formed(Tree::Mapping(root@)),
        well_formed(Tree::Mapping(snippet@)),
    ensures
        r@ == taken_from(root@, snippet@, texts(names@), ordered),
        well_formed(Tree::Mapping(r@)),
        json_shaped(Tree::Mapping(root@)) ==> json_shaped(Tree::Mapping(r@)),
{
    prune_table(root, &unprotected(snippet, names), ordered)
}

/// Whether a document holds everything in a snippet.
pub fn snippet_applied(root: &Table, snippet: &Table, names: &Vec<String>) -> (r: bool)
    requires
        well_formed(Tree::Mapping(root@)),
        well_formed(Tree::Mapping(snippet@)),
    ensures
        r == is_applied(root@, snippet@, texts(names@)),
{
    holds_entries(root, &unprotected(snippet, names))
}

} // verus!
