//! What holds of the MCP servers of dsh.

use vstd::prelude::*;

use crate::mcp::items::{
    concerns, entry_slot, id_of, inserted, is_client, is_slot, new_entry, server_of, slot_in,
    slot_of, spared, stripped, stripped_entry, upserted, with_items, RemovalView,
};
use crate::mcp::patch::{entries_well_formed, EntryView};
use crate::tree::{
    distinct_keys, entries_of, field, has_key, index_of, key_at, lemma_index_of, lemma_refilled,
    lemma_relisted, lemma_same_reflexive, lemma_same_text, lemma_same_transitive, lemma_untagged,
    lemma_with_key, lookup, occurs_in, relisted, same, same_entry, text_field, untagged,
    well_formed, with_key, Entries, Tree,
};

verus! {

// ----------------------------------------------------------------------------
// Equal documents
// ----------------------------------------------------------------------------

proof fn lemma_untagged_same(a: Tree, b: Tree)
    requires
        same(a, b),
    ensures
        same(untagged(a), untagged(b)),
    decreases a,
{
    reveal(same);
    match a {
        Tree::Tagged(_, x) => {
            lemma_untagged_same(*x, *b->Tagged_1);
        },
        _ => {},
    }
}

/// Equal mappings hold equal values under a key.
proof fn lemma_lookup_equal(m: Entries, n: Entries, k: Tree)
    requires
        same(Tree::Mapping(m), Tree::Mapping(n)),
        distinct_keys(m),
        distinct_keys(n),
        has_key(m, k),
    ensures
        has_key(n, k),
        same(lookup(m, k)->0, lookup(n, k)->0),
{
    reveal(same);
    let i = index_of(m, k);
    assert(key_at(m, k, i));
    assert(occurs_in(m[i], n)) by {
        let t = Tree::Mapping(m);
        assert(t->Mapping_0 == m);
        assert(Tree::Mapping(n)->Mapping_0 == n);
    }
    let j = choose|j: int| 0 <= j < n.len() && same_entry(m[i], #[trigger] n[j]);
    lemma_same_transitive(k, m[i].0, n[j].0);
    assert(key_at(n, k, j));
    lemma_index_of(n, k, j);
    lemma_index_of(m, k, i);
}

/// Equal documents hold equal values under a name.
proof fn lemma_field_same(a: Tree, b: Tree, name: Seq<char>)
    requires
        same(a, b),
        well_formed(a),
        well_formed(b),
    ensures
        field(a, name) is Some == field(b, name) is Some,
        field(a, name) is Some ==> same(field(a, name)->0, field(b, name)->0),
{
    lemma_untagged_same(a, b);
    lemma_untagged(a);
    lemma_untagged(b);
    let k = Tree::Text(name);
    match (untagged(a), untagged(b)) {
        (Tree::Mapping(m), Tree::Mapping(n)) => {
            crate::tree::lemma_same_symmetric(Tree::Mapping(m), Tree::Mapping(n));
            if has_key(m, k) {
                lemma_lookup_equal(m, n, k);
            }
            if has_key(n, k) {
                lemma_lookup_equal(n, m, k);
            }
        },
        _ => {
            reveal(same);
        },
    }
}

/// Equal documents hold the same text under a name.
proof fn lemma_text_field_same(a: Tree, b: Tree, name: Seq<char>)
    requires
        same(a, b),
        well_formed(a),
        well_formed(b),
    ensures
        text_field(a, name) == text_field(b, name),
{
    lemma_field_same(a, b, name);
    if field(a, name) is Some {
        lemma_untagged_same(field(a, name)->0, field(b, name)->0);
        reveal(same);
    }
}

/// The value under a name is well-formed.
proof fn lemma_field_well_formed(t: Tree, name: Seq<char>)
    requires
        well_formed(t),
        field(t, name) is Some,
    ensures
        well_formed(field(t, name)->0),
{
    lemma_untagged(t);
    crate::tree::lemma_lookup_well_formed(entries_of(t)->0, Tree::Text(name));
}

/// Equal items are the same MCP server.
pub proof fn lemma_item_same(a: Tree, b: Tree)
    requires
        same(a, b),
        well_formed(a),
        well_formed(b),
    ensures
        is_client(a) == is_client(b),
        id_of(a) == id_of(b),
        server_of(a) == server_of(b),
{
    lemma_text_field_same(a, b, "name"@);
    lemma_text_field_same(a, b, "id"@);
    lemma_field_same(a, b, "config"@);
    if field(a, "config"@) is Some {
        lemma_field_well_formed(a, "config"@);
        lemma_field_well_formed(b, "config"@);
        lemma_text_field_same(field(a, "config"@)->0, field(b, "config"@)->0, "serverName"@);
    }
}

/// The items of a well-formed entry are well-formed.
pub proof fn lemma_inserted_well_formed(e: Tree)
    requires
        well_formed(e),
        inserted(e) is Some,
    ensures
        well_formed(Tree::List(inserted(e)->0)),
        forall|i: int| 0 <= i < inserted(e)->0.len() ==> well_formed(#[trigger] inserted(e)->0[i]),
{
    lemma_field_well_formed(e, "insert"@);
    let list = field(e, "insert"@)->0;
    lemma_untagged(list);
    let items = inserted(e)->0;
    assert(untagged(list) == Tree::List(items));
    assert forall|i: int| 0 <= i < items.len() implies well_formed(#[trigger] items[i]) by {
        crate::tree::lemma_item_well_formed(items, i);
    }
}

/// Equal entries have equal items.
pub proof fn lemma_inserted_same(a: Tree, b: Tree)
    requires
        same(a, b),
        well_formed(a),
        well_formed(b),
    ensures
        inserted(a) is Some == inserted(b) is Some,
        inserted(a) is Some ==> inserted(a)->0.len() == inserted(b)->0.len() && forall|i: int|
            0 <= i < inserted(a)->0.len() ==> same(#[trigger] inserted(a)->0[i], inserted(b)->0[i]),
{
    lemma_field_same(a, b, "insert"@);
    if field(a, "insert"@) is Some {
        let x = field(a, "insert"@)->0;
        let y = field(b, "insert"@)->0;
        lemma_untagged_same(x, y);
        reveal(same);
    }
}

/// An entry with other items has those items, and holds the rest as before.
pub proof fn lemma_with_items(e: Tree, items: Seq<Tree>)
    requires
        well_formed(e),
        inserted(e) is Some,
    ensures
        inserted(with_items(e, items)) == Some(items),
        forall|name: Seq<char>|
            name != "insert"@ ==> #[trigger] field(with_items(e, items), name) == field(e, name),
        entries_of(with_items(e, items))->0.len() == entries_of(e)->0.len(),
{
    broadcast use lemma_same_text;

    lemma_untagged(e);
    let m = entries_of(e)->0;
    let list = field(e, "insert"@)->0;
    let k = Tree::Text("insert"@);
    let w = with_key(m, k, relisted(list, items));
    lemma_refilled(e, w);
    lemma_relisted(list, items);
    lemma_with_key(m, k, relisted(list, items));
}

// ----------------------------------------------------------------------------
// Removing
// ----------------------------------------------------------------------------

/// Filtering keeps what passes, and nothing else.
proof fn lemma_filter(items: Seq<Tree>, removal: RemovalView)
    ensures
        forall|i: int|
            0 <= i < items.filter(spared(removal)).len() ==> !concerns(
                removal,
                #[trigger] items.filter(spared(removal))[i],
            ),
        forall|i: int|
            0 <= i < items.len() && !concerns(removal, items[i]) ==> items.filter(
                spared(removal),
            ).contains(#[trigger] items[i]),
        items.filter(spared(removal)).len() <= items.len(),
        items.filter(spared(removal)).len() == items.len() ==> forall|i: int|
            0 <= i < items.len() ==> !concerns(removal, #[trigger] items[i]),
        (forall|i: int| 0 <= i < items.len() ==> !concerns(removal, #[trigger] items[i]))
            ==> items.filter(spared(removal)) == items,
    decreases items.len(),
{
    reveal(Seq::filter);
    let p = spared(removal);
    let f = items.filter(p);
    if items.len() > 0 {
        let front = items.drop_last();
        let g = front.filter(p);
        lemma_filter(front, removal);
        let last = items[items.len() - 1];
        assert forall|i: int| 0 <= i < f.len() implies !concerns(removal, #[trigger] f[i]) by {
            if i < g.len() {
                assert(f[i] == g[i]);
            }
        }
        assert forall|i: int| 0 <= i < items.len() && !concerns(removal, items[i]) implies f.contains(
            #[trigger] items[i],
        ) by {
            if i < front.len() {
                assert(front[i] == items[i]);
                assert(g.contains(front[i]));
                let j = choose|j: int| 0 <= j < g.len() && g[j] == front[i];
                assert(f[j] == items[i]);
            } else {
                assert(f[f.len() - 1] == items[i]);
            }
        }
        if f.len() == items.len() {
            assert(!concerns(removal, last));
            assert forall|i: int| 0 <= i < items.len() implies !concerns(
                removal,
                #[trigger] items[i],
            ) by {
                if i < front.len() {
                    assert(front[i] == items[i]);
                }
            }
        }
        if forall|i: int| 0 <= i < items.len() ==> !concerns(removal, #[trigger] items[i]) {
            assert forall|i: int| 0 <= i < front.len() implies !concerns(
                removal,
                #[trigger] front[i],
            ) by {
                assert(front[i] == items[i]);
            }
            assert(!concerns(removal, items[items.len() - 1]));
            assert(f =~= items);
        }
    } else {
        assert(f =~= items);
    }
}

/// An entry has no item that is to be removed.
pub open spec fn is_clear(removal: RemovalView, entry: Tree) -> bool {
    inserted(entry) matches Some(items) ==> forall|j: int|
        0 <= j < items.len() ==> !concerns(removal, #[trigger] items[j])
}

/// What is left of an entry: it has no item that is to be removed, every other item
/// is still there, and so is everything that is not an item. An entry without such
/// an item stays as it is, with its text.
pub proof fn law_entry_stripped(removal: RemovalView, e: EntryView)
    requires
        well_formed(e.value),
    ensures
        is_clear(removal, e.value) ==> stripped_entry(removal, e) == Some(e),
        stripped_entry(removal, e) matches Some(rest) ==> {
            &&& is_clear(removal, rest.value)
            &&& inserted(rest.value) is Some == inserted(e.value) is Some
            &&& inserted(e.value) matches Some(items) ==> forall|i: int|
                0 <= i < items.len() && !concerns(removal, items[i])
                    ==> inserted(rest.value)->0.contains(#[trigger] items[i])
            &&& forall|name: Seq<char>|
                name != "insert"@ ==> #[trigger] field(rest.value, name) == field(e.value, name)
        },
        stripped_entry(removal, e) is None ==> inserted(e.value) is Some && forall|i: int|
            0 <= i < inserted(e.value)->0.len() ==> concerns(
                removal,
                #[trigger] inserted(e.value)->0[i],
            ),
{
    if inserted(e.value) is Some {
        let items = inserted(e.value)->0;
        let rest = items.filter(spared(removal));
        lemma_filter(items, removal);
        lemma_with_items(e.value, rest);
        if rest.len() == 0 {
            assert forall|i: int| 0 <= i < items.len() implies concerns(
                removal,
                #[trigger] items[i],
            ) by {
                if !concerns(removal, items[i]) {
                    assert(rest.contains(items[i]));
                }
            }
        }
        if rest.len() == items.len() {
            assert forall|i: int| 0 <= i < items.len() implies items.contains(
                #[trigger] items[i],
            ) by {}
        }
    }
}

/// After a removal no entry has an item that was to be removed.
pub proof fn law_removed_gone(removal: RemovalView, entries: Seq<EntryView>)
    requires
        entries_well_formed(entries),
    ensures
        forall|i: int|
            0 <= i < stripped(removal, entries).len() ==> is_clear(
                removal,
                (#[trigger] stripped(removal, entries)[i]).value,
            ),
    decreases entries.len(),
{
    if entries.len() > 0 {
        let front = entries.drop_last();
        assert forall|i: int| 0 <= i < front.len() implies well_formed((#[trigger] front[i]).value) by {
            assert(front[i] == entries[i]);
        }
        law_removed_gone(removal, front);
        assert(well_formed(entries[entries.len() - 1].value));
        law_entry_stripped(removal, entries.last());
        let before = stripped(removal, front);
        let after = stripped(removal, entries);
        assert forall|i: int| 0 <= i < after.len() implies is_clear(
            removal,
            (#[trigger] after[i]).value,
        ) by {
            if i < before.len() {
                assert(after[i] == before[i]);
            }
        }
    }
}

/// An entry without an item that is to be removed stays as it is, with its text.
pub proof fn law_foreign_entry_stays(removal: RemovalView, entries: Seq<EntryView>, i: int)
    requires
        entries_well_formed(entries),
        0 <= i < entries.len(),
        is_clear(removal, entries[i].value),
    ensures
        stripped(removal, entries).contains(entries[i]),
    decreases entries.len(),
{
    let front = entries.drop_last();
    let after = stripped(removal, entries);
    if i == entries.len() - 1 {
        assert(well_formed(entries[i].value));
        law_entry_stripped(removal, entries.last());
        assert(after[after.len() - 1] == entries[i]);
    } else {
        assert forall|j: int| 0 <= j < front.len() implies well_formed((#[trigger] front[j]).value) by {
            assert(front[j] == entries[j]);
        }
        assert(front[i] == entries[i]);
        law_foreign_entry_stays(removal, front, i);
        let before = stripped(removal, front);
        let j = choose|j: int| 0 <= j < before.len() && before[j] == entries[i];
        assert(after[j] == entries[i]);
    }
}

/// Entries without an item that is to be removed stay as they are.
pub proof fn lemma_clear(removal: RemovalView, entries: Seq<EntryView>)
    requires
        entries_well_formed(entries),
        forall|i: int| 0 <= i < entries.len() ==> is_clear(removal, (#[trigger] entries[i]).value),
    ensures
        stripped(removal, entries) == entries,
    decreases entries.len(),
{
    if entries.len() > 0 {
        let front = entries.drop_last();
        assert forall|i: int| 0 <= i < front.len() implies well_formed((#[trigger] front[i]).value)
            && is_clear(removal, front[i].value) by {
            assert(front[i] == entries[i]);
        }
        lemma_clear(removal, front);
        assert(entries.last() == entries[entries.len() - 1]);
        assert(well_formed(entries[entries.len() - 1].value));
        law_entry_stripped(removal, entries.last());
        assert(stripped(removal, entries) =~= entries);
    } else {
        assert(stripped(removal, entries) =~= entries);
    }
}

/// A removal keeps entries well-formed.
pub proof fn lemma_stripped_well_formed(removal: RemovalView, entries: Seq<EntryView>)
    requires
        entries_well_formed(entries),
    ensures
        entries_well_formed(stripped(removal, entries)),
    decreases entries.len(),
{
    if entries.len() > 0 {
        let front = entries.drop_last();
        assert forall|i: int| 0 <= i < front.len() implies well_formed((#[trigger] front[i]).value) by {
            assert(front[i] == entries[i]);
        }
        lemma_stripped_well_formed(removal, front);
        let e = entries[entries.len() - 1];
        assert(well_formed(e.value));
        if inserted(e.value) is Some {
            let items = inserted(e.value)->0;
            lemma_inserted_well_formed(e.value);
            crate::mcp::items::lemma_spared(removal, items);
            lemma_with_items_well_formed(e.value, items.filter(spared(removal)));
        }
        let before = stripped(removal, front);
        let after = stripped(removal, entries);
        assert forall|i: int| 0 <= i < after.len() implies well_formed((#[trigger] after[i]).value) by {
            if i < before.len() {
                assert(after[i] == before[i]);
            }
        }
    }
}

proof fn lemma_with_items_well_formed(e: Tree, items: Seq<Tree>)
    requires
        well_formed(e),
        inserted(e) is Some,
        well_formed(Tree::List(items)),
    ensures
        well_formed(with_items(e, items)),
{
    lemma_untagged(e);
    let m = entries_of(e)->0;
    lemma_field_well_formed(e, "insert"@);
    let list = field(e, "insert"@)->0;
    lemma_relisted(list, items);
    crate::tree::lemma_with_key_well_formed(m, Tree::Text("insert"@), relisted(list, items));
    lemma_refilled(e, with_key(m, Tree::Text("insert"@), relisted(list, items)));
}

/// A second removal of the same servers changes nothing.
pub proof fn law_remove_twice(removal: RemovalView, entries: Seq<EntryView>)
    requires
        entries_well_formed(entries),
    ensures
        stripped(removal, stripped(removal, entries)) == stripped(removal, entries),
{
    law_removed_gone(removal, entries);
    lemma_stripped_well_formed(removal, entries);
    lemma_clear(removal, stripped(removal, entries));
}

// ----------------------------------------------------------------------------
// Writing
// ----------------------------------------------------------------------------

/// The first slot among items is a slot, and there is none in front of it.
pub proof fn lemma_slot_in(items: Seq<Tree>, item: Tree, i: nat)
    ensures
        slot_in(items, item, i) matches Some(j) ==> i <= j < items.len() && is_slot(
            items[j as int],
            item,
        ) && forall|l: int| i <= l < j ==> !is_slot(#[trigger] items[l], item),
        slot_in(items, item, i) is None ==> forall|l: int|
            i <= l < items.len() ==> !is_slot(#[trigger] items[l], item),
    decreases items.len() - i,
{
    if i < items.len() && !is_slot(items[i as int], item) {
        lemma_slot_in(items, item, i + 1);
    }
}

/// A slot with none in front of it is the first.
pub proof fn lemma_first_slot_in(items: Seq<Tree>, item: Tree, i: nat, j: nat)
    requires
        i <= j < items.len(),
        is_slot(items[j as int], item),
        forall|l: int| i <= l < j ==> !is_slot(#[trigger] items[l], item),
    ensures
        slot_in(items, item, i) == Some(j),
    decreases j - i,
{
    if i < j {
        assert(!is_slot(items[i as int], item));
        lemma_first_slot_in(items, item, i + 1, j);
    }
}

/// Items without a slot have no first one.
pub proof fn lemma_no_slot_in(items: Seq<Tree>, item: Tree, i: nat)
    requires
        forall|l: int| i <= l < items.len() ==> !is_slot(#[trigger] items[l], item),
    ensures
        slot_in(items, item, i) is None,
    decreases items.len() - i,
{
    if i < items.len() {
        assert(!is_slot(items[i as int], item));
        lemma_no_slot_in(items, item, i + 1);
    }
}

/// The first entry with a slot has one, and none in front of it has.
pub proof fn lemma_slot_of(entries: Seq<EntryView>, item: Tree, i: nat)
    ensures
        slot_of(entries, item, i) matches Some(x) ==> i <= x.0 < entries.len() && entry_slot(
            entries[x.0 as int].value,
            item,
        ) == Some(x.1) && forall|l: int|
            i <= l < x.0 ==> entry_slot((#[trigger] entries[l]).value, item) is None,
        slot_of(entries, item, i) is None ==> forall|l: int|
            i <= l < entries.len() ==> entry_slot((#[trigger] entries[l]).value, item) is None,
    decreases entries.len() - i,
{
    if i < entries.len() && entry_slot(entries[i as int].value, item) is None {
        lemma_slot_of(entries, item, i + 1);
    }
}

/// An entry with a slot, with none in front of it that has one, is the first.
pub proof fn lemma_first_slot_of(entries: Seq<EntryView>, item: Tree, i: nat, x: (nat, nat))
    requires
        i <= x.0 < entries.len(),
        entry_slot(entries[x.0 as int].value, item) == Some(x.1),
        forall|l: int| i <= l < x.0 ==> entry_slot((#[trigger] entries[l]).value, item) is None,
    ensures
        slot_of(entries, item, i) == Some(x),
    decreases x.0 - i,
{
    if i < x.0 {
        assert(entry_slot(entries[i as int].value, item) is None);
        lemma_first_slot_of(entries, item, i + 1, x);
    }
}

/// A server is there: its slot holds an item that equals it.
pub open spec fn holds_item(entries: Seq<EntryView>, item: Tree) -> bool {
    slot_of(entries, item, 0) matches Some(x) && same(
        inserted(entries[x.0 as int].value)->0[x.1 as int],
        item,
    )
}

/// After a server was written it is there. No other entry has changed, and in the
/// entry that it went to no other item has.
pub proof fn law_written(entries: Seq<EntryView>, item: Tree)
    requires
        entries_well_formed(entries),
        is_slot(item, item),
    ensures
        holds_item(upserted(entries, item), item),
        ({
            let x = slot_of(upserted(entries, item), item, 0)->0;
            let after = upserted(entries, item);
            &&& entries.len() <= after.len()
            &&& forall|k: int| 0 <= k < entries.len() && k != x.0 ==> #[trigger] after[k] == entries[k]
            &&& x.0 < entries.len() ==> inserted(entries[x.0 as int].value) is Some && forall|l: int|
                0 <= l < inserted(entries[x.0 as int].value)->0.len() && l != x.1
                    ==> #[trigger] inserted(after[x.0 as int].value)->0[l] == inserted(
                    entries[x.0 as int].value,
                )->0[l]
        }),
{
    broadcast use lemma_same_text;

    let after = upserted(entries, item);
    lemma_slot_of(entries, item, 0);
    lemma_same_reflexive(item);
    match slot_of(entries, item, 0) {
        Some(x) => {
            let e = entries[x.0 as int];
            assert(well_formed(e.value));
            let items = inserted(e.value)->0;
            lemma_slot_in(items, item, 0);
            if !same(items[x.1 as int], item) {
                let replaced = items.update(x.1 as int, item);
                lemma_with_items(e.value, replaced);
                lemma_first_slot_in(replaced, item, 0, x.1);
            }
            assert forall|l: int| 0 <= l < x.0 implies entry_slot(
                (#[trigger] after[l]).value,
                item,
            ) is None by {
                assert(after[l] == entries[l]);
            }
            lemma_first_slot_of(after, item, 0, x);
        },
        None => {
            let n = entries.len();
            let e = new_entry(item);
            assert(after[n as int] == e);
            lemma_new_entry(item);
            lemma_first_slot_in(seq![item], item, 0, 0);
            assert forall|l: int| 0 <= l < n implies entry_slot(
                (#[trigger] after[l]).value,
                item,
            ) is None by {
                assert(after[l] == entries[l]);
            }
            lemma_first_slot_of(after, item, 0, (n, 0));
        },
    }
}

/// A new entry has the item that it was made for.
pub proof fn lemma_new_entry(item: Tree)
    ensures
        inserted(new_entry(item).value) == Some(seq![item]),
{
    broadcast use lemma_same_text;

    let m = seq![(Tree::Text("insert"@), Tree::List(seq![item]))];
    assert(key_at(m, Tree::Text("insert"@), 0));
    assert(distinct_keys(m));
    lemma_index_of(m, Tree::Text("insert"@), 0);
    assert(untagged(Tree::Mapping(m)) == Tree::Mapping(m));
    assert(untagged(Tree::List(seq![item])) == Tree::List(seq![item]));
}

/// Writing a server that is there changes nothing, not even a text.
pub proof fn law_write_present(entries: Seq<EntryView>, item: Tree)
    requires
        holds_item(entries, item),
    ensures
        upserted(entries, item) == entries,
{
    let x = slot_of(entries, item, 0)->0;
    lemma_slot_of(entries, item, 0);
    assert(upserted(entries, item) =~= entries);
}

/// Writing a server a second time changes nothing.
pub proof fn law_write_twice(entries: Seq<EntryView>, item: Tree)
    requires
        entries_well_formed(entries),
        is_slot(item, item),
    ensures
        upserted(upserted(entries, item), item) == upserted(entries, item),
{
    law_written(entries, item);
    law_write_present(upserted(entries, item), item);
}

/// Writing a well-formed server keeps entries well-formed.
pub proof fn lemma_upserted_well_formed(entries: Seq<EntryView>, item: Tree)
    requires
        entries_well_formed(entries),
        well_formed(item),
    ensures
        entries_well_formed(upserted(entries, item)),
{
    let after = upserted(entries, item);
    lemma_slot_of(entries, item, 0);
    match slot_of(entries, item, 0) {
        Some(x) => {
            let e = entries[x.0 as int];
            assert(well_formed(e.value));
            let items = inserted(e.value)->0;
            lemma_slot_in(items, item, 0);
            lemma_inserted_well_formed(e.value);
            let replaced = items.update(x.1 as int, item);
            let t = Tree::List(replaced);
            assert(t->List_0 == replaced);
            assert forall|i: int| 0 <= i < replaced.len() implies well_formed(
                #[trigger] replaced[i],
            ) by {
                if i != x.1 {
                    assert(replaced[i] == items[i]);
                }
            }
            assert(well_formed(t));
            lemma_with_items_well_formed(e.value, replaced);
            assert forall|i: int| 0 <= i < after.len() implies well_formed(
                (#[trigger] after[i]).value,
            ) by {
                if i != x.0 {
                    assert(after[i] == entries[i]);
                }
            }
        },
        None => {
            let e = new_entry(item);
            let inner = Tree::List(seq![item]);
            assert(inner->List_0 == seq![item]);
            assert(well_formed(inner));
            let m = seq![(Tree::Text("insert"@), inner)];
            let t = Tree::Mapping(m);
            assert(t->Mapping_0 == m);
            assert(well_formed(Tree::Text("insert"@)));
            assert(well_formed(t));
            assert forall|i: int| 0 <= i < after.len() implies well_formed(
                (#[trigger] after[i]).value,
            ) by {
                if i < entries.len() {
                    assert(after[i] == entries[i]);
                }
            }
        },
    }
}

// ----------------------------------------------------------------------------
// What was read back
// ----------------------------------------------------------------------------

/// Entries have equal documents.
pub open spec fn same_values(a: Seq<EntryView>, b: Seq<EntryView>) -> bool {
    a.len() == b.len() && forall|i: int|
        0 <= i < a.len() ==> same((#[trigger] a[i]).value, b[i].value)
}

/// A slot in an entry is a slot in an equal one.
proof fn lemma_entry_slot_same(a: Tree, b: Tree, item: Tree)
    requires
        same(a, b),
        well_formed(a),
        well_formed(b),
    ensures
        entry_slot(a, item) == entry_slot(b, item),
{
    lemma_inserted_same(a, b);
    if inserted(a) is Some {
        let x = inserted(a)->0;
        let y = inserted(b)->0;
        lemma_inserted_well_formed(a);
        lemma_inserted_well_formed(b);
        assert forall|l: int| 0 <= l < x.len() implies is_slot(#[trigger] x[l], item) == is_slot(
            y[l],
            item,
        ) by {
            lemma_item_same(x[l], y[l]);
        }
        lemma_slot_in(x, item, 0);
        match slot_in(x, item, 0) {
            Some(j) => {
                assert forall|l: int| 0 <= l < j implies !is_slot(#[trigger] y[l], item) by {
                    assert(!is_slot(x[l], item));
                }
                lemma_first_slot_in(y, item, 0, j);
            },
            None => {
                assert forall|l: int| 0 <= l < y.len() implies !is_slot(#[trigger] y[l], item) by {
                    assert(!is_slot(x[l], item));
                }
                lemma_no_slot_in(y, item, 0);
            },
        }
    }
}

/// A server that is there is there in equal entries.
pub proof fn lemma_holds_same(a: Seq<EntryView>, b: Seq<EntryView>, item: Tree)
    requires
        same_values(a, b),
        entries_well_formed(a),
        entries_well_formed(b),
        holds_item(a, item),
    ensures
        holds_item(b, item),
{
    let x = slot_of(a, item, 0)->0;
    lemma_slot_of(a, item, 0);
    assert forall|l: int| 0 <= l < a.len() implies entry_slot((#[trigger] a[l]).value, item)
        == entry_slot(b[l].value, item) by {
        assert(same(a[l].value, b[l].value));
        assert(well_formed(a[l].value));
        assert(well_formed(b[l].value));
        lemma_entry_slot_same(a[l].value, b[l].value, item);
    }
    assert forall|l: int| 0 <= l < x.0 implies entry_slot((#[trigger] b[l]).value, item) is None by {
        assert(entry_slot(a[l].value, item) is None);
    }
    assert(entry_slot(a[x.0 as int].value, item) == Some(x.1));
    lemma_first_slot_of(b, item, 0, x);
    let p = a[x.0 as int].value;
    let q = b[x.0 as int].value;
    assert(same(p, q));
    assert(well_formed(p));
    assert(well_formed(q));
    lemma_inserted_same(p, q);
    lemma_slot_in(inserted(p)->0, item, 0);
    let u = inserted(p)->0[x.1 as int];
    let v = inserted(q)->0[x.1 as int];
    crate::tree::lemma_same_symmetric(u, v);
    lemma_same_transitive(v, u, item);
}

/// A removal leaves nothing to remove in equal entries.
pub proof fn lemma_clear_same(a: Seq<EntryView>, b: Seq<EntryView>, removal: RemovalView)
    requires
        same_values(a, b),
        entries_well_formed(a),
        entries_well_formed(b),
        forall|i: int| 0 <= i < a.len() ==> is_clear(removal, (#[trigger] a[i]).value),
    ensures
        stripped(removal, b) == b,
{
    assert forall|i: int| 0 <= i < b.len() implies is_clear(removal, (#[trigger] b[i]).value) by {
        assert(same(a[i].value, b[i].value));
        assert(well_formed(a[i].value));
        assert(is_clear(removal, a[i].value));
        lemma_inserted_same(a[i].value, b[i].value);
        if inserted(b[i].value) is Some {
            let x = inserted(a[i].value)->0;
            let y = inserted(b[i].value)->0;
            lemma_inserted_well_formed(a[i].value);
            lemma_inserted_well_formed(b[i].value);
            assert forall|j: int| 0 <= j < y.len() implies !concerns(removal, #[trigger] y[j]) by {
                assert(same(x[j], y[j]));
                lemma_item_same(x[j], y[j]);
                assert(!concerns(removal, x[j]));
            }
        }
    }
    lemma_clear(removal, b);
}

} // verus!
