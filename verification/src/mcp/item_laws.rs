//! What holds of the MCP servers in `cordis.patch.yml`: which of them a change concerns, and
//! what it leaves of the others, of their entries and of their texts.

use vstd::prelude::*;

use crate::error::ErrorView;
use crate::mcp::blocks::{blocks_of, indented, inner_column, joined, lines_of};
use crate::mcp::marks::marked_text;
use crate::mcp::dsh::{
    dsh_form, patch_in, rebuilt, removal_of, server_removed, server_synced, servers_synced,
    target_names,
};
use crate::mcp::dsh_laws::{
    holds_item, lemma_first_slot_in, lemma_first_slot_of, lemma_no_slot_in, lemma_slot_in,
    lemma_slot_of, lemma_with_items,
};
use crate::mcp::items::{
    concerns, entry_slot, inserted, is_slot, item_blocks, replaced_source, slot_of, spared,
    spared_blocks, stripped, stripped_entry, stripped_source, upserted, with_items, RemovalView,
};
use crate::mcp::patch::{
    composed, entries_in, entries_well_formed, is_part, is_text_of, patch_of, patch_planned,
    patch_text, piece_of, put_together, reads_as, tagged_reading, terminated, text_holds, text_in,
    values_of, verbatim_only, EntryView, PatchView,
};
use crate::mcp::registry::ServerView;
use crate::mcp::server_name::server_name_of;
use crate::plan::{carried_out, left_by, PlanView};
use crate::text::is_blank;
use crate::tree::{
    entries_of, field, items_of, lemma_refilled, lemma_untagged, lemma_with_key, lookup, relisted,
    same, text_field, well_formed, with_key, Entries, Tree,
};
use crate::yaml::yaml_written;

verus! {

// ----------------------------------------------------------------------------
// Which items
// ----------------------------------------------------------------------------

/// An item is an MCP server where it is one of the MCP plugin, whatever else it holds.
/// Removing a server concerns those with its id or its name; bringing the file in step
/// concerns those whose id begins with `mcp-`, and those with the name of a server that is
/// to be written.
pub proof fn law_concerned(removal: RemovalView, item: Tree)
    ensures
        ({
            let plugin = text_field(item, "name"@) == Some("@deepseek-ai/dsh-mcp-client"@);
            let own = text_field(item, "id"@);
            let config = field(item, "config"@);
            let server = if config is Some {
                text_field(config->0, "serverName"@)
            } else {
                None
            };
            concerns(removal, item) <==> plugin && match removal {
                RemovalView::Server { id, name } => own == Some(id) || server == Some(name),
                RemovalView::Managed { names } => {
                    ||| own matches Some(id) && id.len() >= 4 && id.take(4) == "mcp-"@
                    ||| server matches Some(name) && names.contains(name)
                },
            }
        }),
{
    reveal_strlit("mcp-");
    if let Some(id) = text_field(item, "id"@) {
        if id.len() >= 4 {
            assert(id.take(4) =~= id.subrange(0, 4));
        }
    }
}

/// A server is written in the place of an MCP server that has the same id or the same
/// server name, where these are not empty.
pub proof fn law_place(slot: Tree, item: Tree)
    ensures
        ({
            let plugin = text_field(slot, "name"@) == Some("@deepseek-ai/dsh-mcp-client"@);
            let server = |t: Tree|
                match field(t, "config"@) {
                    Some(config) => text_field(config, "serverName"@),
                    None => None,
                };
            is_slot(slot, item) <==> plugin && {
                ||| text_field(item, "id"@) matches Some(id) && id.len() > 0 && text_field(
                    slot,
                    "id"@,
                ) == Some(id)
                ||| server(item) matches Some(name) && name.len() > 0 && server(slot) == Some(name)
            }
        }),
{
}

/// The removal of a server concerns what is written for it: the id is its name behind
/// `mcp-`.
pub proof fn law_removal(id: Seq<char>)
    ensures
        removal_of(id) == (RemovalView::Server {
            id: "mcp-"@ + server_name_of(id),
            name: server_name_of(id),
        }),
{
}

/// The items of an entry are the list under `insert`.
pub proof fn law_inserted(m: Entries)
    ensures
        lookup(m, Tree::Text("insert"@)) matches Some(Tree::List(x)) ==> inserted(Tree::Mapping(m))
            == Some(x),
        lookup(m, Tree::Text("insert"@)) is None ==> inserted(Tree::Mapping(m)) is None,
        (lookup(m, Tree::Text("insert"@)) matches Some(v) && items_of(v) is None) ==> inserted(
            Tree::Mapping(m),
        ) is None,
{
    assert(entries_of(Tree::Mapping(m)) == Some(m));
    if let Some(Tree::List(x)) = lookup(m, Tree::Text("insert"@)) {
        assert(items_of(Tree::List(x)) == Some(x));
    }
}

/// An entry with other items holds under every other key what it held.
proof fn lemma_other_keys(e: Tree, items: Seq<Tree>, k: Tree)
    requires
        well_formed(e),
        inserted(e) is Some,
        !same(Tree::Text("insert"@), k),
    ensures
        entries_of(with_items(e, items)) is Some,
        lookup(entries_of(with_items(e, items))->0, k) == lookup(entries_of(e)->0, k),
{
    let m = entries_of(e)->0;
    let list = field(e, "insert"@)->0;
    lemma_untagged(e);
    lemma_with_key(m, Tree::Text("insert"@), relisted(list, items));
    lemma_refilled(e, with_key(m, Tree::Text("insert"@), relisted(list, items)));
}

// ----------------------------------------------------------------------------
// Removing
// ----------------------------------------------------------------------------

/// What is left of an entry: the items that are not concerned, in their order, and under
/// every other key what it held. It goes as a whole exactly where no item is left and it
/// holds nothing but items; it stays as it is, with its text, where no item is concerned.
pub proof fn law_left_of_entry(removal: RemovalView, e: EntryView, k: Tree)
    requires
        well_formed(e.value),
    ensures
        match inserted(e.value) {
            Some(items) => {
                let rest = items.filter(|item: Tree| !concerns(removal, item));
                if rest.len() == items.len() {
                    stripped_entry(removal, e) == Some(e)
                } else if rest.len() == 0 && entries_of(e.value)->0.len() == 1 {
                    stripped_entry(removal, e) is None
                } else {
                    &&& stripped_entry(removal, e) matches Some(left)
                    &&& inserted(left.value) == Some(rest)
                    &&& !same(Tree::Text("insert"@), k) ==> lookup(entries_of(left.value)->0, k)
                        == lookup(entries_of(e.value)->0, k)
                    &&& !left.verbatim
                    &&& left.source == stripped_source(removal, e.source, items)
                }
            },
            None => stripped_entry(removal, e) == Some(e),
        },
{
    if let Some(items) = inserted(e.value) {
        let p = |item: Tree| !concerns(removal, item);
        assert(spared(removal) =~= p);
        let rest = items.filter(p);
        lemma_with_items(e.value, rest);
        if !same(Tree::Text("insert"@), k) {
            lemma_other_keys(e.value, rest, k);
        }
        assert(entries_of(e.value) is Some);
    }
}

/// Entries are treated one by one, in their order.
pub proof fn law_stripped_one_by_one(
    removal: RemovalView,
    a: Seq<EntryView>,
    b: Seq<EntryView>,
    e: EntryView,
)
    ensures
        stripped(removal, Seq::empty()) == Seq::<EntryView>::empty(),
        stripped(removal, seq![e]) == (match stripped_entry(removal, e) {
            Some(left) => seq![left],
            None => Seq::empty(),
        }),
        stripped(removal, a + b) == stripped(removal, a) + stripped(removal, b),
    decreases b.len(),
{
    let none: Seq<EntryView> = Seq::empty();
    assert(seq![e].drop_last() =~= none);
    assert(stripped(removal, seq![e].drop_last()) =~= none);
    if let Some(left) = stripped_entry(removal, e) {
        assert(none.push(left) =~= seq![left]);
    }
    if b.len() == 0 {
        assert(a + b =~= a);
        assert(stripped(removal, a) + stripped(removal, b) =~= stripped(removal, a));
    } else {
        law_stripped_one_by_one(removal, a, b.drop_last(), e);
        assert((a + b).drop_last() =~= a + b.drop_last());
        assert((a + b).last() == b.last());
        assert(stripped(removal, a + b) =~= stripped(removal, a) + stripped(removal, b));
    }
}

proof fn lemma_joined_part(parts: Seq<Seq<char>>, i: int)
    requires
        0 <= i < parts.len(),
    ensures
        is_part(parts[i], joined(parts)),
    decreases parts.len(),
{
    let whole = joined(parts);
    let before = joined(parts.drop_last());
    let part = parts[i];
    if i == parts.len() - 1 {
        let at = before.len() as int;
        assert(whole.subrange(at, at + part.len()) =~= part);
    } else {
        assert(parts.drop_last()[i] == part);
        lemma_joined_part(parts.drop_last(), i);
        let at = choose|at: int|
            0 <= at <= before.len() - part.len() && #[trigger] before.subrange(at, at + part.len())
                == part;
        assert forall|j: int| 0 <= j < part.len() implies whole[at + j] == part[j] by {
            assert(before.subrange(at, at + part.len())[j] == before[at + j]);
        }
        assert(whole.subrange(at, at + part.len()) =~= part);
    }
}

proof fn lemma_behind(head: Seq<char>, tail: Seq<char>, part: Seq<char>)
    requires
        is_part(part, tail),
    ensures
        is_part(part, head + tail),
{
    let at = choose|at: int|
        0 <= at <= tail.len() - part.len() && #[trigger] tail.subrange(at, at + part.len()) == part;
    let whole = head + tail;
    let to = at + head.len();
    assert forall|j: int| 0 <= j < part.len() implies whole[to + j] == part[j] by {
        assert(tail.subrange(at, at + part.len())[j] == tail[at + j]);
    }
    assert(whole.subrange(to, to + part.len()) =~= part);
}

proof fn lemma_spared_block(
    removal: RemovalView,
    items: Seq<Tree>,
    blocks: Seq<Seq<char>>,
    i: int,
)
    requires
        items.len() == blocks.len(),
        0 <= i < items.len(),
        !concerns(removal, items[i]),
    ensures
        spared_blocks(removal, items, blocks).contains(blocks[i]),
    decreases items.len(),
{
    let r = spared_blocks(removal, items, blocks);
    if i == items.len() - 1 {
        assert(r[r.len() - 1] == blocks[i]);
    } else {
        let before = spared_blocks(removal, items.drop_last(), blocks.drop_last());
        assert(items.drop_last()[i] == items[i] && blocks.drop_last()[i] == blocks[i]);
        lemma_spared_block(removal, items.drop_last(), blocks.drop_last(), i);
        let j = choose|j: int| 0 <= j < before.len() && before[j] == blocks[i];
        assert(r[j] == blocks[i]);
    }
}

proof fn lemma_spared_len(removal: RemovalView, items: Seq<Tree>, blocks: Seq<Seq<char>>)
    requires
        items.len() == blocks.len(),
    ensures
        spared_blocks(removal, items, blocks).len() == items.filter(
            |item: Tree| !concerns(removal, item),
        ).len(),
    decreases items.len(),
{
    reveal(Seq::filter);
    if items.len() > 0 {
        lemma_spared_len(removal, items.drop_last(), blocks.drop_last());
    }
}

/// Where the text of an entry has a block of lines for each item, removing items keeps what
/// stands in front of them, and the block of every item that stays, to the letter: comments
/// and expressions in it too. There is a block for each item that stays, and no other.
pub proof fn law_blocks_stay(removal: RemovalView, source: Seq<char>, items: Seq<Tree>, i: int)
    requires
        item_blocks(source, items.len()) is Some,
        0 <= i < items.len(),
        !concerns(removal, items[i]),
    ensures
        ({
            let b = (item_blocks(source, items.len())->0).0;
            &&& stripped_source(removal, Some(source), items) matches Some(text)
            &&& b.blocks.len() == items.len()
            &&& is_part(b.blocks[i], text)
            &&& b.head.len() <= text.len() && text.take(b.head.len() as int) == b.head
            &&& exists|blocks: Seq<Seq<char>>|
                text == b.head + #[trigger] joined(blocks) && blocks.len() == items.filter(
                    |item: Tree| !concerns(removal, item),
                ).len()
        }),
{
    let b = (item_blocks(source, items.len())->0).0;
    let blocks = spared_blocks(removal, items, b.blocks);
    let text = b.head + joined(blocks);
    lemma_spared_block(removal, items, b.blocks, i);
    lemma_spared_len(removal, items, b.blocks);
    let j = choose|j: int| 0 <= j < blocks.len() && blocks[j] == b.blocks[i];
    lemma_joined_part(blocks, j);
    lemma_behind(b.head, joined(blocks), b.blocks[i]);
    assert(text.take(b.head.len() as int) =~= b.head);
}

// ----------------------------------------------------------------------------
// Writing
// ----------------------------------------------------------------------------

/// Writing a server puts it in the place of the first MCP server with its id or its name,
/// and changes nothing else: not the other entries, nor the other items of the entry, nor
/// what the entry holds besides. Where an equal one is there, nothing changes at all.
pub proof fn law_written_in_place(
    entries: Seq<EntryView>,
    item: Tree,
    i: int,
    j: int,
    k: Tree,
)
    requires
        entries_well_formed(entries),
        0 <= i < entries.len(),
        inserted(entries[i].value) matches Some(items) && 0 <= j < items.len() && is_slot(
            items[j],
            item,
        ) && (forall|l: int| 0 <= l < j ==> !is_slot(#[trigger] items[l], item)),
        forall|h: int, l: int|
            #![trigger inserted(entries[h].value)->0[l]]
            0 <= h < i && inserted(entries[h].value) is Some && 0 <= l < inserted(
                entries[h].value,
            )->0.len() ==> !is_slot(inserted(entries[h].value)->0[l], item),
    ensures
        ({
            let after = upserted(entries, item);
            let items = inserted(entries[i].value)->0;
            &&& after.len() == entries.len()
            &&& forall|h: int| 0 <= h < entries.len() && h != i ==> #[trigger] after[h] == entries[h]
            &&& if same(items[j], item) {
                after[i] == entries[i]
            } else {
                &&& inserted(after[i].value) == Some(items.update(j, item))
                &&& !same(Tree::Text("insert"@), k) ==> lookup(entries_of(after[i].value)->0, k)
                    == lookup(entries_of(entries[i].value)->0, k)
                &&& !after[i].verbatim
                &&& after[i].source == replaced_source(
                    entries[i].source,
                    items.len(),
                    j as nat,
                    item,
                )
            }
        }),
{
    let items = inserted(entries[i].value)->0;
    lemma_first_slot_in(items, item, 0, j as nat);
    assert(entry_slot(entries[i].value, item) == Some(j as nat));
    assert forall|h: int| 0 <= h < i implies entry_slot((#[trigger] entries[h]).value, item) is None by {
        if let Some(others) = inserted(entries[h].value) {
            assert forall|l: int| 0 <= l < others.len() implies !is_slot(#[trigger] others[l], item) by {
                assert(!is_slot(inserted(entries[h].value)->0[l], item));
            }
            lemma_no_slot_in(others, item, 0);
        }
    }
    lemma_first_slot_of(entries, item, 0, (i as nat, j as nat));
    lemma_with_items(entries[i].value, items.update(j, item));
    if !same(Tree::Text("insert"@), k) {
        lemma_other_keys(entries[i].value, items.update(j, item), k);
    }
}

/// Writing a server that has no place yet adds an entry at the end, which holds that server
/// and nothing else; the other entries stay.
pub proof fn law_written_anew(entries: Seq<EntryView>, item: Tree)
    requires
        forall|h: int, l: int|
            #![trigger inserted(entries[h].value)->0[l]]
            0 <= h < entries.len() && inserted(entries[h].value) is Some && 0 <= l < inserted(
                entries[h].value,
            )->0.len() ==> !is_slot(inserted(entries[h].value)->0[l], item),
    ensures
        ({
            let after = upserted(entries, item);
            &&& after.len() == entries.len() + 1
            &&& after.take(entries.len() as int) == entries
            &&& after.last().value == Tree::Mapping(
                seq![(Tree::Text("insert"@), Tree::List(seq![item]))],
            )
            &&& after.last().source is None
        }),
{
    assert forall|h: int| 0 <= h < entries.len() implies entry_slot(
        (#[trigger] entries[h]).value,
        item,
    ) is None by {
        if let Some(others) = inserted(entries[h].value) {
            assert forall|l: int| 0 <= l < others.len() implies !is_slot(#[trigger] others[l], item) by {
                assert(!is_slot(inserted(entries[h].value)->0[l], item));
            }
            lemma_no_slot_in(others, item, 0);
        }
    }
    lemma_slot_of(entries, item, 0);
    assert(upserted(entries, item).take(entries.len() as int) =~= entries);
}

/// Where the text of an entry has a block of lines for each item, writing one of them keeps
/// what stands in front of them, and the blocks of all the others, to the letter.
pub proof fn law_other_blocks_stay(source: Seq<char>, n: nat, j: nat, item: Tree, i: int)
    requires
        item_blocks(source, n) is Some,
        j < n,
        0 <= i < n,
        i != j,
        replaced_source(Some(source), n, j, item) is Some,
    ensures
        ({
            let b = (item_blocks(source, n)->0).0;
            &&& replaced_source(Some(source), n, j, item) matches Some(text)
            &&& b.blocks.len() == n
            &&& is_part(b.blocks[i], text)
            &&& b.head.len() <= text.len() && text.take(b.head.len() as int) == b.head
            &&& yaml_written(Tree::List(seq![item])) is Ok
        }),
{
    let x = item_blocks(source, n)->0;
    let b = x.0;
    let text = replaced_source(Some(source), n, j, item)->0;
    let blocks = b.blocks.update(
        j as int,
        indented(
            lines_of(yaml_written(Tree::List(seq![item]))->Ok_0),
            x.1,
        ),
    );
    assert(blocks[i] == b.blocks[i]);
    lemma_joined_part(blocks, i);
    lemma_behind(b.head, joined(blocks), b.blocks[i]);
    assert(text.take(b.head.len() as int) =~= b.head);
}

// ----------------------------------------------------------------------------
// The file
// ----------------------------------------------------------------------------

/// The entries of the file: none where it is not there, blank or without content; else the
/// items of its list. Anything else is an error.
pub proof fn law_entries_read(raw: Seq<char>)
    ensures
        ({
            let read = tagged_reading(raw);
            if is_blank(raw) || read == Ok::<Tree, Seq<char>>(Tree::Null) {
                entries_in(raw) == Ok::<Seq<Tree>, ErrorView>(Seq::empty())
            } else {
                &&& read matches Ok(Tree::List(x)) ==> entries_in(raw) == Ok::<Seq<Tree>, ErrorView>(x)
                &&& !(read matches Ok(Tree::List(_))) ==> entries_in(raw) is Err
            }
        }),
        patch_in(None) == Ok::<PatchView, ErrorView>(
            PatchView { head: Seq::empty(), entries: Seq::empty() },
        ),
        patch_in(Some(raw)) is Ok <==> entries_in(raw) is Ok,
        entries_in(raw) matches Ok(x) ==> (patch_in(Some(raw)) matches Ok(p) && values_of(p.entries)
            == x),
{
    if let Ok(x) = entries_in(raw) {
        let p = patch_of(raw)->Ok_0;
        assert(values_of(p.entries) =~= x);
    }
}

/// What is done to the file leaves one that is read as the entries that it is to hold,
/// wherever what is written is; no file is made for no entries, and one that is read as
/// these entries already is not touched.
pub proof fn law_file_left(raw: Option<Seq<char>>, p: PatchView, plan: PlanView)
    requires
        patch_planned(raw, p) == Ok::<PlanView, ErrorView>(plan),
    ensures
        raw is None && p.entries.len() == 0 ==> plan is Keep,
        p.entries.len() > 0 && (raw matches Some(text) && reads_as(text, values_of(p.entries)))
            ==> plan is Keep,
        text_holds(p) && p.entries.len() > 0 ==> (left_by(raw, plan) matches Some(text) && reads_as(
            text,
            values_of(p.entries),
        )) || (raw is None && patch_text(p) == Ok::<Seq<char>, ErrorView>(Seq::empty())),
        plan matches PlanView::Write { text, backup } ==> patch_text(p) == Ok::<
            Seq<char>,
            ErrorView,
        >(text) && backup == (raw matches Some(t) && t.len() > 0),
{
}

/// The text of the file is put together from the texts of its entries wherever that text is
/// read as the entries and falls apart into these texts again.
pub proof fn law_texts_preferred(p: PatchView, text: Seq<char>)
    requires
        p.entries.len() > 0,
        composed(p.head, p.entries) == Ok::<Seq<char>, Seq<char>>(text),
        is_text_of(text, p.head, p.entries),
    ensures
        patch_text(p) == Ok::<Seq<char>, ErrorView>(text),
{
}

/// A text is put together entry by entry: each begins on a new line.
pub proof fn law_composed(head: Seq<char>, entries: Seq<EntryView>, e: EntryView)
    ensures
        composed(head, Seq::empty()) == Ok::<Seq<char>, Seq<char>>(head),
        (composed(head, entries) matches Ok(before) && piece_of(e) is Ok) ==> composed(
            head,
            entries.push(e),
        ) == Ok::<Seq<char>, Seq<char>>(
            (if composed(head, entries)->Ok_0.len() == 0 || composed(head, entries)->Ok_0.last()
                == '\n' {
                composed(head, entries)->Ok_0
            } else {
                composed(head, entries)->Ok_0.push('\n')
            }) + piece_of(e)->Ok_0,
        ),
        e.source matches Some(s) ==> piece_of(e) == Ok::<Seq<char>, Seq<char>>(s),
{
    assert(entries.push(e).drop_last() =~= entries);
}

/// Nothing is done to the file where dsh is not installed. A server that has no form, and a
/// file that cannot be read, are errors; else the server is written to the entries.
pub proof fn law_sync_server(raw: Option<Seq<char>>, id: Seq<char>, spec: Tree)
    ensures
        server_synced(false, raw, id, spec) == Ok::<PlanView, ErrorView>(PlanView::Keep),
        match (dsh_form(server_name_of(id), spec), patch_in(raw)) {
            (Ok(item), Ok(p)) => server_synced(true, raw, id, spec) == patch_planned(
                raw,
                PatchView { head: p.head, entries: upserted(p.entries, item) },
            ),
            _ => server_synced(true, raw, id, spec) is Err,
        },
{
}

/// Nothing is done to the file where dsh is not installed, nor to one without entries. A
/// file that cannot be read is an error; else the server is removed from the entries.
pub proof fn law_remove_server(raw: Option<Seq<char>>, id: Seq<char>)
    ensures
        server_removed(false, raw, id) == Ok::<PlanView, ErrorView>(PlanView::Keep),
        match patch_in(raw) {
            Ok(p) => if p.entries.len() == 0 {
                server_removed(true, raw, id) == Ok::<PlanView, ErrorView>(PlanView::Keep)
            } else {
                server_removed(true, raw, id) == patch_planned(
                    raw,
                    PatchView { head: p.head, entries: stripped(removal_of(id), p.entries) },
                )
            },
            Err(e) => server_removed(true, raw, id) == Err::<PlanView, ErrorView>(e),
        },
{
}

/// The names that are to be written are those of the servers that dsh uses.
pub proof fn law_target_names(list: Seq<ServerView>, n: nat, name: Seq<char>)
    requires
        n <= list.len(),
    ensures
        target_names(list, n).contains(name) <==> exists|i: int|
            0 <= i < n && (#[trigger] list[i]).apps.dsh && server_name_of(list[i].id) == name,
    decreases n,
{
    if n > 0 {
        let before = target_names(list, (n - 1) as nat);
        let after = target_names(list, n);
        law_target_names(list, (n - 1) as nat, name);
        if list[n - 1].apps.dsh {
            let last = server_name_of(list[n - 1].id);
            assert(after == before.push(last));
            assert(after[after.len() - 1] == last);
            if before.contains(name) {
                let j = choose|j: int| 0 <= j < before.len() && before[j] == name;
                assert(after[j] == name);
            }
            if after.contains(name) && name != last {
                let j = choose|j: int| 0 <= j < after.len() && after[j] == name;
                assert(before[j] == name);
            }
        }
    }
}

/// Servers are written one by one, in their order; those that dsh does not use are passed
/// over, and one that has no form is an error.
pub proof fn law_rebuilt_one_by_one(entries: Seq<EntryView>, list: Seq<ServerView>, server: ServerView)
    ensures
        rebuilt(entries, Seq::empty(), 0) == Ok::<Seq<EntryView>, ErrorView>(entries),
        ({
            let before = rebuilt(entries, list, list.len());
            let after = rebuilt(entries, list.push(server), list.len() + 1);
            if before is Err {
                after == before
            } else if !server.apps.dsh {
                after == before
            } else {
                match dsh_form(server_name_of(server.id), server.server) {
                    Ok(item) => after == Ok::<Seq<EntryView>, ErrorView>(
                        upserted(before->Ok_0, item),
                    ),
                    Err(e) => after == Err::<Seq<EntryView>, ErrorView>(e),
                }
            }
        }),
{
    lemma_rebuilt_prefix(entries, list, list.push(server), list.len());
    assert(list.push(server)[list.len() as int] == server);
}

proof fn lemma_rebuilt_prefix(
    entries: Seq<EntryView>,
    a: Seq<ServerView>,
    b: Seq<ServerView>,
    n: nat,
)
    requires
        n <= a.len() <= b.len(),
        forall|i: int| 0 <= i < a.len() ==> a[i] == b[i],
    ensures
        rebuilt(entries, a, n) == rebuilt(entries, b, n),
    decreases n,
{
    if n > 0 {
        lemma_rebuilt_prefix(entries, a, b, (n - 1) as nat);
    }
}

/// Bringing the file in step: nothing is done where dsh is not installed. Else the servers
/// that the registry has written, and those with the names of servers that dsh uses, are
/// removed, and the servers that dsh uses are written behind what is left.
pub proof fn law_sync_servers(raw: Option<Seq<char>>, list: Seq<ServerView>)
    ensures
        servers_synced(false, raw, list) == Ok::<PlanView, ErrorView>(PlanView::Keep),
        match patch_in(raw) {
            Ok(p) => {
                let removal = RemovalView::Managed { names: target_names(list, list.len()) };
                match rebuilt(stripped(removal, p.entries), list, list.len()) {
                    Ok(entries) => servers_synced(true, raw, list) == patch_planned(
                        raw,
                        PatchView { head: p.head, entries },
                    ),
                    Err(e) => servers_synced(true, raw, list) == Err::<PlanView, ErrorView>(e),
                }
            },
            Err(e) => servers_synced(true, raw, list) == Err::<PlanView, ErrorView>(e),
        },
{
}

/// A text is read as some entries where it has as many, and each equals the one in its
/// place.
pub proof fn law_reads_as(text: Seq<char>, values: Seq<Tree>)
    ensures
        reads_as(text, values) <==> {
            &&& entries_in(text) matches Ok(x)
            &&& x.len() == values.len()
            &&& forall|i: int| 0 <= i < x.len() ==> same(#[trigger] x[i], values[i])
        },
{
    reveal(same);
}

/// A server that the entries hold is one of their items.
pub proof fn law_held_item(entries: Seq<EntryView>, item: Tree)
    ensures
        holds_item(entries, item) ==> exists|i: int, j: int|
            {
                &&& 0 <= i < entries.len()
                &&& inserted(entries[i].value) is Some
                &&& 0 <= j < inserted(entries[i].value)->0.len()
                &&& same(#[trigger] inserted(entries[i].value)->0[j], item)
            },
{
    if holds_item(entries, item) {
        let x = slot_of(entries, item, 0)->0;
        lemma_slot_of(entries, item, 0);
        let items = inserted(entries[x.0 as int].value)->0;
        lemma_slot_in(items, item, 0);
        assert(same(inserted(entries[x.0 as int].value)->0[x.1 as int], item));
    }
}

/// The text of an entry has a block for each item exactly where the first list in it, behind
/// its first line, has as many blocks as there are items. Its text is adapted wherever that
/// is so, and what is new can be written.
pub proof fn law_item_blocks(source: Seq<char>, removal: RemovalView, items: Seq<Tree>, j: nat, item: Tree)
    ensures
        ({
            let column = inner_column(lines_of(source), 1);
            let fits = column is Some && blocks_of(source, column->0).blocks.len() == items.len();
            &&& item_blocks(source, items.len()) == (if fits {
                Some((blocks_of(source, column->0), column->0))
            } else {
                None
            })
            &&& stripped_source(removal, Some(source), items) is Some <==> fits
            &&& replaced_source(Some(source), items.len(), j, item) is Some <==> fits
                && yaml_written(Tree::List(seq![item])) is Ok
        }),
{
}

/// The text of the item that is written is its own, indented like the others.
pub proof fn law_new_block(source: Seq<char>, n: nat, j: nat, item: Tree)
    requires
        item_blocks(source, n) is Some,
        j < n,
        yaml_written(Tree::List(seq![item])) is Ok,
    ensures
        ({
            let x = item_blocks(source, n)->0;
            let block = indented(lines_of(yaml_written(Tree::List(seq![item]))->Ok_0), x.1);
            replaced_source(Some(source), n, j, item) matches Some(text) && is_part(block, text)
        }),
{
    let x = item_blocks(source, n)->0;
    let block = indented(lines_of(yaml_written(Tree::List(seq![item]))->Ok_0), x.1);
    let blocks = x.0.blocks.update(j as int, block);
    assert(blocks[j as int] == block);
    lemma_joined_part(blocks, j as int);
    lemma_behind(x.0.head, joined(blocks), block);
}

/// Entries with no texts but those that the file holds.
pub open spec fn unadapted(entries: Seq<EntryView>) -> Seq<EntryView> {
    Seq::new(
        entries.len(),
        |i: int|
            EntryView {
                value: entries[i].value,
                source: if entries[i].verbatim {
                    entries[i].source
                } else {
                    None
                },
                verbatim: entries[i].verbatim,
            },
    )
}

/// Where the text of the file cannot be put together from the adapted texts, it is put
/// together from those that the file holds and new ones, wherever that can be done; only
/// else is the whole file written anew.
pub proof fn law_texts_preferred_next(p: PatchView, text: Seq<char>)
    requires
        p.entries.len() > 0,
        !(composed(p.head, p.entries) matches Ok(t) && is_text_of(t, p.head, p.entries)),
        composed(p.head, unadapted(p.entries)) == Ok::<Seq<char>, Seq<char>>(text),
        is_text_of(text, p.head, unadapted(p.entries)),
    ensures
        patch_text(p) == Ok::<Seq<char>, ErrorView>(text),
{
    assert(unadapted(p.entries) =~= verbatim_only(p.entries));
}

/// A text holds entries, each in a text of its own, where it is read as them, begins with
/// their head, and has a block for each, which is its text.
pub proof fn law_is_text_of(text: Seq<char>, head: Seq<char>, entries: Seq<EntryView>)
    ensures
        ({
            let b = blocks_of(text, 0);
            is_text_of(text, head, entries) <==> {
                &&& reads_as(text, values_of(entries))
                &&& b.head == (if head.len() == 0 || head.last() == '\n' {
                    head
                } else {
                    head.push('\n')
                })
                &&& b.blocks.len() == entries.len()
                &&& forall|i: int|
                    0 <= i < entries.len() ==> {
                        &&& piece_of(#[trigger] entries[i]) matches Ok(piece)
                        &&& b.blocks[i] == (if i < entries.len() - 1 && piece.len() > 0
                            && piece.last() != '\n' {
                            piece.push('\n')
                        } else {
                            piece
                        })
                    }
            }
        }),
{
    let b = blocks_of(text, 0);
    let pieces = Seq::new(entries.len(), |i: int| piece_of(entries[i])->Ok_0);
    if is_text_of(text, head, entries) {
        assert forall|i: int| 0 <= i < entries.len() implies {
            &&& piece_of(#[trigger] entries[i]) matches Ok(piece)
            &&& b.blocks[i] == (if i < entries.len() - 1 && piece.len() > 0 && piece.last() != '\n' {
                piece.push('\n')
            } else {
                piece
            })
        } by {
            assert(pieces[i] == piece_of(entries[i])->Ok_0);
            assert(b.blocks[i] == (if i < pieces.len() - 1 {
                terminated(pieces[i])
            } else {
                pieces[i]
            }));
        }
    }
    if {
        &&& reads_as(text, values_of(entries))
        &&& b.head == (if head.len() == 0 || head.last() == '\n' {
            head
        } else {
            head.push('\n')
        })
        &&& b.blocks.len() == entries.len()
        &&& forall|i: int|
            0 <= i < entries.len() ==> {
                &&& piece_of(#[trigger] entries[i]) matches Ok(piece)
                &&& b.blocks[i] == (if i < entries.len() - 1 && piece.len() > 0 && piece.last()
                    != '\n' {
                    piece.push('\n')
                } else {
                    piece
                })
            }
    } {
        assert forall|i: int| 0 <= i < pieces.len() implies #[trigger] b.blocks[i] == (if i
            < pieces.len() - 1 {
            terminated(pieces[i])
        } else {
            pieces[i]
        }) by {
            assert(piece_of(entries[i]) is Ok);
        }
    }
}

/// Entries that are written anew keep the marks of their tags wherever what is written is
/// then read as the entries; else they are written as YAML writes them.
pub proof fn law_rewritten(p: PatchView)
    requires
        p.entries.len() == 0 || put_together(p) is None,
    ensures
        ({
            let values = values_of(p.entries);
            let marked = marked_text(values);
            let plain = yaml_written(Tree::List(values));
            if marked is Ok && reads_as(marked->Ok_0, values) {
                patch_text(p) == Ok::<Seq<char>, ErrorView>(marked->Ok_0)
            } else if plain is Ok {
                patch_text(p) == Ok::<Seq<char>, ErrorView>(plain->Ok_0)
            } else {
                patch_text(p) is Err
            }
        }),
{
}

/// A file that is not read as the entries that it is to hold gets their text, though there
/// be none of them; it fails where that cannot be written. One that is not there is made
/// where there are entries.
pub proof fn law_file_written(raw: Option<Seq<char>>, p: PatchView)
    requires
        p.entries.len() == 0 ==> raw is Some,
        p.entries.len() > 0 ==> !(raw matches Some(text) && reads_as(text, values_of(p.entries))),
    ensures
        match patch_text(p) {
            Ok(text) => {
                &&& patch_planned(raw, p) matches Ok(plan)
                &&& left_by(raw, plan) == Some(text) || (raw is None && text.len() == 0)
                &&& carried_out(text_in(raw), plan) == text
            },
            Err(_) => patch_planned(raw, p) is Err,
        },
{
}

} // verus!
