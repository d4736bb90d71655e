//! The plugin items of `cordis.patch.yml` that are MCP servers.
//!
//! An entry of the file has its plugin items under `insert`. Such an item is an MCP
//! server where its `name` is `@deepseek-ai/dsh-mcp-client`. Removing and writing
//! servers touches no other item and no other entry.

use vstd::prelude::*;

use crate::mcp::blocks::{
    blocks_of, find_inner_column, indent_lines, indented, inner_column, joined, lines_of,
    split_blocks, split_lines, Blocks, BlocksView,
};
use crate::mcp::patch::{
    entries_well_formed, entry_views, write_item, EntryView, Patch, PatchEntry, PatchView,
};
use crate::text::{among, begins_with, optional_text, starts_with, text_eq, texts};
use crate::tree::{
    entries_of, field, items_of, lemma_item_well_formed, lemma_refilled, lemma_relisted,
    lemma_untagged, lemma_with_key_well_formed, refilled, relisted, same, text_field, well_formed,
    with_key, Tree,
};
use crate::value::{items_view, lemma_list_view, lemma_mapping_view, Datum, Table};
use crate::yaml::yaml_written;

verus! {

// ----------------------------------------------------------------------------
// Items
// ----------------------------------------------------------------------------

/// The plugin that stands for an MCP server.
pub open spec fn client_name() -> Seq<char> {
    "@deepseek-ai/dsh-mcp-client"@
}

/// An item is an MCP server.
pub open spec fn is_client(item: Tree) -> bool {
    text_field(item, "name"@) == Some(client_name())
}

/// The id of an item.
pub open spec fn id_of(item: Tree) -> Option<Seq<char>> {
    text_field(item, "id"@)
}

/// The server name of an item.
pub open spec fn server_of(item: Tree) -> Option<Seq<char>> {
    match field(item, "config"@) {
        Some(config) => text_field(config, "serverName"@),
        None => None,
    }
}

/// Whether an item is an MCP server.
pub fn is_mcp_client_item(item: &Datum) -> (r: bool)
    requires
        well_formed(item@),
    ensures
        r == is_client(item@),
{
    match item.get_str("name") {
        Some(name) => text_eq(name, "@deepseek-ai/dsh-mcp-client"),
        None => false,
    }
}

/// The id of an item.
pub fn item_id(item: &Datum) -> (r: Option<&str>)
    requires
        well_formed(item@),
    ensures
        match r {
            Some(id) => id_of(item@) == Some(id@),
            None => id_of(item@) is None,
        },
{
    item.get_str("id")
}

/// The server name of an item.
pub fn item_server_name(item: &Datum) -> (r: Option<&str>)
    requires
        well_formed(item@),
    ensures
        match r {
            Some(name) => server_of(item@) == Some(name@),
            None => server_of(item@) is None,
        },
{
    match item.get("config") {
        Some(config) => config.get_str("serverName"),
        None => None,
    }
}

/// The items of an entry.
pub open spec fn inserted(entry: Tree) -> Option<Seq<Tree>> {
    match field(entry, "insert"@) {
        Some(list) => items_of(list),
        None => None,
    }
}

/// An entry with other items.
pub open spec fn with_items(entry: Tree, items: Seq<Tree>) -> Tree {
    match (entries_of(entry), field(entry, "insert"@)) {
        (Some(m), Some(list)) => refilled(
            entry,
            with_key(m, Tree::Text("insert"@), relisted(list, items)),
        ),
        _ => entry,
    }
}

/// The items of an entry.
pub fn insert_list(entry: &Datum) -> (r: Option<&Vec<Datum>>)
    requires
        well_formed(entry@),
    ensures
        match r {
            Some(items) => inserted(entry@) == Some(items_view(items@)) && well_formed(
                Tree::List(items_view(items@)),
            ),
            None => inserted(entry@) is None,
        },
{
    match entry.get("insert") {
        Some(list) => {
            proof {
                lemma_untagged(list@);
            }
            list.as_list()
        },
        None => None,
    }
}

/// An entry with other items.
pub fn replace_items(entry: &Datum, items: Vec<Datum>) -> (r: Datum)
    requires
        well_formed(entry@),
        well_formed(Tree::List(items_view(items@))),
    ensures
        r@ == with_items(entry@, items_view(items@)),
        well_formed(r@),
{
    proof {
        lemma_untagged(entry@);
    }
    match (entry.as_mapping(), entry.get("insert")) {
        (Some(m), Some(list)) => {
            proof {
                lemma_relisted(list@, items_view(items@));
                lemma_with_key_well_formed(
                    m@,
                    Tree::Text("insert"@),
                    relisted(list@, items_view(items@)),
                );
                lemma_refilled(
                    entry@,
                    with_key(m@, Tree::Text("insert"@), relisted(list@, items_view(items@))),
                );
            }
            let mut m = m.clone();
            m.insert("insert", list.relist(items));
            entry.refill(m)
        },
        _ => entry.clone(),
    }
}

// ----------------------------------------------------------------------------
// Texts of items
// ----------------------------------------------------------------------------

/// The blocks of the items in the text of an entry, and their column, where the text
/// has one block for each item.
pub open spec fn item_blocks(source: Seq<char>, n: nat) -> Option<(BlocksView, nat)> {
    match inner_column(lines_of(source), 1) {
        Some(c) => {
            let b = blocks_of(source, c);
            if b.blocks.len() == n {
                Some((b, c))
            } else {
                None
            }
        },
        None => None,
    }
}

/// The blocks of the items in the text of an entry, and their column.
fn find_item_blocks(source: &str, n: usize) -> (r: Option<(Blocks, usize)>)
    ensures
        item_blocks(source@, n as nat) == (match r {
            Some(x) => Some((x.0@, x.1 as nat)),
            None => None,
        }),
{
    let lines = split_lines(source);
    match find_inner_column(&lines) {
        Some(c) => {
            let b = split_blocks(&lines, c);
            if b.blocks.len() == n {
                Some((b, c))
            } else {
                None
            }
        },
        None => None,
    }
}

/// Blocks behind a head.
fn join_blocks(head: String, blocks: &Vec<String>) -> (r: String)
    ensures
        r@ == head@ + joined(texts(blocks@)),
{
    let ghost all = texts(blocks@);
    let mut out = head;
    let mut i: usize = 0;
    assert(out@ =~= head@ + joined(all.take(0)));
    while i < blocks.len()
        invariant
            i <= blocks@.len(),
            all == texts(blocks@),
            out@ == head@ + joined(all.take(i as int)),
        decreases blocks@.len() - i,
    {
        assert(all.take(i + 1).drop_last() =~= all.take(i as int));
        assert(all.take(i + 1).last() == blocks@[i as int]@);
        out.append(blocks[i].as_str());
        assert(out@ =~= head@ + joined(all.take(i + 1)));
        i += 1;
    }
    assert(all.take(i as int) =~= all);
    out
}

// ----------------------------------------------------------------------------
// Removing servers
// ----------------------------------------------------------------------------

/// Which MCP servers are to be removed.
#[derive(Debug)]
pub enum Removal {
    /// Those with this id or this server name.
    Server { id: String, name: String },
    /// Those whose id begins with `mcp-`, and those with one of these server names.
    Managed { names: Vec<String> },
}

/// The content of a [`Removal`].
pub enum RemovalView {
    Server { id: Seq<char>, name: Seq<char> },
    Managed { names: Seq<Seq<char>> },
}

impl View for Removal {
    type V = RemovalView;

    open spec fn view(&self) -> RemovalView {
        match *self {
            Removal::Server { id, name } => RemovalView::Server { id: id@, name: name@ },
            Removal::Managed { names } => RemovalView::Managed { names: texts(names@) },
        }
    }
}

/// An item is to be removed.
pub open spec fn concerns(removal: RemovalView, item: Tree) -> bool {
    is_client(item) && match removal {
        RemovalView::Server { id, name } => id_of(item) == Some(id) || server_of(item) == Some(name),
        RemovalView::Managed { names } => {
            ||| id_of(item) matches Some(id) && begins_with(id, "mcp-"@)
            ||| server_of(item) matches Some(name) && names.contains(name)
        },
    }
}

impl Removal {
    /// Whether an item is to be removed.
    pub fn covers(&self, item: &Datum) -> (r: bool)
        requires
            well_formed(item@),
        ensures
            r == concerns(self@, item@),
    {
        if !is_mcp_client_item(item) {
            return false;
        }
        match self {
            Removal::Server { id, name } => {
                let by_id = match item_id(item) {
                    Some(x) => text_eq(x, id.as_str()),
                    None => false,
                };
                let by_name = match item_server_name(item) {
                    Some(x) => text_eq(x, name.as_str()),
                    None => false,
                };
                by_id || by_name
            },
            Removal::Managed { names } => {
                let by_id = match item_id(item) {
                    Some(x) => starts_with(x, "mcp-"),
                    None => false,
                };
                let by_name = match item_server_name(item) {
                    Some(x) => among(names, x),
                    None => false,
                };
                by_id || by_name
            },
        }
    }
}

/// The items that stay.
pub open spec fn spared(removal: RemovalView) -> spec_fn(Tree) -> bool {
    |item: Tree| !concerns(removal, item)
}

/// The blocks of the items that stay.
pub open spec fn spared_blocks(
    removal: RemovalView,
    items: Seq<Tree>,
    blocks: Seq<Seq<char>>,
) -> Seq<Seq<char>>
    decreases items.len(),
{
    if items.len() == 0 || blocks.len() == 0 {
        Seq::empty()
    } else {
        let before = spared_blocks(removal, items.drop_last(), blocks.drop_last());
        if concerns(removal, items.last()) {
            before
        } else {
            before.push(blocks.last())
        }
    }
}

/// The text of an entry without the items that are to be removed.
pub open spec fn stripped_source(
    removal: RemovalView,
    source: Option<Seq<char>>,
    items: Seq<Tree>,
) -> Option<Seq<char>> {
    match source {
        Some(s) => match item_blocks(s, items.len()) {
            Some(x) => Some(x.0.head + joined(spared_blocks(removal, items, x.0.blocks))),
            None => None,
        },
        None => None,
    }
}

/// An entry without the items that are to be removed. It goes as a whole where that
/// leaves nothing in it; it stays as it is where it has none of them.
pub open spec fn stripped_entry(removal: RemovalView, e: EntryView) -> Option<EntryView> {
    match inserted(e.value) {
        Some(items) => {
            let rest = items.filter(spared(removal));
            if rest.len() == items.len() {
                Some(e)
            } else if rest.len() == 0 && (entries_of(e.value) matches Some(m) && m.len() == 1) {
                None
            } else {
                Some(
                    EntryView {
                        value: with_items(e.value, rest),
                        source: stripped_source(removal, e.source, items),
                        verbatim: false,
                    },
                )
            }
        },
        None => Some(e),
    }
}

/// Entries without the items that are to be removed.
pub open spec fn stripped(removal: RemovalView, entries: Seq<EntryView>) -> Seq<EntryView>
    decreases entries.len(),
{
    if entries.len() == 0 {
        Seq::empty()
    } else {
        match stripped_entry(removal, entries.last()) {
            Some(e) => stripped(removal, entries.drop_last()).push(e),
            None => stripped(removal, entries.drop_last()),
        }
    }
}

/// Some of the items of a well-formed list make up a well-formed list.
pub proof fn lemma_spared(removal: RemovalView, items: Seq<Tree>)
    requires
        well_formed(Tree::List(items)),
    ensures
        well_formed(Tree::List(items.filter(spared(removal)))),
        items.filter(spared(removal)).len() <= items.len(),
    decreases items.len(),
{
    reveal(Seq::filter);
    let rest = items.filter(spared(removal));
    let t = Tree::List(rest);
    assert(t->List_0 == rest);
    if items.len() > 0 {
        let front = Tree::List(items.drop_last());
        assert(front->List_0 == items.drop_last());
        assert forall|i: int| 0 <= i < items.len() implies well_formed(#[trigger] items[i]) by {
            lemma_item_well_formed(items, i);
        }
        assert(well_formed(front));
        lemma_spared(removal, items.drop_last());
        let before = items.drop_last().filter(spared(removal));
        assert forall|i: int| 0 <= i < rest.len() implies well_formed(#[trigger] rest[i]) by {
            if i < before.len() {
                lemma_item_well_formed(before, i);
                assert(rest[i] == before[i]);
            } else {
                assert(rest[i] == items[items.len() - 1]);
            }
        }
    }
}

/// The items that stay, and which they are.
fn spare_items(removal: &Removal, items: &Vec<Datum>) -> (r: (Vec<Datum>, Vec<bool>))
    requires
        well_formed(Tree::List(items_view(items@))),
    ensures
        items_view(r.0@) == items_view(items@).filter(spared(removal@)),
        r.1@ == Seq::new(items@.len(), |i: int| !concerns(removal@, items@[i]@)),
{
    let ghost all = items_view(items@);
    let ghost p = spared(removal@);
    let mut out: Vec<Datum> = Vec::new();
    let mut stays: Vec<bool> = Vec::new();
    let mut i: usize = 0;
    proof {
        reveal(Seq::filter);
        assert(items_view(out@) =~= all.take(0).filter(p));
    }
    while i < items.len()
        invariant
            i <= items@.len(),
            all == items_view(items@),
            p == spared(removal@),
            well_formed(Tree::List(all)),
            items_view(out@) == all.take(i as int).filter(p),
            stays@ == Seq::new(i as nat, |i: int| !concerns(removal@, items@[i]@)),
        decreases items@.len() - i,
    {
        proof {
            reveal(Seq::filter);
            lemma_item_well_formed(all, i as int);
            assert(all.take(i + 1).drop_last() =~= all.take(i as int));
            assert(all.take(i + 1).last() == items@[i as int]@);
        }
        let ghost before = items_view(out@);
        if removal.covers(&items[i]) {
            stays.push(false);
        } else {
            stays.push(true);
            out.push(items[i].clone());
            assert(items_view(out@) =~= before.push(items@[i as int]@));
        }
        assert(stays@ =~= Seq::new((i + 1) as nat, |i: int| !concerns(removal@, items@[i]@)));
        i += 1;
    }
    assert(all.take(i as int) =~= all);
    (out, stays)
}

/// The text of an entry without the items that are to be removed.
fn strip_source(
    removal: Ghost<RemovalView>,
    source: &Option<String>,
    items: &Vec<Datum>,
    stays: &Vec<bool>,
) -> (r: Option<String>)
    requires
        stays@ == Seq::new(items@.len(), |i: int| !concerns(removal@, items@[i]@)),
    ensures
        optional_text(r) == stripped_source(
            removal@,
            optional_text(*source),
            items_view(items@),
        ),
{
    match source {
        Some(s) => match find_item_blocks(s.as_str(), items.len()) {
            Some((b, _)) => {
                let ghost all = items_view(items@);
                let ghost blocks = texts(b.blocks@);
                let mut out: Vec<String> = Vec::new();
                let mut i: usize = 0;
                assert(texts(out@) =~= spared_blocks(removal@, all.take(0), blocks.take(0)));
                while i < stays.len()
                    invariant
                        i <= stays@.len(),
                        stays@.len() == items@.len(),
                        b.blocks@.len() == items@.len(),
                        all == items_view(items@),
                        blocks == texts(b.blocks@),
                        stays@ == Seq::new(items@.len(), |i: int| !concerns(removal@, items@[i]@)),
                        texts(out@) == spared_blocks(
                            removal@,
                            all.take(i as int),
                            blocks.take(i as int),
                        ),
                    decreases stays@.len() - i,
                {
                    let ghost before = texts(out@);
                    proof {
                        assert(all.take(i + 1).drop_last() =~= all.take(i as int));
                        assert(all.take(i + 1).last() == items@[i as int]@);
                        assert(blocks.take(i + 1).drop_last() =~= blocks.take(i as int));
                        assert(blocks.take(i + 1).last() == b.blocks@[i as int]@);
                    }
                    if stays[i] {
                        out.push(b.blocks[i].clone());
                        assert(texts(out@) =~= before.push(b.blocks@[i as int]@));
                    }
                    i += 1;
                }
                assert(all.take(i as int) =~= all);
                assert(blocks.take(i as int) =~= blocks);
                Some(join_blocks(b.head, &out))
            },
            None => None,
        },
        None => None,
    }
}

/// An entry without the items that are to be removed.
fn strip_entry(removal: &Removal, entry: PatchEntry) -> (r: Option<PatchEntry>)
    requires
        well_formed(entry@.value),
    ensures
        stripped_entry(removal@, entry@) == (match r {
            Some(e) => Some(e@),
            None => None,
        }),
        r matches Some(e) ==> well_formed(e@.value),
{
    let changed = match insert_list(&entry.value) {
        Some(items) => {
            let (rest, stays) = spare_items(removal, items);
            proof {
                lemma_spared(removal@, items_view(items@));
            }
            if rest.len() == items.len() {
                None
            } else {
                let alone = match entry.value.as_mapping() {
                    Some(m) => m.len() == 1,
                    None => false,
                };
                if rest.len() == 0 && alone {
                    return None;
                }
                let source = strip_source(Ghost(removal@), &entry.source, items, &stays);
                Some(
                    PatchEntry {
                        value: replace_items(&entry.value, rest),
                        source,
                        verbatim: false,
                    },
                )
            }
        },
        None => None,
    };
    match changed {
        Some(e) => Some(e),
        None => Some(entry),
    }
}

/// Removes MCP servers. An entry that is left with nothing goes too.
pub fn remove_managed_items(patch: Patch, removal: &Removal) -> (r: Patch)
    requires
        entries_well_formed(patch@.entries),
    ensures
        r@ == (PatchView {
            head: patch@.head,
            entries: stripped(removal@, patch@.entries),
        }),
        entries_well_formed(r@.entries),
{
    let ghost all = patch@.entries;
    let ghost source = patch.entries@;
    let head = patch.head;
    let mut out: Vec<PatchEntry> = Vec::new();
    assert(entry_views(out@) =~= stripped(removal@, all.take(0)));
    for entry in it: patch.entries
        invariant
            it.seq() == source,
            all == entry_views(source),
            entries_well_formed(all),
            entry_views(out@) == stripped(removal@, all.take(it.index())),
            entries_well_formed(entry_views(out@)),
    {
        let ghost before = entry_views(out@);
        let ghost i = it.index();
        proof {
            assert(all[i] == entry@);
            assert(well_formed(all[i].value));
            assert(all.take(i + 1).drop_last() =~= all.take(i));
            assert(all.take(i + 1).last() == entry@);
        }
        if let Some(e) = strip_entry(removal, entry) {
            out.push(e);
            assert(entry_views(out@) =~= before.push(e@));
        }
    }
    assert(all.take(all.len() as int) =~= all);
    let r = Patch { head, entries: out };
    assert(r@.entries =~= stripped(removal@, all));
    r
}

// ----------------------------------------------------------------------------
// Writing servers
// ----------------------------------------------------------------------------

/// An item is the MCP server that another item is to take the place of: it has the
/// same id or the same server name.
pub open spec fn is_slot(slot: Tree, item: Tree) -> bool {
    is_client(slot) && {
        ||| id_of(item) matches Some(id) && id.len() > 0 && id_of(slot) == Some(id)
        ||| server_of(item) matches Some(name) && name.len() > 0 && server_of(slot) == Some(name)
    }
}

/// The first slot for an item among others, from position `i` on.
pub open spec fn slot_in(items: Seq<Tree>, item: Tree, i: nat) -> Option<nat>
    decreases items.len() - i,
{
    if i >= items.len() {
        None
    } else if is_slot(items[i as int], item) {
        Some(i)
    } else {
        slot_in(items, item, i + 1)
    }
}

/// The first slot for an item in an entry.
pub open spec fn entry_slot(entry: Tree, item: Tree) -> Option<nat> {
    match inserted(entry) {
        Some(items) => slot_in(items, item, 0),
        None => None,
    }
}

/// The first entry with a slot for an item, from position `i` on, and the slot.
pub open spec fn slot_of(entries: Seq<EntryView>, item: Tree, i: nat) -> Option<(nat, nat)>
    decreases entries.len() - i,
{
    if i >= entries.len() {
        None
    } else {
        match entry_slot(entries[i as int].value, item) {
            Some(j) => Some((i, j)),
            None => slot_of(entries, item, i + 1),
        }
    }
}

/// The text of an entry with another item at a position.
pub open spec fn replaced_source(
    source: Option<Seq<char>>,
    n: nat,
    j: nat,
    item: Tree,
) -> Option<Seq<char>> {
    match source {
        Some(s) => match item_blocks(s, n) {
            Some(x) => match yaml_written(Tree::List(seq![item])) {
                Ok(text) => Some(
                    x.0.head + joined(
                        x.0.blocks.update(j as int, indented(lines_of(text), x.1)),
                    ),
                ),
                Err(_) => None,
            },
            None => None,
        },
        None => None,
    }
}

/// An entry with another item at a position. Where the item that is there equals it,
/// the entry stays as it is.
pub open spec fn with_item(e: EntryView, j: nat, item: Tree) -> EntryView {
    match inserted(e.value) {
        Some(items) => if same(items[j as int], item) {
            e
        } else {
            EntryView {
                value: with_items(e.value, items.update(j as int, item)),
                source: replaced_source(e.source, items.len(), j, item),
                verbatim: false,
            }
        },
        None => e,
    }
}

/// A new entry for an item.
pub open spec fn new_entry(item: Tree) -> EntryView {
    EntryView {
        value: Tree::Mapping(seq![(Tree::Text("insert"@), Tree::List(seq![item]))]),
        source: None,
        verbatim: false,
    }
}

/// Entries with an item in its slot, or in a new entry at the end.
pub open spec fn upserted(entries: Seq<EntryView>, item: Tree) -> Seq<EntryView> {
    match slot_of(entries, item, 0) {
        Some(x) => entries.update(x.0 as int, with_item(entries[x.0 as int], x.1, item)),
        None => entries.push(new_entry(item)),
    }
}

/// Whether an item is the one that another is to take the place of.
fn fits_slot(slot: &Datum, item: &Datum) -> (r: bool)
    requires
        well_formed(slot@),
        well_formed(item@),
    ensures
        r == is_slot(slot@, item@),
{
    if !is_mcp_client_item(slot) {
        return false;
    }
    let by_id = match (item_id(item), item_id(slot)) {
        (Some(x), Some(y)) => x.unicode_len() > 0 && text_eq(x, y),
        _ => false,
    };
    let by_name = match (item_server_name(item), item_server_name(slot)) {
        (Some(x), Some(y)) => x.unicode_len() > 0 && text_eq(x, y),
        _ => false,
    };
    by_id || by_name
}

/// The first slot for an item in an entry.
fn find_entry_slot(entry: &Datum, item: &Datum) -> (r: Option<usize>)
    requires
        well_formed(entry@),
        well_formed(item@),
    ensures
        entry_slot(entry@, item@) == (match r {
            Some(j) => Some(j as nat),
            None => None,
        }),
        r matches Some(j) ==> inserted(entry@) is Some && j < inserted(entry@)->0.len(),
{
    match insert_list(entry) {
        Some(items) => {
            let ghost all = items_view(items@);
            let mut i: usize = 0;
            while i < items.len()
                invariant
                    i <= items@.len(),
                    all == items_view(items@),
                    inserted(entry@) == Some(all),
                    well_formed(Tree::List(all)),
                    well_formed(item@),
                    slot_in(all, item@, 0) == slot_in(all, item@, i as nat),
                decreases items@.len() - i,
            {
                proof {
                    lemma_item_well_formed(all, i as int);
                    assert(all[i as int] == items@[i as int]@);
                }
                if fits_slot(&items[i], item) {
                    return Some(i);
                }
                i += 1;
            }
            None
        },
        None => None,
    }
}

/// The text of an entry with another item at a position.
fn replace_source(source: &Option<String>, n: usize, j: usize, item: &Datum) -> (r: Option<String>)
    requires
        j < n,
        well_formed(item@),
    ensures
        optional_text(r) == replaced_source(optional_text(*source), n as nat, j as nat, item@),
{
    match source {
        Some(s) => match find_item_blocks(s.as_str(), n) {
            Some((b, c)) => match write_item(item) {
                Ok(text) => {
                    let mut blocks = b.blocks;
                    let ghost before = texts(blocks@);
                    let block = indent_lines(&split_lines(text.as_str()), c);
                    blocks.set(j, block);
                    assert(texts(blocks@) =~= before.update(j as int, block@));
                    Some(join_blocks(b.head, &blocks))
                },
                Err(_) => None,
            },
            None => None,
        },
        None => None,
    }
}

/// A well-formed list with another well-formed item is well-formed.
proof fn lemma_updated_well_formed(items: Seq<Tree>, j: int, item: Tree)
    requires
        well_formed(Tree::List(items)),
        0 <= j < items.len(),
        well_formed(item),
    ensures
        well_formed(Tree::List(items.update(j, item))),
{
    let t = Tree::List(items.update(j, item));
    assert(t->List_0 == items.update(j, item));
    assert forall|i: int| 0 <= i < items.len() implies well_formed(
        #[trigger] items.update(j, item)[i],
    ) by {
        lemma_item_well_formed(items, i);
    }
}

/// An entry with another item at a position.
fn place_item(entry: &PatchEntry, j: usize, item: &Datum) -> (r: Option<PatchEntry>)
    requires
        well_formed(entry@.value),
        well_formed(item@),
        inserted(entry@.value) is Some,
        j < inserted(entry@.value)->0.len(),
    ensures
        with_item(entry@, j as nat, item@) == (match r {
            Some(e) => e@,
            None => entry@,
        }),
        r matches Some(e) ==> well_formed(e@.value),
{
    match insert_list(&entry.value) {
        Some(items) => {
            let ghost all = items_view(items@);
            proof {
                lemma_item_well_formed(all, j as int);
                lemma_updated_well_formed(all, j as int, item@);
            }
            if items[j].same_as(item) {
                return None;
            }
            let mut rest: Vec<Datum> = Vec::new();
            let mut i: usize = 0;
            while i < items.len()
                invariant
                    i <= items@.len(),
                    rest@.len() == i,
                    forall|k: int|
                        0 <= k < i ==> (#[trigger] rest@[k])@ == (if k == j {
                            item@
                        } else {
                            items@[k]@
                        }),
                decreases items@.len() - i,
            {
                if i == j {
                    rest.push(item.clone());
                } else {
                    rest.push(items[i].clone());
                }
                i += 1;
            }
            assert(items_view(rest@) =~= all.update(j as int, item@));
            let source = replace_source(&entry.source, items.len(), j, item);
            Some(PatchEntry { value: replace_items(&entry.value, rest), source, verbatim: false })
        },
        None => None,
    }
}

/// A new entry for an item.
fn make_entry(item: Datum) -> (r: PatchEntry)
    requires
        well_formed(item@),
    ensures
        r@ == new_entry(item@),
        well_formed(r@.value),
{
    broadcast use lemma_list_view, lemma_mapping_view;
    let mut items: Vec<Datum> = Vec::new();
    items.push(item);
    assert(items_view(items@) =~= seq![item@]);
    proof {
        let t = Tree::List(seq![item@]);
        assert(t->List_0 == seq![item@]);
        assert(well_formed(t));
    }
    let mut m = Table::new();
    m.insert("insert", Datum::List(items));
    assert(m@ =~= seq![(Tree::Text("insert"@), Tree::List(seq![item@]))]);
    PatchEntry { value: Datum::Mapping(m), source: None, verbatim: false }
}

/// Writes an MCP server: in place of the first one with the same id or the same
/// server name, or in a new entry.
pub fn upsert_managed_item(patch: &mut Patch, item: Datum)
    requires
        entries_well_formed(old(patch)@.entries),
        well_formed(item@),
    ensures
        final(patch)@ == (PatchView {
            head: old(patch)@.head,
            entries: upserted(old(patch)@.entries, item@),
        }),
        entries_well_formed(final(patch)@.entries),
{
    let ghost all = patch@.entries;
    let mut i: usize = 0;
    while i < patch.entries.len()
        invariant
            i <= patch.entries@.len(),
            patch@ == old(patch)@,
            all == patch@.entries,
            entries_well_formed(all),
            well_formed(item@),
            slot_of(all, item@, 0) == slot_of(all, item@, i as nat),
        decreases patch.entries@.len() - i,
    {
        proof {
            assert(all[i as int] == patch.entries@[i as int]@);
            assert(well_formed(all[i as int].value));
        }
        if let Some(j) = find_entry_slot(&patch.entries[i].value, &item) {
            let placed = place_item(&patch.entries[i], j, &item);
            assert(slot_of(all, item@, 0) == Some((i as nat, j as nat)));
            if let Some(e) = placed {
                patch.entries.set(i, e);
            }
            assert(patch@.entries =~= upserted(all, item@));
            return;
        }
        i += 1;
    }
    patch.entries.push(make_entry(item));
    assert(patch@.entries =~= upserted(all, item@));
}

} // verus!
