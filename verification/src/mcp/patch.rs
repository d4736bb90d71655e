//! The text of `cordis.patch.yml`.
//!
//! The file is a YAML list of patch entries. Most of it belongs to the user, who may
//! have put comments and tags of dsh's own into it, such as
//! `!!js process.env.TOKEN`. So an entry that is not changed keeps its text, and a
//! tag that is not one of YAML's own is seen when the file is read.

use vstd::prelude::*;

use crate::error::{outcome, AppError, ErrorView};
use crate::json::text_result;
use crate::mcp::blocks::{
    blocks_of, ends_line, joined, law_blocks_joined, lemma_blocks_separate, split_blocks,
    split_lines,
};
use crate::mcp::marks::{marked_text, write_marked};
use crate::plan::{plan_of, plan_write, PlanView, WritePlan};
use crate::text::{blank, glue, is_blank, optional_text, text_eq, texts};
use crate::tree::{
    is_storable, lemma_entry_well_formed, lemma_item_well_formed, lemma_same_reflexive, same,
    storable, well_formed, Tree,
};
use crate::value::{items_view, lemma_list_view, lemma_mapping_view, Datum, Table};
use crate::yaml::{parse_yaml, tag_header, write_yaml, yaml_parsed, yaml_written};

verus! {

// ----------------------------------------------------------------------------
// Tags
// ----------------------------------------------------------------------------

/// A tag that is written with two exclamation marks.
pub open spec fn is_secondary(tag: Seq<char>) -> bool {
    tag.len() >= 2 && tag[0] == '!' && tag[1] == '!'
}

/// A tag of YAML's own.
pub open spec fn is_core(tag: Seq<char>) -> bool {
    ||| tag == "!!str"@
    ||| tag == "!!int"@
    ||| tag == "!!float"@
    ||| tag == "!!bool"@
    ||| tag == "!!null"@
    ||| tag == "!!seq"@
    ||| tag == "!!map"@
}

/// A document with the tags that a second reading of its text shows. `plain` is the
/// document as YAML reads it, without the tags that it does not know; `aware` is the
/// document with every tag in it.
pub open spec fn retagged(plain: Tree, aware: Tree) -> Tree
    decreases aware,
{
    match aware {
        Tree::Tagged(tag, x) => if is_secondary(tag) {
            if is_core(tag) {
                retagged(plain, *x)
            } else {
                Tree::Tagged(tag, Box::new(retagged(plain, *x)))
            }
        } else {
            match plain {
                Tree::Tagged(t, y) => if t == tag {
                    Tree::Tagged(t, Box::new(retagged(*y, *x)))
                } else {
                    plain
                },
                _ => plain,
            }
        },
        Tree::List(xs) => match plain {
            Tree::List(ys) => if xs.len() == ys.len() {
                Tree::List(
                    Seq::new(
                        xs.len(),
                        |i: int|
                            if 0 <= i < xs.len() {
                                retagged(ys[i], xs[i])
                            } else {
                                Tree::Null
                            },
                    ),
                )
            } else {
                plain
            },
            _ => plain,
        },
        Tree::Mapping(xs) => match plain {
            Tree::Mapping(ys) => if xs.len() == ys.len() {
                Tree::Mapping(
                    Seq::new(
                        xs.len(),
                        |i: int|
                            if 0 <= i < xs.len() {
                                (ys[i].0, retagged(ys[i].1, xs[i].1))
                            } else {
                                (Tree::Null, Tree::Null)
                            },
                    ),
                )
            } else {
                plain
            },
            _ => plain,
        },
        _ => plain,
    }
}

/// A tag of YAML's own.
fn core_tag(tag: &str) -> (r: bool)
    ensures
        r == is_core(tag@),
{
    text_eq(tag, "!!str") || text_eq(tag, "!!int") || text_eq(tag, "!!float") || text_eq(
        tag,
        "!!bool",
    ) || text_eq(tag, "!!null") || text_eq(tag, "!!seq") || text_eq(tag, "!!map")
}

/// A tag that is written with two exclamation marks.
fn secondary_tag(tag: &str) -> (r: bool)
    ensures
        r == is_secondary(tag@),
{
    tag.unicode_len() >= 2 && tag.get_char(0) == '!' && tag.get_char(1) == '!'
}

/// Retagging a well-formed document gives a well-formed document.
proof fn lemma_retagged(plain: Tree, aware: Tree)
    requires
        well_formed(plain),
        well_formed(aware),
    ensures
        well_formed(retagged(plain, aware)),
    decreases aware,
{
    match aware {
        Tree::Tagged(tag, x) => if is_secondary(tag) {
            lemma_retagged(plain, *x);
        } else {
            match plain {
                Tree::Tagged(t, y) => {
                    lemma_retagged(*y, *x);
                },
                _ => {},
            }
        },
        Tree::List(xs) => match plain {
            Tree::List(ys) => if xs.len() == ys.len() {
                let r = retagged(plain, aware)->List_0;
                assert forall|i: int| 0 <= i < r.len() implies well_formed(#[trigger] r[i]) by {
                    lemma_item_well_formed(xs, i);
                    lemma_item_well_formed(ys, i);
                    lemma_retagged(ys[i], xs[i]);
                }
            },
            _ => {},
        },
        Tree::Mapping(xs) => match plain {
            Tree::Mapping(ys) => if xs.len() == ys.len() {
                let r = retagged(plain, aware)->Mapping_0;
                assert forall|i: int| 0 <= i < r.len() implies (#[trigger] r[i]).0 == ys[i].0
                    && well_formed(r[i].0) && well_formed(r[i].1) by {
                    lemma_entry_well_formed(xs, i);
                    lemma_entry_well_formed(ys, i);
                    lemma_retagged(ys[i].1, xs[i].1);
                }
                assert forall|i: int, j: int| 0 <= i < r.len() && 0 <= j < r.len() && i != j implies !same(
                    (#[trigger] r[i]).0,
                    (#[trigger] r[j]).0,
                ) by {
                    assert(!same(ys[i].0, ys[j].0));
                }
            },
            _ => {},
        },
        _ => {},
    }
}

/// A second reading that shows no other tags changes nothing.
proof fn lemma_retagged_storable(t: Tree, depth: nat)
    requires
        storable(t, depth),
    ensures
        retagged(t, t) == t,
    decreases t,
{
    match t {
        Tree::List(x) => {
            let r = retagged(t, t)->List_0;
            assert forall|i: int| 0 <= i < x.len() implies #[trigger] r[i] == x[i] by {
                lemma_retagged_storable(x[i], (depth - 1) as nat);
            }
            assert(r =~= x);
        },
        Tree::Mapping(x) => {
            let r = retagged(t, t)->Mapping_0;
            assert forall|i: int| 0 <= i < x.len() implies #[trigger] r[i] == x[i] by {
                lemma_retagged_storable(x[i].1, (depth - 1) as nat);
            }
            assert(r =~= x);
        },
        Tree::Tagged(tag, x) => {
            lemma_retagged_storable(*x, depth);
        },
        _ => {},
    }
}

/// A document with the tags that a second reading of its text shows.
pub fn retag(plain: &Datum, aware: &Datum) -> (r: Datum)
    requires
        well_formed(plain@),
        well_formed(aware@),
    ensures
        r@ == retagged(plain@, aware@),
        well_formed(r@),
    decreases aware,
{
    broadcast use lemma_list_view, lemma_mapping_view;
    proof {
        lemma_retagged(plain@, aware@);
    }
    match aware {
        Datum::Tagged(tag, x) => if secondary_tag(tag.as_str()) {
            if core_tag(tag.as_str()) {
                retag(plain, &**x)
            } else {
                Datum::Tagged(tag.clone(), Box::new(retag(plain, &**x)))
            }
        } else {
            match plain {
                Datum::Tagged(t, y) => if text_eq(t.as_str(), tag.as_str()) {
                    Datum::Tagged(t.clone(), Box::new(retag(&**y, &**x)))
                } else {
                    plain.clone()
                },
                _ => plain.clone(),
            }
        },
        Datum::List(xs) => match plain {
            Datum::List(ys) => if xs.len() == ys.len() {
                let ghost all = retagged(plain@, aware@)->List_0;
                let mut out: Vec<Datum> = Vec::new();
                let mut i: usize = 0;
                while i < xs.len()
                    invariant
                        i <= xs@.len(),
                        xs@.len() == ys@.len(),
                        *aware == Datum::List(*xs),
                        well_formed(Tree::List(items_view(xs@))),
                        well_formed(Tree::List(items_view(ys@))),
                        all == retagged(
                            Tree::List(items_view(ys@)),
                            Tree::List(items_view(xs@)),
                        )->List_0,
                        out@.len() == i,
                        forall|j: int| 0 <= j < i ==> (#[trigger] out@[j])@ == all[j],
                    decreases xs@.len() - i,
                {
                    assert(decreases_to!(*aware => aware->List_0@));
                    assert(decreases_to!(aware->List_0@ => aware->List_0@[i as int]));
                    proof {
                        lemma_item_well_formed(items_view(xs@), i as int);
                        lemma_item_well_formed(items_view(ys@), i as int);
                    }
                    let item = retag(&ys[i], &xs[i]);
                    assert(item@ == all[i as int]);
                    out.push(item);
                    i += 1;
                }
                assert(items_view(out@) =~= all);
                Datum::List(out)
            } else {
                plain.clone()
            },
            _ => plain.clone(),
        },
        Datum::Mapping(xs) => match plain {
            Datum::Mapping(ys) => if xs.entries.len() == ys.entries.len() {
                let ghost all = retagged(plain@, aware@)->Mapping_0;
                let mut out = Table::new();
                let mut i: usize = 0;
                while i < xs.entries.len()
                    invariant
                        i <= xs.entries@.len(),
                        xs.entries@.len() == ys.entries@.len(),
                        *aware == Datum::Mapping(*xs),
                        well_formed(Tree::Mapping(xs@)),
                        well_formed(Tree::Mapping(ys@)),
                        all == retagged(Tree::Mapping(ys@), Tree::Mapping(xs@))->Mapping_0,
                        out@.len() == i,
                        forall|j: int| 0 <= j < i ==> #[trigger] out@[j] == all[j],
                    decreases xs.entries@.len() - i,
                {
                    assert(decreases_to!(*aware => aware->Mapping_0.entries@));
                    assert(decreases_to!(aware->Mapping_0.entries@ => aware->Mapping_0.entries@[i as int]));
                    assert(decreases_to!(aware->Mapping_0.entries@[i as int] => aware->Mapping_0.entries@[i as int].1));
                    proof {
                        lemma_entry_well_formed(xs@, i as int);
                        lemma_entry_well_formed(ys@, i as int);
                    }
                    let value = retag(&ys.entries[i].1, &xs.entries[i].1);
                    assert(value@ == all[i as int].1);
                    out.append(ys.entries[i].0.clone(), value);
                    i += 1;
                }
                assert(out@ =~= all);
                Datum::Mapping(out)
            } else {
                plain.clone()
            },
            _ => plain.clone(),
        },
        _ => plain.clone(),
    }
}

/// What a text is read as with every tag in it: tags with two exclamation marks,
/// which YAML drops where it does not know them, are declared to be ordinary tags.
/// The declaration goes in front of the document, or in front of the document's own
/// first line where that starts it explicitly.
pub open spec fn aware_reading(raw: Seq<char>) -> Option<Tree> {
    match yaml_parsed(tag_header() + raw) {
        Ok(t) => Some(t),
        Err(_) => match yaml_parsed("%TAG !! !!!\n"@ + raw) {
            Ok(t) => Some(t),
            Err(_) => None,
        },
    }
}

/// What a text is read as, with the tags that YAML drops.
pub open spec fn tagged_reading(raw: Seq<char>) -> Result<Tree, Seq<char>> {
    match yaml_parsed(raw) {
        Ok(plain) => match aware_reading(raw) {
            Some(aware) => Ok(retagged(plain, aware)),
            None => Ok(plain),
        },
        Err(e) => Err(e),
    }
}

/// Reads a text with every tag in it.
fn read_aware(raw: &str) -> (r: Option<Datum>)
    ensures
        aware_reading(raw@) == (match r {
            Some(t) => Some(t@),
            None => None,
        }),
        r matches Some(t) ==> well_formed(t@),
{
    match parse_yaml(glue("%TAG !! !!!\n---\n", raw).as_str()) {
        Ok(t) => Some(t),
        Err(_) => match parse_yaml(glue("%TAG !! !!!\n", raw).as_str()) {
            Ok(t) => Some(t),
            Err(_) => None,
        },
    }
}

/// Reads a text with the tags that YAML drops.
pub fn parse_tagged_yaml(raw: &str) -> (r: Result<Datum, String>)
    ensures
        match r {
            Ok(t) => tagged_reading(raw@) == Ok::<Tree, Seq<char>>(t@) && well_formed(t@),
            Err(e) => tagged_reading(raw@) == Err::<Tree, Seq<char>>(e@),
        },
{
    match parse_yaml(raw) {
        Ok(plain) => match read_aware(raw) {
            Some(aware) => Ok(retag(&plain, &aware)),
            None => Ok(plain),
        },
        Err(e) => Err(e),
    }
}

// ----------------------------------------------------------------------------
// Entries
// ----------------------------------------------------------------------------

/// The entries of the file, given what its text was read as.
pub open spec fn entries_read(read: Result<Tree, Seq<char>>) -> Result<Seq<Tree>, ErrorView> {
    match read {
        Ok(Tree::Null) => Ok(Seq::empty()),
        Ok(Tree::List(x)) => Ok(x),
        Ok(_) => Err(
            ErrorView::Config("dsh cordis.patch.yml top level must be a list of patch entries"@),
        ),
        Err(e) => Err(ErrorView::Config("Failed to parse dsh cordis.patch.yml as YAML: "@ + e)),
    }
}

/// The entries that the text of the file holds: none where it is blank.
pub open spec fn entries_in(raw: Seq<char>) -> Result<Seq<Tree>, ErrorView> {
    if is_blank(raw) {
        Ok(Seq::empty())
    } else {
        entries_read(tagged_reading(raw))
    }
}

/// The contents of a list of documents, or of an error.
pub open spec fn list_outcome(r: Result<Vec<Datum>, AppError>) -> Result<Seq<Tree>, ErrorView> {
    match r {
        Ok(x) => Ok(items_view(x@)),
        Err(e) => Err(e@),
    }
}

/// The entries of the file, given what its text was read as. What is not a list is
/// not overwritten.
pub fn entries_from(read: Result<Datum, String>) -> (r: Result<Vec<Datum>, AppError>)
    requires
        read matches Ok(v) ==> well_formed(v@),
    ensures
        list_outcome(r) == entries_read(
            match read {
                Ok(v) => Ok(v@),
                Err(e) => Err(e@),
            },
        ),
        r matches Ok(x) ==> well_formed(Tree::List(items_view(x@))),
{
    broadcast use lemma_list_view;
    match read {
        Ok(Datum::Null) => {
            let x: Vec<Datum> = Vec::new();
            assert(items_view(x@) =~= Seq::<Tree>::empty());
            Ok(x)
        },
        Ok(Datum::List(x)) => Ok(x),
        Ok(_) => Err(
            AppError::Config(
                "dsh cordis.patch.yml top level must be a list of patch entries".to_owned(),
            ),
        ),
        Err(e) => Err(
            AppError::Config(glue("Failed to parse dsh cordis.patch.yml as YAML: ", e.as_str())),
        ),
    }
}

/// Reads the entries from the text of the file.
pub fn read_patch_entries(raw: &str) -> (r: Result<Vec<Datum>, AppError>)
    ensures
        list_outcome(r) == entries_in(raw@),
        r matches Ok(x) ==> well_formed(Tree::List(items_view(x@))),
{
    if blank(raw) {
        let x: Vec<Datum> = Vec::new();
        assert(items_view(x@) =~= Seq::<Tree>::empty());
        Ok(x)
    } else {
        entries_from(parse_tagged_yaml(raw))
    }
}

// ----------------------------------------------------------------------------
// Texts of entries
// ----------------------------------------------------------------------------

/// An entry of the file.
#[derive(Debug)]
pub struct PatchEntry {
    pub value: Datum,
    /// The text of the entry, where it is known.
    pub source: Option<String>,
    /// The text is the one that the file holds.
    pub verbatim: bool,
}

/// The content of a [`PatchEntry`].
pub struct EntryView {
    pub value: Tree,
    pub source: Option<Seq<char>>,
    pub verbatim: bool,
}

impl View for PatchEntry {
    type V = EntryView;

    open spec fn view(&self) -> EntryView {
        EntryView {
            value: self.value@,
            source: optional_text(self.source),
            verbatim: self.verbatim,
        }
    }
}

/// The file: what stands in front of its entries, and the entries.
#[derive(Debug)]
pub struct Patch {
    pub head: String,
    pub entries: Vec<PatchEntry>,
}

/// The content of a [`Patch`].
pub struct PatchView {
    pub head: Seq<char>,
    pub entries: Seq<EntryView>,
}

/// The contents of some entries.
pub open spec fn entry_views(entries: Seq<PatchEntry>) -> Seq<EntryView> {
    Seq::new(entries.len(), |i: int| entries[i]@)
}

impl View for Patch {
    type V = PatchView;

    open spec fn view(&self) -> PatchView {
        PatchView { head: self.head@, entries: entry_views(self.entries@) }
    }
}

/// The documents of some entries.
pub open spec fn values_of(entries: Seq<EntryView>) -> Seq<Tree> {
    Seq::new(entries.len(), |i: int| entries[i].value)
}

/// The documents of the entries are well-formed.
pub open spec fn entries_well_formed(entries: Seq<EntryView>) -> bool {
    forall|i: int| 0 <= i < entries.len() ==> well_formed((#[trigger] entries[i]).value)
}

/// The entries of a file with their texts, where its text has one block for each
/// entry.
pub open spec fn located(raw: Seq<char>, values: Seq<Tree>) -> PatchView {
    let b = blocks_of(raw, 0);
    if b.blocks.len() == values.len() {
        PatchView {
            head: b.head,
            entries: Seq::new(
                values.len(),
                |i: int|
                    EntryView { value: values[i], source: Some(b.blocks[i]), verbatim: true },
            ),
        }
    } else {
        PatchView {
            head: Seq::empty(),
            entries: Seq::new(
                values.len(),
                |i: int| EntryView { value: values[i], source: None, verbatim: false },
            ),
        }
    }
}

/// The file that a text holds.
pub open spec fn patch_of(raw: Seq<char>) -> Result<PatchView, ErrorView> {
    match entries_in(raw) {
        Ok(values) => Ok(located(raw, values)),
        Err(e) => Err(e),
    }
}

/// The entries of a file with their texts.
pub fn locate(raw: &str, values: Vec<Datum>) -> (r: Patch)
    ensures
        r@ == located(raw@, items_view(values@)),
{
    let ghost target = located(raw@, items_view(values@));
    let ghost all = values@;
    let found = split_blocks(&split_lines(raw), 0);
    let fits = found.blocks.len() == values.len();
    let head = if fits {
        found.head.clone()
    } else {
        String::new()
    };
    let ghost blocks = found@.blocks;
    let mut entries: Vec<PatchEntry> = Vec::new();
    for value in it: values
        invariant
            it.seq() == all,
            blocks == texts(found.blocks@),
            fits == (blocks.len() == all.len()),
            target.entries.len() == all.len(),
            forall|j: int|
                0 <= j < all.len() ==> #[trigger] target.entries[j] == (if fits {
                    EntryView { value: all[j]@, source: Some(blocks[j]), verbatim: true }
                } else {
                    EntryView { value: all[j]@, source: None, verbatim: false }
                }),
            entries@.len() == it.index(),
            forall|j: int| 0 <= j < it.index() ==> (#[trigger] entries@[j])@ == target.entries[j],
    {
        let i: usize = entries.len();
        let source = if fits {
            Some(found.blocks[i].clone())
        } else {
            None
        };
        let entry = PatchEntry { value, source, verbatim: fits };
        assert(entry@ == target.entries[i as int]);
        entries.push(entry);
    }
    let r = Patch { head, entries };
    assert(r@.entries =~= target.entries);
    assert(r@.head =~= target.head);
    r
}

/// Reads the file from its text.
pub fn read_patch(raw: &str) -> (r: Result<Patch, AppError>)
    ensures
        outcome(r) == patch_of(raw@),
        r matches Ok(p) ==> entries_well_formed(p@.entries),
{
    match read_patch_entries(raw) {
        Ok(values) => {
            proof {
                assert forall|i: int| 0 <= i < values@.len() implies well_formed(
                    (#[trigger] located(raw@, items_view(values@)).entries[i]).value,
                ) by {
                    lemma_item_well_formed(items_view(values@), i);
                }
            }
            Ok(locate(raw, values))
        },
        Err(e) => Err(e),
    }
}

/// A text that does not end within a line.
pub open spec fn terminated(s: Seq<char>) -> Seq<char> {
    if s.len() == 0 || s.last() == '\n' {
        s
    } else {
        s.push('\n')
    }
}

/// The text of an entry: the one that is known, or a new one.
pub open spec fn piece_of(e: EntryView) -> Result<Seq<char>, Seq<char>> {
    match e.source {
        Some(s) => Ok(s),
        None => marked_text(seq![e.value]),
    }
}

/// The texts of the entries behind the head.
pub open spec fn composed(head: Seq<char>, entries: Seq<EntryView>) -> Result<Seq<char>, Seq<char>>
    decreases entries.len(),
{
    if entries.len() == 0 {
        Ok(head)
    } else {
        match composed(head, entries.drop_last()) {
            Ok(before) => match piece_of(entries.last()) {
                Ok(piece) => Ok(terminated(before) + piece),
                Err(e) => Err(e),
            },
            Err(e) => Err(e),
        }
    }
}

/// Entries with no texts but those that the file holds.
pub open spec fn verbatim_only(entries: Seq<EntryView>) -> Seq<EntryView> {
    Seq::new(
        entries.len(),
        |i: int|
            EntryView {
                value: entries[i].value,
                source: if entries[i].verbatim {
                    entries[i].source
                } else {
                    None
                },
                verbatim: entries[i].verbatim,
            },
    )
}

/// A text is read as these entries.
pub open spec fn reads_as(text: Seq<char>, values: Seq<Tree>) -> bool {
    entries_in(text) matches Ok(x) && same(Tree::List(x), Tree::List(values))
}

/// Entries can be written with the marks of their tags.
pub open spec fn keeps_marks(values: Seq<Tree>) -> bool {
    marked_text(values) matches Ok(text) && reads_as(text, values)
}

/// Entries written anew: with the marks of their tags, where that is read as these
/// entries.
pub open spec fn rewritten(values: Seq<Tree>) -> Result<Seq<char>, ErrorView> {
    if keeps_marks(values) {
        Ok(marked_text(values)->Ok_0)
    } else {
        match yaml_written(Tree::List(values)) {
            Ok(text) => Ok(text),
            Err(e) => Err(ErrorView::Config("Failed to serialize dsh cordis.patch.yml: "@ + e)),
        }
    }
}

/// A text falls apart into a head and pieces: it has a block for each of them, and
/// nothing else.
pub open spec fn pieces_fit(text: Seq<char>, head: Seq<char>, pieces: Seq<Seq<char>>) -> bool {
    let b = blocks_of(text, 0);
    &&& b.head == terminated(head)
    &&& b.blocks.len() == pieces.len()
    &&& forall|i: int|
        0 <= i < pieces.len() ==> #[trigger] b.blocks[i] == (if i < pieces.len() - 1 {
            terminated(pieces[i])
        } else {
            pieces[i]
        })
}

/// A text falls apart into a head and the texts of entries.
pub open spec fn falls_apart(text: Seq<char>, head: Seq<char>, entries: Seq<EntryView>) -> bool {
    &&& forall|i: int| 0 <= i < entries.len() ==> piece_of(#[trigger] entries[i]) is Ok
    &&& pieces_fit(
        text,
        head,
        Seq::new(entries.len(), |i: int| piece_of(entries[i])->Ok_0),
    )
}

/// A text holds entries, each in a text of its own: it is read as them, and falls apart
/// into their texts.
pub open spec fn is_text_of(text: Seq<char>, head: Seq<char>, entries: Seq<EntryView>) -> bool {
    reads_as(text, values_of(entries)) && falls_apart(text, head, entries)
}

/// The text of a file as it is put together from the texts of its entries, where that
/// holds these entries: with the texts that were adapted, else with new texts in their
/// place.
pub open spec fn put_together(p: PatchView) -> Option<Seq<char>> {
    if composed(p.head, p.entries) matches Ok(t) && is_text_of(t, p.head, p.entries) {
        Some(composed(p.head, p.entries)->Ok_0)
    } else if composed(p.head, verbatim_only(p.entries)) matches Ok(t) && is_text_of(
        t,
        p.head,
        verbatim_only(p.entries),
    ) {
        Some(composed(p.head, verbatim_only(p.entries))->Ok_0)
    } else {
        None
    }
}

/// The text of a file can be put together.
pub open spec fn is_pieced(p: PatchView) -> bool {
    p.entries.len() > 0 && put_together(p) is Some
}

/// The text of a file. It is put together from the texts of its entries where that is
/// possible; else the whole file is written anew.
pub open spec fn patch_text(p: PatchView) -> Result<Seq<char>, ErrorView> {
    if is_pieced(p) {
        Ok(put_together(p)->0)
    } else {
        rewritten(values_of(p.entries))
    }
}

/// The text of a file is read as its entries: it can be put together, or the entries can
/// be written anew with the marks of their tags, or YAML keeps them.
pub open spec fn settles(p: PatchView) -> bool {
    ||| is_pieced(p)
    ||| keeps_marks(values_of(p.entries))
    ||| is_storable(Tree::List(values_of(p.entries)))
}

/// The text of a file is there, and is read as its entries.
pub open spec fn text_holds(p: PatchView) -> bool {
    patch_text(p) matches Ok(text) && reads_as(text, values_of(p.entries)) && reads_well(text)
}

/// What a text is read as is well-formed.
pub open spec fn reads_well(text: Seq<char>) -> bool {
    entries_in(text) matches Ok(x) && well_formed(Tree::List(x))
}

/// A text that does not end within a line.
fn terminate(s: &mut String)
    ensures
        final(s)@ == terminated(old(s)@),
{
    let n: usize = s.as_str().unicode_len();
    if n > 0 && s.as_str().get_char(n - 1) != '\n' {
        s.push('\n');
    }
}

/// The text of a list with one item.
pub fn write_item(value: &Datum) -> (r: Result<String, String>)
    requires
        well_formed(value@),
    ensures
        text_result(r) == yaml_written(Tree::List(seq![value@])),
{
    broadcast use lemma_list_view;
    let mut items: Vec<Datum> = Vec::new();
    items.push(value.clone());
    assert(items_view(items@) =~= seq![value@]);
    proof {
        let t = Tree::List(seq![value@]);
        assert(t->List_0 == seq![value@]);
        assert(well_formed(t));
    }
    write_yaml(&Datum::List(items))
}

/// The text of a list with one item, with the marks of its tags.
fn write_piece(value: &Datum) -> (r: Result<String, String>)
    requires
        well_formed(value@),
    ensures
        text_result(r) == marked_text(seq![value@]),
{
    broadcast use lemma_list_view;
    let mut items: Vec<Datum> = Vec::new();
    items.push(value.clone());
    assert(items_view(items@) =~= seq![value@]);
    let list = Datum::List(items);
    proof {
        assert(list@ == Tree::List(seq![value@]));
        assert(list@->List_0 == seq![value@]);
        assert(well_formed(list@));
    }
    write_marked(&list)
}

/// The entries, without the adapted texts where `adapted` is not set.
pub open spec fn chosen(entries: Seq<EntryView>, adapted: bool) -> Seq<EntryView> {
    if adapted {
        entries
    } else {
        verbatim_only(entries)
    }
}

/// The texts of the entries behind the head, and each of them; without the adapted ones
/// where `adapted` is not set.
fn compose(head: &str, entries: &Vec<PatchEntry>, adapted: bool) -> (r: Result<
    (String, Vec<String>),
    String,
>)
    requires
        entries_well_formed(entry_views(entries@)),
    ensures
        ({
            let all = chosen(entry_views(entries@), adapted);
            match r {
                Ok((text, pieces)) => {
                    &&& composed(head@, all) == Ok::<Seq<char>, Seq<char>>(text@)
                    &&& pieces@.len() == all.len()
                    &&& forall|i: int|
                        0 <= i < all.len() ==> piece_of(#[trigger] all[i]) == Ok::<
                            Seq<char>,
                            Seq<char>,
                        >(pieces@[i]@)
                },
                Err(e) => composed(head@, all) == Err::<Seq<char>, Seq<char>>(e@),
            }
        }),
{
    let ghost all = chosen(entry_views(entries@), adapted);
    let mut out = head.to_owned();
    let mut pieces: Vec<String> = Vec::new();
    let mut i: usize = 0;
    while i < entries.len()
        invariant
            i <= entries@.len(),
            entries_well_formed(entry_views(entries@)),
            all == chosen(entry_views(entries@), adapted),
            composed(head@, all.take(i as int)) == Ok::<Seq<char>, Seq<char>>(out@),
            pieces@.len() == i,
            forall|j: int|
                0 <= j < i ==> piece_of(#[trigger] all[j]) == Ok::<Seq<char>, Seq<char>>(
                    pieces@[j]@,
                ),
        decreases entries@.len() - i,
    {
        let entry = &entries[i];
        proof {
            assert(entry_views(entries@)[i as int] == entry@);
            assert(well_formed(entry_views(entries@)[i as int].value));
            assert(all.take(i + 1).drop_last() =~= all.take(i as int));
            assert(all.take(i + 1).last() == all[i as int]);
        }
        let known = match &entry.source {
            Some(s) => if adapted || entry.verbatim {
                Some(s.clone())
            } else {
                None
            },
            None => None,
        };
        let piece = match known {
            Some(s) => Ok(s),
            None => write_piece(&entry.value),
        };
        assert(text_result(piece) == piece_of(all[i as int]));
        match piece {
            Ok(s) => {
                terminate(&mut out);
                out.append(s.as_str());
                pieces.push(s);
            },
            Err(e) => {
                proof {
                    lemma_composed_err(head@, all, (i + 1) as nat);
                }
                return Err(e);
            },
        }
        i += 1;
    }
    assert(all.take(i as int) =~= all);
    Ok((out, pieces))
}

/// Where the first `n` entries cannot be written, all of them cannot.
proof fn lemma_composed_err(head: Seq<char>, entries: Seq<EntryView>, n: nat)
    requires
        n <= entries.len(),
        composed(head, entries.take(n as int)) is Err,
    ensures
        composed(head, entries) == composed(head, entries.take(n as int)),
    decreases entries.len() - n,
{
    if n == entries.len() {
        assert(entries.take(n as int) =~= entries);
    } else {
        assert(entries.take(n as int + 1).drop_last() =~= entries.take(n as int));
        lemma_composed_err(head, entries, n + 1);
    }
}

/// The documents of some entries.
fn values_in(entries: &Vec<PatchEntry>) -> (r: Vec<Datum>)
    ensures
        items_view(r@) == values_of(entry_views(entries@)),
{
    let mut out: Vec<Datum> = Vec::new();
    let mut i: usize = 0;
    while i < entries.len()
        invariant
            i <= entries@.len(),
            out@.len() == i,
            forall|j: int| 0 <= j < i ==> (#[trigger] out@[j])@ == entries@[j].value@,
        decreases entries@.len() - i,
    {
        out.push(entries[i].value.clone());
        i += 1;
    }
    assert(items_view(out@) =~= values_of(entry_views(entries@)));
    out
}

/// Whether a text is read as these entries.
fn check_reading(text: &str, values: &Datum) -> (r: bool)
    requires
        well_formed(values@),
        values@ is List,
    ensures
        r == reads_as(text@, values@->List_0),
        r ==> reads_well(text@),
{
    broadcast use lemma_list_view;
    match read_patch_entries(text) {
        Ok(x) => Datum::List(x).same_as(values),
        Err(_) => false,
    }
}

/// Whether a text falls apart into a head and pieces.
fn check_pieces(text: &str, head: &str, pieces: &Vec<String>) -> (r: bool)
    ensures
        r == pieces_fit(text@, head@, texts(pieces@)),
{
    let found = split_blocks(&split_lines(text), 0);
    let ghost b = blocks_of(text@, 0);
    let ghost all = texts(pieces@);
    assert(found@ == b);
    let mut front = head.to_owned();
    terminate(&mut front);
    if !text_eq(found.head.as_str(), front.as_str()) || found.blocks.len() != pieces.len() {
        return false;
    }
    let n: usize = pieces.len();
    let mut i: usize = 0;
    while i < n
        invariant
            i <= n,
            n == pieces@.len(),
            n == found.blocks@.len(),
            b.blocks == texts(found.blocks@),
            all == texts(pieces@),
            b == blocks_of(text@, 0),
            b.head == terminated(head@),
            forall|j: int|
                0 <= j < i ==> #[trigger] b.blocks[j] == (if j < n - 1 {
                    terminated(all[j])
                } else {
                    all[j]
                }),
        decreases n - i,
    {
        let mut piece = pieces[i].clone();
        if i < n - 1 {
            terminate(&mut piece);
        }
        assert(b.blocks[i as int] == found.blocks@[i as int]@);
        if !text_eq(found.blocks[i].as_str(), piece.as_str()) {
            return false;
        }
        i += 1;
    }
    true
}

/// The text of a file as it is put together, where that holds its entries; without the
/// adapted texts where `adapted` is not set.
fn try_text(p: &Patch, values: &Datum, adapted: bool) -> (r: Option<String>)
    requires
        entries_well_formed(p@.entries),
        well_formed(values@),
        values@ == Tree::List(values_of(p@.entries)),
    ensures
        ({
            let all = chosen(p@.entries, adapted);
            match r {
                Some(text) => composed(p@.head, all) == Ok::<Seq<char>, Seq<char>>(text@)
                    && is_text_of(text@, p@.head, all) && reads_well(text@),
                None => composed(p@.head, all) matches Ok(text) ==> !is_text_of(text, p@.head, all),
            }
        }),
{
    let ghost all = chosen(p@.entries, adapted);
    match compose(p.head.as_str(), &p.entries, adapted) {
        Ok((text, pieces)) => {
            proof {
                assert(values_of(all) =~= values_of(p@.entries));
                assert(values@->List_0 == values_of(all));
                assert(Seq::new(all.len(), |i: int| piece_of(all[i])->Ok_0) =~= texts(pieces@));
            }
            if check_reading(text.as_str(), values) && check_pieces(
                text.as_str(),
                p.head.as_str(),
                &pieces,
            ) {
                Some(text)
            } else {
                None
            }
        },
        Err(_) => None,
    }
}

/// The text of a file.
pub fn write_patch(p: &Patch) -> (r: Result<String, AppError>)
    requires
        entries_well_formed(p@.entries),
    ensures
        match r {
            Ok(t) => patch_text(p@) == Ok::<Seq<char>, ErrorView>(t@),
            Err(e) => patch_text(p@) == Err::<Seq<char>, ErrorView>(e@),
        },
        settles(p@) ==> text_holds(p@),
{
    broadcast use lemma_list_view;
    proof {
        assert(values_of(verbatim_only(p@.entries)) =~= values_of(p@.entries));
    }
    let list = values_in(&p.entries);
    let ghost all = values_of(p@.entries);
    assert(items_view(list@) == all);
    let values = Datum::List(list);
    proof {
        assert forall|i: int| 0 <= i < all.len() implies well_formed(#[trigger] all[i]) by {
            assert(well_formed(p@.entries[i].value));
        }
        assert(values@ == Tree::List(all));
        assert(values@->List_0 == all);
        assert(well_formed(values@));
    }
    if p.entries.len() > 0 {
        if let Some(t) = try_text(p, &values, true) {
            return Ok(t);
        }
        if let Some(t) = try_text(p, &values, false) {
            return Ok(t);
        }
    }
    if let Ok(t) = write_marked(&values) {
        if check_reading(t.as_str(), &values) {
            return Ok(t);
        }
    }
    let written = write_yaml(&values);
    proof {
        if is_storable(values@) {
            lemma_retagged_storable(values@, 128);
            lemma_same_reflexive(values@);
        }
    }
    match written {
        Ok(t) => Ok(t),
        Err(e) => Err(
            AppError::Config(glue("Failed to serialize dsh cordis.patch.yml: ", e.as_str())),
        ),
    }
}

/// What is to be done to the file so that it holds `p`. `raw` is the text of the
/// file, where there is one; none is made for the sake of no entries, and one that
/// holds these entries stays as it is.
pub open spec fn patch_planned(raw: Option<Seq<char>>, p: PatchView) -> Result<
    PlanView,
    ErrorView,
> {
    if raw is None && p.entries.len() == 0 {
        Ok(PlanView::Keep)
    } else if p.entries.len() > 0 && (raw matches Some(text) && reads_as(
        text,
        values_of(p.entries),
    )) {
        Ok(PlanView::Keep)
    } else {
        match patch_text(p) {
            Ok(text) => Ok(plan_of(text_in(raw), text)),
            Err(e) => Err(e),
        }
    }
}

/// The text of a file; a file that is not there has none.
pub open spec fn text_in(raw: Option<Seq<char>>) -> Seq<char> {
    match raw {
        Some(text) => text,
        None => Seq::empty(),
    }
}

/// What is to be done to the file so that it holds `p`.
pub fn plan_patch(raw: Option<&str>, p: &Patch) -> (r: Result<WritePlan, AppError>)
    requires
        entries_well_formed(p@.entries),
    ensures
        outcome(r) == patch_planned(
            match raw {
                Some(text) => Some(text@),
                None => None,
            },
            p@,
        ),
        settles(p@) ==> text_holds(p@),
{
    broadcast use lemma_list_view;
    let text = write_patch(p);
    if p.entries.len() == 0 {
        if raw.is_none() {
            return Ok(WritePlan::Keep);
        }
    } else if let Some(raw) = raw {
        let list = values_in(&p.entries);
        let ghost all = values_of(p@.entries);
        assert(items_view(list@) == all);
        let values = Datum::List(list);
        proof {
            assert forall|i: int| 0 <= i < all.len() implies well_formed(#[trigger] all[i]) by {
                assert(well_formed(p@.entries[i].value));
            }
            assert(values@ == Tree::List(all));
            assert(values@->List_0 == all);
            assert(well_formed(values@));
        }
        if check_reading(raw, &values) {
            return Ok(WritePlan::Keep);
        }
    }
    match text {
        Ok(text) => match raw {
            Some(raw) => Ok(plan_write(raw, text)),
            None => {
                proof {
                    reveal_strlit("");
                    assert(""@ =~= Seq::<char>::empty());
                }
                Ok(plan_write("", text))
            },
        },
        Err(e) => Err(e),
    }
}

/// The texts of the first `k` blocks of a file, behind its head, are what the file
/// begins with.
proof fn lemma_composed_blocks(raw: Seq<char>, values: Seq<Tree>, k: nat)
    requires
        blocks_of(raw, 0).blocks.len() == values.len(),
        k <= values.len(),
    ensures
        composed(located(raw, values).head, located(raw, values).entries.take(k as int)) == Ok::<
            Seq<char>,
            Seq<char>,
        >(blocks_of(raw, 0).head + joined(blocks_of(raw, 0).blocks.take(k as int))),
    decreases k,
{
    let b = blocks_of(raw, 0);
    let p = located(raw, values);
    if k == 0 {
        assert(b.head + joined(b.blocks.take(0)) =~= b.head);
    } else {
        let before = b.blocks.take(k - 1);
        lemma_composed_blocks(raw, values, (k - 1) as nat);
        lemma_blocks_separate(raw, 0);
        assert(p.entries.take(k as int).drop_last() =~= p.entries.take(k - 1));
        assert(p.entries.take(k as int).last() == p.entries[k - 1]);
        assert(b.blocks.take(k as int).drop_last() =~= before);
        assert(b.blocks.take(k as int).last() == b.blocks[k - 1]);
        let text = b.head + joined(before);
        assert(terminated(text) == text) by {
            if k > 1 {
                assert(ends_line(b.blocks[k - 2]));
                assert(before.last() == b.blocks[k - 2]);
                assert(text.last() == b.blocks[k - 2].last());
            } else {
                assert(text =~= b.head);
            }
        }
        assert(text + b.blocks[k - 1] =~= b.head + joined(b.blocks.take(k as int)));
    }
}

/// A file whose entries are not changed keeps its text to the letter, where the
/// text has one block for each entry.
pub proof fn law_untouched_text(raw: Seq<char>, values: Seq<Tree>)
    requires
        entries_in(raw) == Ok::<Seq<Tree>, ErrorView>(values),
        values.len() > 0,
        blocks_of(raw, 0).blocks.len() == values.len(),
    ensures
        patch_of(raw) == Ok::<PatchView, ErrorView>(located(raw, values)),
        patch_text(located(raw, values)) == Ok::<Seq<char>, ErrorView>(raw),
        patch_planned(Some(raw), located(raw, values)) == Ok::<PlanView, ErrorView>(PlanView::Keep),
{
    let p = located(raw, values);
    lemma_composed_blocks(raw, values, values.len());
    law_blocks_joined(raw, 0);
    assert(p.entries.take(values.len() as int) =~= p.entries);
    assert(blocks_of(raw, 0).blocks.take(values.len() as int) =~= blocks_of(raw, 0).blocks);
    assert(values_of(p.entries) =~= values);
    lemma_same_reflexive(Tree::List(values));
    lemma_located_apart(raw, values);
}

/// A text falls apart into the texts of the entries that it was found to have.
proof fn lemma_located_apart(raw: Seq<char>, values: Seq<Tree>)
    requires
        values.len() > 0,
        blocks_of(raw, 0).blocks.len() == values.len(),
    ensures
        falls_apart(raw, located(raw, values).head, located(raw, values).entries),
{
    let b = blocks_of(raw, 0);
    let p = located(raw, values);
    lemma_blocks_separate(raw, 0);
    let pieces = Seq::new(p.entries.len(), |i: int| piece_of(p.entries[i])->Ok_0);
    assert(pieces =~= b.blocks);
    assert forall|i: int| 0 <= i < pieces.len() implies #[trigger] b.blocks[i] == (if i
        < pieces.len() - 1 {
        terminated(pieces[i])
    } else {
        pieces[i]
    }) by {
        if i < pieces.len() - 1 {
            assert(ends_line(b.blocks[i]));
        }
    }
}

/// A text stands somewhere in another.
pub open spec fn is_part(part: Seq<char>, whole: Seq<char>) -> bool {
    exists|i: int|
        0 <= i <= whole.len() - part.len() && #[trigger] whole.subrange(i, i + part.len()) == part
}

/// The texts of the entries stand in the text that is put together of them.
proof fn lemma_composed_parts(head: Seq<char>, entries: Seq<EntryView>, i: int)
    requires
        0 <= i < entries.len(),
        entries[i].source is Some,
        composed(head, entries) is Ok,
    ensures
        is_part(entries[i].source->0, composed(head, entries)->Ok_0),
    decreases entries.len(),
{
    let part = entries[i].source->0;
    let whole = composed(head, entries)->Ok_0;
    let before = composed(head, entries.drop_last())->Ok_0;
    if i == entries.len() - 1 {
        let at = terminated(before).len() as int;
        assert(whole.subrange(at, at + part.len()) =~= part);
    } else {
        assert(entries.drop_last()[i] == entries[i]);
        lemma_composed_parts(head, entries.drop_last(), i);
        let at = choose|at: int|
            0 <= at <= before.len() - part.len() && #[trigger] before.subrange(at, at + part.len())
                == part;
        assert(before.subrange(at, at + part.len()) == part);
        assert forall|j: int| 0 <= j < part.len() implies whole[at + j] == part[j] by {
            assert(before.subrange(at, at + part.len())[j] == before[at + j]);
        }
        assert(whole.subrange(at, at + part.len()) =~= part);
    }
}

/// What is written for a file is read as its entries, unless there was nothing for
/// it but to write the whole file anew.
pub proof fn law_text_reads_back(p: PatchView, text: Seq<char>)
    requires
        patch_text(p) == Ok::<Seq<char>, ErrorView>(text),
    ensures
        is_pieced(p) ==> reads_as(text, values_of(p.entries)),
        !is_pieced(p) ==> rewritten(values_of(p.entries)) == Ok::<Seq<char>, ErrorView>(text),
{
    assert(values_of(verbatim_only(p.entries)) =~= values_of(p.entries));
}

/// An entry that is not changed keeps its text to the letter, wherever the text of the
/// file can be put together.
pub proof fn law_verbatim_stays(p: PatchView, i: int)
    requires
        0 <= i < p.entries.len(),
        p.entries[i].verbatim,
        p.entries[i].source is Some,
        is_pieced(p),
    ensures
        patch_text(p) is Ok,
        is_part(p.entries[i].source->0, patch_text(p)->Ok_0),
{
    if composed(p.head, p.entries) matches Ok(t) && is_text_of(t, p.head, p.entries) {
        lemma_composed_parts(p.head, p.entries, i);
    } else {
        lemma_composed_parts(p.head, verbatim_only(p.entries), i);
    }
}

} // verus!
