//! The configuration of zcode (ZCode, the desktop IDE of z.ai).
//!
//! zcode keeps two JSON files in its home directory. `v2/config.json` holds the
//! providers under `provider`; `cli/config.json` holds the settings of the agent,
//! and the MCP servers under `mcp`.
//!
//! A provider is handed in and out in a flat form, `{kind, baseURL, apiKey,
//! apiKeyRequired?, headers?, models?: [{id, ..}], displayName?}`. In the file
//! `displayName` is `name`, the four connection keys are in `options`, `models` is
//! a mapping by `id`, and `source` is always `custom`. Whatever else the file holds
//! of a provider stays.
//!
//! zcode throws all providers away where it cannot parse one of them. So a
//! provider with a key or a `kind` that zcode does not accept is refused.
//!
//! The functions here take the texts of the files (the empty text where there is
//! no file) and return what is to be done to them.

use vstd::prelude::*;

use crate::backup::{
    backup_name, backup_prefix, expired, expired_backups, file_views, is_first_free, prefix_of,
    BackupFile, BackupView,
};
use crate::dsh_config::{
    find_nameless, first_nameless, has_text, holds_text, nameless, nameless_error,
};
use crate::error::{outcome, AppError, ErrorView};
use crate::json::{json_keeps, json_parsed, json_pretty, parse_json, text_result, write_json_pretty};
use crate::merge::{fill, overlay};
use crate::plan::{backup_of, carried_out, plan_of, plan_write, PlanView, WritePlan};
use crate::snippet::{
    applied_to, apply_snippet, is_applied, snippet_applied, take_snippet, taken_from,
};
use crate::text::{
    alphanumeric, blank, chars_of, clone_text, glue, is_alphanumeric, is_blank, is_space,
    optional_text, text_eq, texts, trim_text, trimmed_text,
};
use crate::tree::{
    field, filled, has_key, is_exact, is_json, lemma_entry_well_formed, lemma_filtered_well_formed,
    lemma_item_well_formed, lemma_untagged, lemma_with_key_well_formed, lookup, overlaid,
    text_field, text_of, with_key, without_key, Entries, Tree,
};
use crate::value::{items_view, lemma_list_view, lemma_mapping_view, Datum, Table};
use crate::zcode_laws::{
    law_set_then_get, law_snippet_applied, removal_sticks, set_comes_back, snippet_leaves,
    snippet_sticks,
};

verus! {

// ----------------------------------------------------------------------------
// Files
// ----------------------------------------------------------------------------

/// The place of `v2/config.json` below the home directory of zcode.
pub fn get_zcode_settings_path() -> (r: Vec<String>)
    ensures
        texts(r@) == seq!["v2"@, "config.json"@],
{
    let r: Vec<String> = vec!["v2".to_owned(), "config.json".to_owned()];
    assert(texts(r@) =~= seq!["v2"@, "config.json"@]);
    r
}

/// The place of `cli/config.json` below the home directory of zcode.
pub fn get_zcode_cli_config_path() -> (r: Vec<String>)
    ensures
        texts(r@) == seq!["cli"@, "config.json"@],
{
    let r: Vec<String> = vec!["cli".to_owned(), "config.json".to_owned()];
    assert(texts(r@) =~= seq!["cli"@, "config.json"@]);
    r
}

/// The result of writing a file of zcode.
#[derive(Debug)]
pub struct ZcodeWriteOutcome {
    /// Where what the file held before was saved.
    pub backup_path: Option<String>,
}

impl Default for ZcodeWriteOutcome {
    fn default() -> (r: Self)
        ensures
            r.backup_path is None,
    {
        ZcodeWriteOutcome { backup_path: None }
    }
}

impl Clone for ZcodeWriteOutcome {
    fn clone(&self) -> (r: Self)
        ensures
            optional_text(r.backup_path) == optional_text(self.backup_path),
    {
        ZcodeWriteOutcome { backup_path: clone_text(&self.backup_path) }
    }
}

impl ZcodeWriteOutcome {
    /// The result of carrying out a plan, given where the copy was put.
    pub fn of(plan: &WritePlan, backup_path: Option<String>) -> (r: ZcodeWriteOutcome)
        ensures
            r.backup_path == (if plan@ matches PlanView::Write { text: _, backup } && backup {
                backup_path
            } else {
                None
            }),
    {
        ZcodeWriteOutcome { backup_path: backup_of(plan, backup_path) }
    }
}

/// The entries of a file, given what its text was read as.
pub open spec fn object_read(path: Seq<char>, parsed: Result<Tree, Seq<char>>) -> Result<
    Entries,
    ErrorView,
> {
    match parsed {
        Ok(Tree::Mapping(m)) => Ok(m),
        Ok(_) => Err(
            ErrorView::Config("zcode config "@ + path + " top level must be a JSON object"@),
        ),
        Err(e) => Err(
            ErrorView::Config("Failed to parse zcode config "@ + path + " as JSON: "@ + e),
        ),
    }
}

/// The entries that the text of the file at `path` holds: none where it is blank.
pub open spec fn object_of(path: Seq<char>, raw: Seq<char>) -> Result<Entries, ErrorView> {
    if is_blank(raw) {
        Ok(Seq::empty())
    } else {
        object_read(path, json_parsed(raw))
    }
}

/// The content of what a text was read as.
pub open spec fn parsed_view(parsed: Result<Datum, String>) -> Result<Tree, Seq<char>> {
    match parsed {
        Ok(v) => Ok(v@),
        Err(e) => Err(e@),
    }
}

/// The entries of a file, given what its text was read as. What is not an object
/// is not overwritten.
pub fn object_from(path: &str, parsed: Result<Datum, String>) -> (r: Result<Table, AppError>)
    requires
        parsed matches Ok(v) ==> is_json(v@),
    ensures
        outcome(r) == object_read(path@, parsed_view(parsed)),
        r matches Ok(m) ==> is_json(Tree::Mapping(m@)),
{
    broadcast use lemma_mapping_view;
    match parsed {
        Ok(Datum::Mapping(m)) => Ok(m),
        Ok(_) => Err(
            AppError::Config(
                glue(glue("zcode config ", path).as_str(), " top level must be a JSON object"),
            ),
        ),
        Err(e) => Err(
            AppError::Config(
                glue(
                    glue(glue("Failed to parse zcode config ", path).as_str(), " as JSON: ").as_str(),
                    e.as_str(),
                ),
            ),
        ),
    }
}

/// Reads the entries from the text of the file at `path`.
fn read_json_object(path: &str, raw: &str) -> (r: Result<Table, AppError>)
    ensures
        outcome(r) == object_of(path@, raw@),
        r matches Ok(m) ==> is_json(Tree::Mapping(m@)),
{
    if blank(raw) {
        Ok(Table::new())
    } else {
        object_from(path, parse_json(raw))
    }
}

/// Reads the entries of `v2/config.json`.
pub fn read_zcode_settings(path: &str, raw: &str) -> (r: Result<Table, AppError>)
    ensures
        outcome(r) == object_of(path@, raw@),
        r matches Ok(m) ==> is_json(Tree::Mapping(m@)),
{
    read_json_object(path, raw)
}

/// Reads the entries of `cli/config.json`.
pub fn read_zcode_cli_config(path: &str, raw: &str) -> (r: Result<Table, AppError>)
    ensures
        outcome(r) == object_of(path@, raw@),
        r matches Ok(m) ==> is_json(Tree::Mapping(m@)),
{
    read_json_object(path, raw)
}

/// What is to be done to a file, given what its new content was written as: a
/// line break comes behind it.
pub open spec fn object_planned(raw: Seq<char>, written: Result<Seq<char>, Seq<char>>) -> Result<
    PlanView,
    ErrorView,
> {
    match written {
        Ok(text) => Ok(plan_of(raw, text.push('\n'))),
        Err(e) => Err(ErrorView::JsonSerialize(e)),
    }
}

/// What is to be done to a file, given what its new content was written as.
pub fn object_plan(raw: &str, written: Result<String, String>) -> (r: Result<WritePlan, AppError>)
    ensures
        outcome(r) == object_planned(raw@, text_result(written)),
{
    match written {
        Ok(text) => {
            let mut text = text;
            text.push('\n');
            Ok(plan_write(raw, text))
        },
        Err(e) => Err(AppError::JsonSerialize(e)),
    }
}

/// A file that holds `raw`, and is to hold these entries, is read as these entries
/// once that is done.
pub open spec fn stored(path: Seq<char>, raw: Seq<char>, root: Entries) -> bool {
    object_planned(raw, json_pretty(Tree::Mapping(root))) matches Ok(plan) && object_of(
        path,
        carried_out(raw, plan),
    ) == Ok::<Entries, ErrorView>(root)
}

proof fn lemma_stored(path: Seq<char>, raw: Seq<char>, root: Entries)
    requires
        json_keeps(Tree::Mapping(root)),
    ensures
        stored(path, raw, root),
{
    let text = json_pretty(Tree::Mapping(root))->Ok_0;
    let i = choose|i: int| 0 <= i < text.len() && !is_space(#[trigger] text[i]);
    assert(!is_space(text.push('\n')[i]));
}

/// What is to be done to a file, which holds `raw`, so that it holds these entries.
fn write_json_object(raw: &str, root: &Table) -> (r: Result<WritePlan, AppError>)
    requires
        is_json(Tree::Mapping(root@)),
    ensures
        outcome(r) == object_planned(raw@, json_pretty(Tree::Mapping(root@))),
        is_exact(Tree::Mapping(root@)) ==> forall|path: Seq<char>| #[trigger]
            stored(path, raw@, root@),
{
    broadcast use lemma_mapping_view;
    let doc = Datum::Mapping(root.clone());
    let written = write_json_pretty(&doc);
    proof {
        if is_exact(Tree::Mapping(root@)) {
            assert forall|path: Seq<char>| #[trigger] stored(path, raw@, root@) by {
                lemma_stored(path, raw@, root@);
            }
        }
    }
    object_plan(raw, written)
}

/// What is to be done to `v2/config.json` so that it holds these entries. Nothing,
/// where it does already.
pub fn write_zcode_settings(raw: &str, root: &Table) -> (r: Result<WritePlan, AppError>)
    requires
        is_json(Tree::Mapping(root@)),
    ensures
        outcome(r) == object_planned(raw@, json_pretty(Tree::Mapping(root@))),
        is_exact(Tree::Mapping(root@)) ==> forall|path: Seq<char>| #[trigger]
            stored(path, raw@, root@),
{
    write_json_object(raw, root)
}

/// What is to be done to `cli/config.json` so that it holds these entries. Nothing,
/// where it does already.
pub fn write_zcode_cli_config(raw: &str, root: &Table) -> (r: Result<WritePlan, AppError>)
    requires
        is_json(Tree::Mapping(root@)),
    ensures
        outcome(r) == object_planned(raw@, json_pretty(Tree::Mapping(root@))),
        is_exact(Tree::Mapping(root@)) ==> forall|path: Seq<char>| #[trigger]
            stored(path, raw@, root@),
{
    write_json_object(raw, root)
}

/// The entries of the object under a name: none where there is nothing there, or
/// something else than an object.
pub open spec fn object_under(m: Entries, name: Seq<char>) -> Entries {
    match lookup(m, Tree::Text(name)) {
        Some(Tree::Mapping(x)) => x,
        _ => Seq::empty(),
    }
}

/// The entries of the object under a name.
pub fn child_object(m: &Table, name: &str) -> (r: Table)
    requires
        is_json(Tree::Mapping(m@)),
    ensures
        r@ == object_under(m@, name@),
        is_json(Tree::Mapping(r@)),
{
    broadcast use lemma_mapping_view;
    match m.get(name) {
        Some(Datum::Mapping(x)) => x.clone(),
        _ => Table::new(),
    }
}

// ----------------------------------------------------------------------------
// The two forms of a provider
// ----------------------------------------------------------------------------

/// The models of the file as a list, each with its `id`. What is not a mapping
/// stays as it is.
pub open spec fn models_listed(t: Tree) -> Tree {
    match t {
        Tree::Mapping(m) => Tree::List(
            Seq::new(
                m.len(),
                |i: int|
                    Tree::Mapping(
                        with_key(
                            match m[i].1 {
                                Tree::Mapping(x) => x,
                                _ => Seq::empty(),
                            },
                            Tree::Text("id"@),
                            m[i].0,
                        ),
                    ),
            ),
        ),
        _ => t,
    }
}

/// The models of the file as a list.
#[verifier::rlimit(30)]
pub fn models_map_to_array(value: &Datum) -> (r: Datum)
    requires
        is_json(value@),
    ensures
        r@ == models_listed(value@),
        is_json(r@),
{
    broadcast use lemma_mapping_view, lemma_list_view;
    match value {
        Datum::Mapping(m) => {
            let ghost all = models_listed(value@)->List_0;
            let mut out: Vec<Datum> = Vec::new();
            let mut i: usize = 0;
            while i < m.entries.len()
                invariant
                    i <= m.entries@.len(),
                    is_json(Tree::Mapping(m@)),
                    all == models_listed(Tree::Mapping(m@))->List_0,
                    out@.len() == i,
                    forall|j: int| 0 <= j < i ==> (#[trigger] out@[j])@ == all[j] && is_json(all[j]),
                decreases m.entries@.len() - i,
            {
                broadcast use lemma_mapping_view;
                proof {
                    lemma_entry_well_formed(m@, i as int);
                }
                assert(m@[i as int] == (m.entries@[i as int].0@, m.entries@[i as int].1@));
                let mut item = match &m.entries[i].1 {
                    Datum::Mapping(x) => x.clone(),
                    _ => Table::new(),
                };
                let ghost fields = item@;
                assert(is_json(Tree::Mapping(fields)));
                item.insert("id", m.entries[i].0.clone());
                out.push(Datum::Mapping(item));
                proof {
                    lemma_with_key_well_formed(fields, Tree::Text("id"@), m@[i as int].0);
                }
                assert(out@[i as int]@ == all[i as int]);
                assert(is_json(all[i as int]));
                i += 1;
            }
            assert(items_view(out@) =~= all);
            Datum::List(out)
        },
        _ => value.clone(),
    }
}

/// The first `n` models of a list as a mapping by their trimmed `id`. What is no
/// object, or has no `id`, is left out.
pub open spec fn models_collected(x: Seq<Tree>, n: nat) -> Entries
    decreases n,
{
    if n == 0 || n > x.len() {
        Seq::empty()
    } else {
        let before = models_collected(x, (n - 1) as nat);
        match x[n - 1] {
            Tree::Mapping(m) => match text_field(x[n - 1], "id"@) {
                Some(s) => match trimmed_text(s) {
                    Some(id) => with_key(
                        before,
                        Tree::Text(id),
                        Tree::Mapping(without_key(m, Tree::Text("id"@))),
                    ),
                    None => before,
                },
                None => before,
            },
            _ => before,
        }
    }
}

/// A list of models as the file holds it. What is not a list stays as it is.
pub open spec fn models_mapped(t: Tree) -> Tree {
    match t {
        Tree::List(x) => Tree::Mapping(models_collected(x, x.len())),
        _ => t,
    }
}

/// A list of models as the file holds it.
pub fn models_array_to_map(value: &Datum) -> (r: Datum)
    requires
        is_json(value@),
    ensures
        r@ == models_mapped(value@),
        is_json(r@),
{
    broadcast use lemma_mapping_view, lemma_list_view;
    match value {
        Datum::List(items) => {
            let mut map = Table::new();
            let mut i: usize = 0;
            while i < items.len()
                invariant
                    i <= items@.len(),
                    is_json(Tree::List(items_view(items@))),
                    map@ == models_collected(items_view(items@), i as nat),
                    is_json(Tree::Mapping(map@)),
                decreases items@.len() - i,
            {
                broadcast use lemma_mapping_view;
                proof {
                    lemma_item_well_formed(items_view(items@), i as int);
                    lemma_untagged(items_view(items@)[i as int]);
                }
                assert(items_view(items@)[i as int] == items@[i as int]@);
                if let Datum::Mapping(m) = &items[i] {
                    if let Some(s) = m.get_str("id") {
                        if let Some(id) = trim_text(s) {
                            let mut entry = m.clone();
                            let _ = entry.remove("id");
                            map.insert(id, Datum::Mapping(entry));
                        }
                    }
                }
                i += 1;
            }
            Datum::Mapping(map)
        },
        _ => value.clone(),
    }
}

/// `acc` with what `m` holds under a name.
pub open spec fn picked(acc: Entries, m: Entries, name: Seq<char>) -> Entries {
    match lookup(m, Tree::Text(name)) {
        Some(v) => with_key(acc, Tree::Text(name), v),
        None => acc,
    }
}

/// `acc` with what `m` holds under the four connection keys.
pub open spec fn options_picked(acc: Entries, m: Entries) -> Entries {
    let a = picked(acc, m, "apiKey"@);
    let b = picked(a, m, "baseURL"@);
    let c = picked(b, m, "apiKeyRequired"@);
    picked(c, m, "headers"@)
}

/// `acc` with what `m` holds under a name.
fn pick(acc: &mut Table, m: &Table, name: &str)
    requires
        is_json(Tree::Mapping(old(acc)@)),
        is_json(Tree::Mapping(m@)),
    ensures
        final(acc)@ == picked(old(acc)@, m@, name@),
        is_json(Tree::Mapping(final(acc)@)),
{
    if let Some(v) = m.get(name) {
        acc.insert(name, v.clone());
    }
}

/// `acc` with what `m` holds under the four connection keys.
fn pick_options(acc: &mut Table, m: &Table)
    requires
        is_json(Tree::Mapping(old(acc)@)),
        is_json(Tree::Mapping(m@)),
    ensures
        final(acc)@ == options_picked(old(acc)@, m@),
        is_json(Tree::Mapping(final(acc)@)),
{
    pick(acc, m, "apiKey");
    pick(acc, m, "baseURL");
    pick(acc, m, "apiKeyRequired");
    pick(acc, m, "headers");
}

/// The flat form of a provider with one more entry of the file: `name` becomes
/// `displayName`, the connection keys come out of `options`, the models become a
/// list, and `source` is dropped.
pub open spec fn flattened_step(flat: Entries, e: (Tree, Tree)) -> Entries {
    if e.0 == Tree::Text("name"@) {
        match text_of(e.1) {
            Some(s) => match trimmed_text(s) {
                Some(name) => with_key(flat, Tree::Text("displayName"@), Tree::Text(name)),
                None => flat,
            },
            None => flat,
        }
    } else if e.0 == Tree::Text("options"@) {
        match e.1 {
            Tree::Mapping(options) => options_picked(flat, options),
            _ => flat,
        }
    } else if e.0 == Tree::Text("models"@) {
        with_key(flat, Tree::Text("models"@), models_listed(e.1))
    } else if e.0 == Tree::Text("source"@) {
        flat
    } else {
        with_key(flat, e.0, e.1)
    }
}

/// The flat form of the first `n` entries of a provider.
pub open spec fn flattened(entry: Entries, n: nat) -> Entries
    decreases n,
{
    if n == 0 || n > entry.len() {
        Seq::empty()
    } else {
        flattened_step(flattened(entry, (n - 1) as nat), entry[n - 1])
    }
}

/// The flat form of a provider of the file.
pub fn flatten_provider_entry(entry: &Table) -> (r: Table)
    requires
        is_json(Tree::Mapping(entry@)),
    ensures
        r@ == flattened(entry@, entry@.len()),
        is_json(Tree::Mapping(r@)),
{
    let mut flat = Table::new();
    let mut i: usize = 0;
    while i < entry.entries.len()
        invariant
            i <= entry.entries@.len(),
            is_json(Tree::Mapping(entry@)),
            flat@ == flattened(entry@, i as nat),
            is_json(Tree::Mapping(flat@)),
        decreases entry.entries@.len() - i,
    {
        broadcast use lemma_mapping_view;
        proof {
            lemma_entry_well_formed(entry@, i as int);
        }
        let value = &entry.entries[i].1;
        assert(entry@[i as int] == (entry.entries@[i as int].0@, value@));
        if let Datum::Text(key) = &entry.entries[i].0 {
            if text_eq(key.as_str(), "name") {
                if let Some(s) = value.as_str() {
                    if let Some(name) = trim_text(s) {
                        flat.insert("displayName", Datum::text(name));
                    }
                }
            } else if text_eq(key.as_str(), "options") {
                if let Datum::Mapping(options) = value {
                    pick_options(&mut flat, options);
                }
            } else if text_eq(key.as_str(), "models") {
                flat.insert("models", models_map_to_array(value));
            } else if text_eq(key.as_str(), "source") {
            } else {
                flat.insert(key.as_str(), value.clone());
            }
        }
        i += 1;
    }
    flat
}

/// A key of the flat form that has its own place in the file.
pub open spec fn is_flat_key(k: Tree) -> bool {
    ||| k == Tree::Text("displayName"@)
    ||| k == Tree::Text("kind"@)
    ||| k == Tree::Text("source"@)
    ||| k == Tree::Text("models"@)
    ||| k == Tree::Text("apiKey"@)
    ||| k == Tree::Text("baseURL"@)
    ||| k == Tree::Text("apiKeyRequired"@)
    ||| k == Tree::Text("headers"@)
}

/// The entries of the flat form that have no place of their own in the file.
pub open spec fn other_keys(obj: Entries) -> Entries {
    obj.filter(|e: (Tree, Tree)| !is_flat_key(e.0))
}

/// The provider of the file for a flat form, without its other keys.
pub open spec fn built_known(obj: Entries) -> Entries {
    let a = match text_field(Tree::Mapping(obj), "displayName"@) {
        Some(s) => match trimmed_text(s) {
            Some(name) => with_key(Seq::empty(), Tree::Text("name"@), Tree::Text(name)),
            None => Seq::empty(),
        },
        None => Seq::empty(),
    };
    let b = picked(a, obj, "kind"@);
    let c = with_key(b, Tree::Text("source"@), Tree::Text("custom"@));
    let options = options_picked(Seq::empty(), obj);
    let d = if options.len() > 0 {
        with_key(c, Tree::Text("options"@), Tree::Mapping(options))
    } else {
        c
    };
    match lookup(obj, Tree::Text("models"@)) {
        Some(models) => with_key(d, Tree::Text("models"@), models_mapped(models)),
        None => d,
    }
}

/// The provider of the file for a flat form; other keys are passed through.
pub open spec fn built(obj: Entries) -> Entries {
    filled(built_known(obj), other_keys(obj))
}

/// The entries of the flat form that have no place of their own in the file.
fn pass_through(obj: &Table) -> (r: Table)
    requires
        is_json(Tree::Mapping(obj@)),
    ensures
        r@ == other_keys(obj@),
        is_json(Tree::Mapping(r@)),
{
    let ghost p = |e: (Tree, Tree)| !is_flat_key(e.0);
    let mut out = Table::new();
    let mut i: usize = 0;
    assert(obj@.take(0).filter(p) =~= Seq::<(Tree, Tree)>::empty()) by {
        reveal(Seq::filter);
    }
    while i < obj.entries.len()
        invariant
            i <= obj.entries@.len(),
            is_json(Tree::Mapping(obj@)),
            p == (|e: (Tree, Tree)| !is_flat_key(e.0)),
            out@ == obj@.take(i as int).filter(p),
        decreases obj.entries@.len() - i,
    {
        proof {
            lemma_entry_well_formed(obj@, i as int);
            reveal(Seq::filter);
            assert(obj@.take(i + 1).drop_last() =~= obj@.take(i as int));
            assert(obj@.take(i + 1).last() == obj@[i as int]);
        }
        if let Datum::Text(key) = &obj.entries[i].0 {
            let k = key.as_str();
            let known = text_eq(k, "displayName") || text_eq(k, "kind") || text_eq(k, "source")
                || text_eq(k, "models") || text_eq(k, "apiKey") || text_eq(k, "baseURL") || text_eq(
                k,
                "apiKeyRequired",
            ) || text_eq(k, "headers");
            if !known {
                out.append(obj.entries[i].0.clone(), obj.entries[i].1.clone());
            }
        }
        i += 1;
    }
    proof {
        assert(obj@.take(obj@.len() as int) =~= obj@);
        lemma_filtered_well_formed(obj@, p);
    }
    out
}

/// The provider of the file for a flat form.
pub fn build_provider_entry(obj: &Table) -> (r: Table)
    requires
        is_json(Tree::Mapping(obj@)),
    ensures
        r@ == built(obj@),
        is_json(Tree::Mapping(r@)),
{
    broadcast use lemma_mapping_view;
    let mut entry = Table::new();
    if let Some(s) = obj.get_str("displayName") {
        if let Some(name) = trim_text(s) {
            entry.insert("name", Datum::text(name));
        }
    }
    pick(&mut entry, obj, "kind");
    entry.insert("source", Datum::text("custom"));
    let mut options = Table::new();
    pick_options(&mut options, obj);
    if !options.is_empty() {
        entry.insert("options", Datum::Mapping(options));
    }
    if let Some(models) = obj.get("models") {
        entry.insert("models", models_array_to_map(models));
    }
    fill(entry, &pass_through(obj))
}

/// A provider with its options written over those that the file holds.
pub open spec fn options_overlaid(entry: Entries, existing: Entries) -> Entries {
    match (lookup(entry, Tree::Text("options"@)), lookup(existing, Tree::Text("options"@))) {
        (Some(Tree::Mapping(new)), Some(Tree::Mapping(old))) => with_key(
            entry,
            Tree::Text("options"@),
            Tree::Mapping(overlaid(old, new)),
        ),
        _ => entry,
    }
}

/// A provider written over what the file holds of it: the fields of the file stay in
/// their places, those that the provider mentions get its values, and its other
/// fields follow. The same holds of its options.
pub open spec fn preserving(entry: Entries, existing: Entries) -> Entries {
    overlaid(existing, options_overlaid(entry, existing))
}

/// A provider written over what the file holds of it.
pub fn merge_preserve_unknown(entry: Table, existing: &Table) -> (r: Table)
    requires
        is_json(Tree::Mapping(entry@)),
        is_json(Tree::Mapping(existing@)),
    ensures
        r@ == preserving(entry@, existing@),
        is_json(Tree::Mapping(r@)),
{
    broadcast use lemma_mapping_view;
    let mut entry = entry;
    let options = match (entry.get("options"), existing.get("options")) {
        (Some(Datum::Mapping(new)), Some(Datum::Mapping(old))) => Some(overlay(old, new)),
        _ => None,
    };
    if let Some(options) = options {
        entry.insert("options", Datum::Mapping(options));
    }
    overlay(existing, &entry)
}

// ----------------------------------------------------------------------------
// Providers
// ----------------------------------------------------------------------------

/// The first `n` providers of the file in their flat form, by trimmed name. What
/// has no name, or is no object, is left out.
pub open spec fn listed(providers: Entries, n: nat) -> Entries
    decreases n,
{
    if n == 0 || n > providers.len() {
        Seq::empty()
    } else {
        let before = listed(providers, (n - 1) as nat);
        match (providers[n - 1].0, providers[n - 1].1) {
            (Tree::Text(key), Tree::Mapping(entry)) => match trimmed_text(key) {
                Some(name) => with_key(
                    before,
                    Tree::Text(name),
                    Tree::Mapping(flattened(entry, entry.len())),
                ),
                None => before,
            },
            _ => before,
        }
    }
}

/// The providers of the file in their flat form.
pub open spec fn provider_list(root: Entries) -> Entries {
    listed(object_under(root, "provider"@), object_under(root, "provider"@).len())
}

/// Lists the providers of the file in their flat form.
pub fn list_providers(root: &Table) -> (r: Table)
    requires
        is_json(Tree::Mapping(root@)),
    ensures
        r@ == provider_list(root@),
        is_json(Tree::Mapping(r@)),
{
    broadcast use lemma_mapping_view;
    let providers = child_object(root, "provider");
    let mut list = Table::new();
    let mut i: usize = 0;
    while i < providers.entries.len()
        invariant
            i <= providers.entries@.len(),
            is_json(Tree::Mapping(providers@)),
            list@ == listed(providers@, i as nat),
            is_json(Tree::Mapping(list@)),
        decreases providers.entries@.len() - i,
    {
        broadcast use lemma_mapping_view;
        proof {
            lemma_entry_well_formed(providers@, i as int);
        }
        assert(providers@[i as int] == (
            providers.entries@[i as int].0@,
            providers.entries@[i as int].1@,
        ));
        if let Datum::Text(key) = &providers.entries[i].0 {
            if let Some(name) = trim_text(key.as_str()) {
                if let Datum::Mapping(entry) = &providers.entries[i].1 {
                    list.insert(name, Datum::Mapping(flatten_provider_entry(entry)));
                }
            }
        }
        i += 1;
    }
    list
}

/// What `v2/config.json` holds of providers.
pub open spec fn providers_read(path: Seq<char>, raw: Seq<char>) -> Result<Entries, ErrorView> {
    match object_of(path, raw) {
        Ok(root) => Ok(provider_list(root)),
        Err(e) => Err(e),
    }
}

/// All providers, by name, in their flat form.
pub fn get_providers(path: &str, raw: &str) -> (r: Result<Table, AppError>)
    ensures
        outcome(r) == providers_read(path@, raw@),
        r matches Ok(m) ==> is_json(Tree::Mapping(m@)),
{
    match read_zcode_settings(path, raw) {
        Ok(root) => Ok(list_providers(&root)),
        Err(e) => Err(e),
    }
}

/// The provider of a name, in its flat form.
pub fn get_provider(path: &str, raw: &str, key: &str) -> (r: Result<Option<Datum>, AppError>)
    ensures
        match r {
            Ok(Some(v)) => is_json(v@) && (providers_read(path@, raw@) matches Ok(m) && lookup(
                m,
                Tree::Text(key@),
            ) == Some(v@)),
            Ok(None) => providers_read(path@, raw@) matches Ok(m) && lookup(m, Tree::Text(key@)) is None,
            Err(e) => providers_read(path@, raw@) == Err::<Entries, ErrorView>(e@),
        },
{
    match get_providers(path, raw) {
        Ok(m) => match m.get(key) {
            Some(v) => Ok(Some(v.clone())),
            None => Ok(None),
        },
        Err(e) => Err(e),
    }
}

/// A provider as it goes into the file: with whatever the file holds of it, and
/// with its key for a name where it has none.
pub open spec fn entry_for(providers: Entries, key: Seq<char>, obj: Entries) -> Entries {
    let entry = match lookup(providers, Tree::Text(key)) {
        Some(Tree::Mapping(existing)) => preserving(built(obj), existing),
        _ => built(obj),
    };
    if has_key(entry, Tree::Text("name"@)) {
        entry
    } else {
        with_key(entry, Tree::Text("name"@), Tree::Text(key))
    }
}

/// The file with a provider written under its key.
pub open spec fn with_provider(root: Entries, key: Seq<char>, obj: Entries) -> Entries {
    let providers = object_under(root, "provider"@);
    with_key(
        root,
        Tree::Text("provider"@),
        Tree::Mapping(
            with_key(providers, Tree::Text(key), Tree::Mapping(entry_for(providers, key, obj))),
        ),
    )
}

/// The file with a provider, in its flat form, written under its key.
pub fn upsert_provider(root: Table, key: &str, obj: &Table) -> (r: Table)
    requires
        is_json(Tree::Mapping(root@)),
        is_json(Tree::Mapping(obj@)),
    ensures
        r@ == with_provider(root@, key@, obj@),
        is_json(Tree::Mapping(r@)),
{
    broadcast use lemma_mapping_view;
    let mut root = root;
    let mut providers = child_object(&root, "provider");
    let built = build_provider_entry(obj);
    let mut entry = match providers.get(key) {
        Some(Datum::Mapping(existing)) => merge_preserve_unknown(built, existing),
        _ => built,
    };
    if !entry.contains("name") {
        entry.insert("name", Datum::text(key));
    }
    providers.insert(key, Datum::Mapping(entry));
    root.insert("provider", Datum::Mapping(providers));
    root
}

/// What is wrong with a provider that is to be written, if anything: its key must
/// be one that zcode accepts, it must be an object, and its `kind`, where it has
/// one, must be one that zcode accepts.
pub open spec fn write_fault(key: Seq<char>, config: Tree) -> Option<ErrorView> {
    if !is_provider_key(key) {
        Some(bad_key(key))
    } else if !(config is Mapping) {
        Some(not_object())
    } else if field(config, "kind"@) matches Some(kind) && !is_kind(kind) {
        Some(bad_kind())
    } else {
        None
    }
}

/// Checks a provider that is to be written, before any file is read.
pub fn check_provider(key: &str, provider_config: &Datum) -> (r: Result<(), AppError>)
    requires
        is_json(provider_config@),
    ensures
        match r {
            Ok(_) => write_fault(key@, provider_config@) is None,
            Err(e) => write_fault(key@, provider_config@) == Some(e@),
        },
{
    broadcast use lemma_mapping_view;
    proof {
        lemma_untagged(provider_config@);
    }
    if let Err(e) = validate_zcode_provider_key(key) {
        return Err(e);
    }
    match provider_config {
        Datum::Mapping(obj) => match obj.get("kind") {
            Some(kind) => validate_zcode_kind(kind),
            None => Ok(()),
        },
        _ => Err(config_not_object()),
    }
}

/// What is to be done to `v2/config.json` so that it holds a provider.
pub open spec fn provider_set(path: Seq<char>, raw: Seq<char>, key: Seq<char>, config: Tree) -> Result<
    PlanView,
    ErrorView,
> {
    match write_fault(key, config) {
        Some(e) => Err(e),
        None => match object_of(path, raw) {
            Ok(root) => object_planned(
                raw,
                json_pretty(Tree::Mapping(with_provider(root, key, config->Mapping_0))),
            ),
            Err(e) => Err(e),
        },
    }
}

/// Writes the provider `provider.<key>`, given in its flat form. Fields that it
/// does not mention are kept, and so is everything else in the file. A key or a
/// `kind` that zcode does not accept is refused. What was written is read back.
pub fn set_provider(path: &str, raw: &str, key: &str, provider_config: &Datum) -> (r: Result<
    WritePlan,
    AppError,
>)
    requires
        is_json(provider_config@),
    ensures
        outcome(r) == provider_set(path@, raw@, key@, provider_config@),
        set_comes_back(path@, raw@, key@, provider_config@),
{
    broadcast use lemma_mapping_view;
    if let Err(e) = check_provider(key, provider_config) {
        return Err(e);
    }
    match provider_config {
        Datum::Mapping(obj) => match read_zcode_settings(path, raw) {
            Ok(root) => {
                let ghost before = root@;
                let r = write_zcode_settings(raw, &upsert_provider(root, key, obj));
                proof {
                    let after = with_provider(before, key@, obj@);
                    if is_exact(Tree::Mapping(after)) {
                        assert(stored(path@, raw@, after));
                    }
                    law_set_then_get(path@, raw@, key@, obj@, before);
                }
                r
            },
            Err(e) => Err(e),
        },
        _ => Err(config_not_object()),
    }
}

/// The file without a provider; nothing where there is no such provider.
pub open spec fn without_provider(root: Entries, key: Seq<char>) -> Option<Entries> {
    let providers = object_under(root, "provider"@);
    if has_key(providers, Tree::Text(key)) {
        Some(
            with_key(
                root,
                Tree::Text("provider"@),
                Tree::Mapping(without_key(providers, Tree::Text(key))),
            ),
        )
    } else {
        None
    }
}

/// The file without a provider.
pub fn drop_provider(root: Table, key: &str) -> (r: Option<Table>)
    requires
        is_json(Tree::Mapping(root@)),
    ensures
        without_provider(root@, key@) == (match r {
            Some(m) => Some(m@),
            None => None,
        }),
        r matches Some(m) ==> is_json(Tree::Mapping(m@)),
{
    broadcast use lemma_mapping_view;
    let mut root = root;
    let mut providers = child_object(&root, "provider");
    if providers.remove(key) {
        root.insert("provider", Datum::Mapping(providers));
        Some(root)
    } else {
        None
    }
}

/// What is to be done to `v2/config.json` so that it holds a provider no more.
pub open spec fn provider_removed(path: Seq<char>, raw: Seq<char>, key: Seq<char>) -> Result<
    PlanView,
    ErrorView,
> {
    match object_of(path, raw) {
        Ok(root) => match without_provider(root, key) {
            Some(m) => object_planned(raw, json_pretty(Tree::Mapping(m))),
            None => Ok(PlanView::Keep),
        },
        Err(e) => Err(e),
    }
}

/// Removes the provider `provider.<key>`. Nothing is to be done where there is no
/// such provider.
pub fn remove_provider(path: &str, raw: &str, key: &str) -> (r: Result<WritePlan, AppError>)
    ensures
        outcome(r) == provider_removed(path@, raw@, key@),
        removal_sticks(path@, raw@, key@),
{
    match read_zcode_settings(path, raw) {
        Ok(root) => match drop_provider(root, key) {
            Some(m) => write_zcode_settings(raw, &m),
            None => Ok(WritePlan::Keep),
        },
        Err(e) => Err(e),
    }
}

// ----------------------------------------------------------------------------
// Common configuration
// ----------------------------------------------------------------------------

/// The keys of `cli/config.json` that a snippet does not touch.
pub open spec fn protected_keys() -> Seq<Seq<char>> {
    seq!["mcp"@]
}

/// The keys of `cli/config.json` that a snippet does not touch.
fn protected_names() -> (r: Vec<String>)
    ensures
        texts(r@) == protected_keys(),
{
    let r: Vec<String> = vec!["mcp".to_owned()];
    assert(texts(r@) =~= protected_keys());
    r
}

/// The entries of a snippet, given what its text was read as.
pub open spec fn snippet_read(parsed: Result<Tree, Seq<char>>) -> Result<Entries, ErrorView> {
    match parsed {
        Ok(Tree::Mapping(m)) => Ok(m),
        Ok(_) => Err(ErrorView::Config("zcode common config snippet must be a JSON object"@)),
        Err(e) => Err(ErrorView::Config("Failed to parse zcode common config: "@ + e)),
    }
}

/// The entries that the text of a snippet holds: none where it is blank.
pub open spec fn snippet_of(snippet: Seq<char>) -> Result<Entries, ErrorView> {
    if is_blank(snippet) {
        Ok(Seq::empty())
    } else {
        snippet_read(json_parsed(snippet))
    }
}

/// The entries of a snippet, given what its text was read as.
pub fn snippet_from(parsed: Result<Datum, String>) -> (r: Result<Table, AppError>)
    requires
        parsed matches Ok(v) ==> is_json(v@),
    ensures
        outcome(r) == snippet_read(parsed_view(parsed)),
        r matches Ok(m) ==> is_json(Tree::Mapping(m@)),
{
    broadcast use lemma_mapping_view;
    match parsed {
        Ok(Datum::Mapping(m)) => Ok(m),
        Ok(_) => Err(
            AppError::Config("zcode common config snippet must be a JSON object".to_owned()),
        ),
        Err(e) => Err(AppError::Config(glue("Failed to parse zcode common config: ", e.as_str()))),
    }
}

/// Reads a snippet, which is a JSON object.
pub fn parse_common_config_snippet(snippet: &str) -> (r: Result<Table, AppError>)
    ensures
        outcome(r) == snippet_of(snippet@),
        r matches Ok(m) ==> is_json(Tree::Mapping(m@)),
{
    if blank(snippet) {
        Ok(Table::new())
    } else {
        snippet_from(parse_json(snippet))
    }
}

/// `cli/config.json` with a snippet merged in.
pub fn merge_common_config(root: &Table, snippet: &Table) -> (r: Table)
    requires
        is_json(Tree::Mapping(root@)),
        is_json(Tree::Mapping(snippet@)),
    ensures
        r@ == applied_to(root@, snippet@, protected_keys()),
        is_json(Tree::Mapping(r@)),
{
    apply_snippet(root, snippet, &protected_names())
}

/// `cli/config.json` with a snippet taken out.
pub fn strip_common_config(root: &Table, snippet: &Table) -> (r: Table)
    requires
        is_json(Tree::Mapping(root@)),
        is_json(Tree::Mapping(snippet@)),
    ensures
        r@ == taken_from(root@, snippet@, protected_keys(), true),
        is_json(Tree::Mapping(r@)),
{
    take_snippet(root, snippet, &protected_names(), true)
}

/// Whether `cli/config.json` holds everything in a snippet.
pub fn holds_common_config(root: &Table, snippet: &Table) -> (r: bool)
    requires
        is_json(Tree::Mapping(root@)),
        is_json(Tree::Mapping(snippet@)),
    ensures
        r == is_applied(root@, snippet@, protected_keys()),
{
    snippet_applied(root, snippet, &protected_names())
}

/// What is to be done to `cli/config.json` so that it holds a snippet.
pub open spec fn snippet_applying(path: Seq<char>, raw: Seq<char>, snippet: Seq<char>) -> Result<
    PlanView,
    ErrorView,
> {
    match snippet_of(snippet) {
        Ok(m) => if m.len() == 0 {
            Ok(PlanView::Keep)
        } else {
            match object_of(path, raw) {
                Ok(root) => object_planned(
                    raw,
                    json_pretty(Tree::Mapping(applied_to(root, m, protected_keys()))),
                ),
                Err(e) => Err(e),
            }
        },
        Err(e) => Err(e),
    }
}

/// Merges a snippet into `cli/config.json`. Its key `mcp` is left out.
pub fn apply_zcode_common_config(path: &str, raw: &str, snippet: &str) -> (r: Result<
    WritePlan,
    AppError,
>)
    ensures
        outcome(r) == snippet_applying(path@, raw@, snippet@),
        snippet_sticks(path@, raw@, snippet@),
{
    match parse_common_config_snippet(snippet) {
        Ok(m) => if m.is_empty() {
            Ok(WritePlan::Keep)
        } else {
            match read_zcode_cli_config(path, raw) {
                Ok(root) => {
                    let r = write_zcode_cli_config(raw, &merge_common_config(&root, &m));
                    proof {
                        let after = applied_to(root@, m@, protected_keys());
                        if is_exact(Tree::Mapping(after)) {
                            assert(stored(path@, raw@, after));
                        }
                        law_snippet_applied(path@, raw@, snippet@, root@, m@);
                    }
                    r
                },
                Err(e) => Err(e),
            }
        },
        Err(e) => Err(e),
    }
}

/// What is to be done to `cli/config.json` so that it does not hold a snippet.
pub open spec fn snippet_removing(path: Seq<char>, raw: Seq<char>, snippet: Seq<char>) -> Result<
    PlanView,
    ErrorView,
> {
    match snippet_of(snippet) {
        Ok(m) => if m.len() == 0 {
            Ok(PlanView::Keep)
        } else {
            match object_of(path, raw) {
                Ok(root) => object_planned(
                    raw,
                    json_pretty(Tree::Mapping(taken_from(root, m, protected_keys(), true))),
                ),
                Err(e) => Err(e),
            }
        },
        Err(e) => Err(e),
    }
}

/// Takes a snippet out of `cli/config.json`: of its values, those that still are
/// what the snippet says.
pub fn remove_zcode_common_config(path: &str, raw: &str, snippet: &str) -> (r: Result<
    WritePlan,
    AppError,
>)
    ensures
        outcome(r) == snippet_removing(path@, raw@, snippet@),
        snippet_leaves(path@, raw@, snippet@),
{
    match parse_common_config_snippet(snippet) {
        Ok(m) => if m.is_empty() {
            Ok(WritePlan::Keep)
        } else {
            match read_zcode_cli_config(path, raw) {
                Ok(root) => write_zcode_cli_config(raw, &strip_common_config(&root, &m)),
                Err(e) => Err(e),
            }
        },
        Err(e) => Err(e),
    }
}

/// `cli/config.json` holds everything in a snippet, and both can be read.
pub open spec fn snippet_held(path: Seq<char>, raw: Seq<char>, snippet: Seq<char>) -> bool {
    snippet_of(snippet) matches Ok(m) && (m.len() == 0 || (object_of(path, raw) matches Ok(root)
        && is_applied(root, m, protected_keys())))
}

/// Whether `cli/config.json` holds everything in a snippet.
pub fn zcode_common_config_applied(path: &str, raw: &str, snippet: &str) -> (r: bool)
    ensures
        r == snippet_held(path@, raw@, snippet@),
{
    match parse_common_config_snippet(snippet) {
        Ok(m) => if m.is_empty() {
            true
        } else {
            match read_zcode_cli_config(path, raw) {
                Ok(root) => holds_common_config(&root, &m),
                Err(_) => false,
            }
        },
        Err(_) => false,
    }
}

// ----------------------------------------------------------------------------
// Validation
// ----------------------------------------------------------------------------

/// A `kind` that zcode accepts.
pub open spec fn is_kind(t: Tree) -> bool {
    text_of(t) matches Some(s) && (s == "anthropic"@ || s == "openai"@ || s == "openai-compatible"@)
}

/// The error for a `kind` that zcode does not accept.
pub open spec fn bad_kind() -> ErrorView {
    ErrorView::Localized {
        key: "provider.zcode.invalidKind"@,
        zh: "kind 必须是以下之一: anthropic, openai, openai-compatible。⚠️ 写入非法 kind 会导致 ZCode 解析失败并清空全部 provider 配置！"@,
        en: "kind must be one of: anthropic, openai, openai-compatible. WARNING: an invalid kind makes ZCode fail to parse the config and wipes ALL provider entries!"@,
    }
}

/// Checks a `kind`.
pub fn validate_zcode_kind(value: &Datum) -> (r: Result<(), AppError>)
    ensures
        match r {
            Ok(_) => is_kind(value@),
            Err(e) => !is_kind(value@) && e@ == bad_kind(),
        },
{
    let valid = match value.as_str() {
        Some(s) => text_eq(s, "anthropic") || text_eq(s, "openai") || text_eq(s, "openai-compatible"),
        None => false,
    };
    if valid {
        Ok(())
    } else {
        Err(
            AppError::localized(
                "provider.zcode.invalidKind",
                "kind 必须是以下之一: anthropic, openai, openai-compatible。⚠️ 写入非法 kind 会导致 ZCode 解析失败并清空全部 provider 配置！",
                "kind must be one of: anthropic, openai, openai-compatible. WARNING: an invalid kind makes ZCode fail to parse the config and wipes ALL provider entries!",
            ),
        )
    }
}

/// A character of a provider key that zcode accepts.
pub open spec fn is_key_char(c: char) -> bool {
    is_alphanumeric(c) || c == '_' || c == ':' || c == '-'
}

/// A provider key that zcode accepts: one or more letters, digits, `_`, `:` and `-`.
pub open spec fn is_provider_key(key: Seq<char>) -> bool {
    key.len() > 0 && forall|i: int| 0 <= i < key.len() ==> is_key_char(#[trigger] key[i])
}

/// The error for a provider key that zcode does not accept.
pub open spec fn bad_key(key: Seq<char>) -> ErrorView {
    ErrorView::Localized {
        key: "provider.zcode.invalidProviderKey"@,
        zh: "provider key '"@ + key
            + "' 非法：仅允许字母、数字、'_'、':'、'-'。⚠️ 非法 id 会导致 ZCode 解析失败并清空全部 provider 配置！"@,
        en: "Invalid provider key '"@ + key
            + "': only letters, digits, '_', ':' and '-' are allowed. WARNING: an invalid id makes ZCode wipe ALL provider entries!"@,
    }
}

/// Checks a provider key.
pub fn validate_zcode_provider_key(key: &str) -> (r: Result<(), AppError>)
    ensures
        match r {
            Ok(_) => is_provider_key(key@),
            Err(e) => !is_provider_key(key@) && e@ == bad_key(key@),
        },
{
    let chars = chars_of(key);
    let mut valid = chars.len() > 0;
    let mut i: usize = 0;
    while i < chars.len()
        invariant
            i <= chars@.len(),
            chars@ == key@,
            valid == (key@.len() > 0 && forall|j: int| 0 <= j < i ==> is_key_char(#[trigger] key@[j])),
        decreases chars@.len() - i,
    {
        let c = chars[i];
        if !(alphanumeric(c) || c == '_' || c == ':' || c == '-') {
            valid = false;
        }
        i += 1;
    }
    if valid {
        Ok(())
    } else {
        Err(
            AppError::localized(
                "provider.zcode.invalidProviderKey",
                glue(
                    glue("provider key '", key).as_str(),
                    "' 非法：仅允许字母、数字、'_'、':'、'-'。⚠️ 非法 id 会导致 ZCode 解析失败并清空全部 provider 配置！",
                ).as_str(),
                glue(
                    glue("Invalid provider key '", key).as_str(),
                    "': only letters, digits, '_', ':' and '-' are allowed. WARNING: an invalid id makes ZCode wipe ALL provider entries!",
                ).as_str(),
            ),
        )
    }
}

/// The error for a provider that is no object.
pub open spec fn not_object() -> ErrorView {
    ErrorView::Localized {
        key: "provider.zcode.configNotObject"@,
        zh: "zcode 供应商配置必须是 JSON 对象"@,
        en: "zcode provider config must be a JSON object."@,
    }
}

/// The error for a provider that is no object.
fn config_not_object() -> (r: AppError)
    ensures
        r@ == not_object(),
{
    AppError::localized(
        "provider.zcode.configNotObject",
        "zcode 供应商配置必须是 JSON 对象",
        "zcode provider config must be a JSON object.",
    )
}

/// What is wrong with a provider in its flat form, if anything: it must be an
/// object; its `kind` must be one that zcode accepts; its `baseURL` must not be
/// blank; and its `models`, where it has any, must be a list, each with an `id`.
pub open spec fn provider_fault(config: Tree) -> Option<ErrorView> {
    if !(config is Mapping) {
        Some(not_object())
    } else {
        match field(config, "kind"@) {
            None => Some(
                ErrorView::Localized {
                    key: "provider.zcode.kindRequired"@,
                    zh: "kind 必填（anthropic / openai / openai-compatible 之一）"@,
                    en: "kind is required (one of: anthropic, openai, openai-compatible)."@,
                },
            ),
            Some(kind) => if !is_kind(kind) {
                Some(bad_kind())
            } else if !has_text(config, "baseURL"@) {
                Some(
                    ErrorView::Localized {
                        key: "provider.zcode.baseUrlRequired"@,
                        zh: "baseURL 不能为空"@,
                        en: "baseURL is required."@,
                    },
                )
            } else {
                match field(config, "models"@) {
                    None => None,
                    Some(Tree::List(models)) => match first_nameless(models, 0) {
                        Some(i) => Some(nameless_error("provider.zcode.modelIdRequired"@, i)),
                        None => None,
                    },
                    Some(_) => Some(
                        ErrorView::Localized {
                            key: "provider.zcode.modelsInvalid"@,
                            zh: "models 必须是数组"@,
                            en: "models must be an array."@,
                        },
                    ),
                }
            },
        }
    }
}

/// Checks a provider in its flat form.
pub fn validate_zcode_provider_config(config: &Datum) -> (r: Result<(), AppError>)
    requires
        is_json(config@),
    ensures
        match r {
            Ok(_) => provider_fault(config@) is None,
            Err(e) => provider_fault(config@) == Some(e@),
        },
{
    broadcast use lemma_mapping_view, lemma_list_view;
    proof {
        lemma_untagged(config@);
    }
    match config {
        Datum::Mapping(_) => {},
        _ => {
            return Err(config_not_object());
        },
    }
    match config.get("kind") {
        Some(kind) => {
            if let Err(e) = validate_zcode_kind(kind) {
                return Err(e);
            }
        },
        None => {
            return Err(
                AppError::localized(
                    "provider.zcode.kindRequired",
                    "kind 必填（anthropic / openai / openai-compatible 之一）",
                    "kind is required (one of: anthropic, openai, openai-compatible).",
                ),
            );
        },
    }
    if !holds_text(config, "baseURL") {
        return Err(
            AppError::localized(
                "provider.zcode.baseUrlRequired",
                "baseURL 不能为空",
                "baseURL is required.",
            ),
        );
    }
    match config.get("models") {
        Some(Datum::List(models)) => match find_nameless(models) {
            Some(i) => Err(nameless("provider.zcode.modelIdRequired", i)),
            None => Ok(()),
        },
        Some(_) => Err(
            AppError::localized(
                "provider.zcode.modelsInvalid",
                "models 必须是数组",
                "models must be an array.",
            ),
        ),
        None => Ok(()),
    }
}

// ----------------------------------------------------------------------------
// Copies
// ----------------------------------------------------------------------------

/// A name for a copy of a file of zcode that is made now, and that is not taken. The kind
/// is `providers` or `cli`.
pub fn create_zcode_backup(kind: &str, taken: &Vec<String>) -> (r: String)
    ensures
        exists|stamp: Seq<char>, n: nat| #[trigger]
            is_first_free(
                r@,
                prefix_of("zcode"@, kind@) + stamp,
                "json"@,
                texts(taken@),
                n,
            ),
{
    backup_name("zcode", kind, "json", taken)
}

/// The extensions of the copies of files of zcode.
pub open spec fn backup_extensions() -> Seq<Seq<char>> {
    seq!["json"@]
}

/// The names of the copies of one kind that are to be removed, the oldest first, so
/// that no more than `retain` are left.
pub fn cleanup_zcode_backups(files: &Vec<BackupFile>, kind: &str, retain: usize) -> (r: Vec<String>)
    ensures
        texts(r@) == expired(
            file_views(files@),
            prefix_of("zcode"@, kind@),
            backup_extensions(),
            retain as nat,
        ).map_values(|f: BackupView| f.name),
{
    let extensions: Vec<String> = vec!["json".to_owned()];
    assert(texts(extensions@) =~= backup_extensions());
    expired_backups(files, backup_prefix("zcode", kind).as_str(), &extensions, retain)
}

} // verus!
