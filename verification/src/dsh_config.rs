//! The configuration of dsh (DeepSeek Harness).
//!
//! dsh keeps two YAML files in its home directory. `settings.yaml` maps settings
//! namespaces to sections: `llm-pi-ai.providers` holds the providers, and
//! `agent-default-model` the provider and model in use. `.credentials.yaml` holds
//! the secrets under `refs`, by the reference name that a provider gives as
//! `apiKeyEnv`, beside `version` and `records`, which stay as they are.
//!
//! A provider is handed in and out as a JSON object with the names that dsh uses.
//! The one exception is `apiKey`: it is split off into `refs` on the way in, so
//! that no secret reaches `settings.yaml`, and filled in again on the way out.
//!
//! The functions here take the texts of the files (the empty text where there is
//! no file) and return what is to be done to them.

use vstd::prelude::*;

use crate::backup::{
    backup_name, backup_prefix, expired, expired_backups, file_views, is_first_free, prefix_of,
    BackupFile, BackupView,
};
use crate::dsh_laws::{
    converts, drop_sticks, law_credentials_stay, law_snippet_applied, law_switch_model,
    lemma_lists_plain, lemma_replacement, lemma_replacement_fails, lists_plain, model_sticks,
    removal_sticks, replacement_sticks, set_sticks, snippet_leaves, snippet_sticks,
};
use crate::error::{outcome, AppError, ErrorView};
use crate::json::{json_compact, text_result, write_json};
use crate::merge::fill;
use crate::numeric::{Numeric, NumericView};
use crate::plan::{backup_of, carried_out, plan_of, plan_write, PlanView, WritePlan};
use crate::snippet::{
    applied_to, apply_snippet, is_applied, snippet_applied, take_snippet, taken_from,
};
use crate::text::{
    blank, chars_of, clone_text, decimal, glue, is_blank, is_upper_or_digit, numeral, optional_text,
    text_eq, texts, to_upper, trim_text, trimmed_text, upper,
};
use crate::tree::{
    entries_of, field, filled, has_key, is_flow, is_json, is_plain, is_storable, items_of, key_at,
    lemma_entry_well_formed, lemma_item_well_formed, lemma_refilled, lemma_same_text,
    lemma_untagged, lookup, refilled, swapped_out, text_field, text_of, well_formed, with_key,
    Entries, Tree,
};
use crate::value::{items_view, lemma_list_view, lemma_mapping_view, Datum, Table};
use crate::yaml::{
    parse_yaml, parse_yaml_as_json, write_yaml, yaml_parsed, yaml_parsed_as_json, yaml_written,
};

verus! {

// ----------------------------------------------------------------------------
// Files
// ----------------------------------------------------------------------------

/// The place of `settings.yaml` below the home directory of dsh.
pub fn get_dsh_settings_path() -> (r: Vec<String>)
    ensures
        texts(r@) == seq!["settings.yaml"@],
{
    let r: Vec<String> = vec!["settings.yaml".to_owned()];
    assert(texts(r@) =~= seq!["settings.yaml"@]);
    r
}

/// The place of `.credentials.yaml` below the home directory of dsh.
pub fn get_dsh_credentials_path() -> (r: Vec<String>)
    ensures
        texts(r@) == seq![".credentials.yaml"@],
{
    let r: Vec<String> = vec![".credentials.yaml".to_owned()];
    assert(texts(r@) =~= seq![".credentials.yaml"@]);
    r
}

/// The result of writing `settings.yaml`.
#[derive(Debug)]
pub struct DshWriteOutcome {
    /// Where what the file held before was saved.
    pub backup_path: Option<String>,
}

impl Default for DshWriteOutcome {
    fn default() -> (r: Self)
        ensures
            r.backup_path is None,
    {
        DshWriteOutcome { backup_path: None }
    }
}

impl Clone for DshWriteOutcome {
    fn clone(&self) -> (r: Self)
        ensures
            optional_text(r.backup_path) == optional_text(self.backup_path),
    {
        DshWriteOutcome { backup_path: clone_text(&self.backup_path) }
    }
}

impl DshWriteOutcome {
    /// The result of carrying out a plan, given where the copy was put.
    pub fn of(plan: &WritePlan, backup_path: Option<String>) -> (r: DshWriteOutcome)
        ensures
            r.backup_path == (if plan@ matches PlanView::Write { text: _, backup } && backup {
                backup_path
            } else {
                None
            }),
    {
        DshWriteOutcome { backup_path: backup_of(plan, backup_path) }
    }
}

/// A mapping without entries.
pub open spec fn nothing() -> Tree {
    Tree::Mapping(Seq::<(Tree, Tree)>::empty())
}

/// The settings that `settings.yaml` holds, given what its text was read as.
pub open spec fn settings_read(parsed: Result<Tree, Seq<char>>) -> Result<Tree, ErrorView> {
    match parsed {
        Ok(Tree::Null) => Ok(nothing()),
        Ok(t) => Ok(t),
        Err(e) => Err(ErrorView::Config("Failed to parse dsh settings.yaml as YAML: "@ + e)),
    }
}

/// The settings that the text of `settings.yaml` holds: none where it is blank.
pub open spec fn settings_of(raw: Seq<char>) -> Result<Tree, ErrorView> {
    if is_blank(raw) {
        Ok(nothing())
    } else {
        settings_read(yaml_parsed(raw))
    }
}

/// The content of what a text was read as.
pub open spec fn parsed_view(parsed: Result<Datum, String>) -> Result<Tree, Seq<char>> {
    match parsed {
        Ok(v) => Ok(v@),
        Err(e) => Err(e@),
    }
}

/// What was read is a well-formed document.
pub open spec fn parsed_well(parsed: Result<Datum, String>) -> bool {
    parsed matches Ok(v) ==> well_formed(v@)
}

/// An empty mapping.
fn empty_mapping() -> (r: Datum)
    ensures
        r@ == nothing(),
        is_json(r@),
{
    broadcast use lemma_mapping_view;
    Datum::Mapping(Table::new())
}

/// The settings, given what the text of `settings.yaml` was read as.
pub fn settings_from(parsed: Result<Datum, String>) -> (r: Result<Datum, AppError>)
    requires
        parsed_well(parsed),
    ensures
        outcome(r) == settings_read(parsed_view(parsed)),
        r matches Ok(v) ==> well_formed(v@),
{
    match parsed {
        Ok(Datum::Null) => Ok(empty_mapping()),
        Ok(v) => Ok(v),
        Err(e) => Err(
            AppError::Config(glue("Failed to parse dsh settings.yaml as YAML: ", e.as_str())),
        ),
    }
}

/// Reads the settings from the text of `settings.yaml`. A text that is blank or
/// holds comments alone gives an empty mapping.
pub fn read_dsh_settings(raw: &str) -> (r: Result<Datum, AppError>)
    ensures
        outcome(r) == settings_of(raw@),
        r matches Ok(v) ==> well_formed(v@),
{
    if blank(raw) {
        Ok(empty_mapping())
    } else {
        settings_from(parse_yaml(raw))
    }
}

/// What is to be done to `settings.yaml`, given what the settings were written as.
pub open spec fn settings_planned(raw: Seq<char>, written: Result<Seq<char>, Seq<char>>) -> Result<
    PlanView,
    ErrorView,
> {
    match written {
        Ok(text) => Ok(plan_of(raw, text)),
        Err(e) => Err(ErrorView::Config("Failed to serialize dsh settings.yaml: "@ + e)),
    }
}

/// What is to be done to `settings.yaml`, given what the settings were written as.
pub fn settings_plan(raw: &str, written: Result<String, String>) -> (r: Result<WritePlan, AppError>)
    ensures
        outcome(r) == settings_planned(raw@, text_result(written)),
{
    match written {
        Ok(text) => Ok(plan_write(raw, text)),
        Err(e) => Err(AppError::Config(glue("Failed to serialize dsh settings.yaml: ", e.as_str()))),
    }
}

/// `settings.yaml`, which holds `raw` and is to hold these settings, is read as these
/// settings once that is done.
pub open spec fn settings_stored(raw: Seq<char>, t: Tree) -> bool {
    settings_planned(raw, yaml_written(t)) matches Ok(plan) && settings_of(carried_out(raw, plan))
        == Ok::<Tree, ErrorView>(t)
}

/// What is to be done to `settings.yaml`, which holds `raw`, so that it holds
/// these settings. Nothing, where it does already.
pub fn write_dsh_settings(raw: &str, value: &Datum) -> (r: Result<WritePlan, AppError>)
    requires
        well_formed(value@),
    ensures
        outcome(r) == settings_planned(raw@, yaml_written(value@)),
        is_storable(value@) && value@ is Mapping ==> settings_stored(raw@, value@),
{
    settings_plan(raw, write_yaml(value))
}

/// The entries of the settings. What is neither a mapping nor absent is not
/// overwritten.
pub open spec fn root_of(settings: Tree) -> Result<Entries, ErrorView> {
    match settings {
        Tree::Null => Ok(Seq::empty()),
        Tree::Mapping(m) => Ok(m),
        _ => Err(ErrorView::Config("dsh settings.yaml top level must be a mapping"@)),
    }
}

/// The entries of the settings.
pub fn settings_root(settings: &Datum) -> (r: Result<Table, AppError>)
    requires
        well_formed(settings@),
    ensures
        outcome(r) == root_of(settings@),
        r matches Ok(m) ==> well_formed(Tree::Mapping(m@)),
{
    broadcast use lemma_mapping_view;
    match settings {
        Datum::Null => Ok(Table::new()),
        Datum::Mapping(m) => Ok(m.clone()),
        _ => Err(AppError::Config("dsh settings.yaml top level must be a mapping".to_owned())),
    }
}

/// The entries of the mapping under a name: none where there is nothing there, or
/// something else than a mapping. A mapping under a tag is refused.
pub open spec fn child_of(m: Entries, name: Seq<char>) -> Result<Entries, ErrorView> {
    match lookup(m, Tree::Text(name)) {
        Some(Tree::Mapping(x)) => Ok(x),
        Some(v) => if entries_of(v) is Some {
            Err(ErrorView::Config("dsh settings.yaml: tagged mapping under "@ + name))
        } else {
            Ok(Seq::empty())
        },
        None => Ok(Seq::empty()),
    }
}

/// The entries of the mapping under a name.
pub fn child_table(m: &Table, name: &str) -> (r: Result<Table, AppError>)
    requires
        well_formed(Tree::Mapping(m@)),
    ensures
        outcome(r) == child_of(m@, name@),
        r matches Ok(x) ==> well_formed(Tree::Mapping(x@)),
{
    broadcast use lemma_mapping_view;
    match m.get(name) {
        Some(Datum::Mapping(x)) => Ok(x.clone()),
        Some(v) => if v.is_mapping() {
            Err(AppError::Config(glue("dsh settings.yaml: tagged mapping under ", name)))
        } else {
            Ok(Table::new())
        },
        None => Ok(Table::new()),
    }
}

// ----------------------------------------------------------------------------
// YAML and JSON
// ----------------------------------------------------------------------------

/// What a YAML document is as JSON: it is written as YAML and read as JSON.
pub open spec fn yaml_as_json(t: Tree) -> Result<Tree, ErrorView> {
    match yaml_written(t) {
        Ok(text) => match yaml_parsed_as_json(text) {
            Ok(j) => Ok(j),
            Err(e) => Err(ErrorView::Config("Failed to convert YAML to JSON: "@ + e)),
        },
        Err(e) => Err(ErrorView::Config("Failed to serialize YAML value: "@ + e)),
    }
}

/// Turns a YAML document into a JSON document.
pub fn yaml_to_json(yaml: &Datum) -> (r: Result<Datum, AppError>)
    requires
        well_formed(yaml@),
    ensures
        outcome(r) == yaml_as_json(yaml@),
        r matches Ok(v) ==> is_json(v@),
        is_plain(yaml@) ==> yaml_as_json(yaml@) == Ok::<Tree, ErrorView>(yaml@),
{
    match write_yaml(yaml) {
        Ok(text) => match parse_yaml_as_json(text.as_str()) {
            Ok(v) => Ok(v),
            Err(e) => Err(AppError::Config(glue("Failed to convert YAML to JSON: ", e.as_str()))),
        },
        Err(e) => Err(AppError::Config(glue("Failed to serialize YAML value: ", e.as_str()))),
    }
}

/// What a JSON document is as YAML: it is written as JSON and read as YAML.
pub open spec fn json_as_yaml(t: Tree) -> Result<Tree, ErrorView> {
    match json_compact(t) {
        Ok(text) => match yaml_parsed(text) {
            Ok(y) => Ok(y),
            Err(e) => Err(ErrorView::Config("Failed to convert JSON to YAML: "@ + e)),
        },
        Err(e) => Err(ErrorView::Config("Failed to serialize JSON value: "@ + e)),
    }
}

/// Turns a JSON document into a YAML document.
pub fn json_to_yaml(json: &Datum) -> (r: Result<Datum, AppError>)
    requires
        is_json(json@),
    ensures
        outcome(r) == json_as_yaml(json@),
        r matches Ok(v) ==> well_formed(v@),
        is_flow(json@) ==> json_as_yaml(json@) == Ok::<Tree, ErrorView>(json@),
{
    match write_json(json) {
        Ok(text) => match parse_yaml(text.as_str()) {
            Ok(v) => Ok(v),
            Err(e) => Err(AppError::Config(glue("Failed to convert JSON to YAML: ", e.as_str()))),
        },
        Err(e) => Err(AppError::Config(glue("Failed to serialize JSON value: ", e.as_str()))),
    }
}

// ----------------------------------------------------------------------------
// Credentials
// ----------------------------------------------------------------------------

/// The entries of `.credentials.yaml`, given what its text was read as.
pub open spec fn credentials_read(parsed: Result<Tree, Seq<char>>) -> Result<Entries, ErrorView> {
    match parsed {
        Ok(Tree::Mapping(m)) => Ok(m),
        Ok(Tree::Null) => Ok(Seq::empty()),
        Ok(_) => Err(ErrorView::Config("dsh .credentials.yaml top level must be a mapping"@)),
        Err(e) => Err(ErrorView::Config("Failed to parse dsh .credentials.yaml as YAML: "@ + e)),
    }
}

/// The entries that the text of `.credentials.yaml` holds: none where it is blank.
pub open spec fn credentials_of(raw: Seq<char>) -> Result<Entries, ErrorView> {
    if is_blank(raw) {
        Ok(Seq::empty())
    } else {
        credentials_read(yaml_parsed(raw))
    }
}

/// The entries of `.credentials.yaml`, given what its text was read as.
pub fn credentials_from(parsed: Result<Datum, String>) -> (r: Result<Table, AppError>)
    requires
        parsed_well(parsed),
    ensures
        outcome(r) == credentials_read(parsed_view(parsed)),
        r matches Ok(m) ==> well_formed(Tree::Mapping(m@)),
{
    broadcast use lemma_mapping_view;
    match parsed {
        Ok(Datum::Mapping(m)) => Ok(m),
        Ok(Datum::Null) => Ok(Table::new()),
        Ok(_) => Err(
            AppError::Config("dsh .credentials.yaml top level must be a mapping".to_owned()),
        ),
        Err(e) => Err(
            AppError::Config(glue("Failed to parse dsh .credentials.yaml as YAML: ", e.as_str())),
        ),
    }
}

/// Reads the entries from the text of `.credentials.yaml`.
pub fn read_credentials_doc(raw: &str) -> (r: Result<Table, AppError>)
    ensures
        outcome(r) == credentials_of(raw@),
        r matches Ok(m) ==> well_formed(Tree::Mapping(m@)),
{
    if blank(raw) {
        Ok(Table::new())
    } else {
        credentials_from(parse_yaml(raw))
    }
}

/// The secrets of a credentials document, by reference name.
pub open spec fn refs_of(doc: Entries) -> Entries {
    match field(Tree::Mapping(doc), "refs"@) {
        Some(v) => match entries_of(v) {
            Some(refs) => refs,
            None => Seq::empty(),
        },
        None => Seq::empty(),
    }
}

/// The secrets of a credentials document, by reference name.
pub fn refs_in(doc: &Table) -> (r: Table)
    requires
        well_formed(Tree::Mapping(doc@)),
    ensures
        r@ == refs_of(doc@),
        well_formed(Tree::Mapping(r@)),
{
    match doc.get("refs") {
        Some(v) => {
            proof {
                lemma_untagged(v@);
            }
            match v.as_mapping() {
                Some(refs) => refs.clone(),
                None => Table::new(),
            }
        },
        None => Table::new(),
    }
}

/// Reads the secrets from the text of `.credentials.yaml`.
pub fn read_credentials_refs(raw: &str) -> (r: Result<Table, AppError>)
    ensures
        outcome(r) == (match credentials_of(raw@) {
            Ok(doc) => Ok::<Entries, ErrorView>(refs_of(doc)),
            Err(e) => Err(e),
        }),
        r matches Ok(m) ==> well_formed(Tree::Mapping(m@)),
{
    match read_credentials_doc(raw) {
        Ok(doc) => Ok(refs_in(&doc)),
        Err(e) => Err(e),
    }
}

/// The number one, as a document.
pub open spec fn version_one() -> Tree {
    Tree::Number(NumericView::PosInt(1))
}

/// A credentials document with other secrets; `version: 1` is added where there
/// is no version.
pub open spec fn with_refs(doc: Entries, refs: Entries) -> Entries {
    let new = with_key(doc, Tree::Text("refs"@), Tree::Mapping(refs));
    if has_key(new, Tree::Text("version"@)) {
        new
    } else {
        with_key(new, Tree::Text("version"@), version_one())
    }
}

/// A credentials document with other secrets.
pub fn replace_refs(doc: Table, refs: &Table) -> (r: Table)
    requires
        well_formed(Tree::Mapping(doc@)),
        well_formed(Tree::Mapping(refs@)),
    ensures
        r@ == with_refs(doc@, refs@),
        well_formed(Tree::Mapping(r@)),
{
    broadcast use lemma_mapping_view;
    let mut new = doc;
    new.insert("refs", Datum::Mapping(refs.clone()));
    if !new.contains("version") {
        new.insert("version", Datum::Number(Numeric::PosInt(1)));
    }
    new
}

/// What is to be done to `.credentials.yaml`, given what its new document was
/// written as.
pub open spec fn credentials_written(raw: Seq<char>, written: Result<Seq<char>, Seq<char>>) -> Result<
    PlanView,
    ErrorView,
> {
    match written {
        Ok(text) => Ok(plan_of(raw, text)),
        Err(e) => Err(ErrorView::Config("Failed to serialize dsh credentials: "@ + e)),
    }
}

/// What is to be done to `.credentials.yaml`, which holds `raw`, so that it holds
/// these secrets beside what else is in it.
pub open spec fn credentials_planned(raw: Seq<char>, refs: Entries) -> Result<PlanView, ErrorView> {
    match credentials_of(raw) {
        Ok(doc) => credentials_written(raw, yaml_written(Tree::Mapping(with_refs(doc, refs)))),
        Err(e) => Err(e),
    }
}

/// What is to be done to `.credentials.yaml`, given what its new document was
/// written as.
pub fn credentials_plan(raw: &str, written: Result<String, String>) -> (r: Result<
    WritePlan,
    AppError,
>)
    ensures
        outcome(r) == credentials_written(raw@, text_result(written)),
{
    match written {
        Ok(text) => Ok(plan_write(raw, text)),
        Err(e) => Err(AppError::Config(glue("Failed to serialize dsh credentials: ", e.as_str()))),
    }
}

/// `.credentials.yaml`, which holds `raw` and is to hold these secrets, is read as
/// what was to be written, with these secrets in it, once that is done.
pub open spec fn credentials_stored(raw: Seq<char>, refs: Entries) -> bool {
    &&& credentials_planned(raw, refs) matches Ok(plan)
    &&& credentials_of(carried_out(raw, plan)) matches Ok(after)
    &&& after == with_refs(credentials_of(raw)->Ok_0, refs)
    &&& refs_of(after) == refs
}

/// What is to be done to `.credentials.yaml`, which holds `raw`, so that it holds
/// these secrets. Whatever is done, the file is to be readable by its owner alone.
pub fn write_credentials_refs(raw: &str, refs: &Table) -> (r: Result<WritePlan, AppError>)
    requires
        well_formed(Tree::Mapping(refs@)),
    ensures
        outcome(r) == credentials_planned(raw@, refs@),
        (credentials_of(raw@) matches Ok(doc) && is_storable(Tree::Mapping(with_refs(doc, refs@))))
            ==> credentials_stored(raw@, refs@),
{
    broadcast use lemma_mapping_view;
    match read_credentials_doc(raw) {
        Ok(doc) => {
            proof {
                law_credentials_stay(doc@, refs@, "refs"@);
            }
            let new = Datum::Mapping(replace_refs(doc, refs));
            credentials_plan(raw, write_yaml(&new))
        },
        Err(e) => Err(e),
    }
}

// ----------------------------------------------------------------------------
// Providers
// ----------------------------------------------------------------------------

/// A character as it stands in the reference name of a secret: a capital or a
/// digit, and an underscore for anything else.
pub open spec fn env_char(c: char) -> char {
    if is_upper_or_digit(upper(c)) {
        upper(c)
    } else {
        '_'
    }
}

/// The reference name of a provider's secret.
pub open spec fn env_name_of(key: Seq<char>) -> Seq<char> {
    "DSH_"@ + Seq::new(key.len(), |i: int| env_char(key[i])) + "_API_KEY"@
}

/// The reference name of a provider's secret: `my-gateway` gives
/// `DSH_MY_GATEWAY_API_KEY`.
pub fn generate_api_key_env_name(provider_key: &str) -> (r: String)
    ensures
        r@ == env_name_of(provider_key@),
{
    let chars = chars_of(provider_key);
    let mut name = "DSH_".to_owned();
    let mut i: usize = 0;
    let ghost folded = Seq::new(provider_key@.len(), |i: int| env_char(provider_key@[i]));
    assert(name@ =~= "DSH_"@ + folded.take(0));
    while i < chars.len()
        invariant
            i <= chars@.len(),
            chars@ == provider_key@,
            folded == Seq::new(provider_key@.len(), |i: int| env_char(provider_key@[i])),
            name@ == "DSH_"@ + folded.take(i as int),
        decreases chars@.len() - i,
    {
        let c = to_upper(chars[i]);
        let d = if ('A' <= c && c <= 'Z') || ('0' <= c && c <= '9') {
            c
        } else {
            '_'
        };
        name.push(d);
        assert(name@ =~= "DSH_"@ + folded.take(i + 1));
        i += 1;
    }
    assert(folded.take(i as int) =~= folded);
    name.append("_API_KEY");
    name
}

/// A provider with its secret filled in as `apiKey`, where `refs` holds one that
/// is not empty under the name that the provider gives as `apiKeyEnv`.
pub open spec fn materialized(config: Tree, refs: Entries) -> Tree {
    match config {
        Tree::Mapping(m) => match text_field(config, "apiKeyEnv"@) {
            Some(env) => match text_field(Tree::Mapping(refs), env) {
                Some(secret) => if secret.len() > 0 {
                    Tree::Mapping(with_key(m, Tree::Text("apiKey"@), Tree::Text(secret)))
                } else {
                    config
                },
                None => config,
            },
            None => config,
        },
        _ => config,
    }
}

/// Fills the secret of a provider in as `apiKey`.
pub fn materialize_api_key(config: Datum, refs: &Table) -> (r: Datum)
    requires
        is_json(config@),
        well_formed(Tree::Mapping(refs@)),
    ensures
        r@ == materialized(config@, refs@),
        is_json(r@),
{
    broadcast use lemma_mapping_view;
    match config {
        Datum::Mapping(m) => {
            let mut m = m;
            let secret = match m.get_str("apiKeyEnv") {
                Some(env) => match refs.get_str(env) {
                    Some(secret) => if secret.unicode_len() > 0 {
                        Some(secret.to_owned())
                    } else {
                        None
                    },
                    None => None,
                },
                None => None,
            };
            if let Some(secret) = secret {
                m.insert("apiKey", Datum::Text(secret));
            }
            Datum::Mapping(m)
        },
        other => other,
    }
}

/// The providers of the settings, by name.
pub open spec fn providers_of(settings: Tree) -> Option<Entries> {
    match field(settings, "llm-pi-ai"@) {
        Some(llm) => match field(llm, "providers"@) {
            Some(providers) => entries_of(providers),
            None => None,
        },
        None => None,
    }
}

/// The providers of the settings, by name.
pub fn providers_in(settings: &Datum) -> (r: Option<&Table>)
    requires
        well_formed(settings@),
    ensures
        match r {
            Some(m) => providers_of(settings@) == Some(m@) && well_formed(Tree::Mapping(m@)),
            None => providers_of(settings@) is None,
        },
{
    match settings.get("llm-pi-ai") {
        Some(llm) => match llm.get("providers") {
            Some(providers) => {
                proof {
                    lemma_untagged(providers@);
                }
                providers.as_mapping()
            },
            None => None,
        },
        None => None,
    }
}

/// How an entry of the providers is listed, given what it is as JSON: under its
/// trimmed name, with its secret. What has no name, is no mapping or has no JSON
/// form is left out.
pub open spec fn listed_as(
    e: (Tree, Tree),
    json: Result<Tree, ErrorView>,
    refs: Entries,
) -> Option<(Seq<char>, Tree)> {
    match text_of(e.0) {
        Some(key) => match trimmed_text(key) {
            Some(name) => if entries_of(e.1) is Some {
                match json {
                    Ok(config) => Some((name, materialized(config, refs))),
                    Err(_) => None,
                }
            } else {
                None
            },
            None => None,
        },
        None => None,
    }
}

/// The first `n` providers as they are listed: of two with the same trimmed name
/// the later counts.
pub open spec fn listed(providers: Entries, refs: Entries, n: nat) -> Entries
    decreases n,
{
    if n == 0 || n > providers.len() {
        Seq::empty()
    } else {
        let before = listed(providers, refs, (n - 1) as nat);
        let e = providers[n - 1];
        match listed_as(e, yaml_as_json(e.1), refs) {
            Some((name, config)) => with_key(before, Tree::Text(name), config),
            None => before,
        }
    }
}

/// Adds a provider to a list, given what it is as JSON.
pub fn list_provider(
    list: Table,
    key: &Datum,
    value: &Datum,
    json: Result<Datum, AppError>,
    refs: &Table,
) -> (r: Table)
    requires
        is_json(Tree::Mapping(list@)),
        json matches Ok(v) ==> is_json(v@),
        well_formed(Tree::Mapping(refs@)),
    ensures
        r@ == (match listed_as((key@, value@), outcome(json), refs@) {
            Some((name, config)) => with_key(list@, Tree::Text(name), config),
            None => list@,
        }),
        is_json(Tree::Mapping(r@)),
{
    let mut list = list;
    if let Some(key) = key.as_str() {
        if let Some(name) = trim_text(key) {
            if value.is_mapping() {
                if let Ok(config) = json {
                    list.insert(name, materialize_api_key(config, refs));
                }
            }
        }
    }
    list
}

/// The providers of the settings as they are listed.
pub open spec fn provider_list(settings: Tree, refs: Entries) -> Entries {
    match providers_of(settings) {
        Some(providers) => listed(providers, refs, providers.len()),
        None => Seq::empty(),
    }
}

/// Lists the providers of the settings, each as a JSON object with its secret.
pub fn list_providers(settings: &Datum, refs: &Table) -> (r: Table)
    requires
        well_formed(settings@),
        well_formed(Tree::Mapping(refs@)),
    ensures
        r@ == provider_list(settings@, refs@),
        is_json(Tree::Mapping(r@)),
        providers_of(settings@) matches Some(m) ==> converts(m),
{
    let mut list = Table::new();
    match providers_in(settings) {
        Some(providers) => {
            let mut i: usize = 0;
            while i < providers.entries.len()
                invariant
                    i <= providers.entries@.len(),
                    well_formed(Tree::Mapping(providers@)),
                    well_formed(Tree::Mapping(refs@)),
                    list@ == listed(providers@, refs@, i as nat),
                    is_json(Tree::Mapping(list@)),
                    forall|j: int|
                        0 <= j < i && is_plain((#[trigger] providers@[j]).1) ==> yaml_as_json(
                            providers@[j].1,
                        ) == Ok::<Tree, ErrorView>(providers@[j].1),
                decreases providers.entries@.len() - i,
            {
                proof {
                    lemma_entry_well_formed(providers@, i as int);
                }
                let key = &providers.entries[i].0;
                let value = &providers.entries[i].1;
                assert(providers@[i as int] == (key@, value@));
                list = list_provider(list, key, value, yaml_to_json(value), refs);
                i += 1;
            }
        },
        None => {},
    }
    list
}

/// What the two files hold of providers.
pub open spec fn providers_read(settings_raw: Seq<char>, credentials_raw: Seq<char>) -> Result<
    Entries,
    ErrorView,
> {
    match settings_of(settings_raw) {
        Ok(settings) => match credentials_of(credentials_raw) {
            Ok(doc) => Ok(provider_list(settings, refs_of(doc))),
            Err(e) => Err(e),
        },
        Err(e) => Err(e),
    }
}

/// All providers, by name, each as a JSON object with its secret as `apiKey`.
pub fn get_providers(settings_raw: &str, credentials_raw: &str) -> (r: Result<Table, AppError>)
    ensures
        outcome(r) == providers_read(settings_raw@, credentials_raw@),
        r matches Ok(m) ==> is_json(Tree::Mapping(m@)),
        lists_plain(settings_raw@, credentials_raw@),
{
    match read_dsh_settings(settings_raw) {
        Ok(settings) => match read_credentials_refs(credentials_raw) {
            Ok(refs) => {
                let list = list_providers(&settings, &refs);
                proof {
                    lemma_lists_plain(settings_raw@, credentials_raw@, settings@);
                }
                Ok(list)
            },
            Err(e) => Err(e),
        },
        Err(e) => Err(e),
    }
}

/// The provider of a name, as a JSON object with its secret as `apiKey`.
pub fn get_provider(settings_raw: &str, credentials_raw: &str, key: &str) -> (r: Result<
    Option<Datum>,
    AppError,
>)
    ensures
        match r {
            Ok(Some(v)) => is_json(v@) && (providers_read(settings_raw@, credentials_raw@) matches Ok(
                m,
            ) && lookup(m, Tree::Text(key@)) == Some(v@)),
            Ok(None) => providers_read(settings_raw@, credentials_raw@) matches Ok(m) && lookup(
                m,
                Tree::Text(key@),
            ) is None,
            Err(e) => providers_read(settings_raw@, credentials_raw@) == Err::<Entries, ErrorView>(e@),
        },
        lists_plain(settings_raw@, credentials_raw@),
{
    match get_providers(settings_raw, credentials_raw) {
        Ok(m) => match m.get(key) {
            Some(v) => Ok(Some(v.clone())),
            None => Ok(None),
        },
        Err(e) => Err(e),
    }
}

/// What is to be done to both files of dsh. The credentials come first; where
/// the settings cannot be written after that, they keep what they hold.
#[derive(Debug)]
pub struct ProviderWrite {
    /// What is to be done to `.credentials.yaml`, where it is touched at all.
    pub credentials: Option<WritePlan>,
    /// What is to be done to `settings.yaml` after that.
    pub settings: Result<WritePlan, AppError>,
}

/// The content of a [`ProviderWrite`].
pub struct ProviderWriteView {
    pub credentials: Option<PlanView>,
    pub settings: Result<PlanView, ErrorView>,
}

impl View for ProviderWrite {
    type V = ProviderWriteView;

    open spec fn view(&self) -> ProviderWriteView {
        ProviderWriteView {
            credentials: match self.credentials {
                Some(p) => Some(p@),
                None => None,
            },
            settings: outcome(self.settings),
        }
    }
}

/// The secret that a provider comes with, trimmed.
pub open spec fn secret_of(config: Tree) -> Option<Seq<char>> {
    match config {
        Tree::Mapping(_) => match text_field(config, "apiKey"@) {
            Some(s) => trimmed_text(s),
            None => None,
        },
        _ => None,
    }
}

/// A provider without its secret.
pub open spec fn without_secret(config: Tree) -> Tree {
    match config {
        Tree::Mapping(m) => Tree::Mapping(swapped_out(m, Tree::Text("apiKey"@))),
        _ => config,
    }
}

/// The reference name of a provider's secret: the one it gives, or one made of
/// its key where it comes with a secret.
pub open spec fn reference_of(key: Seq<char>, config: Tree) -> Option<Seq<char>> {
    let given = match text_field(without_secret(config), "apiKeyEnv"@) {
        Some(s) => trimmed_text(s),
        None => None,
    };
    match given {
        Some(name) => Some(name),
        None => if secret_of(config) is Some {
            Some(env_name_of(key))
        } else {
            None
        },
    }
}

/// A provider as it is written to the settings: without its secret, and with the
/// reference name in its place.
pub open spec fn referencing(key: Seq<char>, config: Tree) -> Tree {
    match (without_secret(config), reference_of(key, config)) {
        (Tree::Mapping(m), Some(name)) => Tree::Mapping(
            with_key(m, Tree::Text("apiKeyEnv"@), Tree::Text(name)),
        ),
        (t, _) => t,
    }
}

/// A provider apart from its secret.
#[derive(Debug)]
pub struct SplitProvider {
    /// The provider as it is written to the settings.
    pub config: Datum,
    /// The reference name, where there is one.
    pub reference: Option<String>,
    /// The secret, where there is one.
    pub secret: Option<String>,
}

/// Parts a provider from its secret.
pub fn split_provider(key: &str, config: &Datum) -> (r: SplitProvider)
    requires
        is_json(config@),
    ensures
        r.config@ == referencing(key@, config@),
        is_json(r.config@),
        optional_text(r.reference) == reference_of(key@, config@),
        optional_text(r.secret) == secret_of(config@),
{
    broadcast use lemma_mapping_view;
    match config {
        Datum::Mapping(m) => {
            let secret = match m.get_str("apiKey") {
                Some(s) => match trim_text(s) {
                    Some(t) => Some(t.to_owned()),
                    None => None,
                },
                None => None,
            };
            let mut rest = m.clone();
            let _ = rest.swap_out("apiKey");
            let given = match rest.get_str("apiKeyEnv") {
                Some(s) => match trim_text(s) {
                    Some(t) => Some(t.to_owned()),
                    None => None,
                },
                None => None,
            };
            let reference = match given {
                Some(name) => Some(name),
                None => if secret.is_some() {
                    Some(generate_api_key_env_name(key))
                } else {
                    None
                },
            };
            if let Some(name) = &reference {
                rest.insert("apiKeyEnv", Datum::Text(name.clone()));
            }
            SplitProvider { config: Datum::Mapping(rest), reference, secret }
        },
        other => {
            proof {
                lemma_untagged(config@);
            }
            SplitProvider { config: other.clone(), reference: None, secret: None }
        },
    }
}

/// What is to be done to `.credentials.yaml` so that it holds a secret under a
/// reference name; nothing where there is no secret.
pub open spec fn secret_planned(
    raw: Seq<char>,
    reference: Option<Seq<char>>,
    secret: Option<Seq<char>>,
) -> Result<Option<PlanView>, ErrorView> {
    match (reference, secret) {
        (Some(name), Some(secret)) => match credentials_of(raw) {
            Ok(doc) => match credentials_planned(
                raw,
                with_key(refs_of(doc), Tree::Text(name), Tree::Text(secret)),
            ) {
                Ok(plan) => Ok(Some(plan)),
                Err(e) => Err(e),
            },
            Err(e) => Err(e),
        },
        _ => Ok(None),
    }
}

/// The content of a plan, where there is one.
pub open spec fn optional_plan(r: Result<Option<WritePlan>, AppError>) -> Result<
    Option<PlanView>,
    ErrorView,
> {
    match r {
        Ok(Some(p)) => Ok(Some(p@)),
        Ok(None) => Ok(None),
        Err(e) => Err(e@),
    }
}

/// What is to be done to `.credentials.yaml` so that it holds a secret under a
/// reference name.
pub fn store_secret(raw: &str, reference: &Option<String>, secret: &Option<String>) -> (r: Result<
    Option<WritePlan>,
    AppError,
>)
    ensures
        optional_plan(r) == secret_planned(raw@, optional_text(*reference), optional_text(*secret)),
        (reference matches Some(name) && (secret matches Some(secret) && (credentials_of(raw@)
            matches Ok(doc) && is_storable(
            Tree::Mapping(
                with_refs(doc, with_key(refs_of(doc), Tree::Text(name@), Tree::Text(secret@))),
            ),
        )))) ==> credentials_stored(
            raw@,
            with_key(
                refs_of(credentials_of(raw@)->Ok_0),
                Tree::Text(reference->0@),
                Tree::Text(secret->0@),
            ),
        ),
{
    match (reference, secret) {
        (Some(name), Some(secret)) => match read_credentials_refs(raw) {
            Ok(refs) => {
                let mut refs = refs;
                refs.insert(name.as_str(), Datum::Text(secret.clone()));
                match write_credentials_refs(raw, &refs) {
                    Ok(plan) => Ok(Some(plan)),
                    Err(e) => Err(e),
                }
            },
            Err(e) => Err(e),
        },
        _ => Ok(None),
    }
}

/// A provider as it goes into the settings: what the settings hold of it already
/// and it does not mention itself is kept.
pub open spec fn updated_provider(existing: Option<Tree>, new: Tree) -> Tree {
    match (existing, new) {
        (Some(old), Tree::Mapping(m)) => match entries_of(old) {
            Some(kept) => Tree::Mapping(filled(m, kept)),
            None => new,
        },
        _ => new,
    }
}

/// The settings with a provider written under its key.
pub open spec fn with_provider(settings: Tree, key: Seq<char>, new: Tree) -> Result<Tree, ErrorView> {
    match root_of(settings) {
        Ok(root) => match child_of(root, "llm-pi-ai"@) {
            Ok(llm) => match child_of(llm, "providers"@) {
                Ok(providers) => {
                    let entry = updated_provider(lookup(providers, Tree::Text(key)), new);
                    let providers = with_key(providers, Tree::Text(key), entry);
                    let llm = with_key(llm, Tree::Text("providers"@), Tree::Mapping(providers));
                    Ok(Tree::Mapping(with_key(root, Tree::Text("llm-pi-ai"@), Tree::Mapping(llm))))
                },
                Err(e) => Err(e),
            },
            Err(e) => Err(e),
        },
        Err(e) => Err(e),
    }
}

/// A provider as it goes into the settings, given what they hold of it already.
fn update_provider(existing: Option<&Datum>, new: Datum) -> (r: Datum)
    requires
        well_formed(new@),
        existing matches Some(v) ==> well_formed(v@),
    ensures
        r@ == updated_provider(
            match existing {
                Some(v) => Some(v@),
                None => None,
            },
            new@,
        ),
        well_formed(r@),
{
    broadcast use lemma_mapping_view;
    match (existing, new) {
        (Some(old), Datum::Mapping(m)) => {
            proof {
                lemma_untagged(old@);
            }
            match old.as_mapping() {
                Some(kept) => Datum::Mapping(fill(m, kept)),
                None => Datum::Mapping(m),
            }
        },
        (_, new) => new,
    }
}

/// The settings with a provider, in the form of the settings, written under its key.
pub fn upsert_provider(settings: &Datum, key: &str, new: Datum) -> (r: Result<Datum, AppError>)
    requires
        well_formed(settings@),
        well_formed(new@),
    ensures
        outcome(r) == with_provider(settings@, key@, new@),
        r matches Ok(v) ==> well_formed(v@),
{
    broadcast use lemma_mapping_view;
    let mut root = match settings_root(settings) {
        Ok(m) => m,
        Err(e) => return Err(e),
    };
    let mut llm = match child_table(&root, "llm-pi-ai") {
        Ok(m) => m,
        Err(e) => return Err(e),
    };
    let mut providers = match child_table(&llm, "providers") {
        Ok(m) => m,
        Err(e) => return Err(e),
    };
    let entry = update_provider(providers.get(key), new);
    providers.insert(key, entry);
    llm.insert("providers", Datum::Mapping(providers));
    root.insert("llm-pi-ai", Datum::Mapping(llm));
    Ok(Datum::Mapping(root))
}

/// What is to be done to `settings.yaml` so that it holds a provider, given what
/// the provider is as YAML.
pub open spec fn provider_planned(raw: Seq<char>, key: Seq<char>, yaml: Result<Tree, ErrorView>) -> Result<
    PlanView,
    ErrorView,
> {
    match yaml {
        Ok(new) => match settings_of(raw) {
            Ok(settings) => match with_provider(settings, key, new) {
                Ok(t) => settings_planned(raw, yaml_written(t)),
                Err(e) => Err(e),
            },
            Err(e) => Err(e),
        },
        Err(e) => Err(e),
    }
}

/// What is to be done to `settings.yaml` so that it holds a provider, given what
/// the provider is as YAML.
pub fn plan_provider(raw: &str, key: &str, yaml: Result<Datum, AppError>) -> (r: Result<
    WritePlan,
    AppError,
>)
    requires
        yaml matches Ok(v) ==> well_formed(v@),
    ensures
        outcome(r) == provider_planned(raw@, key@, outcome(yaml)),
        (outcome(yaml) matches Ok(new) && (settings_of(raw@) matches Ok(settings) && (with_provider(
            settings,
            key@,
            new,
        ) matches Ok(t) && is_storable(t)))) ==> settings_stored(
            raw@,
            with_provider(settings_of(raw@)->Ok_0, key@, outcome(yaml)->Ok_0)->Ok_0,
        ),
{
    match yaml {
        Ok(new) => match read_dsh_settings(raw) {
            Ok(settings) => match upsert_provider(&settings, key, new) {
                Ok(t) => write_dsh_settings(raw, &t),
                Err(e) => Err(e),
            },
            Err(e) => Err(e),
        },
        Err(e) => Err(e),
    }
}

/// What is to be done to both files so that they hold a provider.
pub open spec fn provider_set(
    settings_raw: Seq<char>,
    credentials_raw: Seq<char>,
    key: Seq<char>,
    config: Tree,
) -> Result<ProviderWriteView, ErrorView> {
    match secret_planned(credentials_raw, reference_of(key, config), secret_of(config)) {
        Ok(credentials) => Ok(
            ProviderWriteView {
                credentials,
                settings: provider_planned(settings_raw, key, json_as_yaml(referencing(key, config))),
            },
        ),
        Err(e) => Err(e),
    }
}

/// Whether a provider comes with a secret. One that does not leaves `.credentials.yaml`
/// alone.
pub fn comes_with_secret(config: &Datum) -> (r: bool)
    requires
        is_json(config@),
    ensures
        r == (secret_of(config@) is Some),
{
    split_provider("", config).secret.is_some()
}

/// Writes the provider `llm-pi-ai.providers.<key>`, given as a JSON document. Its
/// secret goes to `.credentials.yaml`, under the provider's `apiKeyEnv` or a name
/// made of its key; everything else goes to `settings.yaml`, where fields that the
/// provider does not mention are kept.
///
/// Nothing is to be done at all where the credentials cannot be written.
pub fn set_provider(
    settings_raw: &str,
    credentials_raw: &str,
    key: &str,
    provider_config: &Datum,
) -> (r: Result<ProviderWrite, AppError>)
    requires
        is_json(provider_config@),
    ensures
        outcome(r) == provider_set(settings_raw@, credentials_raw@, key@, provider_config@),
        set_sticks(settings_raw@, credentials_raw@, key@, provider_config@),
{
    let split = split_provider(key, provider_config);
    match store_secret(credentials_raw, &split.reference, &split.secret) {
        Ok(credentials) => {
            let settings = plan_provider(settings_raw, key, json_to_yaml(&split.config));
            Ok(ProviderWrite { credentials, settings })
        },
        Err(e) => Err(e),
    }
}

/// Some provider gives `name` as the reference name of its secret.
pub open spec fn is_referenced(providers: Entries, name: Seq<char>) -> bool {
    exists|i: int|
        0 <= i < providers.len() && text_field((#[trigger] providers[i]).1, "apiKeyEnv"@) == Some(
            name,
        )
}

/// The settings without a provider, and the reference name that no provider
/// gives any more; nothing where there is no such provider.
pub open spec fn without_provider(settings: Tree, key: Seq<char>) -> Result<
    Option<(Tree, Option<Seq<char>>)>,
    ErrorView,
> {
    match root_of(settings) {
        Ok(root) => match lookup(root, Tree::Text("llm-pi-ai"@)) {
            Some(llm) => match entries_of(llm) {
                Some(sections) => match lookup(sections, Tree::Text("providers"@)) {
                    Some(providers) => match entries_of(providers) {
                        Some(all) => match lookup(all, Tree::Text(key)) {
                            Some(gone) => {
                                let rest = swapped_out(all, Tree::Text(key));
                                let sections = with_key(
                                    sections,
                                    Tree::Text("providers"@),
                                    refilled(providers, rest),
                                );
                                let root = with_key(
                                    root,
                                    Tree::Text("llm-pi-ai"@),
                                    refilled(llm, sections),
                                );
                                let orphan = match text_field(gone, "apiKeyEnv"@) {
                                    Some(name) => if is_referenced(rest, name) {
                                        None
                                    } else {
                                        Some(name)
                                    },
                                    None => None,
                                };
                                Ok(Some((Tree::Mapping(root), orphan)))
                            },
                            None => Ok(None),
                        },
                        None => Ok(None),
                    },
                    None => Ok(None),
                },
                None => Ok(None),
            },
            None => Ok(None),
        },
        Err(e) => Err(e),
    }
}

/// Whether some provider gives `name` as the reference name of its secret.
pub fn referenced(providers: &Table, name: &str) -> (r: bool)
    requires
        well_formed(Tree::Mapping(providers@)),
    ensures
        r == is_referenced(providers@, name@),
{
    let mut i: usize = 0;
    while i < providers.entries.len()
        invariant
            i <= providers.entries@.len(),
            well_formed(Tree::Mapping(providers@)),
            forall|j: int|
                0 <= j < i ==> text_field((#[trigger] providers@[j]).1, "apiKeyEnv"@) != Some(name@),
        decreases providers.entries@.len() - i,
    {
        proof {
            lemma_entry_well_formed(providers@, i as int);
        }
        if let Some(other) = providers.entries[i].1.get_str("apiKeyEnv") {
            if text_eq(other, name) {
                assert(text_field(providers@[i as int].1, "apiKeyEnv"@) == Some(name@));
                return true;
            }
        }
        i += 1;
    }
    false
}

/// The content of what is left without a provider.
pub open spec fn removal_view(r: Result<Option<(Datum, Option<String>)>, AppError>) -> Result<
    Option<(Tree, Option<Seq<char>>)>,
    ErrorView,
> {
    match r {
        Ok(Some((t, orphan))) => Ok(Some((t@, optional_text(orphan)))),
        Ok(None) => Ok(None),
        Err(e) => Err(e@),
    }
}

/// The settings without a provider, and the reference name that no provider
/// gives any more.
pub fn drop_provider(settings: &Datum, key: &str) -> (r: Result<
    Option<(Datum, Option<String>)>,
    AppError,
>)
    requires
        well_formed(settings@),
    ensures
        removal_view(r) == without_provider(settings@, key@),
        r matches Ok(Some(x)) ==> well_formed(x.0@),
{
    broadcast use lemma_mapping_view;
    let mut root = match settings_root(settings) {
        Ok(m) => m,
        Err(e) => return Err(e),
    };
    let changed = match root.get("llm-pi-ai") {
        Some(llm) => {
            proof {
                lemma_untagged(llm@);
            }
            match llm.as_mapping() {
                Some(sections) => match sections.get("providers") {
                    Some(providers) => {
                        proof {
                            lemma_untagged(providers@);
                        }
                        match providers.as_mapping() {
                            Some(all) => match all.get(key) {
                                Some(gone) => {
                                    let mut rest = all.clone();
                                    let _ = rest.swap_out(key);
                                    let orphan = match gone.get_str("apiKeyEnv") {
                                        Some(name) => if referenced(&rest, name) {
                                            None
                                        } else {
                                            Some(name.to_owned())
                                        },
                                        None => None,
                                    };
                                    let mut sections = sections.clone();
                                    proof {
                                        lemma_refilled(providers@, rest@);
                                    }
                                    sections.insert("providers", providers.refill(rest));
                                    proof {
                                        lemma_refilled(llm@, sections@);
                                    }
                                    Some((llm.refill(sections), orphan))
                                },
                                None => None,
                            },
                            None => None,
                        }
                    },
                    None => None,
                },
                None => None,
            }
        },
        None => None,
    };
    match changed {
        Some((llm, orphan)) => {
            root.insert("llm-pi-ai", llm);
            Ok(Some((Datum::Mapping(root), orphan)))
        },
        None => Ok(None),
    }
}

/// What is to be done to `.credentials.yaml` so that it holds no secret under a
/// reference name; nothing where there is no such name, or nothing under it.
pub open spec fn secret_dropped(raw: Seq<char>, orphan: Option<Seq<char>>) -> Result<
    Option<PlanView>,
    ErrorView,
> {
    match orphan {
        Some(name) => match credentials_of(raw) {
            Ok(doc) => if has_key(refs_of(doc), Tree::Text(name)) {
                match credentials_planned(raw, swapped_out(refs_of(doc), Tree::Text(name))) {
                    Ok(plan) => Ok(Some(plan)),
                    Err(e) => Err(e),
                }
            } else {
                Ok(None)
            },
            Err(e) => Err(e),
        },
        None => Ok(None),
    }
}

/// What is to be done to `.credentials.yaml` so that it holds no secret under a
/// reference name.
pub fn drop_secret(raw: &str, orphan: &Option<String>) -> (r: Result<Option<WritePlan>, AppError>)
    ensures
        optional_plan(r) == secret_dropped(raw@, optional_text(*orphan)),
        drop_sticks(raw@, optional_text(*orphan)),
{
    match orphan {
        Some(name) => match read_credentials_refs(raw) {
            Ok(refs) => {
                let mut refs = refs;
                if refs.swap_out(name.as_str()) {
                    match write_credentials_refs(raw, &refs) {
                        Ok(plan) => Ok(Some(plan)),
                        Err(e) => Err(e),
                    }
                } else {
                    Ok(None)
                }
            },
            Err(e) => Err(e),
        },
        None => Ok(None),
    }
}

/// What is to be done to both files so that they hold a provider no more.
pub open spec fn provider_removed(
    settings_raw: Seq<char>,
    credentials_raw: Seq<char>,
    key: Seq<char>,
) -> Result<ProviderWriteView, ErrorView> {
    match settings_of(settings_raw) {
        Ok(settings) => match without_provider(settings, key) {
            Ok(Some((t, orphan))) => match secret_dropped(credentials_raw, orphan) {
                Ok(credentials) => Ok(
                    ProviderWriteView {
                        credentials,
                        settings: settings_planned(settings_raw, yaml_written(t)),
                    },
                ),
                Err(e) => Err(e),
            },
            Ok(None) => Ok(ProviderWriteView { credentials: None, settings: Ok(PlanView::Keep) }),
            Err(e) => Err(e),
        },
        Err(e) => Err(e),
    }
}

/// Removing a provider leaves a secret that no other provider uses.
pub open spec fn leaves_secret(settings_raw: Seq<char>, key: Seq<char>) -> bool {
    settings_of(settings_raw) matches Ok(settings) && (without_provider(settings, key) matches Ok(
        Some(left),
    ) && left.1 is Some)
}

/// Whether removing a provider leaves a secret that no other provider uses. Where it
/// does not, `.credentials.yaml` is left alone.
pub fn orphans_secret(settings_raw: &str, key: &str) -> (r: bool)
    ensures
        r == leaves_secret(settings_raw@, key@),
{
    match read_dsh_settings(settings_raw) {
        Ok(settings) => match drop_provider(&settings, key) {
            Ok(Some((_, orphan))) => orphan.is_some(),
            _ => false,
        },
        Err(_) => false,
    }
}

/// Removes the provider `llm-pi-ai.providers.<key>`, and its secret where no other
/// provider gives the same reference name. Nothing is to be done where there is no
/// such provider.
pub fn remove_provider(settings_raw: &str, credentials_raw: &str, key: &str) -> (r: Result<
    ProviderWrite,
    AppError,
>)
    ensures
        outcome(r) == provider_removed(settings_raw@, credentials_raw@, key@),
        removal_sticks(settings_raw@, credentials_raw@, key@),
{
    match read_dsh_settings(settings_raw) {
        Ok(settings) => match drop_provider(&settings, key) {
            Ok(Some((t, orphan))) => match drop_secret(credentials_raw, &orphan) {
                Ok(credentials) => Ok(
                    ProviderWrite { credentials, settings: write_dsh_settings(settings_raw, &t) },
                ),
                Err(e) => Err(e),
            },
            Ok(None) => Ok(ProviderWrite { credentials: None, settings: Ok(WritePlan::Keep) }),
            Err(e) => Err(e),
        },
        Err(e) => Err(e),
    }
}

// ----------------------------------------------------------------------------
// The default model
// ----------------------------------------------------------------------------

/// The section `agent-default-model`: the provider and model in use.
#[derive(Debug)]
pub struct DshDefaultModel {
    pub provider: String,
    pub model: String,
    pub reasoning_effort: Option<String>,
}

/// The content of a [`DshDefaultModel`].
pub struct DefaultModelView {
    pub provider: Seq<char>,
    pub model: Seq<char>,
    pub reasoning_effort: Option<Seq<char>>,
}

impl Clone for DshDefaultModel {
    fn clone(&self) -> (r: Self)
        ensures
            r@ == self@,
    {
        DshDefaultModel {
            provider: self.provider.clone(),
            model: self.model.clone(),
            reasoning_effort: clone_text(&self.reasoning_effort),
        }
    }
}

impl View for DshDefaultModel {
    type V = DefaultModelView;

    open spec fn view(&self) -> DefaultModelView {
        DefaultModelView {
            provider: self.provider@,
            model: self.model@,
            reasoning_effort: optional_text(self.reasoning_effort),
        }
    }
}

/// The provider and model that the settings give; nothing where either is missing.
pub open spec fn default_model_of(settings: Tree) -> Option<DefaultModelView> {
    match field(settings, "agent-default-model"@) {
        Some(section) => match (text_field(section, "provider"@), text_field(section, "model"@)) {
            (Some(provider), Some(model)) => Some(
                DefaultModelView {
                    provider,
                    model,
                    reasoning_effort: text_field(section, "reasoningEffort"@),
                },
            ),
            _ => None,
        },
        None => None,
    }
}

/// The provider and model that the settings give.
pub fn default_model_in(settings: &Datum) -> (r: Option<DshDefaultModel>)
    requires
        well_formed(settings@),
    ensures
        default_model_of(settings@) == (match r {
            Some(m) => Some(m@),
            None => None,
        }),
{
    match settings.get("agent-default-model") {
        Some(section) => match (section.get_str("provider"), section.get_str("model")) {
            (Some(provider), Some(model)) => Some(
                DshDefaultModel {
                    provider: provider.to_owned(),
                    model: model.to_owned(),
                    reasoning_effort: match section.get_str("reasoningEffort") {
                        Some(s) => Some(s.to_owned()),
                        None => None,
                    },
                },
            ),
            _ => None,
        },
        None => None,
    }
}

/// Reads the provider and model in use from the text of `settings.yaml`.
pub fn get_default_model(raw: &str) -> (r: Result<Option<DshDefaultModel>, AppError>)
    ensures
        match r {
            Ok(m) => settings_of(raw@) matches Ok(settings) && default_model_of(settings) == (match m {
                Some(m) => Some(m@),
                None => None,
            }),
            Err(e) => settings_of(raw@) == Err::<Tree, ErrorView>(e@),
        },
{
    match read_dsh_settings(raw) {
        Ok(settings) => Ok(default_model_in(&settings)),
        Err(e) => Err(e),
    }
}

/// The first model of a provider: the trimmed `id` of the first item of `models`.
pub open spec fn first_model_of(settings: Tree, key: Seq<char>) -> Option<Seq<char>> {
    match field(settings, "llm-pi-ai"@) {
        Some(llm) => match field(llm, "providers"@) {
            Some(providers) => match field(providers, key) {
                Some(provider) => match field(provider, "models"@) {
                    Some(models) => match items_of(models) {
                        Some(items) => if items.len() > 0 {
                            match text_field(items[0], "id"@) {
                                Some(id) => trimmed_text(id),
                                None => None,
                            }
                        } else {
                            None
                        },
                        None => None,
                    },
                    None => None,
                },
                None => None,
            },
            None => None,
        },
        None => None,
    }
}

/// The first model of a provider.
pub fn first_model(settings: &Datum, key: &str) -> (r: Option<String>)
    requires
        well_formed(settings@),
    ensures
        optional_text(r) == first_model_of(settings@, key@),
{
    let llm = match settings.get("llm-pi-ai") {
        Some(v) => v,
        None => return None,
    };
    let providers = match llm.get("providers") {
        Some(v) => v,
        None => return None,
    };
    let provider = match providers.get(key) {
        Some(v) => v,
        None => return None,
    };
    let models = match provider.get("models") {
        Some(v) => v,
        None => return None,
    };
    proof {
        lemma_untagged(models@);
    }
    match models.as_list() {
        Some(items) => if items.len() > 0 {
            proof {
                lemma_item_well_formed(items_view(items@), 0);
            }
            match items[0].get_str("id") {
                Some(id) => match trim_text(id) {
                    Some(t) => Some(t.to_owned()),
                    None => None,
                },
                None => None,
            }
        } else {
            None
        },
        None => None,
    }
}

/// The section `agent-default-model` for a provider and a model.
pub open spec fn model_section(provider: Seq<char>, model: Seq<char>, effort: Option<Seq<char>>) -> Entries {
    let section = seq![
        (Tree::Text("provider"@), Tree::Text(provider)),
        (Tree::Text("model"@), Tree::Text(model)),
    ];
    match effort {
        Some(effort) => section.push((Tree::Text("reasoningEffort"@), Tree::Text(effort))),
        None => section,
    }
}

/// The settings with a provider and its first model in use, and the reasoning
/// effort as it was; nothing where the provider has no models.
pub open spec fn switched_model(settings: Tree, key: Seq<char>) -> Result<Option<Tree>, ErrorView> {
    match first_model_of(settings, key) {
        Some(model) => match root_of(settings) {
            Ok(root) => {
                let effort = match lookup(root, Tree::Text("agent-default-model"@)) {
                    Some(section) => text_field(section, "reasoningEffort"@),
                    None => None,
                };
                Ok(
                    Some(
                        Tree::Mapping(
                            with_key(
                                root,
                                Tree::Text("agent-default-model"@),
                                Tree::Mapping(model_section(key, model, effort)),
                            ),
                        ),
                    ),
                )
            },
            Err(e) => Err(e),
        },
        None => Ok(None),
    }
}

/// The section `agent-default-model` for a provider and a model.
fn make_section(provider: &str, model: String, effort: Option<String>) -> (r: Table)
    ensures
        r@ == model_section(provider@, model@, optional_text(effort)),
        well_formed(Tree::Mapping(r@)),
{
    broadcast use lemma_same_text;
    proof {
        reveal_strlit("provider");
        reveal_strlit("model");
        reveal_strlit("reasoningEffort");
    }
    let ghost name = (Tree::Text("provider"@), Tree::Text(provider@));
    let ghost chosen = (Tree::Text("model"@), Tree::Text(model@));
    let mut section = Table::new();
    section.insert("provider", Datum::text(provider));
    assert(section@ =~= seq![name]);
    assert forall|i: int| !key_at(section@, Tree::Text("model"@), i) by {
        assert("provider"@.len() != "model"@.len());
    }
    section.insert("model", Datum::Text(model));
    assert(section@ =~= seq![name, chosen]);
    assert forall|i: int| !key_at(section@, Tree::Text("reasoningEffort"@), i) by {
        assert("provider"@.len() != "reasoningEffort"@.len());
        assert("model"@.len() != "reasoningEffort"@.len());
    }
    if let Some(effort) = effort {
        section.insert("reasoningEffort", Datum::Text(effort));
    }
    section
}

/// The settings with a provider and its first model in use.
pub fn switch_model(settings: &Datum, key: &str) -> (r: Result<Option<Datum>, AppError>)
    requires
        well_formed(settings@),
    ensures
        switched_model(settings@, key@) == (match r {
            Ok(Some(v)) => Ok::<Option<Tree>, ErrorView>(Some(v@)),
            Ok(None) => Ok(None),
            Err(e) => Err(e@),
        }),
        r matches Ok(Some(v)) ==> well_formed(v@),
{
    broadcast use lemma_mapping_view;
    match first_model(settings, key) {
        Some(model) => match settings_root(settings) {
            Ok(root) => {
                let mut root = root;
                let effort = match root.get("agent-default-model") {
                    Some(section) => match section.get_str("reasoningEffort") {
                        Some(s) => Some(s.to_owned()),
                        None => None,
                    },
                    None => None,
                };
                root.insert(
                    "agent-default-model",
                    Datum::Mapping(make_section(key, model, effort)),
                );
                Ok(Some(Datum::Mapping(root)))
            },
            Err(e) => Err(e),
        },
        None => Ok(None),
    }
}

/// What is to be done to `settings.yaml` so that a provider is in use.
pub open spec fn model_set(raw: Seq<char>, key: Seq<char>) -> Result<PlanView, ErrorView> {
    match settings_of(raw) {
        Ok(settings) => match switched_model(settings, key) {
            Ok(Some(t)) => settings_planned(raw, yaml_written(t)),
            Ok(None) => Ok(PlanView::Keep),
            Err(e) => Err(e),
        },
        Err(e) => Err(e),
    }
}

/// Takes a provider into use, with the first of its models; the reasoning effort
/// stays as it was. Nothing is to be done where the provider has no models.
pub fn set_default_model(raw: &str, provider_key: &str) -> (r: Result<WritePlan, AppError>)
    ensures
        outcome(r) == model_set(raw@, provider_key@),
        model_sticks(raw@, provider_key@),
{
    match read_dsh_settings(raw) {
        Ok(settings) => match switch_model(&settings, provider_key) {
            Ok(Some(t)) => {
                proof {
                    law_switch_model(settings@, provider_key@);
                }
                write_dsh_settings(raw, &t)
            },
            Ok(None) => Ok(WritePlan::Keep),
            Err(e) => Err(e),
        },
        Err(e) => Err(e),
    }
}

// ----------------------------------------------------------------------------
// Common configuration
// ----------------------------------------------------------------------------

/// The keys of the settings that a snippet does not touch.
pub open spec fn protected_keys() -> Seq<Seq<char>> {
    seq!["llm-pi-ai"@, "agent-default-model"@]
}

/// The keys of the settings that a snippet does not touch.
fn protected_names() -> (r: Vec<String>)
    ensures
        texts(r@) == protected_keys(),
{
    let r: Vec<String> = vec!["llm-pi-ai".to_owned(), "agent-default-model".to_owned()];
    assert(texts(r@) =~= protected_keys());
    r
}

/// The entries of a snippet, given what its text was read as.
pub open spec fn snippet_read(parsed: Result<Tree, Seq<char>>) -> Result<Entries, ErrorView> {
    match parsed {
        Ok(Tree::Mapping(m)) => Ok(m),
        Ok(Tree::Null) => Ok(Seq::empty()),
        Ok(_) => Err(ErrorView::Config("dsh common config snippet must be a YAML mapping"@)),
        Err(e) => Err(ErrorView::Config("Failed to parse dsh common config: "@ + e)),
    }
}

/// The entries that the text of a snippet holds: none where it is blank.
pub open spec fn snippet_of(snippet: Seq<char>) -> Result<Entries, ErrorView> {
    if is_blank(snippet) {
        Ok(Seq::empty())
    } else {
        snippet_read(yaml_parsed(snippet))
    }
}

/// The entries of a snippet, given what its text was read as.
pub fn snippet_from(parsed: Result<Datum, String>) -> (r: Result<Table, AppError>)
    requires
        parsed_well(parsed),
    ensures
        outcome(r) == snippet_read(parsed_view(parsed)),
        r matches Ok(m) ==> well_formed(Tree::Mapping(m@)),
{
    broadcast use lemma_mapping_view;
    match parsed {
        Ok(Datum::Mapping(m)) => Ok(m),
        Ok(Datum::Null) => Ok(Table::new()),
        Ok(_) => Err(
            AppError::Config("dsh common config snippet must be a YAML mapping".to_owned()),
        ),
        Err(e) => Err(AppError::Config(glue("Failed to parse dsh common config: ", e.as_str()))),
    }
}

/// Reads a snippet, which is a YAML mapping.
pub fn parse_common_config_snippet(snippet: &str) -> (r: Result<Table, AppError>)
    ensures
        outcome(r) == snippet_of(snippet@),
        r matches Ok(m) ==> well_formed(Tree::Mapping(m@)),
{
    if blank(snippet) {
        Ok(Table::new())
    } else {
        snippet_from(parse_yaml(snippet))
    }
}

/// The settings with a snippet merged in.
pub open spec fn settings_with(settings: Tree, snippet: Entries) -> Result<Tree, ErrorView> {
    match root_of(settings) {
        Ok(root) => Ok(Tree::Mapping(applied_to(root, snippet, protected_keys()))),
        Err(e) => Err(e),
    }
}

/// The settings with a snippet taken out.
pub open spec fn settings_without(settings: Tree, snippet: Entries) -> Result<Tree, ErrorView> {
    match root_of(settings) {
        Ok(root) => Ok(Tree::Mapping(taken_from(root, snippet, protected_keys(), false))),
        Err(e) => Err(e),
    }
}

/// The settings hold everything in a snippet.
pub open spec fn settings_hold(settings: Tree, snippet: Entries) -> bool {
    entries_of(settings) matches Some(root) && is_applied(root, snippet, protected_keys())
}

/// The settings with a snippet merged in.
pub fn merge_common_config(settings: &Datum, snippet: &Table) -> (r: Result<Datum, AppError>)
    requires
        well_formed(settings@),
        well_formed(Tree::Mapping(snippet@)),
    ensures
        outcome(r) == settings_with(settings@, snippet@),
        r matches Ok(v) ==> well_formed(v@),
{
    broadcast use lemma_mapping_view;
    match settings_root(settings) {
        Ok(root) => Ok(Datum::Mapping(apply_snippet(&root, snippet, &protected_names()))),
        Err(e) => Err(e),
    }
}

/// The settings with a snippet taken out.
pub fn strip_common_config(settings: &Datum, snippet: &Table) -> (r: Result<Datum, AppError>)
    requires
        well_formed(settings@),
        well_formed(Tree::Mapping(snippet@)),
    ensures
        outcome(r) == settings_without(settings@, snippet@),
        r matches Ok(v) ==> well_formed(v@),
{
    broadcast use lemma_mapping_view;
    match settings_root(settings) {
        Ok(root) => Ok(Datum::Mapping(take_snippet(&root, snippet, &protected_names(), false))),
        Err(e) => Err(e),
    }
}

/// Whether the settings hold everything in a snippet.
pub fn holds_common_config(settings: &Datum, snippet: &Table) -> (r: bool)
    requires
        well_formed(settings@),
        well_formed(Tree::Mapping(snippet@)),
    ensures
        r == settings_hold(settings@, snippet@),
{
    proof {
        lemma_untagged(settings@);
    }
    match settings.as_mapping() {
        Some(root) => snippet_applied(root, snippet, &protected_names()),
        None => false,
    }
}

/// What is to be done to `settings.yaml` so that it holds a snippet.
pub open spec fn snippet_applying(raw: Seq<char>, snippet: Seq<char>) -> Result<PlanView, ErrorView> {
    match snippet_of(snippet) {
        Ok(m) => if m.len() == 0 {
            Ok(PlanView::Keep)
        } else {
            match settings_of(raw) {
                Ok(settings) => match settings_with(settings, m) {
                    Ok(t) => settings_planned(raw, yaml_written(t)),
                    Err(e) => Err(e),
                },
                Err(e) => Err(e),
            }
        },
        Err(e) => Err(e),
    }
}

/// Merges a snippet into `settings.yaml`. Its keys `llm-pi-ai` and
/// `agent-default-model` are left out.
pub fn apply_dsh_common_config(raw: &str, snippet: &str) -> (r: Result<WritePlan, AppError>)
    ensures
        outcome(r) == snippet_applying(raw@, snippet@),
        snippet_sticks(raw@, snippet@),
{
    match parse_common_config_snippet(snippet) {
        Ok(m) => if m.is_empty() {
            Ok(WritePlan::Keep)
        } else {
            match read_dsh_settings(raw) {
                Ok(settings) => match merge_common_config(&settings, &m) {
                    Ok(t) => {
                        let r = write_dsh_settings(raw, &t);
                        proof {
                            law_snippet_applied(raw@, snippet@, settings@, m@);
                        }
                        r
                    },
                    Err(e) => Err(e),
                },
                Err(e) => Err(e),
            }
        },
        Err(e) => Err(e),
    }
}

/// What is to be done to `settings.yaml` so that it does not hold a snippet.
pub open spec fn snippet_removing(raw: Seq<char>, snippet: Seq<char>) -> Result<PlanView, ErrorView> {
    match snippet_of(snippet) {
        Ok(m) => if m.len() == 0 {
            Ok(PlanView::Keep)
        } else {
            match settings_of(raw) {
                Ok(settings) => match settings_without(settings, m) {
                    Ok(t) => settings_planned(raw, yaml_written(t)),
                    Err(e) => Err(e),
                },
                Err(e) => Err(e),
            }
        },
        Err(e) => Err(e),
    }
}

/// Takes a snippet out of `settings.yaml`: of its values, those that still are
/// what the snippet says.
pub fn remove_dsh_common_config(raw: &str, snippet: &str) -> (r: Result<WritePlan, AppError>)
    ensures
        outcome(r) == snippet_removing(raw@, snippet@),
        snippet_leaves(raw@, snippet@),
{
    match parse_common_config_snippet(snippet) {
        Ok(m) => if m.is_empty() {
            Ok(WritePlan::Keep)
        } else {
            match read_dsh_settings(raw) {
                Ok(settings) => match strip_common_config(&settings, &m) {
                    Ok(t) => write_dsh_settings(raw, &t),
                    Err(e) => Err(e),
                },
                Err(e) => Err(e),
            }
        },
        Err(e) => Err(e),
    }
}

/// `settings.yaml` holds everything in a snippet, and both can be read.
pub open spec fn snippet_held(raw: Seq<char>, snippet: Seq<char>) -> bool {
    snippet_of(snippet) matches Ok(m) && (m.len() == 0 || (settings_of(raw) matches Ok(settings)
        && settings_hold(settings, m)))
}

/// Whether `settings.yaml` holds everything in a snippet.
pub fn dsh_common_config_applied(raw: &str, snippet: &str) -> (r: bool)
    ensures
        r == snippet_held(raw@, snippet@),
{
    match parse_common_config_snippet(snippet) {
        Ok(m) => if m.is_empty() {
            true
        } else {
            match read_dsh_settings(raw) {
                Ok(settings) => holds_common_config(&settings, &m),
                Err(_) => false,
            }
        },
        Err(_) => false,
    }
}

/// What is to be done to `settings.yaml` so that one snippet takes the place of
/// another. The old one goes first; where the new one cannot be merged in after that,
/// the settings keep what is left.
#[derive(Debug)]
pub struct SnippetChange {
    /// What is to be done to take the old snippet out.
    pub removing: WritePlan,
    /// What is to be done after that to merge the new one in.
    pub applying: Result<WritePlan, AppError>,
}

/// The content of a [`SnippetChange`].
pub struct SnippetChangeView {
    pub removing: PlanView,
    pub applying: Result<PlanView, ErrorView>,
}

impl View for SnippetChange {
    type V = SnippetChangeView;

    open spec fn view(&self) -> SnippetChangeView {
        SnippetChangeView { removing: self.removing@, applying: outcome(self.applying) }
    }
}

/// What is to be done to `settings.yaml` so that one snippet takes the place of
/// another; a blank text stands for none.
pub open spec fn snippet_replacing(
    raw: Seq<char>,
    old_snippet: Seq<char>,
    new_snippet: Seq<char>,
) -> Result<SnippetChangeView, ErrorView> {
    match snippet_removing(raw, old_snippet) {
        Ok(removing) => Ok(
            SnippetChangeView {
                removing,
                applying: snippet_applying(carried_out(raw, removing), new_snippet),
            },
        ),
        Err(e) => Err(e),
    }
}

/// Replaces one snippet in `settings.yaml` by another; a blank text stands for none.
pub fn replace_dsh_common_config(raw: &str, old_snippet: &str, new_snippet: &str) -> (r: Result<
    SnippetChange,
    AppError,
>)
    ensures
        outcome(r) == snippet_replacing(raw@, old_snippet@, new_snippet@),
        replacement_sticks(raw@, old_snippet@, new_snippet@),
{
    match remove_dsh_common_config(raw, old_snippet) {
        Ok(removing) => {
            let applying = match &removing {
                WritePlan::Keep => apply_dsh_common_config(raw, new_snippet),
                WritePlan::Write { text, backup: _ } => apply_dsh_common_config(
                    text.as_str(),
                    new_snippet,
                ),
            };
            proof {
                lemma_replacement(raw@, old_snippet@, new_snippet@);
            }
            Ok(SnippetChange { removing, applying })
        },
        Err(e) => {
            proof {
                lemma_replacement_fails(raw@, old_snippet@, new_snippet@);
            }
            Err(e)
        },
    }
}

// ----------------------------------------------------------------------------
// Validation
// ----------------------------------------------------------------------------

/// A protocol that dsh speaks.
pub open spec fn is_allowed_api(s: Seq<char>) -> bool {
    s == "openai-completions"@ || s == "openai-responses"@ || s == "anthropic-messages"@
}

/// A mapping holds a text that is not blank under a name.
pub open spec fn has_text(t: Tree, name: Seq<char>) -> bool {
    text_field(t, name) matches Some(s) && !is_blank(s)
}

/// Whether a mapping holds a text that is not blank under a name.
pub fn holds_text(v: &Datum, name: &str) -> (r: bool)
    requires
        well_formed(v@),
    ensures
        r == has_text(v@, name@),
{
    match v.get_str(name) {
        Some(s) => !blank(s),
        None => false,
    }
}

/// The position of the first model without an `id`.
pub open spec fn first_nameless(models: Seq<Tree>, i: nat) -> Option<nat>
    decreases models.len() - i,
{
    if i >= models.len() {
        None
    } else if !has_text(models[i as int], "id"@) {
        Some(i)
    } else {
        first_nameless(models, i + 1)
    }
}

/// The position of the first model without an `id`.
pub fn find_nameless(models: &Vec<Datum>) -> (r: Option<usize>)
    requires
        well_formed(Tree::List(items_view(models@))),
    ensures
        first_nameless(items_view(models@), 0) == (match r {
            Some(i) => Some(i as nat),
            None => None,
        }),
{
    let mut i: usize = 0;
    while i < models.len()
        invariant
            i <= models@.len(),
            well_formed(Tree::List(items_view(models@))),
            first_nameless(items_view(models@), 0) == first_nameless(items_view(models@), i as nat),
        decreases models@.len() - i,
    {
        proof {
            lemma_item_well_formed(items_view(models@), i as int);
        }
        if !holds_text(&models[i], "id") {
            return Some(i);
        }
        i += 1;
    }
    None
}

/// The error for a model without an `id`.
pub open spec fn nameless_error(key: Seq<char>, i: nat) -> ErrorView {
    ErrorView::Localized {
        key,
        zh: "models["@ + decimal(i) + "] 缺少非空 id"@,
        en: "models["@ + decimal(i) + "] must have a non-empty id."@,
    }
}

/// The error for a model without an `id`.
pub fn nameless(key: &str, i: usize) -> (r: AppError)
    ensures
        r@ == nameless_error(key@, i as nat),
{
    let place = glue("models[", numeral(i as u64).as_str());
    AppError::localized(
        key,
        glue(place.as_str(), "] 缺少非空 id").as_str(),
        glue(place.as_str(), "] must have a non-empty id.").as_str(),
    )
}

/// What is wrong with a provider, if anything: it must be an object; its `api`,
/// where it has one, must be a protocol that dsh speaks; its `baseURL` must not be
/// blank; and its `models` must be a list that is not empty, each with an `id`.
pub open spec fn provider_fault(config: Tree) -> Option<ErrorView> {
    if !(config is Mapping) {
        Some(
            ErrorView::Localized {
                key: "provider.dsh.configNotObject"@,
                zh: "dsh 供应商配置必须是 JSON 对象"@,
                en: "dsh provider config must be a JSON object."@,
            },
        )
    } else if field(config, "api"@) is Some && !(text_field(config, "api"@) matches Some(api)
        && is_allowed_api(api)) {
        Some(
            ErrorView::Localized {
                key: "provider.dsh.invalidApi"@,
                zh: "api 必须是以下之一: openai-completions, openai-responses, anthropic-messages"@,
                en: "api must be one of: openai-completions, openai-responses, anthropic-messages."@,
            },
        )
    } else if !has_text(config, "baseURL"@) {
        Some(
            ErrorView::Localized {
                key: "provider.dsh.baseUrlRequired"@,
                zh: "baseURL 不能为空"@,
                en: "baseURL is required."@,
            },
        )
    } else {
        match field(config, "models"@) {
            Some(Tree::List(models)) => if models.len() > 0 {
                match first_nameless(models, 0) {
                    Some(i) => Some(nameless_error("provider.dsh.modelIdRequired"@, i)),
                    None => None,
                }
            } else {
                Some(no_models())
            },
            _ => Some(no_models()),
        }
    }
}

/// The error for a provider without models.
pub open spec fn no_models() -> ErrorView {
    ErrorView::Localized {
        key: "provider.dsh.modelsRequired"@,
        zh: "models 必须是非空数组"@,
        en: "models must be a non-empty array."@,
    }
}

/// Whether a protocol is one that dsh speaks.
fn allowed_api(s: &str) -> (r: bool)
    ensures
        r == is_allowed_api(s@),
{
    text_eq(s, "openai-completions") || text_eq(s, "openai-responses") || text_eq(
        s,
        "anthropic-messages",
    )
}

/// The error for a provider without models.
fn models_required() -> (r: AppError)
    ensures
        r@ == no_models(),
{
    AppError::localized(
        "provider.dsh.modelsRequired",
        "models 必须是非空数组",
        "models must be a non-empty array.",
    )
}

/// Checks a provider for what dsh requires of one that it does not know itself.
pub fn validate_dsh_provider_config(config: &Datum) -> (r: Result<(), AppError>)
    requires
        is_json(config@),
    ensures
        match r {
            Ok(_) => provider_fault(config@) is None,
            Err(e) => provider_fault(config@) == Some(e@),
        },
{
    broadcast use lemma_mapping_view, lemma_list_view;
    proof {
        lemma_untagged(config@);
    }
    match config {
        Datum::Mapping(_) => {},
        _ => {
            return Err(
                AppError::localized(
                    "provider.dsh.configNotObject",
                    "dsh 供应商配置必须是 JSON 对象",
                    "dsh provider config must be a JSON object.",
                ),
            );
        },
    }
    if let Some(api) = config.get("api") {
        let valid = match api.as_str() {
            Some(s) => allowed_api(s),
            None => false,
        };
        if !valid {
            return Err(
                AppError::localized(
                    "provider.dsh.invalidApi",
                    "api 必须是以下之一: openai-completions, openai-responses, anthropic-messages",
                    "api must be one of: openai-completions, openai-responses, anthropic-messages.",
                ),
            );
        }
    }
    if !holds_text(config, "baseURL") {
        return Err(
            AppError::localized(
                "provider.dsh.baseUrlRequired",
                "baseURL 不能为空",
                "baseURL is required.",
            ),
        );
    }
    match config.get("models") {
        Some(Datum::List(models)) => if models.len() > 0 {
            match find_nameless(models) {
                Some(i) => Err(nameless("provider.dsh.modelIdRequired", i)),
                None => Ok(()),
            }
        } else {
            Err(models_required())
        },
        _ => Err(models_required()),
    }
}

// ----------------------------------------------------------------------------
// Copies
// ----------------------------------------------------------------------------

/// A name for a copy of a file of dsh that is made now, and that is not taken. The kind
/// is `settings`, `credentials` or `cordis`.
pub fn create_dsh_backup(kind: &str, taken: &Vec<String>) -> (r: String)
    ensures
        exists|stamp: Seq<char>, n: nat| #[trigger]
            is_first_free(
                r@,
                prefix_of("dsh"@, kind@) + stamp,
                "yaml"@,
                texts(taken@),
                n,
            ),
{
    backup_name("dsh", kind, "yaml", taken)
}

/// The extensions of the copies of files of dsh.
pub open spec fn backup_extensions() -> Seq<Seq<char>> {
    seq!["yaml"@, "yml"@]
}

/// The names of the copies of one kind that are to be removed, the oldest first, so
/// that no more than `retain` are left.
pub fn cleanup_dsh_backups(files: &Vec<BackupFile>, kind: &str, retain: usize) -> (r: Vec<String>)
    ensures
        texts(r@) == expired(
            file_views(files@),
            prefix_of("dsh"@, kind@),
            backup_extensions(),
            retain as nat,
        ).map_values(|f: BackupView| f.name),
{
    let extensions: Vec<String> = vec!["yaml".to_owned(), "yml".to_owned()];
    assert(texts(extensions@) =~= backup_extensions());
    expired_backups(files, backup_prefix("dsh", kind).as_str(), &extensions, retain)
}

} // verus!
