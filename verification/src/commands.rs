//! What the commands of the user interface decide about configuration.
//!
//! A snippet of common configuration is a text that is merged into the configuration
//! of an application: TOML for Codex, YAML for dsh, and JSON for the others. It is
//! checked before it is stored.

use vstd::prelude::*;

use crate::dsh_config::{parse_common_config_snippet, snippet_of};
use crate::error::message_of;
use crate::json::{json_parsed, parse_json};
use crate::text::{
    among, blank, glue, is_blank, optional_text, text_eq, texts, trim_text, trimmed_text,
};
use crate::tree::{has_key, is_json, lemma_entry_well_formed, lookup, Entries, Tree};
use crate::value::{lemma_mapping_view, Datum, Table};

verus! {

/// An application that has a snippet of common configuration.
#[derive(Debug, Clone, Copy, PartialEq, Eq, Structural)]
pub enum SnippetApp {
    Claude,
    Codex,
    Gemini,
    Omo,
    OmoSlim,
    Dsh,
    /// An application whose snippet is not checked.
    Other,
}

// ----------------------------------------------------------------------------
// Messages
// ----------------------------------------------------------------------------

/// The language of messages: Chinese where none is set.
pub open spec fn language_of(lang: Option<Seq<char>>) -> Seq<char> {
    match lang {
        Some(l) => l,
        None => "zh"@,
    }
}

/// The message for a text that is not JSON.
pub open spec fn json_message(error: Seq<char>, lang: Option<Seq<char>>) -> Seq<char> {
    if language_of(lang) == "en"@ {
        "Invalid JSON format: "@ + error
    } else if language_of(lang) == "ja"@ {
        "JSON形式が無効です: "@ + error
    } else {
        "无效的 JSON 格式: "@ + error
    }
}

/// The message for a text that is not TOML.
pub open spec fn toml_message(error: Seq<char>, lang: Option<Seq<char>>) -> Seq<char> {
    if language_of(lang) == "en"@ {
        "Invalid TOML format: "@ + error
    } else if language_of(lang) == "ja"@ {
        "TOML形式が無効です: "@ + error
    } else {
        "无效的 TOML 格式: "@ + error
    }
}

/// The content of a text, where there is one.
pub open spec fn optional_str(s: Option<&str>) -> Option<Seq<char>> {
    match s {
        Some(s) => Some(s@),
        None => None,
    }
}

/// The language of messages.
fn language<'a>(lang: Option<&'a str>) -> (r: &'a str)
    ensures
        r@ == language_of(optional_str(lang)),
{
    match lang {
        Some(l) => l,
        None => "zh",
    }
}

/// The message for a text that is not JSON, in the language of the user.
pub fn invalid_json_format_error(error: &str, lang: Option<&str>) -> (r: String)
    ensures
        r@ == json_message(error@, optional_str(lang)),
{
    let l = language(lang);
    if text_eq(l, "en") {
        glue("Invalid JSON format: ", error)
    } else if text_eq(l, "ja") {
        glue("JSON形式が無効です: ", error)
    } else {
        glue("无效的 JSON 格式: ", error)
    }
}

/// The message for a text that is not TOML, in the language of the user.
pub fn invalid_toml_format_error(error: &str, lang: Option<&str>) -> (r: String)
    ensures
        r@ == toml_message(error@, optional_str(lang)),
{
    let l = language(lang);
    if text_eq(l, "en") {
        glue("Invalid TOML format: ", error)
    } else if text_eq(l, "ja") {
        glue("TOML形式が無効です: ", error)
    } else {
        glue("无效的 TOML 格式: ", error)
    }
}

/// The message of `toml_edit` for a text that it does not take; none where the text
/// is TOML.
pub uninterp spec fn toml_fault(text: Seq<char>) -> Option<Seq<char>>;

/// `toml_edit::DocumentMut::from_str`: whether a text is TOML. Its message for a text
/// that is not is a function of the text.
#[verifier::external_body]
fn check_toml(text: &str) -> (r: Option<String>)
    ensures
        optional_text(r) == toml_fault(text@),
{
    match text.parse::<toml_edit::DocumentMut>() {
        Ok(_) => None,
        Err(e) => Some(e.to_string()),
    }
}

// ----------------------------------------------------------------------------
// Gemini
// ----------------------------------------------------------------------------

/// The keys of an object.
pub open spec fn keys_of(m: Entries) -> Seq<Seq<char>> {
    Seq::new(m.len(), |i: int| m[i].0->Text_0)
}

/// Texts with commas between them.
pub open spec fn comma_list(names: Seq<Seq<char>>) -> Seq<char>
    decreases names.len(),
{
    if names.len() == 0 {
        Seq::empty()
    } else if names.len() == 1 {
        names[0]
    } else {
        comma_list(names.drop_last()) + ", "@ + names.last()
    }
}

/// A key that belongs to a provider: it names its address or a secret.
pub open spec fn is_forbidden(key: Seq<char>, sensitive: Seq<Seq<char>>) -> bool {
    key == "GOOGLE_GEMINI_BASE_URL"@ || sensitive.contains(key)
}

/// What is wrong with the variables of a Gemini snippet, if anything.
pub open spec fn env_fault(env: Entries, sensitive: Seq<Seq<char>>) -> Option<Seq<char>> {
    let forbidden = keys_of(env).filter(|key: Seq<char>| is_forbidden(key, sensitive));
    if forbidden.len() > 0 {
        Some(
            "Gemini common config may not contain provider URLs or credentials: "@ + comma_list(
                forbidden,
            ),
        )
    } else if exists|i: int| 0 <= i < env.len() && !((#[trigger] env[i]).1 is Text) {
        Some("Gemini common config env values must all be strings"@)
    } else {
        None
    }
}

/// A section of a Gemini snippet.
pub open spec fn is_section(key: Seq<char>) -> bool {
    key == "env"@ || key == "config"@
}

/// What is wrong with a Gemini snippet, if anything: it is an object with the sections
/// `env` and `config`, or with variables alone.
pub open spec fn gemini_fault(t: Tree, sensitive: Seq<Seq<char>>) -> Option<Seq<char>> {
    match t {
        Tree::Mapping(m) => if has_key(m, Tree::Text("env"@)) || has_key(m, Tree::Text("config"@)) {
            let unexpected = keys_of(m).filter(|key: Seq<char>| !is_section(key));
            if unexpected.len() > 0 {
                Some(
                    "Gemini common config only supports env and config sections: "@ + comma_list(
                        unexpected,
                    ),
                )
            } else if lookup(m, Tree::Text("config"@)) matches Some(v) && !(v is Mapping) {
                Some("Gemini common config.config must be a JSON object"@)
            } else {
                match lookup(m, Tree::Text("env"@)) {
                    Some(Tree::Mapping(env)) => env_fault(env, sensitive),
                    Some(_) => Some("Gemini common config.env must be a JSON object"@),
                    None => None,
                }
            }
        } else {
            env_fault(m, sensitive)
        },
        _ => Some("Gemini common config must be a JSON object"@),
    }
}

/// The variables of a Gemini snippet: its section `env`, or all of it where it has no
/// sections.
pub open spec fn variables_of(t: Tree) -> Entries {
    match t {
        Tree::Mapping(m) => if has_key(m, Tree::Text("env"@)) || has_key(m, Tree::Text("config"@)) {
            match lookup(m, Tree::Text("env"@)) {
                Some(Tree::Mapping(env)) => env,
                _ => Seq::empty(),
            }
        } else {
            m
        },
        _ => Seq::empty(),
    }
}

/// The names of the variables of a Gemini snippet; none where it is no JSON text.
pub open spec fn variable_names(snippet: Seq<char>) -> Seq<Seq<char>> {
    match json_parsed(snippet) {
        Ok(t) => keys_of(variables_of(t)),
        Err(_) => Seq::empty(),
    }
}

/// Two conditions that agree on all names choose the same ones.
proof fn lemma_filter_agrees(
    names: Seq<Seq<char>>,
    p: spec_fn(Seq<char>) -> bool,
    q: spec_fn(Seq<char>) -> bool,
)
    requires
        forall|i: int| 0 <= i < names.len() ==> p(#[trigger] names[i]) == q(names[i]),
    ensures
        names.filter(p) == names.filter(q),
    decreases names.len(),
{
    reveal(Seq::filter);
    if names.len() > 0 {
        let front = names.drop_last();
        assert forall|i: int| 0 <= i < front.len() implies p(#[trigger] front[i]) == q(front[i]) by {
            assert(front[i] == names[i]);
        }
        lemma_filter_agrees(front, p, q);
        assert(names[names.len() - 1] == names.last());
    } else {
        assert(names.filter(p) =~= names.filter(q));
    }
}

/// Whether anything is wrong with a Gemini snippet depends on no secret but those among
/// the names of its variables.
pub proof fn law_variables_decide(t: Tree, a: Seq<Seq<char>>, b: Seq<Seq<char>>)
    requires
        forall|i: int|
            0 <= i < variables_of(t).len() ==> a.contains(#[trigger] keys_of(variables_of(t))[i])
                == b.contains(keys_of(variables_of(t))[i]),
    ensures
        gemini_fault(t, a) == gemini_fault(t, b),
{
    let env = variables_of(t);
    lemma_filter_agrees(
        keys_of(env),
        |key: Seq<char>| is_forbidden(key, a),
        |key: Seq<char>| is_forbidden(key, b),
    );
}

/// Texts with commas between them.
fn join_names(names: &Vec<String>) -> (r: String)
    ensures
        r@ == comma_list(texts(names@)),
{
    let ghost all = texts(names@);
    let mut out = String::new();
    let mut i: usize = 0;
    assert(out@ =~= comma_list(all.take(0)));
    while i < names.len()
        invariant
            i <= names@.len(),
            all == texts(names@),
            out@ == comma_list(all.take(i as int)),
        decreases names@.len() - i,
    {
        proof {
            assert(all.take(i + 1).drop_last() =~= all.take(i as int));
            assert(all.take(i + 1).last() == names@[i as int]@);
        }
        if i == 0 {
            out = names[i].clone();
            assert(all.take(1)[0] == names@[0]@);
        } else {
            out.append(", ");
            out.append(names[i].as_str());
            assert(out@ =~= comma_list(all.take(i as int)) + ", "@ + names@[i as int]@);
        }
        i += 1;
    }
    assert(all.take(i as int) =~= all);
    out
}

/// The keys of an object.
fn list_keys(m: &Table) -> (r: Vec<String>)
    requires
        is_json(Tree::Mapping(m@)),
    ensures
        texts(r@) == keys_of(m@),
{
    let mut out: Vec<String> = Vec::new();
    let mut i: usize = 0;
    while i < m.entries.len()
        invariant
            i <= m.entries@.len(),
            is_json(Tree::Mapping(m@)),
            out@.len() == i,
            forall|j: int| 0 <= j < i ==> (#[trigger] out@[j])@ == keys_of(m@)[j],
        decreases m.entries@.len() - i,
    {
        proof {
            lemma_entry_well_formed(m@, i as int);
            assert(m@[i as int].0 == m.entries@[i as int].0@);
        }
        match &m.entries[i].0 {
            Datum::Text(key) => out.push(key.clone()),
            _ => {
                assert(false);
            },
        }
        i += 1;
    }
    assert(texts(out@) =~= keys_of(m@));
    out
}

/// The names of the variables of a Gemini snippet, of which those that are secrets are
/// to be known before it is checked.
pub fn snippet_keys(snippet: &str) -> (r: Vec<String>)
    ensures
        texts(r@) == variable_names(snippet@),
{
    broadcast use lemma_mapping_view;
    let none: Vec<String> = Vec::new();
    proof {
        assert(texts(none@) =~= Seq::<Seq<char>>::empty());
        assert(keys_of(Seq::empty()) =~= Seq::<Seq<char>>::empty());
    }
    match parse_json(snippet) {
        Ok(Datum::Mapping(m)) => if m.contains("env") || m.contains("config") {
            match m.get("env") {
                Some(Datum::Mapping(env)) => list_keys(env),
                _ => none,
            }
        } else {
            list_keys(&m)
        },
        _ => none,
    }
}

/// What is wrong with the variables of a Gemini snippet, if anything.
fn check_env(env: &Table, sensitive: &Vec<String>) -> (r: Option<String>)
    requires
        is_json(Tree::Mapping(env@)),
    ensures
        optional_text(r) == env_fault(env@, texts(sensitive@)),
{
    let keys = list_keys(env);
    let ghost all = keys_of(env@);
    let ghost p = |key: Seq<char>| is_forbidden(key, texts(sensitive@));
    let mut forbidden: Vec<String> = Vec::new();
    let mut i: usize = 0;
    proof {
        reveal(Seq::filter);
        assert(texts(forbidden@) =~= all.take(0).filter(p));
    }
    while i < keys.len()
        invariant
            i <= keys@.len(),
            all == texts(keys@),
            p == (|key: Seq<char>| is_forbidden(key, texts(sensitive@))),
            texts(forbidden@) == all.take(i as int).filter(p),
        decreases keys@.len() - i,
    {
        let ghost before = texts(forbidden@);
        proof {
            reveal(Seq::filter);
            assert(all.take(i + 1).drop_last() =~= all.take(i as int));
            assert(all.take(i + 1).last() == keys@[i as int]@);
        }
        if text_eq(keys[i].as_str(), "GOOGLE_GEMINI_BASE_URL") || among(
            sensitive,
            keys[i].as_str(),
        ) {
            forbidden.push(keys[i].clone());
            assert(texts(forbidden@) =~= before.push(keys@[i as int]@));
        }
        i += 1;
    }
    assert(all.take(i as int) =~= all);
    assert(texts(forbidden@) == all.filter(p));
    if forbidden.len() > 0 {
        return Some(
            glue(
                "Gemini common config may not contain provider URLs or credentials: ",
                join_names(&forbidden).as_str(),
            ),
        );
    }
    let mut j: usize = 0;
    while j < env.entries.len()
        invariant
            j <= env.entries@.len(),
            all == keys_of(env@),
            p == (|key: Seq<char>| is_forbidden(key, texts(sensitive@))),
            all.filter(p).len() == 0,
            forall|k: int| 0 <= k < j ==> (#[trigger] env@[k]).1 is Text,
        decreases env.entries@.len() - j,
    {
        assert(env@[j as int].1 == env.entries@[j as int].1@);
        match &env.entries[j].1 {
            Datum::Text(_) => {},
            _ => {
                assert(!(env@[j as int].1 is Text));
                return Some("Gemini common config env values must all be strings".to_owned());
            },
        }
        j += 1;
    }
    None
}

/// What is wrong with the sections of a Gemini snippet, if anything.
fn check_gemini(value: &Datum, sensitive: &Vec<String>) -> (r: Option<String>)
    requires
        is_json(value@),
    ensures
        optional_text(r) == gemini_fault(value@, texts(sensitive@)),
{
    broadcast use lemma_mapping_view;
    let m = match value {
        Datum::Mapping(m) => m,
        _ => {
            return Some("Gemini common config must be a JSON object".to_owned());
        },
    };
    if !m.contains("env") && !m.contains("config") {
        return check_env(m, sensitive);
    }
    let keys = list_keys(m);
    let ghost all = keys_of(m@);
    let ghost p = |key: Seq<char>| !is_section(key);
    let mut unexpected: Vec<String> = Vec::new();
    let mut i: usize = 0;
    proof {
        reveal(Seq::filter);
        assert(texts(unexpected@) =~= all.take(0).filter(p));
    }
    while i < keys.len()
        invariant
            i <= keys@.len(),
            all == texts(keys@),
            p == (|key: Seq<char>| !is_section(key)),
            texts(unexpected@) == all.take(i as int).filter(p),
        decreases keys@.len() - i,
    {
        let ghost before = texts(unexpected@);
        proof {
            reveal(Seq::filter);
            assert(all.take(i + 1).drop_last() =~= all.take(i as int));
            assert(all.take(i + 1).last() == keys@[i as int]@);
        }
        if !text_eq(keys[i].as_str(), "env") && !text_eq(keys[i].as_str(), "config") {
            unexpected.push(keys[i].clone());
            assert(texts(unexpected@) =~= before.push(keys@[i as int]@));
        }
        i += 1;
    }
    assert(all.take(i as int) =~= all);
    assert(texts(unexpected@) == all.filter(p));
    if unexpected.len() > 0 {
        return Some(
            glue(
                "Gemini common config only supports env and config sections: ",
                join_names(&unexpected).as_str(),
            ),
        );
    }
    if let Some(v) = m.get("config") {
        match v {
            Datum::Mapping(_) => {},
            _ => {
                return Some("Gemini common config.config must be a JSON object".to_owned());
            },
        }
    }
    match m.get("env") {
        Some(Datum::Mapping(env)) => check_env(env, sensitive),
        Some(_) => Some("Gemini common config.env must be a JSON object".to_owned()),
        None => None,
    }
}

// ----------------------------------------------------------------------------
// Snippets
// ----------------------------------------------------------------------------

/// What is wrong with a text that must be JSON, given what it was read as.
pub open spec fn json_fault(parsed: Result<Tree, Seq<char>>, lang: Option<Seq<char>>) -> Option<
    Seq<char>,
> {
    match parsed {
        Ok(_) => None,
        Err(e) => Some(json_message(e, lang)),
    }
}

/// What is wrong with a text that must be a JSON object, given what it was read as.
/// `title` is the name of the application, as the user sees it.
pub open spec fn object_fault(
    title: Seq<char>,
    parsed: Result<Tree, Seq<char>>,
    lang: Option<Seq<char>>,
) -> Option<Seq<char>> {
    match parsed {
        Ok(Tree::Mapping(_)) => None,
        Ok(_) => Some(title + " common config must be a JSON object"@),
        Err(e) => Some(json_message(e, lang)),
    }
}

/// What is wrong with a snippet, if anything. `title` is the name of the application,
/// as the user sees it; `sensitive` are the keys that name secrets.
pub open spec fn snippet_fault(
    app: SnippetApp,
    title: Seq<char>,
    snippet: Seq<char>,
    lang: Option<Seq<char>>,
    sensitive: Seq<Seq<char>>,
) -> Option<Seq<char>> {
    if is_blank(snippet) {
        None
    } else {
        match app {
            SnippetApp::Claude => object_fault(title, json_parsed(snippet), lang),
            SnippetApp::Omo | SnippetApp::OmoSlim => json_fault(json_parsed(snippet), lang),
            SnippetApp::Gemini => match json_parsed(snippet) {
                Ok(t) => gemini_fault(t, sensitive),
                Err(e) => Some(json_message(e, lang)),
            },
            SnippetApp::Codex => match toml_fault(snippet) {
                Some(e) => Some(toml_message(e, lang)),
                None => None,
            },
            SnippetApp::Dsh => match snippet_of(snippet) {
                Ok(_) => None,
                Err(e) => Some("Invalid dsh common config: "@ + message_of(e)),
            },
            SnippetApp::Other => None,
        }
    }
}

/// What is wrong with a snippet that must be a JSON object, given what it was read as.
pub fn check_object(title: &str, parsed: Result<Datum, String>, lang: Option<&str>) -> (r: Option<
    String,
>)
    ensures
        optional_text(r) == object_fault(
            title@,
            match parsed {
                Ok(v) => Ok(v@),
                Err(e) => Err(e@),
            },
            optional_str(lang),
        ),
{
    broadcast use lemma_mapping_view;
    match parsed {
        Ok(Datum::Mapping(_)) => None,
        Ok(_) => Some(glue(title, " common config must be a JSON object")),
        Err(e) => Some(invalid_json_format_error(e.as_str(), lang)),
    }
}

/// What is wrong with a Gemini snippet, given what it was read as.
pub fn check_gemini_value(
    parsed: Result<Datum, String>,
    lang: Option<&str>,
    sensitive: &Vec<String>,
) -> (r: Option<String>)
    requires
        parsed matches Ok(v) ==> is_json(v@),
    ensures
        optional_text(r) == (match parsed {
            Ok(v) => gemini_fault(v@, texts(sensitive@)),
            Err(e) => Some(json_message(e@, optional_str(lang))),
        }),
{
    match parsed {
        Ok(v) => check_gemini(&v, sensitive),
        Err(e) => Some(invalid_json_format_error(e.as_str(), lang)),
    }
}

/// What is wrong with a Codex snippet, given the message of the TOML reader.
pub fn check_codex_value(fault: Option<String>, lang: Option<&str>) -> (r: Option<String>)
    ensures
        optional_text(r) == (match fault {
            Some(e) => Some(toml_message(e@, optional_str(lang))),
            None => None,
        }),
{
    match fault {
        Some(e) => Some(invalid_toml_format_error(e.as_str(), lang)),
        None => None,
    }
}

/// Checks a snippet of common configuration of an application. `title` is the name of
/// the application, as the user sees it; `sensitive` are the keys that name secrets.
pub fn validate_common_config_snippet(
    app: SnippetApp,
    title: &str,
    snippet: &str,
    lang: Option<&str>,
    sensitive: &Vec<String>,
) -> (r: Result<(), String>)
    ensures
        snippet_fault(app, title@, snippet@, optional_str(lang), texts(sensitive@)) == (match r {
            Ok(_) => None,
            Err(e) => Some(e@),
        }),
{
    if blank(snippet) {
        return Ok(());
    }
    let fault = match app {
        SnippetApp::Claude => check_object(title, parse_json(snippet), lang),
        SnippetApp::Omo | SnippetApp::OmoSlim => match parse_json(snippet) {
            Ok(_) => None,
            Err(e) => Some(invalid_json_format_error(e.as_str(), lang)),
        },
        SnippetApp::Gemini => check_gemini_value(parse_json(snippet), lang, sensitive),
        SnippetApp::Codex => check_codex_value(check_toml(snippet), lang),
        SnippetApp::Dsh => match parse_common_config_snippet(snippet) {
            Ok(_) => None,
            Err(e) => Some(glue("Invalid dsh common config: ", e.message().as_str())),
        },
        SnippetApp::Other => None,
    };
    match fault {
        Some(e) => Err(e),
        None => Ok(()),
    }
}

/// What is to be done so that a snippet is in use.
#[derive(Debug)]
pub struct SnippetUpdate {
    /// What is to be stored; nothing where the snippet was cleared.
    pub value: Option<String>,
    /// Whether the snippet was cleared, which is stored too.
    pub cleared: bool,
    /// Whether providers that hold the old snippet themselves are to be brought up to
    /// date, before the new one is stored.
    pub migrate_old: bool,
    /// Whether the old snippet is to be taken out of `settings.yaml`.
    pub take_old: bool,
    /// Whether the new snippet is to be merged into `settings.yaml`.
    pub apply_new: bool,
    /// Whether the current provider is to be written again.
    pub sync_provider: bool,
    /// Whether the configuration of omo is to be written again, if it is in use.
    pub write_omo: bool,
}

/// The application has providers that take a snippet in.
pub open spec fn has_providers(app: SnippetApp) -> bool {
    app is Claude || app is Codex || app is Gemini
}

/// There was a snippet that is not blank.
pub open spec fn was_set(old: Option<Seq<char>>) -> bool {
    old matches Some(s) && !is_blank(s)
}

/// Decides what is to be done with a snippet of common configuration that the user
/// has entered. `old` is the snippet that was stored before.
///
/// The snippet of dsh goes straight into `settings.yaml`; the others reach an
/// application with its provider.
pub fn set_common_config_snippet(
    app: SnippetApp,
    title: &str,
    snippet: &str,
    old: Option<&str>,
    lang: Option<&str>,
    sensitive: &Vec<String>,
) -> (r: Result<SnippetUpdate, String>)
    ensures
        match r {
            Ok(u) => {
                &&& snippet_fault(
                    app,
                    title@,
                    snippet@,
                    optional_str(lang),
                    texts(sensitive@),
                ) is None
                &&& u.cleared == is_blank(snippet@)
                &&& optional_text(u.value) == (if is_blank(snippet@) {
                    None
                } else {
                    Some(snippet@)
                })
                &&& u.migrate_old == (has_providers(app) && was_set(optional_str(old)))
                &&& u.take_old == (app is Dsh && was_set(optional_str(old)))
                &&& u.apply_new == (app is Dsh && !is_blank(snippet@))
                &&& u.sync_provider == has_providers(app)
                &&& u.write_omo == (app is Omo || app is OmoSlim)
            },
            Err(e) => snippet_fault(
                app,
                title@,
                snippet@,
                optional_str(lang),
                texts(sensitive@),
            ) == Some(e@),
        },
{
    if let Err(e) = validate_common_config_snippet(app, title, snippet, lang, sensitive) {
        return Err(e);
    }
    let cleared = blank(snippet);
    let value = if cleared {
        None
    } else {
        Some(snippet.to_owned())
    };
    let set_before = match old {
        Some(s) => !blank(s),
        None => false,
    };
    let dsh = matches!(app, SnippetApp::Dsh);
    let providers = matches!(app, SnippetApp::Claude | SnippetApp::Codex | SnippetApp::Gemini);
    Ok(
        SnippetUpdate {
            value,
            cleared,
            migrate_old: providers && set_before,
            take_old: dsh && set_before,
            apply_new: dsh && !cleared,
            sync_provider: providers,
            write_omo: matches!(app, SnippetApp::Omo | SnippetApp::OmoSlim),
        },
    )
}

/// Decides what is to be stored of a snippet that must be JSON, and that the user has
/// entered: nothing where it was cleared.
pub fn set_claude_common_config_snippet(snippet: &str, lang: Option<&str>) -> (r: Result<
    Option<String>,
    String,
>)
    ensures
        match r {
            Ok(value) => optional_text(value) == (if is_blank(snippet@) {
                None
            } else {
                Some(snippet@)
            }) && (is_blank(snippet@) || json_parsed(snippet@) is Ok),
            Err(e) => !is_blank(snippet@) && json_fault(
                json_parsed(snippet@),
                optional_str(lang),
            ) == Some(e@),
        },
{
    if blank(snippet) {
        return Ok(None);
    }
    match parse_json(snippet) {
        Ok(_) => Ok(Some(snippet.to_owned())),
        Err(e) => Err(invalid_json_format_error(e.as_str(), lang)),
    }
}

/// The settings that a snippet is to be extracted from: those that were handed in,
/// read as JSON, or nothing where none were, so that those of the current provider are
/// meant.
pub fn extract_common_config_snippet(settings_config: Option<&str>, lang: Option<&str>) -> (r: Result<
    Option<Datum>,
    String,
>)
    ensures
        match r {
            Ok(Some(v)) => was_set(optional_str(settings_config)) && json_parsed(
                settings_config->0@,
            ) == Ok::<Tree, Seq<char>>(v@) && is_json(v@),
            Ok(None) => !was_set(optional_str(settings_config)),
            Err(e) => was_set(optional_str(settings_config)) && json_fault(
                json_parsed(settings_config->0@),
                optional_str(lang),
            ) == Some(e@),
        },
{
    match settings_config {
        Some(s) => if blank(s) {
            Ok(None)
        } else {
            match parse_json(s) {
                Ok(v) => Ok(Some(v)),
                Err(e) => Err(invalid_json_format_error(e.as_str(), lang)),
            }
        },
        None => Ok(None),
    }
}

// ----------------------------------------------------------------------------
// Places
// ----------------------------------------------------------------------------

/// An application whose configuration is managed.
#[derive(Debug, Clone, Copy, PartialEq, Eq, Structural)]
pub enum AppType {
    Claude,
    ClaudeDesktop,
    Codex,
    Gemini,
    OpenCode,
    OpenClaw,
    Hermes,
    Dsh,
}

/// Whether an application is configured, and where.
#[derive(Debug)]
pub struct ConfigStatus {
    pub exists: bool,
    pub path: String,
}

/// Whether Codex is configured: it has credentials, or a configuration that is not
/// blank.
pub fn codex_configured(auth_exists: bool, config_text: &str) -> (r: bool)
    ensures
        r == (auth_exists || !is_blank(config_text@)),
{
    auth_exists || !blank(config_text)
}

/// Whether an application is configured, and where. `found` tells whether the file was
/// found that the application is configured by; Codex, whose file holds its credentials,
/// counts as configured by the text of its configuration too. An application without a
/// directory is shown with an empty path.
pub fn get_config_status(
    app: AppType,
    found: bool,
    config_text: &str,
    directory: Option<&str>,
) -> (r: ConfigStatus)
    ensures
        r.exists == (found || (app is Codex && !is_blank(config_text@))),
        r.path@ == (match directory {
            Some(d) => d@,
            None => Seq::empty(),
        }),
{
    let exists = match app {
        AppType::Codex => codex_configured(found, config_text),
        _ => found,
    };
    let path = match directory {
        Some(d) => d.to_owned(),
        None => String::new(),
    };
    ConfigStatus { exists, path }
}

/// The directory that a directory picker starts in: the one that was handed in,
/// trimmed, unless it is blank.
pub fn initial_directory(default_path: Option<&str>) -> (r: Option<String>)
    ensures
        optional_text(r) == (match default_path {
            Some(p) => trimmed_text(p@),
            None => None,
        }),
{
    match default_path {
        Some(p) => match trim_text(p) {
            Some(t) => Some(t.to_owned()),
            None => None,
        },
        None => None,
    }
}

} // verus!
