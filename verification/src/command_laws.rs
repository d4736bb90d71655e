//! What holds of the snippets of common configuration that are accepted.

use vstd::prelude::*;

use crate::commands::{
    comma_list, env_fault, gemini_fault, has_providers, is_forbidden, is_section, json_message,
    keys_of, snippet_fault, toml_fault, toml_message, variable_names, was_set, SnippetApp,
};
use crate::json::json_parsed;
use crate::text::{is_blank, is_space};
use crate::tree::{
    has_key, index_of, is_json, key_at, lemma_entry_well_formed, lemma_index_of,
    lemma_lookup_well_formed, lemma_same_reflexive, lemma_same_text, lookup, Entries, Tree,
};
use crate::yaml::yaml_parsed;

verus! {

/// Every variable is a text, and none of them names the address of the provider or a
/// secret.
pub open spec fn is_harmless(env: Entries, sensitive: Seq<Seq<char>>) -> bool {
    forall|k: Tree| #[trigger]
        has_key(env, k) ==> lookup(env, k)->0 is Text && (k matches Tree::Text(name) && name
            != "GOOGLE_GEMINI_BASE_URL"@ && !sensitive.contains(name))
}

/// Texts with commas between them: none is nothing, one is itself, and one more is
/// written behind the others.
pub proof fn law_comma_list(names: Seq<Seq<char>>, name: Seq<char>)
    ensures
        comma_list(Seq::empty()) == Seq::<char>::empty(),
        comma_list(seq![name]) == name,
        names.len() > 0 ==> comma_list(names.push(name)) == comma_list(names) + ", "@ + name,
{
    assert(names.push(name).drop_last() =~= names);
}

/// What a condition chooses of some names.
proof fn lemma_chosen(names: Seq<Seq<char>>, p: spec_fn(Seq<char>) -> bool)
    ensures
        forall|n: Seq<char>| #[trigger]
            names.filter(p).contains(n) <==> names.contains(n) && p(n),
    decreases names.len(),
{
    reveal(Seq::filter);
    if names.len() > 0 {
        let rest = names.drop_last();
        lemma_chosen(rest, p);
        let f = names.filter(p);
        let g = rest.filter(p);
        assert forall|n: Seq<char>| #[trigger] f.contains(n) <==> names.contains(n) && p(n) by {
            if f.contains(n) {
                let i = choose|i: int| 0 <= i < f.len() && f[i] == n;
                if i < g.len() {
                    assert(g[i] == n);
                    assert(g.contains(n));
                    assert(rest.contains(n));
                    let j = choose|j: int| 0 <= j < rest.len() && rest[j] == n;
                    assert(names[j] == n);
                } else {
                    assert(names[names.len() - 1] == n);
                }
            }
            if names.contains(n) && p(n) {
                let j = choose|j: int| 0 <= j < names.len() && names[j] == n;
                if j < rest.len() {
                    assert(rest[j] == n);
                    assert(rest.contains(n));
                    assert(g.contains(n));
                    let i = choose|i: int| 0 <= i < g.len() && g[i] == n;
                    assert(f[i] == n);
                } else {
                    assert(f[f.len() - 1] == n);
                }
            }
        }
    }
}

/// The keys of an object are the texts that it holds something under.
proof fn lemma_keys(m: Entries)
    requires
        is_json(Tree::Mapping(m)),
    ensures
        forall|n: Seq<char>| #[trigger] keys_of(m).contains(n) <==> has_key(m, Tree::Text(n)),
        forall|k: Tree| #[trigger] has_key(m, k) ==> k is Text,
{
    broadcast use lemma_same_text;
    assert forall|n: Seq<char>| #[trigger] keys_of(m).contains(n) <==> has_key(m, Tree::Text(n)) by {
        if keys_of(m).contains(n) {
            let i = choose|i: int| 0 <= i < keys_of(m).len() && keys_of(m)[i] == n;
            lemma_entry_well_formed(m, i);
            assert(m[i].0 == Tree::Text(n));
            assert(key_at(m, Tree::Text(n), i));
        }
        if has_key(m, Tree::Text(n)) {
            let i = index_of(m, Tree::Text(n));
            assert(key_at(m, Tree::Text(n), i));
            assert(keys_of(m)[i] == n);
        }
    }
    assert forall|k: Tree| #[trigger] has_key(m, k) implies k is Text by {
        let i = index_of(m, k);
        assert(key_at(m, k, i));
        lemma_entry_well_formed(m, i);
        crate::paths::lemma_same_shapes(k, m[i].0);
    }
}

/// The variables of a Gemini snippet are accepted exactly where all of them are harmless
/// texts. Otherwise the error lists the names that are not, or says that some value is no
/// text.
pub proof fn law_env_checked(env: Entries, sensitive: Seq<Seq<char>>)
    requires
        is_json(Tree::Mapping(env)),
    ensures
        env_fault(env, sensitive) is None <==> is_harmless(env, sensitive),
        env_fault(env, sensitive) matches Some(e) ==> {
            ||| e == "Gemini common config env values must all be strings"@ && (forall|k: Tree| #[trigger]
                has_key(env, k) ==> (k matches Tree::Text(name) && name != "GOOGLE_GEMINI_BASE_URL"@
                    && !sensitive.contains(name)))
            ||| exists|names: Seq<Seq<char>>|
                {
                    &&& e == "Gemini common config may not contain provider URLs or credentials: "@
                        + #[trigger] comma_list(names)
                    &&& forall|n: Seq<char>| #[trigger]
                        names.contains(n) <==> has_key(env, Tree::Text(n)) && (n
                            == "GOOGLE_GEMINI_BASE_URL"@ || sensitive.contains(n))
                    &&& names.len() > 0
                }
        },
{
    broadcast use lemma_same_text;
    let p = |key: Seq<char>| is_forbidden(key, sensitive);
    let forbidden = keys_of(env).filter(p);
    lemma_keys(env);
    lemma_chosen(keys_of(env), p);
    if forbidden.len() > 0 {
        let n = forbidden[0];
        assert(forbidden.contains(n));
        assert(has_key(env, Tree::Text(n)));
        assert(!is_harmless(env, sensitive));
        assert(env_fault(env, sensitive) == Some(
            "Gemini common config may not contain provider URLs or credentials: "@ + comma_list(
                forbidden,
            ),
        ));
    } else {
        assert forall|k: Tree| #[trigger] has_key(env, k) implies (k matches Tree::Text(name) && name
            != "GOOGLE_GEMINI_BASE_URL"@ && !sensitive.contains(name)) by {
            let name = k->Text_0;
            if is_forbidden(name, sensitive) {
                assert(keys_of(env).contains(name));
                assert(forbidden.contains(name));
            }
        }
        if exists|i: int| 0 <= i < env.len() && !((#[trigger] env[i]).1 is Text) {
            let i = choose|i: int| 0 <= i < env.len() && !((#[trigger] env[i]).1 is Text);
            let k = env[i].0;
            lemma_same_reflexive(k);
            assert(key_at(env, k, i));
            lemma_entry_well_formed(env, i);
            lemma_index_of(env, k, i);
            assert(has_key(env, k));
        } else {
            assert forall|k: Tree| #[trigger] has_key(env, k) implies lookup(env, k)->0 is Text by {
                assert(key_at(env, k, index_of(env, k)));
            }
        }
    }
}

/// A Gemini snippet is accepted exactly where it is an object either without the sections
/// `env` and `config`, whose entries are all harmless variables, or with no other keys than
/// these, where `config` is an object, and `env` one of harmless variables. Each is checked
/// wherever it is there, whatever the other one is.
pub proof fn law_gemini_accepted(t: Tree, sensitive: Seq<Seq<char>>)
    requires
        is_json(t),
    ensures
        gemini_fault(t, sensitive) is None <==> {
            &&& t matches Tree::Mapping(m)
            &&& {
                let env = lookup(m, Tree::Text("env"@));
                let config = lookup(m, Tree::Text("config"@));
                if env is None && config is None {
                    is_harmless(m, sensitive)
                } else {
                    &&& forall|k: Tree| #[trigger]
                        has_key(m, k) ==> k == Tree::Text("env"@) || k == Tree::Text("config"@)
                    &&& config is Some ==> config->0 is Mapping
                    &&& env is Some ==> env->0 is Mapping && is_harmless(
                        env->0->Mapping_0,
                        sensitive,
                    )
                }
            }
        },
{
    broadcast use lemma_same_text;
    if let Tree::Mapping(m) = t {
        let e = Tree::Text("env"@);
        let c = Tree::Text("config"@);
        lemma_keys(m);
        if has_key(m, e) || has_key(m, c) {
            let p = |key: Seq<char>| !is_section(key);
            let unexpected = keys_of(m).filter(p);
            lemma_chosen(keys_of(m), p);
            if unexpected.len() > 0 {
                assert(unexpected.contains(unexpected[0]));
                assert(has_key(m, Tree::Text(unexpected[0])));
            } else {
                assert forall|k: Tree| #[trigger] has_key(m, k) implies k == e || k == c by {
                    if !is_section(k->Text_0) {
                        assert(keys_of(m).contains(k->Text_0));
                        assert(unexpected.contains(k->Text_0));
                    }
                }
            }
            if has_key(m, e) {
                lemma_lookup_well_formed(m, e);
                if let Tree::Mapping(env) = lookup(m, e)->0 {
                    law_env_checked(env, sensitive);
                }
            }
        } else {
            law_env_checked(m, sensitive);
        }
    }
}

/// What the error for a Gemini snippet says: that it is no object; which keys there are
/// beside the sections; which of the sections is no object; or what is wrong with the
/// variables.
pub proof fn law_gemini_refused(t: Tree, sensitive: Seq<Seq<char>>)
    requires
        is_json(t),
    ensures
        gemini_fault(t, sensitive) matches Some(e) ==> match t {
            Tree::Mapping(m) => {
                let env = lookup(m, Tree::Text("env"@));
                let config = lookup(m, Tree::Text("config"@));
                if env is None && config is None {
                    env_fault(m, sensitive) == Some(e)
                } else if exists|k: Tree| #[trigger]
                    has_key(m, k) && k != Tree::Text("env"@) && k != Tree::Text("config"@) {
                    exists|names: Seq<Seq<char>>|
                        {
                            &&& e == "Gemini common config only supports env and config sections: "@
                                + #[trigger] comma_list(names)
                            &&& forall|n: Seq<char>| #[trigger]
                                names.contains(n) <==> has_key(m, Tree::Text(n)) && n != "env"@ && n
                                    != "config"@
                        }
                } else if config is Some && !(config->0 is Mapping) {
                    e == "Gemini common config.config must be a JSON object"@
                } else {
                    &&& env is Some
                    &&& env->0 is Mapping ==> env_fault(env->0->Mapping_0, sensitive) == Some(e)
                    &&& !(env->0 is Mapping) ==> e
                        == "Gemini common config.env must be a JSON object"@
                }
            },
            _ => e == "Gemini common config must be a JSON object"@,
        },
{
    broadcast use lemma_same_text;
    if let Tree::Mapping(m) = t {
        let e = Tree::Text("env"@);
        let c = Tree::Text("config"@);
        lemma_keys(m);
        if has_key(m, e) || has_key(m, c) {
            let p = |key: Seq<char>| !is_section(key);
            let unexpected = keys_of(m).filter(p);
            lemma_chosen(keys_of(m), p);
            if unexpected.len() > 0 {
                assert(unexpected.contains(unexpected[0]));
                assert(has_key(m, Tree::Text(unexpected[0])));
                assert(gemini_fault(t, sensitive) == Some(
                    "Gemini common config only supports env and config sections: "@ + comma_list(
                        unexpected,
                    ),
                ));
            } else {
                assert forall|k: Tree| #[trigger] has_key(m, k) implies k == e || k == c by {
                    if !is_section(k->Text_0) {
                        assert(keys_of(m).contains(k->Text_0));
                        assert(unexpected.contains(k->Text_0));
                    }
                }
            }
        }
    }
}

/// The names that are asked about before a Gemini snippet is checked are those of its
/// variables: of its section `env`, or of the whole where it has no sections.
pub proof fn law_variable_names(snippet: Seq<char>, name: Seq<char>)
    requires
        json_parsed(snippet) matches Ok(t) ==> is_json(t),
    ensures
        variable_names(snippet).contains(name) <==> {
            &&& json_parsed(snippet) matches Ok(t)
            &&& t is Mapping
            &&& {
                let m = t->Mapping_0;
                let env = lookup(m, Tree::Text("env"@));
                if env is None && lookup(m, Tree::Text("config"@)) is None {
                    has_key(m, Tree::Text(name))
                } else {
                    env is Some && env->0 is Mapping && has_key(
                        env->0->Mapping_0,
                        Tree::Text(name),
                    )
                }
            }
        },
{
    if let Ok(t) = json_parsed(snippet) {
        let none: Entries = Seq::empty();
        assert(keys_of(none).len() == 0);
        if let Tree::Mapping(m) = t {
            lemma_keys(m);
            let e = Tree::Text("env"@);
            if has_key(m, e) {
                lemma_lookup_well_formed(m, e);
                if let Tree::Mapping(env) = lookup(m, e)->0 {
                    lemma_keys(env);
                }
            }
        }
    }
}

/// Which snippets are accepted: a blank one always; else, of an application, a JSON object,
/// a JSON text, a TOML text, a YAML mapping or nothing, or what Gemini accepts. A text that
/// cannot be read is refused with the reader's message.
pub proof fn law_snippet_checked(
    app: SnippetApp,
    title: Seq<char>,
    snippet: Seq<char>,
    lang: Option<Seq<char>>,
    sensitive: Seq<Seq<char>>,
)
    ensures
        ({
            let fault = snippet_fault(app, title, snippet, lang, sensitive);
            let json = json_parsed(snippet);
            let yaml = yaml_parsed(snippet);
            if is_blank(snippet) {
                fault is None
            } else {
                &&& app is Claude ==> (fault is None <==> (json matches Ok(t) && t is Mapping))
                &&& app is Omo || app is OmoSlim ==> (fault is None <==> json is Ok)
                &&& app is Gemini ==> (fault is None <==> (json matches Ok(t) && gemini_fault(
                    t,
                    sensitive,
                ) is None))
                &&& app is Codex ==> (fault is None <==> toml_fault(snippet) is None)
                &&& app is Dsh ==> (fault is None <==> (yaml matches Ok(t) && (t is Mapping || t
                    is Null)))
                &&& app is Other ==> fault is None
                &&& (app is Claude || app is Omo || app is OmoSlim || app is Gemini) && json is Err
                    ==> fault == Some(json_message(json->Err_0, lang))
                &&& app is Gemini && json is Ok ==> fault == gemini_fault(json->Ok_0, sensitive)
                &&& app is Claude && json is Ok && !(json->Ok_0 is Mapping) ==> fault == Some(
                    title + " common config must be a JSON object"@,
                )
                &&& app is Codex && toml_fault(snippet) is Some ==> fault == Some(
                    toml_message(toml_fault(snippet)->0, lang),
                )
            }
        }),
{
}

/// The message for a text that cannot be read is in English or Japanese where that is the
/// language, and else in Chinese; it ends with the reader's message.
pub proof fn law_messages(error: Seq<char>, lang: Option<Seq<char>>)
    ensures
        lang == Some("en"@) ==> json_message(error, lang) == "Invalid JSON format: "@ + error
            && toml_message(error, lang) == "Invalid TOML format: "@ + error,
        lang == Some("ja"@) ==> json_message(error, lang) == "JSON形式が無効です: "@ + error
            && toml_message(error, lang) == "TOML形式が無効です: "@ + error,
        lang != Some("en"@) && lang != Some("ja"@) ==> json_message(error, lang)
            == "无效的 JSON 格式: "@ + error && toml_message(error, lang) == "无效的 TOML 格式: "@
            + error,
{
    reveal_strlit("en");
    reveal_strlit("ja");
    reveal_strlit("zh");
    assert("en"@[0] != "ja"@[0]);
    assert("zh"@[0] != "ja"@[0]);
    assert("zh"@[0] != "en"@[0]);
}

/// The applications whose providers take a snippet in, and what counts as a snippet that was
/// set.
pub proof fn law_snippet_update(app: SnippetApp, old: Option<Seq<char>>)
    ensures
        has_providers(app) <==> app is Claude || app is Codex || app is Gemini,
        was_set(None) == false,
        old matches Some(s) ==> (was_set(old) <==> exists|i: int|
            0 <= i < s.len() && !is_space(#[trigger] s[i])),
{
}

} // verus!
