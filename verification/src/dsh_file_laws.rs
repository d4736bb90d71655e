//! What holds of the files of dsh before and after each change, key by key.

use vstd::prelude::*;

use crate::dsh_config::{
    backup_extensions, credentials_of, credentials_planned, credentials_stored, credentials_written,
    default_model_of, env_name_of, first_model_of, first_nameless, is_referenced, json_as_yaml,
    leaves_secret, listed, listed_as, materialized, model_set, nameless_error, protected_keys,
    provider_fault, provider_list, provider_removed, provider_set, providers_of, reference_of,
    referencing, refs_of, root_of, secret_of, settings_of, settings_planned, settings_with,
    settings_without, snippet_applying, snippet_held, snippet_of, snippet_removing,
    snippet_replacing, switched_model, updated_provider, version_one, with_provider, with_refs,
    without_provider, yaml_as_json,
};
use crate::dsh_laws::{
    kept_or_written, law_credentials_stay, law_remove_provider, law_switch_model, named,
    provider_of,
};
use crate::error::ErrorView;
use crate::json::json_compact;
use crate::merge::lemma_filled;
use crate::paths::{at, found_at, merges_at, prunes_at};
use crate::plan::{carried_out, PlanView};
use crate::snippet::{
    is_protected, law_applied_at, law_applied_changes_nothing, law_is_applied_at, law_taken_at,
};
use crate::text::{decimal, is_blank, lemma_blank, trimmed, upper};
use crate::tree::{
    distinct_keys, entries_of, field, has_key, index_of, is_json, items_of, key_at, lemma_index_of,
    lemma_lookup_same, lemma_lookup_well_formed, lemma_refilled, lemma_same_reflexive,
    lemma_same_text, lemma_swapped_out, lemma_untagged, lemma_with_key, lookup, refilled, same,
    swapped_out, text_field, text_of, well_formed, with_key, Entries, Tree,
};
use crate::yaml::{yaml_parsed, yaml_parsed_as_json, yaml_written};

verus! {

// ----------------------------------------------------------------------------
// Reading and writing
// ----------------------------------------------------------------------------

/// A blank file, and one that holds comments alone, give empty settings, credentials or
/// snippets; what cannot be read is an error, and so are credentials or a snippet that are
/// no mapping.
pub proof fn law_files_read(raw: Seq<char>)
    ensures
        ({
            let parsed = yaml_parsed(raw);
            if is_blank(raw) || parsed == Ok::<Tree, Seq<char>>(Tree::Null) {
                &&& settings_of(raw) == Ok::<Tree, ErrorView>(Tree::Mapping(Seq::empty()))
                &&& credentials_of(raw) == Ok::<Entries, ErrorView>(Seq::empty())
                &&& snippet_of(raw) == Ok::<Entries, ErrorView>(Seq::empty())
            } else {
                &&& parsed matches Ok(t) ==> settings_of(raw) == Ok::<Tree, ErrorView>(t)
                &&& parsed matches Ok(Tree::Mapping(m)) ==> credentials_of(raw) == Ok::<
                    Entries,
                    ErrorView,
                >(m) && snippet_of(raw) == Ok::<Entries, ErrorView>(m)
                &&& (parsed matches Ok(t) && !(t is Mapping)) ==> credentials_of(raw) is Err
                    && snippet_of(raw) is Err
                &&& parsed is Err ==> settings_of(raw) is Err && credentials_of(raw) is Err
                    && snippet_of(raw) is Err
            }
        }),
{
}

/// A file gets the text that its new document is written as; where it has that text
/// already, it stays. What it held is saved where it was not empty. Nothing is done where
/// the document cannot be written.
pub proof fn law_files_written(raw: Seq<char>, t: Tree)
    ensures
        yaml_written(t) matches Ok(text) ==> {
            &&& settings_planned(raw, yaml_written(t)) matches Ok(plan)
            &&& carried_out(raw, plan) == text
            &&& plan is Keep <==> raw == text
            &&& plan matches PlanView::Write { text: _, backup } ==> backup == (raw.len() > 0)
            &&& credentials_written(raw, yaml_written(t)) == settings_planned(raw, yaml_written(t))
        },
        yaml_written(t) is Err ==> settings_planned(raw, yaml_written(t)) is Err
            && credentials_written(raw, yaml_written(t)) is Err,
{
}

/// The entries of the settings, which may be missing altogether.
pub open spec fn root_tree(settings: Tree) -> Tree {
    if settings is Null {
        Tree::Mapping(Seq::empty())
    } else {
        settings
    }
}

/// A key that a snippet of common configuration may not touch.
pub open spec fn is_reserved(k: Tree) -> bool {
    text_of(k) == Some("llm-pi-ai"@) || text_of(k) == Some("agent-default-model"@)
}

proof fn lemma_reserved(k: Tree)
    ensures
        is_reserved(k) <==> is_protected(k, protected_keys()),
{
    let names = protected_keys();
    assert(names[0] == "llm-pi-ai"@ && names[1] == "agent-default-model"@);
    if is_protected(k, names) {
        let i = choose|i: int| 0 <= i < names.len() && names[i] == text_of(k)->0;
        assert(i == 0 || i == 1);
    }
    if is_reserved(k) {
        assert(names.contains(names[0]) && names.contains(names[1]));
    }
}

// ----------------------------------------------------------------------------
// Common configuration
// ----------------------------------------------------------------------------

/// Merging a snippet into `settings.yaml`: the providers and the default model stay as they
/// are. At every other path, what the snippet sets is written, and what it does not set is
/// as it was. A snippet that holds nothing leaves the file alone, and settings that are no
/// mapping are not touched.
pub proof fn law_apply_common_config(
    raw: Seq<char>,
    snippet: Seq<char>,
    settings: Tree,
    m: Entries,
    path: Seq<Tree>,
)
    requires
        well_formed(settings),
        well_formed(Tree::Mapping(m)),
        settings_of(raw) == Ok::<Tree, ErrorView>(settings),
        snippet_of(snippet) == Ok::<Entries, ErrorView>(m),
        path.len() > 0,
    ensures
        m.len() == 0 ==> snippet_applying(raw, snippet) == Ok::<PlanView, ErrorView>(PlanView::Keep),
        m.len() > 0 && !(root_tree(settings) is Mapping) ==> snippet_applying(raw, snippet) is Err,
        m.len() > 0 && root_tree(settings) is Mapping ==> {
            &&& settings_with(settings, m) matches Ok(t)
            &&& t is Mapping
            &&& snippet_applying(raw, snippet) == settings_planned(raw, yaml_written(t))
            &&& if is_reserved(path[0]) {
                at(t, path) == at(root_tree(settings), path)
            } else {
                merges_at(root_tree(settings), Tree::Mapping(m), t, path)
            }
        },
{
    lemma_reserved(path[0]);
    if root_of(settings) is Ok {
        law_applied_at(root_of(settings)->Ok_0, m, protected_keys(), path);
    }
}

/// Taking a snippet out of `settings.yaml`: the providers and the default model stay as they
/// are. At every other path, what is the snippet's is gone, and what is not is as it was.
pub proof fn law_remove_common_config(
    raw: Seq<char>,
    snippet: Seq<char>,
    settings: Tree,
    m: Entries,
    path: Seq<Tree>,
)
    requires
        well_formed(settings),
        well_formed(Tree::Mapping(m)),
        settings_of(raw) == Ok::<Tree, ErrorView>(settings),
        snippet_of(snippet) == Ok::<Entries, ErrorView>(m),
        path.len() > 0,
    ensures
        m.len() == 0 ==> snippet_removing(raw, snippet) == Ok::<PlanView, ErrorView>(PlanView::Keep),
        m.len() > 0 && !(root_tree(settings) is Mapping) ==> snippet_removing(raw, snippet) is Err,
        m.len() > 0 && root_tree(settings) is Mapping ==> {
            &&& settings_without(settings, m) matches Ok(t)
            &&& t is Mapping
            &&& snippet_removing(raw, snippet) == settings_planned(raw, yaml_written(t))
            &&& if is_reserved(path[0]) {
                at(t, path) == at(root_tree(settings), path)
            } else {
                prunes_at(root_tree(settings), Tree::Mapping(m), t, path)
            }
        },
{
    lemma_reserved(path[0]);
    if root_of(settings) is Ok {
        law_taken_at(root_of(settings)->Ok_0, m, protected_keys(), path, false);
    }
}

/// A snippet counts as applied exactly where the settings have, at every path that does not
/// belong to the providers or the default model, what the snippet has there; that is, where
/// merging it in gives equal settings. One that holds nothing always does.
pub proof fn law_common_config_applied(
    raw: Seq<char>,
    snippet: Seq<char>,
    settings: Tree,
    root: Entries,
    m: Entries,
)
    requires
        well_formed(Tree::Mapping(root)),
        well_formed(Tree::Mapping(m)),
        settings_of(raw) == Ok::<Tree, ErrorView>(settings),
        entries_of(settings) == Some(root),
        snippet_of(snippet) == Ok::<Entries, ErrorView>(m),
    ensures
        m.len() == 0 ==> snippet_held(raw, snippet),
        m.len() > 0 ==> (snippet_held(raw, snippet) <==> forall|path: Seq<Tree>|
            path.len() > 0 && !is_reserved(path[0]) ==> #[trigger] found_at(
                Tree::Mapping(root),
                Tree::Mapping(m),
                path,
            )),
        m.len() > 0 ==> (snippet_held(raw, snippet) <==> (settings_with(Tree::Mapping(root), m)
            matches Ok(t) && same(t, Tree::Mapping(root)))),
{
    let names = protected_keys();
    law_is_applied_at(root, m, names);
    law_applied_changes_nothing(root, m, names);
    assert forall|k: Tree| is_reserved(k) <==> #[trigger] is_protected(k, names) by {
        lemma_reserved(k);
    }
    if m.len() > 0 {
        if snippet_held(raw, snippet) {
            assert forall|path: Seq<Tree>|
                path.len() > 0 && !is_reserved(path[0]) implies #[trigger] found_at(
                Tree::Mapping(root),
                Tree::Mapping(m),
                path,
            ) by {
                lemma_reserved(path[0]);
            }
        }
        if forall|path: Seq<Tree>|
            path.len() > 0 && !is_reserved(path[0]) ==> #[trigger] found_at(
                Tree::Mapping(root),
                Tree::Mapping(m),
                path,
            ) {
            assert forall|path: Seq<Tree>|
                path.len() > 0 && !is_protected(path[0], names) implies #[trigger] found_at(
                Tree::Mapping(root),
                Tree::Mapping(m),
                path,
            ) by {
                lemma_reserved(path[0]);
            }
        }
    }
}

/// A snippet cannot count as applied where it or the settings cannot be read, or where the
/// settings are neither a mapping nor one under a tag.
pub proof fn law_not_applied(raw: Seq<char>, snippet: Seq<char>)
    ensures
        snippet_of(snippet) is Err ==> !snippet_held(raw, snippet),
        (snippet_of(snippet) matches Ok(m) && m.len() > 0 && (settings_of(raw) is Err || entries_of(
            settings_of(raw)->Ok_0,
        ) is None)) ==> !snippet_held(raw, snippet),
{
}

// ----------------------------------------------------------------------------
// Providers
// ----------------------------------------------------------------------------

/// The providers of the settings are what they hold under `llm-pi-ai` and `providers`.
pub proof fn law_providers(root: Entries)
    ensures
        ({
            let path = seq![named("llm-pi-ai"@), named("providers"@)];
            &&& at(Tree::Mapping(root), path) matches Some(Tree::Mapping(m)) ==> providers_of(
                Tree::Mapping(root),
            ) == Some(m)
            &&& at(Tree::Mapping(root), path.take(1)) is None ==> providers_of(Tree::Mapping(root))
                is None
            &&& (at(Tree::Mapping(root), path.take(1)) matches Some(Tree::Mapping(_)) && at(
                Tree::Mapping(root),
                path,
            ) is None) ==> providers_of(Tree::Mapping(root)) is None
        }),
{
    let path = seq![named("llm-pi-ai"@), named("providers"@)];
    let t = Tree::Mapping(root);
    let llm = named("llm-pi-ai"@);
    assert(path.drop_first() =~= seq![named("providers"@)]);
    assert(path.drop_first().drop_first() =~= Seq::<Tree>::empty());
    assert(path.take(1).drop_first() =~= Seq::<Tree>::empty());
    assert(path.take(1)[0] == llm);
    assert(entries_of(t) == Some(root));
    if let Some(v) = lookup(root, llm) {
        assert(at(v, path.take(1).drop_first()) == Some(v));
        assert(at(t, path.take(1)) == Some(v));
        assert(at(t, path) == at(v, path.drop_first()));
        if let Tree::Mapping(sections) = v {
            assert(entries_of(v) == Some(sections));
            if let Some(w) = lookup(sections, named("providers"@)) {
                assert(at(w, path.drop_first().drop_first()) == Some(w));
                assert(at(v, path.drop_first()) == Some(w));
                if let Tree::Mapping(m) = w {
                    assert(entries_of(w) == Some(m));
                }
            }
        }
    }
}

/// The reference name that is made of a key: each letter as a capital, each digit as it
/// is, and an underscore for anything else, between `DSH_` and `_API_KEY`.
pub proof fn law_env_name(key: Seq<char>)
    ensures
        ({
            let name = env_name_of(key);
            &&& name.len() == key.len() + 12
            &&& name.take(4) == "DSH_"@
            &&& name.skip(key.len() as int + 4) == "_API_KEY"@
            &&& forall|i: int|
                0 <= i < key.len() ==> {
                    let c = key[i];
                    &&& 'A' <= c <= 'Z' || '0' <= c <= '9' ==> #[trigger] name[i + 4] == c
                    &&& 'a' <= c <= 'z' ==> name[i + 4] as int == c as int - 32
                    &&& !('A' <= c <= 'Z' || '0' <= c <= '9' || 'a' <= c <= 'z') ==> name[i + 4]
                        == '_'
                }
        }),
{
    reveal_strlit("DSH_");
    reveal_strlit("_API_KEY");
    let name = env_name_of(key);
    assert(name.take(4) =~= "DSH_"@);
    assert(name.skip(key.len() as int + 4) =~= "_API_KEY"@);
    assert forall|i: int| 0 <= i < key.len() implies {
        let c = key[i];
        &&& 'A' <= c <= 'Z' || '0' <= c <= '9' ==> #[trigger] name[i + 4] == c
        &&& 'a' <= c <= 'z' ==> name[i + 4] as int == c as int - 32
        &&& !('A' <= c <= 'Z' || '0' <= c <= '9' || 'a' <= c <= 'z') ==> name[i + 4] == '_'
    } by {
        let c = key[i];
        if 'a' <= c <= 'z' {
            assert('A' <= upper(c) <= 'Z');
        }
    }
}

/// The secret of a provider is its `apiKey`, trimmed, where that is a text that is not
/// blank. Its reference name is its `apiKeyEnv`, trimmed, where that is such a text; else
/// one is made of the key, where there is a secret.
pub proof fn law_secret_and_reference(key: Seq<char>, m: Entries)
    requires
        is_json(Tree::Mapping(m)),
    ensures
        ({
            let config = Tree::Mapping(m);
            let api_key = lookup(m, named("apiKey"@));
            let env = lookup(m, named("apiKeyEnv"@));
            &&& secret_of(config) is Some <==> (api_key matches Some(Tree::Text(s)) && !is_blank(s))
            &&& api_key matches Some(Tree::Text(s)) ==> (!is_blank(s) ==> secret_of(config) == Some(
                trimmed(s),
            ))
            &&& (env matches Some(Tree::Text(s)) && !is_blank(s)) ==> reference_of(key, config)
                == Some(trimmed(env->0->Text_0))
            &&& !(env matches Some(Tree::Text(s)) && !is_blank(s)) ==> reference_of(key, config)
                == (if secret_of(config) is Some {
                Some(env_name_of(key))
            } else {
                None
            })
        }),
{
    broadcast use lemma_same_text;
    reveal_strlit("apiKey");
    reveal_strlit("apiKeyEnv");
    assert("apiKey"@.len() != "apiKeyEnv"@.len());
    let a = named("apiKey"@);
    let e = named("apiKeyEnv"@);
    assert(!same(a, e));
    lemma_swapped_out(m, a);
    assert(lookup(swapped_out(m, a), e) == lookup(m, e));
    if has_key(m, a) {
        lemma_lookup_well_formed(m, a);
        lemma_untagged(lookup(m, a)->0);
        if let Tree::Text(s) = lookup(m, a)->0 {
            lemma_blank(s);
        }
    }
    if has_key(m, e) {
        lemma_lookup_well_formed(m, e);
        lemma_untagged(lookup(m, e)->0);
        if let Tree::Text(s) = lookup(m, e)->0 {
            lemma_blank(s);
        }
    }
}

/// What is written of a provider has no `apiKey`, the reference name as `apiKeyEnv` where
/// there is one, and every other entry as it came.
pub proof fn law_written_form(key: Seq<char>, m: Entries, k: Tree)
    requires
        is_json(Tree::Mapping(m)),
    ensures
        referencing(key, Tree::Mapping(m)) matches Tree::Mapping(w) && lookup(w, k) == (if same(
            named("apiKey"@),
            k,
        ) {
            None
        } else if same(named("apiKeyEnv"@), k) && reference_of(key, Tree::Mapping(m)) is Some {
            Some(named(reference_of(key, Tree::Mapping(m))->0))
        } else {
            lookup(m, k)
        }),
{
    broadcast use lemma_same_text;
    reveal_strlit("apiKey");
    reveal_strlit("apiKeyEnv");
    assert("apiKey"@.len() != "apiKeyEnv"@.len());
    let a = named("apiKey"@);
    let e = named("apiKeyEnv"@);
    let rest = swapped_out(m, a);
    let reference = reference_of(key, Tree::Mapping(m));
    lemma_swapped_out(m, a);
    if same(a, k) {
        lemma_lookup_same(rest, a, k);
    }
    if reference is Some {
        let w = with_key(rest, e, named(reference->0));
        lemma_with_key(rest, e, named(reference->0));
        if same(e, k) {
            lemma_lookup_same(w, e, k);
            assert(k == e);
        } else {
            assert(lookup(w, k) == lookup(rest, k));
        }
    }
}

/// Writing a provider touches no other key, whatever kind of key it is: not of the
/// settings, nor of their section of providers, nor of the providers. It is possible
/// exactly where the settings are a mapping or missing, and neither of the two sections is
/// a mapping under a tag.
#[verifier::rlimit(30)]
pub proof fn law_provider_written(settings: Tree, key: Seq<char>, new: Tree, k: Tree)
    requires
        well_formed(settings),
        well_formed(new),
    ensures
        ({
            let old = root_tree(settings);
            let llm = named("llm-pi-ai"@);
            let providers = named("providers"@);
            let section = at(old, seq![llm]);
            let list = at(old, seq![llm, providers]);
            let tagged = |v: Option<Tree>|
                v matches Some(v) && v is Tagged && entries_of(v) is Some;
            &&& with_provider(settings, key, new) is Ok <==> old is Mapping && !tagged(section)
                && !tagged(list)
            &&& with_provider(settings, key, new) matches Ok(t) ==> {
                &&& !same(llm, k) ==> at(t, seq![k]) == at(old, seq![k])
                &&& !same(providers, k) ==> at(t, seq![llm, k]) == at(old, seq![llm, k])
                &&& !same(named(key), k) ==> at(t, seq![llm, providers, k]) == at(
                    old,
                    seq![llm, providers, k],
                )
                &&& at(t, seq![llm, providers, named(key)]) matches Some(entry)
                &&& match (at(old, seq![llm, providers, named(key)]), new) {
                    (Some(before), Tree::Mapping(m)) => match entries_of(before) {
                        Some(kept) => entry matches Tree::Mapping(w) && lookup(w, k) == (
                        if has_key(m, k) {
                            lookup(m, k)
                        } else {
                            lookup(kept, k)
                        }),
                        None => entry == new,
                    },
                    _ => entry == new,
                }
            }
        }),
{
    broadcast use lemma_same_text;
    let old = root_tree(settings);
    let l = named("llm-pi-ai"@);
    let p = named("providers"@);
    let n = named(key);
    lemma_at_one(old, l);
    lemma_at_two(old, l, p);
    lemma_at_one(old, k);
    lemma_at_two(old, l, k);
    lemma_at_three(old, l, p, k);
    lemma_at_three(old, l, p, n);
    assert(forall|j: Tree| !has_key(Seq::<(Tree, Tree)>::empty(), j));
    if old is Mapping {
        let root = old->Mapping_0;
        assert(root_of(settings) == Ok::<Entries, ErrorView>(root));
        if has_key(root, l) {
            lemma_lookup_well_formed(root, l);
            lemma_untagged(lookup(root, l)->0);
            if let Tree::Mapping(x) = lookup(root, l)->0 {
                if has_key(x, p) {
                    lemma_lookup_well_formed(x, p);
                    lemma_untagged(lookup(x, p)->0);
                    if let Tree::Mapping(y) = lookup(x, p)->0 {
                        if has_key(y, n) {
                            lemma_lookup_well_formed(y, n);
                            lemma_untagged(lookup(y, n)->0);
                        }
                    }
                }
            }
        }
        if with_provider(settings, key, new) is Ok {
            let llm = crate::dsh_config::child_of(root, "llm-pi-ai"@)->Ok_0;
            let providers = crate::dsh_config::child_of(llm, "providers"@)->Ok_0;
            let before = lookup(providers, n);
            let entry = updated_provider(before, new);
            let providers2 = with_key(providers, n, entry);
            let llm2 = with_key(llm, p, Tree::Mapping(providers2));
            let root2 = with_key(root, l, Tree::Mapping(llm2));
            let t = Tree::Mapping(root2);
            lemma_with_key(providers, n, entry);
            lemma_with_key(llm, p, Tree::Mapping(providers2));
            lemma_with_key(root, l, Tree::Mapping(llm2));
            lemma_at_one(t, k);
            lemma_at_two(t, l, k);
            lemma_at_three(t, l, p, k);
            lemma_at_three(t, l, p, n);
            if let (Some(b), Tree::Mapping(m)) = (before, new) {
                if let Some(kept) = entries_of(b) {
                    lemma_filled(m, kept);
                }
            }
        }
    }
}

/// What a document holds under one key, under two keys, and under three.
proof fn lemma_at_one(t: Tree, a: Tree)
    ensures
        at(t, seq![a]) == (match t {
            Tree::Mapping(m) => lookup(m, a),
            _ => None,
        }),
{
    assert(seq![a].drop_first() =~= Seq::<Tree>::empty());
    if let Tree::Mapping(m) = t {
        if let Some(v) = lookup(m, a) {
            assert(at(v, seq![a].drop_first()) == Some(v));
        }
    }
}

proof fn lemma_at_two(t: Tree, a: Tree, b: Tree)
    ensures
        at(t, seq![a, b]) == (match t {
            Tree::Mapping(m) => match lookup(m, a) {
                Some(Tree::Mapping(x)) => lookup(x, b),
                _ => None,
            },
            _ => None,
        }),
{
    assert(seq![a, b].drop_first() =~= seq![b]);
    if let Tree::Mapping(m) = t {
        if let Some(v) = lookup(m, a) {
            lemma_at_one(v, b);
        }
    }
}

proof fn lemma_at_three(t: Tree, a: Tree, b: Tree, c: Tree)
    ensures
        at(t, seq![a, b, c]) == (match t {
            Tree::Mapping(m) => match lookup(m, a) {
                Some(Tree::Mapping(x)) => match lookup(x, b) {
                    Some(Tree::Mapping(y)) => lookup(y, c),
                    _ => None,
                },
                _ => None,
            },
            _ => None,
        }),
{
    assert(seq![a, b, c].drop_first() =~= seq![b, c]);
    if let Tree::Mapping(m) = t {
        if let Some(v) = lookup(m, a) {
            lemma_at_two(v, b, c);
        }
    }
}

/// New secrets are written beside whatever else the credentials hold, under keys of any
/// kind; a version is added where there is none.
pub proof fn law_refs_written(raw: Seq<char>, doc: Entries, refs: Entries, k: Tree)
    requires
        well_formed(Tree::Mapping(doc)),
        well_formed(Tree::Mapping(refs)),
        credentials_of(raw) == Ok::<Entries, ErrorView>(doc),
    ensures
        credentials_planned(raw, refs) == credentials_written(
            raw,
            yaml_written(Tree::Mapping(with_refs(doc, refs))),
        ),
        lookup(with_refs(doc, refs), k) == (if same(named("refs"@), k) {
            Some(Tree::Mapping(refs))
        } else if same(named("version"@), k) && lookup(doc, k) is None {
            Some(version_one())
        } else {
            lookup(doc, k)
        }),
        refs_of(with_refs(doc, refs)) == refs,
{
    broadcast use lemma_same_text;
    law_credentials_stay(doc, refs, "refs"@);
    reveal_strlit("refs");
    reveal_strlit("version");
    assert("refs"@.len() != "version"@.len());
    let r = named("refs"@);
    let v = named("version"@);
    let new = with_key(doc, r, Tree::Mapping(refs));
    lemma_with_key(doc, r, Tree::Mapping(refs));
    lemma_with_key(new, v, version_one());
    assert(!same(r, v) && !same(v, r));
    if same(r, k) {
        assert(k == r);
    } else if same(v, k) {
        assert(k == v);
    }
}

/// The secrets of the credentials are the mapping under `refs`.
pub proof fn law_refs(doc: Entries)
    ensures
        lookup(doc, named("refs"@)) matches Some(Tree::Mapping(m)) ==> refs_of(doc) == m,
        lookup(doc, named("refs"@)) is None ==> refs_of(doc).len() == 0,
        (lookup(doc, named("refs"@)) matches Some(v) && entries_of(v) is None) ==> refs_of(doc).len()
            == 0,
{
    assert(entries_of(Tree::Mapping(doc)) == Some(doc));
}

/// Setting a provider with a secret writes the secret under the reference name, beside the
/// other secrets; one without leaves the credentials alone. The settings get what is
/// written of the provider, as YAML.
pub proof fn law_set_in_files(
    settings_raw: Seq<char>,
    credentials_raw: Seq<char>,
    key: Seq<char>,
    m: Entries,
    settings: Tree,
    doc: Entries,
    k: Tree,
)
    requires
        is_json(Tree::Mapping(m)),
        well_formed(settings),
        well_formed(Tree::Mapping(doc)),
        settings_of(settings_raw) == Ok::<Tree, ErrorView>(settings),
        credentials_of(credentials_raw) == Ok::<Entries, ErrorView>(doc),
    ensures
        provider_set(settings_raw, credentials_raw, key, Tree::Mapping(m)) matches Ok(w) ==> {
            let config = Tree::Mapping(m);
            &&& secret_of(config) is None ==> w.credentials is None
            &&& secret_of(config) matches Some(secret) ==> {
                &&& reference_of(key, config) matches Some(name)
                &&& w.credentials matches Some(plan)
                &&& exists|refs: Entries|
                    {
                        &&& #[trigger] credentials_planned(credentials_raw, refs) == Ok::<
                            PlanView,
                            ErrorView,
                        >(plan)
                        &&& lookup(refs, named(name)) == Some(named(secret))
                        &&& !same(named(name), k) ==> lookup(refs, k) == lookup(refs_of(doc), k)
                    }
            }
            &&& match json_as_yaml(referencing(key, config)) {
                Ok(new) => match with_provider(settings, key, new) {
                    Ok(t) => w.settings == settings_planned(settings_raw, yaml_written(t)),
                    Err(e) => w.settings is Err,
                },
                Err(e) => w.settings is Err,
            }
        },
{
    lemma_refs_form(doc);
    law_secret_and_reference(key, m);
    if let Some(secret) = secret_of(Tree::Mapping(m)) {
        let name = reference_of(key, Tree::Mapping(m))->0;
        lemma_with_key(refs_of(doc), named(name), named(secret));
        let refs = with_key(refs_of(doc), named(name), named(secret));
        if provider_set(settings_raw, credentials_raw, key, Tree::Mapping(m)) is Ok {
            assert(credentials_planned(credentials_raw, refs) is Ok);
        }
    }
}

proof fn lemma_refs_form(doc: Entries)
    requires
        well_formed(Tree::Mapping(doc)),
    ensures
        well_formed(Tree::Mapping(refs_of(doc))),
        distinct_keys(refs_of(doc)),
{
    if has_key(doc, named("refs"@)) {
        lemma_lookup_well_formed(doc, named("refs"@));
        lemma_untagged(lookup(doc, named("refs"@))->0);
    }
}

/// Some provider under another key gives a name as the reference name of its secret.
pub open spec fn used_elsewhere(settings: Tree, key: Seq<char>, name: Seq<char>) -> bool {
    providers_of(settings) matches Some(m) && exists|k: Tree| #[trigger]
        has_key(m, k) && !same(named(key), k) && text_field(lookup(m, k)->0, "apiKeyEnv"@) == Some(
            name,
        )
}

/// What is left of the providers without one gives exactly the names that the others give.
proof fn lemma_referenced(all: Entries, key: Seq<char>, name: Seq<char>)
    requires
        well_formed(Tree::Mapping(all)),
    ensures
        is_referenced(swapped_out(all, named(key)), name) <==> exists|k: Tree| #[trigger]
            has_key(all, k) && !same(named(key), k) && text_field(lookup(all, k)->0, "apiKeyEnv"@)
                == Some(name),
{
    let n = named(key);
    let rest = swapped_out(all, n);
    lemma_swapped_out(all, n);
    if is_referenced(rest, name) {
        let i = choose|i: int|
            0 <= i < rest.len() && text_field((#[trigger] rest[i]).1, "apiKeyEnv"@) == Some(name);
        let k = rest[i].0;
        lemma_same_reflexive(k);
        assert(key_at(rest, k, i));
        lemma_index_of(rest, k, i);
        if same(n, k) {
            assert(key_at(rest, n, i));
        }
        assert(has_key(rest, k));
        assert(has_key(all, k));
        assert(lookup(all, k) == lookup(rest, k));
    }
    if exists|k: Tree| #[trigger]
        has_key(all, k) && !same(n, k) && text_field(lookup(all, k)->0, "apiKeyEnv"@) == Some(name) {
        let k = choose|k: Tree| #[trigger]
            has_key(all, k) && !same(n, k) && text_field(lookup(all, k)->0, "apiKeyEnv"@) == Some(
                name,
            );
        assert(has_key(rest, k));
        assert(lookup(rest, k) == lookup(all, k));
        let i = index_of(rest, k);
        assert(key_at(rest, k, i));
        assert(text_field(rest[i].1, "apiKeyEnv"@) == Some(name));
    }
}

/// Removing a provider removes nothing else, under keys of any kind: not from the
/// settings, nor from their section of providers, nor from the providers. Its reference
/// name is given up exactly where no other provider, wherever it stands, gives it too.
#[verifier::rlimit(30)]
pub proof fn law_provider_removed(settings: Tree, key: Seq<char>, k: Tree)
    requires
        well_formed(settings),
    ensures
        without_provider(settings, key) is Err <==> !(root_tree(settings) is Mapping),
        without_provider(settings, key) matches Ok(None) ==> provider_of(settings, key) is None,
        without_provider(settings, key) matches Ok(Some((t, orphan))) ==> {
            &&& provider_of(settings, key) matches Some(gone)
            &&& provider_of(t, key) is None
            &&& settings is Mapping && t is Mapping
            &&& !same(named("llm-pi-ai"@), k) ==> lookup(t->Mapping_0, k) == lookup(
                settings->Mapping_0,
                k,
            )
            &&& field(settings, "llm-pi-ai"@) matches Some(llm)
            &&& field(t, "llm-pi-ai"@) matches Some(llm2)
            &&& !same(named("providers"@), k) ==> lookup(entries_of(llm2)->0, k) == lookup(
                entries_of(llm)->0,
                k,
            )
            &&& !same(named(key), k) ==> lookup(providers_of(t)->0, k) == lookup(
                providers_of(settings)->0,
                k,
            )
            &&& match text_field(gone, "apiKeyEnv"@) {
                Some(name) => orphan == (if used_elsewhere(settings, key, name) {
                    None
                } else {
                    Some(name)
                }),
                None => orphan is None,
            }
        },
{
    broadcast use lemma_same_text;
    law_remove_provider(settings, key);
    let l = named("llm-pi-ai"@);
    let p = named("providers"@);
    let n = named(key);
    assert(forall|j: Tree| !has_key(Seq::<(Tree, Tree)>::empty(), j));
    if without_provider(settings, key) matches Ok(Some(_)) {
        let root = root_of(settings)->Ok_0;
        let llm = lookup(root, l)->0;
        let sections = entries_of(llm)->0;
        let providers = lookup(sections, p)->0;
        let all = entries_of(providers)->0;
        let rest = swapped_out(all, n);
        let sections2 = with_key(sections, p, refilled(providers, rest));
        let llm2 = refilled(llm, sections2);
        let root2 = with_key(root, l, llm2);
        assert(has_key(root, l));
        lemma_lookup_well_formed(root, l);
        lemma_untagged(llm);
        lemma_lookup_well_formed(sections, p);
        lemma_untagged(providers);
        lemma_swapped_out(all, n);
        lemma_refilled(providers, rest);
        lemma_refilled(llm, sections2);
        lemma_with_key(sections, p, refilled(providers, rest));
        lemma_with_key(root, l, llm2);
        let t = Tree::Mapping(root2);
        assert((without_provider(settings, key)->Ok_0->0).0 == t);
        assert(settings == Tree::Mapping(root));
        assert(entries_of(t) == Some(root2));
        assert(field(t, "llm-pi-ai"@) == Some(llm2));
        assert(entries_of(llm2) == Some(sections2));
        assert(providers_of(settings) == Some(all));
        assert(providers_of(t) == Some(rest));
        let gone = lookup(all, n)->0;
        if let Some(name) = text_field(gone, "apiKeyEnv"@) {
            lemma_referenced(all, key, name);
        }
    }
}

/// Removing a provider from the files: nothing is done where there is none. The credentials
/// are left alone where the provider gives no reference name, where another provider,
/// wherever it stands, gives it too, and where there is no secret under it; else that
/// secret is removed, and every other one stays.
pub proof fn law_remove_in_files(
    settings_raw: Seq<char>,
    credentials_raw: Seq<char>,
    key: Seq<char>,
    settings: Tree,
    doc: Entries,
    k: Tree,
)
    requires
        well_formed(settings),
        well_formed(Tree::Mapping(doc)),
        settings_of(settings_raw) == Ok::<Tree, ErrorView>(settings),
        credentials_of(credentials_raw) == Ok::<Entries, ErrorView>(doc),
    ensures
        provider_removed(settings_raw, credentials_raw, key) matches Ok(w) ==> match provider_of(
            settings,
            key,
        ) {
            Some(gone) => {
                let name = text_field(gone, "apiKeyEnv"@);
                &&& without_provider(settings, key) matches Ok(Some((t, _))) && w.settings
                    == settings_planned(settings_raw, yaml_written(t))
                &&& if name is None || used_elsewhere(settings, key, name->0) || !has_key(
                    refs_of(doc),
                    named(name->0),
                ) {
                    w.credentials is None
                } else {
                    &&& w.credentials matches Some(plan)
                    &&& exists|refs: Entries|
                        {
                            &&& #[trigger] credentials_planned(credentials_raw, refs) == Ok::<
                                PlanView,
                                ErrorView,
                            >(plan)
                            &&& !has_key(refs, named(name->0))
                            &&& !same(named(name->0), k) ==> lookup(refs, k) == lookup(
                                refs_of(doc),
                                k,
                            )
                        }
                }
            },
            None => w.credentials is None && w.settings == Ok::<PlanView, ErrorView>(PlanView::Keep),
        },
{
    lemma_refs_form(doc);
    law_provider_removed(settings, key, k);
    if provider_removed(settings_raw, credentials_raw, key) is Ok {
        if let Ok(Some((t, orphan))) = without_provider(settings, key) {
            if let Some(name) = orphan {
                lemma_swapped_out(refs_of(doc), named(name));
                if has_key(refs_of(doc), named(name)) {
                    let refs = swapped_out(refs_of(doc), named(name));
                    assert(credentials_planned(credentials_raw, refs) is Ok);
                }
            }
        }
    }
}

/// After a provider was removed, every provider that is left, at whatever position, finds
/// under its reference name the secret that was there before, wherever what is written to
/// the credentials is read back.
pub proof fn law_shared_secret_stays(
    settings_raw: Seq<char>,
    credentials_raw: Seq<char>,
    key: Seq<char>,
    settings: Tree,
    doc: Entries,
    k: Tree,
    name: Seq<char>,
)
    requires
        well_formed(settings),
        well_formed(Tree::Mapping(doc)),
        settings_of(settings_raw) == Ok::<Tree, ErrorView>(settings),
        credentials_of(credentials_raw) == Ok::<Entries, ErrorView>(doc),
        provider_removed(settings_raw, credentials_raw, key) is Ok,
        provider_removed(settings_raw, credentials_raw, key)->Ok_0.credentials matches Some(plan)
            ==> forall|refs: Entries| #[trigger]
            credentials_planned(credentials_raw, refs) == Ok::<PlanView, ErrorView>(plan)
                ==> credentials_stored(credentials_raw, refs),
        providers_of(settings) matches Some(m) && has_key(m, k) && text_field(
            lookup(m, k)->0,
            "apiKeyEnv"@,
        ) == Some(name),
        !same(named(key), k),
    ensures
        ({
            let w = provider_removed(settings_raw, credentials_raw, key)->Ok_0;
            &&& credentials_of(kept_or_written(credentials_raw, w.credentials)) matches Ok(after)
            &&& lookup(refs_of(after), named(name)) == lookup(refs_of(doc), named(name))
        }),
{
    broadcast use lemma_same_text;
    let w = provider_removed(settings_raw, credentials_raw, key)->Ok_0;
    law_remove_in_files(settings_raw, credentials_raw, key, settings, doc, named(name));
    if w.credentials is Some {
        let gone = provider_of(settings, key)->0;
        let lost = text_field(gone, "apiKeyEnv"@)->0;
        assert(!used_elsewhere(settings, key, lost));
        assert(lost != name);
        let plan = w.credentials->0;
        assert(!same(named(lost), named(name)));
        let refs = choose|refs: Entries|
            {
                &&& #[trigger] credentials_planned(credentials_raw, refs) == Ok::<
                    PlanView,
                    ErrorView,
                >(plan)
                &&& !has_key(refs, named(lost))
                &&& !same(named(lost), named(name)) ==> lookup(refs, named(name)) == lookup(
                    refs_of(doc),
                    named(name),
                )
            };
        assert(credentials_stored(credentials_raw, refs));
    }
}

// ----------------------------------------------------------------------------
// Listing
// ----------------------------------------------------------------------------

/// A provider comes with its secret as `apiKey` exactly where the credentials hold a text
/// that is not empty under the name that it gives as `apiKeyEnv`; its other entries are
/// as the settings have them.
pub proof fn law_secret_filled_in(m: Entries, refs: Entries, k: Tree)
    requires
        is_json(Tree::Mapping(m)),
        well_formed(Tree::Mapping(refs)),
    ensures
        ({
            let config = Tree::Mapping(m);
            let back = materialized(config, refs);
            match lookup(m, named("apiKeyEnv"@)) {
                Some(Tree::Text(env)) => match text_field(Tree::Mapping(refs), env) {
                    Some(secret) => if secret.len() > 0 {
                        back matches Tree::Mapping(b) && lookup(b, k) == (if same(
                            named("apiKey"@),
                            k,
                        ) {
                            Some(named(secret))
                        } else {
                            lookup(m, k)
                        })
                    } else {
                        back == config
                    },
                    None => back == config,
                },
                _ => back == config,
            }
        }),
{
    let config = Tree::Mapping(m);
    assert(entries_of(config) == Some(m));
    let e = named("apiKeyEnv"@);
    if has_key(m, e) {
        lemma_lookup_well_formed(m, e);
        lemma_untagged(lookup(m, e)->0);
        if let Tree::Text(env) = lookup(m, e)->0 {
            if let Some(secret) = text_field(Tree::Mapping(refs), env) {
                lemma_with_key(m, named("apiKey"@), named(secret));
                if same(named("apiKey"@), k) {
                    lemma_lookup_same(
                        with_key(m, named("apiKey"@), named(secret)),
                        named("apiKey"@),
                        k,
                    );
                }
            }
        }
    }
}

/// An entry of the providers is listed under a name: its key is that name, blanks around it
/// aside, and it is a mapping that has a form as JSON.
pub open spec fn listed_under(e: (Tree, Tree), name: Seq<char>) -> bool {
    &&& text_of(e.0) matches Some(s)
    &&& !is_blank(s) && trimmed(s) == name
    &&& entries_of(e.1) is Some
    &&& yaml_as_json(e.1) is Ok
}

proof fn lemma_listed_as(e: (Tree, Tree), refs: Entries, name: Seq<char>)
    ensures
        listed_under(e, name) <==> (listed_as(e, yaml_as_json(e.1), refs) matches Some(x) && x.0
            == name),
        listed_under(e, name) ==> listed_as(e, yaml_as_json(e.1), refs) == Some(
            (name, materialized(yaml_as_json(e.1)->Ok_0, refs)),
        ),
{
    if let Some(s) = text_of(e.0) {
        lemma_blank(s);
    }
}

proof fn lemma_list(providers: Entries, refs: Entries, name: Seq<char>, n: nat)
    requires
        n <= providers.len(),
    ensures
        distinct_keys(listed(providers, refs, n)),
        (forall|i: int| 0 <= i < n ==> !listed_under(#[trigger] providers[i], name)) ==> !has_key(
            listed(providers, refs, n),
            named(name),
        ),
        forall|i: int|
            0 <= i < n && listed_under(#[trigger] providers[i], name) && (forall|j: int|
                i < j < n ==> !listed_under(#[trigger] providers[j], name)) ==> lookup(
                listed(providers, refs, n),
                named(name),
            ) == Some(materialized(yaml_as_json(providers[i].1)->Ok_0, refs)),
        forall|k: Tree| #[trigger] has_key(listed(providers, refs, n), k) ==> k is Text,
    decreases n,
{
    broadcast use lemma_same_text;
    if n > 0 {
        let before = listed(providers, refs, (n - 1) as nat);
        let e = providers[n - 1];
        lemma_list(providers, refs, name, (n - 1) as nat);
        lemma_listed_as(e, refs, name);
        match listed_as(e, yaml_as_json(e.1), refs) {
            Some((other, config)) => {
                lemma_with_key(before, named(other), config);
                let after = with_key(before, named(other), config);
                if other != name {
                    assert(!same(named(other), named(name)));
                    assert(!listed_under(e, name));
                } else {
                    assert(listed_under(e, name));
                }
                assert forall|k: Tree| #[trigger] has_key(after, k) implies k is Text by {
                    if !same(named(other), k) {
                        assert(has_key(before, k));
                    }
                }
            },
            None => {
                assert(!listed_under(e, name));
            },
        }
        assert(!listed_under(e, name) ==> lookup(listed(providers, refs, n), named(name)) == lookup(
            before,
            named(name),
        ));
    }
}

/// The list of providers has an entry for a name exactly where some provider is listed
/// under it, and then it is the last of these, with its secret.
pub proof fn law_providers_listed(settings: Tree, refs: Entries, name: Seq<char>, i: int)
    requires
        providers_of(settings) is Some,
    ensures
        ({
            let m = providers_of(settings)->0;
            let list = provider_list(settings, refs);
            &&& (forall|j: int| 0 <= j < m.len() ==> !listed_under(#[trigger] m[j], name)) ==> lookup(
                list,
                named(name),
            ) is None
            &&& (0 <= i < m.len() && listed_under(m[i], name) && (forall|j: int|
                i < j < m.len() ==> !listed_under(#[trigger] m[j], name))) ==> lookup(
                list,
                named(name),
            ) == Some(materialized(yaml_as_json(m[i].1)->Ok_0, refs))
            &&& forall|k: Tree| #[trigger] has_key(list, k) ==> k is Text
        }),
{
    let m = providers_of(settings)->0;
    lemma_list(m, refs, name, m.len());
    if 0 <= i < m.len() {
        assert(m[i] == m[i]);
    }
}

// ----------------------------------------------------------------------------
// The default model
// ----------------------------------------------------------------------------

/// The first model of a provider is the `id` of the first item of its `models`, trimmed,
/// where that is a text that is not blank; later items make no difference.
pub proof fn law_first_model(settings: Tree, key: Seq<char>)
    ensures
        match provider_of(settings, key) {
            Some(p) => match field(p, "models"@) {
                Some(models) => match items_of(models) {
                    Some(items) => if items.len() > 0 && text_field(items[0], "id"@) is Some
                        && !is_blank(text_field(items[0], "id"@)->0) {
                        first_model_of(settings, key) == Some(trimmed(text_field(items[0], "id"@)->0))
                    } else {
                        first_model_of(settings, key) is None
                    },
                    None => first_model_of(settings, key) is None,
                },
                None => first_model_of(settings, key) is None,
            },
            None => first_model_of(settings, key) is None,
        },
{
    if let Some(p) = provider_of(settings, key) {
        if let Some(models) = field(p, "models"@) {
            if let Some(items) = items_of(models) {
                if items.len() > 0 && text_field(items[0], "id"@) is Some {
                    lemma_blank(text_field(items[0], "id"@)->0);
                }
            }
        }
    }
}

/// Taking a provider into use writes the settings with its first model, and leaves them
/// alone where it has none; nothing else in them changes, under keys of any kind.
pub proof fn law_model_in_file(raw: Seq<char>, key: Seq<char>, settings: Tree, k: Tree)
    requires
        well_formed(settings),
        settings_of(raw) == Ok::<Tree, ErrorView>(settings),
    ensures
        first_model_of(settings, key) is None ==> model_set(raw, key) == Ok::<PlanView, ErrorView>(
            PlanView::Keep,
        ),
        first_model_of(settings, key) is Some && settings is Mapping ==> {
            &&& switched_model(settings, key) matches Ok(Some(t))
            &&& model_set(raw, key) == settings_planned(raw, yaml_written(t))
            &&& t is Mapping
            &&& !same(named("agent-default-model"@), k) ==> lookup(t->Mapping_0, k) == lookup(
                settings->Mapping_0,
                k,
            )
            &&& default_model_of(t) matches Some(now)
            &&& now.provider == key
            &&& Some(now.model) == first_model_of(settings, key)
            &&& now.reasoning_effort == (match field(settings, "agent-default-model"@) {
                Some(section) => text_field(section, "reasoningEffort"@),
                None => None,
            })
        },
        first_model_of(settings, key) is Some && !(settings is Mapping) ==> model_set(raw, key) is Err
            || settings is Null,
{
    if first_model_of(settings, key) is Some && settings is Mapping {
        law_switch_model(settings, key);
        let root = settings->Mapping_0;
        let t = switched_model(settings, key)->Ok_0->0;
        let n = named("agent-default-model"@);
        lemma_with_key(root, n, lookup(t->Mapping_0, n)->0);
        let effort = match lookup(root, n) {
            Some(section) => text_field(section, "reasoningEffort"@),
            None => None,
        };
        lemma_with_key(
            root,
            n,
            Tree::Mapping(
                crate::dsh_config::model_section(key, first_model_of(settings, key)->0, effort),
            ),
        );
    }
}

/// The default model is there exactly where its section names a provider and a model by
/// texts; the reasoning effort is the text that the section has for it, if any.
pub proof fn law_default_model(settings: Tree)
    ensures
        match field(settings, "agent-default-model"@) {
            Some(section) => match default_model_of(settings) {
                Some(m) => {
                    &&& text_field(section, "provider"@) == Some(m.provider)
                    &&& text_field(section, "model"@) == Some(m.model)
                    &&& text_field(section, "reasoningEffort"@) == m.reasoning_effort
                },
                None => text_field(section, "provider"@) is None || text_field(section, "model"@)
                    is None,
            },
            None => default_model_of(settings) is None,
        },
{
}

// ----------------------------------------------------------------------------
// Validation
// ----------------------------------------------------------------------------

/// The position of a model without an `id` is the first: every model before it has one, and
/// it has none itself. There is no such position exactly where every model has one.
pub proof fn law_first_nameless(models: Seq<Tree>, i: nat)
    ensures
        match first_nameless(models, i) {
            Some(n) => {
                &&& i <= n < models.len()
                &&& !(text_field(models[n as int], "id"@) matches Some(s) && !is_blank(s))
                &&& forall|j: int|
                    i <= j < n ==> (text_field(#[trigger] models[j], "id"@) matches Some(s)
                        && !is_blank(s))
            },
            None => forall|j: int|
                i <= j < models.len() ==> (text_field(#[trigger] models[j], "id"@) matches Some(s)
                    && !is_blank(s)),
        },
    decreases models.len() - i,
{
    if i < models.len() {
        law_first_nameless(models, i + 1);
    }
}

/// A provider is accepted exactly where it is an object whose `api`, if it has one, is one
/// of three protocols, whose `baseURL` is a text that is not blank, and whose `models` are
/// a list that is not empty, each with an `id` that is a text and not blank.
pub proof fn law_provider_accepted(config: Tree)
    ensures
        provider_fault(config) is None <==> {
            &&& config is Mapping
            &&& field(config, "api"@) is Some ==> (text_field(config, "api"@) matches Some(api) && (
            api == "openai-completions"@ || api == "openai-responses"@ || api
                == "anthropic-messages"@))
            &&& text_field(config, "baseURL"@) matches Some(url) && !is_blank(url)
            &&& field(config, "models"@) matches Some(Tree::List(models)) && models.len() > 0 && (
            forall|j: int|
                0 <= j < models.len() ==> (text_field(#[trigger] models[j], "id"@) matches Some(s)
                    && !is_blank(s)))
        },
{
    if let Some(Tree::List(models)) = field(config, "models"@) {
        law_first_nameless(models, 0);
    }
}

/// Which of the errors for a provider comes: the first thing that is wrong, in the order of
/// its kind, its `api`, its `baseURL` and its `models`.
pub proof fn law_provider_refused(config: Tree)
    ensures
        provider_fault(config) matches Some(e) ==> {
            let api_fails = field(config, "api"@) is Some && !(text_field(config, "api"@) matches Some(
                api,
            ) && (api == "openai-completions"@ || api == "openai-responses"@ || api
                == "anthropic-messages"@));
            let url_fails = !(text_field(config, "baseURL"@) matches Some(url) && !is_blank(url));
            &&& e matches ErrorView::Localized { key, zh: _, en: _ }
            &&& !(config is Mapping) ==> key == "provider.dsh.configNotObject"@
            &&& config is Mapping && api_fails ==> key == "provider.dsh.invalidApi"@
            &&& config is Mapping && !api_fails && url_fails ==> key
                == "provider.dsh.baseUrlRequired"@
            &&& config is Mapping && !api_fails && !url_fails ==> match field(config, "models"@) {
                Some(Tree::List(models)) => if models.len() > 0 {
                    exists|n: nat|
                        {
                            &&& e == #[trigger] nameless_error("provider.dsh.modelIdRequired"@, n)
                            &&& n < models.len()
                            &&& !(text_field(models[n as int], "id"@) matches Some(s) && !is_blank(
                                s,
                            ))
                            &&& forall|j: int|
                                0 <= j < n ==> (text_field(#[trigger] models[j], "id"@) matches Some(
                                    s,
                                ) && !is_blank(s))
                        }
                } else {
                    key == "provider.dsh.modelsRequired"@
                },
                _ => key == "provider.dsh.modelsRequired"@,
            }
        },
{
    if let Some(Tree::List(models)) = field(config, "models"@) {
        law_first_nameless(models, 0);
        if let Some(n) = first_nameless(models, 0) {
            assert(nameless_error("provider.dsh.modelIdRequired"@, n) == nameless_error(
                "provider.dsh.modelIdRequired"@,
                n,
            ));
        }
    }
}

// ----------------------------------------------------------------------------
// Success and failure
// ----------------------------------------------------------------------------

/// Replacing a snippet takes the old one out, and then merges the new one into what that
/// leaves in the file; it fails where the first cannot be done, and where only the second
/// cannot, the first is still done.
pub proof fn law_replace_common_config(
    raw: Seq<char>,
    old_snippet: Seq<char>,
    new_snippet: Seq<char>,
)
    ensures
        match snippet_removing(raw, old_snippet) {
            Ok(plan) => {
                &&& snippet_replacing(raw, old_snippet, new_snippet) matches Ok(w)
                &&& w.removing == plan
                &&& w.applying == snippet_applying(carried_out(raw, plan), new_snippet)
            },
            Err(e) => snippet_replacing(raw, old_snippet, new_snippet) is Err,
        },
{
}

/// Setting a provider fails as a whole exactly where it comes with a secret, and the
/// credentials cannot be read or written.
pub proof fn law_set_succeeds(
    settings_raw: Seq<char>,
    credentials_raw: Seq<char>,
    key: Seq<char>,
    m: Entries,
)
    requires
        is_json(Tree::Mapping(m)),
    ensures
        ({
            let config = Tree::Mapping(m);
            let r = provider_set(settings_raw, credentials_raw, key, config);
            &&& secret_of(config) is None ==> r is Ok
            &&& secret_of(config) is Some && credentials_of(credentials_raw) is Err ==> r is Err
            &&& secret_of(config) matches Some(secret) ==> (credentials_of(credentials_raw)
                matches Ok(doc) ==> (r is Ok <==> yaml_written(
                Tree::Mapping(
                    with_refs(
                        doc,
                        with_key(
                            refs_of(doc),
                            named(reference_of(key, config)->0),
                            named(secret),
                        ),
                    ),
                ),
            ) is Ok))
            &&& settings_of(settings_raw) is Err ==> (r matches Ok(w) ==> w.settings is Err)
        }),
{
    law_secret_and_reference(key, m);
}

/// Removing a provider fails where the settings cannot be read or are no mapping, or where
/// its secret is to be removed, and the credentials cannot be read or written; and only
/// then.
pub proof fn law_remove_succeeds(
    settings_raw: Seq<char>,
    credentials_raw: Seq<char>,
    key: Seq<char>,
)
    requires
        settings_of(settings_raw) matches Ok(settings) ==> well_formed(settings),
    ensures
        ({
            let r = provider_removed(settings_raw, credentials_raw, key);
            match settings_of(settings_raw) {
                Ok(settings) => {
                    &&& !(root_tree(settings) is Mapping) ==> r is Err
                    &&& root_tree(settings) is Mapping && !leaves_secret(settings_raw, key) ==> r is Ok
                    &&& leaves_secret(settings_raw, key) && credentials_of(credentials_raw) is Err
                        ==> r is Err
                    &&& leaves_secret(settings_raw, key) ==> (credentials_of(credentials_raw)
                        matches Ok(doc) ==> {
                        let name = text_field(provider_of(settings, key)->0, "apiKeyEnv"@)->0;
                        &&& !has_key(refs_of(doc), named(name)) ==> r is Ok
                        &&& has_key(refs_of(doc), named(name)) ==> (r is Ok <==> yaml_written(
                            Tree::Mapping(
                                with_refs(doc, swapped_out(refs_of(doc), named(name))),
                            ),
                        ) is Ok)
                    })
                },
                Err(e) => r is Err,
            }
        }),
{
    if let Ok(settings) = settings_of(settings_raw) {
        law_provider_removed(settings, key, named(key));
    }
}

/// Removing a provider leaves a secret behind exactly where it gives a reference name that
/// no other provider gives.
pub proof fn law_leaves_secret(settings_raw: Seq<char>, key: Seq<char>, settings: Tree)
    requires
        well_formed(settings),
        settings_of(settings_raw) == Ok::<Tree, ErrorView>(settings),
        root_tree(settings) is Mapping,
    ensures
        leaves_secret(settings_raw, key) <==> {
            &&& provider_of(settings, key) matches Some(gone)
            &&& text_field(gone, "apiKeyEnv"@) matches Some(name)
            &&& !used_elsewhere(settings, key, name)
        },
{
    law_provider_removed(settings, key, named(key));
}

/// A document is turned into the other form by writing it in the one and reading it in the
/// other; it fails where either does.
pub proof fn law_conversions(t: Tree)
    ensures
        match yaml_written(t) {
            Ok(text) => match yaml_parsed_as_json(text) {
                Ok(j) => yaml_as_json(t) == Ok::<Tree, ErrorView>(j),
                Err(_) => yaml_as_json(t) is Err,
            },
            Err(_) => yaml_as_json(t) is Err,
        },
        match json_compact(t) {
            Ok(text) => match yaml_parsed(text) {
                Ok(y) => json_as_yaml(t) == Ok::<Tree, ErrorView>(y),
                Err(_) => json_as_yaml(t) is Err,
            },
            Err(_) => json_as_yaml(t) is Err,
        },
{
}

/// The error for a model without an id tells its place in the list, counted from zero.
pub proof fn law_nameless_error(key: Seq<char>, i: nat)
    ensures
        nameless_error(key, i) == (ErrorView::Localized {
            key,
            zh: "models["@ + decimal(i) + "] 缺少非空 id"@,
            en: "models["@ + decimal(i) + "] must have a non-empty id."@,
        }),
{
}

/// The copies of files of dsh end with `yaml` or `yml`.
pub proof fn law_backup_extensions(e: Seq<char>)
    ensures
        backup_extensions().contains(e) <==> e == "yaml"@ || e == "yml"@,
{
    let x = backup_extensions();
    assert(x[0] == "yaml"@ && x[1] == "yml"@);
}

/// Providers are listed one by one, in their order: one more is written into the list under
/// its name, or makes no difference where it is not listed.
pub proof fn law_listed_one_by_one(
    providers: Entries,
    refs: Entries,
    e: (Tree, Tree),
    name: Seq<char>,
)
    ensures
        ({
            let before = listed(providers, refs, providers.len());
            let after = listed(providers.push(e), refs, providers.len() + 1);
            &&& listed(Seq::empty(), refs, 0).len() == 0
            &&& listed_under(e, name) ==> after == with_key(
                before,
                named(name),
                materialized(yaml_as_json(e.1)->Ok_0, refs),
            )
            &&& (forall|n: Seq<char>| !(#[trigger] listed_under(e, n))) ==> after == before
        }),
{
    lemma_listed_prefix(providers, providers.push(e), refs, providers.len());
    assert(providers.push(e)[providers.len() as int] == e);
    lemma_listed_as(e, refs, name);
    if let Some(x) = listed_as(e, yaml_as_json(e.1), refs) {
        lemma_listed_as(e, refs, x.0);
        assert(listed_under(e, x.0));
    }
}

proof fn lemma_listed_prefix(a: Entries, b: Entries, refs: Entries, n: nat)
    requires
        n <= a.len() <= b.len(),
        forall|i: int| 0 <= i < a.len() ==> a[i] == b[i],
    ensures
        listed(a, refs, n) == listed(b, refs, n),
    decreases n,
{
    if n > 0 {
        lemma_listed_prefix(a, b, refs, (n - 1) as nat);
    }
}

/// The errors for files that cannot be read say which file it is, and end with the reader's
/// message; what is no mapping is refused as such.
pub proof fn law_errors(raw: Seq<char>, settings: Tree)
    ensures
        !is_blank(raw) ==> {
            &&& yaml_parsed(raw) matches Err(e) ==> {
                &&& settings_of(raw) == Err::<Tree, ErrorView>(
                    ErrorView::Config("Failed to parse dsh settings.yaml as YAML: "@ + e),
                )
                &&& credentials_of(raw) == Err::<Entries, ErrorView>(
                    ErrorView::Config("Failed to parse dsh .credentials.yaml as YAML: "@ + e),
                )
                &&& snippet_of(raw) == Err::<Entries, ErrorView>(
                    ErrorView::Config("Failed to parse dsh common config: "@ + e),
                )
            }
            &&& (yaml_parsed(raw) matches Ok(t) && !(t is Mapping) && !(t is Null)) ==> {
                &&& credentials_of(raw) == Err::<Entries, ErrorView>(
                    ErrorView::Config("dsh .credentials.yaml top level must be a mapping"@),
                )
                &&& snippet_of(raw) == Err::<Entries, ErrorView>(
                    ErrorView::Config("dsh common config snippet must be a YAML mapping"@),
                )
            }
        },
        !(root_tree(settings) is Mapping) ==> root_of(settings) == Err::<Entries, ErrorView>(
            ErrorView::Config("dsh settings.yaml top level must be a mapping"@),
        ),
{
}

/// A snippet that holds nothing counts as applied, and changes nothing, whatever the
/// settings are; one that cannot be read is an error, and so are settings that cannot be
/// read where a snippet is to be merged into them or taken out.
pub proof fn law_snippet_read_first(raw: Seq<char>, snippet: Seq<char>)
    ensures
        match snippet_of(snippet) {
            Ok(m) => if m.len() == 0 {
                &&& snippet_held(raw, snippet)
                &&& snippet_applying(raw, snippet) == Ok::<PlanView, ErrorView>(PlanView::Keep)
                &&& snippet_removing(raw, snippet) == Ok::<PlanView, ErrorView>(PlanView::Keep)
            } else {
                settings_of(raw) matches Err(e) ==> {
                    &&& !snippet_held(raw, snippet)
                    &&& snippet_applying(raw, snippet) == Err::<PlanView, ErrorView>(e)
                    &&& snippet_removing(raw, snippet) == Err::<PlanView, ErrorView>(e)
                }
            },
            Err(e) => {
                &&& !snippet_held(raw, snippet)
                &&& snippet_applying(raw, snippet) == Err::<PlanView, ErrorView>(e)
                &&& snippet_removing(raw, snippet) == Err::<PlanView, ErrorView>(e)
            },
        },
{
}

/// Settings that cannot be read are an error where a provider is taken into use.
pub proof fn law_model_unread(raw: Seq<char>, key: Seq<char>)
    ensures
        settings_of(raw) matches Err(e) ==> model_set(raw, key) == Err::<PlanView, ErrorView>(e),
{
}

} // verus!
