//! What holds of the configuration of dsh as a whole.

use vstd::prelude::*;

use crate::dsh_config::{
    child_of, credentials_of, credentials_stored, default_model_of, env_name_of, first_model_of,
    is_referenced, json_as_yaml, leaves_secret, listed, listed_as, materialized, model_section,
    protected_keys, provider_list, provider_removed, provider_set, providers_of, providers_read,
    reference_of, referencing, refs_of, root_of, secret_of, settings_hold, settings_of,
    settings_stored, settings_with, settings_without, snippet_applying, snippet_held, snippet_of,
    snippet_removing, snippet_replacing, switched_model, updated_provider, version_one,
    with_provider, with_refs, without_provider, yaml_as_json, DefaultModelView,
};
use crate::error::ErrorView;
use crate::merge::{lemma_filled, lemma_filled_self, lemma_filled_twice};
use crate::plan::{carried_out, PlanView};
use crate::snippet::{
    applied_to, exposed, is_protected, law_apply_idempotent, law_apply_then_applied,
    law_apply_then_take, law_protected_untouched, law_replaced, lemma_taken_well_formed, taken_from,
};
use crate::text::trimmed_text;
use crate::tree::{
    distinct_keys, entries_of, field, filled, has_key, index_of, is_flow, is_json, is_plain,
    is_storable, json_shaped, key_at, lemma_index_of, lemma_lookup_same, lemma_lookup_well_formed,
    lemma_refilled, lemma_same_text, lemma_swapped_out, lemma_swapped_out_well_formed,
    lemma_untagged, lemma_with_key, lemma_with_key_twice, lemma_with_key_well_formed, lookup,
    refilled, same, swapped_out, text_field, text_of, well_formed, with_key, Entries, Tree,
};

verus! {

/// A key is plain text.
pub open spec fn named(s: Seq<char>) -> Tree {
    Tree::Text(s)
}

/// What the settings hold of a provider.
pub open spec fn provider_of(settings: Tree, key: Seq<char>) -> Option<Tree> {
    match providers_of(settings) {
        Some(providers) => lookup(providers, named(key)),
        None => None,
    }
}

/// The settings never get the secret of a provider under `apiKey`.
pub proof fn law_secret_stays_out(key: Seq<char>, config: Tree)
    requires
        is_json(config),
    ensures
        field(referencing(key, config), "apiKey"@) is None,
{
    broadcast use lemma_same_text;
    reveal_strlit("apiKey");
    reveal_strlit("apiKeyEnv");
    match config {
        Tree::Mapping(m) => {
            lemma_swapped_out(m, named("apiKey"@));
            let rest = swapped_out(m, named("apiKey"@));
            if reference_of(key, config) is Some {
                lemma_with_key(rest, named("apiKeyEnv"@), named(reference_of(key, config)->0));
                assert("apiKey"@.len() != "apiKeyEnv"@.len());
            }
        },
        _ => {
            lemma_untagged(config);
        },
    }
}

/// A provider that comes with a secret has a reference name, under which the secret is
/// stored, and is written with it; every other field is written as it came.
pub proof fn law_reference_written(key: Seq<char>, config: Tree, name: Seq<char>)
    requires
        is_json(config),
    ensures
        secret_of(config) is Some ==> reference_of(key, config) is Some,
        reference_of(key, config) is Some && config is Mapping ==> text_field(
            referencing(key, config),
            "apiKeyEnv"@,
        ) == reference_of(key, config),
        name != "apiKey"@ && name != "apiKeyEnv"@ ==> field(referencing(key, config), name) == field(
            config,
            name,
        ),
{
    broadcast use lemma_same_text;
    match config {
        Tree::Mapping(m) => {
            lemma_swapped_out(m, named("apiKey"@));
            let rest = swapped_out(m, named("apiKey"@));
            if reference_of(key, config) is Some {
                lemma_with_key(rest, named("apiKeyEnv"@), named(reference_of(key, config)->0));
            }
            if name != "apiKey"@ {
                assert(!same(named("apiKey"@), named(name)));
            }
            if name != "apiKeyEnv"@ {
                assert(!same(named("apiKeyEnv"@), named(name)));
            }
        },
        _ => {},
    }
}

/// The fields of a provider that is written win over those that were there; the
/// ones that it does not mention stay.
pub proof fn law_unknown_fields_stay(old: Entries, new: Entries, k: Tree)
    requires
        well_formed(Tree::Mapping(old)),
        well_formed(Tree::Mapping(new)),
    ensures
        updated_provider(Some(Tree::Mapping(old)), Tree::Mapping(new)) matches Tree::Mapping(m)
            && lookup(m, k) == (if has_key(new, k) {
            lookup(new, k)
        } else {
            lookup(old, k)
        }),
{
    lemma_filled(new, old);
}

/// A provider that was written is found; every other provider, every other
/// section and every other setting is as it was.
pub proof fn law_set_provider(settings: Tree, key: Seq<char>, new: Tree)
    requires
        well_formed(settings),
        well_formed(new),
    ensures
        with_provider(settings, key, new) matches Ok(t) ==> {
            &&& provider_of(t, key) == Some(updated_provider(provider_of(settings, key), new))
            &&& forall|other: Seq<char>| #[trigger]
                provider_of(t, other) == provider_of(settings, other) || other == key
            &&& forall|name: Seq<char>| #[trigger]
                field(t, name) == field(settings, name) || name == "llm-pi-ai"@
        },
{
    broadcast use lemma_same_text;
    if with_provider(settings, key, new) is Ok {
        let t = with_provider(settings, key, new)->Ok_0;
        let root = root_of(settings)->Ok_0;
        let llm = child_of(root, "llm-pi-ai"@)->Ok_0;
        let providers = child_of(llm, "providers"@)->Ok_0;
        let entry = updated_provider(lookup(providers, named(key)), new);
        let providers2 = with_key(providers, named(key), entry);
        let llm2 = with_key(llm, named("providers"@), Tree::Mapping(providers2));
        lemma_child(root, "llm-pi-ai"@);
        lemma_child(llm, "providers"@);
        lemma_with_key(providers, named(key), entry);
        lemma_with_key(llm, named("providers"@), Tree::Mapping(providers2));
        lemma_with_key(root, named("llm-pi-ai"@), Tree::Mapping(llm2));
        assert(providers_of(t) == Some(providers2));
        lemma_providers(settings);
        assert forall|other: Seq<char>| #[trigger]
            provider_of(t, other) == provider_of(settings, other) || other == key by {
            if other != key {
                assert(!same(named(key), named(other)));
                assert(lookup(providers2, named(other)) == lookup(providers, named(other)));
            }
        }
        assert forall|name: Seq<char>| #[trigger]
            field(t, name) == field(settings, name) || name == "llm-pi-ai"@ by {
            if name != "llm-pi-ai"@ {
                assert(!same(named("llm-pi-ai"@), named(name)));
            }
        }
    }
}

/// A child of a well-formed mapping is well-formed.
proof fn lemma_child(m: Entries, name: Seq<char>)
    requires
        well_formed(Tree::Mapping(m)),
    ensures
        child_of(m, name) matches Ok(x) ==> well_formed(Tree::Mapping(x)),
{
    if has_key(m, named(name)) {
        lemma_lookup_well_formed(m, named(name));
    }
}

/// Where the settings can take a provider, the providers that they hold are the
/// ones that it joins.
proof fn lemma_providers(settings: Tree)
    requires
        well_formed(settings),
        root_of(settings) is Ok,
        child_of(root_of(settings)->Ok_0, "llm-pi-ai"@) is Ok,
        child_of(child_of(root_of(settings)->Ok_0, "llm-pi-ai"@)->Ok_0, "providers"@) is Ok,
    ensures
        ({
            let providers = child_of(
                child_of(root_of(settings)->Ok_0, "llm-pi-ai"@)->Ok_0,
                "providers"@,
            )->Ok_0;
            forall|key: Seq<char>| #[trigger]
                provider_of(settings, key) == lookup(providers, named(key))
        }),
{
    let root = root_of(settings)->Ok_0;
    let llm = child_of(root, "llm-pi-ai"@)->Ok_0;
    let providers = child_of(llm, "providers"@)->Ok_0;
    assert(forall|k: Tree| !has_key(Seq::<(Tree, Tree)>::empty(), k));
    if settings is Mapping {
        match lookup(root, named("llm-pi-ai"@)) {
            Some(v) => {
                if v is Mapping {
                    match lookup(llm, named("providers"@)) {
                        Some(w) => {
                            if !(w is Mapping) {
                                assert(providers_of(settings) is None);
                            }
                        },
                        None => {},
                    }
                } else {
                    assert(entries_of(v) is None);
                }
            },
            None => {},
        }
    }
}

/// Writing the same provider a second time changes nothing.
pub proof fn law_set_provider_twice(settings: Tree, key: Seq<char>, new: Tree)
    requires
        well_formed(settings),
        well_formed(new),
    ensures
        with_provider(settings, key, new) matches Ok(t) ==> with_provider(t, key, new) == Ok::<
            Tree,
            ErrorView,
        >(t),
{
    broadcast use lemma_same_text;
    if with_provider(settings, key, new) is Ok {
        let t = with_provider(settings, key, new)->Ok_0;
        let root = root_of(settings)->Ok_0;
        let llm = child_of(root, "llm-pi-ai"@)->Ok_0;
        let providers = child_of(llm, "providers"@)->Ok_0;
        let old = lookup(providers, named(key));
        let entry = updated_provider(old, new);
        let providers2 = with_key(providers, named(key), entry);
        let llm2 = with_key(llm, named("providers"@), Tree::Mapping(providers2));
        let root2 = with_key(root, named("llm-pi-ai"@), Tree::Mapping(llm2));
        lemma_child(root, "llm-pi-ai"@);
        lemma_child(llm, "providers"@);
        if old is Some {
            lemma_lookup_well_formed(providers, named(key));
            lemma_untagged(old->0);
        }
        lemma_with_key(providers, named(key), entry);
        lemma_with_key(llm, named("providers"@), Tree::Mapping(providers2));
        lemma_with_key(root, named("llm-pi-ai"@), Tree::Mapping(llm2));
        lemma_updated_twice(old, new);
        lemma_with_key_twice(providers, named(key), entry);
        lemma_with_key_twice(llm, named("providers"@), Tree::Mapping(providers2));
        lemma_with_key_twice(root, named("llm-pi-ai"@), Tree::Mapping(llm2));
        assert(child_of(root2, "llm-pi-ai"@) == Ok::<Entries, ErrorView>(llm2));
        assert(child_of(llm2, "providers"@) == Ok::<Entries, ErrorView>(providers2));
    }
}

proof fn lemma_updated_twice(old: Option<Tree>, new: Tree)
    requires
        well_formed(new),
        old matches Some(t) ==> well_formed(t),
    ensures
        updated_provider(Some(updated_provider(old, new)), new) == updated_provider(old, new),
{
    if let Tree::Mapping(m) = new {
        lemma_filled_self(m);
        assert(entries_of(Tree::Mapping(m)) == Some(m));
        if let Some(t) = old {
            if let Some(kept) = entries_of(t) {
                lemma_filled_twice(m, kept);
                assert(entries_of(Tree::Mapping(filled(m, kept))) == Some(filled(m, kept)));
            }
        }
    }
}

/// New secrets are found where they were put; the version, the records and
/// whatever else the credentials hold stay.
pub proof fn law_credentials_stay(doc: Entries, refs: Entries, name: Seq<char>)
    requires
        well_formed(Tree::Mapping(doc)),
        well_formed(Tree::Mapping(refs)),
    ensures
        refs_of(with_refs(doc, refs)) == refs,
        name != "refs"@ && name != "version"@ ==> lookup(with_refs(doc, refs), named(name)) == lookup(
            doc,
            named(name),
        ),
        lookup(with_refs(doc, refs), named("version"@)) == (match lookup(doc, named("version"@)) {
            Some(v) => Some(v),
            None => Some(version_one()),
        }),
{
    broadcast use lemma_same_text;
    reveal_strlit("refs");
    reveal_strlit("version");
    assert("refs"@.len() != "version"@.len());
    let new = with_key(doc, named("refs"@), Tree::Mapping(refs));
    lemma_with_key(doc, named("refs"@), Tree::Mapping(refs));
    lemma_with_key(new, named("version"@), version_one());
    assert(!same(named("refs"@), named("version"@)));
    assert(!same(named("version"@), named("refs"@)));
    if name != "refs"@ {
        assert(!same(named("refs"@), named(name)));
    }
    if name != "version"@ {
        assert(!same(named("version"@), named(name)));
    }
}

/// A provider comes back with the secret that was stored under its reference
/// name; its other fields are untouched.
pub proof fn law_secret_comes_back(
    json: Entries,
    refs: Entries,
    reference: Seq<char>,
    secret: Seq<char>,
    name: Seq<char>,
)
    requires
        is_json(Tree::Mapping(json)),
        well_formed(Tree::Mapping(refs)),
        text_field(Tree::Mapping(json), "apiKeyEnv"@) == Some(reference),
        secret.len() > 0,
    ensures
        ({
            let back = materialized(
                Tree::Mapping(json),
                with_key(refs, named(reference), named(secret)),
            );
            &&& text_field(back, "apiKey"@) == Some(secret)
            &&& name != "apiKey"@ ==> field(back, name) == field(Tree::Mapping(json), name)
        }),
{
    broadcast use lemma_same_text;
    lemma_with_key(refs, named(reference), named(secret));
    lemma_with_key(json, named("apiKey"@), named(secret));
    if name != "apiKey"@ {
        assert(!same(named("apiKey"@), named(name)));
    }
}

/// No entry behind the one with the very key `key` is listed under `key`. So it is of
/// a provider whose key is new, which goes to the end.
pub open spec fn listed_last(providers: Entries, key: Seq<char>) -> bool {
    has_key(providers, named(key)) ==> forall|i: int|
        index_of(providers, named(key)) < i < providers.len() ==> !(text_of(
            (#[trigger] providers[i]).0,
        ) matches Some(s) && trimmed_text(s) == Some(key))
}

/// What is listed under a key once its entry is among the first `n` providers.
proof fn lemma_listed(providers: Entries, refs: Entries, key: Seq<char>, config: Tree, n: nat)
    requires
        well_formed(Tree::Mapping(providers)),
        listed_last(providers, key),
        trimmed_text(key) == Some(key),
        has_key(providers, named(key)),
        n <= providers.len(),
        ({
            let e = providers[index_of(providers, named(key))];
            listed_as(e, yaml_as_json(e.1), refs) == Some((key, config))
        }),
    ensures
        distinct_keys(listed(providers, refs, n)),
        index_of(providers, named(key)) < n ==> lookup(listed(providers, refs, n), named(key))
            == Some(config),
    decreases n,
{
    broadcast use lemma_same_text;
    if n > 0 {
        lemma_listed(providers, refs, key, config, (n - 1) as nat);
        let before = listed(providers, refs, (n - 1) as nat);
        let e = providers[n - 1];
        match listed_as(e, yaml_as_json(e.1), refs) {
            Some((name, form)) => {
                lemma_with_key(before, named(name), form);
                if name != key {
                    assert(!same(named(name), named(key)));
                }
            },
            None => {},
        }
    }
}

// ----------------------------------------------------------------------------
// The files
// ----------------------------------------------------------------------------

/// What a file that held `raw` holds after a plan, where there is one.
pub open spec fn kept_or_written(raw: Seq<char>, plan: Option<PlanView>) -> Seq<char> {
    match plan {
        Some(p) => carried_out(raw, p),
        None => raw,
    }
}

/// The secrets after a provider was written.
pub open spec fn refs_after(key: Seq<char>, config: Tree, doc: Entries) -> Entries {
    match (reference_of(key, config), secret_of(config)) {
        (Some(name), Some(secret)) => with_key(refs_of(doc), named(name), named(secret)),
        _ => refs_of(doc),
    }
}

/// A provider can be turned into YAML, and YAML keeps the documents that writing it
/// leaves.
pub open spec fn set_plainly(settings: Tree, doc: Entries, key: Seq<char>, config: Tree) -> bool {
    &&& is_flow(referencing(key, config))
    &&& with_provider(settings, key, referencing(key, config)) matches Ok(t) && is_storable(t)
    &&& reference_of(key, config) is Some && secret_of(config) is Some ==> is_storable(
        Tree::Mapping(with_refs(doc, refs_after(key, config, doc))),
    )
}

/// A provider that was written is read back: `settings.yaml` holds it, and
/// `.credentials.yaml` its secret, as they were to be written.
pub open spec fn set_stored(
    settings_raw: Seq<char>,
    credentials_raw: Seq<char>,
    key: Seq<char>,
    config: Tree,
    settings: Tree,
    doc: Entries,
) -> bool {
    &&& provider_set(settings_raw, credentials_raw, key, config) matches Ok(w)
    &&& w.settings matches Ok(plan)
    &&& with_provider(settings, key, referencing(key, config)) is Ok
    &&& settings_of(carried_out(settings_raw, plan)) == with_provider(
        settings,
        key,
        referencing(key, config),
    )
    &&& credentials_of(kept_or_written(credentials_raw, w.credentials)) matches Ok(after)
    &&& refs_of(after) == refs_after(key, config, doc)
}

/// A provider that was written is read back wherever its form is taken over into YAML as
/// it is, and what is written to each of the two files is read back.
pub proof fn law_set_stored(
    settings_raw: Seq<char>,
    credentials_raw: Seq<char>,
    key: Seq<char>,
    config: Tree,
    settings: Tree,
    doc: Entries,
)
    requires
        settings_of(settings_raw) == Ok::<Tree, ErrorView>(settings),
        credentials_of(credentials_raw) == Ok::<Entries, ErrorView>(doc),
        json_as_yaml(referencing(key, config)) == Ok::<Tree, ErrorView>(referencing(key, config)),
        with_provider(settings, key, referencing(key, config)) matches Ok(t) && settings_stored(
            settings_raw,
            t,
        ),
        reference_of(key, config) is Some && secret_of(config) is Some ==> credentials_stored(
            credentials_raw,
            refs_after(key, config, doc),
        ),
    ensures
        set_stored(settings_raw, credentials_raw, key, config, settings, doc),
{
}

/// A provider that was written is read back. It is left open for documents that YAML may
/// not keep.
pub open spec fn set_sticks(
    settings_raw: Seq<char>,
    credentials_raw: Seq<char>,
    key: Seq<char>,
    config: Tree,
) -> bool {
    match (settings_of(settings_raw), credentials_of(credentials_raw)) {
        (Ok(settings), Ok(doc)) => set_plainly(settings, doc, key, config) ==> set_stored(
            settings_raw,
            credentials_raw,
            key,
            config,
            settings,
            doc,
        ),
        _ => true,
    }
}

/// A provider whose form in the settings is its form as JSON, and which is the last
/// one under its name.
pub open spec fn listed_plainly(settings: Tree, key: Seq<char>) -> bool {
    &&& trimmed_text(key) == Some(key)
    &&& providers_of(settings) matches Some(m)
    &&& listed_last(m, key)
    &&& lookup(m, named(key)) matches Some(entry)
    &&& entry is Mapping && is_plain(entry)
}

/// A plain provider is listed under its key as the settings hold it, with its secret.
pub open spec fn lists_plain(settings_raw: Seq<char>, credentials_raw: Seq<char>) -> bool {
    match (settings_of(settings_raw), credentials_of(credentials_raw)) {
        (Ok(settings), Ok(doc)) => forall|key: Seq<char>| #[trigger]
            listed_plainly(settings, key) ==> lookup(
                provider_list(settings, refs_of(doc)),
                named(key),
            ) == Some(materialized(provider_of(settings, key)->0, refs_of(doc))),
        _ => true,
    }
}

/// The plain ones of some providers are as JSON what they are as YAML.
pub open spec fn converts(providers: Entries) -> bool {
    forall|j: int|
        0 <= j < providers.len() && is_plain((#[trigger] providers[j]).1) ==> yaml_as_json(
            providers[j].1,
        ) == Ok::<Tree, ErrorView>(providers[j].1)
}

/// Plain providers are listed as they are, given their form as JSON.
pub proof fn lemma_lists_plain(settings_raw: Seq<char>, credentials_raw: Seq<char>, settings: Tree)
    requires
        settings_of(settings_raw) == Ok::<Tree, ErrorView>(settings),
        well_formed(settings),
        providers_of(settings) matches Some(m) ==> converts(m),
    ensures
        lists_plain(settings_raw, credentials_raw),
{
    broadcast use lemma_same_text;
    if credentials_of(credentials_raw) is Ok {
        let refs = refs_of(credentials_of(credentials_raw)->Ok_0);
        assert forall|key: Seq<char>| #[trigger] listed_plainly(settings, key) implies lookup(
            provider_list(settings, refs),
            named(key),
        ) == Some(materialized(provider_of(settings, key)->0, refs)) by {
            let providers = providers_of(settings)->0;
            lemma_providers_well_formed(settings);
            let i = index_of(providers, named(key));
            assert(key_at(providers, named(key), i));
            assert(is_plain(providers[i].1));
            assert(providers[i].0 == named(key));
            assert(entries_of(providers[i].1) is Some);
            lemma_listed(
                providers,
                refs,
                key,
                materialized(providers[i].1, refs),
                providers.len(),
            );
        }
    }
}

/// A provider is written as JSON.
proof fn lemma_form_json(key: Seq<char>, config: Tree)
    requires
        is_json(config),
        config is Mapping,
    ensures
        is_json(referencing(key, config)),
        referencing(key, config) is Mapping,
{
    let m = config->Mapping_0;
    lemma_swapped_out_well_formed(m, named("apiKey"@));
    if reference_of(key, config) is Some {
        lemma_with_key_well_formed(
            swapped_out(m, named("apiKey"@)),
            named("apiKeyEnv"@),
            named(reference_of(key, config)->0),
        );
    }
}

/// A provider that is written under a key is the last one under its name, where the
/// key is new or was that already.
proof fn lemma_set_listed_last(settings: Tree, key: Seq<char>, new: Tree)
    requires
        well_formed(settings),
        well_formed(new),
        with_provider(settings, key, new) is Ok,
        providers_of(settings) matches Some(m) ==> listed_last(m, key),
    ensures
        providers_of(with_provider(settings, key, new)->Ok_0) matches Some(m) && listed_last(m, key),
{
    broadcast use lemma_same_text;
    let t = with_provider(settings, key, new)->Ok_0;
    let root = root_of(settings)->Ok_0;
    let llm = child_of(root, "llm-pi-ai"@)->Ok_0;
    let providers = child_of(llm, "providers"@)->Ok_0;
    let entry = updated_provider(lookup(providers, named(key)), new);
    let providers2 = with_key(providers, named(key), entry);
    let llm2 = with_key(llm, named("providers"@), Tree::Mapping(providers2));
    lemma_child(root, "llm-pi-ai"@);
    lemma_child(llm, "providers"@);
    lemma_with_key(providers, named(key), entry);
    lemma_with_key(llm, named("providers"@), Tree::Mapping(providers2));
    lemma_with_key(root, named("llm-pi-ai"@), Tree::Mapping(llm2));
    assert(providers_of(t) == Some(providers2));
    assert(providers.len() > 0 ==> providers_of(settings) == Some(providers)) by {
        lemma_providers(settings);
    }
    let k = named(key);
    if has_key(providers, k) {
        let i = index_of(providers, k);
        assert(key_at(providers, k, i));
        assert(key_at(providers2, k, i));
        lemma_index_of(providers2, k, i);
        assert forall|j: int| i < j < providers2.len() implies !(text_of(
            (#[trigger] providers2[j]).0,
        ) matches Some(s) && trimmed_text(s) == Some(key)) by {
            assert(providers2[j] == providers[j]);
        }
    } else {
        assert(key_at(providers2, k, providers.len() as int));
        lemma_index_of(providers2, k, providers.len() as int);
    }
}

/// The entry of a provider has every field that the provider came with.
proof fn lemma_entry(settings: Tree, key: Seq<char>, new: Tree)
    requires
        well_formed(settings),
        well_formed(new),
        new is Mapping,
    ensures
        ({
            let entry = updated_provider(provider_of(settings, key), new);
            &&& entry is Mapping && well_formed(entry)
            &&& forall|name: Seq<char>|
                field(new, name) is Some ==> #[trigger] field(entry, name) == field(new, name)
        }),
{
    lemma_providers_well_formed(settings);
    if provider_of(settings, key) is Some {
        let old = provider_of(settings, key)->0;
        lemma_lookup_well_formed(providers_of(settings)->0, named(key));
        lemma_untagged(old);
        if entries_of(old) is Some {
            lemma_filled(new->Mapping_0, entries_of(old)->0);
        }
    }
}

/// Filling a secret in touches no other field.
proof fn lemma_materialized(entry: Tree, refs: Entries, name: Seq<char>)
    requires
        well_formed(entry),
        name != "apiKey"@,
    ensures
        field(materialized(entry, refs), name) == field(entry, name),
{
    broadcast use lemma_same_text;
    if let Tree::Mapping(m) = entry {
        if let Some(env) = text_field(entry, "apiKeyEnv"@) {
            if let Some(secret) = text_field(Tree::Mapping(refs), env) {
                lemma_with_key(m, named("apiKey"@), named(secret));
                assert(!same(named("apiKey"@), named(name)));
            }
        }
    }
}

/// What comes back of a provider that was written: every field that it came with, its secret
/// and the name of that, and what the settings held of it besides.
proof fn lemma_back(settings: Tree, doc: Entries, key: Seq<char>, config: Tree)
    requires
        is_json(config),
        config is Mapping,
        well_formed(settings),
        well_formed(Tree::Mapping(doc)),
    ensures
        ({
            let entry = updated_provider(provider_of(settings, key), referencing(key, config));
            let back = materialized(entry, refs_after(key, config, doc));
            &&& secret_of(config) is Some ==> text_field(back, "apiKey"@) == secret_of(config)
            &&& reference_of(key, config) is Some ==> text_field(back, "apiKeyEnv"@)
                == reference_of(key, config)
            &&& forall|name: Seq<char>| #[trigger]
                field(back, name) == field(entry, name) || name == "apiKey"@
            &&& forall|name: Seq<char>|
                name != "apiKey"@ && name != "apiKeyEnv"@ && (field(config, name) is Some
                    || provider_of(settings, key) is None) ==> #[trigger] field(back, name)
                    == field(config, name)
        }),
{
    let form = referencing(key, config);
    let entry = updated_provider(provider_of(settings, key), form);
    let refs = refs_after(key, config, doc);
    let back = materialized(entry, refs);
    lemma_form_json(key, config);
    lemma_entry(settings, key, form);
    assert forall|name: Seq<char>| #[trigger] field(back, name) == field(entry, name) || name
        == "apiKey"@ by {
        if name != "apiKey"@ {
            lemma_materialized(entry, refs, name);
        }
    }
    assert forall|name: Seq<char>|
        name != "apiKey"@ && name != "apiKeyEnv"@ && (field(config, name) is Some || provider_of(
            settings,
            key,
        ) is None) implies #[trigger] field(back, name) == field(config, name) by {
        law_reference_written(key, config, name);
        assert(field(back, name) == field(entry, name));
    }
    if reference_of(key, config) is Some {
        lemma_back_name(settings, doc, key, config);
    }
    if secret_of(config) is Some {
        lemma_back_secret(settings, doc, key, config);
    }
}

proof fn lemma_back_name(settings: Tree, doc: Entries, key: Seq<char>, config: Tree)
    requires
        is_json(config),
        config is Mapping,
        well_formed(settings),
        well_formed(Tree::Mapping(doc)),
        reference_of(key, config) is Some,
    ensures
        ({
            let entry = updated_provider(provider_of(settings, key), referencing(key, config));
            let back = materialized(entry, refs_after(key, config, doc));
            &&& text_field(entry, "apiKeyEnv"@) == reference_of(key, config)
            &&& text_field(back, "apiKeyEnv"@) == reference_of(key, config)
        }),
{
    let form = referencing(key, config);
    let entry = updated_provider(provider_of(settings, key), form);
    lemma_form_json(key, config);
    lemma_entry(settings, key, form);
    law_reference_written(key, config, "apiKey"@);
    reveal_strlit("apiKey");
    reveal_strlit("apiKeyEnv");
    assert("apiKey"@.len() != "apiKeyEnv"@.len());
    assert(text_field(form, "apiKeyEnv"@) == reference_of(key, config));
    assert(field(entry, "apiKeyEnv"@) == field(form, "apiKeyEnv"@));
    lemma_materialized(entry, refs_after(key, config, doc), "apiKeyEnv"@);
}

proof fn lemma_back_secret(settings: Tree, doc: Entries, key: Seq<char>, config: Tree)
    requires
        is_json(config),
        config is Mapping,
        well_formed(settings),
        well_formed(Tree::Mapping(doc)),
        secret_of(config) is Some,
    ensures
        ({
            let entry = updated_provider(provider_of(settings, key), referencing(key, config));
            let back = materialized(entry, refs_after(key, config, doc));
            text_field(back, "apiKey"@) == secret_of(config)
        }),
{
    let form = referencing(key, config);
    let entry = updated_provider(provider_of(settings, key), form);
    let refs = refs_after(key, config, doc);
    let reference = reference_of(key, config)->0;
    let secret = secret_of(config)->0;
    lemma_form_json(key, config);
    lemma_entry(settings, key, form);
    lemma_back_name(settings, doc, key, config);
    lemma_refs_well_formed(doc);
    lemma_with_key(refs_of(doc), named(reference), named(secret));
    assert(text_field(Tree::Mapping(refs), reference) == Some(secret));
    assert(secret.len() > 0);
    lemma_with_key(entry->Mapping_0, named("apiKey"@), named(secret));
}

/// A provider is got as it was set, where the files are read back: what `set_provider`
/// leaves in them, and what `get_providers` lists of plain providers, make the provider
/// come back under its key with every field that it came with, and with its secret and
/// the name of that. What it did not come with is what the settings held of it: nothing,
/// where it is new.
pub proof fn law_set_then_get(
    settings_raw: Seq<char>,
    credentials_raw: Seq<char>,
    key: Seq<char>,
    config: Tree,
    settings: Tree,
    doc: Entries,
)
    requires
        is_json(config),
        config is Mapping,
        trimmed_text(key) == Some(key),
        well_formed(settings),
        well_formed(Tree::Mapping(doc)),
        settings_of(settings_raw) == Ok::<Tree, ErrorView>(settings),
        credentials_of(credentials_raw) == Ok::<Entries, ErrorView>(doc),
        providers_of(settings) matches Some(m) ==> listed_last(m, key),
        is_plain(updated_provider(provider_of(settings, key), referencing(key, config))),
        set_stored(settings_raw, credentials_raw, key, config, settings, doc),
        ({
            let w = provider_set(settings_raw, credentials_raw, key, config)->Ok_0;
            lists_plain(
                carried_out(settings_raw, w.settings->Ok_0),
                kept_or_written(credentials_raw, w.credentials),
            )
        }),
    ensures
        ({
            let w = provider_set(settings_raw, credentials_raw, key, config)->Ok_0;
            let list = providers_read(
                carried_out(settings_raw, w.settings->Ok_0),
                kept_or_written(credentials_raw, w.credentials),
            );
            let entry = updated_provider(provider_of(settings, key), referencing(key, config));
            &&& list is Ok
            &&& lookup(list->Ok_0, named(key)) matches Some(back)
            &&& back == materialized(entry, refs_after(key, config, doc))
            &&& secret_of(config) is Some ==> text_field(back, "apiKey"@) == secret_of(config)
            &&& reference_of(key, config) is Some ==> text_field(back, "apiKeyEnv"@)
                == reference_of(key, config)
            &&& forall|name: Seq<char>| #[trigger]
                field(back, name) == field(entry, name) || name == "apiKey"@
            &&& forall|name: Seq<char>|
                name != "apiKey"@ && name != "apiKeyEnv"@ && (field(config, name) is Some
                    || provider_of(settings, key) is None) ==> #[trigger] field(back, name)
                    == field(config, name)
        }),
{
    let form = referencing(key, config);
    let t = with_provider(settings, key, form)->Ok_0;
    let entry = updated_provider(provider_of(settings, key), form);
    let refs = refs_after(key, config, doc);
    lemma_form_json(key, config);
    law_set_provider(settings, key, form);
    lemma_set_listed_last(settings, key, form);
    lemma_back(settings, doc, key, config);
    assert(entry is Mapping) by {
        lemma_entry(settings, key, form);
    }
    assert(listed_plainly(t, key));
    assert(lookup(provider_list(t, refs), named(key)) == Some(materialized(entry, refs)));
}

/// A new provider that comes with a secret and no name for it is got as it was set, with
/// the name that was made of its key under `apiKeyEnv`, where the files are read back.
pub proof fn law_new_provider(
    settings_raw: Seq<char>,
    credentials_raw: Seq<char>,
    key: Seq<char>,
    p: Entries,
    settings: Tree,
    doc: Entries,
)
    requires
        is_json(Tree::Mapping(p)),
        trimmed_text(key) == Some(key),
        well_formed(settings),
        well_formed(Tree::Mapping(doc)),
        settings_of(settings_raw) == Ok::<Tree, ErrorView>(settings),
        credentials_of(credentials_raw) == Ok::<Entries, ErrorView>(doc),
        provider_of(settings, key) is None,
        secret_of(Tree::Mapping(p)) is Some,
        text_field(Tree::Mapping(p), "apiKey"@) == secret_of(Tree::Mapping(p)),
        !has_key(p, named("apiKeyEnv"@)),
        is_plain(referencing(key, Tree::Mapping(p))),
        set_stored(settings_raw, credentials_raw, key, Tree::Mapping(p), settings, doc),
        ({
            let w = provider_set(settings_raw, credentials_raw, key, Tree::Mapping(p))->Ok_0;
            lists_plain(
                carried_out(settings_raw, w.settings->Ok_0),
                kept_or_written(credentials_raw, w.credentials),
            )
        }),
    ensures
        ({
            let w = provider_set(settings_raw, credentials_raw, key, Tree::Mapping(p))->Ok_0;
            let list = providers_read(
                carried_out(settings_raw, w.settings->Ok_0),
                kept_or_written(credentials_raw, w.credentials),
            );
            let named_too = with_key(p, named("apiKeyEnv"@), named(env_name_of(key)));
            &&& list is Ok
            &&& lookup(list->Ok_0, named(key)) matches Some(Tree::Mapping(back))
            &&& forall|k: Tree| #[trigger] lookup(back, k) == lookup(named_too, k)
        }),
{
    broadcast use lemma_same_text;
    let config = Tree::Mapping(p);
    let a = named("apiKey"@);
    let n = named("apiKeyEnv"@);
    let secret = named(secret_of(config)->0);
    let name = named(env_name_of(key));
    law_set_then_get(settings_raw, credentials_raw, key, config, settings, doc);
    reveal_strlit("apiKey");
    reveal_strlit("apiKeyEnv");
    assert("apiKey"@.len() != "apiKeyEnv"@.len());
    lemma_swapped_out(p, a);
    let rest = swapped_out(p, a);
    assert(!same(a, n) && !same(n, a));
    assert(!has_key(rest, n));
    assert(reference_of(key, config) == Some(env_name_of(key)));
    lemma_with_key(rest, n, name);
    let form = with_key(rest, n, name);
    assert(referencing(key, config) == Tree::Mapping(form));
    lemma_refs_well_formed(doc);
    lemma_with_key(refs_of(doc), name, secret);
    lemma_with_key(form, a, secret);
    let back = with_key(form, a, secret);
    assert(materialized(Tree::Mapping(form), refs_after(key, config, doc)) == Tree::Mapping(back));
    lemma_with_key(p, n, name);
    let whole = with_key(p, n, name);
    assert(lookup(p, a) == Some(secret)) by {
        assert(has_key(p, a));
        assert(key_at(p, a, index_of(p, a)));
        lemma_lookup_well_formed(p, a);
        assert(field(config, "apiKey"@) == lookup(p, a));
        assert(json_shaped(lookup(p, a)->0));
        assert(text_of(lookup(p, a)->0) == secret_of(config));
    }
    assert forall|k: Tree| #[trigger] lookup(back, k) == lookup(whole, k) by {
        if same(a, k) {
            lemma_lookup_same(back, a, k);
            lemma_lookup_same(whole, a, k);
        } else if same(n, k) {
            lemma_lookup_same(back, n, k);
            lemma_lookup_same(whole, n, k);
        }
    }
}

proof fn lemma_refs_well_formed(doc: Entries)
    requires
        well_formed(Tree::Mapping(doc)),
    ensures
        well_formed(Tree::Mapping(refs_of(doc))),
{
    if has_key(doc, named("refs"@)) {
        lemma_lookup_well_formed(doc, named("refs"@));
        lemma_untagged(lookup(doc, named("refs"@))->0);
    }
}

proof fn lemma_providers_well_formed(settings: Tree)
    requires
        well_formed(settings),
    ensures
        providers_of(settings) matches Some(m) ==> well_formed(Tree::Mapping(m)),
{
    lemma_untagged(settings);
    if field(settings, "llm-pi-ai"@) is Some {
        let llm = field(settings, "llm-pi-ai"@)->0;
        lemma_lookup_well_formed(entries_of(settings)->0, named("llm-pi-ai"@));
        lemma_untagged(llm);
        if field(llm, "providers"@) is Some {
            lemma_lookup_well_formed(entries_of(llm)->0, named("providers"@));
            lemma_untagged(field(llm, "providers"@)->0);
        }
    }
}

/// A provider that was removed is gone; every other provider and every other
/// setting is as it was. Its reference name is given up exactly where no other
/// provider gives it.
pub proof fn law_remove_provider(settings: Tree, key: Seq<char>)
    requires
        well_formed(settings),
    ensures
        without_provider(settings, key) matches Ok(Some((t, orphan))) ==> {
            &&& provider_of(settings, key) is Some
            &&& provider_of(t, key) is None
            &&& forall|other: Seq<char>| #[trigger]
                provider_of(t, other) == provider_of(settings, other) || other == key
            &&& forall|name: Seq<char>| #[trigger]
                field(t, name) == field(settings, name) || name == "llm-pi-ai"@
            &&& orphan == (match text_field(provider_of(settings, key)->0, "apiKeyEnv"@) {
                Some(name) => if is_referenced(providers_of(t)->0, name) {
                    None
                } else {
                    Some(name)
                },
                None => None,
            })
        },
        without_provider(settings, key) matches Ok(None) ==> provider_of(settings, key) is None,
{
    broadcast use lemma_same_text;
    if root_of(settings) is Ok {
        let root = root_of(settings)->Ok_0;
        assert(forall|k: Tree| !has_key(Seq::<(Tree, Tree)>::empty(), k));
        assert(entries_of(settings) == Some(root) || settings is Null);
        if has_key(root, named("llm-pi-ai"@)) {
            let llm = lookup(root, named("llm-pi-ai"@))->0;
            lemma_lookup_well_formed(root, named("llm-pi-ai"@));
            lemma_untagged(llm);
            if entries_of(llm) is Some {
                let sections = entries_of(llm)->0;
                if has_key(sections, named("providers"@)) {
                    let providers = lookup(sections, named("providers"@))->0;
                    lemma_lookup_well_formed(sections, named("providers"@));
                    lemma_untagged(providers);
                    if entries_of(providers) is Some {
                        let all = entries_of(providers)->0;
                        let rest = swapped_out(all, named(key));
                        let sections2 = with_key(
                            sections,
                            named("providers"@),
                            refilled(providers, rest),
                        );
                        assert(providers_of(settings) == Some(all));
                        if has_key(all, named(key)) {
                            let t = Tree::Mapping(
                                with_key(root, named("llm-pi-ai"@), refilled(llm, sections2)),
                            );
                            lemma_swapped_out(all, named(key));
                            lemma_refilled(providers, rest);
                            lemma_refilled(llm, sections2);
                            lemma_with_key(
                                sections,
                                named("providers"@),
                                refilled(providers, rest),
                            );
                            lemma_with_key(root, named("llm-pi-ai"@), refilled(llm, sections2));
                            assert(providers_of(t) == Some(rest));
                            assert forall|other: Seq<char>| #[trigger]
                                provider_of(t, other) == provider_of(settings, other) || other
                                    == key by {
                                if other != key {
                                    assert(!same(named(key), named(other)));
                                    assert(lookup(rest, named(other)) == lookup(all, named(other)));
                                }
                            }
                            assert forall|name: Seq<char>| #[trigger]
                                field(t, name) == field(settings, name) || name == "llm-pi-ai"@ by {
                                if name != "llm-pi-ai"@ {
                                    assert(!same(named("llm-pi-ai"@), named(name)));
                                }
                            }
                        }
                    }
                }
            }
        }
    }
}

/// Taking a provider into use sets the provider and its first model, keeps the
/// reasoning effort, and touches no other setting.
pub proof fn law_switch_model(settings: Tree, key: Seq<char>)
    requires
        well_formed(settings),
    ensures
        switched_model(settings, key) matches Ok(Some(t)) ==> {
            &&& default_model_of(t) == Some(
                DefaultModelView {
                    provider: key,
                    model: first_model_of(settings, key)->0,
                    reasoning_effort: match field(settings, "agent-default-model"@) {
                        Some(section) => text_field(section, "reasoningEffort"@),
                        None => None,
                    },
                },
            )
            &&& forall|name: Seq<char>| #[trigger]
                field(t, name) == field(settings, name) || name == "agent-default-model"@
        },
{
    broadcast use lemma_same_text;
    reveal_strlit("provider");
    reveal_strlit("model");
    reveal_strlit("reasoningEffort");
    if switched_model(settings, key) matches Ok(Some(_)) {
        let t = switched_model(settings, key)->Ok_0->0;
        let root = root_of(settings)->Ok_0;
        let model = first_model_of(settings, key)->0;
        let effort = match lookup(root, named("agent-default-model"@)) {
            Some(section) => text_field(section, "reasoningEffort"@),
            None => None,
        };
        let section = model_section(key, model, effort);
        lemma_with_key(root, named("agent-default-model"@), Tree::Mapping(section));
        assert("provider"@.len() != "model"@.len());
        assert("provider"@.len() != "reasoningEffort"@.len());
        assert("model"@.len() != "reasoningEffort"@.len());
        assert(distinct_keys(section));
        assert(section[0] == (named("provider"@), named(key)));
        assert(section[1] == (named("model"@), named(model)));
        assert(key_at(section, named("provider"@), 0));
        assert(key_at(section, named("model"@), 1));
        lemma_index_of(section, named("provider"@), 0);
        lemma_index_of(section, named("model"@), 1);
        if effort is Some {
            assert(section[2] == (named("reasoningEffort"@), named(effort->0)));
            assert(key_at(section, named("reasoningEffort"@), 2));
            lemma_index_of(section, named("reasoningEffort"@), 2);
        } else {
            assert forall|i: int| !(#[trigger] key_at(section, named("reasoningEffort"@), i)) by {
                if i == 0 {
                } else if i == 1 {
                }
            }
        }
        assert(entries_of(settings) == Some(root) || settings is Null);
        assert forall|name: Seq<char>| #[trigger]
            field(t, name) == field(settings, name) || name == "agent-default-model"@ by {
            if name != "agent-default-model"@ {
                assert(!same(named("agent-default-model"@), named(name)));
            }
        }
    }
}

// ----------------------------------------------------------------------------
// What other writes leave in the files
// ----------------------------------------------------------------------------

/// Once a secret was dropped, `.credentials.yaml` is read as what was left of it. It
/// is left open for documents that YAML may not keep.
pub open spec fn drop_sticks(raw: Seq<char>, orphan: Option<Seq<char>>) -> bool {
    match (orphan, credentials_of(raw)) {
        (Some(name), Ok(doc)) => {
            let refs = swapped_out(refs_of(doc), named(name));
            has_key(refs_of(doc), named(name)) && is_storable(Tree::Mapping(with_refs(doc, refs)))
                ==> credentials_stored(raw, refs)
        },
        _ => true,
    }
}

/// The credentials are neither read nor written for a provider that comes without a
/// secret, nor for the removal of one that leaves no secret behind.
pub proof fn law_credentials_untouched(
    settings_raw: Seq<char>,
    a: Seq<char>,
    b: Seq<char>,
    key: Seq<char>,
    config: Tree,
)
    ensures
        secret_of(config) is None ==> {
            &&& provider_set(settings_raw, a, key, config) == provider_set(
                settings_raw,
                b,
                key,
                config,
            )
            &&& provider_set(settings_raw, a, key, config) matches Ok(w)
            &&& w.credentials is None
        },
        !leaves_secret(settings_raw, key) ==> {
            &&& provider_removed(settings_raw, a, key) == provider_removed(settings_raw, b, key)
            &&& provider_removed(settings_raw, a, key) matches Ok(w) ==> w.credentials is None
        },
{
}

/// Once a provider was removed, both files are read as what was left of them. It is
/// left open for documents that YAML may not keep.
pub open spec fn removal_sticks(
    settings_raw: Seq<char>,
    credentials_raw: Seq<char>,
    key: Seq<char>,
) -> bool {
    match settings_of(settings_raw) {
        Ok(settings) => (without_provider(settings, key) matches Ok(Some(left)) && provider_removed(
            settings_raw,
            credentials_raw,
            key,
        ) is Ok) ==> {
            let left = without_provider(settings, key)->Ok_0->0;
            &&& is_storable(left.0) ==> settings_stored(settings_raw, left.0)
            &&& drop_sticks(credentials_raw, left.1)
        },
        Err(_) => true,
    }
}

/// Once a provider was taken into use, `settings.yaml` is read as what was to be
/// written, and names the provider and its first model. It is left open for documents
/// that YAML may not keep.
pub open spec fn model_sticks(raw: Seq<char>, key: Seq<char>) -> bool {
    match settings_of(raw) {
        Ok(settings) => switched_model(settings, key) matches Ok(Some(t)) ==> is_storable(t) ==> {
            &&& settings_stored(raw, t)
            &&& default_model_of(t) matches Some(m)
            &&& m.provider == key
            &&& Some(m.model) == first_model_of(settings, key)
        },
        Err(_) => true,
    }
}

/// `settings.yaml` with a snippet merged in is read back where YAML keeps the settings;
/// where it is, the snippet is in it, and merging it in again leaves the file alone.
pub open spec fn snippet_sticks(raw: Seq<char>, snippet: Seq<char>) -> bool {
    match (snippet_of(snippet), settings_of(raw)) {
        (Ok(m), Ok(settings)) => m.len() > 0 ==> (settings_with(settings, m) matches Ok(t) ==> {
            let after = carried_out(raw, snippet_applying(raw, snippet)->Ok_0);
            &&& is_storable(t) ==> settings_stored(raw, t)
            &&& settings_stored(raw, t) ==> snippet_held(after, snippet) && snippet_applying(
                after,
                snippet,
            ) == Ok::<PlanView, ErrorView>(PlanView::Keep)
        }),
        _ => true,
    }
}

/// A snippet that was merged into `settings.yaml` is in it, and merging it again leaves
/// the file alone, where the file is read back as it was written.
pub proof fn law_snippet_applied(raw: Seq<char>, snippet: Seq<char>, settings: Tree, m: Entries)
    requires
        well_formed(settings),
        well_formed(Tree::Mapping(m)),
        m.len() > 0,
        snippet_of(snippet) == Ok::<Entries, ErrorView>(m),
        settings_of(raw) == Ok::<Tree, ErrorView>(settings),
        settings_with(settings, m) matches Ok(t) && (is_storable(t) ==> settings_stored(raw, t)),
    ensures
        snippet_sticks(raw, snippet),
{
    let root = root_of(settings)->Ok_0;
    law_apply_then_applied(root, m, protected_keys());
    law_apply_idempotent(root, m, protected_keys());
}

/// Once a snippet was taken out, `settings.yaml` is read as what was left of it. It is
/// left open for documents that YAML may not keep.
pub open spec fn snippet_leaves(raw: Seq<char>, snippet: Seq<char>) -> bool {
    match (snippet_of(snippet), settings_of(raw)) {
        (Ok(m), Ok(settings)) => m.len() > 0 ==> (settings_without(settings, m) matches Ok(t)
            ==> is_storable(t) ==> settings_stored(raw, t)),
        _ => true,
    }
}

/// The settings once a snippet was taken out; one that holds nothing changes nothing.
pub open spec fn settings_between(settings: Tree, m: Entries) -> Result<Tree, ErrorView> {
    if m.len() == 0 {
        Ok(settings)
    } else {
        settings_without(settings, m)
    }
}

/// The settings once one snippet took the place of another.
pub open spec fn settings_after(settings: Tree, m: Entries, n: Entries) -> Result<Tree, ErrorView> {
    match settings_between(settings, m) {
        Ok(between) => if n.len() == 0 {
            Ok(between)
        } else {
            settings_with(between, n)
        },
        Err(e) => Err(e),
    }
}

/// Once one snippet took the place of another, `settings.yaml` is read as the settings
/// with the old one taken out and then the new one merged in, and holds the new one,
/// wherever what each of the two steps writes is read back. It is, where YAML keeps the
/// settings.
pub open spec fn replacement_sticks(
    raw: Seq<char>,
    old_snippet: Seq<char>,
    new_snippet: Seq<char>,
) -> bool {
    match (snippet_of(old_snippet), snippet_of(new_snippet), settings_of(raw)) {
        (Ok(m), Ok(n), Ok(settings)) => match (
            settings_between(settings, m),
            settings_after(settings, m, n),
        ) {
            (Ok(between), Ok(after)) => {
                let half = carried_out(raw, snippet_removing(raw, old_snippet)->Ok_0);
                &&& m.len() > 0 && is_storable(between) ==> settings_stored(raw, between)
                &&& m.len() == 0 || settings_stored(raw, between) ==> {
                    &&& n.len() > 0 && is_storable(after) ==> settings_stored(half, after)
                    &&& n.len() == 0 || settings_stored(half, after) ==> {
                        &&& snippet_replacing(raw, old_snippet, new_snippet) matches Ok(w)
                        &&& w.removing == snippet_removing(raw, old_snippet)->Ok_0
                        &&& w.applying matches Ok(plan)
                        &&& settings_of(carried_out(half, plan)) == Ok::<Tree, ErrorView>(after)
                        &&& snippet_held(carried_out(half, plan), new_snippet)
                    }
                }
            },
            _ => true,
        },
        _ => true,
    }
}

/// What taking the old snippet out and merging the new one in leave in the file is what
/// replacing the one by the other leaves.
pub proof fn lemma_replacement(raw: Seq<char>, old_snippet: Seq<char>, new_snippet: Seq<char>)
    requires
        snippet_removing(raw, old_snippet) is Ok,
        snippet_leaves(raw, old_snippet),
        snippet_sticks(
            carried_out(raw, snippet_removing(raw, old_snippet)->Ok_0),
            new_snippet,
        ),
    ensures
        replacement_sticks(raw, old_snippet, new_snippet),
{
}

/// Where the old snippet cannot be taken out, nothing is promised of the new one.
pub proof fn lemma_replacement_fails(raw: Seq<char>, old_snippet: Seq<char>, new_snippet: Seq<char>)
    requires
        snippet_removing(raw, old_snippet) is Err,
        snippet_leaves(raw, old_snippet),
    ensures
        replacement_sticks(raw, old_snippet, new_snippet),
{
}

/// Replacing one snippet by another: the settings hold the new one afterwards. Under a
/// key that the new one does not set, a value that still is the old one's is gone; one
/// that the user changed stays, unless both are mappings; and what neither of them sets
/// is untouched, as is what is under a protected key.
pub proof fn law_replace_snippet(settings: Tree, m: Entries, n: Entries, k: Tree)
    requires
        well_formed(settings),
        well_formed(Tree::Mapping(m)),
        well_formed(Tree::Mapping(n)),
        root_of(settings) is Ok,
    ensures
        ({
            let root = root_of(settings)->Ok_0;
            let between = taken_from(root, m, protected_keys(), false);
            let after = applied_to(between, n, protected_keys());
            let o = exposed(m, protected_keys());
            let s = exposed(n, protected_keys());
            &&& settings_without(settings, m) == Ok::<Tree, ErrorView>(Tree::Mapping(between))
            &&& settings_with(Tree::Mapping(between), n) == Ok::<Tree, ErrorView>(
                Tree::Mapping(after),
            )
            &&& settings_hold(Tree::Mapping(after), n)
            &&& is_protected(k, protected_keys()) ==> lookup(after, k) == lookup(root, k)
            &&& !has_key(s, k) && !has_key(o, k) ==> lookup(after, k) == lookup(root, k)
            &&& !has_key(s, k) && has_key(o, k) && has_key(root, k) ==> {
                let v = lookup(root, k)->0;
                let w = lookup(o, k)->0;
                &&& same(v, w) ==> lookup(after, k) is None
                &&& !same(v, w) && !(entries_of(v) is Some && entries_of(w) is Some) ==> lookup(
                    after,
                    k,
                ) == Some(v)
            }
        }),
{
    let root = root_of(settings)->Ok_0;
    let names = protected_keys();
    let between = taken_from(root, m, names, false);
    law_replaced(root, m, n, names, k, false);
    lemma_taken_well_formed(root, m, names, false);
    if is_protected(k, names) {
        law_protected_untouched(root, m, names, k, false);
        law_protected_untouched(between, n, names, k, false);
    }
}

/// Taking out a snippet that was merged in undoes it to the letter, where the snippet
/// sets no key that the settings had. Settings that were not there are then empty.
pub proof fn law_remove_undoes_apply(settings: Tree, m: Entries)
    requires
        well_formed(settings),
        well_formed(Tree::Mapping(m)),
        root_of(settings) is Ok,
        forall|l: Tree|
            has_key(exposed(m, protected_keys()), l) ==> !has_key(root_of(settings)->Ok_0, l),
    ensures
        settings_with(settings, m) matches Ok(t) && settings_without(t, m) == Ok::<Tree, ErrorView>(
            Tree::Mapping(root_of(settings)->Ok_0),
        ),
{
    law_apply_then_take(root_of(settings)->Ok_0, m, protected_keys(), false);
}

/// Taking a snippet out of `settings.yaml` undoes merging it in: the file is read as the
/// settings that it held before, where it is read back as it was written and the snippet
/// sets no key that the settings had.
pub proof fn law_undone_in_file(raw: Seq<char>, snippet: Seq<char>, settings: Tree, m: Entries)
    requires
        well_formed(settings),
        well_formed(Tree::Mapping(m)),
        m.len() > 0,
        snippet_of(snippet) == Ok::<Entries, ErrorView>(m),
        settings_of(raw) == Ok::<Tree, ErrorView>(settings),
        root_of(settings) is Ok,
        forall|l: Tree|
            has_key(exposed(m, protected_keys()), l) ==> !has_key(root_of(settings)->Ok_0, l),
        settings_stored(raw, settings_with(settings, m)->Ok_0),
        settings_stored(
            carried_out(raw, snippet_applying(raw, snippet)->Ok_0),
            Tree::Mapping(root_of(settings)->Ok_0),
        ),
    ensures
        ({
            let applied = carried_out(raw, snippet_applying(raw, snippet)->Ok_0);
            let taken = carried_out(applied, snippet_removing(applied, snippet)->Ok_0);
            settings_of(taken) == Ok::<Tree, ErrorView>(
                Tree::Mapping(root_of(settings)->Ok_0),
            )
        }),
{
    law_remove_undoes_apply(settings, m);
}

} // verus!
