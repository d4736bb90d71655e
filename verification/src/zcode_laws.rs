//! What holds of the configuration of zcode as a whole.

use vstd::prelude::*;

use crate::error::ErrorView;
use crate::merge::{
    keeps_order, law_overlaid_order, law_with_key_order, law_without_key_order, lemma_filled,
    lemma_order_chain, lemma_overlaid, lemma_overlaid_held, lemma_overlaid_nothing,
    lemma_overlaid_twice, lemma_prefix_order,
};
use crate::plan::{carried_out, PlanView};
use crate::snippet::{
    applied_to, exposed, law_apply_idempotent, law_apply_then_applied, law_apply_then_take,
    taken_from,
};
use crate::text::{lemma_trimmed_stays, lemma_trimmed_twice, trimmed_text};
use crate::tree::{
    distinct_keys, field, has_key, index_of, is_exact, is_json, json_shaped, key_at,
    lemma_entry_well_formed, lemma_filtered_lookup, lemma_filtered_well_formed, lemma_index_of,
    lemma_lookup_same, lemma_lookup_well_formed, lemma_same_reflexive, lemma_same_text,
    lemma_with_key, lemma_with_key_twice, lemma_with_key_well_formed, lemma_without_key,
    lemma_without_key_well_formed, lookup, overlaid, same, text_field, text_of, untagged,
    well_formed, with_key, without_key, Entries, Tree,
};
use crate::zcode_config::{
    built, built_known, entry_for, flattened, is_flat_key, is_key_char, listed, models_collected,
    models_listed, models_mapped, object_of, object_under, options_overlaid, options_picked,
    other_keys, picked, preserving, protected_keys, provider_list, provider_set, providers_read,
    snippet_applying, snippet_held, snippet_of, snippet_removing, stored, with_provider,
    without_provider, write_fault,
};

verus! {

/// What the file holds of a provider.
pub open spec fn provider_of(root: Entries, key: Seq<char>) -> Option<Tree> {
    lookup(object_under(root, "provider"@), Tree::Text(key))
}

/// The object under a name is well-formed.
pub proof fn lemma_object_under(m: Entries, name: Seq<char>)
    requires
        is_json(Tree::Mapping(m)),
    ensures
        is_json(Tree::Mapping(object_under(m, name))),
{
    if has_key(m, Tree::Text(name)) {
        lemma_lookup_well_formed(m, Tree::Text(name));
    }
    let t = Tree::Mapping(Seq::<(Tree, Tree)>::empty());
    assert(t->Mapping_0 == Seq::<(Tree, Tree)>::empty());
    assert(is_json(t));
}

/// A provider that was written is found; every other provider and everything else in
/// the file is as it was.
pub proof fn law_set_provider(root: Entries, key: Seq<char>, obj: Entries)
    requires
        is_json(Tree::Mapping(root)),
    ensures
        provider_of(with_provider(root, key, obj), key) == Some(
            Tree::Mapping(entry_for(object_under(root, "provider"@), key, obj)),
        ),
        forall|other: Seq<char>|
            other != key ==> #[trigger] provider_of(with_provider(root, key, obj), other)
                == provider_of(root, other),
        forall|name: Seq<char>|
            name != "provider"@ ==> #[trigger] lookup(
                with_provider(root, key, obj),
                Tree::Text(name),
            ) == lookup(root, Tree::Text(name)),
{
    broadcast use lemma_same_text;

    let providers = object_under(root, "provider"@);
    lemma_object_under(root, "provider"@);
    let entry = Tree::Mapping(entry_for(providers, key, obj));
    let providers2 = with_key(providers, Tree::Text(key), entry);
    lemma_with_key(providers, Tree::Text(key), entry);
    lemma_with_key(root, Tree::Text("provider"@), Tree::Mapping(providers2));
    assert(object_under(with_provider(root, key, obj), "provider"@) == providers2);
}

/// A provider that was removed is gone; every other provider and everything else in
/// the file is as it was.
pub proof fn law_remove_provider(root: Entries, key: Seq<char>)
    requires
        is_json(Tree::Mapping(root)),
    ensures
        without_provider(root, key) is None <==> provider_of(root, key) is None,
        without_provider(root, key) matches Some(m) ==> {
            &&& provider_of(m, key) is None
            &&& forall|other: Seq<char>|
                other != key ==> #[trigger] provider_of(m, other) == provider_of(root, other)
            &&& forall|name: Seq<char>|
                name != "provider"@ ==> #[trigger] lookup(m, Tree::Text(name)) == lookup(
                    root,
                    Tree::Text(name),
                )
        },
{
    broadcast use lemma_same_text;

    let providers = object_under(root, "provider"@);
    lemma_object_under(root, "provider"@);
    if has_key(providers, Tree::Text(key)) {
        let rest = without_key(providers, Tree::Text(key));
        lemma_without_key(providers, Tree::Text(key));
        lemma_with_key(root, Tree::Text("provider"@), Tree::Mapping(rest));
        let m = without_provider(root, key)->0;
        assert(object_under(m, "provider"@) == rest);
        lemma_same_reflexive(Tree::Text(key));
        assert forall|other: Seq<char>| other != key implies #[trigger] provider_of(m, other)
            == provider_of(root, other) by {
            assert(!same(Tree::Text(key), Tree::Text(other)));
        }
    }
}

/// What the file holds of a provider, as a mapping.
pub open spec fn existing_of(providers: Entries, key: Seq<char>) -> Entries {
    match lookup(providers, Tree::Text(key)) {
        Some(Tree::Mapping(existing)) => existing,
        _ => Seq::empty(),
    }
}

/// Writing over an empty mapping gives the provider itself.
proof fn lemma_preserving_nothing(entry: Entries)
    ensures
        preserving(entry, Seq::empty()) == entry,
{
    let none: Entries = Seq::empty();
    assert(!has_key(none, Tree::Text("options"@)));
    lemma_overlaid_nothing(entry);
}

/// A provider in the file, before it gets a name.
proof fn lemma_entry_for(providers: Entries, key: Seq<char>, obj: Entries)
    ensures
        ({
            let entry = preserving(built(obj), existing_of(providers, key));
            entry_for(providers, key, obj) == (if has_key(entry, Tree::Text("name"@)) {
                entry
            } else {
                with_key(entry, Tree::Text("name"@), Tree::Text(key))
            })
        }),
{
    lemma_preserving_nothing(built(obj));
}

/// Filling the options a second time changes nothing.
proof fn lemma_options_overlaid_twice(entry: Entries, existing: Entries, after: Entries)
    requires
        is_json(Tree::Mapping(entry)),
        is_json(Tree::Mapping(existing)),
        lookup(after, Tree::Text("options"@)) == (match lookup(
            options_overlaid(entry, existing),
            Tree::Text("options"@),
        ) {
            Some(v) => Some(v),
            None => lookup(existing, Tree::Text("options"@)),
        }),
    ensures
        options_overlaid(entry, after) == options_overlaid(entry, existing),
{
    let k = Tree::Text("options"@);
    if let Some(Tree::Mapping(new)) = lookup(entry, k) {
        lemma_same_reflexive(k);
        assert(key_at(entry, k, index_of(entry, k)));
        match lookup(existing, k) {
            Some(Tree::Mapping(old)) => {
                let both = Tree::Mapping(overlaid(old, new));
                lemma_with_key(entry, k, both);
                lemma_overlaid_twice(old, new);
            },
            _ => {
                lemma_overlaid_held(new, new);
                assert(with_key(entry, k, Tree::Mapping(new)) =~= entry);
            },
        }
    }
}

/// Filling options keeps a provider well-formed; only its options change.
proof fn lemma_options_overlaid(entry: Entries, existing: Entries)
    requires
        is_json(Tree::Mapping(entry)),
        is_json(Tree::Mapping(existing)),
    ensures
        is_json(Tree::Mapping(options_overlaid(entry, existing))),
        forall|k: Tree|
            k != Tree::Text("options"@) && k is Text ==> #[trigger] lookup(
                options_overlaid(entry, existing),
                k,
            ) == lookup(entry, k) && has_key(options_overlaid(entry, existing), k) == has_key(entry, k),
        has_key(options_overlaid(entry, existing), Tree::Text("options"@)) == has_key(
            entry,
            Tree::Text("options"@),
        ),
{
    broadcast use lemma_same_text;

    let k = Tree::Text("options"@);
    match (lookup(entry, k), lookup(existing, k)) {
        (Some(Tree::Mapping(new)), Some(Tree::Mapping(old))) => {
            lemma_lookup_well_formed(entry, k);
            lemma_lookup_well_formed(existing, k);
            lemma_overlaid(old, new);
            let both = Tree::Mapping(overlaid(old, new));
            lemma_with_key(entry, k, both);
            lemma_with_key_well_formed(entry, k, both);
        },
        _ => {},
    }
}

/// What a provider holds in the file once it was written: what it came with, and
/// under every name that it did not mention what the file held of it. Among its
/// options the same holds of each option.
pub proof fn law_unknown_fields_stay(
    providers: Entries,
    key: Seq<char>,
    obj: Entries,
    name: Seq<char>,
)
    requires
        is_json(Tree::Mapping(obj)),
        is_json(Tree::Mapping(existing_of(providers, key))),
    ensures
        ({
            let new = built(obj);
            let old = existing_of(providers, key);
            let entry = entry_for(providers, key, obj);
            let k = Tree::Text(name);
            &&& name != "options"@ && name != "name"@ ==> lookup(entry, k) == (if has_key(new, k) {
                lookup(new, k)
            } else {
                lookup(old, k)
            })
            &&& lookup(entry, Tree::Text("options"@)) == (match (
                lookup(new, Tree::Text("options"@)),
                lookup(old, Tree::Text("options"@)),
            ) {
                (Some(Tree::Mapping(x)), Some(Tree::Mapping(y))) => Some(
                    Tree::Mapping(overlaid(y, x)),
                ),
                (Some(v), _) => Some(v),
                (None, v) => v,
            })
            &&& lookup(entry, Tree::Text("name"@)) == (match (
                lookup(new, Tree::Text("name"@)),
                lookup(old, Tree::Text("name"@)),
            ) {
                (Some(v), _) => Some(v),
                (None, Some(v)) => Some(v),
                (None, None) => Some(Tree::Text(key)),
            })
        }),
{
    broadcast use lemma_same_text;

    reveal_strlit("name");
    reveal_strlit("options");
    assert("name"@.len() == 4 && "options"@.len() == 7);
    let new = built(obj);
    let old = existing_of(providers, key);
    let filled_new = options_overlaid(new, old);
    let entry = preserving(new, old);
    lemma_built(obj);
    lemma_entry_for(providers, key, obj);
    lemma_options_overlaid(new, old);
    lemma_overlaid(old, filled_new);
    lemma_with_key(entry, Tree::Text("name"@), Tree::Text(key));
    let k = Tree::Text("options"@);
    match (lookup(new, k), lookup(old, k)) {
        (Some(Tree::Mapping(x)), Some(Tree::Mapping(y))) => {
            lemma_with_key(new, k, Tree::Mapping(overlaid(y, x)));
        },
        _ => {},
    }
}

/// A provider that goes into a file is well-formed.
proof fn lemma_entry_json(providers: Entries, key: Seq<char>, obj: Entries)
    requires
        is_json(Tree::Mapping(built(obj))),
        is_json(Tree::Mapping(existing_of(providers, key))),
    ensures
        is_json(Tree::Mapping(entry_for(providers, key, obj))),
{
    let new = built(obj);
    let old = existing_of(providers, key);
    lemma_entry_for(providers, key, obj);
    lemma_options_overlaid(new, old);
    lemma_overlaid(old, options_overlaid(new, old));
    lemma_with_key_well_formed(preserving(new, old), Tree::Text("name"@), Tree::Text(key));
}

/// Writing a provider a second time gives what it gave the first time.
proof fn lemma_entry_twice(providers: Entries, key: Seq<char>, obj: Entries, after: Entries)
    requires
        is_json(Tree::Mapping(built(obj))),
        is_json(Tree::Mapping(existing_of(providers, key))),
        existing_of(after, key) == entry_for(providers, key, obj),
    ensures
        entry_for(after, key, obj) == entry_for(providers, key, obj),
{
    broadcast use lemma_same_text;

    reveal_strlit("name");
    reveal_strlit("options");
    assert("name"@.len() == 4 && "options"@.len() == 7);
    let new = built(obj);
    let old = existing_of(providers, key);
    let once = entry_for(providers, key, obj);
    let filled_new = options_overlaid(new, old);
    let entry = preserving(new, old);
    let k = Tree::Text("name"@);
    lemma_entry_for(providers, key, obj);
    lemma_entry_for(after, key, obj);
    lemma_options_overlaid(new, old);
    lemma_overlaid(old, filled_new);
    lemma_with_key(entry, k, Tree::Text(key));
    assert(options_overlaid(new, once) == filled_new) by {
        lemma_options_overlaid_twice(new, old, once);
    }
    lemma_entry_json(providers, key, obj);
    assert forall|l: Tree| #[trigger] has_key(filled_new, l) implies lookup(once, l) == lookup(
        filled_new,
        l,
    ) by {
        if !has_key(entry, k) && same(k, l) {
            lemma_lookup_same(filled_new, k, l);
            assert(!has_key(filled_new, k));
        }
    }
    lemma_overlaid_held(once, filled_new);
    assert(lookup(once, k) is Some);
}

/// Writing the same provider a second time changes nothing.
pub proof fn law_set_provider_twice(root: Entries, key: Seq<char>, obj: Entries)
    requires
        is_json(Tree::Mapping(root)),
        is_json(Tree::Mapping(obj)),
    ensures
        with_provider(with_provider(root, key, obj), key, obj) == with_provider(root, key, obj),
{
    let providers = object_under(root, "provider"@);
    lemma_built(obj);
    lemma_object_under(root, "provider"@);
    lemma_object_under(providers, key);
    assert(existing_of(providers, key) == object_under(providers, key));
    let entry = Tree::Mapping(entry_for(providers, key, obj));
    let providers2 = with_key(providers, Tree::Text(key), entry);
    let root2 = with_provider(root, key, obj);
    lemma_with_key(providers, Tree::Text(key), entry);
    lemma_with_key(root, Tree::Text("provider"@), Tree::Mapping(providers2));
    assert(object_under(root2, "provider"@) == providers2);
    lemma_entry_twice(providers, key, obj, providers2);
    lemma_with_key_twice(providers, Tree::Text(key), entry);
    lemma_with_key_twice(root, Tree::Text("provider"@), Tree::Mapping(providers2));
}

/// Writing a provider moves no key that is in the file: not at the top, not among
/// the providers, and not among the fields and the options of the provider itself.
pub proof fn law_set_provider_in_order(root: Entries, key: Seq<char>, obj: Entries)
    requires
        is_json(Tree::Mapping(root)),
        is_json(Tree::Mapping(obj)),
    ensures
        ({
            let after = with_provider(root, key, obj);
            let providers = object_under(root, "provider"@);
            &&& keeps_order(root, after)
            &&& keeps_order(providers, object_under(after, "provider"@))
            &&& keeps_order(
                object_under(providers, key),
                object_under(object_under(after, "provider"@), key),
            )
            &&& keeps_order(
                object_under(object_under(providers, key), "options"@),
                object_under(object_under(object_under(after, "provider"@), key), "options"@),
            )
        }),
{
    let providers = object_under(root, "provider"@);
    let old = object_under(providers, key);
    let new = built(obj);
    let k = Tree::Text("name"@);
    lemma_built(obj);
    lemma_object_under(root, "provider"@);
    lemma_object_under(providers, key);
    assert(existing_of(providers, key) == old);
    let entry = entry_for(providers, key, obj);
    let providers2 = with_key(providers, Tree::Text(key), Tree::Mapping(entry));
    let after = with_provider(root, key, obj);
    lemma_with_key(providers, Tree::Text(key), Tree::Mapping(entry));
    lemma_with_key(root, Tree::Text("provider"@), Tree::Mapping(providers2));
    law_with_key_order(providers, Tree::Text(key), Tree::Mapping(entry));
    law_with_key_order(root, Tree::Text("provider"@), Tree::Mapping(providers2));
    assert(object_under(after, "provider"@) == providers2);
    assert(object_under(providers2, key) == entry);
    lemma_entry_for(providers, key, obj);
    lemma_options_overlaid(new, old);
    lemma_overlaid(old, options_overlaid(new, old));
    law_overlaid_order(old, options_overlaid(new, old));
    let kept = preserving(new, old);
    if !has_key(kept, k) {
        lemma_with_key(kept, k, Tree::Text(key));
        law_with_key_order(kept, k, Tree::Text(key));
        lemma_order_chain(old, kept, entry);
    }
    law_unknown_fields_stay(providers, key, obj, "options"@);
    lemma_object_under(old, "options"@);
    let before = object_under(old, "options"@);
    let o = Tree::Text("options"@);
    match (lookup(new, o), lookup(old, o)) {
        (Some(Tree::Mapping(x)), Some(Tree::Mapping(y))) => {
            lemma_lookup_well_formed(new, o);
            law_overlaid_order(y, x);
        },
        _ => {
            if object_under(entry, "options"@) == before {
                lemma_prefix_order(before, before);
            }
        },
    }
}

/// Removing a provider moves no other key of the file.
pub proof fn law_remove_provider_in_order(root: Entries, key: Seq<char>)
    requires
        is_json(Tree::Mapping(root)),
    ensures
        without_provider(root, key) matches Some(after) ==> {
            &&& keeps_order(root, after)
            &&& keeps_order(
                object_under(root, "provider"@),
                object_under(after, "provider"@),
            )
        },
{
    let providers = object_under(root, "provider"@);
    lemma_object_under(root, "provider"@);
    let rest = Tree::Mapping(without_key(providers, Tree::Text(key)));
    law_without_key_order(providers, Tree::Text(key));
    lemma_with_key(root, Tree::Text("provider"@), rest);
    law_with_key_order(root, Tree::Text("provider"@), rest);
}

// ----------------------------------------------------------------------------
// The two forms of a provider
// ----------------------------------------------------------------------------

/// One of the four connection keys.
pub open spec fn is_option(name: Seq<char>) -> bool {
    ||| name == "apiKey"@
    ||| name == "baseURL"@
    ||| name == "apiKeyRequired"@
    ||| name == "headers"@
}

/// A name that stands for something else in either of the two forms.
pub open spec fn is_special(name: Seq<char>) -> bool {
    ||| is_option(name)
    ||| name == "displayName"@
    ||| name == "name"@
    ||| name == "options"@
    ||| name == "source"@
    ||| name == "models"@
}

/// The names differ from each other.
pub proof fn lemma_names()
    ensures
        "displayName"@.len() == 11,
        "apiKeyRequired"@.len() == 14,
        "kind"@ != "name"@,
        "baseURL"@ != "headers"@,
        "baseURL"@ != "options"@,
        "headers"@ != "options"@,
        "apiKey"@ != "source"@,
        "apiKey"@ != "models"@,
        "source"@ != "models"@,
        "kind"@.len() == 4,
        "name"@.len() == 4,
        "baseURL"@.len() == 7,
        "headers"@.len() == 7,
        "options"@.len() == 7,
        "apiKey"@.len() == 6,
        "source"@.len() == 6,
        "models"@.len() == 6,
        "custom"@.len() == 6,
        "id"@.len() == 2,
{
    reveal_strlit("displayName");
    reveal_strlit("apiKeyRequired");
    reveal_strlit("kind");
    reveal_strlit("name");
    reveal_strlit("baseURL");
    reveal_strlit("headers");
    reveal_strlit("options");
    reveal_strlit("apiKey");
    reveal_strlit("source");
    reveal_strlit("models");
    reveal_strlit("custom");
    reveal_strlit("id");
    assert("kind"@[0] == 'k' && "name"@[0] == 'n');
    assert("baseURL"@[0] == 'b' && "headers"@[0] == 'h' && "options"@[0] == 'o');
    assert("apiKey"@[0] == 'a' && "source"@[0] == 's' && "models"@[0] == 'm');
}

/// Nothing is found in an empty mapping, which is well-formed.
pub proof fn lemma_empty()
    ensures
        is_json(Tree::Mapping(Seq::empty())),
        forall|k: Tree| #[trigger] lookup(Seq::<(Tree, Tree)>::empty(), k) is None,
{
    let none: Entries = Seq::empty();
    let t = Tree::Mapping(none);
    assert(t->Mapping_0 == none);
    assert forall|k: Tree| #[trigger] lookup(none, k) is None by {
        assert(!has_key(none, k));
    }
}

proof fn lemma_picked(acc: Entries, m: Entries, name: Seq<char>)
    requires
        is_json(Tree::Mapping(acc)),
        is_json(Tree::Mapping(m)),
    ensures
        is_json(Tree::Mapping(picked(acc, m, name))),
        lookup(picked(acc, m, name), Tree::Text(name)) == (match lookup(m, Tree::Text(name)) {
            Some(v) => Some(v),
            None => lookup(acc, Tree::Text(name)),
        }),
        forall|other: Seq<char>|
            other != name ==> #[trigger] lookup(picked(acc, m, name), Tree::Text(other)) == lookup(
                acc,
                Tree::Text(other),
            ),
{
    broadcast use lemma_same_text;

    let k = Tree::Text(name);
    if has_key(m, k) {
        lemma_lookup_well_formed(m, k);
        lemma_with_key(acc, k, lookup(m, k)->0);
        lemma_with_key_well_formed(acc, k, lookup(m, k)->0);
    }
}

pub proof fn lemma_options_picked(acc: Entries, m: Entries)
    requires
        is_json(Tree::Mapping(acc)),
        is_json(Tree::Mapping(m)),
    ensures
        is_json(Tree::Mapping(options_picked(acc, m))),
        forall|name: Seq<char>| #[trigger]
            lookup(options_picked(acc, m), Tree::Text(name)) == (if is_option(name) && lookup(
                m,
                Tree::Text(name),
            ) is Some {
                lookup(m, Tree::Text(name))
            } else {
                lookup(acc, Tree::Text(name))
            }),
{
    lemma_names();
    let a = picked(acc, m, "apiKey"@);
    lemma_picked(acc, m, "apiKey"@);
    let b = picked(a, m, "baseURL"@);
    lemma_picked(a, m, "baseURL"@);
    let c = picked(b, m, "apiKeyRequired"@);
    lemma_picked(b, m, "apiKeyRequired"@);
    lemma_picked(c, m, "headers"@);
}

pub proof fn lemma_models_collected(x: Seq<Tree>, n: nat)
    requires
        is_json(Tree::List(x)),
    ensures
        is_json(Tree::Mapping(models_collected(x, n))),
    decreases n,
{
    lemma_empty();
    if 0 < n <= x.len() {
        lemma_models_collected(x, (n - 1) as nat);
        crate::tree::lemma_item_well_formed(x, n - 1);
        let before = models_collected(x, (n - 1) as nat);
        if let Tree::Mapping(m) = x[n - 1] {
            let rest = Tree::Mapping(without_key(m, Tree::Text("id"@)));
            lemma_without_key_well_formed(m, Tree::Text("id"@));
            if let Some(s) = text_field(x[n - 1], "id"@) {
                if let Some(id) = trimmed_text(s) {
                    lemma_with_key_well_formed(before, Tree::Text(id), rest);
                }
            }
        }
    }
}

/// What the file gets of a provider: its name, its kind, its options and its models,
/// each in its place, and everything else as it came.
pub proof fn lemma_built_known(obj: Entries)
    requires
        is_json(Tree::Mapping(obj)),
    ensures
        ({
            let m = built_known(obj);
            let options = options_picked(Seq::empty(), obj);
            &&& is_json(Tree::Mapping(m))
            &&& lookup(m, Tree::Text("name"@)) == (match display_name(obj) {
                Some(s) => Some(Tree::Text(s)),
                None => None,
            })
            &&& lookup(m, Tree::Text("kind"@)) == lookup(obj, Tree::Text("kind"@))
            &&& lookup(m, Tree::Text("source"@)) == Some(Tree::Text("custom"@))
            &&& lookup(m, Tree::Text("options"@)) == (if options.len() > 0 {
                Some(Tree::Mapping(options))
            } else {
                None
            })
            &&& lookup(m, Tree::Text("models"@)) == (match lookup(obj, Tree::Text("models"@)) {
                Some(v) => Some(models_mapped(v)),
                None => None,
            })
            &&& forall|name: Seq<char>|
                name != "name"@ && name != "kind"@ && name != "source"@ && name != "options"@ && name
                    != "models"@ ==> #[trigger] lookup(m, Tree::Text(name)) is None
        }),
{
    broadcast use lemma_same_text;

    lemma_names();
    lemma_empty();
    let z: Entries = Seq::empty();
    let a = match display_name(obj) {
        Some(name) => with_key(z, Tree::Text("name"@), Tree::Text(name)),
        None => z,
    };
    if let Some(name) = display_name(obj) {
        lemma_with_key(z, Tree::Text("name"@), Tree::Text(name));
        lemma_with_key_well_formed(z, Tree::Text("name"@), Tree::Text(name));
    }
    let b = picked(a, obj, "kind"@);
    lemma_picked(a, obj, "kind"@);
    let c = with_key(b, Tree::Text("source"@), Tree::Text("custom"@));
    lemma_with_key(b, Tree::Text("source"@), Tree::Text("custom"@));
    lemma_with_key_well_formed(b, Tree::Text("source"@), Tree::Text("custom"@));
    let options = options_picked(z, obj);
    lemma_options_picked(z, obj);
    let d = if options.len() > 0 {
        with_key(c, Tree::Text("options"@), Tree::Mapping(options))
    } else {
        c
    };
    lemma_with_key(c, Tree::Text("options"@), Tree::Mapping(options));
    lemma_with_key_well_formed(c, Tree::Text("options"@), Tree::Mapping(options));
    if has_key(obj, Tree::Text("models"@)) {
        let models = lookup(obj, Tree::Text("models"@))->0;
        lemma_lookup_well_formed(obj, Tree::Text("models"@));
        if let Tree::List(x) = models {
            lemma_models_collected(x, x.len());
        }
        lemma_with_key(d, Tree::Text("models"@), models_mapped(models));
        lemma_with_key_well_formed(d, Tree::Text("models"@), models_mapped(models));
    }
}

/// The name that a flat form gives, trimmed, where it is not blank.
pub open spec fn display_name(obj: Entries) -> Option<Seq<char>> {
    match text_field(Tree::Mapping(obj), "displayName"@) {
        Some(s) => trimmed_text(s),
        None => None,
    }
}

/// What the file gets of a flat form under a name.
pub proof fn lemma_built(obj: Entries)
    requires
        is_json(Tree::Mapping(obj)),
    ensures
        is_json(Tree::Mapping(built(obj))),
        forall|name: Seq<char>| #[trigger]
            lookup(built(obj), Tree::Text(name)) == (match lookup(
                built_known(obj),
                Tree::Text(name),
            ) {
                Some(v) => Some(v),
                None => if is_flat_key(Tree::Text(name)) {
                    None
                } else {
                    lookup(obj, Tree::Text(name))
                },
            }),
{
    broadcast use lemma_same_text;

    let p = |e: (Tree, Tree)| !is_flat_key(e.0);
    lemma_built_known(obj);
    lemma_filtered_well_formed(obj, p);
    assert(other_keys(obj) =~= obj.filter(p));
    lemma_filled(built_known(obj), other_keys(obj));
    assert forall|name: Seq<char>| #[trigger] lookup(built(obj), Tree::Text(name)) == (match lookup(
        built_known(obj),
        Tree::Text(name),
    ) {
        Some(v) => Some(v),
        None => if is_flat_key(Tree::Text(name)) {
            None
        } else {
            lookup(obj, Tree::Text(name))
        },
    }) by {
        let k = Tree::Text(name);
        lemma_filtered_lookup(obj, p, k);
        if has_key(obj, k) {
            assert(key_at(obj, k, index_of(obj, k)));
            assert(obj[index_of(obj, k)].0 == k);
        }
    }
}

/// The provider `m` of the file has the flat form `flat`, name by name.
pub open spec fn is_flat_form(flat: Entries, m: Entries) -> bool {
    &&& is_json(Tree::Mapping(flat))
    &&& forall|name: Seq<char>|
        !is_special(name) ==> #[trigger] lookup(flat, Tree::Text(name)) == lookup(
            m,
            Tree::Text(name),
        )
    &&& lookup(flat, Tree::Text("displayName"@)) == (match text_field(
        Tree::Mapping(m),
        "name"@,
    ) {
        Some(s) => match trimmed_text(s) {
            Some(name) => Some(Tree::Text(name)),
            None => None,
        },
        None => None,
    })
    &&& forall|name: Seq<char>|
        is_option(name) ==> #[trigger] lookup(flat, Tree::Text(name)) == (match lookup(
            m,
            Tree::Text("options"@),
        ) {
            Some(Tree::Mapping(options)) => lookup(options, Tree::Text(name)),
            _ => None,
        })
    &&& lookup(flat, Tree::Text("models"@)) == (match lookup(m, Tree::Text("models"@)) {
        Some(v) => Some(models_listed(v)),
        None => None,
    })
    &&& lookup(flat, Tree::Text("name"@)) is None
    &&& lookup(flat, Tree::Text("options"@)) is None
    &&& lookup(flat, Tree::Text("source"@)) is None
}

/// A provider of the file has no key of the flat form at its top.
pub open spec fn is_native(m: Entries) -> bool {
    &&& lookup(m, Tree::Text("displayName"@)) is None
    &&& forall|name: Seq<char>| is_option(name) ==> #[trigger] lookup(m, Tree::Text(name)) is None
}

/// Models as a list are well-formed.
pub proof fn lemma_models_listed(t: Tree)
    requires
        is_json(t),
    ensures
        is_json(models_listed(t)),
{
    if let Tree::Mapping(m) = t {
        let x = models_listed(t)->List_0;
        lemma_empty();
        assert forall|i: int| 0 <= i < x.len() implies is_json(#[trigger] x[i]) by {
            lemma_entry_well_formed(m, i);
            let inner = match m[i].1 {
                Tree::Mapping(y) => y,
                _ => Seq::empty(),
            };
            lemma_with_key_well_formed(inner, Tree::Text("id"@), m[i].0);
        }
    }
}

/// What a mapping holds with one more entry.
proof fn lemma_take(m: Entries, n: int, k: Tree)
    requires
        is_json(Tree::Mapping(m)),
        0 <= n < m.len(),
    ensures
        is_json(Tree::Mapping(m.take(n))),
        is_json(Tree::Mapping(m.take(n + 1))),
        lookup(m.take(n + 1), k) == (if same(k, m[n].0) {
            Some(m[n].1)
        } else {
            lookup(m.take(n), k)
        }),
{
    let a = m.take(n);
    let b = m.take(n + 1);
    assert forall|i: int| 0 <= i < b.len() implies well_formed((#[trigger] b[i]).0) && well_formed(
        b[i].1,
    ) && b[i].0 is Text && json_shaped(b[i].1) by {
        lemma_entry_well_formed(m, i);
    }
    assert(distinct_keys(b));
    assert(distinct_keys(a)) by {
        assert forall|i: int, j: int| 0 <= i < a.len() && 0 <= j < a.len() && i != j implies !same(
            (#[trigger] a[i]).0,
            (#[trigger] a[j]).0,
        ) by {
            assert(a[i] == b[i] && a[j] == b[j]);
        }
    }
    assert forall|i: int| 0 <= i < a.len() implies well_formed((#[trigger] a[i]).0) && well_formed(
        a[i].1,
    ) && a[i].0 is Text && json_shaped(a[i].1) by {
        assert(a[i] == b[i]);
    }
    assert(Tree::Mapping(a)->Mapping_0 == a);
    assert(Tree::Mapping(b)->Mapping_0 == b);
    if same(k, m[n].0) {
        assert(key_at(b, k, n));
        lemma_index_of(b, k, n);
    } else if has_key(a, k) {
        let i = index_of(a, k);
        assert(key_at(a, k, i));
        assert(key_at(b, k, i));
        lemma_index_of(b, k, i);
        lemma_index_of(a, k, i);
    } else {
        if has_key(b, k) {
            let i = index_of(b, k);
            assert(key_at(b, k, i));
            assert(key_at(a, k, i));
        }
    }
}

/// Reading a provider entry by entry gives its flat form.
proof fn lemma_flattened(m: Entries, n: nat)
    requires
        is_json(Tree::Mapping(m)),
        n <= m.len(),
        is_native(m),
    ensures
        is_flat_form(flattened(m, n), m.take(n as int)),
        is_native(m.take(n as int)),
    decreases n,
{
    broadcast use lemma_same_text;

    lemma_names();
    lemma_empty();
    if n == 0 {
        assert(m.take(0) =~= Seq::<(Tree, Tree)>::empty());
        assert(text_field(Tree::Mapping(m.take(0)), "name"@) is None);
    } else {
        let i = n - 1;
        lemma_flattened(m, i as nat);
        let flat = flattened(m, i as nat);
        let before = m.take(i);
        let after = m.take(n as int);
        let e = m[i];
        lemma_entry_well_formed(m, i);
        lemma_same_reflexive(e.0);
        assert(key_at(m, e.0, i));
        lemma_index_of(m, e.0, i);
        let key = e.0->Text_0;
        assert(e.0 == Tree::Text(key));
        assert(key != "displayName"@ && !is_option(key));
        assert forall|name: Seq<char>| #[trigger] lookup(after, Tree::Text(name)) == (if name == key {
            Some(e.1)
        } else {
            lookup(before, Tree::Text(name))
        }) by {
            lemma_take(m, i, Tree::Text(name));
        }
        lemma_take(m, i, e.0);
        assert(text_field(Tree::Mapping(after), "name"@) == (if key == "name"@ {
            text_of(e.1)
        } else {
            text_field(Tree::Mapping(before), "name"@)
        }));
        if key == "name"@ {
            if let Some(s) = text_of(e.1) {
                if let Some(name) = trimmed_text(s) {
                    lemma_with_key(flat, Tree::Text("displayName"@), Tree::Text(name));
                    lemma_with_key_well_formed(flat, Tree::Text("displayName"@), Tree::Text(name));
                } else {
                    lemma_no_name(m, i, flat);
                }
            } else {
                lemma_no_name(m, i, flat);
            }
        } else if key == "options"@ {
            lemma_no_options(m, i, flat);
            if let Tree::Mapping(options) = e.1 {
                lemma_options_picked(flat, options);
            }
        } else if key == "models"@ {
            lemma_models_listed(e.1);
            lemma_with_key(flat, Tree::Text("models"@), models_listed(e.1));
            lemma_with_key_well_formed(flat, Tree::Text("models"@), models_listed(e.1));
        } else if key == "source"@ {
        } else {
            lemma_with_key(flat, e.0, e.1);
            lemma_with_key_well_formed(flat, e.0, e.1);
        }
    }
}

/// A name that comes at position `i` did not come before.
proof fn lemma_fresh(m: Entries, i: int, key: Seq<char>)
    requires
        is_json(Tree::Mapping(m)),
        0 <= i < m.len(),
        m[i].0 == Tree::Text(key),
    ensures
        lookup(m.take(i), Tree::Text(key)) is None,
{
    let a = m.take(i);
    let k = Tree::Text(key);
    if has_key(a, k) {
        let j = index_of(a, k);
        assert(key_at(a, k, j));
        assert(same(m[i].0, m[j].0));
        assert(distinct_keys(m));
    }
}

proof fn lemma_no_name(m: Entries, i: int, flat: Entries)
    requires
        is_json(Tree::Mapping(m)),
        0 <= i < m.len(),
        m[i].0 == Tree::Text("name"@),
        is_flat_form(flat, m.take(i)),
    ensures
        lookup(flat, Tree::Text("displayName"@)) is None,
{
    lemma_fresh(m, i, "name"@);
    assert(text_field(Tree::Mapping(m.take(i)), "name"@) is None);
}

proof fn lemma_no_options(m: Entries, i: int, flat: Entries)
    requires
        is_json(Tree::Mapping(m)),
        0 <= i < m.len(),
        m[i].0 == Tree::Text("options"@),
        is_flat_form(flat, m.take(i)),
    ensures
        forall|name: Seq<char>| is_option(name) ==> #[trigger] lookup(flat, Tree::Text(name)) is None,
{
    lemma_fresh(m, i, "options"@);
}

/// A provider that was read is the flat form of what the file holds.
pub proof fn law_flattened(m: Entries)
    requires
        is_json(Tree::Mapping(m)),
        is_native(m),
    ensures
        is_flat_form(flattened(m, m.len()), m),
{
    lemma_flattened(m, m.len());
    assert(m.take(m.len() as int) =~= m);
}

/// A flat form does not use the names that only the file knows.
pub open spec fn is_flat(obj: Entries) -> bool {
    lookup(obj, Tree::Text("name"@)) is None && lookup(obj, Tree::Text("options"@)) is None
}

/// A new provider is read as it was written: every field is the same but for the
/// name, which is trimmed and falls back to the key, the models, which come in the
/// form that the file gives them, and `source`, which is never read.
pub proof fn law_new_provider_comes_back(providers: Entries, key: Seq<char>, obj: Entries)
    requires
        is_json(Tree::Mapping(obj)),
        is_flat(obj),
        lookup(providers, Tree::Text(key)) is None,
        trimmed_text(key) == Some(key),
    ensures
        ({
            let entry = entry_for(providers, key, obj);
            let flat = flattened(entry, entry.len());
            &&& forall|name: Seq<char>|
                !is_special(name) || is_option(name) ==> #[trigger] lookup(flat, Tree::Text(name))
                    == lookup(obj, Tree::Text(name))
            &&& lookup(flat, Tree::Text("displayName"@)) == Some(
                Tree::Text(
                    match display_name(obj) {
                        Some(name) => name,
                        None => key,
                    },
                ),
            )
            &&& lookup(flat, Tree::Text("models"@)) == (match lookup(obj, Tree::Text("models"@)) {
                Some(v) => Some(models_listed(models_mapped(v))),
                None => None,
            })
            &&& lookup(flat, Tree::Text("source"@)) is None
            &&& lookup(flat, Tree::Text("options"@)) is None
        }),
{
    broadcast use lemma_same_text;

    lemma_names();
    lemma_empty();
    let entry = entry_for(providers, key, obj);
    let options = options_picked(Seq::empty(), obj);
    lemma_built_known(obj);
    lemma_built(obj);
    lemma_options_picked(Seq::empty(), obj);
    lemma_entry_json(providers, key, obj);
    lemma_with_key(built(obj), Tree::Text("name"@), Tree::Text(key));
    assert forall|name: Seq<char>| name != "name"@ implies #[trigger] lookup(entry, Tree::Text(name))
        == lookup(built(obj), Tree::Text(name)) by {
        assert(!same(Tree::Text("name"@), Tree::Text(name)));
    }
    assert(is_native(entry)) by {
        assert(is_flat_key(Tree::Text("displayName"@)));
    }
    law_flattened(entry);
    let flat = flattened(entry, entry.len());
    if let Some(s) = text_field(Tree::Mapping(obj), "displayName"@) {
        lemma_trimmed_twice(s);
    }
    assert(text_field(Tree::Mapping(entry), "name"@) == Some(
        match display_name(obj) {
            Some(name) => name,
            None => key,
        },
    ));
    assert forall|name: Seq<char>| is_option(name) implies #[trigger] lookup(flat, Tree::Text(name))
        == lookup(obj, Tree::Text(name)) by {
        if options.len() == 0 {
            assert(options =~= Seq::<(Tree, Tree)>::empty());
        }
        assert(lookup(options, Tree::Text(name)) == lookup(obj, Tree::Text(name)));
    }
}

/// A model has an id, trimmed and not empty.
pub open spec fn model_id(t: Tree) -> Option<Seq<char>> {
    match text_field(t, "id"@) {
        Some(s) => if trimmed_text(s) == Some(s) {
            Some(s)
        } else {
            None
        },
        None => None,
    }
}

/// Every model is an object with an id of its own.
pub open spec fn has_ids(x: Seq<Tree>) -> bool {
    &&& forall|i: int| 0 <= i < x.len() ==> (#[trigger] x[i]) is Mapping && model_id(x[i]) is Some
    &&& forall|i: int, j: int|
        0 <= i < x.len() && 0 <= j < x.len() && i != j ==> model_id(#[trigger] x[i]) != model_id(
            #[trigger] x[j],
        )
}

/// The models of the file are in the order of the list.
proof fn lemma_collected(x: Seq<Tree>, n: nat)
    requires
        has_ids(x),
        n <= x.len(),
    ensures
        models_collected(x, n) == Seq::new(
            n,
            |i: int|
                (
                    Tree::Text(model_id(x[i])->0),
                    Tree::Mapping(without_key(x[i]->Mapping_0, Tree::Text("id"@))),
                ),
        ),
    decreases n,
{
    broadcast use lemma_same_text;

    if n > 0 {
        lemma_collected(x, (n - 1) as nat);
        let before = models_collected(x, (n - 1) as nat);
        let t = x[n - 1];
        assert(t is Mapping && model_id(t) is Some);
        let k = Tree::Text(model_id(t)->0);
        if has_key(before, k) {
            let i = index_of(before, k);
            assert(key_at(before, k, i));
            assert(before[i].0 == Tree::Text(model_id(x[i])->0));
            assert(model_id(x[i]) is Some);
            assert(model_id(x[i]) != model_id(x[n - 1]));
        }
        assert(untagged(t) == t);
    }
    assert(models_collected(x, n) =~= Seq::new(
        n,
        |i: int|
            (
                Tree::Text(model_id(x[i])->0),
                Tree::Mapping(without_key(x[i]->Mapping_0, Tree::Text("id"@))),
            ),
    ));
}

/// Models come back in their order, each with every field that it came with.
pub proof fn law_models_come_back(x: Seq<Tree>)
    requires
        is_json(Tree::List(x)),
        has_ids(x),
    ensures
        models_listed(models_mapped(Tree::List(x))) is List,
        models_listed(models_mapped(Tree::List(x)))->List_0.len() == x.len(),
        forall|i: int, name: Seq<char>|
            0 <= i < x.len() ==> #[trigger] field(
                models_listed(models_mapped(Tree::List(x)))->List_0[i],
                name,
            ) == field(x[i], name),
{
    broadcast use lemma_same_text;

    lemma_collected(x, x.len());
    let m = models_collected(x, x.len());
    let y = models_listed(models_mapped(Tree::List(x)))->List_0;
    let id = Tree::Text("id"@);
    assert forall|i: int, name: Seq<char>| 0 <= i < x.len() implies #[trigger] field(y[i], name)
        == field(x[i], name) by {
        assert(x[i] is Mapping && model_id(x[i]) is Some);
        crate::tree::lemma_item_well_formed(x, i);
        let old = x[i]->Mapping_0;
        assert(m[i].0 == Tree::Text(model_id(x[i])->0));
        let rest = without_key(old, id);
        lemma_without_key(old, id);
        lemma_with_key(rest, id, m[i].0);
        assert(y[i] == Tree::Mapping(with_key(rest, id, m[i].0)));
        assert(untagged(x[i]) == x[i]);
        assert(untagged(y[i]) == y[i]);
        if name == "id"@ {
            let v = lookup(old, id)->0;
            lemma_lookup_well_formed(old, id);
            crate::tree::lemma_untagged(v);
            assert(v == Tree::Text(model_id(x[i])->0));
        } else {
            assert(!same(id, Tree::Text(name)));
        }
    }
}

/// No entry behind the one with the very key `key` is listed under `key`. So it is of
/// a provider whose key is new, which goes to the end.
pub open spec fn listed_last(providers: Entries, key: Seq<char>) -> bool {
    has_key(providers, Tree::Text(key)) ==> forall|i: int|
        index_of(providers, Tree::Text(key)) < i < providers.len() ==> !((
        #[trigger] providers[i]).0 matches Tree::Text(s) && trimmed_text(s) == Some(key))
}

/// What is listed under a key once its entry is among the first `n` providers.
proof fn lemma_listed(providers: Entries, key: Seq<char>, own: Entries, n: nat)
    requires
        is_json(Tree::Mapping(providers)),
        listed_last(providers, key),
        trimmed_text(key) == Some(key),
        lookup(providers, Tree::Text(key)) == Some(Tree::Mapping(own)),
        n <= providers.len(),
    ensures
        is_json(Tree::Mapping(listed(providers, n))),
        index_of(providers, Tree::Text(key)) < n ==> lookup(listed(providers, n), Tree::Text(key))
            == Some(Tree::Mapping(flattened(own, own.len()))),
    decreases n,
{
    broadcast use lemma_same_text;

    lemma_empty();
    if n > 0 {
        let i = n - 1;
        lemma_listed(providers, key, own, i as nat);
        lemma_entry_well_formed(providers, i);
        assert(key_at(providers, Tree::Text(key), index_of(providers, Tree::Text(key))));
        let before = listed(providers, i as nat);
        let e = providers[i];
        if let (Tree::Text(s), Tree::Mapping(entry)) = (e.0, e.1) {
            if let Some(name) = trimmed_text(s) {
                lemma_flattened_json(entry, entry.len());
                let v = Tree::Mapping(flattened(entry, entry.len()));
                lemma_with_key(before, Tree::Text(name), v);
                lemma_with_key_well_formed(before, Tree::Text(name), v);
            }
        }
    }
}

/// The flat form of a provider is well-formed.
proof fn lemma_flattened_json(m: Entries, n: nat)
    requires
        is_json(Tree::Mapping(m)),
    ensures
        is_json(Tree::Mapping(flattened(m, n))),
    decreases n,
{
    lemma_empty();
    if 0 < n <= m.len() {
        lemma_flattened_json(m, (n - 1) as nat);
        let flat = flattened(m, (n - 1) as nat);
        let e = m[n - 1];
        lemma_entry_well_formed(m, n - 1);
        if let Some(s) = text_of(e.1) {
            if let Some(name) = trimmed_text(s) {
                lemma_with_key_well_formed(flat, Tree::Text("displayName"@), Tree::Text(name));
            }
        }
        if let Tree::Mapping(options) = e.1 {
            lemma_options_picked(flat, options);
        }
        lemma_models_listed(e.1);
        lemma_with_key_well_formed(flat, Tree::Text("models"@), models_listed(e.1));
        lemma_with_key_well_formed(flat, e.0, e.1);
    }
}

/// A provider that was written is listed under its key, in its flat form.
pub proof fn law_set_then_list(root: Entries, key: Seq<char>, obj: Entries)
    requires
        is_json(Tree::Mapping(root)),
        is_json(Tree::Mapping(obj)),
        trimmed_text(key) == Some(key),
        listed_last(object_under(root, "provider"@), key),
    ensures
        ({
            let entry = entry_for(object_under(root, "provider"@), key, obj);
            lookup(provider_list(with_provider(root, key, obj)), Tree::Text(key)) == Some(
                Tree::Mapping(flattened(entry, entry.len())),
            )
        }),
{
    broadcast use lemma_same_text;

    let providers = object_under(root, "provider"@);
    let k = Tree::Text(key);
    lemma_built(obj);
    lemma_object_under(root, "provider"@);
    lemma_object_under(providers, key);
    lemma_entry_json(providers, key, obj);
    let entry = Tree::Mapping(entry_for(providers, key, obj));
    let after = with_key(providers, k, entry);
    lemma_with_key(providers, k, entry);
    lemma_with_key_well_formed(providers, k, entry);
    lemma_with_key(root, Tree::Text("provider"@), Tree::Mapping(after));
    assert(object_under(with_provider(root, key, obj), "provider"@) == after);
    assert(listed_last(after, key)) by {
        if has_key(providers, k) {
            let i = index_of(providers, k);
            assert(key_at(providers, k, i));
            assert(key_at(after, k, i));
            lemma_index_of(after, k, i);
            assert forall|j: int| i < j < after.len() implies !((#[trigger] after[j]).0 matches Tree::Text(s)
                && trimmed_text(s) == Some(key)) by {
                assert(after[j] == providers[j]);
            }
        } else {
            assert(key_at(after, k, providers.len() as int));
            lemma_index_of(after, k, providers.len() as int);
        }
    }
    lemma_listed(after, key, entry->Mapping_0, after.len());
    assert(key_at(after, k, index_of(after, k)));
}

/// A provider that was written is read back: the file holds it and everything else as
/// it was written, where there are no floats, which may be rounded, and not too many
/// levels. Where the file is read back, the provider is listed under its key in the flat
/// form of what the file holds.
pub open spec fn set_comes_back(path: Seq<char>, raw: Seq<char>, key: Seq<char>, config: Tree) -> bool {
    match (write_fault(key, config), object_of(path, raw)) {
        (None, Ok(root)) => {
            let obj = config->Mapping_0;
            let after = with_provider(root, key, obj);
            let entry = entry_for(object_under(root, "provider"@), key, obj);
            &&& is_exact(Tree::Mapping(after)) ==> stored(path, raw, after)
            &&& stored(path, raw, after) && listed_last(object_under(root, "provider"@), key) ==> (
            providers_read(
                path,
                carried_out(raw, provider_set(path, raw, key, config)->Ok_0),
            ) matches Ok(list) && lookup(list, Tree::Text(key)) == Some(
                Tree::Mapping(flattened(entry, entry.len())),
            ))
        },
        _ => true,
    }
}

/// A provider is got as it was set, where the file is read back as it was written.
pub proof fn law_set_then_get(
    path: Seq<char>,
    raw: Seq<char>,
    key: Seq<char>,
    obj: Entries,
    root: Entries,
)
    requires
        is_json(Tree::Mapping(root)),
        is_json(Tree::Mapping(obj)),
        write_fault(key, Tree::Mapping(obj)) is None,
        object_of(path, raw) == Ok::<Entries, ErrorView>(root),
        is_exact(Tree::Mapping(with_provider(root, key, obj))) ==> stored(
            path,
            raw,
            with_provider(root, key, obj),
        ),
    ensures
        set_comes_back(path, raw, key, Tree::Mapping(obj)),
{
    if listed_last(object_under(root, "provider"@), key) {
        assert(is_key_char(key[0]) && is_key_char(key[key.len() - 1]));
        lemma_trimmed_stays(key);
        law_set_then_list(root, key, obj);
    }
}

/// Once a provider was removed, the file is read as what was left of it. It is left
/// open for files with floats or with too many levels.
pub open spec fn removal_sticks(path: Seq<char>, raw: Seq<char>, key: Seq<char>) -> bool {
    match object_of(path, raw) {
        Ok(root) => without_provider(root, key) matches Some(m) ==> is_exact(Tree::Mapping(m))
            ==> stored(path, raw, m),
        Err(_) => true,
    }
}

// ----------------------------------------------------------------------------
// Common configuration
// ----------------------------------------------------------------------------

/// The file with a snippet merged in is read back where it has no floats and not too
/// many levels; where it is, the snippet is in it, and merging it in again leaves the
/// file alone.
pub open spec fn snippet_sticks(path: Seq<char>, raw: Seq<char>, snippet: Seq<char>) -> bool {
    match (snippet_of(snippet), object_of(path, raw)) {
        (Ok(m), Ok(root)) => m.len() > 0 ==> {
            let with = applied_to(root, m, protected_keys());
            let after = carried_out(raw, snippet_applying(path, raw, snippet)->Ok_0);
            &&& is_exact(Tree::Mapping(with)) ==> stored(path, raw, with)
            &&& stored(path, raw, with) ==> snippet_held(path, after, snippet)
                && snippet_applying(path, after, snippet) == Ok::<PlanView, ErrorView>(
                PlanView::Keep,
            )
        },
        _ => true,
    }
}

/// Once a snippet was taken out, the file is read as what was left of it. It is left
/// open for files with floats or with too many levels.
pub open spec fn snippet_leaves(path: Seq<char>, raw: Seq<char>, snippet: Seq<char>) -> bool {
    match (snippet_of(snippet), object_of(path, raw)) {
        (Ok(m), Ok(root)) => m.len() > 0 && is_exact(
            Tree::Mapping(taken_from(root, m, protected_keys(), true)),
        ) ==> stored(path, raw, taken_from(root, m, protected_keys(), true)),
        _ => true,
    }
}

/// A snippet that was merged into the file is in it, and merging it again leaves the
/// file alone, where the file is read back as it was written.
pub proof fn law_snippet_applied(
    path: Seq<char>,
    raw: Seq<char>,
    snippet: Seq<char>,
    root: Entries,
    m: Entries,
)
    requires
        is_json(Tree::Mapping(root)),
        is_json(Tree::Mapping(m)),
        m.len() > 0,
        snippet_of(snippet) == Ok::<Entries, ErrorView>(m),
        object_of(path, raw) == Ok::<Entries, ErrorView>(root),
        is_exact(Tree::Mapping(applied_to(root, m, protected_keys()))) ==> stored(
            path,
            raw,
            applied_to(root, m, protected_keys()),
        ),
    ensures
        snippet_sticks(path, raw, snippet),
{
    law_apply_then_applied(root, m, protected_keys());
    law_apply_idempotent(root, m, protected_keys());
}

/// Taking a snippet out of the file undoes merging it in: the file is read as what it
/// held before, with every key in its place, where it is read back as it was written and
/// the snippet sets no name that it had.
pub proof fn law_undone_in_file(
    path: Seq<char>,
    raw: Seq<char>,
    snippet: Seq<char>,
    root: Entries,
    m: Entries,
)
    requires
        is_json(Tree::Mapping(root)),
        is_json(Tree::Mapping(m)),
        m.len() > 0,
        snippet_of(snippet) == Ok::<Entries, ErrorView>(m),
        object_of(path, raw) == Ok::<Entries, ErrorView>(root),
        forall|l: Tree| has_key(exposed(m, protected_keys()), l) ==> !has_key(root, l),
        ({
            let with = applied_to(root, m, protected_keys());
            let applied = carried_out(raw, snippet_applying(path, raw, snippet)->Ok_0);
            &&& stored(path, raw, with)
            &&& stored(path, applied, taken_from(with, m, protected_keys(), true))
        }),
    ensures
        ({
            let applied = carried_out(raw, snippet_applying(path, raw, snippet)->Ok_0);
            let taken = carried_out(applied, snippet_removing(path, applied, snippet)->Ok_0);
            object_of(path, taken) == Ok::<Entries, ErrorView>(root)
        }),
{
    law_apply_then_take(root, m, protected_keys(), true);
}

} // verus!
