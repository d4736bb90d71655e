//! What holds of the files of zcode before and after each change, name by name.

use vstd::prelude::*;

use crate::dsh_config::nameless_error;
use crate::dsh_file_laws::law_first_nameless;
use crate::error::ErrorView;
use crate::json::{json_parsed, json_pretty};
use crate::paths::{at, found_at, merges_at, prunes_at};
use crate::plan::{carried_out, PlanView};
use crate::snippet::{
    applied_to, is_protected, law_applied_at, law_applied_changes_nothing, law_is_applied_at,
    law_taken_at, taken_from,
};
use crate::text::{is_blank, lemma_blank, trimmed};
use crate::tree::{
    distinct_keys, field, has_key, index_of, is_json, key_at, lemma_entry_well_formed,
    lemma_index_of, lemma_lookup_same, lemma_lookup_well_formed, lemma_same_reflexive,
    lemma_same_text, lemma_untagged, lemma_with_key, lemma_without_key, lookup, same, text_field,
    text_of, with_key, without_key, Entries, Tree,
};
use crate::zcode_config::{
    backup_extensions, bad_key, built, flattened, flattened_step, is_provider_key, listed,
    models_collected, models_listed, models_mapped, object_of, object_planned, object_under,
    options_picked, protected_keys, provider_fault, provider_list, provider_removed, provider_set,
    snippet_applying, snippet_held, snippet_of, snippet_removing, with_provider, without_provider,
    write_fault,
};
use crate::zcode_laws::{
    is_option, lemma_built, lemma_built_known, lemma_empty, lemma_names, lemma_object_under,
    lemma_options_picked,
};

verus! {

// ----------------------------------------------------------------------------
// Reading and writing
// ----------------------------------------------------------------------------

/// A blank file or snippet holds nothing; any other is read as JSON, and must be an object.
pub proof fn law_objects_read(path: Seq<char>, raw: Seq<char>)
    ensures
        ({
            let parsed = json_parsed(raw);
            if is_blank(raw) {
                &&& object_of(path, raw) == Ok::<Entries, ErrorView>(Seq::empty())
                &&& snippet_of(raw) == Ok::<Entries, ErrorView>(Seq::empty())
            } else {
                &&& parsed matches Ok(Tree::Mapping(m)) ==> object_of(path, raw) == Ok::<
                    Entries,
                    ErrorView,
                >(m) && snippet_of(raw) == Ok::<Entries, ErrorView>(m)
                &&& !(parsed matches Ok(Tree::Mapping(_))) ==> object_of(path, raw) is Err
                    && snippet_of(raw) is Err
            }
        }),
{
}

/// A file gets the JSON text of its new entries and a line break; where it has that text
/// already, it stays. What it held is saved where it was not empty.
pub proof fn law_objects_written(raw: Seq<char>, root: Entries)
    ensures
        ({
            let written = json_pretty(Tree::Mapping(root));
            &&& written matches Ok(text) ==> {
                &&& object_planned(raw, written) matches Ok(plan)
                &&& carried_out(raw, plan) == text.push('\n')
                &&& plan is Keep <==> raw == text.push('\n')
                &&& plan matches PlanView::Write { text: _, backup } ==> backup == (raw.len() > 0)
            }
            &&& written is Err ==> object_planned(raw, written) is Err
        }),
{
}

// ----------------------------------------------------------------------------
// Common configuration
// ----------------------------------------------------------------------------

proof fn lemma_reserved(k: Tree)
    ensures
        text_of(k) == Some("mcp"@) <==> is_protected(k, protected_keys()),
{
    let names = protected_keys();
    assert(names[0] == "mcp"@);
    if is_protected(k, names) {
        let i = choose|i: int| 0 <= i < names.len() && names[i] == text_of(k)->0;
        assert(i == 0);
    }
    if text_of(k) == Some("mcp"@) {
        assert(names.contains(names[0]));
    }
}

/// Merging a snippet into `cli/config.json`: the MCP servers stay as they are. At every
/// other path, what the snippet sets is written, and what it does not set is as it was.
pub proof fn law_apply_common_config(
    path: Seq<char>,
    raw: Seq<char>,
    snippet: Seq<char>,
    root: Entries,
    m: Entries,
    keys: Seq<Tree>,
)
    requires
        is_json(Tree::Mapping(root)),
        is_json(Tree::Mapping(m)),
        object_of(path, raw) == Ok::<Entries, ErrorView>(root),
        snippet_of(snippet) == Ok::<Entries, ErrorView>(m),
        keys.len() > 0,
    ensures
        m.len() == 0 ==> snippet_applying(path, raw, snippet) == Ok::<PlanView, ErrorView>(
            PlanView::Keep,
        ),
        m.len() > 0 ==> {
            let t = Tree::Mapping(applied_to(root, m, protected_keys()));
            &&& snippet_applying(path, raw, snippet) == object_planned(raw, json_pretty(t))
            &&& if text_of(keys[0]) == Some("mcp"@) {
                at(t, keys) == at(Tree::Mapping(root), keys)
            } else {
                merges_at(Tree::Mapping(root), Tree::Mapping(m), t, keys)
            }
        },
{
    lemma_reserved(keys[0]);
    law_applied_at(root, m, protected_keys(), keys);
}

/// Taking a snippet out of `cli/config.json`: the MCP servers stay as they are. At every
/// other path, what is the snippet's is gone, and what is not is as it was.
pub proof fn law_remove_common_config(
    path: Seq<char>,
    raw: Seq<char>,
    snippet: Seq<char>,
    root: Entries,
    m: Entries,
    keys: Seq<Tree>,
)
    requires
        is_json(Tree::Mapping(root)),
        is_json(Tree::Mapping(m)),
        object_of(path, raw) == Ok::<Entries, ErrorView>(root),
        snippet_of(snippet) == Ok::<Entries, ErrorView>(m),
        keys.len() > 0,
    ensures
        m.len() == 0 ==> snippet_removing(path, raw, snippet) == Ok::<PlanView, ErrorView>(
            PlanView::Keep,
        ),
        m.len() > 0 ==> {
            let t = Tree::Mapping(taken_from(root, m, protected_keys(), true));
            &&& snippet_removing(path, raw, snippet) == object_planned(raw, json_pretty(t))
            &&& if text_of(keys[0]) == Some("mcp"@) {
                at(t, keys) == at(Tree::Mapping(root), keys)
            } else {
                prunes_at(Tree::Mapping(root), Tree::Mapping(m), t, keys)
            }
        },
{
    lemma_reserved(keys[0]);
    law_taken_at(root, m, protected_keys(), keys, true);
}

/// A snippet counts as applied exactly where the file has, at every path that does not
/// belong to the MCP servers, what the snippet has there; that is, where merging it in
/// gives an equal file. One that holds nothing always does.
pub proof fn law_common_config_applied(
    path: Seq<char>,
    raw: Seq<char>,
    snippet: Seq<char>,
    root: Entries,
    m: Entries,
)
    requires
        is_json(Tree::Mapping(root)),
        is_json(Tree::Mapping(m)),
        object_of(path, raw) == Ok::<Entries, ErrorView>(root),
        snippet_of(snippet) == Ok::<Entries, ErrorView>(m),
    ensures
        m.len() == 0 ==> snippet_held(path, raw, snippet),
        m.len() > 0 ==> (snippet_held(path, raw, snippet) <==> forall|keys: Seq<Tree>|
            keys.len() > 0 && text_of(keys[0]) != Some("mcp"@) ==> #[trigger] found_at(
                Tree::Mapping(root),
                Tree::Mapping(m),
                keys,
            )),
        m.len() > 0 ==> (snippet_held(path, raw, snippet) <==> same(
            Tree::Mapping(applied_to(root, m, protected_keys())),
            Tree::Mapping(root),
        )),
{
    let names = protected_keys();
    law_is_applied_at(root, m, names);
    law_applied_changes_nothing(root, m, names);
    if m.len() > 0 {
        if snippet_held(path, raw, snippet) {
            assert forall|keys: Seq<Tree>|
                keys.len() > 0 && text_of(keys[0]) != Some("mcp"@) implies #[trigger] found_at(
                Tree::Mapping(root),
                Tree::Mapping(m),
                keys,
            ) by {
                lemma_reserved(keys[0]);
            }
        }
        if forall|keys: Seq<Tree>|
            keys.len() > 0 && text_of(keys[0]) != Some("mcp"@) ==> #[trigger] found_at(
                Tree::Mapping(root),
                Tree::Mapping(m),
                keys,
            ) {
            assert forall|keys: Seq<Tree>|
                keys.len() > 0 && !is_protected(keys[0], names) implies #[trigger] found_at(
                Tree::Mapping(root),
                Tree::Mapping(m),
                keys,
            ) by {
                lemma_reserved(keys[0]);
            }
        }
    }
}

/// A snippet cannot count as applied where it cannot be read, nor one that holds something
/// where the file cannot be read.
pub proof fn law_not_applied(path: Seq<char>, raw: Seq<char>, snippet: Seq<char>)
    ensures
        snippet_of(snippet) is Err ==> !snippet_held(path, raw, snippet),
        (snippet_of(snippet) matches Ok(m) && m.len() > 0 && object_of(path, raw) is Err)
            ==> !snippet_held(path, raw, snippet),
{
}

// ----------------------------------------------------------------------------
// Models
// ----------------------------------------------------------------------------

/// The models of the file as a list: one for each, in order, with the name under which the
/// file has it as `id`, and its other fields as the file has them.
pub proof fn law_models_listed(m: Entries, i: int, k: Tree)
    requires
        is_json(Tree::Mapping(m)),
        0 <= i < m.len(),
    ensures
        models_listed(Tree::Mapping(m)) matches Tree::List(x) && x.len() == m.len() && (
        x[i] matches Tree::Mapping(w) && lookup(w, k) == (if same(Tree::Text("id"@), k) {
            Some(m[i].0)
        } else {
            match m[i].1 {
                Tree::Mapping(fields) => lookup(fields, k),
                _ => None,
            }
        })),
{
    let fields = match m[i].1 {
        Tree::Mapping(y) => y,
        _ => Seq::empty(),
    };
    lemma_entry_well_formed(m, i);
    lemma_empty();
    assert(distinct_keys(fields));
    lemma_with_key(fields, Tree::Text("id"@), m[i].0);
    if same(Tree::Text("id"@), k) {
        lemma_lookup_same(
            with_key(fields, Tree::Text("id"@), m[i].0),
            Tree::Text("id"@),
            k,
        );
    }
}

/// What is neither a mapping of models nor a list of them stays as it is.
pub proof fn law_other_models(t: Tree)
    ensures
        !(t is Mapping) ==> models_listed(t) == t,
        !(t is List) ==> models_mapped(t) == t,
{
}

/// A model of a list has an `id`: it is an object with a text there that is the id, blanks
/// around it aside.
pub open spec fn is_model(t: Tree, id: Seq<char>) -> bool {
    &&& t is Mapping
    &&& text_field(t, "id"@) matches Some(s)
    &&& !is_blank(s) && trimmed(s) == id
}

proof fn lemma_mapped(x: Seq<Tree>, id: Seq<char>, n: nat)
    requires
        n <= x.len(),
    ensures
        distinct_keys(models_collected(x, n)),
        (forall|i: int| 0 <= i < n ==> !is_model(#[trigger] x[i], id)) ==> !has_key(
            models_collected(x, n),
            Tree::Text(id),
        ),
        forall|i: int|
            0 <= i < n && is_model(#[trigger] x[i], id) && (forall|j: int|
                i < j < n ==> !is_model(#[trigger] x[j], id)) ==> lookup(
                models_collected(x, n),
                Tree::Text(id),
            ) == Some(Tree::Mapping(without_key(x[i]->Mapping_0, Tree::Text("id"@)))),
        forall|k: Tree| #[trigger] has_key(models_collected(x, n), k) ==> k is Text,
    decreases n,
{
    broadcast use lemma_same_text;

    if n > 0 {
        let before = models_collected(x, (n - 1) as nat);
        let after = models_collected(x, n);
        let e = x[n - 1];
        lemma_mapped(x, id, (n - 1) as nat);
        if let Some(s) = text_field(e, "id"@) {
            lemma_blank(s);
            if e is Mapping && !is_blank(s) {
                let other = trimmed(s);
                let v = Tree::Mapping(without_key(e->Mapping_0, Tree::Text("id"@)));
                assert(after == with_key(before, Tree::Text(other), v));
                lemma_with_key(before, Tree::Text(other), v);
                if other != id {
                    assert(!same(Tree::Text(other), Tree::Text(id)));
                    assert(!is_model(e, id));
                } else {
                    assert(is_model(e, id));
                }
                assert forall|k: Tree| #[trigger] has_key(after, k) implies k is Text by {
                    if !same(Tree::Text(other), k) {
                        assert(has_key(before, k));
                    }
                }
            } else {
                assert(!is_model(e, id));
                assert(after == before);
            }
        } else {
            assert(!is_model(e, id));
            assert(after == before);
        }
        assert(!is_model(e, id) ==> lookup(after, Tree::Text(id)) == lookup(before, Tree::Text(id)));
    }
}

/// A list of models as the file holds it: the last model of each id, under that id, with
/// its other fields as they came; what has no id is left out.
pub proof fn law_models_mapped(x: Seq<Tree>, id: Seq<char>, i: int, k: Tree)
    requires
        is_json(Tree::List(x)),
    ensures
        ({
            let m = models_collected(x, x.len());
            &&& models_mapped(Tree::List(x)) == Tree::Mapping(m)
            &&& (forall|j: int| 0 <= j < x.len() ==> !is_model(#[trigger] x[j], id)) ==> lookup(
                m,
                Tree::Text(id),
            ) is None
            &&& (0 <= i < x.len() && is_model(x[i], id) && (forall|j: int|
                i < j < x.len() ==> !is_model(#[trigger] x[j], id))) ==> (lookup(m, Tree::Text(id))
                matches Some(Tree::Mapping(w)) && lookup(w, k) == (if same(Tree::Text("id"@), k) {
                None
            } else {
                lookup(x[i]->Mapping_0, k)
            }))
            &&& forall|l: Tree| #[trigger] has_key(m, l) ==> l is Text
        }),
{
    lemma_mapped(x, id, x.len());
    if 0 <= i < x.len() && is_model(x[i], id) {
        assert(is_json(x[i])) by {
            crate::tree::lemma_item_well_formed(x, i);
        }
        let fields = x[i]->Mapping_0;
        lemma_without_key(fields, Tree::Text("id"@));
        if same(Tree::Text("id"@), k) {
            lemma_lookup_same(
                without_key(fields, Tree::Text("id"@)),
                Tree::Text("id"@),
                k,
            );
        }
    }
}

// ----------------------------------------------------------------------------
// The two forms of a provider
// ----------------------------------------------------------------------------

/// What the file gets of a flat form under a name: the display name, trimmed, as `name`;
/// the connection keys under `options`; the models by their ids; `custom` as `source`; and
/// everything else as it came. What goes elsewhere does not stay at the top.
#[verifier::rlimit(30)]
pub proof fn law_built(obj: Entries, name: Seq<char>)
    requires
        is_json(Tree::Mapping(obj)),
    ensures
        ({
            let m = built(obj);
            let given = lookup(obj, Tree::Text(name));
            let here = lookup(m, Tree::Text(name));
            let display = lookup(obj, Tree::Text("displayName"@));
            let connected = exists|o: Seq<char>| is_option(o) && #[trigger] has_key(
                obj,
                Tree::Text(o),
            );
            if name == "name"@ {
                here == (if display matches Some(Tree::Text(s)) && !is_blank(s) {
                    Some(Tree::Text(trimmed(display->0->Text_0)))
                } else {
                    given
                })
            } else if name == "source"@ {
                here == Some(Tree::Text("custom"@))
            } else if name == "models"@ {
                here == (match given {
                    Some(v) => Some(models_mapped(v)),
                    None => None,
                })
            } else if name == "options"@ {
                if connected {
                    here matches Some(Tree::Mapping(options)) && forall|o: Seq<char>| #[trigger]
                        lookup(options, Tree::Text(o)) == (if is_option(o) {
                            lookup(obj, Tree::Text(o))
                        } else {
                            None
                        })
                } else {
                    here == given
                }
            } else if name == "displayName"@ || is_option(name) {
                here is None
            } else {
                here == given
            }
        }),
{
    broadcast use lemma_same_text;

    lemma_names();
    lemma_empty();
    let z: Entries = Seq::empty();
    let options = options_picked(z, obj);
    lemma_built_known(obj);
    lemma_built(obj);
    lemma_options_picked(z, obj);
    let d = Tree::Text("displayName"@);
    if has_key(obj, d) {
        lemma_lookup_well_formed(obj, d);
        lemma_untagged(lookup(obj, d)->0);
        if let Tree::Text(s) = lookup(obj, d)->0 {
            lemma_blank(s);
        }
    }
    assert forall|o: Seq<char>| #[trigger] lookup(options, Tree::Text(o)) == (if is_option(o) {
        lookup(obj, Tree::Text(o))
    } else {
        None
    }) by {}
    if options.len() > 0 {
        let k = options[0].0;
        lemma_entry_well_formed(options, 0);
        lemma_same_reflexive(k);
        assert(key_at(options, k, 0));
        lemma_index_of(options, k, 0);
        let o = k->Text_0;
        assert(lookup(options, Tree::Text(o)) is Some);
        assert(is_option(o) && has_key(obj, Tree::Text(o)));
    } else {
        assert(options =~= z);
        assert forall|o: Seq<char>| is_option(o) implies !(#[trigger] has_key(obj, Tree::Text(o))) by {
            assert(lookup(options, Tree::Text(o)) is None);
        }
    }
}

/// What a mapping holds under a key among its first `n` entries.
pub open spec fn held(m: Entries, k: Tree, n: nat) -> Option<Tree> {
    if has_key(m, k) && index_of(m, k) < n {
        lookup(m, k)
    } else {
        None
    }
}

/// Of two values, the one that comes later.
pub open spec fn later(a: Option<Tree>, i: int, b: Option<Tree>, j: int) -> Option<Tree> {
    match (a, b) {
        (None, _) => b,
        (_, None) => a,
        _ => if i < j {
            b
        } else {
            a
        },
    }
}

/// The display name that a value under `name` gives: the text, trimmed, where it is not
/// blank.
pub open spec fn shown(v: Option<Tree>) -> Option<Tree> {
    match v {
        Some(Tree::Text(s)) => if is_blank(s) {
            None
        } else {
            Some(Tree::Text(trimmed(s)))
        },
        _ => None,
    }
}

/// What the options of a provider hold under a name.
pub open spec fn connection(v: Option<Tree>, o: Seq<char>) -> Option<Tree> {
    match v {
        Some(Tree::Mapping(options)) => lookup(options, Tree::Text(o)),
        _ => None,
    }
}

/// What the flat form of the first `n` entries of a provider holds under a name.
pub open spec fn flat_value(m: Entries, name: Seq<char>, n: nat) -> Option<Tree> {
    let k = Tree::Text(name);
    if name == "name"@ || name == "options"@ || name == "source"@ {
        None
    } else if name == "models"@ {
        match held(m, k, n) {
            Some(v) => Some(models_listed(v)),
            None => None,
        }
    } else if name == "displayName"@ {
        let a = Tree::Text("name"@);
        later(held(m, k, n), index_of(m, k), shown(held(m, a, n)), index_of(m, a))
    } else if is_option(name) {
        let a = Tree::Text("options"@);
        later(held(m, k, n), index_of(m, k), connection(held(m, a, n), name), index_of(m, a))
    } else {
        held(m, k, n)
    }
}

#[verifier::rlimit(30)]
proof fn lemma_flat(m: Entries, name: Seq<char>, n: nat)
    requires
        is_json(Tree::Mapping(m)),
        n <= m.len(),
    ensures
        is_json(Tree::Mapping(flattened(m, n))),
        lookup(flattened(m, n), Tree::Text(name)) == flat_value(m, name, n),
    decreases n,
{
    broadcast use lemma_same_text;

    lemma_names();
    lemma_empty();
    if n > 0 {
        let i = n - 1;
        let e = m[i];
        let flat = flattened(m, i as nat);
        lemma_flat(m, name, i as nat);
        lemma_entry_well_formed(m, i);
        lemma_same_reflexive(e.0);
        assert(key_at(m, e.0, i));
        lemma_index_of(m, e.0, i);
        lemma_untagged(e.1);
        let key = e.0->Text_0;
        assert(e.0 == Tree::Text(key));
        assert forall|o: Seq<char>| #[trigger] held(m, Tree::Text(o), n) == (if o == key {
            Some(e.1)
        } else {
            held(m, Tree::Text(o), i as nat)
        }) by {
            let k = Tree::Text(o);
            if has_key(m, k) {
                assert(key_at(m, k, index_of(m, k)));
                if index_of(m, k) == i {
                    assert(o == key);
                }
            }
        }
        assert(held(m, Tree::Text(key), i as nat) is None);
        assert(flattened(m, n) == flattened_step(flat, e));
        if key == "name"@ {
            if let Tree::Text(s) = e.1 {
                lemma_blank(s);
                if !is_blank(s) {
                    let v = Tree::Text(trimmed(s));
                    lemma_with_key(flat, Tree::Text("displayName"@), v);
                    crate::tree::lemma_with_key_well_formed(flat, Tree::Text("displayName"@), v);
                }
            }
        } else if key == "options"@ {
            if let Tree::Mapping(options) = e.1 {
                lemma_options_picked(flat, options);
            }
        } else if key == "models"@ {
            crate::zcode_laws::lemma_models_listed(e.1);
            lemma_with_key(flat, Tree::Text("models"@), models_listed(e.1));
            crate::tree::lemma_with_key_well_formed(
                flat,
                Tree::Text("models"@),
                models_listed(e.1),
            );
        } else if key == "source"@ {
        } else {
            lemma_with_key(flat, e.0, e.1);
            crate::tree::lemma_with_key_well_formed(flat, e.0, e.1);
        }
        assert forall|o: Seq<char>| has_key(m, Tree::Text(o)) implies 0 <= #[trigger] index_of(
            m,
            Tree::Text(o),
        ) < m.len() by {
            assert(key_at(m, Tree::Text(o), index_of(m, Tree::Text(o))));
        }
    }
}

/// The flat form of a provider of the file under a name: `name`, trimmed, as the display
/// name; what `options` hold of the connection; the models as a list; and everything else
/// as it is, but for `source`, which is dropped. Where a provider holds both forms of
/// something, what comes later in it counts.
pub proof fn law_flat_form(m: Entries, name: Seq<char>)
    requires
        is_json(Tree::Mapping(m)),
    ensures
        ({
            let here = lookup(flattened(m, m.len()), Tree::Text(name));
            let own = lookup(m, Tree::Text(name));
            let k = Tree::Text(name);
            if name == "name"@ || name == "options"@ || name == "source"@ {
                here is None
            } else if name == "models"@ {
                here == (match own {
                    Some(v) => Some(models_listed(v)),
                    None => None,
                })
            } else if name == "displayName"@ {
                let a = Tree::Text("name"@);
                here == later(own, index_of(m, k), shown(lookup(m, a)), index_of(m, a))
            } else if is_option(name) {
                let a = Tree::Text("options"@);
                here == later(own, index_of(m, k), connection(lookup(m, a), name), index_of(m, a))
            } else {
                here == own
            }
        }),
{
    lemma_flat(m, name, m.len());
    assert forall|o: Seq<char>| #[trigger] held(m, Tree::Text(o), m.len()) == lookup(
        m,
        Tree::Text(o),
    ) by {
        if has_key(m, Tree::Text(o)) {
            assert(key_at(m, Tree::Text(o), index_of(m, Tree::Text(o))));
        }
    }
}

// ----------------------------------------------------------------------------
// Providers
// ----------------------------------------------------------------------------

/// An entry of the providers is listed under a name: it is an object, and its key is that
/// name, blanks around it aside.
pub open spec fn listed_under(e: (Tree, Tree), name: Seq<char>) -> bool {
    &&& e.0 matches Tree::Text(s)
    &&& !is_blank(s) && trimmed(s) == name
    &&& e.1 is Mapping
}

proof fn lemma_list(providers: Entries, name: Seq<char>, n: nat)
    requires
        n <= providers.len(),
    ensures
        distinct_keys(listed(providers, n)),
        (forall|i: int| 0 <= i < n ==> !listed_under(#[trigger] providers[i], name)) ==> !has_key(
            listed(providers, n),
            Tree::Text(name),
        ),
        forall|i: int|
            0 <= i < n && listed_under(#[trigger] providers[i], name) && (forall|j: int|
                i < j < n ==> !listed_under(#[trigger] providers[j], name)) ==> lookup(
                listed(providers, n),
                Tree::Text(name),
            ) == Some(
                Tree::Mapping(
                    flattened(providers[i].1->Mapping_0, providers[i].1->Mapping_0.len()),
                ),
            ),
        forall|k: Tree| #[trigger] has_key(listed(providers, n), k) ==> k is Text,
    decreases n,
{
    broadcast use lemma_same_text;

    if n > 0 {
        let before = listed(providers, (n - 1) as nat);
        let after = listed(providers, n);
        let e = providers[n - 1];
        lemma_list(providers, name, (n - 1) as nat);
        if let Tree::Text(s) = e.0 {
            lemma_blank(s);
            if e.1 is Mapping && !is_blank(s) {
                let other = trimmed(s);
                let v = Tree::Mapping(flattened(e.1->Mapping_0, e.1->Mapping_0.len()));
                assert(after == with_key(before, Tree::Text(other), v));
                lemma_with_key(before, Tree::Text(other), v);
                if other != name {
                    assert(!same(Tree::Text(other), Tree::Text(name)));
                    assert(!listed_under(e, name));
                } else {
                    assert(listed_under(e, name));
                }
                assert forall|k: Tree| #[trigger] has_key(after, k) implies k is Text by {
                    if !same(Tree::Text(other), k) {
                        assert(has_key(before, k));
                    }
                }
            } else {
                assert(!listed_under(e, name));
                assert(after == before);
            }
        } else {
            assert(!listed_under(e, name));
            assert(after == before);
        }
        assert(!listed_under(e, name) ==> lookup(after, Tree::Text(name)) == lookup(
            before,
            Tree::Text(name),
        ));
    }
}

/// The list of providers has an entry for a name exactly where some provider of the file is
/// listed under it, and then it is the flat form of the last of these.
pub proof fn law_providers_listed(root: Entries, name: Seq<char>, i: int)
    ensures
        ({
            let m = object_under(root, "provider"@);
            let list = provider_list(root);
            &&& (forall|j: int| 0 <= j < m.len() ==> !listed_under(#[trigger] m[j], name)) ==> lookup(
                list,
                Tree::Text(name),
            ) is None
            &&& (0 <= i < m.len() && listed_under(m[i], name) && (forall|j: int|
                i < j < m.len() ==> !listed_under(#[trigger] m[j], name))) ==> lookup(
                list,
                Tree::Text(name),
            ) == Some(Tree::Mapping(flattened(m[i].1->Mapping_0, m[i].1->Mapping_0.len())))
            &&& forall|k: Tree| #[trigger] has_key(list, k) ==> k is Text
        }),
{
    let m = object_under(root, "provider"@);
    lemma_list(m, name, m.len());
    if 0 <= i < m.len() {
        assert(m[i] == m[i]);
    }
}

/// The object under a name, where there is one, and nothing where there is none.
pub proof fn law_object_under(m: Entries, name: Seq<char>)
    ensures
        match lookup(m, Tree::Text(name)) {
            Some(Tree::Mapping(x)) => object_under(m, name) == x,
            _ => object_under(m, name).len() == 0,
        },
{
}

/// A provider is refused where its key, its form or its kind is not what zcode accepts, in
/// this order; else the file is written with it.
pub proof fn law_set_in_file(path: Seq<char>, raw: Seq<char>, key: Seq<char>, config: Tree)
    ensures
        ({
            let key_fits = key.len() > 0 && forall|i: int|
                0 <= i < key.len() ==> {
                    let c = #[trigger] key[i];
                    'a' <= c <= 'z' || 'A' <= c <= 'Z' || '0' <= c <= '9' || c == '_' || c == ':'
                        || c == '-'
                };
            let kind = field(config, "kind"@);
            let kind_fits = kind is None || text_of(kind->0) == Some("anthropic"@) || text_of(kind->0)
                == Some("openai"@) || text_of(kind->0) == Some("openai-compatible"@);
            let r = provider_set(path, raw, key, config);
            &&& write_fault(key, config) is None <==> key_fits && config is Mapping && kind_fits
            &&& !key_fits ==> (r matches Err(ErrorView::Localized { key: what, zh: _, en: _ })
                && what == "provider.zcode.invalidProviderKey"@)
            &&& key_fits && !(config is Mapping) ==> (r matches Err(
                ErrorView::Localized { key: what, zh: _, en: _ },
            ) && what == "provider.zcode.configNotObject"@)
            &&& key_fits && config is Mapping && !kind_fits ==> (r matches Err(
                ErrorView::Localized { key: what, zh: _, en: _ },
            ) && what == "provider.zcode.invalidKind"@)
            &&& key_fits && config is Mapping && kind_fits ==> match object_of(path, raw) {
                Ok(root) => r == object_planned(
                    raw,
                    json_pretty(Tree::Mapping(with_provider(root, key, config->Mapping_0))),
                ),
                Err(e) => r == Err::<PlanView, ErrorView>(e),
            }
        }),
{
    assert(is_provider_key(key) <==> (key.len() > 0 && forall|i: int|
        0 <= i < key.len() ==> {
            let c = #[trigger] key[i];
            'a' <= c <= 'z' || 'A' <= c <= 'Z' || '0' <= c <= '9' || c == '_' || c == ':' || c
                == '-'
        })) by {
        if is_provider_key(key) {
            assert forall|i: int| 0 <= i < key.len() implies {
                let c = #[trigger] key[i];
                'a' <= c <= 'z' || 'A' <= c <= 'Z' || '0' <= c <= '9' || c == '_' || c == ':' || c
                    == '-'
            } by {}
        }
    }
}

/// Removing a provider writes the file without it, and leaves the file alone where there is
/// none.
pub proof fn law_remove_in_file(path: Seq<char>, raw: Seq<char>, key: Seq<char>, root: Entries)
    requires
        is_json(Tree::Mapping(root)),
        object_of(path, raw) == Ok::<Entries, ErrorView>(root),
    ensures
        ({
            let p = Tree::Text("provider"@);
            let there = lookup(root, p) matches Some(Tree::Mapping(m)) && has_key(
                m,
                Tree::Text(key),
            );
            if there {
                &&& without_provider(root, key) matches Some(after)
                &&& provider_removed(path, raw, key) == object_planned(
                    raw,
                    json_pretty(Tree::Mapping(after)),
                )
                &&& forall|k: Tree| !same(p, k) ==> #[trigger] lookup(after, k) == lookup(root, k)
                &&& lookup(after, p) matches Some(Tree::Mapping(rest))
                &&& !has_key(rest, Tree::Text(key))
                &&& forall|k: Tree|
                    !same(Tree::Text(key), k) ==> #[trigger] lookup(rest, k) == lookup(
                        lookup(root, p)->0->Mapping_0,
                        k,
                    )
            } else {
                provider_removed(path, raw, key) == Ok::<PlanView, ErrorView>(PlanView::Keep)
            }
        }),
{
    let p = Tree::Text("provider"@);
    let m = object_under(root, "provider"@);
    lemma_empty();
    lemma_object_under(root, "provider"@);
    lemma_without_key(m, Tree::Text(key));
    lemma_with_key(root, p, Tree::Mapping(without_key(m, Tree::Text(key))));
    assert(forall|k: Tree| !has_key(Seq::<(Tree, Tree)>::empty(), k));
}

/// A provider is accepted exactly where it is an object with a kind that zcode accepts and a
/// `baseURL` that is a text and not blank, and its `models`, if it has any, are a list, each
/// with an `id` that is a text and not blank.
pub proof fn law_provider_accepted(config: Tree)
    ensures
        provider_fault(config) is None <==> {
            let kind = field(config, "kind"@);
            let models = field(config, "models"@);
            &&& config is Mapping
            &&& kind is Some && (text_of(kind->0) == Some("anthropic"@) || text_of(kind->0) == Some(
                "openai"@,
            ) || text_of(kind->0) == Some("openai-compatible"@))
            &&& text_field(config, "baseURL"@) matches Some(url) && !is_blank(url)
            &&& models is Some ==> models->0 is List && forall|j: int|
                0 <= j < models->0->List_0.len() ==> (text_field(
                    #[trigger] models->0->List_0[j],
                    "id"@,
                ) matches Some(s) && !is_blank(s))
        },
{
    if let Some(Tree::List(models)) = field(config, "models"@) {
        law_first_nameless(models, 0);
    }
}

/// Which of the errors for a provider comes: the first thing that is wrong, in the order of
/// its form, its `kind`, its `baseURL` and its `models`.
pub proof fn law_provider_refused(config: Tree)
    ensures
        provider_fault(config) matches Some(e) ==> {
            let kind = field(config, "kind"@);
            let kind_fits = kind is Some && (text_of(kind->0) == Some("anthropic"@) || text_of(
                kind->0,
            ) == Some("openai"@) || text_of(kind->0) == Some("openai-compatible"@));
            let url_fits = text_field(config, "baseURL"@) matches Some(url) && !is_blank(url);
            &&& e matches ErrorView::Localized { key, zh: _, en: _ }
            &&& !(config is Mapping) ==> key == "provider.zcode.configNotObject"@
            &&& config is Mapping && kind is None ==> key == "provider.zcode.kindRequired"@
            &&& config is Mapping && kind is Some && !kind_fits ==> key
                == "provider.zcode.invalidKind"@
            &&& config is Mapping && kind_fits && !url_fits ==> key
                == "provider.zcode.baseUrlRequired"@
            &&& config is Mapping && kind_fits && url_fits ==> match field(config, "models"@) {
                Some(Tree::List(models)) => exists|n: nat|
                    {
                        &&& e == #[trigger] nameless_error("provider.zcode.modelIdRequired"@, n)
                        &&& n < models.len()
                        &&& !(text_field(models[n as int], "id"@) matches Some(s) && !is_blank(s))
                        &&& forall|j: int|
                            0 <= j < n ==> (text_field(#[trigger] models[j], "id"@) matches Some(s)
                                && !is_blank(s))
                    },
                _ => key == "provider.zcode.modelsInvalid"@,
            }
        },
{
    if let Some(Tree::List(models)) = field(config, "models"@) {
        law_first_nameless(models, 0);
        if let Some(n) = crate::dsh_config::first_nameless(models, 0) {
            assert(nameless_error("provider.zcode.modelIdRequired"@, n) == nameless_error(
                "provider.zcode.modelIdRequired"@,
                n,
            ));
        }
    }
}

/// The connection keys of a provider.
pub proof fn law_connection_keys(o: Seq<char>)
    ensures
        is_option(o) <==> o == "apiKey"@ || o == "baseURL"@ || o == "apiKeyRequired"@ || o
            == "headers"@,
{
}

/// The copies of files of zcode end with `json`.
pub proof fn law_backup_extensions(e: Seq<char>)
    ensures
        backup_extensions().contains(e) <==> e == "json"@,
{
    let x = backup_extensions();
    assert(x[0] == "json"@);
}

/// Providers are listed one by one, in their order: one more is written into the list under
/// its name, or makes no difference where it is not listed.
pub proof fn law_listed_one_by_one(providers: Entries, e: (Tree, Tree), name: Seq<char>)
    ensures
        ({
            let before = listed(providers, providers.len());
            let after = listed(providers.push(e), providers.len() + 1);
            &&& listed(Seq::empty(), 0).len() == 0
            &&& listed_under(e, name) ==> after == with_key(
                before,
                Tree::Text(name),
                Tree::Mapping(flattened(e.1->Mapping_0, e.1->Mapping_0.len())),
            )
            &&& (forall|n: Seq<char>| !(#[trigger] listed_under(e, n))) ==> after == before
        }),
{
    lemma_listed_prefix(providers, providers.push(e), providers.len());
    assert(providers.push(e)[providers.len() as int] == e);
    if let Tree::Text(s) = e.0 {
        lemma_blank(s);
        if !is_blank(s) && e.1 is Mapping {
            assert(listed_under(e, trimmed(s)));
        }
    }
}

proof fn lemma_listed_prefix(a: Entries, b: Entries, n: nat)
    requires
        n <= a.len() <= b.len(),
        forall|i: int| 0 <= i < a.len() ==> a[i] == b[i],
    ensures
        listed(a, n) == listed(b, n),
    decreases n,
{
    if n > 0 {
        lemma_listed_prefix(a, b, (n - 1) as nat);
    }
}

/// Models are taken over one by one, in their order: one more is written under its id, with
/// its other fields, or makes no difference where it has none.
pub proof fn law_models_one_by_one(x: Seq<Tree>, t: Tree, id: Seq<char>)
    ensures
        ({
            let before = models_collected(x, x.len());
            let after = models_collected(x.push(t), x.len() + 1);
            &&& models_collected(Seq::empty(), 0).len() == 0
            &&& is_model(t, id) ==> after == with_key(
                before,
                Tree::Text(id),
                Tree::Mapping(without_key(t->Mapping_0, Tree::Text("id"@))),
            )
            &&& (forall|n: Seq<char>| !(#[trigger] is_model(t, n))) ==> after == before
        }),
{
    lemma_models_prefix(x, x.push(t), x.len());
    assert(x.push(t)[x.len() as int] == t);
    if let Some(s) = text_field(t, "id"@) {
        lemma_blank(s);
        if !is_blank(s) && t is Mapping {
            assert(is_model(t, trimmed(s)));
        }
    }
}

proof fn lemma_models_prefix(a: Seq<Tree>, b: Seq<Tree>, n: nat)
    requires
        n <= a.len() <= b.len(),
        forall|i: int| 0 <= i < a.len() ==> a[i] == b[i],
    ensures
        models_collected(a, n) == models_collected(b, n),
    decreases n,
{
    if n > 0 {
        lemma_models_prefix(a, b, (n - 1) as nat);
    }
}

/// The error for a file that cannot be read names it, and ends with the reader's message;
/// the one for a key that is refused names the key, in both languages.
pub proof fn law_errors(path: Seq<char>, raw: Seq<char>, key: Seq<char>)
    ensures
        !is_blank(raw) ==> {
            &&& json_parsed(raw) matches Err(e) ==> object_of(path, raw) == Err::<Entries, ErrorView>(
                ErrorView::Config("Failed to parse zcode config "@ + path + " as JSON: "@ + e),
            )
            &&& (json_parsed(raw) matches Ok(t) && !(t is Mapping)) ==> object_of(path, raw) == Err::<
                Entries,
                ErrorView,
            >(ErrorView::Config("zcode config "@ + path + " top level must be a JSON object"@))
        },
        bad_key(key) matches ErrorView::Localized { key: what, zh, en } && {
            let a = "provider key '"@ + key;
            let b = "Invalid provider key '"@ + key;
            &&& what == "provider.zcode.invalidProviderKey"@
            &&& a.len() <= zh.len() && zh.take(a.len() as int) == a
            &&& b.len() <= en.len() && en.take(b.len() as int) == b
        },
{
    if let ErrorView::Localized { key: what, zh, en } = bad_key(key) {
        let a = "provider key '"@ + key;
        let b = "Invalid provider key '"@ + key;
        assert(zh.take(a.len() as int) =~= a);
        assert(en.take(b.len() as int) =~= b);
    }
}

/// A snippet that holds nothing counts as applied, and changes nothing, whatever the file
/// holds; one that cannot be read is an error, and so is a file that cannot be read where a
/// snippet is to be merged into it or taken out.
pub proof fn law_snippet_read_first(path: Seq<char>, raw: Seq<char>, snippet: Seq<char>)
    ensures
        match snippet_of(snippet) {
            Ok(m) => if m.len() == 0 {
                &&& snippet_held(path, raw, snippet)
                &&& snippet_applying(path, raw, snippet) == Ok::<PlanView, ErrorView>(
                    PlanView::Keep,
                )
                &&& snippet_removing(path, raw, snippet) == Ok::<PlanView, ErrorView>(
                    PlanView::Keep,
                )
            } else {
                object_of(path, raw) matches Err(e) ==> {
                    &&& !snippet_held(path, raw, snippet)
                    &&& snippet_applying(path, raw, snippet) == Err::<PlanView, ErrorView>(e)
                    &&& snippet_removing(path, raw, snippet) == Err::<PlanView, ErrorView>(e)
                }
            },
            Err(e) => {
                &&& !snippet_held(path, raw, snippet)
                &&& snippet_applying(path, raw, snippet) == Err::<PlanView, ErrorView>(e)
                &&& snippet_removing(path, raw, snippet) == Err::<PlanView, ErrorView>(e)
            },
        },
{
}

/// A file that cannot be read is an error where a provider is to be removed.
pub proof fn law_remove_unread(path: Seq<char>, raw: Seq<char>, key: Seq<char>)
    ensures
        object_of(path, raw) matches Err(e) ==> provider_removed(path, raw, key) == Err::<
            PlanView,
            ErrorView,
        >(e),
{
}

} // verus!
