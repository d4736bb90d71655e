//! Parts of the description of an MCP server.

use vstd::prelude::*;

use crate::text::{blank, is_blank, trim_text, trimmed_text};
use crate::tree::{
    distinct_keys, field, is_json, json_shaped, lemma_same_text, lemma_with_key, lookup, text_field,
    well_formed, with_key, Entries, Tree,
};
use crate::value::{lemma_list_view, lemma_mapping_view, Datum, Table};

verus! {

/// A list that is not empty.
pub open spec fn full_list(t: Tree, name: Seq<char>) -> Option<Tree> {
    match field(t, name) {
        Some(Tree::List(x)) => if x.len() > 0 {
            Some(Tree::List(x))
        } else {
            None
        },
        _ => None,
    }
}

/// A mapping that is not empty.
pub open spec fn full_mapping(t: Tree, name: Seq<char>) -> Option<Tree> {
    match field(t, name) {
        Some(Tree::Mapping(m)) => if m.len() > 0 {
            Some(Tree::Mapping(m))
        } else {
            None
        },
        _ => None,
    }
}

/// A text that is not blank.
pub open spec fn full_text(t: Tree, name: Seq<char>) -> Option<Tree> {
    match text_field(t, name) {
        Some(s) => if !is_blank(s) {
            Some(Tree::Text(s))
        } else {
            None
        },
        None => None,
    }
}

/// A text that is not blank, trimmed.
pub open spec fn trimmed_field(t: Tree, name: Seq<char>) -> Option<Seq<char>> {
    match text_field(t, name) {
        Some(s) => trimmed_text(s),
        None => None,
    }
}

/// `m` with a value under a name, where there is one.
pub open spec fn with_some(m: Entries, name: Seq<char>, v: Option<Tree>) -> Entries {
    match v {
        Some(v) => with_key(m, Tree::Text(name), v),
        None => m,
    }
}

/// A value is found under its name; the other names are not concerned.
pub proof fn lemma_with_some(m: Entries, name: Seq<char>, v: Option<Tree>)
    requires
        distinct_keys(m),
        lookup(m, Tree::Text(name)) is None,
    ensures
        distinct_keys(with_some(m, name, v)),
        lookup(with_some(m, name, v), Tree::Text(name)) == v,
        forall|other: Seq<char>|
            other != name ==> #[trigger] lookup(with_some(m, name, v), Tree::Text(other)) == lookup(
                m,
                Tree::Text(other),
            ),
{
    broadcast use lemma_same_text;

    if let Some(v) = v {
        lemma_with_key(m, Tree::Text(name), v);
    }
}

/// The content of a document, where there is one.
pub open spec fn optional_tree(v: Option<Datum>) -> Option<Tree> {
    match v {
        Some(v) => Some(v@),
        None => None,
    }
}

/// A list that is not empty.
pub fn list_part(v: &Datum, name: &str) -> (r: Option<Datum>)
    requires
        is_json(v@),
    ensures
        optional_tree(r) == full_list(v@, name@),
        r matches Some(x) ==> is_json(x@),
{
    broadcast use lemma_list_view;
    match v.get(name) {
        Some(Datum::List(x)) => if x.len() > 0 {
            match v.get(name) {
                Some(part) => Some(part.clone()),
                None => None,
            }
        } else {
            None
        },
        _ => None,
    }
}

/// A mapping that is not empty.
pub fn mapping_part(v: &Datum, name: &str) -> (r: Option<Datum>)
    requires
        is_json(v@),
    ensures
        optional_tree(r) == full_mapping(v@, name@),
        r matches Some(x) ==> is_json(x@),
{
    broadcast use lemma_mapping_view;
    match v.get(name) {
        Some(Datum::Mapping(m)) => if m.len() > 0 {
            Some(Datum::Mapping(m.clone()))
        } else {
            None
        },
        _ => None,
    }
}

/// A text that is not blank.
pub fn text_part(v: &Datum, name: &str) -> (r: Option<Datum>)
    requires
        is_json(v@),
    ensures
        optional_tree(r) == full_text(v@, name@),
        r matches Some(x) ==> is_json(x@),
{
    match v.get_str(name) {
        Some(s) => if !blank(s) {
            Some(Datum::text(s))
        } else {
            None
        },
        None => None,
    }
}

/// A text that is not blank, trimmed.
pub fn trimmed_part<'a>(v: &'a Datum, name: &str) -> (r: Option<&'a str>)
    requires
        well_formed(v@),
    ensures
        match r {
            Some(s) => trimmed_field(v@, name@) == Some(s@),
            None => trimmed_field(v@, name@) is None,
        },
{
    match v.get_str(name) {
        Some(s) => trim_text(s),
        None => None,
    }
}

/// Writes a value under a name, where there is one.
pub fn insert_some(m: &mut Table, name: &str, v: Option<Datum>)
    requires
        well_formed(Tree::Mapping(old(m)@)),
        v matches Some(x) ==> well_formed(x@),
    ensures
        final(m)@ == with_some(old(m)@, name@, optional_tree(v)),
        well_formed(Tree::Mapping(final(m)@)),
        json_shaped(Tree::Mapping(old(m)@)) && (v matches Some(x) ==> json_shaped(x@))
            ==> json_shaped(Tree::Mapping(final(m)@)),
{
    if let Some(v) = v {
        m.insert(name, v);
    }
}

} // verus!
