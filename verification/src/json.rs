//! Reading and writing JSON.

use vstd::prelude::*;

use crate::numeric::{is_finite, Numeric, NumericView};
use crate::text::is_blank;
use crate::tree::{
    distinct_keys, is_exact, is_flow, is_json, json_shaped, lemma_entry_well_formed,
    lemma_item_well_formed, well_formed, Tree,
};
use crate::value::{items_view, lemma_list_view, lemma_mapping_view, Datum, Table};
use crate::yaml::yaml_parsed;

verus! {

// ----------------------------------------------------------------------------
// serde_json
// ----------------------------------------------------------------------------

/// `serde_json::Value`.
#[verifier::external_type_specification]
#[verifier::external_body]
pub struct ExJsonValue(serde_json::Value);

/// `serde_json::Number`.
#[verifier::external_type_specification]
#[verifier::external_body]
pub struct ExJsonNumber(serde_json::Number);

/// The document that a `serde_json::Value` holds.
pub uninterp spec fn json_tree(v: serde_json::Value) -> Tree;

/// The number that a `serde_json::Number` holds.
pub uninterp spec fn json_number(n: serde_json::Number) -> NumericView;

/// What `serde_json::from_str` makes of a text: a document, or the message of the error.
pub uninterp spec fn json_parsed(text: Seq<char>) -> Result<Tree, Seq<char>>;

/// What `serde_json::to_string` makes of a document, or the message of the error.
pub uninterp spec fn json_compact(t: Tree) -> Result<Seq<char>, Seq<char>>;

/// What `serde_json::to_string_pretty` makes of a document, or the message of the error.
pub uninterp spec fn json_pretty(t: Tree) -> Result<Seq<char>, Seq<char>>;

/// One level of a `serde_json::Value`.
pub enum JsonNode {
    Null,
    Bool(bool),
    Number(serde_json::Number),
    Text(String),
    List(Vec<serde_json::Value>),
    Mapping(Vec<(String, serde_json::Value)>),
}

/// The document of a [`JsonNode`].
pub open spec fn json_node_tree(n: JsonNode) -> Tree {
    match n {
        JsonNode::Null => Tree::Null,
        JsonNode::Bool(b) => Tree::Bool(b),
        JsonNode::Number(x) => Tree::Number(json_number(x)),
        JsonNode::Text(s) => Tree::Text(s@),
        JsonNode::List(x) => Tree::List(Seq::new(x@.len(), |i: int| json_tree(x@[i]))),
        JsonNode::Mapping(m) => Tree::Mapping(
            Seq::new(m@.len(), |i: int| (Tree::Text(m@[i].0@), json_tree(m@[i].1))),
        ),
    }
}

/// Takes a `serde_json::Value` apart by its variant. An object hands its entries
/// out in order, and holds no key twice.
#[verifier::external_body]
fn open_json(v: serde_json::Value) -> (r: JsonNode)
    ensures
        json_tree(v) == json_node_tree(r),
        r is Mapping ==> distinct_keys(json_node_tree(r)->Mapping_0),
{
    match v {
        serde_json::Value::Null => JsonNode::Null,
        serde_json::Value::Bool(b) => JsonNode::Bool(b),
        serde_json::Value::Number(n) => JsonNode::Number(n),
        serde_json::Value::String(s) => JsonNode::Text(s),
        serde_json::Value::Array(x) => JsonNode::List(x),
        serde_json::Value::Object(m) => JsonNode::Mapping(m.into_iter().collect()),
    }
}

/// Puts a `serde_json::Value` together. `serde_json::Map` takes the entries in
/// order; no key may occur twice, since the later entry would replace the earlier.
#[verifier::external_body]
fn close_json(n: JsonNode) -> (r: serde_json::Value)
    requires
        n is Mapping ==> distinct_keys(json_node_tree(n)->Mapping_0),
    ensures
        json_tree(r) == json_node_tree(n),
{
    match n {
        JsonNode::Null => serde_json::Value::Null,
        JsonNode::Bool(b) => serde_json::Value::Bool(b),
        JsonNode::Number(n) => serde_json::Value::Number(n),
        JsonNode::Text(s) => serde_json::Value::String(s),
        JsonNode::List(x) => serde_json::Value::Array(x),
        JsonNode::Mapping(m) => serde_json::Value::Object(m.into_iter().collect()),
    }
}

/// `serde_json::Number::as_u64`, `as_i64` and `as_f64`: a number is a `u64`, else
/// a negative `i64`, else a finite float, which `serde_yaml::Number::from` keeps.
#[verifier::external_body]
fn open_json_number(n: serde_json::Number) -> (r: Numeric)
    ensures
        r@ == json_number(n),
        r@ matches NumericView::NegInt(i) ==> i < 0,
        r@ matches NumericView::Float(bits) ==> is_finite(bits),
{
    match (n.as_u64(), n.as_i64()) {
        (Some(u), _) => Numeric::PosInt(u),
        (_, Some(i)) => Numeric::NegInt(i),
        _ => Numeric::Float(serde_yaml::Number::from(n.as_f64().unwrap())),
    }
}

/// `serde_json::Number::from` an integer, or `serde_json::Number::from_f64`, which
/// takes every finite float.
#[verifier::external_body]
fn close_json_number(n: Numeric) -> (r: serde_json::Number)
    requires
        n@ matches NumericView::NegInt(i) ==> i < 0,
        n@ matches NumericView::Float(bits) ==> is_finite(bits),
    ensures
        json_number(r) == n@,
{
    match n {
        Numeric::PosInt(u) => serde_json::Number::from(u),
        Numeric::NegInt(i) => serde_json::Number::from(i),
        Numeric::Float(f) => serde_json::Number::from_f64(f.as_f64().unwrap()).unwrap(),
    }
}

/// `serde_json::from_str` on a text; an error is known by its message.
#[verifier::external_body]
fn read_json(text: &str) -> (r: Result<serde_json::Value, String>)
    ensures
        match r {
            Ok(v) => json_parsed(text@) == Ok::<Tree, Seq<char>>(json_tree(v)),
            Err(e) => json_parsed(text@) == Err::<Tree, Seq<char>>(e@),
        },
{
    serde_json::from_str(text).map_err(|e| e.to_string())
}

/// `serde_json::to_string` on a document; an error is known by its message.
///
/// The text is in the flow style of YAML: `serde_yaml::from_str` reads it as the same
/// document. Left out are the characters that JSON does not escape and YAML refuses or
/// takes for line breaks, keys of more than 1024 bytes with their quotes, and too many
/// levels.
#[verifier::external_body]
fn print_json(v: &serde_json::Value) -> (r: Result<String, String>)
    ensures
        text_result(r) == json_compact(json_tree(*v)),
        match r {
            Ok(text) => is_flow(json_tree(*v)) ==> yaml_parsed(text@) == Ok::<Tree, Seq<char>>(
                json_tree(*v),
            ),
            Err(_) => !is_flow(json_tree(*v)),
        },
{
    serde_json::to_string(v).map_err(|e| e.to_string())
}

/// `serde_json::to_string_pretty` on a document; an error is known by its message.
///
/// `serde_json::from_str` reads the text, with a line break behind it, as the same
/// document, unless it has floats, which it may round, or too many levels.
#[verifier::external_body]
fn print_json_pretty(v: &serde_json::Value) -> (r: Result<String, String>)
    ensures
        text_result(r) == json_pretty(json_tree(*v)),
        match r {
            Ok(text) => is_exact(json_tree(*v)) ==> !is_blank(text@) && json_parsed(
                text@.push('\n'),
            ) == Ok::<Tree, Seq<char>>(json_tree(*v)),
            Err(_) => !is_exact(json_tree(*v)),
        },
{
    serde_json::to_string_pretty(v).map_err(|e| e.to_string())
}

// ----------------------------------------------------------------------------
// Documents
// ----------------------------------------------------------------------------

/// The characters of a text, or of an error message.
pub open spec fn text_result(r: Result<String, String>) -> Result<Seq<char>, Seq<char>> {
    match r {
        Ok(s) => Ok(s@),
        Err(e) => Err(e@),
    }
}

/// The document that a `serde_json::Value` holds.
pub(crate) fn from_json(v: serde_json::Value) -> (r: Datum)
    ensures
        r@ == json_tree(v),
        is_json(r@),
    decreases json_tree(v),
{
    broadcast use lemma_list_view, lemma_mapping_view;
    let ghost tree = json_tree(v);
    match open_json(v) {
        JsonNode::Null => Datum::Null,
        JsonNode::Bool(b) => Datum::Bool(b),
        JsonNode::Number(n) => Datum::Number(open_json_number(n)),
        JsonNode::Text(s) => Datum::Text(s),
        JsonNode::List(items) => {
            let ghost all = items@;
            let mut out: Vec<Datum> = Vec::new();
            for item in it: items
                invariant
                    it.seq() == all,
                    tree == json_tree(v),
                    tree == Tree::List(Seq::new(all.len(), |i: int| json_tree(all[i]))),
                    out@.len() == it.index(),
                    forall|j: int|
                        0 <= j < it.index() ==> (#[trigger] out@[j])@ == json_tree(all[j]) && is_json(
                            out@[j]@,
                        ),
            {
                assert(decreases_to!(tree => tree->List_0));
                assert(decreases_to!(tree->List_0 => tree->List_0[it.index()]));
                assert(json_tree(item) == tree->List_0[it.index()]);
                out.push(from_json(item));
            }
            proof {
                assert(items_view(out@) =~= tree->List_0);
                assert forall|j: int| 0 <= j < tree->List_0.len() implies well_formed(
                    #[trigger] tree->List_0[j],
                ) && json_shaped(tree->List_0[j]) by {
                    assert(is_json(out@[j]@));
                }
            }
            Datum::List(out)
        },
        JsonNode::Mapping(entries) => {
            let ghost all = entries@;
            let mut out: Vec<(Datum, Datum)> = Vec::new();
            for entry in it: entries
                invariant
                    it.seq() == all,
                    tree == json_tree(v),
                    tree == Tree::Mapping(
                        Seq::new(all.len(), |i: int| (Tree::Text(all[i].0@), json_tree(all[i].1))),
                    ),
                    out@.len() == it.index(),
                    forall|j: int|
                        0 <= j < it.index() ==> (#[trigger] out@[j]).0@ == Tree::Text(all[j].0@)
                            && out@[j].1@ == json_tree(all[j].1) && is_json(out@[j].1@),
            {
                assert(decreases_to!(tree => tree->Mapping_0));
                assert(decreases_to!(tree->Mapping_0 => tree->Mapping_0[it.index()]));
                assert(decreases_to!(tree->Mapping_0[it.index()] => tree->Mapping_0[it.index()].1));
                let (key, value) = entry;
                assert(json_tree(value) == tree->Mapping_0[it.index()].1);
                out.push((Datum::Text(key), from_json(value)));
            }
            let table = Table { entries: out };
            proof {
                assert(table@ =~= tree->Mapping_0);
                assert forall|j: int| 0 <= j < tree->Mapping_0.len() implies (
                #[trigger] tree->Mapping_0[j]).0 is Text && well_formed(tree->Mapping_0[j].0) && is_json(
                    tree->Mapping_0[j].1,
                ) by {
                    assert(is_json(out@[j].1@));
                }
            }
            Datum::Mapping(table)
        },
    }
}

/// A `serde_json::Value` that holds the document.
pub(crate) fn to_json(v: &Datum) -> (r: serde_json::Value)
    requires
        is_json(v@),
    ensures
        json_tree(r) == v@,
    decreases v,
{
    broadcast use lemma_list_view, lemma_mapping_view;
    let node = match v {
        Datum::Null => JsonNode::Null,
        Datum::Bool(b) => JsonNode::Bool(*b),
        Datum::Number(n) => JsonNode::Number(close_json_number(n.clone())),
        Datum::Text(s) => JsonNode::Text(s.clone()),
        Datum::List(items) => {
            let mut out: Vec<serde_json::Value> = Vec::new();
            let mut i: usize = 0;
            while i < items.len()
                invariant
                    i <= items@.len(),
                    *v == Datum::List(*items),
                    well_formed(Tree::List(items_view(items@))),
                    json_shaped(Tree::List(items_view(items@))),
                    out@.len() == i,
                    forall|j: int| 0 <= j < i ==> json_tree(#[trigger] out@[j]) == items@[j]@,
                decreases items@.len() - i,
            {
                assert(decreases_to!(*v => v->List_0@));
                assert(decreases_to!(v->List_0@ => v->List_0@[i as int]));
                proof {
                    lemma_item_well_formed(items_view(items@), i as int);
                }
                out.push(to_json(&items[i]));
                i += 1;
            }
            let node = JsonNode::List(out);
            assert(json_node_tree(node)->List_0 =~= items_view(items@));
            node
        },
        Datum::Mapping(table) => {
            let mut out: Vec<(String, serde_json::Value)> = Vec::new();
            let mut i: usize = 0;
            while i < table.entries.len()
                invariant
                    i <= table.entries@.len(),
                    *v == Datum::Mapping(*table),
                    well_formed(Tree::Mapping(table@)),
                    json_shaped(Tree::Mapping(table@)),
                    out@.len() == i,
                    forall|j: int|
                        0 <= j < i ==> Tree::Text((#[trigger] out@[j]).0@) == table.entries@[j].0@
                            && json_tree(out@[j].1) == table.entries@[j].1@,
                decreases table.entries@.len() - i,
            {
                assert(decreases_to!(*v => v->Mapping_0.entries@));
                assert(decreases_to!(v->Mapping_0.entries@ => v->Mapping_0.entries@[i as int]));
                assert(decreases_to!(v->Mapping_0.entries@[i as int] => v->Mapping_0.entries@[i as int].1));
                proof {
                    lemma_entry_well_formed(table@, i as int);
                    assert(table@[i as int].0 == table.entries@[i as int].0@);
                }
                if let Datum::Text(key) = &table.entries[i].0 {
                    out.push((key.clone(), to_json(&table.entries[i].1)));
                }
                i += 1;
            }
            let node = JsonNode::Mapping(out);
            assert(json_node_tree(node)->Mapping_0 =~= table@);
            node
        },
        Datum::Tagged(_, _) => JsonNode::Null,
    };
    close_json(node)
}

/// Reads a JSON text.
pub fn parse_json(text: &str) -> (r: Result<Datum, String>)
    ensures
        match r {
            Ok(v) => json_parsed(text@) == Ok::<Tree, Seq<char>>(v@) && is_json(v@),
            Err(e) => json_parsed(text@) == Err::<Tree, Seq<char>>(e@),
        },
{
    match read_json(text) {
        Ok(v) => Ok(from_json(v)),
        Err(e) => Err(e),
    }
}

/// On one line of JSON, a document is YAML that is read as the same document.
pub open spec fn json_is_yaml(t: Tree) -> bool {
    json_compact(t) matches Ok(text) && yaml_parsed(text) == Ok::<Tree, Seq<char>>(t)
}

/// Written as indented JSON, with a line break behind it, a document is read as it was.
pub open spec fn json_keeps(t: Tree) -> bool {
    json_pretty(t) matches Ok(text) && !is_blank(text) && json_parsed(text.push('\n')) == Ok::<
        Tree,
        Seq<char>,
    >(t)
}

/// Writes a document as JSON on one line.
pub fn write_json(v: &Datum) -> (r: Result<String, String>)
    requires
        is_json(v@),
    ensures
        text_result(r) == json_compact(v@),
        is_flow(v@) ==> json_is_yaml(v@),
{
    print_json(&to_json(v))
}

/// Writes a document as indented JSON.
pub fn write_json_pretty(v: &Datum) -> (r: Result<String, String>)
    requires
        is_json(v@),
    ensures
        text_result(r) == json_pretty(v@),
        is_exact(v@) ==> json_keeps(v@),
{
    print_json_pretty(&to_json(v))
}

/// A JSON document.
#[derive(Debug)]
pub struct JsonDoc {
    doc: Datum,
}

impl View for JsonDoc {
    type V = Tree;

    closed spec fn view(&self) -> Tree {
        self.doc@
    }
}

impl JsonDoc {
    #[verifier::type_invariant]
    spec fn inv(self) -> bool {
        is_json(self.doc@)
    }

    /// A document that is known to be JSON.
    pub fn new(doc: Datum) -> (r: JsonDoc)
        requires
            is_json(doc@),
        ensures
            r@ == doc@,
    {
        JsonDoc { doc }
    }

    /// The document.
    pub fn get(&self) -> (r: &Datum)
        ensures
            r@ == self@,
            is_json(r@),
    {
        proof {
            use_type_invariant(self);
        }
        &self.doc
    }
}

impl Clone for JsonDoc {
    fn clone(&self) -> (r: Self)
        ensures
            r@ == self@,
    {
        JsonDoc::new(self.get().clone())
    }
}

} // verus!
