//! Reading and writing YAML.

use vstd::prelude::*;

use crate::json::{from_json, json_tree, text_result};
use crate::numeric::{Numeric, NumericView};
use crate::text::is_blank;
use crate::tree::{
    distinct_keys, is_json, is_plain, is_storable, lemma_entry_well_formed, lemma_item_well_formed,
    lemma_plain_storable, well_formed, Tree,
};
use crate::value::{items_view, lemma_list_view, lemma_mapping_view, Datum, Table};

verus! {

// ----------------------------------------------------------------------------
// serde_yaml
// ----------------------------------------------------------------------------

/// `serde_yaml::Value`.
#[verifier::external_type_specification]
#[verifier::external_body]
pub struct ExYamlValue(serde_yaml::Value);

/// The document that a `serde_yaml::Value` holds.
pub uninterp spec fn yaml_tree(v: serde_yaml::Value) -> Tree;

/// The number that a `serde_yaml::Number` holds.
pub uninterp spec fn yaml_number(n: serde_yaml::Number) -> NumericView;

/// What `serde_yaml::from_str` makes of a text: a document, or the message of the error.
pub uninterp spec fn yaml_parsed(text: Seq<char>) -> Result<Tree, Seq<char>>;

/// What `serde_yaml::from_str` makes of a text where a JSON document is asked
/// for, or the message of the error.
pub uninterp spec fn yaml_parsed_as_json(text: Seq<char>) -> Result<Tree, Seq<char>>;

/// What `serde_yaml::to_string` makes of a document, or the message of the error.
pub uninterp spec fn yaml_written(t: Tree) -> Result<Seq<char>, Seq<char>>;

/// One level of a `serde_yaml::Value`.
pub enum YamlNode {
    Null,
    Bool(bool),
    Number(serde_yaml::Number),
    Text(String),
    List(Vec<serde_yaml::Value>),
    Mapping(Vec<(serde_yaml::Value, serde_yaml::Value)>),
    Tagged(String, serde_yaml::Value),
}

/// The document of a [`YamlNode`].
pub open spec fn yaml_node_tree(n: YamlNode) -> Tree {
    match n {
        YamlNode::Null => Tree::Null,
        YamlNode::Bool(b) => Tree::Bool(b),
        YamlNode::Number(x) => Tree::Number(yaml_number(x)),
        YamlNode::Text(s) => Tree::Text(s@),
        YamlNode::List(x) => Tree::List(Seq::new(x@.len(), |i: int| yaml_tree(x@[i]))),
        YamlNode::Mapping(m) => Tree::Mapping(
            Seq::new(m@.len(), |i: int| (yaml_tree(m@[i].0), yaml_tree(m@[i].1))),
        ),
        YamlNode::Tagged(tag, x) => Tree::Tagged(tag@, Box::new(yaml_tree(x))),
    }
}

/// Takes a `serde_yaml::Value` apart by its variant. A mapping hands its entries
/// out in order, and holds no two equal keys. A tag is displayed as an
/// exclamation mark with the tag's name, which is not empty, behind it.
#[verifier::external_body]
fn open_yaml(v: serde_yaml::Value) -> (r: YamlNode)
    ensures
        yaml_tree(v) == yaml_node_tree(r),
        r is Mapping ==> distinct_keys(yaml_node_tree(r)->Mapping_0),
        r matches YamlNode::Tagged(tag, _) ==> tag@.len() >= 2 && tag@[0] == '!',
{
    match v {
        serde_yaml::Value::Null => YamlNode::Null,
        serde_yaml::Value::Bool(b) => YamlNode::Bool(b),
        serde_yaml::Value::Number(n) => YamlNode::Number(n),
        serde_yaml::Value::String(s) => YamlNode::Text(s),
        serde_yaml::Value::Sequence(x) => YamlNode::List(x),
        serde_yaml::Value::Mapping(m) => YamlNode::Mapping(m.into_iter().collect()),
        serde_yaml::Value::Tagged(t) => YamlNode::Tagged(t.tag.to_string(), t.value),
    }
}

/// Puts a `serde_yaml::Value` together. `serde_yaml::Mapping` takes the entries in
/// order; no two keys may be equal, since the later entry would replace the
/// earlier. `serde_yaml::value::Tag::new` takes a tag with its exclamation mark.
#[verifier::external_body]
fn close_yaml(n: YamlNode) -> (r: serde_yaml::Value)
    requires
        n is Mapping ==> distinct_keys(yaml_node_tree(n)->Mapping_0),
        n matches YamlNode::Tagged(tag, _) ==> tag@.len() >= 2 && tag@[0] == '!',
    ensures
        yaml_tree(r) == yaml_node_tree(n),
{
    match n {
        YamlNode::Null => serde_yaml::Value::Null,
        YamlNode::Bool(b) => serde_yaml::Value::Bool(b),
        YamlNode::Number(n) => serde_yaml::Value::Number(n),
        YamlNode::Text(s) => serde_yaml::Value::String(s),
        YamlNode::List(x) => serde_yaml::Value::Sequence(x),
        YamlNode::Mapping(m) => serde_yaml::Value::Mapping(m.into_iter().collect()),
        YamlNode::Tagged(t, value) => serde_yaml::Value::Tagged(Box::new(
            serde_yaml::value::TaggedValue { tag: serde_yaml::value::Tag::new(t), value },
        )),
    }
}

/// `serde_yaml::Number::as_u64` and `as_i64`: a number is a `u64`, else a negative
/// `i64`, else the float that `as_f64` returns.
#[verifier::external_body]
fn open_yaml_number(n: serde_yaml::Number) -> (r: Numeric)
    ensures
        r@ == yaml_number(n),
        r@ matches NumericView::NegInt(i) ==> i < 0,
{
    match (n.as_u64(), n.as_i64()) {
        (Some(u), _) => Numeric::PosInt(u),
        (_, Some(i)) => Numeric::NegInt(i),
        _ => Numeric::Float(n),
    }
}

/// `serde_yaml::Number::from` an integer, or from the float that `as_f64` returns.
#[verifier::external_body]
fn close_yaml_number(n: Numeric) -> (r: serde_yaml::Number)
    requires
        n@ matches NumericView::NegInt(i) ==> i < 0,
    ensures
        yaml_number(r) == n@,
{
    match n {
        Numeric::PosInt(u) => serde_yaml::Number::from(u),
        Numeric::NegInt(i) => serde_yaml::Number::from(i),
        Numeric::Float(f) => serde_yaml::Number::from(f.as_f64().unwrap()),
    }
}

/// `serde_yaml::from_str` on a text; an error is known by its message.
#[verifier::external_body]
fn read_yaml(text: &str) -> (r: Result<serde_yaml::Value, String>)
    ensures
        match r {
            Ok(v) => yaml_parsed(text@) == Ok::<Tree, Seq<char>>(yaml_tree(v)),
            Err(e) => yaml_parsed(text@) == Err::<Tree, Seq<char>>(e@),
        },
{
    serde_yaml::from_str(text).map_err(|e| e.to_string())
}

/// `serde_yaml::from_str` on a text, into a `serde_json::Value`; an error is known
/// by its message.
#[verifier::external_body]
fn read_yaml_as_json(text: &str) -> (r: Result<serde_json::Value, String>)
    ensures
        match r {
            Ok(v) => yaml_parsed_as_json(text@) == Ok::<Tree, Seq<char>>(json_tree(v)),
            Err(e) => yaml_parsed_as_json(text@) == Err::<Tree, Seq<char>>(e@),
        },
{
    serde_yaml::from_str(text).map_err(|e| e.to_string())
}

/// The declaration, in front of a document, that tags with two exclamation marks are
/// ordinary tags.
pub open spec fn tag_header() -> Seq<char> {
    "%TAG !! !!!\n---\n"@
}

/// A text is read as a document. Where that is a list or a mapping, the text is not
/// blank, and is read as the document behind a declaration of tags too.
pub open spec fn reads_back(text: Seq<char>, t: Tree) -> bool {
    &&& yaml_parsed(text) == Ok::<Tree, Seq<char>>(t)
    &&& t is List || t is Mapping ==> !is_blank(text) && yaml_parsed(tag_header() + text) == Ok::<
        Tree,
        Seq<char>,
    >(t)
}

/// `serde_yaml::to_string` on a document; an error is known by its message.
///
/// `serde_yaml::from_str` reads the text as the same document: what could be taken for
/// something else than a text is quoted, and what cannot stand in a text is escaped. The
/// text of a list or a mapping is not blank, and is read as the same document behind a
/// declaration of tags too. Left out are tags with two exclamation marks or with one of a
/// few characters, a tag on a tagged value, a mapping whose only key has a tag or is a
/// mapping of one entry, texts of tens of millions of characters, and too many levels.
/// Where the document has no tags, its keys are texts and its numbers are finite,
/// `serde_yaml::from_str` reads the text as the same document also into a
/// `serde_json::Value`.
#[verifier::external_body]
fn print_yaml(v: &serde_yaml::Value) -> (r: Result<String, String>)
    ensures
        text_result(r) == yaml_written(yaml_tree(*v)),
        match r {
            Ok(text) => is_storable(yaml_tree(*v)) ==> {
                &&& reads_back(text@, yaml_tree(*v))
                &&& is_plain(yaml_tree(*v)) ==> yaml_parsed_as_json(text@) == Ok::<Tree, Seq<char>>(
                    yaml_tree(*v),
                )
            },
            Err(_) => !is_storable(yaml_tree(*v)),
        },
{
    serde_yaml::to_string(v).map_err(|e| e.to_string())
}

// ----------------------------------------------------------------------------
// Documents
// ----------------------------------------------------------------------------

/// The document that a `serde_yaml::Value` holds.
fn from_yaml(v: serde_yaml::Value) -> (r: Datum)
    ensures
        r@ == yaml_tree(v),
        well_formed(r@),
    decreases yaml_tree(v),
{
    broadcast use lemma_list_view, lemma_mapping_view;
    let ghost tree = yaml_tree(v);
    match open_yaml(v) {
        YamlNode::Null => Datum::Null,
        YamlNode::Bool(b) => Datum::Bool(b),
        YamlNode::Number(n) => Datum::Number(open_yaml_number(n)),
        YamlNode::Text(s) => Datum::Text(s),
        YamlNode::List(items) => {
            let ghost all = items@;
            let mut out: Vec<Datum> = Vec::new();
            for item in it: items
                invariant
                    it.seq() == all,
                    tree == yaml_tree(v),
                    tree == Tree::List(Seq::new(all.len(), |i: int| yaml_tree(all[i]))),
                    out@.len() == it.index(),
                    forall|j: int|
                        0 <= j < it.index() ==> (#[trigger] out@[j])@ == yaml_tree(all[j])
                            && well_formed(out@[j]@),
            {
                assert(decreases_to!(tree => tree->List_0));
                assert(decreases_to!(tree->List_0 => tree->List_0[it.index()]));
                assert(yaml_tree(item) == tree->List_0[it.index()]);
                out.push(from_yaml(item));
            }
            proof {
                assert(items_view(out@) =~= tree->List_0);
                assert forall|j: int| 0 <= j < tree->List_0.len() implies well_formed(
                    #[trigger] tree->List_0[j],
                ) by {
                    assert(well_formed(out@[j]@));
                }
            }
            Datum::List(out)
        },
        YamlNode::Mapping(entries) => {
            let ghost all = entries@;
            let mut out: Vec<(Datum, Datum)> = Vec::new();
            for entry in it: entries
                invariant
                    it.seq() == all,
                    tree == yaml_tree(v),
                    tree == Tree::Mapping(
                        Seq::new(all.len(), |i: int| (yaml_tree(all[i].0), yaml_tree(all[i].1))),
                    ),
                    out@.len() == it.index(),
                    forall|j: int|
                        0 <= j < it.index() ==> (#[trigger] out@[j]).0@ == yaml_tree(all[j].0)
                            && out@[j].1@ == yaml_tree(all[j].1) && well_formed(out@[j].0@)
                            && well_formed(out@[j].1@),
            {
                assert(decreases_to!(tree => tree->Mapping_0));
                assert(decreases_to!(tree->Mapping_0 => tree->Mapping_0[it.index()]));
                assert(decreases_to!(tree->Mapping_0[it.index()] => tree->Mapping_0[it.index()].0));
                assert(decreases_to!(tree->Mapping_0[it.index()] => tree->Mapping_0[it.index()].1));
                let (key, value) = entry;
                assert(yaml_tree(key) == tree->Mapping_0[it.index()].0);
                assert(yaml_tree(value) == tree->Mapping_0[it.index()].1);
                out.push((from_yaml(key), from_yaml(value)));
            }
            let table = Table { entries: out };
            proof {
                assert(table@ =~= tree->Mapping_0);
                assert forall|j: int| 0 <= j < tree->Mapping_0.len() implies well_formed(
                    (#[trigger] tree->Mapping_0[j]).0,
                ) && well_formed(tree->Mapping_0[j].1) by {
                    assert(well_formed(out@[j].1@));
                }
            }
            Datum::Mapping(table)
        },
        YamlNode::Tagged(tag, inner) => {
            assert(decreases_to!(tree => *tree->Tagged_1));
            Datum::Tagged(tag, Box::new(from_yaml(inner)))
        },
    }
}

/// A `serde_yaml::Value` that holds the document.
fn to_yaml(v: &Datum) -> (r: serde_yaml::Value)
    requires
        well_formed(v@),
    ensures
        yaml_tree(r) == v@,
    decreases v,
{
    broadcast use lemma_list_view, lemma_mapping_view;
    let node = match v {
        Datum::Null => YamlNode::Null,
        Datum::Bool(b) => YamlNode::Bool(*b),
        Datum::Number(n) => YamlNode::Number(close_yaml_number(n.clone())),
        Datum::Text(s) => YamlNode::Text(s.clone()),
        Datum::List(items) => {
            let mut out: Vec<serde_yaml::Value> = Vec::new();
            let mut i: usize = 0;
            while i < items.len()
                invariant
                    i <= items@.len(),
                    *v == Datum::List(*items),
                    well_formed(Tree::List(items_view(items@))),
                    out@.len() == i,
                    forall|j: int| 0 <= j < i ==> yaml_tree(#[trigger] out@[j]) == items@[j]@,
                decreases items@.len() - i,
            {
                assert(decreases_to!(*v => v->List_0@));
                assert(decreases_to!(v->List_0@ => v->List_0@[i as int]));
                proof {
                    lemma_item_well_formed(items_view(items@), i as int);
                }
                out.push(to_yaml(&items[i]));
                i += 1;
            }
            let node = YamlNode::List(out);
            assert(yaml_node_tree(node)->List_0 =~= items_view(items@));
            node
        },
        Datum::Mapping(table) => {
            let mut out: Vec<(serde_yaml::Value, serde_yaml::Value)> = Vec::new();
            let mut i: usize = 0;
            while i < table.entries.len()
                invariant
                    i <= table.entries@.len(),
                    *v == Datum::Mapping(*table),
                    well_formed(Tree::Mapping(table@)),
                    out@.len() == i,
                    forall|j: int|
                        0 <= j < i ==> yaml_tree((#[trigger] out@[j]).0) == table.entries@[j].0@
                            && yaml_tree(out@[j].1) == table.entries@[j].1@,
                decreases table.entries@.len() - i,
            {
                assert(decreases_to!(*v => v->Mapping_0.entries@));
                assert(decreases_to!(v->Mapping_0.entries@ => v->Mapping_0.entries@[i as int]));
                assert(decreases_to!(v->Mapping_0.entries@[i as int] => v->Mapping_0.entries@[i as int].0));
                assert(decreases_to!(v->Mapping_0.entries@[i as int] => v->Mapping_0.entries@[i as int].1));
                proof {
                    lemma_entry_well_formed(table@, i as int);
                }
                out.push((to_yaml(&table.entries[i].0), to_yaml(&table.entries[i].1)));
                i += 1;
            }
            let node = YamlNode::Mapping(out);
            assert(yaml_node_tree(node)->Mapping_0 =~= table@);
            node
        },
        Datum::Tagged(tag, inner) => YamlNode::Tagged(tag.clone(), to_yaml(&**inner)),
    };
    close_yaml(node)
}

/// Reads a YAML text.
pub fn parse_yaml(text: &str) -> (r: Result<Datum, String>)
    ensures
        match r {
            Ok(v) => yaml_parsed(text@) == Ok::<Tree, Seq<char>>(v@) && well_formed(v@),
            Err(e) => yaml_parsed(text@) == Err::<Tree, Seq<char>>(e@),
        },
{
    match read_yaml(text) {
        Ok(v) => Ok(from_yaml(v)),
        Err(e) => Err(e),
    }
}

/// Reads a YAML text as a JSON document.
pub fn parse_yaml_as_json(text: &str) -> (r: Result<Datum, String>)
    ensures
        match r {
            Ok(v) => yaml_parsed_as_json(text@) == Ok::<Tree, Seq<char>>(v@) && is_json(v@),
            Err(e) => yaml_parsed_as_json(text@) == Err::<Tree, Seq<char>>(e@),
        },
{
    match read_yaml_as_json(text) {
        Ok(v) => Ok(from_json(v)),
        Err(e) => Err(e),
    }
}

/// Written as YAML, a document is read as it was.
pub open spec fn yaml_keeps(t: Tree) -> bool {
    yaml_written(t) matches Ok(text) && reads_back(text, t)
}

/// Written as YAML, a document is read as it was, as JSON.
pub open spec fn yaml_is_json(t: Tree) -> bool {
    yaml_written(t) matches Ok(text) && yaml_parsed_as_json(text) == Ok::<Tree, Seq<char>>(t)
}

/// Writes a document as YAML.
pub fn write_yaml(v: &Datum) -> (r: Result<String, String>)
    requires
        well_formed(v@),
    ensures
        text_result(r) == yaml_written(v@),
        is_storable(v@) ==> yaml_keeps(v@),
        is_plain(v@) ==> yaml_is_json(v@),
{
    proof {
        if is_plain(v@) {
            lemma_plain_storable(v@, 128);
        }
    }
    print_yaml(&to_yaml(v))
}

} // verus!
