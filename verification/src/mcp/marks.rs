//! Tags with two exclamation marks, such as the `!!js` of dsh.
//!
//! The YAML writer knows tags with one mark alone. So a tag with two is written with a
//! word in the place of the second mark, and the mark is put back into the text.

use vstd::prelude::*;

use crate::json::text_result;
use crate::mcp::patch::is_secondary;
use crate::text::{begins_with, chars_of};
use crate::tree::{lemma_entry_well_formed, lemma_item_well_formed, same, well_formed, Tree};
use crate::value::{items_view, lemma_list_view, lemma_mapping_view, Datum, Table};
use crate::yaml::{write_yaml, yaml_written};

verus! {

/// What stands for two marks at the beginning of a tag.
pub open spec fn stand_in() -> Seq<char> {
    "!double-mark-"@
}

/// A tag with what stands for its two marks, where it has two.
pub open spec fn marked_tag(tag: Seq<char>) -> Seq<char> {
    if is_secondary(tag) {
        stand_in() + tag.skip(2)
    } else {
        tag
    }
}

/// A document with what stands for two marks in its tags.
pub open spec fn marked(t: Tree) -> Tree
    decreases t,
{
    match t {
        Tree::List(x) => Tree::List(
            Seq::new(
                x.len(),
                |i: int|
                    if 0 <= i < x.len() {
                        marked(x[i])
                    } else {
                        Tree::Null
                    },
            ),
        ),
        Tree::Mapping(x) => Tree::Mapping(
            Seq::new(
                x.len(),
                |i: int|
                    if 0 <= i < x.len() {
                        (x[i].0, marked(x[i].1))
                    } else {
                        (Tree::Null, Tree::Null)
                    },
            ),
        ),
        Tree::Tagged(tag, x) => Tree::Tagged(marked_tag(tag), Box::new(marked(*x))),
        _ => t,
    }
}

/// A text with two marks wherever something stands for them.
pub open spec fn with_marks(s: Seq<char>) -> Seq<char>
    decreases s.len(),
{
    if s.len() == 0 {
        Seq::empty()
    } else if begins_with(s, stand_in()) && stand_in().len() > 0 {
        "!!"@ + with_marks(s.skip(stand_in().len() as int))
    } else {
        seq![s[0]] + with_marks(s.skip(1))
    }
}

/// What is written for documents, with the marks of their tags.
pub open spec fn marked_text(values: Seq<Tree>) -> Result<Seq<char>, Seq<char>> {
    match yaml_written(marked(Tree::List(values))) {
        Ok(text) => Ok(with_marks(text)),
        Err(e) => Err(e),
    }
}

/// What stands for marks keeps a document well-formed.
proof fn lemma_marked(t: Tree)
    requires
        well_formed(t),
    ensures
        well_formed(marked(t)),
    decreases t,
{
    match t {
        Tree::List(x) => {
            let r = marked(t)->List_0;
            assert forall|i: int| 0 <= i < r.len() implies well_formed(#[trigger] r[i]) by {
                lemma_item_well_formed(x, i);
                lemma_marked(x[i]);
            }
        },
        Tree::Mapping(x) => {
            let r = marked(t)->Mapping_0;
            assert forall|i: int| 0 <= i < r.len() implies (#[trigger] r[i]).0 == x[i].0
                && well_formed(r[i].0) && well_formed(r[i].1) by {
                lemma_entry_well_formed(x, i);
                lemma_marked(x[i].1);
            }
            assert forall|i: int, j: int| 0 <= i < r.len() && 0 <= j < r.len() && i != j implies !same(
                (#[trigger] r[i]).0,
                (#[trigger] r[j]).0,
            ) by {
                assert(!same(x[i].0, x[j].0));
            }
        },
        Tree::Tagged(tag, x) => {
            reveal_strlit("!double-mark-");
            lemma_marked(*x);
        },
        _ => {},
    }
}

/// A tag with what stands for its two marks, where it has two.
fn mark_tag(tag: &String) -> (r: String)
    ensures
        r@ == marked_tag(tag@),
{
    let n: usize = tag.as_str().unicode_len();
    if n >= 2 && tag.as_str().get_char(0) == '!' && tag.as_str().get_char(1) == '!' {
        let mut out = "!double-mark-".to_owned();
        out.append(tag.as_str().substring_char(2, n));
        assert(tag@.subrange(2, n as int) =~= tag@.skip(2));
        out
    } else {
        tag.clone()
    }
}

/// A document with what stands for two marks in its tags.
fn mark(v: &Datum) -> (r: Datum)
    requires
        well_formed(v@),
    ensures
        r@ == marked(v@),
        well_formed(r@),
    decreases v,
{
    broadcast use lemma_list_view, lemma_mapping_view;
    proof {
        lemma_marked(v@);
    }
    match v {
        Datum::Tagged(tag, x) => Datum::Tagged(mark_tag(tag), Box::new(mark(&**x))),
        Datum::List(xs) => {
            let ghost all = marked(v@)->List_0;
            let mut out: Vec<Datum> = Vec::new();
            let mut i: usize = 0;
            while i < xs.len()
                invariant
                    i <= xs@.len(),
                    *v == Datum::List(*xs),
                    well_formed(Tree::List(items_view(xs@))),
                    all == marked(Tree::List(items_view(xs@)))->List_0,
                    out@.len() == i,
                    forall|j: int| 0 <= j < i ==> (#[trigger] out@[j])@ == all[j],
                decreases xs@.len() - i,
            {
                assert(decreases_to!(*v => v->List_0@));
                assert(decreases_to!(v->List_0@ => v->List_0@[i as int]));
                proof {
                    lemma_item_well_formed(items_view(xs@), i as int);
                }
                let item = mark(&xs[i]);
                assert(item@ == all[i as int]);
                out.push(item);
                i += 1;
            }
            assert(items_view(out@) =~= all);
            Datum::List(out)
        },
        Datum::Mapping(xs) => {
            let ghost all = marked(v@)->Mapping_0;
            let mut out = Table::new();
            let mut i: usize = 0;
            while i < xs.entries.len()
                invariant
                    i <= xs.entries@.len(),
                    *v == Datum::Mapping(*xs),
                    well_formed(Tree::Mapping(xs@)),
                    all == marked(Tree::Mapping(xs@))->Mapping_0,
                    out@.len() == i,
                    forall|j: int| 0 <= j < i ==> #[trigger] out@[j] == all[j],
                decreases xs.entries@.len() - i,
            {
                assert(decreases_to!(*v => v->Mapping_0.entries@));
                assert(decreases_to!(v->Mapping_0.entries@ => v->Mapping_0.entries@[i as int]));
                assert(decreases_to!(v->Mapping_0.entries@[i as int] => v->Mapping_0.entries@[i as int].1));
                proof {
                    lemma_entry_well_formed(xs@, i as int);
                }
                let value = mark(&xs.entries[i].1);
                assert(value@ == all[i as int].1);
                out.append(xs.entries[i].0.clone(), value);
                i += 1;
            }
            assert(out@ =~= all);
            Datum::Mapping(out)
        },
        _ => v.clone(),
    }
}

/// Whether some characters stand at a place among others.
fn stands_at(chars: &Vec<char>, i: usize, word: &Vec<char>) -> (r: bool)
    requires
        i <= chars@.len(),
    ensures
        r == begins_with(chars@.skip(i as int), word@),
{
    let n: usize = word.len();
    if chars.len() - i < n {
        return false;
    }
    let mut k: usize = 0;
    while k < n
        invariant
            k <= n,
            n == word@.len(),
            i + n <= chars.len(),
            forall|j: int| 0 <= j < k ==> chars@[i + j] == #[trigger] word@[j],
        decreases n - k,
    {
        if chars[i + k] != word[k] {
            assert(chars@.skip(i as int).subrange(0, n as int)[k as int] == chars@[i + k]);
            return false;
        }
        k += 1;
    }
    assert(chars@.skip(i as int).subrange(0, n as int) =~= word@);
    true
}

/// A text with two marks wherever something stands for them.
fn restore_marks(text: &str) -> (r: String)
    ensures
        r@ == with_marks(text@),
{
    let chars = chars_of(text);
    let word = chars_of("!double-mark-");
    let mut out = String::new();
    let mut i: usize = 0;
    proof {
        reveal_strlit("!double-mark-");
        assert(chars@.skip(0) =~= chars@);
        assert(out@ + with_marks(chars@.skip(0)) =~= with_marks(text@));
    }
    while i < chars.len()
        invariant
            i <= chars@.len(),
            word@ == stand_in(),
            word@.len() == 13,
            out@ + with_marks(chars@.skip(i as int)) == with_marks(text@),
        decreases chars@.len() - i,
    {
        let ghost rest = chars@.skip(i as int);
        let ghost before = out@;
        if stands_at(&chars, i, &word) {
            out.append("!!");
            i += 13;
            proof {
                assert(rest.skip(13) =~= chars@.skip(i as int));
                assert(before + ("!!"@ + with_marks(rest.skip(13))) =~= out@ + with_marks(
                    rest.skip(13),
                ));
            }
        } else {
            out.push(chars[i]);
            i += 1;
            proof {
                assert(rest.skip(1) =~= chars@.skip(i as int));
                assert(before + (seq![rest[0]] + with_marks(rest.skip(1))) =~= out@ + with_marks(
                    rest.skip(1),
                ));
            }
        }
    }
    proof {
        assert(chars@.skip(i as int).len() == 0);
        assert(out@ =~= with_marks(text@));
    }
    out
}

/// Writes a list of documents with the marks of their tags.
pub fn write_marked(values: &Datum) -> (r: Result<String, String>)
    requires
        well_formed(values@),
        values@ is List,
    ensures
        text_result(r) == marked_text(values@->List_0),
{
    match write_yaml(&mark(values)) {
        Ok(text) => Ok(restore_marks(text.as_str())),
        Err(e) => Err(e),
    }
}

} // verus!
