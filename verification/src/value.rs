//! Configuration documents in memory.

use vstd::prelude::*;

use crate::numeric::{Numeric, NumericView};
use crate::text::text_eq;
use crate::tree::{
    distinct_keys, entries_of, field, has_key, index_of, is_json, items_of, json_shaped, key_at,
    lemma_covered, lemma_entry_well_formed, lemma_index_of, lemma_item_well_formed,
    lemma_lookup_well_formed, lemma_same_text, lemma_swapped_out_well_formed, lemma_untagged,
    lemma_with_key_well_formed, lemma_without_key_well_formed, lookup, occurs_in, refilled,
    relisted, same, same_entry, swap_removed, swapped_out, text_field, text_of, untagged,
    well_formed, with_key, without_key, Entries, Tree,
};

verus! {

/// A configuration document, read from YAML or from JSON.
#[derive(Debug)]
pub enum Datum {
    Null,
    Bool(bool),
    Number(Numeric),
    Text(String),
    List(Vec<Datum>),
    Mapping(Table),
    /// A value under a tag; the tag is written with its leading `!`.
    Tagged(String, Box<Datum>),
}

/// The entries of a mapping, in the order in which they came.
#[derive(Debug)]
pub struct Table {
    pub entries: Vec<(Datum, Datum)>,
}

/// The document that a [`Datum`] holds.
pub open spec fn tree_of(v: Datum) -> Tree
    decreases v,
{
    match v {
        Datum::Null => Tree::Null,
        Datum::Bool(b) => Tree::Bool(b),
        Datum::Number(n) => Tree::Number(n@),
        Datum::Text(s) => Tree::Text(s@),
        Datum::List(items) => Tree::List(
            Seq::new(
                items@.len(),
                |i: int|
                    if 0 <= i < items@.len() {
                        tree_of(items@[i])
                    } else {
                        Tree::Null
                    },
            ),
        ),
        Datum::Mapping(table) => Tree::Mapping(
            Seq::new(
                table.entries@.len(),
                |i: int|
                    if 0 <= i < table.entries@.len() {
                        (tree_of(table.entries@[i].0), tree_of(table.entries@[i].1))
                    } else {
                        (Tree::Null, Tree::Null)
                    },
            ),
        ),
        Datum::Tagged(tag, inner) => Tree::Tagged(tag@, Box::new(tree_of(*inner))),
    }
}

impl View for Datum {
    type V = Tree;

    open spec fn view(&self) -> Tree {
        tree_of(*self)
    }
}

/// The documents of a list.
pub open spec fn items_view(items: Seq<Datum>) -> Seq<Tree> {
    Seq::new(items.len(), |i: int| items[i]@)
}

/// The documents of the entries of a mapping.
pub open spec fn entries_view(entries: Seq<(Datum, Datum)>) -> Entries {
    Seq::new(entries.len(), |i: int| (entries[i].0@, entries[i].1@))
}

impl View for Table {
    type V = Entries;

    open spec fn view(&self) -> Entries {
        entries_view(self.entries@)
    }
}

/// The view of a list holds the views of its items.
pub broadcast proof fn lemma_list_view(items: Vec<Datum>)
    ensures
        #[trigger] Datum::List(items)@ == Tree::List(items_view(items@)),
{
    assert(Datum::List(items)@->List_0 =~= items_view(items@));
}

/// The view of a mapping holds the views of its entries.
pub broadcast proof fn lemma_mapping_view(table: Table)
    ensures
        #[trigger] Datum::Mapping(table)@ == Tree::Mapping(table@),
{
    assert(Datum::Mapping(table)@->Mapping_0 =~= table@);
}

impl Clone for Datum {
    fn clone(&self) -> (r: Self)
        ensures
            r@ == self@,
        decreases self,
    {
        broadcast use lemma_list_view, lemma_mapping_view;
        match self {
            Datum::Null => Datum::Null,
            Datum::Bool(b) => Datum::Bool(*b),
            Datum::Number(n) => Datum::Number(n.clone()),
            Datum::Text(s) => Datum::Text(s.clone()),
            Datum::List(items) => {
                let mut out: Vec<Datum> = Vec::new();
                let mut i: usize = 0;
                while i < items.len()
                    invariant
                        i <= items@.len(),
                        out@.len() == i,
                        *self == Datum::List(*items),
                        forall|j: int| 0 <= j < i ==> (#[trigger] out@[j])@ == items@[j]@,
                    decreases items@.len() - i,
                {
                    assert(decreases_to!(*self => self->List_0@));
                    assert(decreases_to!(self->List_0@ => self->List_0@[i as int]));
                    out.push(items[i].clone());
                    i += 1;
                }
                assert(items_view(out@) =~= items_view(items@));
                Datum::List(out)
            },
            Datum::Mapping(table) => {
                assert(decreases_to!(*self => self->Mapping_0));
                Datum::Mapping(table.clone())
            },
            Datum::Tagged(tag, inner) => Datum::Tagged(tag.clone(), Box::new((**inner).clone())),
        }
    }
}

impl Clone for Table {
    fn clone(&self) -> (r: Self)
        ensures
            r@ == self@,
        decreases self,
    {
        let mut out: Vec<(Datum, Datum)> = Vec::new();
        let mut i: usize = 0;
        while i < self.entries.len()
            invariant
                i <= self.entries@.len(),
                out@.len() == i,
                forall|j: int|
                    0 <= j < i ==> (#[trigger] out@[j]).0@ == self.entries@[j].0@ && out@[j].1@
                        == self.entries@[j].1@,
            decreases self.entries@.len() - i,
        {
            assert(decreases_to!(*self => self.entries@));
            assert(decreases_to!(self.entries@ => self.entries@[i as int]));
            assert(decreases_to!(self.entries@[i as int] => self.entries@[i as int].0));
            assert(decreases_to!(self.entries@[i as int] => self.entries@[i as int].1));
            let key = self.entries[i].0.clone();
            let value = self.entries[i].1.clone();
            out.push((key, value));
            i += 1;
        }
        let r = Table { entries: out };
        assert(r@ =~= self@);
        r
    }
}

impl Datum {
    /// Whether two documents are equal; the order of the entries of a mapping
    /// does not matter.
    pub fn same_as(&self, other: &Datum) -> (r: bool)
        requires
            well_formed(self@),
            well_formed(other@),
        ensures
            r == same(self@, other@),
        decreases self,
    {
        broadcast use lemma_list_view, lemma_mapping_view;
        reveal(same);
        match (self, other) {
            (Datum::Null, Datum::Null) => true,
            (Datum::Bool(x), Datum::Bool(y)) => *x == *y,
            (Datum::Number(x), Datum::Number(y)) => x.same_as(y),
            (Datum::Text(x), Datum::Text(y)) => text_eq(x.as_str(), y.as_str()),
            (Datum::List(x), Datum::List(y)) => {
                if x.len() != y.len() {
                    return false;
                }
                let mut i: usize = 0;
                while i < x.len()
                    invariant
                        i <= x@.len(),
                        x@.len() == y@.len(),
                        *self == Datum::List(*x),
                        *other == Datum::List(*y),
                        well_formed(Tree::List(items_view(x@))),
                        well_formed(Tree::List(items_view(y@))),
                        forall|j: int|
                            0 <= j < i ==> same(#[trigger] items_view(x@)[j], items_view(y@)[j]),
                    decreases x@.len() - i,
                {
                    assert(decreases_to!(*self => self->List_0@));
                    assert(decreases_to!(self->List_0@ => self->List_0@[i as int]));
                    proof {
                        lemma_item_well_formed(items_view(x@), i as int);
                        lemma_item_well_formed(items_view(y@), i as int);
                    }
                    if !x[i].same_as(&y[i]) {
                        proof {
                            reveal(same);
                            assert(self@->List_0[i as int] == items_view(x@)[i as int]);
                            assert(other@->List_0[i as int] == items_view(y@)[i as int]);
                        }
                        return false;
                    }
                    i += 1;
                }
                true
            },
            (Datum::Mapping(x), Datum::Mapping(y)) => {
                assert(decreases_to!(*self => self->Mapping_0));
                x.same_as(y)
            },
            (Datum::Tagged(s, x), Datum::Tagged(t, y)) => {
                text_eq(s.as_str(), t.as_str()) && (**x).same_as(&**y)
            },
            _ => false,
        }
    }
}

impl Table {
    /// Whether two mappings hold equal entries, in whatever order.
    pub fn same_as(&self, other: &Table) -> (r: bool)
        requires
            well_formed(Tree::Mapping(self@)),
            well_formed(Tree::Mapping(other@)),
        ensures
            r == same(Tree::Mapping(self@), Tree::Mapping(other@)),
        decreases self,
    {
        reveal(same);
        if self.entries.len() != other.entries.len() {
            return false;
        }
        let ghost x = self@;
        let ghost y = other@;
        let mut i: usize = 0;
        while i < self.entries.len()
            invariant
                i <= self.entries@.len(),
                x == self@,
                y == other@,
                x.len() == y.len(),
                well_formed(Tree::Mapping(x)),
                well_formed(Tree::Mapping(y)),
                forall|p: int| 0 <= p < i ==> occurs_in(#[trigger] x[p], y),
            decreases self.entries@.len() - i,
        {
            assert(decreases_to!(*self => self.entries@));
            assert(decreases_to!(self.entries@ => self.entries@[i as int]));
            assert(decreases_to!(self.entries@[i as int] => self.entries@[i as int].0));
            assert(decreases_to!(self.entries@[i as int] => self.entries@[i as int].1));
            proof {
                lemma_entry_well_formed(x, i as int);
            }
            let mut j: usize = 0;
            while j < other.entries.len()
                invariant
                    i < self.entries@.len(),
                    j <= other.entries@.len(),
                    x == self@,
                    y == other@,
                    well_formed(Tree::Mapping(x)),
                    well_formed(Tree::Mapping(y)),
                    well_formed(x[i as int].0),
                    decreases_to!(*self => self.entries@[i as int].0),
                    forall|q: int| 0 <= q < j ==> !same(x[i as int].0, (#[trigger] y[q]).0),
                ensures
                    j < other.entries@.len() ==> same(x[i as int].0, y[j as int].0),
                decreases other.entries@.len() - j,
            {
                proof {
                    lemma_entry_well_formed(y, j as int);
                }
                if self.entries[i].0.same_as(&other.entries[j].0) {
                    break;
                }
                j += 1;
            }
            if j == other.entries.len() {
                proof {
                    reveal(same);
                    assert(!occurs_in(x[i as int], y));
                    assert(Tree::Mapping(x)->Mapping_0[i as int] == x[i as int]);
                }
                return false;
            }
            proof {
                lemma_entry_well_formed(y, j as int);
            }
            if !self.entries[i].1.same_as(&other.entries[j].1) {
                reveal(same);
                assert forall|q: int| 0 <= q < y.len() implies !same_entry(
                    x[i as int],
                    #[trigger] y[q],
                ) by {
                    if same(x[i as int].0, y[q].0) {
                        assert(key_at(y, x[i as int].0, q));
                        assert(key_at(y, x[i as int].0, j as int));
                        lemma_index_of(y, x[i as int].0, q);
                        lemma_index_of(y, x[i as int].0, j as int);
                    }
                }
                proof {
                    reveal(same);
                    assert(!occurs_in(x[i as int], y));
                    assert(Tree::Mapping(x)->Mapping_0[i as int] == x[i as int]);
                }
                return false;
            }
            proof {
                reveal(same);
                assert(same_entry(x[i as int], y[j as int]));
            }
            i += 1;
        }
        proof {
            lemma_covered(x, y);
        }
        true
    }
}

impl Datum {
    /// The value under whatever tags it carries.
    pub fn untag(&self) -> (r: &Datum)
        ensures
            r@ == untagged(self@),
            !(*r is Tagged),
        decreases self,
    {
        match self {
            Datum::Tagged(_, inner) => (**inner).untag(),
            _ => self,
        }
    }

    /// The entries of a mapping, tagged or not.
    pub fn as_mapping(&self) -> (r: Option<&Table>)
        ensures
            match r {
                Some(m) => entries_of(self@) == Some(m@),
                None => entries_of(self@) is None,
            },
    {
        broadcast use lemma_mapping_view;
        match self.untag() {
            Datum::Mapping(m) => Some(m),
            _ => None,
        }
    }

    /// The items of a list, tagged or not.
    pub fn as_list(&self) -> (r: Option<&Vec<Datum>>)
        ensures
            match r {
                Some(x) => items_of(self@) == Some(items_view(x@)),
                None => items_of(self@) is None,
            },
    {
        broadcast use lemma_list_view;
        match self.untag() {
            Datum::List(x) => Some(x),
            _ => None,
        }
    }

    /// The characters of a text, tagged or not.
    pub fn as_str(&self) -> (r: Option<&str>)
        ensures
            match r {
                Some(s) => text_of(self@) == Some(s@),
                None => text_of(self@) is None,
            },
    {
        match self.untag() {
            Datum::Text(s) => Some(s.as_str()),
            _ => None,
        }
    }

    /// A truth value, tagged or not.
    pub fn as_bool(&self) -> (r: Option<bool>)
        ensures
            r == (match untagged(self@) {
                Tree::Bool(b) => Some(b),
                _ => None,
            }),
    {
        match self.untag() {
            Datum::Bool(b) => Some(*b),
            _ => None,
        }
    }

    /// A non-negative integer, tagged or not.
    pub fn as_u64(&self) -> (r: Option<u64>)
        ensures
            r == (match untagged(self@) {
                Tree::Number(NumericView::PosInt(u)) => Some(u),
                _ => None,
            }),
    {
        match self.untag() {
            Datum::Number(Numeric::PosInt(u)) => Some(*u),
            _ => None,
        }
    }

    /// Whether the value is a mapping, tagged or not.
    pub fn is_mapping(&self) -> (r: bool)
        ensures
            r == (entries_of(self@) is Some),
    {
        self.as_mapping().is_some()
    }

    /// A mapping with other entries; its tags stay.
    pub fn refill(&self, m: Table) -> (r: Datum)
        ensures
            r@ == refilled(self@, m@),
        decreases self,
    {
        broadcast use lemma_mapping_view;
        match self {
            Datum::Tagged(tag, inner) => Datum::Tagged(tag.clone(), Box::new((**inner).refill(m))),
            _ => Datum::Mapping(m),
        }
    }

    /// A list with other items; its tags stay.
    pub fn relist(&self, x: Vec<Datum>) -> (r: Datum)
        ensures
            r@ == relisted(self@, items_view(x@)),
        decreases self,
    {
        broadcast use lemma_list_view;
        match self {
            Datum::Tagged(tag, inner) => Datum::Tagged(tag.clone(), Box::new((**inner).relist(x))),
            _ => Datum::List(x),
        }
    }

    /// The value that a mapping, tagged or not, holds under a text.
    pub fn get(&self, name: &str) -> (r: Option<&Datum>)
        requires
            well_formed(self@),
        ensures
            match r {
                Some(v) => field(self@, name@) == Some(v@) && well_formed(v@) && (json_shaped(self@)
                    ==> json_shaped(v@)),
                None => field(self@, name@) is None,
            },
    {
        proof {
            lemma_untagged(self@);
        }
        match self.as_mapping() {
            Some(m) => m.get(name),
            None => None,
        }
    }

    /// The text that a mapping holds under a text.
    pub fn get_str(&self, name: &str) -> (r: Option<&str>)
        requires
            well_formed(self@),
        ensures
            match r {
                Some(s) => text_field(self@, name@) == Some(s@),
                None => text_field(self@, name@) is None,
            },
    {
        match self.get(name) {
            Some(v) => v.as_str(),
            None => None,
        }
    }

    /// A text.
    pub fn text(s: &str) -> (r: Datum)
        ensures
            r@ == Tree::Text(s@),
    {
        Datum::Text(s.to_owned())
    }
}

impl Table {
    /// A mapping without entries.
    pub fn new() -> (r: Table)
        ensures
            r@ == Seq::<(Tree, Tree)>::empty(),
            is_json(Tree::Mapping(r@)),
    {
        let r = Table { entries: Vec::new() };
        assert(r@ =~= Seq::<(Tree, Tree)>::empty());
        r
    }

    /// The number of entries.
    pub fn len(&self) -> (r: usize)
        ensures
            r == self@.len(),
    {
        self.entries.len()
    }

    /// Whether there are no entries.
    pub fn is_empty(&self) -> (r: bool)
        ensures
            r == (self@.len() == 0),
    {
        self.entries.len() == 0
    }

    /// The position of the entry under a key.
    pub fn position(&self, key: &Datum) -> (r: Option<usize>)
        requires
            well_formed(Tree::Mapping(self@)),
            well_formed(key@),
        ensures
            match r {
                Some(i) => has_key(self@, key@) && i == index_of(self@, key@) && i < self@.len(),
                None => !has_key(self@, key@),
            },
    {
        let mut i: usize = 0;
        while i < self.entries.len()
            invariant
                i <= self.entries@.len(),
                well_formed(Tree::Mapping(self@)),
                well_formed(key@),
                forall|j: int| 0 <= j < i ==> !(#[trigger] key_at(self@, key@, j)),
            decreases self.entries@.len() - i,
        {
            proof {
                lemma_entry_well_formed(self@, i as int);
            }
            if key.same_as(&self.entries[i].0) {
                proof {
                    lemma_index_of(self@, key@, i as int);
                }
                return Some(i);
            }
            i += 1;
        }
        assert(forall|j: int| !(#[trigger] key_at(self@, key@, j)));
        None
    }

    /// The position of the entry under a text.
    pub fn position_of(&self, name: &str) -> (r: Option<usize>)
        requires
            distinct_keys(self@),
        ensures
            match r {
                Some(i) => has_key(self@, Tree::Text(name@)) && i == index_of(
                    self@,
                    Tree::Text(name@),
                ) && i < self@.len(),
                None => !has_key(self@, Tree::Text(name@)),
            },
    {
        broadcast use lemma_same_text;
        let ghost k = Tree::Text(name@);
        let mut i: usize = 0;
        while i < self.entries.len()
            invariant
                i <= self.entries@.len(),
                k == Tree::Text(name@),
                distinct_keys(self@),
                forall|j: int| 0 <= j < i ==> !(#[trigger] key_at(self@, k, j)),
            decreases self.entries@.len() - i,
        {
            broadcast use lemma_same_text;
            assert(self@[i as int].0 == self.entries@[i as int].0@);
            if let Datum::Text(s) = &self.entries[i].0 {
                if text_eq(name, s.as_str()) {
                    assert(key_at(self@, k, i as int));
                    proof {
                        lemma_index_of(self@, k, i as int);
                    }
                    return Some(i);
                }
            }
            assert(!key_at(self@, k, i as int));
            i += 1;
        }
        assert(forall|j: int| !(#[trigger] key_at(self@, k, j)));
        None
    }

    /// The value under a text.
    pub fn get(&self, name: &str) -> (r: Option<&Datum>)
        requires
            well_formed(Tree::Mapping(self@)),
        ensures
            match r {
                Some(v) => lookup(self@, Tree::Text(name@)) == Some(v@) && well_formed(v@) && (
                json_shaped(Tree::Mapping(self@)) ==> json_shaped(v@)),
                None => lookup(self@, Tree::Text(name@)) is None && !has_key(
                    self@,
                    Tree::Text(name@),
                ),
            },
    {
        match self.position_of(name) {
            Some(i) => {
                proof {
                    lemma_lookup_well_formed(self@, Tree::Text(name@));
                    assert(self@[i as int].1 == self.entries@[i as int].1@);
                }
                Some(&self.entries[i].1)
            },
            None => None,
        }
    }

    /// Whether there is an entry under a text.
    pub fn contains(&self, name: &str) -> (r: bool)
        requires
            well_formed(Tree::Mapping(self@)),
        ensures
            r == has_key(self@, Tree::Text(name@)),
    {
        self.position_of(name).is_some()
    }

    /// The text under a text.
    pub fn get_str(&self, name: &str) -> (r: Option<&str>)
        requires
            well_formed(Tree::Mapping(self@)),
        ensures
            match r {
                Some(s) => text_field(Tree::Mapping(self@), name@) == Some(s@),
                None => text_field(Tree::Mapping(self@), name@) is None,
            },
    {
        match self.get(name) {
            Some(v) => v.as_str(),
            None => None,
        }
    }

    /// Replaces the value at a position.
    pub fn replace(&mut self, i: usize, value: Datum)
        requires
            i < old(self)@.len(),
        ensures
            final(self)@ == old(self)@.update(i as int, (old(self)@[i as int].0, value@)),
    {
        let key = self.entries[i].0.clone();
        self.entries.set(i, (key, value));
        assert(self@ =~= old(self)@.update(i as int, (old(self)@[i as int].0, value@)));
    }

    /// Appends an entry.
    pub fn append(&mut self, key: Datum, value: Datum)
        ensures
            final(self)@ == old(self)@.push((key@, value@)),
    {
        self.entries.push((key, value));
        assert(self@ =~= old(self)@.push((key@, value@)));
    }

    /// Removes the entry at a position; the last entry takes its place.
    pub fn swap_remove(&mut self, i: usize)
        requires
            i < old(self)@.len(),
        ensures
            final(self)@ == swap_removed(old(self)@, i as int),
    {
        let _ = self.entries.swap_remove(i);
        assert(self@ =~= swap_removed(old(self)@, i as int));
    }

    /// Removes the entry at a position; the others stay in their order.
    pub fn remove_at(&mut self, i: usize)
        requires
            i < old(self)@.len(),
        ensures
            final(self)@ == old(self)@.remove(i as int),
    {
        let _ = self.entries.remove(i);
        assert(self@ =~= old(self)@.remove(i as int));
    }

    /// Writes a value under a text.
    pub fn insert(&mut self, name: &str, value: Datum)
        requires
            well_formed(Tree::Mapping(old(self)@)),
            well_formed(value@),
        ensures
            final(self)@ == with_key(old(self)@, Tree::Text(name@), value@),
            well_formed(Tree::Mapping(final(self)@)),
            json_shaped(Tree::Mapping(old(self)@)) && json_shaped(value@) ==> json_shaped(
                Tree::Mapping(final(self)@),
            ),
    {
        proof {
            lemma_with_key_well_formed(self@, Tree::Text(name@), value@);
        }
        match self.position_of(name) {
            Some(i) => self.replace(i, value),
            None => self.append(Datum::text(name), value),
        }
    }

    /// Removes what is under a text; the others stay in their order. Tells
    /// whether there was anything.
    pub fn remove(&mut self, name: &str) -> (r: bool)
        requires
            well_formed(Tree::Mapping(old(self)@)),
        ensures
            r == has_key(old(self)@, Tree::Text(name@)),
            final(self)@ == without_key(old(self)@, Tree::Text(name@)),
            well_formed(Tree::Mapping(final(self)@)),
            json_shaped(Tree::Mapping(old(self)@)) ==> json_shaped(Tree::Mapping(final(self)@)),
    {
        proof {
            lemma_without_key_well_formed(self@, Tree::Text(name@));
        }
        match self.position_of(name) {
            Some(i) => {
                self.remove_at(i);
                true
            },
            None => false,
        }
    }

    /// Removes what is under a text; the last entry takes its place. Tells
    /// whether there was anything.
    pub fn swap_out(&mut self, name: &str) -> (r: bool)
        requires
            well_formed(Tree::Mapping(old(self)@)),
        ensures
            r == has_key(old(self)@, Tree::Text(name@)),
            final(self)@ == swapped_out(old(self)@, Tree::Text(name@)),
            well_formed(Tree::Mapping(final(self)@)),
            json_shaped(Tree::Mapping(old(self)@)) ==> json_shaped(Tree::Mapping(final(self)@)),
    {
        proof {
            lemma_swapped_out_well_formed(self@, Tree::Text(name@));
        }
        match self.position_of(name) {
            Some(i) => {
                self.swap_remove(i);
                true
            },
            None => false,
        }
    }
}

} // verus!
