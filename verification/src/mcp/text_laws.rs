//! What holds of the text of `cordis.patch.yml`: its lines, the blocks of its entries, and
//! the tags that a second reading shows.

use vstd::prelude::*;

use crate::mcp::blocks::{
    begins_item, blocks_in, blocks_of, indent_of, indented, indented_line, inner_column, joined,
    law_lines_joined, lines_of,
};
use crate::mcp::marks::{marked, with_marks};
use crate::mcp::patch::{is_secondary, retagged, tagged_reading};
use crate::text::begins_with;
use crate::tree::{Entries, Tree};
use crate::yaml::yaml_parsed;

verus! {

/// The lines of a text make up the text; none of them is empty, and each has one line break,
/// at its end, but for the last, which may have none.
pub proof fn law_lines(s: Seq<char>)
    ensures
        joined(lines_of(s)) == s,
        forall|i: int| 0 <= i < lines_of(s).len() ==> (#[trigger] lines_of(s)[i]).len() > 0,
        forall|i: int|
            0 <= i < lines_of(s).len() - 1 ==> (#[trigger] lines_of(s)[i]).last() == '\n',
        forall|i: int, j: int|
            0 <= i < lines_of(s).len() && 0 <= j < lines_of(s)[i].len() - 1
                ==> #[trigger] lines_of(s)[i][j] != '\n',
    decreases s.len(),
{
    law_lines_joined(s);
    if s.len() > 0 {
        let before = lines_of(s.drop_last());
        let after = lines_of(s);
        let c = s.last();
        law_lines(s.drop_last());
        if before.len() == 0 || (before.last().len() > 0 && before.last().last() == '\n') {
            assert(after == before.push(seq![c]));
            assert forall|i: int| 0 <= i < after.len() implies (#[trigger] after[i]).len() > 0 by {
                if i < before.len() {
                    assert(after[i] == before[i]);
                }
            }
            assert forall|i: int| 0 <= i < after.len() - 1 implies (#[trigger] after[i]).last()
                == '\n' by {
                assert(after[i] == before[i]);
            }
            assert forall|i: int, j: int|
                0 <= i < after.len() && 0 <= j < after[i].len() - 1 implies #[trigger] after[i][j]
                != '\n' by {
                assert(after[i] == before[i]);
            }
        } else {
            let n = before.len() - 1;
            assert(before[n].len() > 0);
            assert(after == before.update(n, before.last().push(c)));
            assert(before.last().last() != '\n');
            assert forall|i: int| 0 <= i < after.len() - 1 implies (#[trigger] after[i]).last()
                == '\n' by {
                assert(after[i] == before[i]);
            }
            assert forall|i: int, j: int|
                0 <= i < after.len() && 0 <= j < after[i].len() - 1 implies #[trigger] after[i][j]
                != '\n' by {
                if i < n {
                    assert(after[i] == before[i]);
                } else {
                    assert(after[i][j] == before[n][j]);
                    if j < before[n].len() - 1 {
                        assert(before[n][j] != '\n');
                    }
                }
            }
        }
    }
}

/// The indentation of a line is the number of spaces in front of it.
pub proof fn law_indent(line: Seq<char>)
    ensures
        indent_of(line) <= line.len(),
        forall|i: int| 0 <= i < indent_of(line) ==> #[trigger] line[i] == ' ',
        indent_of(line) < line.len() ==> line[indent_of(line) as int] != ' ',
    decreases line.len(),
{
    if line.len() > 0 && line[0] == ' ' {
        let rest = line.subrange(1, line.len() as int);
        law_indent(rest);
        assert forall|i: int| 0 <= i < indent_of(line) implies #[trigger] line[i] == ' ' by {
            if i > 0 {
                assert(rest[i - 1] == line[i]);
            }
        }
        if indent_of(line) < line.len() {
            assert(rest[indent_of(rest) as int] == line[indent_of(line) as int]);
        }
    }
}

/// A line begins an item at a column where it has spaces in front of that column, a hyphen
/// in it, and a space or the end of the line behind it.
pub proof fn law_item_line(line: Seq<char>, c: nat)
    ensures
        begins_item(line, c) <==> {
            &&& c < line.len() && line[c as int] == '-'
            &&& forall|i: int| 0 <= i < c ==> #[trigger] line[i] == ' '
            &&& line.len() == c + 1 || line[c as int + 1] == ' ' || line[c as int + 1] == '\n'
                || line[c as int + 1] == '\r'
        },
{
    law_indent(line);
    if c < line.len() && line[c as int] == '-' && (forall|i: int|
        0 <= i < c ==> #[trigger] line[i] == ' ') {
        if indent_of(line) < c {
            assert(line[indent_of(line) as int] == ' ');
        }
        if indent_of(line) > c {
            assert(line[c as int] == ' ');
        }
    }
}

/// Blocks are found line by line: a line that begins an item begins a block, and every
/// other line belongs to the block in front of it, or to the head where there is none.
pub proof fn law_blocks(lines: Seq<Seq<char>>, line: Seq<char>, c: nat)
    ensures
        ({
            let none: Seq<Seq<char>> = Seq::empty();
            let before = blocks_in(lines, c);
            let after = blocks_in(lines.push(line), c);
            &&& blocks_in(none, c).head.len() == 0 && blocks_in(none, c).blocks.len() == 0
            &&& if begins_item(line, c) {
                &&& after.head == before.head
                &&& after.blocks == before.blocks.push(line)
            } else if before.blocks.len() == 0 {
                &&& after.head == before.head + line
                &&& after.blocks.len() == 0
            } else {
                &&& after.head == before.head
                &&& after.blocks.len() == before.blocks.len()
                &&& after.blocks.last() == before.blocks.last() + line
                &&& forall|i: int|
                    0 <= i < before.blocks.len() - 1 ==> #[trigger] after.blocks[i]
                        == before.blocks[i]
            }
        }),
{
    assert(lines.push(line).drop_last() =~= lines);
}

/// The blocks of a text are those of its lines.
pub proof fn law_blocks_of(s: Seq<char>, c: nat)
    ensures
        blocks_of(s, c) == blocks_in(lines_of(s), c),
{
}

/// The column of an inner list is the indentation of the first line, from a line on, that
/// begins an item.
pub proof fn law_inner_column(lines: Seq<Seq<char>>, i: nat)
    ensures
        match inner_column(lines, i) {
            Some(c) => exists|n: int|
                {
                    &&& i <= n < lines.len()
                    &&& begins_item(#[trigger] lines[n], c)
                    &&& forall|j: int|
                        i <= j < n ==> !begins_item(#[trigger] lines[j], indent_of(lines[j]))
                },
            None => forall|j: int|
                i <= j < lines.len() ==> !begins_item(#[trigger] lines[j], indent_of(lines[j])),
        },
    decreases lines.len() - i,
{
    if i < lines.len() {
        if begins_item(lines[i as int], indent_of(lines[i as int])) {
            assert(begins_item(lines[i as int], inner_column(lines, i)->0));
        } else {
            law_inner_column(lines, i + 1);
            if let Some(c) = inner_column(lines, i + 1) {
                let n = choose|n: int|
                    {
                        &&& i + 1 <= n < lines.len()
                        &&& begins_item(#[trigger] lines[n], c)
                        &&& forall|j: int|
                            i + 1 <= j < n ==> !begins_item(#[trigger] lines[j], indent_of(lines[j]))
                    };
                assert(begins_item(lines[n], c));
            }
        }
    }
}

/// Indenting puts spaces in front of each line, but for lines that are empty.
pub proof fn law_indented(lines: Seq<Seq<char>>, line: Seq<char>, c: nat)
    ensures
        indented(Seq::empty(), c) == Seq::<char>::empty(),
        indented(lines.push(line), c) == indented(lines, c) + indented_line(line, c),
        line == seq!['\n'] ==> indented_line(line, c) == line,
        line != seq!['\n'] ==> {
            &&& indented_line(line, c).len() == c + line.len()
            &&& indented_line(line, c).skip(c as int) == line
            &&& forall|i: int| 0 <= i < c ==> #[trigger] indented_line(line, c)[i] == ' '
        },
{
    assert(lines.push(line).drop_last() =~= lines);
    if line != seq!['\n'] {
        assert(indented_line(line, c).skip(c as int) =~= line);
    }
}

// ----------------------------------------------------------------------------
// Tags
// ----------------------------------------------------------------------------

/// A document without the tags that have two exclamation marks.
pub open spec fn without_marks(t: Tree) -> Tree
    decreases t,
{
    match t {
        Tree::Tagged(tag, x) => if is_secondary(tag) {
            without_marks(*x)
        } else {
            Tree::Tagged(tag, Box::new(without_marks(*x)))
        },
        Tree::List(x) => Tree::List(
            Seq::new(
                x.len(),
                |i: int|
                    if 0 <= i < x.len() {
                        without_marks(x[i])
                    } else {
                        Tree::Null
                    },
            ),
        ),
        Tree::Mapping(x) => Tree::Mapping(
            Seq::new(
                x.len(),
                |i: int|
                    if 0 <= i < x.len() {
                        (x[i].0, without_marks(x[i].1))
                    } else {
                        (Tree::Null, Tree::Null)
                    },
            ),
        ),
        _ => t,
    }
}

/// The second reading of a text adds tags with two exclamation marks, and changes nothing
/// else: no value, no key, no other tag, and no order.
pub proof fn law_only_tags_added(plain: Tree, aware: Tree)
    ensures
        without_marks(retagged(plain, aware)) == without_marks(plain),
    decreases aware,
{
    match aware {
        Tree::Tagged(tag, x) => {
            if is_secondary(tag) {
                law_only_tags_added(plain, *x);
            } else if let Tree::Tagged(t, y) = plain {
                if t == tag {
                    law_only_tags_added(*y, *x);
                }
            }
        },
        Tree::List(xs) => {
            if let Tree::List(ys) = plain {
                if xs.len() == ys.len() {
                    assert forall|i: int| 0 <= i < xs.len() implies without_marks(
                        retagged(ys[i], #[trigger] xs[i]),
                    ) == without_marks(ys[i]) by {
                        law_only_tags_added(ys[i], xs[i]);
                    }
                    let a = without_marks(retagged(plain, aware));
                    let b = without_marks(plain);
                    assert forall|i: int| 0 <= i < xs.len() implies a->List_0[i] == b->List_0[i] by {
                        let x = xs[i];
                        assert(without_marks(retagged(ys[i], x)) == without_marks(ys[i]));
                    }
                    assert(a->List_0 =~= b->List_0);
                }
            }
        },
        Tree::Mapping(xs) => {
            if let Tree::Mapping(ys) = plain {
                if xs.len() == ys.len() {
                    assert forall|i: int| 0 <= i < xs.len() implies without_marks(
                        retagged(ys[i].1, (#[trigger] xs[i]).1),
                    ) == without_marks(ys[i].1) by {
                        law_only_tags_added(ys[i].1, xs[i].1);
                    }
                    let a = without_marks(retagged(plain, aware));
                    let b = without_marks(plain);
                    assert forall|i: int| 0 <= i < xs.len() implies a->Mapping_0[i]
                        == b->Mapping_0[i] by {
                        let x = xs[i];
                        assert(without_marks(retagged(ys[i].1, x.1)) == without_marks(ys[i].1));
                    }
                    assert(a->Mapping_0 =~= b->Mapping_0);
                }
            }
        },
        _ => {},
    }
}

/// A tag with two exclamation marks is kept, unless it is one of YAML's own, which says no
/// more than the value does.
pub proof fn law_tag_kept(plain: Tree, tag: Seq<char>, x: Tree)
    requires
        tag.len() >= 2,
        tag[0] == '!',
        tag[1] == '!',
    ensures
        ({
            let core = tag == "!!str"@ || tag == "!!int"@ || tag == "!!float"@ || tag == "!!bool"@
                || tag == "!!null"@ || tag == "!!seq"@ || tag == "!!map"@;
            retagged(plain, Tree::Tagged(tag, Box::new(x))) == (if core {
                retagged(plain, x)
            } else {
                Tree::Tagged(tag, Box::new(retagged(plain, x)))
            })
        }),
{
}

/// Tags are added item by item, and value by value.
pub proof fn law_tags_within(xs: Seq<Tree>, ys: Seq<Tree>, ms: Entries, ns: Entries, i: int)
    ensures
        xs.len() == ys.len() && 0 <= i < xs.len() ==> (retagged(Tree::List(ys), Tree::List(xs))
            matches Tree::List(r) && r.len() == ys.len() && r[i] == retagged(ys[i], xs[i])),
        ms.len() == ns.len() && 0 <= i < ms.len() ==> (retagged(Tree::Mapping(ns), Tree::Mapping(ms))
            matches Tree::Mapping(r) && r.len() == ns.len() && r[i] == (
            ns[i].0,
            retagged(ns[i].1, ms[i].1),
        )),
{
}

/// A text is read with its tags where it can be read again with all of them declared to be
/// ordinary ones, in front of the document or of its own first line, and else as it is.
pub proof fn law_tagged_reading(raw: Seq<char>)
    ensures
        ({
            let before = yaml_parsed("%TAG !! !!!\n---\n"@ + raw);
            let own = yaml_parsed("%TAG !! !!!\n"@ + raw);
            match yaml_parsed(raw) {
                Ok(plain) => tagged_reading(raw) == Ok::<Tree, Seq<char>>(
                    if before is Ok {
                        retagged(plain, before->Ok_0)
                    } else if own is Ok {
                        retagged(plain, own->Ok_0)
                    } else {
                        plain
                    },
                ),
                Err(e) => tagged_reading(raw) == Err::<Tree, Seq<char>>(e),
            }
        }),
{
}

/// A document has a tag with two exclamation marks.
pub open spec fn has_marks(t: Tree) -> bool
    decreases t,
{
    match t {
        Tree::Tagged(tag, x) => is_secondary(tag) || has_marks(*x),
        Tree::List(x) => exists|i: int| 0 <= i < x.len() && has_marks(#[trigger] x[i]),
        Tree::Mapping(x) => exists|i: int| 0 <= i < x.len() && has_marks((#[trigger] x[i]).1),
        _ => false,
    }
}

/// A document without such tags is written as it is.
pub proof fn law_unmarked(t: Tree)
    requires
        !has_marks(t),
    ensures
        marked(t) == t,
    decreases t,
{
    match t {
        Tree::Tagged(_, x) => {
            law_unmarked(*x);
        },
        Tree::List(x) => {
            let r = marked(t)->List_0;
            assert forall|i: int| 0 <= i < x.len() implies #[trigger] r[i] == x[i] by {
                assert(!has_marks(x[i]));
                law_unmarked(x[i]);
            }
            assert(r =~= x);
        },
        Tree::Mapping(x) => {
            let r = marked(t)->Mapping_0;
            assert forall|i: int| 0 <= i < x.len() implies #[trigger] r[i] == x[i] by {
                assert(!has_marks(x[i].1));
                law_unmarked(x[i].1);
            }
            assert(r =~= x);
        },
        _ => {},
    }
}

/// A text in which nothing stands for marks stays as it is; where something does, there are
/// two marks in its place.
pub proof fn law_marks_restored(s: Seq<char>, rest: Seq<char>)
    ensures
        (forall|i: int| 0 <= i < s.len() ==> !begins_with(#[trigger] s.skip(i), "!double-mark-"@))
            ==> with_marks(s) == s,
        with_marks("!double-mark-"@ + rest) == "!!"@ + with_marks(rest),
    decreases s.len(),
{
    reveal_strlit("!double-mark-");
    let w = "!double-mark-"@ + rest;
    assert(w.subrange(0, 13) =~= "!double-mark-"@);
    assert(w.skip(13) =~= rest);
    if s.len() > 0 {
        if forall|i: int| 0 <= i < s.len() ==> !begins_with(#[trigger] s.skip(i), "!double-mark-"@) {
            assert(s.skip(0) =~= s);
            let t = s.skip(1);
            assert forall|i: int| 0 <= i < t.len() implies !begins_with(
                #[trigger] t.skip(i),
                "!double-mark-"@,
            ) by {
                assert(t.skip(i) =~= s.skip(i + 1));
            }
            law_marks_restored(t, rest);
            assert(seq![s[0]] + t =~= s);
        }
    } else {
        assert(with_marks(s) =~= s);
    }
}

} // verus!
