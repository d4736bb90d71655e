//! The blocks of a YAML list in a text: the lines of each item.

use vstd::prelude::*;

use crate::text::chars_of;

verus! {

/// Texts, one behind the other.
pub open spec fn joined(parts: Seq<Seq<char>>) -> Seq<char>
    decreases parts.len(),
{
    if parts.len() == 0 {
        Seq::empty()
    } else {
        joined(parts.drop_last()) + parts.last()
    }
}

/// Lines with one more character.
pub open spec fn with_char(lines: Seq<Seq<char>>, c: char) -> Seq<Seq<char>> {
    if lines.len() == 0 || (lines.last().len() > 0 && lines.last().last() == '\n') {
        lines.push(seq![c])
    } else {
        lines.update(lines.len() - 1, lines.last().push(c))
    }
}

/// The lines of a text, each with its line break.
pub open spec fn lines_of(s: Seq<char>) -> Seq<Seq<char>>
    decreases s.len(),
{
    if s.len() == 0 {
        Seq::empty()
    } else {
        with_char(lines_of(s.drop_last()), s.last())
    }
}

/// The lines of a text make up the text.
pub proof fn law_lines_joined(s: Seq<char>)
    ensures
        joined(lines_of(s)) == s,
    decreases s.len(),
{
    if s.len() > 0 {
        let before = lines_of(s.drop_last());
        let after = lines_of(s);
        law_lines_joined(s.drop_last());
        if before.len() == 0 || (before.last().len() > 0 && before.last().last() == '\n') {
            assert(after.drop_last() =~= before);
            assert(after.last() == seq![s.last()]);
        } else {
            assert(after.drop_last() =~= before.drop_last());
            assert(after.last() == before.last().push(s.last()));
        }
        assert(joined(after) =~= s.drop_last().push(s.last()));
        assert(s.drop_last().push(s.last()) =~= s);
    }
}

/// The number of spaces at the beginning of a line.
pub open spec fn indent_of(line: Seq<char>) -> nat
    decreases line.len(),
{
    if line.len() > 0 && line[0] == ' ' {
        1 + indent_of(line.subrange(1, line.len() as int))
    } else {
        0
    }
}

/// A line begins an item of a list at column `c`: there are `c` spaces, a hyphen,
/// and a space or the end of the line.
pub open spec fn begins_item(line: Seq<char>, c: nat) -> bool {
    &&& indent_of(line) == c
    &&& line.len() > c
    &&& line[c as int] == '-'
    &&& (line.len() == c + 1 || line[c as int + 1] == ' ' || line[c as int + 1] == '\n' || line[
        c as int + 1
    ] == '\r')
}

/// What stands in front of the first item of a list, and the text of each item.
pub struct BlocksView {
    pub head: Seq<char>,
    pub blocks: Seq<Seq<char>>,
}

/// Blocks with one more line.
pub open spec fn with_line(b: BlocksView, line: Seq<char>, c: nat) -> BlocksView {
    if begins_item(line, c) {
        BlocksView { head: b.head, blocks: b.blocks.push(line) }
    } else if b.blocks.len() == 0 {
        BlocksView { head: b.head + line, blocks: b.blocks }
    } else {
        BlocksView {
            head: b.head,
            blocks: b.blocks.update(b.blocks.len() - 1, b.blocks.last() + line),
        }
    }
}

/// The blocks of a list at column `c`, in some lines.
pub open spec fn blocks_in(lines: Seq<Seq<char>>, c: nat) -> BlocksView
    decreases lines.len(),
{
    if lines.len() == 0 {
        BlocksView { head: Seq::empty(), blocks: Seq::empty() }
    } else {
        with_line(blocks_in(lines.drop_last(), c), lines.last(), c)
    }
}

/// The blocks of a list at column `c`, in a text.
pub open spec fn blocks_of(s: Seq<char>, c: nat) -> BlocksView {
    blocks_in(lines_of(s), c)
}

/// The head and the blocks of a list make up its text.
pub proof fn law_blocks_joined(s: Seq<char>, c: nat)
    ensures
        blocks_of(s, c).head + joined(blocks_of(s, c).blocks) == s,
{
    lemma_blocks_joined(lines_of(s), c);
    law_lines_joined(s);
}

proof fn lemma_blocks_joined(lines: Seq<Seq<char>>, c: nat)
    ensures
        blocks_in(lines, c).head + joined(blocks_in(lines, c).blocks) == joined(lines),
    decreases lines.len(),
{
    if lines.len() == 0 {
        assert(blocks_in(lines, c).head + joined(blocks_in(lines, c).blocks) =~= joined(lines));
    } else {
        let before = blocks_in(lines.drop_last(), c);
        let after = blocks_in(lines, c);
        let line = lines.last();
        lemma_blocks_joined(lines.drop_last(), c);
        if begins_item(line, c) {
            assert(after.blocks.drop_last() =~= before.blocks);
        } else if before.blocks.len() > 0 {
            assert(after.blocks.drop_last() =~= before.blocks.drop_last());
        }
        assert(after.head + joined(after.blocks) =~= joined(lines));
    }
}

/// A text that ends with a line break.
pub open spec fn ends_line(s: Seq<char>) -> bool {
    s.len() > 0 && s.last() == '\n'
}

/// Every line but the last ends with a line break.
proof fn lemma_lines_end(s: Seq<char>)
    ensures
        forall|i: int| 0 <= i < lines_of(s).len() - 1 ==> ends_line(#[trigger] lines_of(s)[i]),
    decreases s.len(),
{
    if s.len() > 0 {
        let before = lines_of(s.drop_last());
        let after = lines_of(s);
        lemma_lines_end(s.drop_last());
        assert forall|i: int| 0 <= i < after.len() - 1 implies ends_line(#[trigger] after[i]) by {
            assert(after[i] == before[i]);
        }
    }
}

proof fn lemma_blocks_end(lines: Seq<Seq<char>>, c: nat)
    requires
        forall|i: int| 0 <= i < lines.len() - 1 ==> ends_line(#[trigger] lines[i]),
    ensures
        ({
            let b = blocks_in(lines, c);
            &&& forall|i: int| 0 <= i < b.blocks.len() - 1 ==> ends_line(#[trigger] b.blocks[i])
            &&& b.blocks.len() > 0 && b.head.len() > 0 ==> ends_line(b.head)
            &&& lines.len() > 0 && ends_line(lines.last()) && b.blocks.len() > 0 ==> ends_line(
                b.blocks.last(),
            )
            &&& lines.len() > 0 && ends_line(lines.last()) && b.head.len() > 0 ==> ends_line(b.head)
        }),
    decreases lines.len(),
{
    if lines.len() > 0 {
        let front = lines.drop_last();
        assert forall|i: int| 0 <= i < front.len() - 1 implies ends_line(#[trigger] front[i]) by {
            assert(front[i] == lines[i]);
        }
        lemma_blocks_end(front, c);
        let before = blocks_in(front, c);
        let after = blocks_in(lines, c);
        if front.len() > 0 {
            assert(front.last() == lines[lines.len() - 2]);
        }
        assert forall|i: int| 0 <= i < after.blocks.len() - 1 implies ends_line(
            #[trigger] after.blocks[i],
        ) by {
            if i < before.blocks.len() {
                assert(after.blocks[i] == before.blocks[i]);
            }
        }
    }
}

/// What stands in front of a block ends with a line break, where it is not empty.
pub proof fn lemma_blocks_separate(s: Seq<char>, c: nat)
    ensures
        forall|i: int|
            0 <= i < blocks_of(s, c).blocks.len() - 1 ==> ends_line(
                #[trigger] blocks_of(s, c).blocks[i],
            ),
        blocks_of(s, c).blocks.len() > 0 && blocks_of(s, c).head.len() > 0 ==> ends_line(
            blocks_of(s, c).head,
        ),
{
    lemma_lines_end(s);
    lemma_blocks_end(lines_of(s), c);
}

/// The column of the first list in a block, behind its first line.
pub open spec fn inner_column(lines: Seq<Seq<char>>, i: nat) -> Option<nat>
    decreases lines.len() - i,
{
    if i >= lines.len() {
        None
    } else if begins_item(lines[i as int], indent_of(lines[i as int])) {
        Some(indent_of(lines[i as int]))
    } else {
        inner_column(lines, i + 1)
    }
}

/// A line with `c` spaces in front of it; an empty line stays empty.
pub open spec fn indented_line(line: Seq<char>, c: nat) -> Seq<char> {
    if line == seq!['\n'] {
        line
    } else {
        Seq::new(c, |i: int| ' ') + line
    }
}

/// A text with `c` spaces in front of each line.
pub open spec fn indented(lines: Seq<Seq<char>>, c: nat) -> Seq<char>
    decreases lines.len(),
{
    if lines.len() == 0 {
        Seq::empty()
    } else {
        indented(lines.drop_last(), c) + indented_line(lines.last(), c)
    }
}

/// The characters of each line.
pub open spec fn line_views(lines: Seq<Vec<char>>) -> Seq<Seq<char>> {
    Seq::new(lines.len(), |i: int| lines[i]@)
}

/// The lines of a text, each with its line break.
pub fn split_lines(s: &str) -> (r: Vec<Vec<char>>)
    ensures
        line_views(r@) == lines_of(s@),
{
    let chars = chars_of(s);
    let mut lines: Vec<Vec<char>> = Vec::new();
    let mut i: usize = 0;
    assert(line_views(lines@) =~= lines_of(s@.take(0)));
    while i < chars.len()
        invariant
            i <= chars@.len(),
            chars@ == s@,
            line_views(lines@) == lines_of(s@.take(i as int)),
        decreases chars@.len() - i,
    {
        let c = chars[i];
        let ghost before = line_views(lines@);
        assert(s@.take(i + 1).drop_last() =~= s@.take(i as int));
        let n: usize = lines.len();
        let fresh = if n == 0 {
            true
        } else {
            let m: usize = lines[n - 1].len();
            m > 0 && lines[n - 1][m - 1] == '\n'
        };
        if fresh {
            let mut line: Vec<char> = Vec::new();
            line.push(c);
            assert(line@ =~= seq![c]);
            lines.push(line);
            assert(line_views(lines@) =~= before.push(seq![c]));
        } else {
            let mut line: Vec<char> = match lines.pop() {
                Some(line) => line,
                None => Vec::new(),
            };
            line.push(c);
            lines.push(line);
            assert(line_views(lines@) =~= before.update(n - 1, before.last().push(c)));
        }
        i += 1;
    }
    assert(s@.take(i as int) =~= s@);
    lines
}

/// The number of spaces at the beginning of a line.
pub fn indent(line: &Vec<char>) -> (r: usize)
    ensures
        r == indent_of(line@),
        r <= line@.len(),
{
    let mut i: usize = 0;
    assert(line@.subrange(0, line@.len() as int) =~= line@);
    while i < line.len() && line[i] == ' '
        invariant
            i <= line@.len(),
            indent_of(line@) == i + indent_of(line@.subrange(i as int, line@.len() as int)),
        decreases line@.len() - i,
    {
        let ghost rest = line@.subrange(i as int, line@.len() as int);
        assert(rest.subrange(1, rest.len() as int) =~= line@.subrange(i + 1, line@.len() as int));
        i += 1;
    }
    i
}

/// Whether a line begins an item of a list at column `c`.
pub fn item_begins(line: &Vec<char>, c: usize) -> (r: bool)
    ensures
        r == begins_item(line@, c as nat),
{
    if indent(line) != c || line.len() <= c || line[c] != '-' {
        return false;
    }
    line.len() == c + 1 || line[c + 1] == ' ' || line[c + 1] == '\n' || line[c + 1] == '\r'
}

/// What stands in front of the first item of a list, and the text of each item.
pub struct Blocks {
    pub head: String,
    pub blocks: Vec<String>,
}

impl View for Blocks {
    type V = BlocksView;

    open spec fn view(&self) -> BlocksView {
        BlocksView { head: self.head@, blocks: crate::text::texts(self.blocks@) }
    }
}

/// Appends characters to a text.
pub fn push_all(out: &mut String, chars: &Vec<char>)
    ensures
        final(out)@ == old(out)@ + chars@,
{
    let mut i: usize = 0;
    assert(out@ =~= old(out)@ + chars@.take(0));
    while i < chars.len()
        invariant
            i <= chars@.len(),
            out@ == old(out)@ + chars@.take(i as int),
        decreases chars@.len() - i,
    {
        out.push(chars[i]);
        assert(out@ =~= old(out)@ + chars@.take(i + 1));
        i += 1;
    }
    assert(chars@.take(i as int) =~= chars@);
}

/// The blocks of a list at column `c`, in some lines.
pub fn split_blocks(lines: &Vec<Vec<char>>, c: usize) -> (r: Blocks)
    ensures
        r@ == blocks_in(line_views(lines@), c as nat),
{
    let ghost views = line_views(lines@);
    let mut out = Blocks { head: String::new(), blocks: Vec::new() };
    let mut i: usize = 0;
    assert(out@.head =~= blocks_in(views.take(0), c as nat).head);
    assert(out@.blocks =~= blocks_in(views.take(0), c as nat).blocks);
    while i < lines.len()
        invariant
            i <= lines@.len(),
            views == line_views(lines@),
            out@ == blocks_in(views.take(i as int), c as nat),
        decreases lines@.len() - i,
    {
        let ghost before = out@;
        assert(views.take(i + 1).drop_last() =~= views.take(i as int));
        assert(views.take(i + 1).last() == lines@[i as int]@);
        let line = &lines[i];
        if item_begins(line, c) {
            let mut block = String::new();
            push_all(&mut block, line);
            assert(block@ =~= line@);
            out.blocks.push(block);
            assert(out@.blocks =~= before.blocks.push(line@));
        } else {
            let n: usize = out.blocks.len();
            match out.blocks.pop() {
                Some(block) => {
                    let mut block = block;
                    push_all(&mut block, line);
                    out.blocks.push(block);
                    assert(out@.blocks =~= before.blocks.update(n - 1, before.blocks.last() + line@));
                },
                None => {
                    push_all(&mut out.head, line);
                    assert(out@.blocks =~= before.blocks);
                },
            }
        }
        i += 1;
    }
    assert(views.take(i as int) =~= views);
    out
}

/// The column of the first list in a block, behind its first line.
pub fn find_inner_column(lines: &Vec<Vec<char>>) -> (r: Option<usize>)
    ensures
        inner_column(line_views(lines@), 1) == (match r {
            Some(c) => Some(c as nat),
            None => None,
        }),
{
    if lines.len() == 0 {
        return None;
    }
    let mut i: usize = 1;
    while i < lines.len()
        invariant
            1 <= i <= lines@.len(),
            inner_column(line_views(lines@), 1) == inner_column(line_views(lines@), i as nat),
        decreases lines@.len() - i,
    {
        assert(line_views(lines@)[i as int] == lines@[i as int]@);
        let c: usize = indent(&lines[i]);
        if item_begins(&lines[i], c) {
            return Some(c);
        }
        i += 1;
    }
    None
}

/// A text with `c` spaces in front of each line.
pub fn indent_lines(lines: &Vec<Vec<char>>, c: usize) -> (r: String)
    ensures
        r@ == indented(line_views(lines@), c as nat),
{
    let ghost views = line_views(lines@);
    let mut out = String::new();
    let mut i: usize = 0;
    assert(out@ =~= indented(views.take(0), c as nat));
    while i < lines.len()
        invariant
            i <= lines@.len(),
            views == line_views(lines@),
            out@ == indented(views.take(i as int), c as nat),
        decreases lines@.len() - i,
    {
        let ghost start = out@;
        assert(views.take(i + 1).drop_last() =~= views.take(i as int));
        assert(views.take(i + 1).last() == lines@[i as int]@);
        let line = &lines[i];
        let empty = line.len() == 1 && line[0] == '\n';
        assert(empty == (line@ == seq!['\n'])) by {
            if empty {
                assert(line@ =~= seq!['\n']);
            }
        }
        if !empty {
            let ghost spaces = Seq::new(c as nat, |i: int| ' ');
            let mut j: usize = 0;
            assert(out@ =~= start + spaces.take(0));
            while j < c
                invariant
                    j <= c,
                    spaces == Seq::new(c as nat, |i: int| ' '),
                    out@ == start + spaces.take(j as int),
                decreases c - j,
            {
                out.push(' ');
                assert(out@ =~= start + spaces.take(j + 1));
                j += 1;
            }
            assert(spaces.take(j as int) =~= spaces);
        }
        push_all(&mut out, line);
        assert(out@ =~= start + indented_line(line@, c as nat));
        i += 1;
    }
    assert(views.take(i as int) =~= views);
    out
}

} // verus!
