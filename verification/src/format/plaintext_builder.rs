//! A builder of Plaintext patterns from a set of live cells, a name and a comment.

use vstd::prelude::*;

use crate::format::cells::{cell_lt, cells_sorted, group_rows, group_rows_exec, CellList};
use crate::format::plaintext::{
    contents_wf, option_string_view, plaintext_cells, plaintext_lines_view, row_cells,
    strictly_ascending, strings_view, Plaintext, PlaintextLine,
};
use crate::format::FormatError;
use crate::position::Position;
use crate::text::{chars_of, lines, string_of};

verus! {

/// The rows of sorted positions are well-formed, and give the positions back in order.
pub proof fn lemma_group_rows(cells: Seq<Position<usize>>)
    requires
        cells_sorted(cells),
    ensures
        contents_wf(group_rows(cells)),
        plaintext_cells(group_rows(cells)) == cells,
        cells.len() > 0 ==> group_rows(cells).len() > 0 && group_rows(cells).last().0
            == cells.last().1 && group_rows(cells).last().1.last() == cells.last().0,
    decreases cells.len(),
{
    if cells.len() > 0 {
        let init = cells.drop_last();
        assert(cells_sorted(init)) by {
            assert forall|i: int, j: int| 0 <= i < j < init.len() implies cell_lt(
                #[trigger] init[i],
                #[trigger] init[j],
            ) by {
                assert(init[i] == cells[i]);
                assert(init[j] == cells[j]);
            }
        }
        lemma_group_rows(init);
        let g = group_rows(init);
        let p = cells.last();
        if init.len() > 0 {
            assert(cell_lt(cells[init.len() - 1], cells[cells.len() - 1]));
            assert(init.last() == cells[init.len() - 1]);
        }
        if g.len() > 0 && g.last().0 == p.1 {
            let r = g.last();
            let nr = (p.1, r.1.push(p.0));
            let ng = g.drop_last().push(nr);
            assert(ng == group_rows(cells));
            assert(strictly_ascending(nr.1)) by {
                assert(strictly_ascending(g[g.len() - 1].1));
                assert forall|a: int, b: int| 0 <= a < b < nr.1.len() implies #[trigger] nr.1[a]
                    < #[trigger] nr.1[b] by {
                    if b < nr.1.len() - 1 {
                        assert(nr.1[a] == r.1[a]);
                        assert(nr.1[b] == r.1[b]);
                    } else if a < r.1.len() - 1 {
                        assert(nr.1[a] == r.1[a]);
                        assert(r.1[a] < r.1[r.1.len() - 1]);
                    }
                }
            }
            assert forall|i: int, j: int| 0 <= i < j < ng.len() implies #[trigger] ng[i].0
                < #[trigger] ng[j].0 by {
                assert(ng[i] == g[i]);
                if j < ng.len() - 1 {
                    assert(ng[j] == g[j]);
                } else {
                    assert(g[i].0 < g[g.len() - 1].0);
                }
            }
            assert forall|i: int| 0 <= i < ng.len() implies #[trigger] ng[i].1.len() > 0
                && strictly_ascending(ng[i].1) by {
                if i < ng.len() - 1 {
                    assert(ng[i] == g[i]);
                }
            }
            assert(g.drop_last().push(r) == g);
            assert(plaintext_cells(g) == plaintext_cells(g.drop_last()) + row_cells(r.0, r.1));
            assert(ng.drop_last() == g.drop_last());
            assert(nr.1.drop_last() =~= r.1);
            assert(nr.1.last() == p.0);
            assert(row_cells(nr.0, nr.1) == row_cells(r.0, r.1).push(Position(p.0, p.1)));
            assert(cells == init.push(p));
            assert(plaintext_cells(ng) =~= cells);
        } else {
            let nr = (p.1, seq![p.0]);
            let ng = g.push(nr);
            assert(ng == group_rows(cells));
            assert forall|i: int, j: int| 0 <= i < j < ng.len() implies #[trigger] ng[i].0
                < #[trigger] ng[j].0 by {
                assert(ng[i] == g[i]);
                if j < ng.len() - 1 {
                    assert(ng[j] == g[j]);
                } else {
                    assert(g[i].0 <= g[g.len() - 1].0);
                }
            }
            assert forall|i: int| 0 <= i < ng.len() implies #[trigger] ng[i].1.len() > 0
                && strictly_ascending(ng[i].1) by {
                if i < ng.len() - 1 {
                    assert(ng[i] == g[i]);
                }
            }
            assert(ng.drop_last() == g);
            assert(row_cells(nr.0, nr.1) =~= seq![Position(p.0, p.1)]) by {
                assert(nr.1.drop_last() =~= Seq::<usize>::empty());
                assert(row_cells(nr.0, nr.1.drop_last()) == Seq::<Position<usize>>::empty());
                assert(row_cells(nr.0, nr.1) == row_cells(nr.0, nr.1.drop_last()).push(
                    Position(p.0, p.1),
                ));
            }
            assert(cells == init.push(p));
            assert(plaintext_cells(ng) =~= cells);
        }
    }
}

/// The name part of a Plaintext builder's state: whether a name was given.
pub trait PlaintextBuilderName: Sized {
    /// The name given, if any.
    spec fn spec_name(&self) -> Option<Seq<char>>;

    /// Hands out the name given, if any.
    fn drain(self) -> (r: Option<String>)
        ensures
            option_string_view(r) == self.spec_name(),
    ;
}

/// The comment part of a Plaintext builder's state: whether a comment was given.
pub trait PlaintextBuilderComment: Sized {
    /// The comment given, if any.
    spec fn spec_comment(&self) -> Option<Seq<char>>;

    /// Hands out the comment given, if any.
    fn drain(self) -> (r: Option<String>)
        ensures
            option_string_view(r) == self.spec_comment(),
    ;
}

/// No name was given.
pub struct PlaintextBuilderNoName;

/// A name was given.
pub struct PlaintextBuilderWithName(String);

/// No comment was given.
pub struct PlaintextBuilderNoComment;

/// A comment was given.
pub struct PlaintextBuilderWithComment(String);

impl PlaintextBuilderName for PlaintextBuilderNoName {
    open spec fn spec_name(&self) -> Option<Seq<char>> {
        None
    }

    fn drain(self) -> (r: Option<String>) {
        None
    }
}

impl PlaintextBuilderName for PlaintextBuilderWithName {
    closed spec fn spec_name(&self) -> Option<Seq<char>> {
        Some(self.0@)
    }

    fn drain(self) -> (r: Option<String>) {
        Some(self.0)
    }
}

impl PlaintextBuilderComment for PlaintextBuilderNoComment {
    open spec fn spec_comment(&self) -> Option<Seq<char>> {
        None
    }

    fn drain(self) -> (r: Option<String>) {
        None
    }
}

impl PlaintextBuilderComment for PlaintextBuilderWithComment {
    closed spec fn spec_comment(&self) -> Option<Seq<char>> {
        Some(self.0@)
    }

    fn drain(self) -> (r: Option<String>) {
        Some(self.0)
    }
}

/// A builder of `Plaintext` patterns: a set of live cells, and at most one name and
/// one comment (the type says whether each was given).
pub struct PlaintextBuilder<Name = PlaintextBuilderNoName, Comment = PlaintextBuilderNoComment> where
    Name: PlaintextBuilderName,
    Comment: PlaintextBuilderComment,
 {
    name: Name,
    comment: Comment,
    contents: CellList,
}

/// The comment lines that a comment gives: its lines, or one empty comment when it
/// has none; no comment lines for no comment.
pub open spec fn plaintext_comment_lines(comment: Option<Seq<char>>) -> Seq<Seq<char>> {
    match comment {
        Some(c) => if lines(c).len() == 0 {
            seq![seq![]]
        } else {
            lines(c)
        },
        None => seq![],
    }
}

/// A text with characters has at least one line, and the empty text has none.
proof fn lemma_lines_nonempty(c: Option<Seq<char>>)
    ensures
        c matches Some(t) ==> (t.len() > 0 <==> lines(t).len() > 0),
{
    if let Some(t) = c {
        if t.len() > 0 {
            let i = crate::text::first_in(t, crate::text::CharClass::Exactly('\n'));
            assert(lines(t).len() >= 1);
        }
    }
}

/// A non-empty comment gives one comment line for each of its lines, empty lines
/// included, in order; an empty comment gives one empty comment line.
pub proof fn lemma_plaintext_comment_lines(c: Seq<char>)
    ensures
        c.len() > 0 ==> plaintext_comment_lines(Some(c)).len() == lines(c).len() && forall|i: int|
            0 <= i < lines(c).len() ==> #[trigger] plaintext_comment_lines(Some(c))[i] == lines(c)[i],
        c.len() == 0 ==> plaintext_comment_lines(Some(c)) == seq![Seq::<char>::empty()],
{
    lemma_lines_nonempty(Some(c));
    if c.len() == 0 {
        assert(lines(c) == Seq::<Seq<char>>::empty());
    }
}

/// The lines of `s`, each a `String`.
pub(crate) fn lines_of(s: &String) -> (res: Vec<String>)
    ensures
        strings_view(res@) == lines(s@),
{
    let v = chars_of(s.as_str());
    let ls = crate::format::split_lines(&v);
    let mut res: Vec<String> = Vec::new();
    for i in 0..ls.len()
        invariant
            strings_view(res@) == crate::format::views(ls@).take(i as int),
    {
        res.push(string_of(&ls[i]));
        assert(crate::format::views(ls@).take(i + 1) == crate::format::views(ls@).take(i as int).push(
            ls@[i as int]@,
        ));
        assert(strings_view(res@) =~= crate::format::views(ls@).take(i + 1));
    }
    assert(crate::format::views(ls@).take(ls.len() as int) == crate::format::views(ls@));
    res
}

impl PlaintextBuilder<PlaintextBuilderNoName, PlaintextBuilderNoComment> {
    /// Creates a builder with no live cells, no name and no comment.
    pub fn new() -> (r: Self)
        ensures
            r.spec_cells() == Seq::<Position<usize>>::empty(),
            r.spec_name() is None,
            r.spec_comment() is None,
    {
        PlaintextBuilder {
            name: PlaintextBuilderNoName,
            comment: PlaintextBuilderNoComment,
            contents: CellList::new(),
        }
    }

    /// Creates a builder whose live cells are `positions`.
    pub fn from_iter(positions: &[Position<usize>]) -> (r: Self)
        ensures
            r.spec_cells().to_set() == positions@.to_set(),
            r.spec_name() is None,
            r.spec_comment() is None,
    {
        let mut b = Self::new();
        b.extend(positions);
        assert(Seq::<Position<usize>>::empty().to_set().union(positions@.to_set()) =~= positions@.to_set());
        b
    }
}

impl<Name: PlaintextBuilderName, Comment: PlaintextBuilderComment> PlaintextBuilder<Name, Comment> {
    /// The live cells, in ascending row order.
    pub closed spec fn spec_cells(self) -> Seq<Position<usize>> {
        self.contents.spec_cells()
    }

    /// The name given, if any.
    pub closed spec fn spec_name(self) -> Option<Seq<char>> {
        self.name.spec_name()
    }

    /// The comment given, if any.
    pub closed spec fn spec_comment(self) -> Option<Seq<char>> {
        self.comment.spec_comment()
    }

    /// The live cells are kept in strictly ascending row order.
    #[verifier::type_invariant]
    spec fn inv(self) -> bool {
        self.contents.wf()
    }

    /// Makes the cells at `positions` live.
    pub fn extend(&mut self, positions: &[Position<usize>])
        ensures
            final(self).spec_cells().to_set() == old(self).spec_cells().to_set().union(
                positions@.to_set(),
            ),
            final(self).spec_name() == old(self).spec_name(),
            final(self).spec_comment() == old(self).spec_comment(),
    {
        proof {
            use_type_invariant(&*self);
        }
        let mut contents = CellList::new();
        std::mem::swap(&mut contents, &mut self.contents);
        contents.extend(positions);
        self.contents = contents;
    }

    /// Builds the pattern: the name, the lines of the comment (one empty comment for
    /// a comment without lines), and the live cells grouped into rows. A name that
    /// spans more than one line is refused.
    pub fn build(self) -> (res: Result<Plaintext, FormatError>)
        ensures
            match self.spec_name() {
                Some(n) if lines(n).len() > 1 => res == Err::<Plaintext, FormatError>(
                    FormatError::MultilineName,
                ),
                _ => res matches Ok(p) && p.spec_name() == self.spec_name() && p.spec_comments()
                    == plaintext_comment_lines(self.spec_comment()) && p.spec_contents()
                    == group_rows(self.spec_cells()) && plaintext_cells(p.spec_contents())
                    == self.spec_cells(),
            },
            res matches Ok(p) ==> ({
                let c = self.spec_comment()->Some_0;
                self.spec_comment() is Some && c.len() > 0 ==> p.spec_comments().len()
                    == lines(c).len() && forall|i: int|
                    0 <= i < lines(c).len() ==> #[trigger] p.spec_comments()[i] == lines(c)[i]
            }),
            res matches Ok(p) ==> (self.spec_comment() == Some(Seq::<char>::empty())
                ==> p.spec_comments() == seq![Seq::<char>::empty()]),
            res matches Ok(p) ==> (self.spec_comment() is None ==> p.spec_comments().len() == 0),
    {
        proof {
            lemma_lines_nonempty(self.spec_comment());
        }
        proof {
            use_type_invariant(&self);
        }
        let ghost cells = self.spec_cells();
        let ghost comment = self.spec_comment();
        let name = self.name.drain();
        match &name {
            Some(n) => {
                let name_lines = lines_of(n);
                if name_lines.len() > 1 {
                    return Err(FormatError::MultilineName);
                }
            },
            None => {},
        }
        let comments = match self.comment.drain() {
            Some(c) => {
                let buf = lines_of(&c);
                if buf.len() == 0 {
                    let mut v: Vec<String> = Vec::new();
                    v.push(String::new());
                    assert(strings_view(v@) =~= seq![seq![]]);
                    v
                } else {
                    buf
                }
            },
            None => {
                let v: Vec<String> = Vec::new();
                assert(strings_view(v@) =~= seq![]);
                v
            },
        };
        let rows = group_rows_exec(self.contents.cells());
        let mut contents: Vec<PlaintextLine> = Vec::new();
        let mut rows = rows;
        let n = rows.len();
        let ghost rows_view = rows@.map_values(|r: (usize, Vec<usize>)| (r.0, r.1@));
        let mut i: usize = 0;
        while i < n
            invariant
                0 <= i <= n == rows@.len(),
                rows_view.len() == n,
                forall|j: int| i <= j < n ==> (#[trigger] rows@[j].0, rows@[j].1@) == rows_view[j],
                plaintext_lines_view(contents@) == rows_view.take(i as int),
            decreases n - i,
        {
            let mut xs: Vec<usize> = Vec::new();
            std::mem::swap(&mut xs, &mut rows[i].1);
            let y = rows[i].0;
            assert((y, xs@) == rows_view[i as int]);
            let ghost before = contents@;
            assert(plaintext_lines_view(before).len() == before.len());
            assert(before.len() == i);
            contents.push(PlaintextLine(y, xs));
            proof {
                assert(contents@ == before.push(PlaintextLine(y, xs)));
                assert forall|k: int| 0 <= k < i + 1 implies #[trigger] plaintext_lines_view(
                    contents@,
                )[k] == rows_view.take(i + 1)[k] by {
                    if k < i {
                        assert(contents@[k] == before[k]);
                        assert(plaintext_lines_view(before)[k] == rows_view.take(i as int)[k]);
                    }
                }
            }
            assert(plaintext_lines_view(contents@) =~= rows_view.take(i + 1));
            i += 1;
        }
        assert(rows_view.take(n as int) == rows_view);
        proof {
            self.contents.lemma_sorted();
            lemma_group_rows(cells);
        }
        Ok(Plaintext::from_parts(name, comments, contents))
    }
}

impl<Comment: PlaintextBuilderComment> PlaintextBuilder<PlaintextBuilderNoName, Comment> {
    /// Sets the name.
    pub fn name(self, str: &str) -> (r: PlaintextBuilder<PlaintextBuilderWithName, Comment>)
        ensures
            r.spec_name() == Some(str@),
            r.spec_comment() == self.spec_comment(),
            r.spec_cells() == self.spec_cells(),
    {
        proof {
            use_type_invariant(&self);
        }
        PlaintextBuilder {
            name: PlaintextBuilderWithName(str.to_owned()),
            comment: self.comment,
            contents: self.contents,
        }
    }
}

impl<Name: PlaintextBuilderName> PlaintextBuilder<Name, PlaintextBuilderNoComment> {
    /// Sets the comment; each of its lines becomes a comment line.
    pub fn comment(self, str: &str) -> (r: PlaintextBuilder<Name, PlaintextBuilderWithComment>)
        ensures
            r.spec_comment() == Some(str@),
            r.spec_name() == self.spec_name(),
            r.spec_cells() == self.spec_cells(),
    {
        proof {
            use_type_invariant(&self);
        }
        PlaintextBuilder {
            name: self.name,
            comment: PlaintextBuilderWithComment(str.to_owned()),
            contents: self.contents,
        }
    }
}

impl Default for PlaintextBuilder<PlaintextBuilderNoName, PlaintextBuilderNoComment> {
    /// The same as `PlaintextBuilder::new()`.
    fn default() -> (r: Self)
        ensures
            r.spec_cells() == Seq::<Position<usize>>::empty(),
            r.spec_name() is None,
            r.spec_comment() is None,
    {
        Self::new()
    }
}

} // verus!
