//! The Plaintext pattern format: `!Name:` and `!` comment lines, then rows of `'.'`
//! (dead) and `'O'` (live).

use vstd::prelude::*;

use crate::format::{
    byte_lines, byte_views, decode_utf8, lemma_byte_lines_len, split_byte_lines, split_lines, views,
    Format, FormatError,
};
use crate::position::Position;
use crate::rule::{conways_birth, conways_survival, Rule};
use crate::text::{
    chars_of, has_prefix, has_prefix_exec,
    lemma_lines_len, lines, string_of, sub_chars,
};

verus! {

/// A row of a Plaintext pattern that holds live cells: its y-coordinate and the
/// x-coordinates of its live cells.
#[derive(Clone, PartialEq, Eq, Debug)]
pub struct PlaintextLine(pub usize, pub Vec<usize>);

/// A pattern in the Plaintext format.
#[derive(Debug)]
pub struct Plaintext {
    name: Option<String>,
    comments: Vec<String>,
    contents: Vec<PlaintextLine>,
}

/// What a Plaintext parser has read so far: the name, the comments, the number of
/// content lines, and the content lines that hold live cells.
pub struct PlaintextModel {
    pub name: Option<Seq<char>>,
    pub comments: Seq<Seq<char>>,
    pub lines: nat,
    pub contents: Seq<(usize, Seq<usize>)>,
}

/// The characters `"!Name: "`.
pub open spec fn name_prefix() -> Seq<char> {
    seq!['!', 'N', 'a', 'm', 'e', ':', ' ']
}

/// The x-coordinates of the `'O'`s of a content line, or `None` when it holds a
/// character other than `'.'` and `'O'`.
pub open spec fn content_of_line(line: Seq<char>) -> Option<Seq<usize>>
    decreases line.len(),
{
    if line.len() == 0 {
        Some(seq![])
    } else {
        match content_of_line(line.drop_last()) {
            None => None,
            Some(xs) => if line.last() == '.' {
                Some(xs)
            } else if line.last() == 'O' {
                Some(xs.push((line.len() - 1) as usize))
            } else {
                None
            },
        }
    }
}

/// The state of a Plaintext parser after one more line, or `None` when the line
/// is a content line with a character other than `'.'` and `'O'`. Before any content
/// line, a first line `"!Name: ..."` gives the name and a line `"!..."` a comment.
pub open spec fn plaintext_push(st: PlaintextModel, line: Seq<char>) -> Option<PlaintextModel> {
    if st.name is None && st.comments.len() == 0 && st.lines == 0 && has_prefix(line, name_prefix()) {
        Some(PlaintextModel { name: Some(line.skip(7)), comments: st.comments, lines: st.lines, contents: st.contents })
    } else if st.lines == 0 && has_prefix(line, seq!['!']) {
        Some(PlaintextModel { name: st.name, comments: st.comments.push(line.skip(1)), lines: st.lines, contents: st.contents })
    } else {
        match content_of_line(line) {
            None => None,
            Some(xs) => Some(
                PlaintextModel {
                    name: st.name,
                    comments: st.comments,
                    lines: st.lines + 1,
                    contents: if xs.len() > 0 {
                        st.contents.push((st.lines as usize, xs))
                    } else {
                        st.contents
                    },
                },
            ),
        }
    }
}

/// The outcome of reading one more line in state `st`.
pub open spec fn plaintext_step(st: PlaintextModel, line: Seq<char>) -> Result<PlaintextModel, FormatError> {
    match plaintext_push(st, line) {
        Some(m) => Ok(m),
        None => Err(FormatError::InvalidCharacter),
    }
}

/// The outcome of reading the lines `ls`: the state after the last one, or the
/// error of the first one that cannot be read.
pub open spec fn plaintext_read(ls: Seq<Seq<char>>) -> Result<PlaintextModel, FormatError>
    decreases ls.len(),
{
    if ls.len() == 0 {
        Ok(PlaintextModel { name: None, comments: seq![], lines: 0, contents: seq![] })
    } else {
        match plaintext_read(ls.drop_last()) {
            Err(e) => Err(e),
            Ok(st) => plaintext_step(st, ls.last()),
        }
    }
}

/// The outcome of reading the byte lines `bls`: each must be UTF-8 text, read as
/// `plaintext_step` reads a line; the state after the last one, or the error of the
/// first one that cannot be read.
pub open spec fn plaintext_read_bytes(bls: Seq<Seq<u8>>) -> Result<PlaintextModel, FormatError>
    decreases bls.len(),
{
    if bls.len() == 0 {
        Ok(PlaintextModel { name: None, comments: seq![], lines: 0, contents: seq![] })
    } else {
        match plaintext_read_bytes(bls.drop_last()) {
            Err(e) => Err(e),
            Ok(st) => if vstd::utf8::valid_utf8(bls.last()) {
                plaintext_step(st, vstd::utf8::decode_utf8(bls.last()))
            } else {
                Err(FormatError::InvalidUtf8)
            },
        }
    }
}

pub open spec fn option_string_view(s: Option<String>) -> Option<Seq<char>> {
    match s {
        Some(s) => Some(s@),
        None => None,
    }
}

pub open spec fn strings_view(v: Seq<String>) -> Seq<Seq<char>> {
    v.map_values(|s: String| s@)
}

pub open spec fn plaintext_lines_view(v: Seq<PlaintextLine>) -> Seq<(usize, Seq<usize>)> {
    v.map_values(|l: PlaintextLine| (l.0, l.1@))
}

/// The x-coordinates of the `'O'`s of a content line.
fn parse_content_line(line: &Vec<char>) -> (res: Option<Vec<usize>>)
    ensures
        match (res, content_of_line(line@)) {
            (Some(xs), Some(spec_xs)) => xs@ == spec_xs,
            (None, None) => true,
            _ => false,
        },
{
    let mut xs: Vec<usize> = Vec::new();
    for i in 0..line.len()
        invariant
            content_of_line(line@.take(i as int)) == Some(xs@),
    {
        assert(line@.take(i + 1).drop_last() == line@.take(i as int));
        let c = line[i];
        if c == 'O' {
            xs.push(i);
        } else if c != '.' {
            proof {
                lemma_content_error_stays(line@, i + 1);
            }
            return None;
        }
    }
    assert(line@.take(line.len() as int) == line@);
    Some(xs)
}

/// A content line with a bad character among its first `k` is bad.
proof fn lemma_content_error_stays(line: Seq<char>, k: int)
    requires
        0 <= k <= line.len(),
        content_of_line(line.take(k)) is None,
    ensures
        content_of_line(line) is None,
    decreases line.len() - k,
{
    if k < line.len() {
        assert(line.take(k + 1).drop_last() == line.take(k));
        lemma_content_error_stays(line, k + 1);
    } else {
        assert(line.take(k) == line);
    }
}

/// The values are in strictly ascending order.
pub open spec fn strictly_ascending(xs: Seq<usize>) -> bool {
    forall|a: int, b: int| 0 <= a < b < xs.len() ==> #[trigger] xs[a] < #[trigger] xs[b]
}

/// Rows of live cells as the Plaintext format holds them: y-coordinates in strictly
/// ascending order, each row with at least one live cell, x-coordinates in strictly
/// ascending order.
pub open spec fn contents_wf(c: Seq<(usize, Seq<usize>)>) -> bool {
    &&& forall|i: int, j: int| 0 <= i < j < c.len() ==> #[trigger] c[i].0 < #[trigger] c[j].0
    &&& forall|i: int| 0 <= i < c.len() ==> #[trigger] c[i].1.len() > 0 && strictly_ascending(c[i].1)
}

/// The cell at `(x, y)` is live in the rows `c`.
pub open spec fn cell_live(c: Seq<(usize, Seq<usize>)>, x: int, y: int) -> bool {
    exists|i: int| 0 <= i < c.len() && #[trigger] c[i].0 == y && c[i].1.contains(x as usize) && 0 <= x
}

/// The largest x-coordinate of the live cells of rows whose x-coordinates ascend
/// (-1 when there are none).
pub open spec fn contents_max_x(c: Seq<(usize, Seq<usize>)>) -> int
    decreases c.len(),
{
    if c.len() == 0 {
        -1
    } else {
        let m = contents_max_x(c.drop_last());
        let l = c.last().1.last() as int;
        if m > l {
            m
        } else {
            l
        }
    }
}

/// The row of the grid for `y`: `width` cells, `'O'` live and `'.'` dead.
pub open spec fn grid_row(c: Seq<(usize, Seq<usize>)>, y: int, width: nat) -> Seq<char> {
    Seq::new(width, |x: int| if cell_live(c, x, y) { 'O' } else { '.' })
}

/// The first `n` rows of the grid, each ended by `'\n'`.
pub open spec fn grid_rows(c: Seq<(usize, Seq<usize>)>, width: nat, n: nat) -> Seq<char>
    decreases n,
{
    if n == 0 {
        seq![]
    } else {
        grid_rows(c, width, (n - 1) as nat) + grid_row(c, n - 1, width) + seq!['\n']
    }
}

/// The grid of the Plaintext text: rows from y = 0 to the last row with a live cell,
/// each as wide as the largest x-coordinate of a live cell plus one; no rows when no
/// cell is live.
pub open spec fn plaintext_grid(c: Seq<(usize, Seq<usize>)>) -> Seq<char> {
    if c.len() == 0 {
        seq![]
    } else {
        grid_rows(c, (contents_max_x(c) + 1) as nat, (c.last().0 + 1) as nat)
    }
}

/// The comment lines of the Plaintext text: `'!'`, the comment, `'\n'`.
pub open spec fn comment_lines(cs: Seq<Seq<char>>) -> Seq<char>
    decreases cs.len(),
{
    if cs.len() == 0 {
        seq![]
    } else {
        comment_lines(cs.drop_last()) + seq!['!'] + cs.last() + seq!['\n']
    }
}

/// The text of a pattern in the Plaintext format: the name line, the comment lines
/// and the grid.
pub open spec fn plaintext_text(
    name: Option<Seq<char>>,
    comments: Seq<Seq<char>>,
    c: Seq<(usize, Seq<usize>)>,
) -> Seq<char> {
    let name_line = match name {
        Some(n) => name_prefix() + n + seq!['\n'],
        None => seq![],
    };
    name_line + comment_lines(comments) + plaintext_grid(c)
}

/// No coordinate of a live cell is `usize::MAX`, so that the text can count one past each.
pub open spec fn contents_fit(c: Seq<(usize, Seq<usize>)>) -> bool {
    forall|i: int|
        0 <= i < c.len() ==> #[trigger] c[i].0 < usize::MAX && forall|k: int|
            0 <= k < c[i].1.len() ==> #[trigger] c[i].1[k] < usize::MAX
}

/// The rows a parser has read are well-formed, above the number of lines read, and
/// their positions stay below `usize::MAX`.
pub open spec fn model_wf(m: PlaintextModel) -> bool {
    &&& contents_wf(m.contents)
    &&& forall|i: int| 0 <= i < m.contents.len() ==> #[trigger] m.contents[i].0 < m.lines
    &&& contents_fit(m.contents)
}

proof fn lemma_content_of_line_sorted(line: Seq<char>)
    requires
        line.len() <= usize::MAX,
    ensures
        content_of_line(line) matches Some(xs) ==> strictly_ascending(xs) && forall|k: int|
            0 <= k < xs.len() ==> #[trigger] xs[k] < line.len(),
    decreases line.len(),
{
    if line.len() > 0 {
        lemma_content_of_line_sorted(line.drop_last());
        if let Some(xs) = content_of_line(line) {
            if line.last() == 'O' {
                let prev = content_of_line(line.drop_last()).unwrap();
                assert(xs == prev.push((line.len() - 1) as usize));
                assert forall|a: int, b: int| 0 <= a < b < xs.len() implies #[trigger] xs[a]
                    < #[trigger] xs[b] by {
                    if b == xs.len() - 1 {
                        assert(xs[a] == prev[a]);
                        assert(xs[b] == (line.len() - 1) as usize);
                        assert(prev[a] < line.drop_last().len());
                    } else {
                        assert(xs[a] == prev[a]);
                        assert(xs[b] == prev[b]);
                    }
                }
                assert forall|k: int| 0 <= k < xs.len() implies #[trigger] xs[k] < line.len() by {
                    if k < prev.len() {
                        assert(xs[k] == prev[k]);
                    }
                }
            }
        }
    }
}

proof fn lemma_push_wf(st: PlaintextModel, line: Seq<char>)
    requires
        model_wf(st),
        st.lines < usize::MAX,
        line.len() <= usize::MAX,
    ensures
        plaintext_push(st, line) matches Some(m) ==> model_wf(m),
{
    lemma_content_of_line_sorted(line);
    if let Some(m) = plaintext_push(st, line) {
        if m.contents.len() > st.contents.len() {
            let xs = content_of_line(line).unwrap();
            assert(m.contents == st.contents.push((st.lines as usize, xs)));
            assert forall|i: int, j: int| 0 <= i < j < m.contents.len() implies #[trigger] m.contents[i].0
                < #[trigger] m.contents[j].0 by {
                if j == st.contents.len() {
                    assert(m.contents[i] == st.contents[i]);
                } else {
                    assert(m.contents[i] == st.contents[i]);
                    assert(m.contents[j] == st.contents[j]);
                }
            }
            assert forall|i: int| 0 <= i < m.contents.len() implies #[trigger] m.contents[i].1.len() > 0
                && strictly_ascending(m.contents[i].1) by {
                if i < st.contents.len() {
                    assert(m.contents[i] == st.contents[i]);
                }
            }
            assert forall|i: int| 0 <= i < m.contents.len() implies #[trigger] m.contents[i].0 < m.lines by {
                if i < st.contents.len() {
                    assert(m.contents[i] == st.contents[i]);
                }
            }
            assert forall|i: int| 0 <= i < m.contents.len() implies #[trigger] m.contents[i].0
                < usize::MAX && forall|k: int| 0 <= k < m.contents[i].1.len() ==> #[trigger] m.contents[i].1[k]
                < usize::MAX by {
                if i < st.contents.len() {
                    assert(m.contents[i] == st.contents[i]);
                }
            }
        }
    }
}

/// A Plaintext parser: the state of `PlaintextModel`, held in executable values.
struct PlaintextParser {
    name: Option<String>,
    comments: Vec<String>,
    lines: usize,
    contents: Vec<PlaintextLine>,
}

impl PlaintextParser {
    spec fn model(self) -> PlaintextModel {
        PlaintextModel {
            name: option_string_view(self.name),
            comments: strings_view(self.comments@),
            lines: self.lines as nat,
            contents: plaintext_lines_view(self.contents@),
        }
    }

    fn new() -> (r: Self)
        ensures
            r.model() == (PlaintextModel { name: None, comments: seq![], lines: 0, contents: seq![] }),
    {
        let r = PlaintextParser { name: None, comments: Vec::new(), lines: 0, contents: Vec::new() };
        assert(strings_view(r.comments@) =~= seq![]);
        assert(plaintext_lines_view(r.contents@) =~= seq![]);
        r
    }

    /// Reads one more line.
    fn push(&mut self, line: &Vec<char>) -> (res: Result<(), FormatError>)
        requires
            old(self).lines < usize::MAX,
        ensures
            match plaintext_step(old(self).model(), line@) {
                Ok(m) => res is Ok && final(self).model() == m,
                Err(e) => res == Err::<(), FormatError>(e) && final(self).model() == old(self).model(),
            },
    {
        let name_prefix_chars: [char; 7] = ['!', 'N', 'a', 'm', 'e', ':', ' '];
        let comment_prefix: [char; 1] = ['!'];
        assert(name_prefix_chars@ =~= name_prefix());
        assert(comment_prefix@ =~= seq!['!']);
        if self.name.is_none() && self.comments.len() == 0 && self.lines == 0 && has_prefix_exec(
            line,
            name_prefix_chars.as_slice(),
        ) {
            let name = sub_chars(line, 7, line.len());
            self.name = Some(string_of(&name));
            return Ok(());
        }
        if self.lines == 0 && has_prefix_exec(line, comment_prefix.as_slice()) {
            let comment = sub_chars(line, 1, line.len());
            let ghost before = self.comments@;
            self.comments.push(string_of(&comment));
            assert(strings_view(self.comments@) =~= strings_view(before).push(line@.skip(1)));
            return Ok(());
        }
        match parse_content_line(line) {
            None => Err(FormatError::InvalidCharacter),
            Some(xs) => {
                if xs.len() > 0 {
                    let ghost before = self.contents@;
                    let ghost xs_view = xs@;
                    self.contents.push(PlaintextLine(self.lines, xs));
                    assert(plaintext_lines_view(self.contents@) =~= plaintext_lines_view(
                        before,
                    ).push((self.lines, xs_view)));
                }
                self.lines = self.lines + 1;
                Ok(())
            },
        }
    }
}

impl Plaintext {
    /// The rows of a pattern are kept well-formed.
    #[verifier::type_invariant]
    spec fn inv(self) -> bool {
        contents_wf(plaintext_lines_view(self.contents@))
    }

    /// The name of the pattern.
    pub closed spec fn spec_name(self) -> Option<Seq<char>> {
        option_string_view(self.name)
    }

    /// The comments of the pattern.
    pub closed spec fn spec_comments(self) -> Seq<Seq<char>> {
        strings_view(self.comments@)
    }

    /// The rows that hold live cells: each y-coordinate with the x-coordinates of its
    /// live cells.
    pub closed spec fn spec_contents(self) -> Seq<(usize, Seq<usize>)> {
        plaintext_lines_view(self.contents@)
    }

    /// The pattern holds what a parser has read.
    pub open spec fn matches_model(self, m: PlaintextModel) -> bool {
        self.spec_name() == m.name && self.spec_comments() == m.comments && self.spec_contents()
            == m.contents
    }

    /// Parses the text of a pattern in the Plaintext format, given as characters.
    fn parse_chars(v: &Vec<char>) -> (res: Result<Plaintext, FormatError>)
        ensures
            match plaintext_read(lines(v@)) {
                Ok(m) => res matches Ok(p) && p.matches_model(m),
                Err(e) => res == Err::<Plaintext, FormatError>(e),
            },
            res matches Ok(p) ==> contents_fit(p.spec_contents()),
    {
        let ls = split_lines(v);
        proof {
            lemma_lines_len(v@);
        }
        let mut parser = PlaintextParser::new();
        for i in 0..ls.len()
            invariant
                views(ls@) == lines(v@),
                ls@.len() <= v@.len(),
                parser.lines <= i,
                plaintext_read(views(ls@).take(i as int)) == Ok::<PlaintextModel, FormatError>(parser.model()),
                model_wf(parser.model()),
        {
            let line_len = ls[i].len();
            proof {
                lemma_push_wf(parser.model(), ls@[i as int]@);
            }
            assert(views(ls@).take(i + 1).drop_last() == views(ls@).take(i as int));
            assert(views(ls@).take(i + 1).last() == ls@[i as int]@);
            let r = parser.push(&ls[i]);
            match r {
                Err(e) => {
                    proof {
                        lemma_plaintext_error_stays(views(ls@), i + 1);
                    }
                    return Err(e);
                },
                Ok(()) => {},
            }
        }
        assert(views(ls@).take(ls.len() as int) == views(ls@));
        Ok(Plaintext { name: parser.name, comments: parser.comments, contents: parser.contents })
    }

    /// A pattern made of a name, comments and well-formed rows.
    pub(crate) fn from_parts(
        name: Option<String>,
        comments: Vec<String>,
        contents: Vec<PlaintextLine>,
    ) -> (p: Plaintext)
        requires
            contents_wf(plaintext_lines_view(contents@)),
        ensures
            p.spec_name() == option_string_view(name),
            p.spec_comments() == strings_view(comments@),
            p.spec_contents() == plaintext_lines_view(contents@),
    {
        Plaintext { name, comments, contents }
    }

    /// Reads a pattern in the Plaintext format from its bytes, line by line; each line
    /// must be UTF-8 text.
    pub fn new(read: &[u8]) -> (res: Result<Plaintext, FormatError>)
        ensures
            match plaintext_read_bytes(byte_lines(read@)) {
                Ok(m) => res matches Ok(p) && p.matches_model(m),
                Err(e) => res == Err::<Plaintext, FormatError>(e),
            },
            res matches Ok(p) ==> contents_fit(p.spec_contents()),
    {
        let bls = split_byte_lines(read);
        proof {
            lemma_byte_lines_len(read@);
        }
        let mut parser = PlaintextParser::new();
        for i in 0..bls.len()
            invariant
                byte_views(bls@) == byte_lines(read@),
                bls@.len() <= read@.len(),
                parser.lines <= i,
                plaintext_read_bytes(byte_views(bls@).take(i as int)) == Ok::<
                    PlaintextModel,
                    FormatError,
                >(parser.model()),
                model_wf(parser.model()),
        {
            assert(byte_views(bls@).take(i + 1).drop_last() == byte_views(bls@).take(i as int));
            assert(byte_views(bls@).take(i + 1).last() == bls@[i as int]@);
            match decode_utf8(bls[i].as_slice()) {
                None => {
                    proof {
                        lemma_plaintext_bytes_error_stays(byte_views(bls@), i + 1);
                    }
                    return Err(FormatError::InvalidUtf8);
                },
                Some(text) => {
                    let line = chars_of(text);
                    let line_len = line.len();
                    assert(line@.len() == line_len);
                    proof {
                        lemma_push_wf(parser.model(), line@);
                    }
                    let r = parser.push(&line);
                    match r {
                        Err(e) => {
                            proof {
                                lemma_plaintext_bytes_error_stays(byte_views(bls@), i + 1);
                            }
                            return Err(e);
                        },
                        Ok(()) => {},
                    }
                },
            }
        }
        assert(byte_views(bls@).take(bls.len() as int) == byte_views(bls@));
        Ok(Plaintext { name: parser.name, comments: parser.comments, contents: parser.contents })
    }

    /// Returns the name of the pattern.
    pub fn name(&self) -> (res: Option<String>)
        ensures
            option_string_view(res) == self.spec_name(),
    {
        match &self.name {
            Some(n) => Some(n.clone()),
            None => None,
        }
    }

    /// Returns the comments of the pattern.
    pub fn comments(&self) -> (res: &Vec<String>)
        ensures
            strings_view(res@) == self.spec_comments(),
    {
        &self.comments
    }

    /// Returns the rows that hold live cells.
    pub fn contents(&self) -> (res: &Vec<PlaintextLine>)
        ensures
            plaintext_lines_view(res@) == self.spec_contents(),
            contents_wf(self.spec_contents()),
    {
        proof {
            use_type_invariant(self);
        }
        &self.contents
    }

    /// The text of the pattern: the `"!Name: "` line, the `"!"` comment lines, then the
    /// rows from y = 0 to the last live cell, each as wide as the rightmost live cell,
    /// with `'O'` for live and `'.'` for dead cells.
    pub fn to_string(&self) -> (res: String)
        requires
            contents_fit(self.spec_contents()),
        ensures
            res@ == plaintext_text(self.spec_name(), self.spec_comments(), self.spec_contents()),
    {
        proof {
            use_type_invariant(self);
        }
        let ghost c = self.spec_contents();
        let mut buf: Vec<char> = Vec::new();
        match &self.name {
            Some(name) => {
                let prefix: [char; 7] = ['!', 'N', 'a', 'm', 'e', ':', ' '];
                for k in 0..7
                    invariant
                        buf@ == prefix@.take(k as int),
                {
                    buf.push(prefix[k]);
                    assert(prefix@.take(k + 1) == prefix@.take(k as int).push(prefix@[k as int]));
                }
                assert(prefix@.take(7) =~= name_prefix());
                push_chars(&mut buf, name);
                buf.push('\n');
            },
            None => {},
        }
        let ghost name_line = buf@;
        for i in 0..self.comments.len()
            invariant
                buf@ == name_line + comment_lines(strings_view(self.comments@).take(i as int)),
        {
            assert(strings_view(self.comments@).take(i + 1).drop_last() == strings_view(
                self.comments@,
            ).take(i as int));
            assert(strings_view(self.comments@).take(i + 1).last() == self.comments@[i as int]@);
            buf.push('!');
            push_chars(&mut buf, &self.comments[i]);
            buf.push('\n');
            assert(buf@ =~= name_line + comment_lines(strings_view(self.comments@).take(i + 1)));
        }
        assert(strings_view(self.comments@).take(self.comments.len() as int) == strings_view(
            self.comments@,
        ));
        let ghost header = buf@;
        let n = self.contents.len();
        if n > 0 {
            proof {
                lemma_max_x(c);
            }
            assert(c[0] == (self.contents@[0].0, self.contents@[0].1@));
            assert(c[0].1.len() > 0);
            let mut max_x: usize = self.contents[0].1[self.contents[0].1.len() - 1];
            assert(c.take(1).drop_last() =~= Seq::<(usize, Seq<usize>)>::empty());
            assert(c.take(1).last() == c[0]);
            assert(contents_max_x(c.take(1).drop_last()) == -1);
            assert(contents_max_x(c.take(1)) == c[0].1.last() as int);
            for j in 1..n
                invariant
                    n == self.contents@.len(),
                    c == self.spec_contents(),
                    contents_wf(c),
                    max_x == contents_max_x(c.take(j as int)),
            {
                assert(c.take(j + 1).drop_last() == c.take(j as int));
                assert(c[j as int] == (self.contents@[j as int].0, self.contents@[j as int].1@));
                assert(c[j as int].1.len() > 0);
                let l = &self.contents[j].1;
                let last = l[l.len() - 1];
                if last > max_x {
                    max_x = last;
                }
            }
            assert(c.take(n as int) == c);
            let ghost mi = choose|i: int| 0 <= i < c.len() && #[trigger] c[i].1.last() == contents_max_x(c);
            assert(c[mi].0 < usize::MAX);
            assert(c[mi].1[c[mi].1.len() - 1] < usize::MAX);
            let width = max_x + 1;
            let mut prev_y: usize = 0;
            for j in 0..n
                invariant
                    n == self.contents@.len(),
                    c == self.spec_contents(),
                    contents_wf(c),
                    contents_fit(c),
                    width == contents_max_x(c) + 1,
                    buf@ == header + grid_rows(c, width as nat, prev_y as nat),
                    j == 0 ==> prev_y == 0,
                    j > 0 ==> prev_y == c[j - 1].0 + 1,
                    forall|i: int, k: int|
                        0 <= i < c.len() && 0 <= k < c[i].1.len() ==> #[trigger] c[i].1[k] <= contents_max_x(c),
            {
                let line = &self.contents[j];
                assert(c[j as int] == (line.0, line.1@));
                let y = line.0;
                if j > 0 {
                    assert(c[j - 1].0 < c[j as int].0);
                }
                while prev_y < y
                    invariant
                        prev_y <= y == c[j as int].0,
                        j == 0 || c[j - 1].0 < prev_y,
                        0 <= j < c.len(),
                        contents_wf(c),
                        buf@ == header + grid_rows(c, width as nat, prev_y as nat),
                    decreases y - prev_y,
                {
                    let ghost before = buf@;
                    for x in 0..width
                        invariant
                            buf@ == before + Seq::new(x as nat, |k: int| '.'),
                    {
                        buf.push('.');
                        assert(buf@ =~= before + Seq::new((x + 1) as nat, |k: int| '.'));
                    }
                    buf.push('\n');
                    proof {
                        lemma_dead_row(c, j as int, prev_y as int, width as nat);
                        assert(buf@ =~= header + grid_rows(c, width as nat, (prev_y + 1) as nat));
                    }
                    prev_y = prev_y + 1;
                }
                let mut row: Vec<char> = Vec::new();
                for x in 0..width
                    invariant
                        row@ == Seq::new(x as nat, |k: int| '.'),
                {
                    row.push('.');
                    assert(row@ =~= Seq::new((x + 1) as nat, |k: int| '.'));
                }
                let xs = &line.1;
                assert forall|m: int| 0 <= m < xs@.len() implies #[trigger] xs@[m] < width by {
                    assert(c[j as int].1[m] <= contents_max_x(c));
                }
                for k in 0..xs.len()
                    invariant
                        0 <= j < c.len(),
                        xs@ == c[j as int].1,
                        row@ == Seq::new(
                            width as nat,
                            |x: int| if xs@.take(k as int).contains(x as usize) && 0 <= x { 'O' } else { '.' },
                        ),
                        forall|m: int| 0 <= m < xs@.len() ==> #[trigger] xs@[m] < width,
                {
                    let x = xs[k];
                    row.set(x, 'O');
                    proof {
                        assert(xs@.take(k + 1) == xs@.take(k as int).push(x));
                        assert forall|z: int| 0 <= z < width implies #[trigger] row@[z] == (
                            if xs@.take(k + 1).contains(z as usize) && 0 <= z { 'O' } else { '.' }) by {
                            vstd::seq_lib::lemma_seq_contains_after_push(xs@.take(k as int), x, z as usize);
                        }
                        assert(row@ =~= Seq::new(
                            width as nat,
                            |x: int| if xs@.take(k + 1).contains(x as usize) && 0 <= x { 'O' } else { '.' },
                        ));
                    }
                }
                assert(xs@.take(xs.len() as int) == xs@);
                buf.append(&mut row);
                buf.push('\n');
                proof {
                    lemma_live_row(c, j as int, width as nat);
                    assert(buf@ =~= header + grid_rows(c, width as nat, (y + 1) as nat));
                }
                prev_y = y + 1;
            }
            assert(buf@ == header + plaintext_grid(c));
        }
        assert(buf@ =~= plaintext_text(self.spec_name(), self.spec_comments(), self.spec_contents()));
        string_of(&buf)
    }

    /// Returns the positions of the live cells, row by row, each row from left to right.
    pub fn live_cells(&self) -> (res: Vec<Position<usize>>)
        ensures
            res@ == plaintext_cells(self.spec_contents()),
            crate::format::cells::cells_sorted(res@),
    {
        proof {
            use_type_invariant(self);
            lemma_plaintext_cells_sorted(self.spec_contents());
        }
        let mut res: Vec<Position<usize>> = Vec::new();
        for i in 0..self.contents.len()
            invariant
                res@ == plaintext_cells(plaintext_lines_view(self.contents@).take(i as int)),
        {
            let line = &self.contents[i];
            let ghost before = res@;
            assert(plaintext_lines_view(self.contents@).take(i + 1).drop_last()
                == plaintext_lines_view(self.contents@).take(i as int));
            for k in 0..line.1.len()
                invariant
                    line == &self.contents@[i as int],
                    res@ == before + row_cells(line.0, line.1@.take(k as int)),
            {
                assert(line.1@.take(k + 1).drop_last() == line.1@.take(k as int));
                res.push(Position(line.1[k], line.0));
            }
            assert(line.1@.take(line.1.len() as int) == line.1@);
        }
        assert(plaintext_lines_view(self.contents@).take(self.contents.len() as int)
            == plaintext_lines_view(self.contents@));
        res
    }
}

/// The positions of the live cells of a row.
pub open spec fn row_cells(y: usize, xs: Seq<usize>) -> Seq<Position<usize>>
    decreases xs.len(),
{
    if xs.len() == 0 {
        seq![]
    } else {
        row_cells(y, xs.drop_last()).push(Position(xs.last(), y))
    }
}

/// The positions of the live cells of the rows `contents`, in order.
pub open spec fn plaintext_cells(contents: Seq<(usize, Seq<usize>)>) -> Seq<Position<usize>>
    decreases contents.len(),
{
    if contents.len() == 0 {
        seq![]
    } else {
        plaintext_cells(contents.drop_last()) + row_cells(
            contents.last().0,
            contents.last().1,
        )
    }
}

/// The positions of a row are its x-coordinates, in order, at its y-coordinate.
pub proof fn lemma_row_cells(y: usize, xs: Seq<usize>)
    ensures
        row_cells(y, xs).len() == xs.len(),
        forall|k: int| 0 <= k < xs.len() ==> #[trigger] row_cells(y, xs)[k] == Position(xs[k], y),
    decreases xs.len(),
{
    if xs.len() > 0 {
        lemma_row_cells(y, xs.drop_last());
        assert forall|k: int| 0 <= k < xs.len() implies #[trigger] row_cells(y, xs)[k] == Position(
            xs[k],
            y,
        ) by {
            if k < xs.len() - 1 {
                assert(row_cells(y, xs)[k] == row_cells(y, xs.drop_last())[k]);
            }
        }
    }
}

/// The live cells of well-formed rows come in strictly ascending row order, none
/// below the last row.
pub proof fn lemma_plaintext_cells_sorted(c: Seq<(usize, Seq<usize>)>)
    requires
        contents_wf(c),
    ensures
        crate::format::cells::cells_sorted(plaintext_cells(c)),
        c.len() > 0 ==> forall|k: int|
            0 <= k < plaintext_cells(c).len() ==> #[trigger] plaintext_cells(c)[k].1 <= c.last().0,
    decreases c.len(),
{
    if c.len() > 0 {
        let init = c.drop_last();
        assert(contents_wf(init)) by {
            assert forall|i: int, j: int| 0 <= i < j < init.len() implies #[trigger] init[i].0
                < #[trigger] init[j].0 by {
                assert(init[i] == c[i]);
                assert(init[j] == c[j]);
            }
            assert forall|i: int| 0 <= i < init.len() implies #[trigger] init[i].1.len() > 0
                && strictly_ascending(init[i].1) by {
                assert(init[i] == c[i]);
            }
        }
        lemma_plaintext_cells_sorted(init);
        let a = plaintext_cells(init);
        let r = c.last();
        assert(r == c[c.len() - 1]);
        assert(strictly_ascending(r.1));
        lemma_row_cells(r.0, r.1);
        let b = row_cells(r.0, r.1);
        let all = plaintext_cells(c);
        assert(all == a + b);
        if init.len() > 0 {
            assert(init.last() == c[c.len() - 2]);
            assert(c[c.len() - 2].0 < c[c.len() - 1].0);
        }
        assert forall|i: int, j: int| 0 <= i < j < all.len() implies crate::format::cells::cell_lt(
            #[trigger] all[i],
            #[trigger] all[j],
        ) by {
            if j < a.len() {
                assert(all[i] == a[i]);
                assert(all[j] == a[j]);
            } else if i < a.len() {
                assert(all[i] == a[i]);
                assert(all[j] == b[j - a.len()]);
            } else {
                assert(all[i] == b[i - a.len()]);
                assert(all[j] == b[j - a.len()]);
            }
        }
        assert forall|k: int| 0 <= k < all.len() implies #[trigger] all[k].1 <= c.last().0 by {
            if k < a.len() {
                assert(all[k] == a[k]);
            } else {
                assert(all[k] == b[k - a.len()]);
            }
        }
    }
}

/// Every x-coordinate of well-formed rows is at most their largest one, which is one
/// of them when there are rows.
pub proof fn lemma_max_x(c: Seq<(usize, Seq<usize>)>)
    requires
        contents_wf(c),
    ensures
        forall|i: int, k: int|
            0 <= i < c.len() && 0 <= k < c[i].1.len() ==> #[trigger] c[i].1[k] <= contents_max_x(c),
        c.len() > 0 ==> 0 <= contents_max_x(c) <= usize::MAX,
        c.len() > 0 ==> exists|i: int| 0 <= i < c.len() && #[trigger] c[i].1.last() == contents_max_x(c),
    decreases c.len(),
{
    if c.len() > 0 {
        let d = c.drop_last();
        assert(contents_wf(d)) by {
            assert forall|i: int, j: int| 0 <= i < j < d.len() implies #[trigger] d[i].0
                < #[trigger] d[j].0 by {
                assert(d[i] == c[i]);
                assert(d[j] == c[j]);
            }
            assert forall|i: int| 0 <= i < d.len() implies #[trigger] d[i].1.len() > 0
                && strictly_ascending(d[i].1) by {
                assert(d[i] == c[i]);
            }
        }
        lemma_max_x(d);
        let l = c.len() - 1;
        assert(c[l].1.len() > 0);
        assert forall|i: int, k: int| 0 <= i < c.len() && 0 <= k < c[i].1.len() implies #[trigger] c[i].1[k]
            <= contents_max_x(c) by {
            if i < l {
                assert(d[i] == c[i]);
                assert(d[i].1[k] <= contents_max_x(d));
            } else {
                if k < c[i].1.len() - 1 {
                    assert(strictly_ascending(c[i].1));
                    assert(c[i].1[k] < c[i].1[c[i].1.len() - 1]);
                }
            }
        }
        if c.len() > 1 {
            let i = choose|i: int| 0 <= i < d.len() && #[trigger] d[i].1.last() == contents_max_x(d);
            assert(d[i] == c[i]);
        }
        assert(c[l].1.last() == c.last().1.last());
    }
}

/// A row of the grid between rows that hold live cells is dead.
proof fn lemma_dead_row(c: Seq<(usize, Seq<usize>)>, j: int, y: int, width: nat)
    requires
        contents_wf(c),
        0 <= j < c.len(),
        j == 0 || c[j - 1].0 < y,
        y < c[j].0,
    ensures
        grid_row(c, y, width) == Seq::new(width, |x: int| '.'),
{
    assert forall|x: int| 0 <= x < width implies !cell_live(c, x, y) by {
        if cell_live(c, x, y) {
            let i = choose|i: int|
                0 <= i < c.len() && #[trigger] c[i].0 == y && c[i].1.contains(x as usize) && 0 <= x;
            if i < j {
                if i < j - 1 {
                    assert(c[i].0 < c[j - 1].0);
                }
            } else if i > j {
                assert(c[j].0 < c[i].0);
            }
        }
    }
    assert(grid_row(c, y, width) =~= Seq::new(width, |x: int| '.'));
}

/// The row of the grid for the y-coordinate of row `j` shows its live cells.
proof fn lemma_live_row(c: Seq<(usize, Seq<usize>)>, j: int, width: nat)
    requires
        contents_wf(c),
        0 <= j < c.len(),
    ensures
        grid_row(c, c[j].0 as int, width) == Seq::new(
            width,
            |x: int| if c[j].1.contains(x as usize) && 0 <= x { 'O' } else { '.' },
        ),
{
    assert forall|x: int| 0 <= x < width implies (cell_live(c, x, c[j].0 as int) <==> c[j].1.contains(
        x as usize,
    )) by {
        if cell_live(c, x, c[j].0 as int) {
            let i = choose|i: int|
                0 <= i < c.len() && #[trigger] c[i].0 == c[j].0 as int && c[i].1.contains(x as usize)
                    && 0 <= x;
            if i < j {
                assert(c[i].0 < c[j].0);
            } else if i > j {
                assert(c[j].0 < c[i].0);
            }
        }
    }
    assert(grid_row(c, c[j].0 as int, width) =~= Seq::new(
        width,
        |x: int| if c[j].1.contains(x as usize) && 0 <= x { 'O' } else { '.' },
    ));
}

/// Appends the characters of `s`.
pub(crate) fn push_chars(buf: &mut Vec<char>, s: &String)
    ensures
        final(buf)@ == old(buf)@ + s@,
{
    let mut v = chars_of(s.as_str());
    buf.append(&mut v);
}

/// A copy of a vector of numbers.
pub(crate) fn copy_usizes(v: &Vec<usize>) -> (r: Vec<usize>)
    ensures
        r@ == v@,
{
    let mut r: Vec<usize> = Vec::new();
    for i in 0..v.len()
        invariant
            r@ == v@.take(i as int),
    {
        r.push(v[i]);
        assert(v@.take(i + 1) == v@.take(i as int).push(v@[i as int]));
    }
    assert(v@.take(v.len() as int) == v@);
    r
}

/// A copy of a vector of strings.
pub(crate) fn copy_strings(v: &Vec<String>) -> (r: Vec<String>)
    ensures
        strings_view(r@) == strings_view(v@),
{
    let mut r: Vec<String> = Vec::new();
    for i in 0..v.len()
        invariant
            strings_view(r@) == strings_view(v@.take(i as int)),
    {
        r.push(v[i].clone());
        assert(strings_view(v@.take(i + 1)) =~= strings_view(v@.take(i as int)).push(v@[i as int]@));
        assert(strings_view(r@) =~= strings_view(v@.take(i + 1)));
    }
    assert(v@.take(v.len() as int) == v@);
    r
}

impl Clone for Plaintext {
    /// A pattern with the same name, comments and rows.
    fn clone(&self) -> (r: Self)
        ensures
            r.spec_name() == self.spec_name(),
            r.spec_comments() == self.spec_comments(),
            r.spec_contents() == self.spec_contents(),
    {
        proof {
            use_type_invariant(self);
        }
        let mut contents: Vec<PlaintextLine> = Vec::new();
        for i in 0..self.contents.len()
            invariant
                plaintext_lines_view(contents@) == plaintext_lines_view(self.contents@.take(i as int)),
        {
            let line = &self.contents[i];
            contents.push(PlaintextLine(line.0, copy_usizes(&line.1)));
            assert(plaintext_lines_view(self.contents@.take(i + 1)) =~= plaintext_lines_view(
                self.contents@.take(i as int),
            ).push((line.0, line.1@)));
            assert(plaintext_lines_view(contents@) =~= plaintext_lines_view(self.contents@.take(i + 1)));
        }
        assert(self.contents@.take(self.contents.len() as int) == self.contents@);
        let name = match &self.name {
            Some(n) => Some(n.clone()),
            None => None,
        };
        Plaintext { name, comments: copy_strings(&self.comments), contents }
    }
}

/// Once a read of byte lines fails, reading more lines does not mend it.
proof fn lemma_plaintext_bytes_error_stays(ls: Seq<Seq<u8>>, k: int)
    requires
        0 <= k <= ls.len(),
        plaintext_read_bytes(ls.take(k)) is Err,
    ensures
        plaintext_read_bytes(ls) == plaintext_read_bytes(ls.take(k)),
    decreases ls.len() - k,
{
    if k < ls.len() {
        assert(ls.take(k + 1).drop_last() == ls.take(k));
        lemma_plaintext_bytes_error_stays(ls, k + 1);
    } else {
        assert(ls.take(k) == ls);
    }
}

/// Once a parse fails, reading more lines does not mend it.
proof fn lemma_plaintext_error_stays(ls: Seq<Seq<char>>, k: int)
    requires
        0 <= k <= ls.len(),
        plaintext_read(ls.take(k)) is Err,
    ensures
        plaintext_read(ls) == plaintext_read(ls.take(k)),
    decreases ls.len() - k,
{
    if k < ls.len() {
        assert(ls.take(k + 1).drop_last() == ls.take(k));
        lemma_plaintext_error_stays(ls, k + 1);
    } else {
        assert(ls.take(k) == ls);
    }
}

impl std::str::FromStr for Plaintext {
    type Err = FormatError;

    /// Parses a pattern in the Plaintext format.
    fn from_str(s: &str) -> (res: Result<Self, Self::Err>)
        ensures
            match plaintext_read(lines(s@)) {
                Ok(m) => res matches Ok(p) && p.matches_model(m),
                Err(e) => res == Err::<Plaintext, FormatError>(e),
            },
            res matches Ok(p) ==> contents_fit(p.spec_contents()),
    {
        let v = chars_of(s);
        Self::parse_chars(&v)
    }
}

impl Format for Plaintext {
    /// Plaintext patterns are always in Conway's Game of Life.
    open spec fn spec_rule_tables(&self) -> (Seq<bool>, Seq<bool>) {
        (conways_birth(), conways_survival())
    }

    open spec fn spec_live_cells(&self) -> Seq<Position<usize>> {
        plaintext_cells(self.spec_contents())
    }

    /// Every position of a Plaintext pattern fits.
    open spec fn live_cells_fit(&self) -> bool {
        true
    }

    fn rule(&self) -> Rule {
        Rule::conways_life()
    }

    fn live_cells(&self) -> Vec<Position<usize>> {
        Plaintext::live_cells(self)
    }
}

} // verus!
