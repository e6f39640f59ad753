//! What reading gives back of what the formats write.

use vstd::prelude::*;

use crate::format::plaintext::{
    cell_live, comment_lines, content_of_line, contents_fit, contents_max_x, contents_wf,
    grid_row, grid_rows, lemma_max_x, name_prefix, plaintext_grid, plaintext_read,
    plaintext_step, plaintext_text, strictly_ascending, Plaintext,
    PlaintextModel,
};
use crate::format::FormatError;
use crate::text::{
    has_prefix, lemma_lines_concat, lemma_lines_line, line_safe, lines,
};

verus! {

/// The line that a name takes in the Plaintext text, if any.
pub open spec fn name_lines(name: Option<Seq<char>>) -> Seq<Seq<char>> {
    match name {
        Some(n) => seq![name_prefix() + n],
        None => seq![],
    }
}

/// The comment lines of the Plaintext text, each `'!'` and its comment.
pub open spec fn bang_lines(cs: Seq<Seq<char>>) -> Seq<Seq<char>> {
    cs.map_values(|c: Seq<char>| seq!['!'] + c)
}

/// The first `n` rows of the grid of `width` cells.
pub open spec fn grid_lines(c: Seq<(usize, Seq<usize>)>, width: nat, n: nat) -> Seq<Seq<char>> {
    Seq::new(n, |y: int| grid_row(c, y, width))
}

/// The number of rows of the grid of the Plaintext text.
pub open spec fn grid_height(c: Seq<(usize, Seq<usize>)>) -> nat {
    if c.len() == 0 {
        0
    } else {
        (c.last().0 + 1) as nat
    }
}

/// The width of the rows of the grid of the Plaintext text.
pub open spec fn grid_width(c: Seq<(usize, Seq<usize>)>) -> nat {
    (contents_max_x(c) + 1) as nat
}

proof fn lemma_comment_lines(cs: Seq<Seq<char>>)
    requires
        forall|i: int| 0 <= i < cs.len() ==> line_safe(#[trigger] cs[i]),
    ensures
        lines(comment_lines(cs)) == bang_lines(cs),
        comment_lines(cs).len() == 0 || comment_lines(cs).last() == '\n',
    decreases cs.len(),
{
    if cs.len() > 0 {
        let init = cs.drop_last();
        assert forall|i: int| 0 <= i < init.len() implies line_safe(#[trigger] init[i]) by {
            assert(init[i] == cs[i]);
        }
        lemma_comment_lines(init);
        let c = cs.last();
        assert(line_safe(cs[cs.len() - 1]));
        let l = seq!['!'] + c;
        assert(line_safe(l)) by {
            assert forall|j: int| 0 <= j < l.len() implies l[j] != '\n' by {
                if j > 0 {
                    assert(l[j] == c[j - 1]);
                }
            }
            if c.len() > 0 {
                assert(l.last() == c.last());
            }
        }
        lemma_lines_line(l);
        assert(comment_lines(cs) == comment_lines(init) + l.push('\n'));
        lemma_lines_concat(comment_lines(init), l.push('\n'));
        assert(bang_lines(cs) =~= bang_lines(init).push(l));
    }
}

proof fn lemma_grid_lines(c: Seq<(usize, Seq<usize>)>, width: nat, n: nat)
    ensures
        lines(grid_rows(c, width, n)) == grid_lines(c, width, n),
        grid_rows(c, width, n).len() == 0 || grid_rows(c, width, n).last() == '\n',
    decreases n,
{
    if n > 0 {
        lemma_grid_lines(c, width, (n - 1) as nat);
        let row = grid_row(c, n - 1, width);
        assert(line_safe(row)) by {
            assert forall|j: int| 0 <= j < row.len() implies row[j] != '\n' by {}
        }
        lemma_lines_line(row);
        assert(grid_rows(c, width, n) == grid_rows(c, width, (n - 1) as nat) + row.push('\n'));
        lemma_lines_concat(grid_rows(c, width, (n - 1) as nat), row.push('\n'));
        assert(grid_lines(c, width, n) =~= grid_lines(c, width, (n - 1) as nat).push(row));
    }
}

/// The lines of the Plaintext text: the name line, the comment lines, the grid rows.
proof fn lemma_text_lines(name: Option<Seq<char>>, cs: Seq<Seq<char>>, c: Seq<(usize, Seq<usize>)>)
    requires
        name matches Some(n) ==> line_safe(n),
        forall|i: int| 0 <= i < cs.len() ==> line_safe(#[trigger] cs[i]),
    ensures
        lines(plaintext_text(name, cs, c)) == name_lines(name) + bang_lines(cs) + grid_lines(
            c,
            grid_width(c),
            grid_height(c),
        ),
{
    let name_line = match name {
        Some(n) => name_prefix() + n + seq!['\n'],
        None => seq![],
    };
    assert(lines(name_line) == name_lines(name)) by {
        if let Some(n) = name {
            let l = name_prefix() + n;
            assert(line_safe(l)) by {
                assert forall|j: int| 0 <= j < l.len() implies l[j] != '\n' by {
                    if j >= 7 {
                        assert(l[j] == n[j - 7]);
                    }
                }
                if n.len() > 0 {
                    assert(l.last() == n.last());
                }
            }
            lemma_lines_line(l);
            assert(name_line == l.push('\n'));
        } else {
            assert(lines(name_line) == Seq::<Seq<char>>::empty());
        }
    }
    lemma_comment_lines(cs);
    let grid = plaintext_grid(c);
    assert(lines(grid) == grid_lines(c, grid_width(c), grid_height(c))) by {
        if c.len() == 0 {
            assert(lines(grid) == Seq::<Seq<char>>::empty());
            assert(grid_lines(c, grid_width(c), 0) =~= Seq::<Seq<char>>::empty());
        } else {
            lemma_grid_lines(c, grid_width(c), grid_height(c));
        }
    }
    let cl = comment_lines(cs);
    assert(plaintext_text(name, cs, c) == name_line + cl + grid);
    lemma_lines_concat(cl, grid);
    assert(name_line.len() == 0 || name_line.last() == '\n');
    lemma_lines_concat(name_line, cl + grid);
    assert(name_line + cl + grid == name_line + (cl + grid));
}

/// The x-coordinates of the live cells of row `y`: those of the entry for `y`, or none.
pub open spec fn row_xs(c: Seq<(usize, Seq<usize>)>, y: int) -> Seq<usize> {
    if exists|i: int| 0 <= i < c.len() && #[trigger] c[i].0 == y {
        c[choose|i: int| 0 <= i < c.len() && #[trigger] c[i].0 == y].1
    } else {
        seq![]
    }
}

/// Reading a prefix of a row of `'O'` (at the x-coordinates `xs`) and `'.'`.
proof fn lemma_content_prefix(row: Seq<char>, xs: Seq<usize>, k: int) -> (m: int)
    requires
        strictly_ascending(xs),
        forall|j: int| 0 <= j < xs.len() ==> #[trigger] xs[j] < row.len(),
        forall|x: int|
            0 <= x < row.len() ==> #[trigger] row[x] == (if xs.contains(x as usize) {
                'O'
            } else {
                '.'
            }),
        0 <= k <= row.len(),
        row.len() <= usize::MAX,
    ensures
        0 <= m <= xs.len(),
        content_of_line(row.take(k)) == Some(xs.take(m)),
        forall|i: int| 0 <= i < m ==> #[trigger] xs[i] < k,
        forall|i: int| m <= i < xs.len() ==> #[trigger] xs[i] >= k,
    decreases k,
{
    if k == 0 {
        assert(row.take(0) =~= Seq::<char>::empty());
        assert(xs.take(0) =~= Seq::<usize>::empty());
        0
    } else {
        let m = lemma_content_prefix(row, xs, k - 1);
        assert(row.take(k).drop_last() == row.take(k - 1));
        assert(row.take(k).last() == row[k - 1]);
        if xs.contains((k - 1) as usize) {
            let t = choose|t: int| 0 <= t < xs.len() && xs[t] == (k - 1) as usize;
            assert(t >= m);
            if t > m {
                assert(xs[m] < xs[t]);
            }
            assert(xs[m] == k - 1);
            assert(xs.take(m + 1) == xs.take(m).push((k - 1) as usize));
            assert forall|i: int| m + 1 <= i < xs.len() implies #[trigger] xs[i] >= k by {
                assert(xs[m] < xs[i]);
            }
            m + 1
        } else {
            assert forall|i: int| m <= i < xs.len() implies #[trigger] xs[i] >= k by {
                if xs[i] == k - 1 {
                    assert(xs.contains((k - 1) as usize));
                }
            }
            m
        }
    }
}

/// A grid row of well-formed rows reads back as the x-coordinates of its live cells.
proof fn lemma_grid_row_content(c: Seq<(usize, Seq<usize>)>, y: int)
    requires
        contents_wf(c),
        contents_fit(c),
        c.len() > 0,
    ensures
        content_of_line(grid_row(c, y, grid_width(c))) == Some(row_xs(c, y)),
{
    lemma_max_x(c);
    let w = grid_width(c);
    let row = grid_row(c, y, w);
    let xs = row_xs(c, y);
    assert(strictly_ascending(xs) && forall|j: int| 0 <= j < xs.len() ==> #[trigger] xs[j] < w) by {
        if exists|i: int| 0 <= i < c.len() && #[trigger] c[i].0 == y {
            let i = choose|i: int| 0 <= i < c.len() && #[trigger] c[i].0 == y;
            assert(xs == c[i].1);
            assert forall|j: int| 0 <= j < xs.len() implies #[trigger] xs[j] < w by {
                assert(c[i].1[j] <= contents_max_x(c));
            }
        }
    }
    assert forall|x: int| 0 <= x < row.len() implies #[trigger] row[x] == (if xs.contains(
        x as usize,
    ) {
        'O'
    } else {
        '.'
    }) by {
        if cell_live(c, x, y) {
            let i = choose|i: int|
                0 <= i < c.len() && #[trigger] c[i].0 == y && c[i].1.contains(x as usize) && 0 <= x;
            let i0 = choose|i: int| 0 <= i < c.len() && #[trigger] c[i].0 == y;
            if i != i0 {
                if i < i0 {
                    assert(c[i].0 < c[i0].0);
                } else {
                    assert(c[i0].0 < c[i].0);
                }
            }
        } else {
            if exists|i: int| 0 <= i < c.len() && #[trigger] c[i].0 == y {
                let i0 = choose|i: int| 0 <= i < c.len() && #[trigger] c[i].0 == y;
                if xs.contains(x as usize) {
                    assert(c[i0].1.contains(x as usize));
                    assert(cell_live(c, x, y));
                }
            }
        }
    }
    let mi = choose|i: int| 0 <= i < c.len() && #[trigger] c[i].1.last() == contents_max_x(c);
    assert(c[mi].0 < usize::MAX);
    assert(c[mi].1[c[mi].1.len() - 1] < usize::MAX);
    let m = lemma_content_prefix(row, xs, row.len() as int);
    assert(row.take(row.len() as int) == row);
    if m < xs.len() {
        assert(xs[m] < w);
    }
    assert(xs.take(xs.len() as int) == xs);
}

/// The start of the Plaintext read: nothing read.
pub open spec fn read_start() -> PlaintextModel {
    PlaintextModel { name: None, comments: seq![], lines: 0, contents: seq![] }
}

/// The lines `ls` of a Plaintext text before its grid: they can be read back
/// without an error, as the name and comments they came from.
proof fn lemma_read_header(name: Option<Seq<char>>, cs: Seq<Seq<char>>, k: int)
    requires
        0 <= k <= cs.len(),
        name is None && cs.len() > 0 ==> !has_prefix(seq!['!'] + cs[0], name_prefix()),
    ensures
        plaintext_read(name_lines(name) + bang_lines(cs).take(k)) == Ok::<
            PlaintextModel,
            FormatError,
        >(PlaintextModel { name, comments: cs.take(k), lines: 0, contents: seq![] }),
    decreases k,
{
    let ls = name_lines(name) + bang_lines(cs).take(k);
    if k == 0 {
        assert(bang_lines(cs).take(0) =~= Seq::<Seq<char>>::empty());
        assert(cs.take(0) =~= Seq::<Seq<char>>::empty());
        assert(ls == name_lines(name));
        if let Some(n) = name {
            let l = name_prefix() + n;
            assert(ls.drop_last() =~= Seq::<Seq<char>>::empty());
            assert(ls.last() == l);
            assert(l.take(7) =~= name_prefix());
            assert(has_prefix(l, name_prefix()));
            assert(l.skip(7) =~= n);
            assert(plaintext_read(ls.drop_last()) == Ok::<PlaintextModel, FormatError>(read_start()));
        } else {
            assert(ls =~= Seq::<Seq<char>>::empty());
        }
    } else {
        lemma_read_header(name, cs, k - 1);
        let l = seq!['!'] + cs[k - 1];
        assert(bang_lines(cs).take(k) == bang_lines(cs).take(k - 1).push(l));
        assert(ls.drop_last() == name_lines(name) + bang_lines(cs).take(k - 1));
        assert(ls.last() == l);
        let st = PlaintextModel { name, comments: cs.take(k - 1), lines: 0, contents: seq![] };
        assert(l.take(1) =~= seq!['!']);
        assert(has_prefix(l, seq!['!']));
        assert(l.skip(1) =~= cs[k - 1]);
        assert(cs.take(k) == cs.take(k - 1).push(cs[k - 1]));
        if name is None && k == 1 {
            assert(cs[0] == cs[k - 1]);
        }
        assert(plaintext_step(st, l) == Ok::<PlaintextModel, FormatError>(
            PlaintextModel { name, comments: cs.take(k), lines: 0, contents: seq![] },
        ));
    }
}

/// The header conditions under which the Plaintext text of a name and comments reads
/// back as them: each line safe, and without a name, a first comment that does not
/// look like a name line.
pub open spec fn plaintext_header_rereadable(name: Option<Seq<char>>, cs: Seq<Seq<char>>) -> bool {
    &&& name matches Some(n) ==> line_safe(n)
    &&& forall|i: int| 0 <= i < cs.len() ==> line_safe(#[trigger] cs[i])
    &&& name is None && cs.len() > 0 ==> !has_prefix(seq!['!'] + cs[0], name_prefix())
}

/// Reading the first `y` rows of the grid, after the header: the rows with live cells
/// above `y` are those read.
proof fn lemma_read_grid(
    name: Option<Seq<char>>,
    cs: Seq<Seq<char>>,
    c: Seq<(usize, Seq<usize>)>,
    y: int,
) -> (j: int)
    requires
        plaintext_header_rereadable(name, cs),
        contents_wf(c),
        contents_fit(c),
        c.len() > 0,
        0 <= y <= grid_height(c),
    ensures
        0 <= j <= c.len(),
        forall|i: int| 0 <= i < j ==> #[trigger] c[i].0 < y,
        forall|i: int| j <= i < c.len() ==> #[trigger] c[i].0 >= y,
        plaintext_read(
            name_lines(name) + bang_lines(cs) + grid_lines(c, grid_width(c), grid_height(c)).take(y),
        ) == Ok::<PlaintextModel, FormatError>(
            PlaintextModel { name, comments: cs, lines: y as nat, contents: c.take(j) },
        ),
    decreases y,
{
    let g = grid_lines(c, grid_width(c), grid_height(c));
    let head = name_lines(name) + bang_lines(cs);
    if y == 0 {
        lemma_read_header(name, cs, cs.len() as int);
        assert(bang_lines(cs).take(cs.len() as int) == bang_lines(cs));
        assert(cs.take(cs.len() as int) == cs);
        assert(g.take(0) =~= Seq::<Seq<char>>::empty());
        assert(head + g.take(0) == head);
        assert(c.take(0) =~= Seq::<(usize, Seq<usize>)>::empty());
        0
    } else {
        let j = lemma_read_grid(name, cs, c, y - 1);
        let ls = head + g.take(y);
        let row = grid_row(c, y - 1, grid_width(c));
        assert(g.take(y) == g.take(y - 1).push(row));
        assert(ls.drop_last() == head + g.take(y - 1));
        assert(ls.last() == row);
        let st = PlaintextModel { name, comments: cs, lines: (y - 1) as nat, contents: c.take(j) };
        lemma_max_x(c);
        assert(row.len() >= 1);
        assert(!has_prefix(row, name_prefix())) by {
            if has_prefix(row, name_prefix()) {
                assert(row.take(7)[0] == row[0]);
            }
        }
        assert(!has_prefix(row, seq!['!'])) by {
            if has_prefix(row, seq!['!']) {
                assert(row.take(1)[0] == row[0]);
            }
        }
        lemma_grid_row_content(c, y - 1);
        if j < c.len() && c[j].0 == y - 1 {
            assert(row_xs(c, y - 1) == c[j].1) by {
                let i = choose|i: int| 0 <= i < c.len() && #[trigger] c[i].0 == y - 1;
                if i < j {
                    assert(c[i].0 < y - 1);
                } else if i > j {
                    assert(c[j].0 < c[i].0);
                }
            }
            assert(c[j].1.len() > 0);
            assert(c.take(j + 1) == c.take(j).push(c[j]));
            assert(((y - 1) as usize, c[j].1) == c[j]);
            assert forall|i: int| j + 1 <= i < c.len() implies #[trigger] c[i].0 >= y by {
                assert(c[j].0 < c[i].0);
            }
            assert(plaintext_step(st, row) == Ok::<PlaintextModel, FormatError>(
                PlaintextModel { name, comments: cs, lines: y as nat, contents: c.take(j + 1) },
            ));
            j + 1
        } else {
            assert(row_xs(c, y - 1) == Seq::<usize>::empty()) by {
                if exists|i: int| 0 <= i < c.len() && #[trigger] c[i].0 == y - 1 {
                    let i = choose|i: int| 0 <= i < c.len() && #[trigger] c[i].0 == y - 1;
                    if i < j {
                        assert(c[i].0 < y - 1);
                    } else if i > j {
                        assert(c[j].0 < c[i].0);
                    }
                }
            }
            assert forall|i: int| j <= i < c.len() implies #[trigger] c[i].0 >= y by {
                if i > j {
                    assert(c[j].0 < c[i].0);
                }
            }
            assert(plaintext_step(st, row) == Ok::<PlaintextModel, FormatError>(
                PlaintextModel { name, comments: cs, lines: y as nat, contents: c.take(j) },
            ));
            j
        }
    }
}

/// Reading the Plaintext text of a name, comments and well-formed rows gives them
/// back, when each line of the header can stand as a line and, without a name, the
/// first comment does not look like a name line.
pub proof fn lemma_plaintext_reread(
    name: Option<Seq<char>>,
    cs: Seq<Seq<char>>,
    c: Seq<(usize, Seq<usize>)>,
)
    requires
        plaintext_header_rereadable(name, cs),
        contents_wf(c),
        contents_fit(c),
    ensures
        plaintext_read(lines(plaintext_text(name, cs, c))) == Ok::<PlaintextModel, FormatError>(
            PlaintextModel { name, comments: cs, lines: grid_height(c), contents: c },
        ),
{
    lemma_text_lines(name, cs, c);
    let g = grid_lines(c, grid_width(c), grid_height(c));
    if c.len() == 0 {
        lemma_read_header(name, cs, cs.len() as int);
        assert(bang_lines(cs).take(cs.len() as int) == bang_lines(cs));
        assert(cs.take(cs.len() as int) == cs);
        assert(g =~= Seq::<Seq<char>>::empty());
        assert(name_lines(name) + bang_lines(cs) + g == name_lines(name) + bang_lines(cs));
        assert(c =~= Seq::<(usize, Seq<usize>)>::empty());
    } else {
        let h = grid_height(c) as int;
        let j = lemma_read_grid(name, cs, c, h);
        assert(g.take(h) == g);
        if j < c.len() {
            assert(c[c.len() - 1].0 >= h);
        }
        assert(c.take(j) == c);
    }
}

/// The text of a Plaintext pattern reads back as the pattern: the same name, comments
/// and rows, under the conditions of `lemma_plaintext_reread`.
pub proof fn lemma_plaintext_to_string_reads_back(p: Plaintext)
    requires
        contents_wf(p.spec_contents()),
        contents_fit(p.spec_contents()),
        plaintext_header_rereadable(p.spec_name(), p.spec_comments()),
    ensures
        ({
            let text = plaintext_text(p.spec_name(), p.spec_comments(), p.spec_contents());
            &&& plaintext_read(lines(text)) matches Ok(m) && p.matches_model(m)
        }),
{
    lemma_plaintext_reread(p.spec_name(), p.spec_comments(), p.spec_contents());
}

} // verus!
