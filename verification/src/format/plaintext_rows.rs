//! The grid of a Plaintext pattern: after the name and comment lines, every line is
//! one row, an empty line too, and its `'O'`s are the live cells of that row.

use vstd::prelude::*;

use crate::format::plaintext::{content_of_line, plaintext_read, plaintext_step, PlaintextModel};
use crate::format::FormatError;
use crate::text::has_prefix;

verus! {

/// Every character of `line` is `'.'` or `'O'`.
pub open spec fn is_grid_row(line: Seq<char>) -> bool {
    forall|j: int| 0 <= j < line.len() ==> line[j] == '.' || line[j] == 'O'
}

/// The rows `contents` hold a live cell at `(x, y)`.
pub open spec fn row_has(contents: Seq<(usize, Seq<usize>)>, x: int, y: int) -> bool {
    exists|i: int, k: int|
        0 <= i < contents.len() && 0 <= k < contents[i].1.len() && contents[i].0 == y
            && #[trigger] contents[i].1[k] == x
}

/// Every row of `m` lies above the number of lines it has read.
pub open spec fn rows_below_lines(m: PlaintextModel) -> bool {
    forall|i: int| 0 <= i < m.contents.len() ==> (#[trigger] m.contents[i]).0 < m.lines
}

/// The x-coordinates that a row of `'.'`s and `'O'`s gives are those of its `'O'`s.
proof fn lemma_content_of_row(line: Seq<char>)
    requires
        line.len() <= usize::MAX,
        is_grid_row(line),
    ensures
        content_of_line(line) is Some,
        forall|k: int|
            0 <= k < content_of_line(line)->Some_0.len() ==> (#[trigger] content_of_line(
                line,
            )->Some_0[k]) < line.len() && line[content_of_line(line)->Some_0[k] as int] == 'O',
        forall|x: int|
            0 <= x < line.len() && #[trigger] line[x] == 'O' ==> exists|k: int|
                0 <= k < content_of_line(line)->Some_0.len() && content_of_line(line)->Some_0[k]
                    == x,
    decreases line.len(),
{
    if line.len() > 0 {
        let init = line.drop_last();
        assert(is_grid_row(init)) by {
            assert forall|j: int| 0 <= j < init.len() implies init[j] == '.' || init[j] == 'O' by {
                assert(init[j] == line[j]);
            }
        }
        lemma_content_of_row(init);
        let xs = content_of_line(init)->Some_0;
        let ys = content_of_line(line)->Some_0;
        let n = line.len() - 1;
        assert(line.last() == line[n]);
        if line[n] == 'O' {
            assert(ys == xs.push(n as usize));
        } else {
            assert(ys == xs);
        }
        assert forall|k: int| 0 <= k < ys.len() implies (#[trigger] ys[k]) < line.len() && line[ys[k] as int]
            == 'O' by {
            if k < xs.len() {
                assert(ys[k] == xs[k]);
                assert(init[xs[k] as int] == line[xs[k] as int]);
            }
        }
        assert forall|x: int| 0 <= x < line.len() && #[trigger] line[x] == 'O' implies exists|k: int|
            0 <= k < ys.len() && ys[k] == x by {
            if x < n {
                assert(init[x] == line[x]);
                let k = choose|k: int| 0 <= k < xs.len() && xs[k] == x;
                assert(ys[k] == xs[k]);
            } else {
                assert(ys[xs.len() as int] == x);
            }
        }
    }
}

/// A line with a character other than `'.'` and `'O'` gives no row.
proof fn lemma_content_of_bad_row(line: Seq<char>, j: int)
    requires
        0 <= j < line.len(),
        line[j] != '.' && line[j] != 'O',
    ensures
        content_of_line(line) is None,
    decreases line.len(),
{
    let n = line.len() - 1;
    if j < n {
        assert(line.drop_last()[j] == line[j]);
        lemma_content_of_bad_row(line.drop_last(), j);
    } else {
        assert(line.last() == line[j]);
    }
}

/// One line of `'.'`s and `'O'`s, read after the name and comment lines or in place of
/// them, is the next row: the number of rows grows by one, an empty line too, and the
/// live cells of that row are its `'O'`s.
pub proof fn lemma_grid_row_step(st: PlaintextModel, line: Seq<char>)
    requires
        st.lines < usize::MAX,
        line.len() <= usize::MAX,
        is_grid_row(line),
        rows_below_lines(st),
    ensures
        plaintext_step(st, line) matches Ok(m) && m.name == st.name && m.comments == st.comments
            && m.lines == st.lines + 1 && rows_below_lines(m) && forall|x: int, y: int|
            #![trigger row_has(m.contents, x, y)]
            row_has(m.contents, x, y) <==> (row_has(st.contents, x, y) || (y == st.lines && 0
                <= x < line.len() && line[x] == 'O')),
{
    lemma_content_of_row(line);
    if line.len() > 0 {
        assert(line[0] != '!');
        assert(line.take(1)[0] == line[0]);
    }
    assert(!has_prefix(line, seq!['!']));
    assert(!has_prefix(line, crate::format::plaintext::name_prefix())) by {
        if line.len() >= 7 {
            assert(line.take(7)[0] == line[0]);
        }
    }
    let xs = content_of_line(line)->Some_0;
    let m = plaintext_step(st, line)->Ok_0;
    if xs.len() > 0 {
        assert(m.contents == st.contents.push((st.lines as usize, xs)));
        assert forall|i: int| 0 <= i < m.contents.len() implies (#[trigger] m.contents[i]).0 < m.lines by {
            if i < st.contents.len() {
                assert(m.contents[i] == st.contents[i]);
            }
        }
        assert forall|x: int, y: int| #![trigger row_has(m.contents, x, y)]
            row_has(m.contents, x, y) <==> (row_has(st.contents, x, y) || (y == st.lines && 0 <= x
                < line.len() && line[x] == 'O')) by {
            let last = st.contents.len() as int;
            if row_has(m.contents, x, y) {
                let (i, k) = choose|i: int, k: int|
                    0 <= i < m.contents.len() && 0 <= k < m.contents[i].1.len() && m.contents[i].0
                        == y && #[trigger] m.contents[i].1[k] == x;
                if i < last {
                    assert(m.contents[i] == st.contents[i]);
                    assert(st.contents[i].1[k] == x);
                } else {
                    assert(m.contents[i] == (st.lines as usize, xs));
                    assert(xs[k] == x);
                    assert(x < line.len() && line[xs[k] as int] == 'O');
                }
            }
            if row_has(st.contents, x, y) {
                let (i, k) = choose|i: int, k: int|
                    0 <= i < st.contents.len() && 0 <= k < st.contents[i].1.len()
                        && st.contents[i].0 == y && #[trigger] st.contents[i].1[k] == x;
                assert(m.contents[i] == st.contents[i]);
                assert(m.contents[i].1[k] == x);
            }
            if y == st.lines && 0 <= x < line.len() && line[x] == 'O' {
                let k = choose|k: int| 0 <= k < xs.len() && xs[k] == x;
                assert(m.contents[last] == (st.lines as usize, xs));
                assert(m.contents[last].1[k] == x);
            }
        }
    } else {
        assert(m.contents == st.contents);
        assert forall|x: int| !(0 <= x < line.len() && line[x] == 'O') by {
            if 0 <= x < line.len() && line[x] == 'O' {
                let k = choose|k: int| 0 <= k < xs.len() && xs[k] == x;
            }
        }
    }
}

/// After the name and comment lines, a line with a character other than `'.'` and
/// `'O'` is refused with `FormatError::InvalidCharacter`.
pub proof fn lemma_grid_row_refused(st: PlaintextModel, line: Seq<char>, j: int)
    requires
        0 <= j < line.len(),
        line[j] != '.' && line[j] != 'O',
        st.lines > 0,
    ensures
        plaintext_step(st, line) == Err::<PlaintextModel, FormatError>(FormatError::InvalidCharacter),
{
    lemma_content_of_bad_row(line, j);
}

/// The rows of a read lie above the number of lines it has read, and that number is at
/// most the number of lines.
proof fn lemma_read_rows_below(ls: Seq<Seq<char>>)
    requires
        ls.len() < usize::MAX,
    ensures
        plaintext_read(ls) matches Ok(m) ==> m.lines <= ls.len() && rows_below_lines(m),
    decreases ls.len(),
{
    if ls.len() > 0 {
        lemma_read_rows_below(ls.drop_last());
        if let Ok(st) = plaintext_read(ls.drop_last()) {
            if let Ok(m) = plaintext_step(st, ls.last()) {
                assert forall|i: int| 0 <= i < m.contents.len() implies (#[trigger] m.contents[i]).0
                    < m.lines by {
                    if i < st.contents.len() {
                        assert(m.contents[i] == st.contents[i]);
                    }
                }
            }
        }
    }
}

/// Reading lines of `'.'`s and `'O'`s after the lines `hs`: each is one more row, an
/// empty line too, so the `k`-th of them is row `k` past the rows read before, and its
/// live cells are its `'O'`s; the name, the comments and the rows before stay.
pub proof fn lemma_plaintext_rows(hs: Seq<Seq<char>>, rows: Seq<Seq<char>>)
    requires
        plaintext_read(hs) is Ok,
        hs.len() + rows.len() < usize::MAX,
        forall|r: int| 0 <= r < rows.len() ==> #[trigger] is_grid_row(rows[r]) && rows[r].len()
            <= usize::MAX,
    ensures
        ({
            let st = plaintext_read(hs)->Ok_0;
            plaintext_read(hs + rows) matches Ok(m) && m.name == st.name && m.comments
                == st.comments && m.lines == st.lines + rows.len() && forall|x: int, y: int|
                #![trigger row_has(m.contents, x, y)]
                row_has(m.contents, x, y) <==> (if y < st.lines {
                    row_has(st.contents, x, y)
                } else {
                    st.lines <= y < m.lines && 0 <= x < rows[y - st.lines].len() && rows[y
                        - st.lines][x] == 'O'
                })
        }),
    decreases rows.len(),
{
    let st = plaintext_read(hs)->Ok_0;
    lemma_read_rows_below(hs);
    if rows.len() == 0 {
        assert(hs + rows == hs);
        assert forall|x: int, y: int| #![trigger row_has(st.contents, x, y)]
            row_has(st.contents, x, y) implies y < st.lines by {
            let (i, k) = choose|i: int, k: int|
                0 <= i < st.contents.len() && 0 <= k < st.contents[i].1.len() && st.contents[i].0
                    == y && #[trigger] st.contents[i].1[k] == x;
            assert(st.contents[i].0 < st.lines);
        }
    } else {
        let init = rows.drop_last();
        assert forall|r: int| 0 <= r < init.len() implies #[trigger] is_grid_row(init[r])
            && init[r].len() <= usize::MAX by {
            assert(init[r] == rows[r]);
            assert(is_grid_row(rows[r]));
        }
        assert(is_grid_row(rows[rows.len() - 1]));
        lemma_plaintext_rows(hs, init);
        let mi = plaintext_read(hs + init)->Ok_0;
        assert((hs + rows).drop_last() == hs + init);
        assert((hs + rows).last() == rows.last());
        assert(rows.last() == rows[rows.len() - 1]);
        lemma_read_rows_below(hs + init);
        lemma_grid_row_step(mi, rows.last());
        let m = plaintext_read(hs + rows)->Ok_0;
        assert forall|x: int, y: int| #![trigger row_has(m.contents, x, y)]
            row_has(m.contents, x, y) <==> (if y < st.lines {
                row_has(st.contents, x, y)
            } else {
                st.lines <= y < m.lines && 0 <= x < rows[y - st.lines].len() && rows[y
                    - st.lines][x] == 'O'
            }) by {
            assert(row_has(mi.contents, x, y) <==> (if y < st.lines {
                row_has(st.contents, x, y)
            } else {
                st.lines <= y < mi.lines && 0 <= x < init[y - st.lines].len() && init[y
                    - st.lines][x] == 'O'
            }));
            if st.lines <= y < mi.lines {
                assert(init[y - st.lines] == rows[y - st.lines]);
            }
        }
    }
}

} // verus!
