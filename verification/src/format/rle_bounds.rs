//! Where the live cells of a read RLE pattern lie, and what its text reads back as.

use vstd::prelude::*;

use crate::format::cells::cells_sorted;
use crate::format::rle::{
    advance_runs, cells_fit, content_runs, is_comment_line, lemma_rle_cells_sorted,
    lemma_runs_to_triples_live, lemma_step_wf, rle_cells, rle_model_wf, rle_parse,
    rle_parse_bytes, rle_read, rle_read_bytes, rle_step, rle_text, runs_to_triples, triple_zero,
    triples_fold, walk, Rle, RleModel, RleRunsTriple, RleTag,
};
use crate::format::rle_laws::{lemma_rle_cells_last, lemma_rle_to_string_reads_back, lemma_walk_nonneg};
use crate::text::{line_safe, lines};

verus! {

/// Every run of line ends that counts zero comes where the runs before it lead to
/// column 0, in a pattern of width `w` and height `h`.
pub open spec fn runs_empty_line_ends_at_left(w: usize, h: usize, runs: Seq<(usize, RleTag)>) -> bool {
    forall|i: int|
        0 <= i < runs.len() && (#[trigger] runs[i]).1 == RleTag::EndOfLine && runs[i].0 == 0
            ==> advance_runs(w, h, 0, 0, runs.take(i))->Ok_0.0 == 0
}

/// Every run of line ends that counts zero in what a read has built comes at column 0.
pub open spec fn empty_line_ends_at_left(st: RleModel) -> bool {
    match st.header {
        None => true,
        Some(hd) => runs_empty_line_ends_at_left(hd.width, hd.height, st.runs),
    }
}

/// The triples that runs fold into, with the one still being filled.
pub open spec fn fold_all(runs: Seq<(usize, RleTag)>) -> Seq<RleRunsTriple> {
    triples_fold(runs).0.push(triples_fold(runs).1)
}

/// Every live cell lies within the width and above the height.
pub open spec fn cells_within(cells: Seq<crate::position::Position<usize>>, w: usize, h: usize) -> bool {
    forall|k: int| 0 <= k < cells.len() ==> (#[trigger] cells[k]).0 < w && cells[k].1 < h
}

/// Triples whose earlier positions fit, with one more whose position fits.
proof fn lemma_fit_push(b: Seq<RleRunsTriple>, t: RleRunsTriple)
    requires
        b.len() > 0,
        cells_fit(b.drop_last()),
        walk(b.push(t)).0 <= usize::MAX && walk(b.push(t)).1 <= usize::MAX,
        walk(b).0 <= usize::MAX && walk(b).1 <= usize::MAX,
    ensures
        cells_fit(b.push(t)),
{
    let c = b.push(t);
    assert forall|k: int| 0 <= k <= c.len() implies #[trigger] walk(c.take(k)).0 <= usize::MAX
        && walk(c.take(k)).1 <= usize::MAX by {
        if k == c.len() {
            assert(c.take(k) == c);
        } else if k == b.len() {
            assert(c.take(k) == b);
        } else {
            assert(c.take(k) == b.drop_last().take(k));
        }
    }
}

/// One step of the fold: a triple with live cells is closed by a run that is not of
/// live cells; then the run is added to the triple being filled.
pub open spec fn fold_step(
    buf: Seq<RleRunsTriple>,
    cur: RleRunsTriple,
    r: (usize, RleTag),
) -> (Seq<RleRunsTriple>, RleRunsTriple) {
    let n = r.0;
    let (buf2, next) = if cur.live_cells > 0 && r.1 != RleTag::AliveCell {
        (buf.push(cur), triple_zero())
    } else {
        (buf, cur)
    };
    (
        buf2,
        match r.1 {
            RleTag::AliveCell => RleRunsTriple {
                pad_lines: next.pad_lines,
                pad_dead_cells: next.pad_dead_cells,
                live_cells: (next.live_cells + n) as usize,
            },
            RleTag::DeadCell => RleRunsTriple {
                pad_lines: next.pad_lines,
                pad_dead_cells: (next.pad_dead_cells + n) as usize,
                live_cells: next.live_cells,
            },
            RleTag::EndOfLine => RleRunsTriple {
                pad_lines: (next.pad_lines + n) as usize,
                pad_dead_cells: 0,
                live_cells: next.live_cells,
            },
        },
    )
}

/// The facts that the fold keeps: the triples lead to `(x, y)`, within the height,
/// their positions fit, and their cells lie within the pattern.
pub open spec fn fold_within(b: Seq<RleRunsTriple>, w: usize, h: usize, x: usize, y: usize) -> bool {
    &&& walk(b) == (x as int, y as int)
    &&& y < h
    &&& cells_fit(b)
    &&& cells_within(rle_cells(b), w, h)
}

/// A run that closes the triple being filled.
proof fn lemma_fold_close(
    w: usize,
    h: usize,
    buf: Seq<RleRunsTriple>,
    cur: RleRunsTriple,
    x: usize,
    y: usize,
    r: (usize, RleTag),
)
    requires
        fold_within(buf.push(cur), w, h, x, y),
        cur.live_cells > 0,
        r.1 != RleTag::AliveCell,
        r.1 == RleTag::EndOfLine ==> (r.0 > 0 || x == 0) && y + r.0 < h,
        r.1 == RleTag::DeadCell ==> x + r.0 <= w,
    ensures
        ({
            let (b2, c2) = fold_step(buf, cur, r);
            fold_within(
                b2.push(c2),
                w,
                h,
                if r.1 == RleTag::EndOfLine { 0 } else { (x + r.0) as usize },
                if r.1 == RleTag::EndOfLine { (y + r.0) as usize } else { y },
            )
        }),
{
    let bb = buf.push(cur);
    let (b2, t) = fold_step(buf, cur, r);
    assert(b2 == bb);
    let b = bb.push(t);
    assert(b.drop_last() == bb);
    assert(b.last() == t);
    lemma_rle_cells_last(b);
    assert(rle_cells(b) =~= rle_cells(bb));
    assert(bb.take(bb.len() as int) == bb);
    assert(cells_fit(bb.drop_last())) by {
        assert forall|k: int| 0 <= k <= bb.drop_last().len() implies #[trigger] walk(
            bb.drop_last().take(k),
        ).0 <= usize::MAX && walk(bb.drop_last().take(k)).1 <= usize::MAX by {
            assert(bb.drop_last().take(k) == bb.take(k));
        }
    }
    lemma_fit_push(bb, t);
}

/// A run that adds to the triple being filled.
proof fn lemma_fold_extend(
    w: usize,
    h: usize,
    buf: Seq<RleRunsTriple>,
    cur: RleRunsTriple,
    x: usize,
    y: usize,
    r: (usize, RleTag),
)
    requires
        fold_within(buf.push(cur), w, h, x, y),
        !(cur.live_cells > 0 && r.1 != RleTag::AliveCell),
        r.1 == RleTag::EndOfLine ==> (r.0 > 0 || x == 0) && y + r.0 < h,
        r.1 != RleTag::EndOfLine ==> x + r.0 <= w,
    ensures
        ({
            let (b2, c2) = fold_step(buf, cur, r);
            fold_within(
                b2.push(c2),
                w,
                h,
                if r.1 == RleTag::EndOfLine { 0 } else { (x + r.0) as usize },
                if r.1 == RleTag::EndOfLine { (y + r.0) as usize } else { y },
            )
        }),
{
    let bb = buf.push(cur);
    assert(bb.drop_last() == buf);
    assert(bb.last() == cur);
    lemma_rle_cells_last(bb);
    lemma_walk_nonneg(buf);
    let (bx, by) = walk(buf);
    let x0 = (if cur.pad_lines > 0 { 0 } else { bx }) + cur.pad_dead_cells;
    let y0 = by + cur.pad_lines;
    assert(x0 + cur.live_cells == x && y0 == y);
    let (b2, t) = fold_step(buf, cur, r);
    assert(b2 == buf);
    let b = buf.push(t);
    assert(b.drop_last() == buf);
    assert(b.last() == t);
    lemma_rle_cells_last(b);
    match r.1 {
        RleTag::AliveCell => {
            assert(t.live_cells == cur.live_cells + r.0);
        },
        RleTag::DeadCell => {
            assert(cur.live_cells == 0);
            assert(t.pad_dead_cells == cur.pad_dead_cells + r.0);
        },
        RleTag::EndOfLine => {
            assert(cur.live_cells == 0);
            assert(t.pad_lines == cur.pad_lines + r.0);
        },
    }
    let cs = rle_cells(b);
    assert(cells_within(cs, w, h)) by {
        assert forall|k: int| 0 <= k < cs.len() implies (#[trigger] cs[k]).0 < w && cs[k].1 < h by {
            if k < rle_cells(buf).len() {
                assert(cs[k] == rle_cells(buf)[k]);
                assert(rle_cells(bb)[k] == rle_cells(buf)[k]);
            }
        }
    }
    assert(cells_fit(b)) by {
        assert forall|k: int| 0 <= k <= b.len() implies #[trigger] walk(b.take(k)).0 <= usize::MAX
            && walk(b.take(k)).1 <= usize::MAX by {
            if k == b.len() {
                assert(b.take(k) == b);
            } else {
                assert(b.take(k) == bb.take(k));
            }
        }
    }
}

/// Folding runs that stay within the pattern, whose empty line ends come at column 0: the triples
/// lead where the runs lead, their positions fit, and their cells lie within the
/// pattern.
proof fn lemma_fold_advance(w: usize, h: usize, runs: Seq<(usize, RleTag)>)
    requires
        h > 0,
        advance_runs(w, h, 0, 0, runs) is Ok,
        runs_empty_line_ends_at_left(w, h, runs),
    ensures
        fold_within(
            fold_all(runs),
            w,
            h,
            advance_runs(w, h, 0, 0, runs)->Ok_0.0,
            advance_runs(w, h, 0, 0, runs)->Ok_0.1,
        ),
    decreases runs.len(),
{
    let b = fold_all(runs);
    if runs.len() == 0 {
        assert(b == seq![triple_zero()]);
        lemma_rle_cells_last(b);
        assert(b.drop_last() =~= Seq::<RleRunsTriple>::empty());
        assert forall|k: int| 0 <= k <= b.len() implies #[trigger] walk(b.take(k)).0 <= usize::MAX
            && walk(b.take(k)).1 <= usize::MAX by {
            if k == 0 {
                assert(b.take(0) =~= Seq::<RleRunsTriple>::empty());
            } else {
                assert(b.take(k) == b);
            }
        }
    } else {
        let init = runs.drop_last();
        assert(runs_empty_line_ends_at_left(w, h, init)) by {
            assert forall|i: int|
                0 <= i < init.len() && (#[trigger] init[i]).1 == RleTag::EndOfLine && init[i].0 == 0
                implies advance_runs(w, h, 0, 0, init.take(i))->Ok_0.0 == 0 by {
                assert(init[i] == runs[i]);
                assert(init.take(i) == runs.take(i));
            }
        }
        assert(runs.take(runs.len() - 1) == init);
        lemma_fold_advance(w, h, init);
        let (x, y) = advance_runs(w, h, 0, 0, init)->Ok_0;
        let (buf, cur) = triples_fold(init);
        let r = runs.last();
        assert(r == runs[runs.len() - 1]);
        assert(triples_fold(runs) == fold_step(buf, cur, r));
        if cur.live_cells > 0 && r.1 != RleTag::AliveCell {
            lemma_fold_close(w, h, buf, cur, x, y, r);
        } else {
            lemma_fold_extend(w, h, buf, cur, x, y, r);
        }
    }
}

/// The triples that runs within the pattern fold into, when their empty line ends
/// come at column 0: their positions fit, and their cells lie within the pattern.
proof fn lemma_triples_within(w: usize, h: usize, runs: Seq<(usize, RleTag)>)
    requires
        advance_runs(w, h, 0, 0, runs) is Ok,
        runs.len() > 0 ==> h > 0,
        runs_empty_line_ends_at_left(w, h, runs),
    ensures
        cells_fit(runs_to_triples(runs)),
        cells_within(rle_cells(runs_to_triples(runs)), w, h),
{
    if runs.len() == 0 {
        assert(runs_to_triples(runs) == Seq::<RleRunsTriple>::empty());
        assert forall|k: int| 0 <= k <= 0 implies #[trigger] walk(
            Seq::<RleRunsTriple>::empty().take(k),
        ).0 <= usize::MAX && walk(Seq::<RleRunsTriple>::empty().take(k)).1 <= usize::MAX by {
            assert(Seq::<RleRunsTriple>::empty().take(k) =~= Seq::<RleRunsTriple>::empty());
        }
    } else {
        lemma_fold_advance(w, h, runs);
        let (buf, cur) = triples_fold(runs);
        let bb = buf.push(cur);
        if cur.live_cells == 0 {
            assert(bb.drop_last() == buf);
            lemma_rle_cells_last(bb);
            assert(rle_cells(bb) =~= rle_cells(buf));
            assert forall|k: int| 0 <= k <= buf.len() implies #[trigger] walk(buf.take(k)).0
                <= usize::MAX && walk(buf.take(k)).1 <= usize::MAX by {
                assert(buf.take(k) == bb.take(k));
            }
        }
    }
}

/// What a read has built so far: comment lines, and runs that stay within the pattern,
/// none in a pattern of height 0.
pub open spec fn read_within(st: RleModel) -> bool {
    &&& rle_model_wf(st)
    &&& st.header is Some && st.runs.len() > 0 ==> st.header->Some_0.height > 0
    &&& forall|i: int| 0 <= i < st.comments.len() ==> is_comment_line(#[trigger] st.comments[i])
}

proof fn lemma_step_within(st: RleModel, line: Seq<char>)
    requires
        read_within(st),
    ensures
        rle_step(st, line) matches Ok(m) ==> read_within(m),
{
    lemma_step_wf(st, line);
    if let Ok(m) = rle_step(st, line) {
        match st.header {
            Some(hd) => {
                if !st.finished {
                    let rs = content_runs(line)->Ok_0.0;
                    crate::format::rle::lemma_advance_concat(hd.width, hd.height, 0, 0, st.runs, rs);
                    assert(m.runs == st.runs + rs);
                    if rs.len() == 0 {
                        assert(st.runs + rs == st.runs);
                    }
                }
            },
            None => {
                if !is_comment_line(line) {
                    assert(m.runs.len() == 0);
                } else {
                    assert forall|i: int| 0 <= i < m.comments.len() implies is_comment_line(
                        #[trigger] m.comments[i],
                    ) by {
                        if i < st.comments.len() {
                            assert(m.comments[i] == st.comments[i]);
                        }
                    }
                }
            },
        }
    }
}

/// Every state that reading lines reaches keeps its runs within the pattern.
proof fn lemma_read_within(ls: Seq<Seq<char>>)
    ensures
        rle_read(ls) matches Ok(st) ==> read_within(st),
    decreases ls.len(),
{
    if ls.len() > 0 {
        lemma_read_within(ls.drop_last());
        if let Ok(st) = rle_read(ls.drop_last()) {
            lemma_step_within(st, ls.last());
        }
    }
}

/// Every state that reading byte lines reaches keeps its runs within the pattern.
proof fn lemma_read_bytes_within(bls: Seq<Seq<u8>>)
    ensures
        rle_read_bytes(bls) matches Ok(st) ==> read_within(st),
    decreases bls.len(),
{
    if bls.len() > 0 {
        lemma_read_bytes_within(bls.drop_last());
        if let Ok(st) = rle_read_bytes(bls.drop_last()) {
            if vstd::utf8::valid_utf8(bls.last()) {
                lemma_step_within(st, vstd::utf8::decode_utf8(bls.last()));
            }
        }
    }
}

/// The live cells of an RLE pattern read from text lie within its width and height,
/// ascend, and have positions that fit, when every run of line ends in it that counts
/// zero comes at column 0.
pub proof fn lemma_read_cells_within(ls: Seq<Seq<char>>)
    requires
        rle_read(ls) matches Ok(st) && empty_line_ends_at_left(st),
    ensures
        rle_parse(ls) matches Ok(p) ==> cells_fit(p.contents) && cells_within(
            rle_cells(p.contents),
            p.header.width,
            p.header.height,
        ) && cells_sorted(rle_cells(p.contents)),
{
    lemma_read_within(ls);
    if let Ok(p) = rle_parse(ls) {
        let st = rle_read(ls)->Ok_0;
        lemma_triples_within(p.header.width, p.header.height, st.runs);
        lemma_rle_cells_sorted(p.contents);
    }
}

/// The live cells of an RLE pattern read from bytes lie within its width and height,
/// ascend, and have positions that fit, when every run of line ends in it that counts
/// zero comes at column 0.
pub proof fn lemma_read_bytes_cells_within(bls: Seq<Seq<u8>>)
    requires
        rle_read_bytes(bls) matches Ok(st) && empty_line_ends_at_left(st),
    ensures
        rle_parse_bytes(bls) matches Ok(p) ==> cells_fit(p.contents) && cells_within(
            rle_cells(p.contents),
            p.header.width,
            p.header.height,
        ) && cells_sorted(rle_cells(p.contents)),
{
    lemma_read_bytes_within(bls);
    if let Ok(p) = rle_parse_bytes(bls) {
        let st = rle_read_bytes(bls)->Ok_0;
        lemma_triples_within(p.header.width, p.header.height, st.runs);
        lemma_rle_cells_sorted(p.contents);
    }
}

} // verus!

verus! {

/// The text of an RLE pattern read from bytes reads back as the pattern: the same
/// width, height, rule and comment lines, and the same live cells, when no run of line
/// ends in it that counts zero comes at column 0, and no comment line ends with `'\r'`.
pub proof fn lemma_rle_new_reads_back(bls: Seq<Seq<u8>>, r: Rle)
    requires
        rle_read_bytes(bls) matches Ok(st) && empty_line_ends_at_left(st),
        rle_parse_bytes(bls) matches Ok(p) && r.matches_parsed(p),
        forall|k: int| 0 <= k < r.spec_comments().len() ==> line_safe(#[trigger] r.spec_comments()[k]),
    ensures
        cells_fit(r.spec_contents()),
        ({
            let text = rle_text(
                r.spec_comments(),
                r.spec_width(),
                r.spec_height(),
                r.spec_rule().birth_table(),
                r.spec_rule().survival_table(),
                r.spec_contents(),
            );
            rle_parse(lines(text)) matches Ok(q) && q.header.width == r.spec_width()
                && q.header.height == r.spec_height() && q.header.birth
                == r.spec_rule().birth_table() && q.header.survival
                == r.spec_rule().survival_table() && q.comments == r.spec_comments() && rle_cells(
                q.contents,
            ) == rle_cells(r.spec_contents())
        }),
{
    let st = rle_read_bytes(bls)->Ok_0;
    lemma_read_bytes_within(bls);
    lemma_read_bytes_cells_within(bls);
    lemma_runs_to_triples_live(st.runs);
    let p = rle_parse_bytes(bls)->Ok_0;
    assert(p.contents == runs_to_triples(st.runs));
    lemma_rle_to_string_reads_back(r);
}


/// The text of an RLE pattern read from text lines reads back as the pattern: the same
/// width, height, rule and comment lines, and the same live cells, when no run of line
/// ends in it that counts zero comes at column 0, and no comment line ends with `'\r'`.
pub proof fn lemma_rle_parse_reads_back(ls: Seq<Seq<char>>, r: Rle)
    requires
        rle_read(ls) matches Ok(st) && empty_line_ends_at_left(st),
        rle_parse(ls) matches Ok(p) && r.matches_parsed(p),
        forall|k: int| 0 <= k < r.spec_comments().len() ==> line_safe(#[trigger] r.spec_comments()[k]),
    ensures
        cells_fit(r.spec_contents()),
        ({
            let text = rle_text(
                r.spec_comments(),
                r.spec_width(),
                r.spec_height(),
                r.spec_rule().birth_table(),
                r.spec_rule().survival_table(),
                r.spec_contents(),
            );
            rle_parse(lines(text)) matches Ok(q) && q.header.width == r.spec_width()
                && q.header.height == r.spec_height() && q.header.birth
                == r.spec_rule().birth_table() && q.header.survival
                == r.spec_rule().survival_table() && q.comments == r.spec_comments() && rle_cells(
                q.contents,
            ) == rle_cells(r.spec_contents())
        }),
{
    let st = rle_read(ls)->Ok_0;
    lemma_read_within(ls);
    lemma_read_cells_within(ls);
    lemma_runs_to_triples_live(st.runs);
    lemma_rle_to_string_reads_back(r);
}

} // verus!
