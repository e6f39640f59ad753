//! A builder of RLE patterns from a set of live cells, a name, a creator line, a
//! comment and a rule.

use vstd::prelude::*;

use crate::format::cells::{cell_lt, cells_sorted, CellList};
use crate::format::plaintext::{option_string_view, strings_view};
use crate::format::plaintext_builder::lines_of;
use crate::format::rle::{
    advance_runs, cells_fit, rle_advance, rle_cells, walk, Rle, RleHeader, RleRunsTriple,
};
use crate::format::rle_laws::{lemma_advance_triples, triples_canonical, triples_runs};
use crate::format::FormatError;
use crate::position::Position;
use crate::rule::{conways_birth, conways_survival, Rule};
use crate::text::{chars_of, lines, string_of};

verus! {

/// The state of folding sorted cells into triples: the triples so far, where the last
/// one ended (`px`, `py`), and the run of live cells being collected: it starts at
/// (`cx`, `cy`) and holds `live` cells.
pub struct BuildState {
    pub buf: Seq<RleRunsTriple>,
    pub px: int,
    pub py: int,
    pub cx: int,
    pub cy: int,
    pub live: int,
}

/// The triples with the run being collected closed, when it holds cells: it pads the
/// lines down to its row, then the dead cells from the last triple's end (or from
/// x = 0 on a new line).
pub open spec fn flush(st: BuildState) -> Seq<RleRunsTriple> {
    if st.live > 0 {
        let pl = st.cy - st.py;
        st.buf.push(
            RleRunsTriple {
                pad_lines: pl as usize,
                pad_dead_cells: (if pl > 0 {
                    st.cx
                } else {
                    st.cx - st.px
                }) as usize,
                live_cells: st.live as usize,
            },
        )
    } else {
        st.buf
    }
}

/// Folds sorted cells into runs: a cell right after the run being collected extends
/// it, any other closes it and starts a new one.
pub open spec fn build_fold(cells: Seq<Position<usize>>) -> BuildState
    decreases cells.len(),
{
    if cells.len() == 0 {
        BuildState { buf: seq![], px: 0, py: 0, cx: 0, cy: 0, live: 0 }
    } else {
        let st = build_fold(cells.drop_last());
        let p = cells.last();
        if p.1 == st.cy && p.0 == st.cx + st.live {
            BuildState { buf: st.buf, px: st.px, py: st.py, cx: st.cx, cy: st.cy, live: st.live + 1 }
        } else {
            BuildState { buf: flush(st), px: st.cx + st.live, py: st.cy, cx: p.0 as int, cy: p.1 as int, live: 1 }
        }
    }
}

/// The triples of sorted cells.
pub open spec fn build_triples(cells: Seq<Position<usize>>) -> Seq<RleRunsTriple> {
    flush(build_fold(cells))
}

/// The largest x-coordinate of the cells plus one, 0 when there are none.
pub open spec fn build_width(cells: Seq<Position<usize>>) -> int
    decreases cells.len(),
{
    if cells.len() == 0 {
        0
    } else {
        let w = build_width(cells.drop_last());
        if cells.last().0 + 1 > w {
            cells.last().0 + 1
        } else {
            w
        }
    }
}

/// The y-coordinate of the last of the sorted cells plus one, 0 when there are none.
pub open spec fn build_height(cells: Seq<Position<usize>>) -> int {
    if cells.len() == 0 {
        0
    } else {
        cells.last().1 + 1
    }
}

/// `w` and `h` are the smallest bounds of the cells: every cell lies left of column
/// `w` and above row `h`, some cell is in column `w - 1` and some in row `h - 1`, and
/// both are 0 when there are no cells.
pub open spec fn tight_bounds(cells: Seq<Position<usize>>, w: int, h: int) -> bool {
    &&& forall|i: int| 0 <= i < cells.len() ==> (#[trigger] cells[i]).0 < w && cells[i].1 < h
    &&& cells.len() == 0 ==> w == 0 && h == 0
    &&& cells.len() > 0 ==> exists|i: int| 0 <= i < cells.len() && (#[trigger] cells[i]).0 + 1 == w
    &&& cells.len() > 0 ==> exists|j: int| 0 <= j < cells.len() && (#[trigger] cells[j]).1 + 1 == h
}

/// The width of the cells lies one past the largest x-coordinate.
proof fn lemma_build_width(cells: Seq<Position<usize>>)
    ensures
        forall|i: int| 0 <= i < cells.len() ==> (#[trigger] cells[i]).0 < build_width(cells),
        cells.len() == 0 ==> build_width(cells) == 0,
        cells.len() > 0 ==> exists|i: int| 0 <= i < cells.len() && (#[trigger] cells[i]).0 + 1
            == build_width(cells),
        build_width(cells) >= 0,
    decreases cells.len(),
{
    if cells.len() > 0 {
        let init = cells.drop_last();
        lemma_build_width(init);
        assert forall|i: int| 0 <= i < cells.len() implies (#[trigger] cells[i]).0 < build_width(cells) by {
            if i < init.len() {
                assert(cells[i] == init[i]);
            }
        }
        if cells.last().0 + 1 > build_width(init) {
            assert(cells[cells.len() - 1].0 + 1 == build_width(cells));
        } else {
            let i = choose|i: int| 0 <= i < init.len() && (#[trigger] init[i]).0 + 1 == build_width(init);
            assert(cells[i] == init[i]);
        }
    }
}

/// The width and height that a built pattern gets are the smallest bounds of its
/// sorted cells: one past the largest x-coordinate and one past the largest
/// y-coordinate, 0 without cells.
pub proof fn lemma_build_bounds(cells: Seq<Position<usize>>)
    requires
        cells_sorted(cells),
    ensures
        tight_bounds(cells, build_width(cells), build_height(cells)),
{
    lemma_build_width(cells);
    if cells.len() > 0 {
        let last = cells.len() - 1;
        assert forall|i: int| 0 <= i < cells.len() implies (#[trigger] cells[i]).1 < build_height(cells) by {
            if i < last {
                assert(cell_lt(cells[i], cells[last]));
            }
        }
        assert(cells[last].1 + 1 == build_height(cells));
    }
}

/// No coordinate of the cells is `usize::MAX`, so that one past each can be counted.
pub open spec fn cells_below_max(cells: Seq<Position<usize>>) -> bool {
    forall|i: int| 0 <= i < cells.len() ==> #[trigger] cells[i].0 < usize::MAX && cells[i].1 < usize::MAX
}

/// A comment line: the prefix, then a space and the text when there is text.
pub open spec fn prefixed_line(l: Seq<char>, prefix: Seq<char>) -> Seq<char> {
    if l.len() == 0 {
        prefix
    } else {
        prefix + seq![' '] + l
    }
}

/// The comment lines of a text given to the builder: none without a text, the prefix
/// alone for an empty text, else one prefixed line for each of its lines.
pub open spec fn prefixed_comments(s: Option<Seq<char>>, prefix: Seq<char>) -> Seq<Seq<char>> {
    match s {
        None => seq![],
        Some(s) => if s.len() == 0 {
            seq![prefix]
        } else {
            lines(s).map_values(|l: Seq<char>| prefixed_line(l, prefix))
        },
    }
}

/// A non-empty text given to the builder gives one comment line for each of its
/// lines, empty lines included, in order: the prefix alone for an empty line, else the
/// prefix, a space and the line.
pub proof fn lemma_prefixed_comment_lines(s: Seq<char>, prefix: Seq<char>)
    requires
        s.len() > 0,
    ensures
        prefixed_comments(Some(s), prefix).len() == lines(s).len(),
        forall|i: int|
            0 <= i < lines(s).len() ==> #[trigger] prefixed_comments(Some(s), prefix)[i] == (if lines(
                s,
            )[i].len() == 0 {
                prefix
            } else {
                prefix + seq![' '] + lines(s)[i]
            }),
{
}

/// The comment lines of a built pattern: the name (`#N`), the creator (`#O`), then
/// the comment (`#C`).
pub open spec fn build_comments(
    name: Option<Seq<char>>,
    created: Option<Seq<char>>,
    comment: Option<Seq<char>>,
) -> Seq<Seq<char>> {
    prefixed_comments(name, seq!['#', 'N']) + prefixed_comments(created, seq!['#', 'O'])
        + prefixed_comments(comment, seq!['#', 'C'])
}

/// The walk over the triples so far ends where the last one ended; the cells so far
/// are those of the triples and the run being collected.
#[verifier::rlimit(40)]
#[verifier::spinoff_prover]
proof fn lemma_build_fold(cells: Seq<Position<usize>>)
    requires
        cells_sorted(cells),
        cells_below_max(cells),
    ensures
        ({
            let st = build_fold(cells);
            &&& walk(st.buf) == (st.px, st.py)
            &&& cells_fit(st.buf)
            &&& 0 <= st.px <= usize::MAX && 0 <= st.py <= st.cy < usize::MAX
            &&& st.cy == st.py ==> st.px <= st.cx
            &&& 0 <= st.cx && st.cx + st.live <= usize::MAX
            &&& st.live >= 0
            &&& st.live == 0 ==> cells.len() == 0 && st.buf.len() == 0 && st.cx == 0 && st.cy == 0
                && st.px == 0 && st.py == 0
            &&& cells.len() > 0 ==> st.live > 0 && cells.last() == Position(
                (st.cx + st.live - 1) as usize,
                st.cy as usize,
            )
            &&& rle_cells(st.buf) + Seq::new(
                st.live as nat,
                |i: int| Position((st.cx + i) as usize, st.cy as usize),
            ) == cells
        }),
    decreases cells.len(),
{
    if cells.len() == 0 {
        assert(walk(Seq::<RleRunsTriple>::empty()) == (0int, 0int));
        assert forall|k: int| 0 <= k <= 0 implies #[trigger] walk(
            Seq::<RleRunsTriple>::empty().take(k),
        ).0 <= usize::MAX && walk(Seq::<RleRunsTriple>::empty().take(k)).1 <= usize::MAX by {
            assert(Seq::<RleRunsTriple>::empty().take(k) =~= Seq::<RleRunsTriple>::empty());
        }
        assert(Seq::new(0, |i: int| Position((0 + i) as usize, 0usize)) =~= Seq::<
            Position<usize>,
        >::empty());
        assert(rle_cells(Seq::<RleRunsTriple>::empty()) + Seq::<Position<usize>>::empty()
            =~= cells);
    } else {
        let init = cells.drop_last();
        assert(cells_sorted(init)) by {
            assert forall|i: int, j: int| 0 <= i < j < init.len() implies cell_lt(
                #[trigger] init[i],
                #[trigger] init[j],
            ) by {
                assert(init[i] == cells[i]);
                assert(init[j] == cells[j]);
            }
        }
        assert(cells_below_max(init)) by {
            assert forall|i: int| 0 <= i < init.len() implies #[trigger] init[i].0 < usize::MAX
                && init[i].1 < usize::MAX by {
                assert(init[i] == cells[i]);
            }
        }
        lemma_build_fold(init);
        let st = build_fold(init);
        let p = cells.last();
        assert(p == cells[cells.len() - 1]);
        assert(p.0 < usize::MAX && p.1 < usize::MAX);
        if init.len() > 0 {
            assert(init.last() == cells[cells.len() - 2]);
            assert(cell_lt(cells[cells.len() - 2], cells[cells.len() - 1]));
        }
        let run = Seq::new(st.live as nat, |i: int| Position((st.cx + i) as usize, st.cy as usize));
        if p.1 == st.cy && p.0 == st.cx + st.live {
            let nrun = Seq::new(
                (st.live + 1) as nat,
                |i: int| Position((st.cx + i) as usize, st.cy as usize),
            );
            assert(nrun =~= run.push(p));
            assert(cells =~= init.push(p));
            assert(rle_cells(st.buf) + nrun =~= (rle_cells(st.buf) + run).push(p));
        } else {
            let nst = build_fold(cells);
            assert(nst.buf == flush(st));
            if st.live > 0 {
                let pl = st.cy - st.py;
                let t = RleRunsTriple {
                    pad_lines: pl as usize,
                    pad_dead_cells: (if pl > 0 {
                        st.cx
                    } else {
                        st.cx - st.px
                    }) as usize,
                    live_cells: st.live as usize,
                };
                assert(nst.buf == st.buf.push(t));
                assert(nst.buf.drop_last() == st.buf);
                assert(walk(nst.buf) == (st.cx + st.live, st.cy));
                assert(rle_cells(nst.buf) == rle_cells(st.buf) + run);
                assert forall|k: int| 0 <= k <= nst.buf.len() implies #[trigger] walk(
                    nst.buf.take(k),
                ).0 <= usize::MAX && walk(nst.buf.take(k)).1 <= usize::MAX by {
                    if k < nst.buf.len() {
                        assert(nst.buf.take(k) == st.buf.take(k));
                        assert(cells_fit(st.buf));
                        assert(walk(st.buf.take(k)).0 <= usize::MAX);
                    } else {
                        assert(nst.buf.take(k) == nst.buf);
                    }
                }
                assert(p.1 > st.cy || p.0 >= st.cx + st.live);
            }
            let nrun = Seq::new(1, |i: int| Position((p.0 + i) as usize, p.1));
            assert(nrun =~= seq![p]);
            assert(cells =~= init.push(p));
            assert(rle_cells(nst.buf) + nrun =~= (rle_cells(st.buf) + run).push(p));
        }
    }
}

/// The triples of sorted cells give back those cells, and every position they reach fits.
pub proof fn lemma_build_triples(cells: Seq<Position<usize>>)
    requires
        cells_sorted(cells),
        cells_below_max(cells),
    ensures
        rle_cells(build_triples(cells)) == cells,
        cells_fit(build_triples(cells)),
{
    lemma_build_fold(cells);
    let st = build_fold(cells);
    if st.live > 0 {
        let pl = st.cy - st.py;
        let t = RleRunsTriple {
            pad_lines: pl as usize,
            pad_dead_cells: (if pl > 0 {
                st.cx
            } else {
                st.cx - st.px
            }) as usize,
            live_cells: st.live as usize,
        };
        let nb = st.buf.push(t);
        assert(nb.drop_last() == st.buf);
        assert(walk(nb) == (st.cx + st.live, st.cy));
        assert forall|k: int| 0 <= k <= nb.len() implies #[trigger] walk(nb.take(k)).0 <= usize::MAX
            && walk(nb.take(k)).1 <= usize::MAX by {
            if k < nb.len() {
                assert(nb.take(k) == st.buf.take(k));
            } else {
                assert(nb.take(k) == nb);
            }
        }
    } else {
        assert(Seq::new(0, |i: int| Position((st.cx + i) as usize, st.cy as usize)) =~= Seq::<
            Position<usize>,
        >::empty());
        assert(rle_cells(st.buf) + Seq::<Position<usize>>::empty() == rle_cells(st.buf));
    }
}

/// A prefix of sorted cells below the maximum is sorted and below the maximum.
proof fn lemma_prefix_sorted(cells: Seq<Position<usize>>, k: int)
    requires
        0 <= k <= cells.len(),
        cells_sorted(cells),
        cells_below_max(cells),
    ensures
        cells_sorted(cells.take(k)),
        cells_below_max(cells.take(k)),
{
    let pre = cells.take(k);
    assert forall|a: int, b: int| 0 <= a < b < pre.len() implies cell_lt(
        #[trigger] pre[a],
        #[trigger] pre[b],
    ) by {
        assert(pre[a] == cells[a]);
        assert(pre[b] == cells[b]);
    }
    assert forall|a: int| 0 <= a < pre.len() implies #[trigger] pre[a].0 < usize::MAX
        && pre[a].1 < usize::MAX by {
        assert(pre[a] == cells[a]);
    }
}

/// The triples folded so far are as a parse leaves them, each leads to one past a
/// live cell, and the run being collected starts away from where the last triple
/// ends.
proof fn lemma_build_fold_shape(cells: Seq<Position<usize>>)
    requires
        cells_sorted(cells),
        cells_below_max(cells),
    ensures
        ({
            let st = build_fold(cells);
            &&& triples_canonical(st.buf)
            &&& st.buf.len() > 0 ==> st.cy > st.py || st.cx > st.px
            &&& forall|k: int|
                #![trigger walk(st.buf.take(k))]
                1 <= k <= st.buf.len() ==> exists|i: int|
                    0 <= i < cells.len() && walk(st.buf.take(k)) == (
                        #[trigger] cells[i].0 + 1,
                        cells[i].1 as int,
                    )
        }),
    decreases cells.len(),
{
    lemma_build_fold(cells);
    if cells.len() > 0 {
        let init = cells.drop_last();
        lemma_prefix_sorted(cells, cells.len() - 1);
        assert(cells.take(cells.len() - 1) == init);
        lemma_build_fold_shape(init);
        lemma_build_fold(init);
        let st = build_fold(init);
        let nst = build_fold(cells);
        let p = cells.last();
        assert(p == cells[cells.len() - 1]);
        if init.len() > 0 {
            assert(init.last() == cells[cells.len() - 2]);
            assert(cell_lt(cells[cells.len() - 2], cells[cells.len() - 1]));
        }
        if p.1 == st.cy && p.0 == st.cx + st.live {
            assert forall|k: int|
                #![trigger walk(nst.buf.take(k))]
                1 <= k <= nst.buf.len() implies exists|i: int|
                    0 <= i < cells.len() && walk(nst.buf.take(k)) == (
                        #[trigger] cells[i].0 + 1,
                        cells[i].1 as int,
                    ) by {
                let i = choose|i: int|
                    0 <= i < init.len() && walk(st.buf.take(k)) == (
                        #[trigger] init[i].0 + 1,
                        init[i].1 as int,
                    );
                assert(cells[i] == init[i]);
            }
        } else {
            if st.live > 0 {
                let pl = st.cy - st.py;
                let t = RleRunsTriple {
                    pad_lines: pl as usize,
                    pad_dead_cells: (if pl > 0 {
                        st.cx
                    } else {
                        st.cx - st.px
                    }) as usize,
                    live_cells: st.live as usize,
                };
                assert(nst.buf == st.buf.push(t));
                assert(nst.buf.drop_last() == st.buf);
                assert(walk(nst.buf) == (st.cx + st.live, st.cy));
                let li = init.len() - 1;
                assert(init.last() == init[li]);
                assert(cells[li] == init[li]);
                assert(triples_canonical(nst.buf)) by {
                    assert forall|i: int| 0 <= i < nst.buf.len() implies (#[trigger] nst.buf[i]).live_cells
                        > 0 by {
                        if i < st.buf.len() {
                            assert(nst.buf[i] == st.buf[i]);
                        }
                    }
                    assert forall|i: int| 0 < i < nst.buf.len() implies (#[trigger] nst.buf[i]).pad_lines
                        > 0 || nst.buf[i].pad_dead_cells > 0 by {
                        if i < st.buf.len() {
                            assert(nst.buf[i] == st.buf[i]);
                        }
                    }
                }
                assert forall|k: int|
                    #![trigger walk(nst.buf.take(k))]
                    1 <= k <= nst.buf.len() implies exists|i: int|
                        0 <= i < cells.len() && walk(nst.buf.take(k)) == (
                            #[trigger] cells[i].0 + 1,
                            cells[i].1 as int,
                        ) by {
                    if k < nst.buf.len() {
                        assert(nst.buf.take(k) == st.buf.take(k));
                        let i = choose|i: int|
                            0 <= i < init.len() && walk(st.buf.take(k)) == (
                                #[trigger] init[i].0 + 1,
                                init[i].1 as int,
                            );
                        assert(cells[i] == init[i]);
                    } else {
                        assert(nst.buf.take(k) == nst.buf);
                        assert(walk(nst.buf.take(k)) == (cells[li].0 + 1, cells[li].1 as int));
                    }
                }
            } else {
                assert(nst.buf == st.buf);
            }
        }
    } else {
        assert(triples_canonical(Seq::<RleRunsTriple>::empty()));
    }
}

/// The triples of sorted cells are as a parse leaves them, and every position they
/// lead to is within the width of the cells and above their height.
pub proof fn lemma_build_triples_shape(cells: Seq<Position<usize>>)
    requires
        cells_sorted(cells),
        cells_below_max(cells),
    ensures
        triples_canonical(build_triples(cells)),
        forall|k: int|
            #![trigger walk(build_triples(cells).take(k))]
            1 <= k <= build_triples(cells).len() ==> walk(build_triples(cells).take(k)).0
                <= build_width(cells) && walk(build_triples(cells).take(k)).1 < build_height(
                cells,
            ),
{
    lemma_build_fold(cells);
    lemma_build_fold_shape(cells);
    lemma_build_width(cells);
    let st = build_fold(cells);
    let ts = build_triples(cells);
    assert forall|i: int| 0 <= i < cells.len() implies #[trigger] cells[i].1 <= build_height(cells) - 1 by {
        if i < cells.len() - 1 {
            assert(cell_lt(cells[i], cells[cells.len() - 1]));
        }
    }
    // The positions of the folded triples, and of the last one.
    assert forall|k: int| 1 <= k <= ts.len() implies exists|i: int|
        0 <= i < cells.len() && walk(#[trigger] ts.take(k)) == (cells[i].0 + 1, cells[i].1 as int) by {
        if k <= st.buf.len() {
            assert(ts.take(k) == st.buf.take(k));
            let i = choose|i: int|
                0 <= i < cells.len() && walk(st.buf.take(k)) == (
                    #[trigger] cells[i].0 + 1,
                    cells[i].1 as int,
                );
        } else {
            let pl = st.cy - st.py;
            let t = RleRunsTriple {
                pad_lines: pl as usize,
                pad_dead_cells: (if pl > 0 {
                    st.cx
                } else {
                    st.cx - st.px
                }) as usize,
                live_cells: st.live as usize,
            };
            assert(ts == st.buf.push(t));
            assert(ts.take(k) == ts);
            assert(ts.drop_last() == st.buf);
            let li = cells.len() - 1;
            assert(cells.last() == cells[li]);
            assert(walk(ts) == (cells[li].0 + 1, cells[li].1 as int));
        }
    }
    assert forall|k: int| #![trigger walk(ts.take(k))] 1 <= k <= ts.len() implies walk(ts.take(k)).0
        <= build_width(cells) && walk(ts.take(k)).1 < build_height(cells) by {
        let i = choose|i: int|
            0 <= i < cells.len() && walk(#[trigger] ts.take(k)) == (cells[i].0 + 1, cells[i].1 as int);
        assert(cells[i].0 + 1 <= build_width(cells));
        assert(cells[i].1 <= build_height(cells) - 1);
    }
    if st.live > 0 {
        let pl = st.cy - st.py;
        let t = RleRunsTriple {
            pad_lines: pl as usize,
            pad_dead_cells: (if pl > 0 {
                st.cx
            } else {
                st.cx - st.px
            }) as usize,
            live_cells: st.live as usize,
        };
        assert(ts == st.buf.push(t));
        assert forall|i: int| 0 <= i < ts.len() implies (#[trigger] ts[i]).live_cells > 0 by {
            if i < st.buf.len() {
                assert(ts[i] == st.buf[i]);
            }
        }
        assert forall|i: int| 0 < i < ts.len() implies (#[trigger] ts[i]).pad_lines > 0
            || ts[i].pad_dead_cells > 0 by {
            if i < st.buf.len() {
                assert(ts[i] == st.buf[i]);
            }
        }
    }
}

/// Folds sorted cells into triples.
fn triples_of(cells: &Vec<Position<usize>>) -> (res: Vec<RleRunsTriple>)
    requires
        cells_sorted(cells@),
        cells_below_max(cells@),
    ensures
        res@ == build_triples(cells@),
{
    let mut buf: Vec<RleRunsTriple> = Vec::new();
    let mut px: usize = 0;
    let mut py: usize = 0;
    let mut cx: usize = 0;
    let mut cy: usize = 0;
    let mut live: usize = 0;
    assert(cells@.take(0) =~= Seq::<Position<usize>>::empty());
    for i in 0..cells.len()
        invariant
            cells_sorted(cells@),
            cells_below_max(cells@),
            build_fold(cells@.take(i as int)) == (BuildState {
                buf: buf@,
                px: px as int,
                py: py as int,
                cx: cx as int,
                cy: cy as int,
                live: live as int,
            }),
    {
        let ghost pre = cells@.take(i + 1);
        proof {
            lemma_prefix_sorted(cells@, i + 1);
            lemma_prefix_sorted(cells@, i as int);
            lemma_build_fold(cells@.take(i as int));
            lemma_build_fold(pre);
            assert(pre.drop_last() == cells@.take(i as int));
            assert(pre.last() == cells@[i as int]);
        }
        let p = cells[i];
        if p.1 == cy && p.0 == cx + live {
            live = live + 1;
        } else {
            let ghost st = build_fold(cells@.take(i as int));
            if live > 0 {
                let pl = cy - py;
                let pd = if pl > 0 {
                    cx
                } else {
                    cx - px
                };
                buf.push(RleRunsTriple { pad_lines: pl, pad_dead_cells: pd, live_cells: live });
            }
            assert(buf@ == flush(st));
            px = cx + live;
            py = cy;
            cx = p.0;
            cy = p.1;
            live = 1;
        }
    }
    assert(cells@.take(cells.len() as int) == cells@);
    proof {
        lemma_build_fold(cells@);
    }
    if live > 0 {
        let pl = cy - py;
        let pd = if pl > 0 {
            cx
        } else {
            cx - px
        };
        buf.push(RleRunsTriple { pad_lines: pl, pad_dead_cells: pd, live_cells: live });
    }
    buf
}

/// The width of sorted cells: their largest x-coordinate plus one.
fn width_of(cells: &Vec<Position<usize>>) -> (r: usize)
    requires
        cells_below_max(cells@),
    ensures
        r == build_width(cells@),
{
    let mut w: usize = 0;
    assert(cells@.take(0) =~= Seq::<Position<usize>>::empty());
    for i in 0..cells.len()
        invariant
            cells_below_max(cells@),
            w == build_width(cells@.take(i as int)),
    {
        assert(cells@.take(i + 1).drop_last() == cells@.take(i as int));
        assert(cells@.take(i + 1).last() == cells@[i as int]);
        let x = cells[i].0;
        if x + 1 > w {
            w = x + 1;
        }
    }
    assert(cells@.take(cells.len() as int) == cells@);
    w
}

/// The comment lines of a text given to the builder, each prefixed.
fn comments_of(s: Option<String>, prefix: &[char]) -> (res: Vec<String>)
    ensures
        strings_view(res@) == prefixed_comments(option_string_view(s), prefix@),
{
    let mut res: Vec<String> = Vec::new();
    match s {
        None => {
            assert(strings_view(res@) =~= seq![]);
        },
        Some(s) => {
            let mut p: Vec<char> = Vec::new();
            for k in 0..prefix.len()
                invariant
                    p@ == prefix@.take(k as int),
            {
                assert(prefix@.take(k + 1) == prefix@.take(k as int).push(prefix@[k as int]));
                p.push(prefix[k]);
            }
            assert(prefix@.take(prefix.len() as int) == prefix@);
            let sv = chars_of(s.as_str());
            if sv.len() == 0 {
                res.push(string_of(&p));
                assert(strings_view(res@) =~= seq![prefix@]);
            } else {
                let ls = lines_of(&s);
                let ghost target = lines(s@).map_values(|l: Seq<char>| prefixed_line(l, prefix@));
                for i in 0..ls.len()
                    invariant
                        p@ == prefix@,
                        strings_view(ls@) == lines(s@),
                        target == lines(s@).map_values(|l: Seq<char>| prefixed_line(l, prefix@)),
                        strings_view(res@) == target.take(i as int),
                {
                    let mut line = p.clone();
                    assert(line@ == p@);
                    let mut lc = chars_of(ls[i].as_str());
                    assert(lc@ == lines(s@)[i as int]);
                    if lc.len() > 0 {
                        line.push(' ');
                        line.append(&mut lc);
                    }
                    let ghost before = res@;
                    res.push(string_of(&line));
                    assert(line@ == prefixed_line(lines(s@)[i as int], prefix@));
                    assert(strings_view(res@) =~= target.take(i + 1)) by {
                        assert(target.take(i + 1) == target.take(i as int).push(target[i as int]));
                    }
                }
                assert(target.take(ls.len() as int) == target);
            }
        },
    }
    res
}

/// The name part of an RLE builder's state: whether a name was given.
pub trait RleBuilderName: Sized {
    /// The name given, if any.
    spec fn spec_text(&self) -> Option<Seq<char>>;

    /// Hands out the name given, if any.
    fn drain(self) -> (r: Option<String>)
        ensures
            option_string_view(r) == self.spec_text(),
    ;
}

/// The creator part of an RLE builder's state: whether a creator line was given.
pub trait RleBuilderCreated: Sized {
    /// The creator given, if any.
    spec fn spec_text(&self) -> Option<Seq<char>>;

    /// Hands out the creator given, if any.
    fn drain(self) -> (r: Option<String>)
        ensures
            option_string_view(r) == self.spec_text(),
    ;
}

/// The comment part of an RLE builder's state: whether a comment was given.
pub trait RleBuilderComment: Sized {
    /// The comment given, if any.
    spec fn spec_text(&self) -> Option<Seq<char>>;

    /// Hands out the comment given, if any.
    fn drain(self) -> (r: Option<String>)
        ensures
            option_string_view(r) == self.spec_text(),
    ;
}

/// The rule part of an RLE builder's state: whether a rule was given.
pub trait RleBuilderRule: Sized {
    /// The birth and survival tables of the rule given, if any.
    spec fn spec_tables(&self) -> Option<(Seq<bool>, Seq<bool>)>;

    /// Hands out the rule given, if any.
    fn drain(self) -> (r: Option<Rule>)
        ensures
            match r {
                Some(rule) => self.spec_tables() == Some((rule.birth_table(), rule.survival_table())),
                None => self.spec_tables() is None,
            },
    ;
}

/// No name was given.
pub struct RleBuilderNoName;

/// A name was given.
pub struct RleBuilderWithName(String);

/// No creator was given.
pub struct RleBuilderNoCreated;

/// A creator was given.
pub struct RleBuilderWithCreated(String);

/// No comment was given.
pub struct RleBuilderNoComment;

/// A comment was given.
pub struct RleBuilderWithComment(String);

/// No rule was given.
pub struct RleBuilderNoRule;

/// A rule was given.
pub struct RleBuilderWithRule(Rule);

impl RleBuilderName for RleBuilderNoName {
    open spec fn spec_text(&self) -> Option<Seq<char>> {
        None
    }

    fn drain(self) -> (r: Option<String>) {
        None
    }
}

impl RleBuilderName for RleBuilderWithName {
    closed spec fn spec_text(&self) -> Option<Seq<char>> {
        Some(self.0@)
    }

    fn drain(self) -> (r: Option<String>) {
        Some(self.0)
    }
}

impl RleBuilderCreated for RleBuilderNoCreated {
    open spec fn spec_text(&self) -> Option<Seq<char>> {
        None
    }

    fn drain(self) -> (r: Option<String>) {
        None
    }
}

impl RleBuilderCreated for RleBuilderWithCreated {
    closed spec fn spec_text(&self) -> Option<Seq<char>> {
        Some(self.0@)
    }

    fn drain(self) -> (r: Option<String>) {
        Some(self.0)
    }
}

impl RleBuilderComment for RleBuilderNoComment {
    open spec fn spec_text(&self) -> Option<Seq<char>> {
        None
    }

    fn drain(self) -> (r: Option<String>) {
        None
    }
}

impl RleBuilderComment for RleBuilderWithComment {
    closed spec fn spec_text(&self) -> Option<Seq<char>> {
        Some(self.0@)
    }

    fn drain(self) -> (r: Option<String>) {
        Some(self.0)
    }
}

impl RleBuilderRule for RleBuilderNoRule {
    open spec fn spec_tables(&self) -> Option<(Seq<bool>, Seq<bool>)> {
        None
    }

    fn drain(self) -> (r: Option<Rule>) {
        None
    }
}

impl RleBuilderRule for RleBuilderWithRule {
    closed spec fn spec_tables(&self) -> Option<(Seq<bool>, Seq<bool>)> {
        Some((self.0.birth_table(), self.0.survival_table()))
    }

    fn drain(self) -> (r: Option<Rule>) {
        Some(self.0)
    }
}

/// A builder of `Rle` patterns: a set of live cells, and at most one name, creator,
/// comment and rule (the type says whether each was given).
pub struct RleBuilder<
    Name = RleBuilderNoName,
    Created = RleBuilderNoCreated,
    Comment = RleBuilderNoComment,
    RuleSpec = RleBuilderNoRule,
> where
    Name: RleBuilderName,
    Created: RleBuilderCreated,
    Comment: RleBuilderComment,
    RuleSpec: RleBuilderRule,
 {
    name: Name,
    created: Created,
    comment: Comment,
    rule: RuleSpec,
    contents: CellList,
}

/// The rule tables of a built pattern: those given, or Conway's Game of Life.
pub open spec fn build_rule(r: Option<(Seq<bool>, Seq<bool>)>) -> (Seq<bool>, Seq<bool>) {
    match r {
        Some(t) => t,
        None => (conways_birth(), conways_survival()),
    }
}

impl RleBuilder<RleBuilderNoName, RleBuilderNoCreated, RleBuilderNoComment, RleBuilderNoRule> {
    /// Creates a builder with no live cells and nothing else given.
    pub fn new() -> (r: Self)
        ensures
            r.spec_cells() == Seq::<Position<usize>>::empty(),
            r.spec_name() is None,
            r.spec_created() is None,
            r.spec_comment() is None,
            r.spec_rule() is None,
    {
        RleBuilder {
            name: RleBuilderNoName,
            created: RleBuilderNoCreated,
            comment: RleBuilderNoComment,
            rule: RleBuilderNoRule,
            contents: CellList::new(),
        }
    }

    /// Creates a builder whose live cells are `positions`.
    pub fn from_iter(positions: &[Position<usize>]) -> (r: Self)
        ensures
            r.spec_cells().to_set() == positions@.to_set(),
            r.spec_name() is None,
            r.spec_created() is None,
            r.spec_comment() is None,
            r.spec_rule() is None,
    {
        let mut b = Self::new();
        b.extend(positions);
        assert(Seq::<Position<usize>>::empty().to_set().union(positions@.to_set()) =~= positions@.to_set());
        b
    }
}

impl<
    Name: RleBuilderName,
    Created: RleBuilderCreated,
    Comment: RleBuilderComment,
    RuleSpec: RleBuilderRule,
> RleBuilder<Name, Created, Comment, RuleSpec> {
    /// The live cells, in ascending row order.
    pub closed spec fn spec_cells(self) -> Seq<Position<usize>> {
        self.contents.spec_cells()
    }

    /// The name given, if any.
    pub closed spec fn spec_name(self) -> Option<Seq<char>> {
        self.name.spec_text()
    }

    /// The creator given, if any.
    pub closed spec fn spec_created(self) -> Option<Seq<char>> {
        self.created.spec_text()
    }

    /// The comment given, if any.
    pub closed spec fn spec_comment(self) -> Option<Seq<char>> {
        self.comment.spec_text()
    }

    /// The tables of the rule given, if any.
    pub closed spec fn spec_rule(self) -> Option<(Seq<bool>, Seq<bool>)> {
        self.rule.spec_tables()
    }

    /// The live cells are kept in strictly ascending row order.
    #[verifier::type_invariant]
    spec fn inv(self) -> bool {
        self.contents.wf()
    }

    /// Makes the cells at `positions` live.
    pub fn extend(&mut self, positions: &[Position<usize>])
        ensures
            final(self).spec_cells().to_set() == old(self).spec_cells().to_set().union(
                positions@.to_set(),
            ),
            final(self).spec_name() == old(self).spec_name(),
            final(self).spec_created() == old(self).spec_created(),
            final(self).spec_comment() == old(self).spec_comment(),
            final(self).spec_rule() == old(self).spec_rule(),
    {
        proof {
            use_type_invariant(&*self);
        }
        let mut contents = CellList::new();
        std::mem::swap(&mut contents, &mut self.contents);
        contents.extend(positions);
        self.contents = contents;
    }

    /// Builds the pattern: the name, creator and comment as comment lines (`#N`,
    /// `#O`, `#C`), the rule given or Conway's Game of Life, the width and height of
    /// the live cells seen from (0, 0), and their runs. A name that spans more than one
    /// line is refused.
    pub fn build(self) -> (res: Result<Rle, FormatError>)
        requires
            !(self.spec_name() matches Some(n) && lines(n).len() > 1) ==> cells_below_max(
                self.spec_cells(),
            ),
        ensures
            match self.spec_name() {
                Some(n) if lines(n).len() > 1 => res == Err::<Rle, FormatError>(
                    FormatError::MultilineName,
                ),
                _ => res matches Ok(r) && r.spec_width() == build_width(self.spec_cells())
                    && r.spec_height() == build_height(self.spec_cells()) && (
                r.spec_rule().birth_table(),
                r.spec_rule().survival_table(),
            ) == build_rule(self.spec_rule()) && r.spec_comments() == build_comments(
                    self.spec_name(),
                    self.spec_created(),
                    self.spec_comment(),
                ) && r.spec_contents() == build_triples(self.spec_cells()) && rle_cells(
                    r.spec_contents(),
                ) == self.spec_cells() && cells_fit(r.spec_contents()) && triples_canonical(
                    r.spec_contents(),
                ) && rle_advance(
                    r.spec_width(),
                    r.spec_height(),
                    0,
                    0,
                    triples_runs(r.spec_contents()),
                ) is Ok,
            },
            res matches Ok(r) ==> tight_bounds(
                self.spec_cells(),
                r.spec_width() as int,
                r.spec_height() as int,
            ),
    {
        proof {
            use_type_invariant(&self);
            self.contents.lemma_sorted();
            lemma_build_bounds(self.spec_cells());
        }
        let ghost cells = self.spec_cells();
        let ghost name_text = self.spec_name();
        let ghost created_text = self.spec_created();
        let ghost comment_text = self.spec_comment();
        let ghost rule_tables = self.spec_rule();
        let name = self.name.drain();
        match &name {
            Some(n) => {
                let name_lines = lines_of(n);
                if name_lines.len() > 1 {
                    return Err(FormatError::MultilineName);
                }
            },
            None => {},
        }
        let n_prefix: [char; 2] = ['#', 'N'];
        let o_prefix: [char; 2] = ['#', 'O'];
        let c_prefix: [char; 2] = ['#', 'C'];
        assert(n_prefix@ =~= seq!['#', 'N']);
        assert(o_prefix@ =~= seq!['#', 'O']);
        assert(c_prefix@ =~= seq!['#', 'C']);
        let mut comments = comments_of(name, n_prefix.as_slice());
        let mut created_lines = comments_of(self.created.drain(), o_prefix.as_slice());
        let mut comment_lines = comments_of(self.comment.drain(), c_prefix.as_slice());
        let ghost c0 = comments@;
        let ghost c1 = created_lines@;
        let ghost c2 = comment_lines@;
        comments.append(&mut created_lines);
        comments.append(&mut comment_lines);
        assert(strings_view(comments@) =~= strings_view(c0) + strings_view(c1) + strings_view(c2));
        let rule = match self.rule.drain() {
            Some(r) => r,
            None => Rule::conways_life(),
        };
        let cells_vec = self.contents.cells();
        let width = width_of(cells_vec);
        let height = if cells_vec.len() == 0 {
            0
        } else {
            cells_vec[cells_vec.len() - 1].1 + 1
        };
        let contents = triples_of(cells_vec);
        proof {
            lemma_build_triples(cells);
            lemma_build_triples_shape(cells);
            lemma_advance_triples(build_triples(cells), width, height);
        }
        Ok(Rle::from_parts(RleHeader { width, height, rule }, comments, contents))
    }
}

impl<
    Created: RleBuilderCreated,
    Comment: RleBuilderComment,
    RuleSpec: RleBuilderRule,
> RleBuilder<RleBuilderNoName, Created, Comment, RuleSpec> {
    /// Sets the name.
    pub fn name(self, str: &str) -> (r: RleBuilder<RleBuilderWithName, Created, Comment, RuleSpec>)
        ensures
            r.spec_name() == Some(str@),
            r.spec_created() == self.spec_created(),
            r.spec_comment() == self.spec_comment(),
            r.spec_rule() == self.spec_rule(),
            r.spec_cells() == self.spec_cells(),
    {
        proof {
            use_type_invariant(&self);
        }
        RleBuilder {
            name: RleBuilderWithName(str.to_owned()),
            created: self.created,
            comment: self.comment,
            rule: self.rule,
            contents: self.contents,
        }
    }
}

impl<
    Name: RleBuilderName,
    Comment: RleBuilderComment,
    RuleSpec: RleBuilderRule,
> RleBuilder<Name, RleBuilderNoCreated, Comment, RuleSpec> {
    /// Sets the creator; each of its lines becomes a `#O` line.
    pub fn created(self, str: &str) -> (r: RleBuilder<Name, RleBuilderWithCreated, Comment, RuleSpec>)
        ensures
            r.spec_created() == Some(str@),
            r.spec_name() == self.spec_name(),
            r.spec_comment() == self.spec_comment(),
            r.spec_rule() == self.spec_rule(),
            r.spec_cells() == self.spec_cells(),
    {
        proof {
            use_type_invariant(&self);
        }
        RleBuilder {
            name: self.name,
            created: RleBuilderWithCreated(str.to_owned()),
            comment: self.comment,
            rule: self.rule,
            contents: self.contents,
        }
    }
}

impl<
    Name: RleBuilderName,
    Created: RleBuilderCreated,
    RuleSpec: RleBuilderRule,
> RleBuilder<Name, Created, RleBuilderNoComment, RuleSpec> {
    /// Sets the comment; each of its lines becomes a `#C` line.
    pub fn comment(self, str: &str) -> (r: RleBuilder<Name, Created, RleBuilderWithComment, RuleSpec>)
        ensures
            r.spec_comment() == Some(str@),
            r.spec_name() == self.spec_name(),
            r.spec_created() == self.spec_created(),
            r.spec_rule() == self.spec_rule(),
            r.spec_cells() == self.spec_cells(),
    {
        proof {
            use_type_invariant(&self);
        }
        RleBuilder {
            name: self.name,
            created: self.created,
            comment: RleBuilderWithComment(str.to_owned()),
            rule: self.rule,
            contents: self.contents,
        }
    }
}

impl<
    Name: RleBuilderName,
    Created: RleBuilderCreated,
    Comment: RleBuilderComment,
> RleBuilder<Name, Created, Comment, RleBuilderNoRule> {
    /// Sets the rule.
    pub fn rule(self, rule: Rule) -> (r: RleBuilder<Name, Created, Comment, RleBuilderWithRule>)
        ensures
            r.spec_rule() == Some((rule.birth_table(), rule.survival_table())),
            r.spec_name() == self.spec_name(),
            r.spec_created() == self.spec_created(),
            r.spec_comment() == self.spec_comment(),
            r.spec_cells() == self.spec_cells(),
    {
        proof {
            use_type_invariant(&self);
        }
        RleBuilder {
            name: self.name,
            created: self.created,
            comment: self.comment,
            rule: RleBuilderWithRule(rule),
            contents: self.contents,
        }
    }
}

impl Default for RleBuilder<RleBuilderNoName, RleBuilderNoCreated, RleBuilderNoComment, RleBuilderNoRule> {
    /// The same as `RleBuilder::new()`.
    fn default() -> (r: Self)
        ensures
            r.spec_cells() == Seq::<Position<usize>>::empty(),
            r.spec_name() is None,
            r.spec_created() is None,
            r.spec_comment() is None,
            r.spec_rule() is None,
    {
        Self::new()
    }
}

} // verus!
