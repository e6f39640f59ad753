//! The live cells that a pattern builder collects, kept sorted by row, then column.

use vstd::prelude::*;

use crate::position::Position;

verus! {

/// `a` comes before `b` in row order: a lower y, or the same y and a lower x.
pub open spec fn cell_lt(a: Position<usize>, b: Position<usize>) -> bool {
    a.1 < b.1 || (a.1 == b.1 && a.0 < b.0)
}

/// The positions are in strictly ascending row order (so each occurs once).
pub open spec fn cells_sorted(s: Seq<Position<usize>>) -> bool {
    forall|i: int, j: int| 0 <= i < j < s.len() ==> cell_lt(#[trigger] s[i], #[trigger] s[j])
}

fn cell_lt_exec(a: &Position<usize>, b: &Position<usize>) -> (r: bool)
    ensures
        r == cell_lt(*a, *b),
{
    a.1 < b.1 || (a.1 == b.1 && a.0 < b.0)
}

/// The rows of sorted positions: each y-coordinate, in order, with the x-coordinates
/// of its positions, in order.
pub open spec fn group_rows(cells: Seq<Position<usize>>) -> Seq<(usize, Seq<usize>)>
    decreases cells.len(),
{
    if cells.len() == 0 {
        seq![]
    } else {
        let g = group_rows(cells.drop_last());
        let p = cells.last();
        if g.len() > 0 && g.last().0 == p.1 {
            g.drop_last().push((p.1, g.last().1.push(p.0)))
        } else {
            g.push((p.1, seq![p.0]))
        }
    }
}

/// Groups sorted positions into rows.
pub fn group_rows_exec(cells: &Vec<Position<usize>>) -> (res: Vec<(usize, Vec<usize>)>)
    ensures
        res@.map_values(|r: (usize, Vec<usize>)| (r.0, r.1@)) == group_rows(cells@),
{
    let mut res: Vec<(usize, Vec<usize>)> = Vec::new();
    for i in 0..cells.len()
        invariant
            res@.map_values(|r: (usize, Vec<usize>)| (r.0, r.1@)) == group_rows(cells@.take(i as int)),
    {
        let p = cells[i];
        assert(cells@.take(i + 1).drop_last() == cells@.take(i as int));
        assert(cells@.take(i + 1).last() == p);
        let ghost g = group_rows(cells@.take(i as int));
        let n = res.len();
        if n > 0 && res[n - 1].0 == p.1 {
            let (y, mut xs) = res.pop().unwrap();
            let ghost xs_before = xs@;
            xs.push(p.0);
            res.push((y, xs));
            assert(res@.map_values(|r: (usize, Vec<usize>)| (r.0, r.1@)) =~= g.drop_last().push(
                (p.1, g.last().1.push(p.0)),
            ));
        } else {
            let mut xs: Vec<usize> = Vec::new();
            xs.push(p.0);
            res.push((p.1, xs));
            assert(res@.map_values(|r: (usize, Vec<usize>)| (r.0, r.1@)) =~= g.push((p.1, seq![p.0])));
        }
    }
    assert(cells@.take(cells.len() as int) == cells@);
    res
}

/// A set of positions, kept as a vector in strictly ascending row order.
#[derive(Clone, Debug)]
pub struct CellList {
    cells: Vec<Position<usize>>,
}

impl CellList {
    /// The positions in ascending row order.
    pub closed spec fn spec_cells(self) -> Seq<Position<usize>> {
        self.cells@
    }

    /// The positions are kept strictly sorted.
    pub closed spec fn wf(self) -> bool {
        cells_sorted(self.cells@)
    }

    /// A well-formed list holds its positions strictly sorted.
    pub proof fn lemma_sorted(self)
        requires
            self.wf(),
        ensures
            cells_sorted(self.spec_cells()),
    {
    }

    pub fn new() -> (r: Self)
        ensures
            r.wf(),
            r.spec_cells() == Seq::<Position<usize>>::empty(),
    {
        CellList { cells: Vec::new() }
    }

    /// The positions in ascending row order.
    pub fn cells(&self) -> (r: &Vec<Position<usize>>)
        ensures
            r@ == self.spec_cells(),
    {
        &self.cells
    }

    /// Adds a position to the set.
    pub fn insert(&mut self, p: Position<usize>)
        requires
            old(self).wf(),
        ensures
            final(self).wf(),
            final(self).spec_cells().to_set() == old(self).spec_cells().to_set().insert(p),
    {
        let len = self.cells.len();
        let mut lo: usize = 0;
        let mut hi: usize = len;
        while lo < hi
            invariant
                0 <= lo <= hi <= len == self.cells.len(),
                cells_sorted(self.cells@),
                forall|j: int| 0 <= j < lo ==> cell_lt(#[trigger] self.cells@[j], p),
                forall|j: int| hi <= j < len ==> !cell_lt(#[trigger] self.cells@[j], p),
            decreases hi - lo,
        {
            let mid = lo + (hi - lo) / 2;
            if cell_lt_exec(&self.cells[mid], &p) {
                proof {
                    assert forall|j: int| 0 <= j < mid + 1 implies cell_lt(
                        #[trigger] self.cells@[j],
                        p,
                    ) by {
                        if j < mid {
                            assert(cell_lt(self.cells@[j], self.cells@[mid as int]));
                        }
                    }
                }
                lo = mid + 1;
            } else {
                proof {
                    assert forall|j: int| mid <= j < len implies !cell_lt(
                        #[trigger] self.cells@[j],
                        p,
                    ) by {
                        if j > mid {
                            assert(cell_lt(self.cells@[mid as int], self.cells@[j]));
                        }
                    }
                }
                hi = mid;
            }
        }
        if lo < len && self.cells[lo].0 == p.0 && self.cells[lo].1 == p.1 {
            assert(self.cells@[lo as int] == p);
            assert(self.cells@.to_set() =~= self.cells@.to_set().insert(p));
            return ;
        }
        let ghost old_cells = self.cells@;
        self.cells.insert(lo, p);
        proof {
            assert(self.cells@ == old_cells.insert(lo as int, p));
            assert forall|i: int, j: int|
                0 <= i < j < self.cells@.len() implies cell_lt(
                #[trigger] self.cells@[i],
                #[trigger] self.cells@[j],
            ) by {
                if j < lo {
                } else if j == lo {
                    assert(self.cells@[i] == old_cells[i]);
                } else if i < lo {
                    assert(self.cells@[j] == old_cells[j - 1]);
                    assert(cell_lt(old_cells[i], p));
                    assert(!cell_lt(old_cells[lo as int], p));
                } else if i == lo {
                    assert(self.cells@[j] == old_cells[j - 1]);
                    assert(!cell_lt(old_cells[lo as int], p));
                    if j - 1 > lo {
                        assert(cell_lt(old_cells[lo as int], old_cells[j - 1]));
                    }
                } else {
                    assert(self.cells@[i] == old_cells[i - 1]);
                    assert(self.cells@[j] == old_cells[j - 1]);
                }
            }
            assert forall|q: Position<usize>| self.cells@.to_set().contains(q) <==> old_cells.to_set().insert(
                p,
            ).contains(q) by {
                if self.cells@.contains(q) {
                    let k = choose|k: int| 0 <= k < self.cells@.len() && self.cells@[k] == q;
                    if k < lo {
                        assert(old_cells[k] == q);
                    } else if k > lo {
                        assert(old_cells[k - 1] == q);
                    }
                }
                if old_cells.contains(q) {
                    let k = choose|k: int| 0 <= k < old_cells.len() && old_cells[k] == q;
                    if k < lo {
                        assert(self.cells@[k] == q);
                    } else {
                        assert(self.cells@[k + 1] == q);
                    }
                }
                if q == p {
                    assert(self.cells@[lo as int] == p);
                }
            }
            assert(self.cells@.to_set() =~= old_cells.to_set().insert(p));
        }
    }

    /// Adds each of `positions` to the set.
    pub fn extend(&mut self, positions: &[Position<usize>])
        requires
            old(self).wf(),
        ensures
            final(self).wf(),
            final(self).spec_cells().to_set() == old(self).spec_cells().to_set().union(
                positions@.to_set(),
            ),
    {
        for i in 0..positions.len()
            invariant
                self.wf(),
                self.spec_cells().to_set() == old(self).spec_cells().to_set().union(
                    positions@.take(i as int).to_set(),
                ),
        {
            let p = positions[i];
            self.insert(p);
            proof {
                let s = positions@.take(i as int);
                assert(positions@.take(i + 1) == s.push(p));
                assert forall|q: Position<usize>| s.push(p).to_set().contains(q) <==> s.to_set().insert(
                    p,
                ).contains(q) by {
                    vstd::seq_lib::lemma_seq_contains_after_push(s, p, q);
                }
                assert(s.push(p).to_set() =~= s.to_set().insert(p));
                assert(self.spec_cells().to_set() =~= old(self).spec_cells().to_set().union(
                    positions@.take(i + 1).to_set(),
                ));
            }
        }
        assert(positions@.take(positions.len() as int) == positions@);
    }
}

} // verus!
