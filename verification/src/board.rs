//! Boards: two-dimensional orthogonal grids of live and dead cells.

use vstd::prelude::*;

use std::collections::HashSet;
use std::hash::BuildHasherDefault;

use fnv::{FnvBuildHasher, FnvHasher};

use crate::boardrange::{
    bounds_of_cells, is_bounds_of, range_bounds, range_end, range_of_bounds, range_start, Bounds,
    BoardRange,
};
use crate::position::{Coordinate, Position};
use crate::text::string_of;

verus! {

/// fnv's `FnvHasher`, the hasher of the set of live cells.
#[verifier::external_type_specification]
#[verifier::external_body]
pub struct ExFnvHasher(FnvHasher);

/// std's `BuildHasherDefault`, which fnv's `FnvBuildHasher` instantiates.
#[verifier::external_type_specification]
#[verifier::external_body]
#[verifier::reject_recursive_types(H)]
pub struct ExBuildHasherDefault<H>(BuildHasherDefault<H>);

/// std's `HashSet::contains` on a set of positions hashed by fnv: whether the
/// position is in the set.
///
/// The claim rests on the coordinates being primitive integers (`Coordinate` is
/// sealed), so that the derived `==` and hash of `Position` are those of its two
/// integers, and on fnv's hasher being deterministic.
#[verifier::external_body]
fn cells_contains<T: Coordinate>(cells: &HashSet<Position<T>, FnvBuildHasher>, p: &Position<T>) -> (res: bool)
    ensures
        res == cells@.contains(*p),
{
    cells.contains(p)
}

/// std's `HashSet::insert` on a set of positions hashed by fnv: the set afterwards
/// holds the position besides what it held.
///
/// As for `cells_contains`, this rests on `Position`'s `==` and hash being those of
/// its primitive integer coordinates.
#[verifier::external_body]
fn cells_insert<T: Coordinate>(cells: &mut HashSet<Position<T>, FnvBuildHasher>, p: Position<T>)
    ensures
        final(cells)@ == old(cells)@.insert(p),
{
    cells.insert(p);
}

/// std's `HashSet::remove` on a set of positions hashed by fnv: the set afterwards
/// holds what it held but the position.
///
/// As for `cells_contains`, this rests on `Position`'s `==` and hash being those of
/// its primitive integer coordinates.
#[verifier::external_body]
fn cells_remove<T: Coordinate>(cells: &mut HashSet<Position<T>, FnvBuildHasher>, p: &Position<T>)
    ensures
        final(cells)@ == old(cells)@.remove(*p),
{
    cells.remove(p);
}

/// std's `HashSet::iter` on a set of positions hashed by fnv, copied into a vector:
/// each position of the set once, in an order that the hashes decide.
#[verifier::external_body]
fn cells_vec<T: Coordinate>(cells: &HashSet<Position<T>, FnvBuildHasher>) -> (res: Vec<Position<T>>)
    ensures
        res@.to_set() == cells@,
        res@.no_duplicates(),
{
    cells.iter().copied().collect()
}

/// A two-dimensional orthogonal grid of live and dead cells; the type parameter
/// `T` is the type of the coordinates of the cells.
#[derive(Debug)]
pub struct Board<T: Coordinate>(HashSet<Position<T>, FnvBuildHasher>);

impl<T: Coordinate> View for Board<T> {
    type V = Set<Position<T>>;

    /// The positions of the live cells.
    closed spec fn view(&self) -> Set<Position<T>> {
        self.0@
    }
}

/// The row of the board text for the y-coordinate `y` and the x-coordinates from
/// `x0` to `x1`: `'O'` for a live cell, `'.'` for a dead one.
pub open spec fn board_row<T: Coordinate>(cells: Set<Position<T>>, y: int, x0: int, x1: int) -> Seq<
    char,
>
    decreases x1 - x0 + 1,
{
    if x1 < x0 {
        seq![]
    } else {
        board_row(cells, y, x0, x1 - 1).push(
            if cells.contains(Position(T::spec_from_int(x1), T::spec_from_int(y))) {
                'O'
            } else {
                '.'
            },
        )
    }
}

/// The rows of the board text from `y0` to `y1`, each ended by `'\n'`.
pub open spec fn board_rows<T: Coordinate>(
    cells: Set<Position<T>>,
    y0: int,
    y1: int,
    x0: int,
    x1: int,
) -> Seq<char>
    decreases y1 - y0 + 1,
{
    if y1 < y0 {
        seq![]
    } else {
        board_rows(cells, y0, y1 - 1, x0, x1) + board_row(cells, y1, x0, x1) + seq!['\n']
    }
}

/// The text of a board: one row per y-coordinate of its bounding box, top first,
/// and no text for a board without live cells.
pub open spec fn board_text<T: Coordinate>(cells: Set<Position<T>>) -> Seq<char> {
    match bounds_of_cells(cells) {
        None => seq![],
        Some((x0, x1, y0, y1)) => board_rows(cells, y0, y1, x0, x1),
    }
}

impl<T: Coordinate> Board<T> {
    /// Creates an empty board.
    pub fn new() -> (board: Self)
        ensures
            board@ == Set::<Position<T>>::empty(),
    {
        Board(HashSet::default())
    }

    /// Returns whether the cell at `position` is live.
    pub fn get(&self, position: &Position<T>) -> (res: bool)
        ensures
            res == self@.contains(*position),
    {
        cells_contains(&self.0, position)
    }

    /// Makes the cell at `position` live (`value` true) or dead (`value` false).
    pub fn set(&mut self, position: &Position<T>, value: bool)
        ensures
            final(self)@ == if value {
                old(self)@.insert(*position)
            } else {
                old(self)@.remove(*position)
            },
    {
        if value {
            cells_insert(&mut self.0, *position);
        } else {
            cells_remove(&mut self.0, position);
        }
    }

    /// Makes all cells dead.
    pub fn clear(&mut self)
        ensures
            final(self)@ == Set::<Position<T>>::empty(),
    {
        self.0.clear();
    }

    /// The positions of the live cells, each once, in no particular order.
    pub fn iter(&self) -> (res: Vec<Position<T>>)
        ensures
            res@.to_set() == self@,
            res@.no_duplicates(),
    {
        cells_vec(&self.0)
    }

    /// Keeps only the live cells for which `pred` holds.
    pub fn retain<F: Fn(&Position<T>) -> bool>(&mut self, pred: F)
        requires
            forall|p: Position<T>| old(self)@.contains(p) ==> call_requires(pred, (&p,)),
        ensures
            forall|p: Position<T>|
                #![trigger final(self)@.contains(p)]
                final(self)@.contains(p) ==> old(self)@.contains(p) && call_ensures(
                    pred,
                    (&p,),
                    true,
                ),
            forall|p: Position<T>|
                #![trigger final(self)@.contains(p)]
                old(self)@.contains(p) && !final(self)@.contains(p) ==> call_ensures(
                    pred,
                    (&p,),
                    false,
                ),
    {
        let cells = cells_vec(&self.0);
        let ghost start = self@;
        for i in 0..cells.len()
            invariant
                cells@.to_set() == start,
                cells@.no_duplicates(),
                start == old(self)@,
                forall|p: Position<T>| start.contains(p) ==> call_requires(pred, (&p,)),
                forall|p: Position<T>|
                    #![trigger self@.contains(p)]
                    self@.contains(p) ==> start.contains(p),
                forall|j: int|
                    0 <= j < i ==> (#[trigger] self@.contains(cells@[j]) ==> call_ensures(
                        pred,
                        (&cells@[j],),
                        true,
                    )) && (!self@.contains(cells@[j]) ==> call_ensures(
                        pred,
                        (&cells@[j],),
                        false,
                    )),
                forall|j: int| i <= j < cells@.len() ==> #[trigger] self@.contains(cells@[j]),
        {
            let p = cells[i];
            assert(cells@.to_set().contains(p));
            let ghost before = self@;
            if !pred(&p) {
                cells_remove(&mut self.0, &p);
                assert(self@ == before.remove(p));
                assert forall|j: int| i < j < cells@.len() implies #[trigger] self@.contains(
                    cells@[j],
                ) by {
                    assert(cells@[j] != cells@[i as int]);
                }
            }
        }
        assert forall|p: Position<T>| start.contains(p) implies exists|j: int|
            0 <= j < cells@.len() && cells@[j] == p by {
            assert(cells@.to_set().contains(p));
        }
    }

    /// The smallest range that holds all live cells (`1..=0` on both axes for an
    /// empty board).
    pub fn bounding_box(&self) -> (res: BoardRange<T>)
        ensures
            is_bounds_of(self@, range_bounds(res)),
            range_of_bounds(res, range_bounds(res)),
    {
        let cells = cells_vec(&self.0);
        let r = BoardRange::from_iter(cells.as_slice());
        proof {
            crate::boardrange::lemma_bounds_add_all(cells@);
        }
        r
    }

    /// Appends the row of the board text for `y` and the x-coordinates from `x0` to `x1`.
    fn push_row(&self, buf: &mut Vec<char>, y: T, x0: T, x1: T)
        requires
            x0.spec_value() <= x1.spec_value(),
        ensures
            final(buf)@ == old(buf)@ + board_row(
                self@,
                y.spec_value(),
                x0.spec_value(),
                x1.spec_value(),
            ),
    {
        let mut x = x0;
        loop
            invariant
                x0.spec_value() <= x.spec_value() <= x1.spec_value(),
                buf@ == old(buf)@ + board_row(
                    self@,
                    y.spec_value(),
                    x0.spec_value(),
                    x.spec_value() - 1,
                ),
            decreases x1.spec_value() - x.spec_value(),
        {
            proof {
                T::lemma_value(x);
                T::lemma_value(y);
            }
            let c = if self.get(&Position(x, y)) {
                'O'
            } else {
                '.'
            };
            buf.push(c);
            assert(buf@ =~= old(buf)@ + board_row(
                self@,
                y.spec_value(),
                x0.spec_value(),
                x.spec_value(),
            ));
            if x.same_as(&x1) {
                return ;
            }
            proof {
                T::lemma_value(x1);
            }
            match x.offset(1) {
                Some(next) => {
                    x = next;
                },
                None => {
                    return ;
                },
            }
        }
    }

    /// The board's text: for each y-coordinate of the bounding box, top first, a row
    /// with `'O'` for each live cell and `'.'` for each dead one, ended by `'\n'`.
    pub fn to_string(&self) -> (res: String)
        ensures
            res@ == board_text(self@),
    {
        let bbox = self.bounding_box();
        proof {
            crate::boardrange::lemma_bounds_of_cells(self@, range_bounds(bbox));
        }
        let mut buf: Vec<char> = Vec::new();
        if !bbox.is_empty() {
            let x0 = *range_start(bbox.x());
            let x1 = *range_end(bbox.x());
            let y0 = *range_start(bbox.y());
            let y1 = *range_end(bbox.y());
            let mut y = y0;
            loop
                invariant_except_break
                    y0.spec_value() <= y.spec_value() <= y1.spec_value(),
                    x0.spec_value() <= x1.spec_value(),
                    buf@ == board_rows(
                        self@,
                        y0.spec_value(),
                        y.spec_value() - 1,
                        x0.spec_value(),
                        x1.spec_value(),
                    ),
                ensures
                    buf@ == board_rows(
                        self@,
                        y0.spec_value(),
                        y1.spec_value(),
                        x0.spec_value(),
                        x1.spec_value(),
                    ),
                decreases y1.spec_value() - y.spec_value(),
            {
                self.push_row(&mut buf, y, x0, x1);
                buf.push('\n');
                assert(buf@ =~= board_rows(
                    self@,
                    y0.spec_value(),
                    y.spec_value(),
                    x0.spec_value(),
                    x1.spec_value(),
                ));
                if y.same_as(&y1) {
                    break;
                }
                proof {
                    T::lemma_value(y1);
                    T::lemma_value(y);
                }
                match y.offset(1) {
                    Some(next) => {
                        y = next;
                    },
                    None => {
                        break;
                    },
                }
            }
        }
        string_of(&buf)
    }

    /// Creates a board whose live cells are `positions`.
    pub fn from_iter(positions: &[Position<T>]) -> (board: Self)
        ensures
            board@ == positions@.to_set(),
    {
        let mut board = Self::new();
        board.extend(positions);
        board
    }

    /// Makes the cells at `positions` live.
    pub fn extend(&mut self, positions: &[Position<T>])
        ensures
            final(self)@ == old(self)@.union(positions@.to_set()),
    {
        for i in 0..positions.len()
            invariant
                self@ == old(self)@.union(positions@.take(i as int).to_set()),
        {
            let p = positions[i];
            cells_insert(&mut self.0, p);
            proof {
                let s = positions@.take(i as int);
                assert(positions@.take(i + 1) == s.push(p));
                assert forall|q: Position<T>| s.push(p).to_set().contains(q) <==> s.to_set().insert(
                    p,
                ).contains(q) by {
                    vstd::seq_lib::lemma_seq_contains_after_push(s, p, q);
                }
                assert(s.push(p).to_set() =~= s.to_set().insert(p));
                assert(self@ =~= old(self)@.union(positions@.take(i + 1).to_set()));
            }
        }
        assert(positions@.take(positions.len() as int) == positions@);
    }
}

impl<T: Coordinate> Clone for Board<T> {
    /// A board with the same live cells.
    fn clone(&self) -> (board: Self)
        ensures
            board@ == self@,
    {
        let cells = self.iter();
        Self::from_iter(cells.as_slice())
    }
}

impl<T: Coordinate> PartialEq for Board<T> {
    fn eq(&self, other: &Self) -> (res: bool) {
        let mine = self.iter();
        let theirs = other.iter();
        for i in 0..mine.len()
            invariant
                mine@.to_set() == self@,
                forall|j: int| 0 <= j < i ==> other@.contains(#[trigger] mine@[j]),
        {
            if !other.get(&mine[i]) {
                assert(self@.contains(mine@[i as int]));
                return false;
            }
        }
        for i in 0..theirs.len()
            invariant
                theirs@.to_set() == other@,
                mine@.to_set() == self@,
                forall|j: int| 0 <= j < mine@.len() ==> other@.contains(#[trigger] mine@[j]),
                forall|j: int| 0 <= j < i ==> self@.contains(#[trigger] theirs@[j]),
        {
            if !self.get(&theirs[i]) {
                assert(other@.contains(theirs@[i as int]));
                return false;
            }
        }
        assert forall|p: Position<T>| self@.contains(p) <==> other@.contains(p) by {
            if self@.contains(p) {
                assert(mine@.to_set().contains(p));
            }
            if other@.contains(p) {
                assert(theirs@.to_set().contains(p));
            }
        }
        assert(self@ =~= other@);
        true
    }
}

impl<T: Coordinate> vstd::std_specs::cmp::PartialEqSpecImpl for Board<T> {
    open spec fn obeys_eq_spec() -> bool {
        true
    }

    open spec fn eq_spec(&self, other: &Self) -> bool {
        self@ == other@
    }
}

impl<T: Coordinate> Eq for Board<T> {

}

impl<T: Coordinate> Default for Board<T> {
    /// An empty board, the same as `Board::new()`.
    fn default() -> (board: Self)
        ensures
            board@ == Set::<Position<T>>::empty(),
    {
        Self::new()
    }
}

} // verus!
