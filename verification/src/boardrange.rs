//! Rectangular ranges on a board, such as the bounding box of its live cells.

use vstd::prelude::*;

use std::ops::RangeInclusive;

use crate::position::{Coordinate, Position};
use crate::text::{int_decimal, string_of};

verus! {

/// std's `RangeInclusive::start`: the lower bound of the range.
#[verifier::external_body]
pub(crate) fn range_start<T>(r: &RangeInclusive<T>) -> (res: &T)
    ensures
        *res == r@.start,
{
    r.start()
}

/// std's `RangeInclusive::end`: the upper bound of the range.
#[verifier::external_body]
pub(crate) fn range_end<T>(r: &RangeInclusive<T>) -> (res: &T)
    ensures
        *res == r@.end,
{
    r.end()
}

/// A box on a board: the smallest and largest x and y (in that order), or `None`
/// for no box at all.
pub type Bounds = Option<(int, int, int, int)>;

/// The box `b` widened to take in the point `(x, y)`.
pub open spec fn bounds_add(b: Bounds, x: int, y: int) -> Bounds {
    match b {
        None => Some((x, x, y, y)),
        Some((x0, x1, y0, y1)) => Some(
            (
                if x0 < x {
                    x0
                } else {
                    x
                },
                if x1 > x {
                    x1
                } else {
                    x
                },
                if y0 < y {
                    y0
                } else {
                    y
                },
                if y1 > y {
                    y1
                } else {
                    y
                },
            ),
        ),
    }
}

/// The box `b` widened, in turn, to take in each of `ps`.
pub open spec fn bounds_add_all<T: Coordinate>(b: Bounds, ps: Seq<Position<T>>) -> Bounds
    decreases ps.len(),
{
    if ps.len() == 0 {
        b
    } else {
        bounds_add(
            bounds_add_all(b, ps.drop_last()),
            ps.last().0.spec_value(),
            ps.last().1.spec_value(),
        )
    }
}

/// `b` is the smallest box that holds all of `cells`: `None` for no cells.
pub open spec fn is_bounds_of<T: Coordinate>(cells: Set<Position<T>>, b: Bounds) -> bool {
    match b {
        None => cells.is_empty(),
        Some((x0, x1, y0, y1)) => {
            &&& forall|p: Position<T>|
                cells.contains(p) ==> x0 <= p.0.spec_value() <= x1 && y0 <= p.1.spec_value()
                    <= y1
            &&& exists|p: Position<T>| cells.contains(p) && p.0.spec_value() == x0
            &&& exists|p: Position<T>| cells.contains(p) && p.0.spec_value() == x1
            &&& exists|p: Position<T>| cells.contains(p) && p.1.spec_value() == y0
            &&& exists|p: Position<T>| cells.contains(p) && p.1.spec_value() == y1
        },
    }
}

/// The smallest box around `cells` (`None` when there are none, or when the
/// cells have no smallest box).
pub open spec fn bounds_of_cells<T: Coordinate>(cells: Set<Position<T>>) -> Bounds {
    choose|b: Bounds| is_bounds_of(cells, b)
}

/// A set of cells has at most one smallest box.
pub proof fn lemma_bounds_unique<T: Coordinate>(cells: Set<Position<T>>, b1: Bounds, b2: Bounds)
    requires
        is_bounds_of(cells, b1),
        is_bounds_of(cells, b2),
    ensures
        b1 == b2,
{
    match (b1, b2) {
        (Some((a0, a1, a2, a3)), Some((c0, c1, c2, c3))) => {
            let p = choose|p: Position<T>| cells.contains(p) && p.0.spec_value() == a0;
            let q = choose|p: Position<T>| cells.contains(p) && p.0.spec_value() == c0;
            let p1 = choose|p: Position<T>| cells.contains(p) && p.0.spec_value() == a1;
            let q1 = choose|p: Position<T>| cells.contains(p) && p.0.spec_value() == c1;
            let p2 = choose|p: Position<T>| cells.contains(p) && p.1.spec_value() == a2;
            let q2 = choose|p: Position<T>| cells.contains(p) && p.1.spec_value() == c2;
            let p3 = choose|p: Position<T>| cells.contains(p) && p.1.spec_value() == a3;
            let q3 = choose|p: Position<T>| cells.contains(p) && p.1.spec_value() == c3;
        },
        (Some((a0, a1, a2, a3)), None) => {
            let p = choose|p: Position<T>| cells.contains(p) && p.0.spec_value() == a0;
        },
        (None, Some((c0, c1, c2, c3))) => {
            let q = choose|p: Position<T>| cells.contains(p) && p.0.spec_value() == c0;
        },
        (None, None) => {},
    }
}

/// The smallest box around `cells` is `b` when `b` is one.
pub proof fn lemma_bounds_of_cells<T: Coordinate>(cells: Set<Position<T>>, b: Bounds)
    requires
        is_bounds_of(cells, b),
    ensures
        bounds_of_cells(cells) == b,
{
    lemma_bounds_unique(cells, b, bounds_of_cells(cells));
}

/// Widening no box by a sequence of positions gives the smallest box around them.
pub proof fn lemma_bounds_add_all<T: Coordinate>(ps: Seq<Position<T>>)
    ensures
        is_bounds_of(ps.to_set(), bounds_add_all(None, ps)),
    decreases ps.len(),
{
    if ps.len() == 0 {
        assert(ps.to_set() =~= Set::empty());
    } else {
        let init = ps.drop_last();
        let p = ps.last();
        lemma_bounds_add_all(init);
        assert(ps.to_set() =~= init.to_set().insert(p)) by {
            assert(ps == init.push(p));
            vstd::seq_lib::lemma_seq_contains_after_push(init, p, p);
            assert forall|q: Position<T>| ps.to_set().contains(q) <==> init.to_set().insert(
                p,
            ).contains(q) by {
                vstd::seq_lib::lemma_seq_contains_after_push(init, p, q);
            }
        }
        let b = bounds_add_all(None, init);
        let s = init.to_set();
        match b {
            None => {
                assert(s.is_empty());
                assert(ps.to_set().contains(p));
                assert forall|q: Position<T>| ps.to_set().contains(q) implies q == p by {
                    assert(!s.contains(q));
                }
            },
            Some((x0, x1, y0, y1)) => {
                assert(ps.to_set().contains(p));
                let r = bounds_add(b, p.0.spec_value(), p.1.spec_value());
                let (nx0, nx1, ny0, ny1) = r.unwrap();
                if x0 < p.0.spec_value() {
                    let w = choose|q: Position<T>| s.contains(q) && q.0.spec_value() == x0;
                    assert(ps.to_set().contains(w));
                }
                if x1 > p.0.spec_value() {
                    let w = choose|q: Position<T>| s.contains(q) && q.0.spec_value() == x1;
                    assert(ps.to_set().contains(w));
                }
                if y0 < p.1.spec_value() {
                    let w = choose|q: Position<T>| s.contains(q) && q.1.spec_value() == y0;
                    assert(ps.to_set().contains(w));
                }
                if y1 > p.1.spec_value() {
                    let w = choose|q: Position<T>| s.contains(q) && q.1.spec_value() == y1;
                    assert(ps.to_set().contains(w));
                }
            },
        }
    }
}

/// A range on a board: a range of x-coordinates and a range of y-coordinates.
#[derive(Debug)]
pub struct BoardRange<T>(RangeInclusive<T>, RangeInclusive<T>);

/// The box that a board range covers, or `None` when it is empty.
pub open spec fn range_bounds<T: Coordinate>(r: BoardRange<T>) -> Bounds {
    let x = r.spec_x()@;
    let y = r.spec_y()@;
    if x.exhausted || !(x.start.spec_value() <= x.end.spec_value()) {
        None
    } else {
        Some((x.start.spec_value(), x.end.spec_value(), y.start.spec_value(), y.end.spec_value()))
    }
}

/// `r` is made of the ranges that `b` describes: unexhausted ranges from the smallest
/// to the largest coordinate, or `1..=0` on both axes for no box.
pub open spec fn range_of_bounds<T: Coordinate>(r: BoardRange<T>, b: Bounds) -> bool {
    let x = r.spec_x()@;
    let y = r.spec_y()@;
    &&& !x.exhausted
    &&& !y.exhausted
    &&& match b {
        None => x.start.spec_value() == 1 && x.end.spec_value() == 0 && y.start.spec_value() == 1
            && y.end.spec_value() == 0,
        Some((x0, x1, y0, y1)) => x.start.spec_value() == x0 && x.end.spec_value() == x1
            && y.start.spec_value() == y0 && y.end.spec_value() == y1,
    }
}

/// The text of a board range: `"(empty)"`, or `"(x:[x0, x1], y:[y0, y1])"`.
pub open spec fn board_range_text<T: Coordinate>(r: BoardRange<T>) -> Seq<char> {
    let x = r.spec_x()@;
    let y = r.spec_y()@;
    if x.exhausted || !(x.start.spec_value() <= x.end.spec_value()) {
        seq!['(', 'e', 'm', 'p', 't', 'y', ')']
    } else {
        seq!['(', 'x', ':', '['] + int_decimal(x.start.spec_value()) + seq![',', ' ']
            + int_decimal(x.end.spec_value()) + seq![']', ',', ' ', 'y', ':', '[']
            + int_decimal(y.start.spec_value()) + seq![',', ' '] + int_decimal(
            y.end.spec_value(),
        ) + seq![']', ')']
    }
}

fn push_all(buf: &mut Vec<char>, s: Vec<char>)
    ensures
        final(buf)@ == old(buf)@ + s@,
{
    let mut s = s;
    buf.append(&mut s);
}

impl<T> BoardRange<T> {
    /// Neither range of a board range has been iterated to its end.
    #[verifier::type_invariant]
    spec fn inv(self) -> bool {
        !self.0@.exhausted && !self.1@.exhausted
    }
}

impl<T: Coordinate> BoardRange<T> {
    /// The range on the x-coordinate.
    pub closed spec fn spec_x(self) -> RangeInclusive<T> {
        self.0
    }

    /// The range on the y-coordinate.
    pub closed spec fn spec_y(self) -> RangeInclusive<T> {
        self.1
    }

    fn from_bounds(found: bool, x0: T, x1: T, y0: T, y1: T) -> (r: Self)
        ensures
            range_of_bounds(
                r,
                if found {
                    Some((x0.spec_value(), x1.spec_value(), y0.spec_value(), y1.spec_value()))
                } else {
                    None
                },
            ),
    {
        if found {
            BoardRange(RangeInclusive::new(x0, x1), RangeInclusive::new(y0, y1))
        } else {
            BoardRange(
                RangeInclusive::new(T::one(), T::zero()),
                RangeInclusive::new(T::one(), T::zero()),
            )
        }
    }

    /// Creates an empty range, `1..=0` on both axes.
    pub fn new() -> (r: Self)
        ensures
            range_of_bounds(r, None),
    {
        Self::from_bounds(false, T::zero(), T::zero(), T::zero(), T::zero())
    }

    /// The smallest range that holds all of `positions`.
    pub fn from_iter(positions: &[Position<T>]) -> (r: Self)
        ensures
            range_of_bounds(r, bounds_add_all(None, positions@)),
            is_bounds_of(positions@.to_set(), range_bounds(r)),
    {
        let mut r = Self::new();
        r.extend(positions);
        proof {
            lemma_bounds_add_all(positions@);
        }
        r
    }

    /// Widens the range, in turn, to take in each of `positions`.
    pub fn extend(&mut self, positions: &[Position<T>])
        ensures
            ({
                let b = bounds_add_all(range_bounds(*old(self)), positions@);
                if range_bounds(*old(self)) is None && positions@.len() == 0 {
                    *final(self) == *old(self)
                } else {
                    range_of_bounds(*final(self), b)
                }
            }),
    {
        let ghost start = range_bounds(*self);
        let mut found = !self.is_empty();
        let mut x0 = *range_start(&self.0);
        let mut x1 = *range_end(&self.0);
        let mut y0 = *range_start(&self.1);
        let mut y1 = *range_end(&self.1);
        for i in 0..positions.len()
            invariant
                bounds_add_all(start, positions@.take(i as int)) == (if found {
                    Some((x0.spec_value(), x1.spec_value(), y0.spec_value(), y1.spec_value()))
                } else {
                    None::<(int, int, int, int)>
                }),
                start == range_bounds(*old(self)),
        {
            let p = positions[i];
            assert(positions@.take(i + 1).drop_last() == positions@.take(i as int));
            assert(positions@.take(i + 1).last() == p);
            if !found {
                x0 = p.0;
                x1 = p.0;
                y0 = p.1;
                y1 = p.1;
                found = true;
            } else {
                if !x0.less_than(&p.0) {
                    x0 = p.0;
                }
                if !p.0.less_than(&x1) {
                    x1 = p.0;
                }
                if !y0.less_than(&p.1) {
                    y0 = p.1;
                }
                if !p.1.less_than(&y1) {
                    y1 = p.1;
                }
            }
        }
        assert(positions@.take(positions.len() as int) == positions@);
        if found {
            *self = Self::from_bounds(true, x0, x1, y0, y1);
        }
    }

    /// Returns the range on the x-coordinate.
    pub fn x(&self) -> (r: &RangeInclusive<T>)
        ensures
            *r == self.spec_x(),
    {
        &self.0
    }

    /// Returns the range on the y-coordinate.
    pub fn y(&self) -> (r: &RangeInclusive<T>)
        ensures
            *r == self.spec_y(),
    {
        &self.1
    }

    /// Splits the range into its range on the x-coordinate and its range on the y-coordinate.
    pub fn into_inner(self) -> (r: (RangeInclusive<T>, RangeInclusive<T>))
        ensures
            r == (self.spec_x(), self.spec_y()),
    {
        (self.0, self.1)
    }

    /// Returns `true` if the range holds no area, which is when its range on the
    /// x-coordinate holds no value.
    pub fn is_empty(&self) -> (r: bool)
        ensures
            r == (range_bounds(*self) is None),
    {
        proof {
            use_type_invariant(self);
        }
        range_end(&self.0).less_than(range_start(&self.0))
    }

    /// The range's text: `"(empty)"`, or `"(x:[x0, x1], y:[y0, y1])"`.
    pub fn to_string(&self) -> (res: String)
        ensures
            res@ == board_range_text(*self),
    {
        let mut buf: Vec<char> = Vec::new();
        if self.is_empty() {
            buf.push('(');
            buf.push('e');
            buf.push('m');
            buf.push('p');
            buf.push('t');
            buf.push('y');
            buf.push(')');
        } else {
            buf.push('(');
            buf.push('x');
            buf.push(':');
            buf.push('[');
            push_all(&mut buf, range_start(&self.0).decimal());
            buf.push(',');
            buf.push(' ');
            push_all(&mut buf, range_end(&self.0).decimal());
            buf.push(']');
            buf.push(',');
            buf.push(' ');
            buf.push('y');
            buf.push(':');
            buf.push('[');
            push_all(&mut buf, range_start(&self.1).decimal());
            buf.push(',');
            buf.push(' ');
            push_all(&mut buf, range_end(&self.1).decimal());
            buf.push(']');
            buf.push(')');
        }
        assert(buf@ =~= board_range_text(*self));
        string_of(&buf)
    }
}

impl<T: Coordinate> Clone for BoardRange<T> {
    /// A board range with the same ranges.
    fn clone(&self) -> (r: Self)
        ensures
            r.spec_x()@ == self.spec_x()@,
            r.spec_y()@ == self.spec_y()@,
    {
        proof {
            use_type_invariant(self);
        }
        BoardRange(
            RangeInclusive::new(*range_start(&self.0), *range_end(&self.0)),
            RangeInclusive::new(*range_start(&self.1), *range_end(&self.1)),
        )
    }
}

impl<T: Coordinate> Default for BoardRange<T> {
    /// The same as `BoardRange::new()`.
    fn default() -> (r: Self)
        ensures
            range_of_bounds(r, None),
    {
        Self::new()
    }
}

/// Whether two unexhausted ranges have the same start and the same end.
fn same_range<T: Coordinate>(a: &RangeInclusive<T>, b: &RangeInclusive<T>) -> (res: bool)
    requires
        !a@.exhausted,
        !b@.exhausted,
    ensures
        res == (a@ == b@),
{
    proof {
        T::lemma_value(a@.start);
        T::lemma_value(a@.end);
        T::lemma_value(b@.start);
        T::lemma_value(b@.end);
    }
    range_start(a).same_as(range_start(b)) && range_end(a).same_as(range_end(b))
}

impl<T: Coordinate> PartialEq for BoardRange<T> {
    fn eq(&self, other: &Self) -> (res: bool) {
        proof {
            use_type_invariant(self);
            use_type_invariant(other);
        }
        same_range(&self.0, &other.0) && same_range(&self.1, &other.1)
    }
}

impl<T: Coordinate> vstd::std_specs::cmp::PartialEqSpecImpl for BoardRange<T> {
    open spec fn obeys_eq_spec() -> bool {
        true
    }

    open spec fn eq_spec(&self, other: &Self) -> bool {
        self.spec_x()@ == other.spec_x()@ && self.spec_y()@ == other.spec_y()@
    }
}

impl<T: Coordinate> Eq for BoardRange<T> {

}

} // verus!
