//! Positions of cells, and the integer types that can serve as their coordinates.

use vstd::prelude::*;

use crate::text::{i128_decimal, int_decimal, string_of, u128_decimal};

verus! {

/// An integer type that can serve as the coordinates of cell positions on a board.
///
/// It is implemented for the primitive integer types, and for no other type: the
/// trait is sealed. Each implementation is verified against the integer that a value
/// denotes, and for these types `==`, `<` and the hash are those of that integer.
pub trait Coordinate: crate::sealed::Sealed + Copy + Eq + PartialOrd + std::hash::Hash + std::fmt::Debug + Sized {
    /// The integer that a value denotes.
    spec fn spec_value(self) -> int;

    /// The smallest value of the type.
    spec fn spec_min() -> int;

    /// The largest value of the type.
    spec fn spec_max() -> int;

    /// The value that denotes `i` (for `spec_min() <= i <= spec_max()`).
    spec fn spec_from_int(i: int) -> Self;

    /// A value denotes an integer in the type's range, and is the value that denotes it.
    proof fn lemma_value(v: Self)
        ensures
            Self::spec_min() <= v.spec_value() <= Self::spec_max(),
            Self::spec_from_int(v.spec_value()) == v,
    ;

    /// Each integer in the type's range is denoted by a value; the range holds 0 and 1.
    proof fn lemma_from_int(i: int)
        ensures
            Self::spec_min() <= 0 < 1 <= Self::spec_max(),
            Self::spec_min() <= i <= Self::spec_max() ==> Self::spec_from_int(i).spec_value()
                == i,
    ;

    /// The value that denotes 0.
    fn zero() -> (r: Self)
        ensures
            r.spec_value() == 0,
    ;

    /// The value that denotes 1.
    fn one() -> (r: Self)
        ensures
            r.spec_value() == 1,
    ;

    /// Whether `self` denotes a smaller integer than `other`.
    fn less_than(&self, other: &Self) -> (r: bool)
        ensures
            r == (self.spec_value() < other.spec_value()),
    ;

    /// Whether `self` and `other` denote the same integer.
    fn same_as(&self, other: &Self) -> (r: bool)
        ensures
            r == (self.spec_value() == other.spec_value()),
    ;

    /// The value that denotes `self + d`, or `None` when it is out of the type's range.
    fn offset(&self, d: i8) -> (r: Option<Self>)
        requires
            -1 <= d <= 1,
        ensures
            match r {
                Some(v) => v.spec_value() == self.spec_value() + d,
                None => !(Self::spec_min() <= self.spec_value() + d <= Self::spec_max()),
            },
    ;

    /// The decimal notation of the value.
    fn decimal(&self) -> (r: Vec<char>)
        ensures
            r@ == int_decimal(self.spec_value()),
    ;
}

impl Coordinate for i8 {
    open spec fn spec_value(self) -> int {
        self as int
    }

    open spec fn spec_min() -> int {
        i8::MIN as int
    }

    open spec fn spec_max() -> int {
        i8::MAX as int
    }

    open spec fn spec_from_int(i: int) -> Self {
        i as i8
    }

    proof fn lemma_value(v: Self) {
    }

    proof fn lemma_from_int(i: int) {
    }

    fn zero() -> (r: Self) {
        0
    }

    fn one() -> (r: Self) {
        1
    }

    fn less_than(&self, other: &Self) -> (r: bool) {
        *self < *other
    }

    fn same_as(&self, other: &Self) -> (r: bool) {
        *self == *other
    }

    fn offset(&self, d: i8) -> (r: Option<Self>) {
        if d < 0 {
            if *self == i8::MIN {
                None
            } else {
                Some(*self - 1)
            }
        } else if d > 0 {
            if *self == i8::MAX {
                None
            } else {
                Some(*self + 1)
            }
        } else {
            Some(*self)
        }
    }

    fn decimal(&self) -> (r: Vec<char>) {
        i128_decimal(*self as i128)
    }
}

impl Coordinate for isize {
    open spec fn spec_value(self) -> int {
        self as int
    }

    open spec fn spec_min() -> int {
        isize::MIN as int
    }

    open spec fn spec_max() -> int {
        isize::MAX as int
    }

    open spec fn spec_from_int(i: int) -> Self {
        i as isize
    }

    proof fn lemma_value(v: Self) {
    }

    proof fn lemma_from_int(i: int) {
    }

    fn zero() -> (r: Self) {
        0
    }

    fn one() -> (r: Self) {
        1
    }

    fn less_than(&self, other: &Self) -> (r: bool) {
        *self < *other
    }

    fn same_as(&self, other: &Self) -> (r: bool) {
        *self == *other
    }

    fn offset(&self, d: i8) -> (r: Option<Self>) {
        if d < 0 {
            if *self == isize::MIN {
                None
            } else {
                Some(*self - 1)
            }
        } else if d > 0 {
            if *self == isize::MAX {
                None
            } else {
                Some(*self + 1)
            }
        } else {
            Some(*self)
        }
    }

    fn decimal(&self) -> (r: Vec<char>) {
        i128_decimal(*self as i128)
    }
}

impl Coordinate for u8 {
    open spec fn spec_value(self) -> int {
        self as int
    }

    open spec fn spec_min() -> int {
        u8::MIN as int
    }

    open spec fn spec_max() -> int {
        u8::MAX as int
    }

    open spec fn spec_from_int(i: int) -> Self {
        i as u8
    }

    proof fn lemma_value(v: Self) {
    }

    proof fn lemma_from_int(i: int) {
    }

    fn zero() -> (r: Self) {
        0
    }

    fn one() -> (r: Self) {
        1
    }

    fn less_than(&self, other: &Self) -> (r: bool) {
        *self < *other
    }

    fn same_as(&self, other: &Self) -> (r: bool) {
        *self == *other
    }

    fn offset(&self, d: i8) -> (r: Option<Self>) {
        if d < 0 {
            if *self == u8::MIN {
                None
            } else {
                Some(*self - 1)
            }
        } else if d > 0 {
            if *self == u8::MAX {
                None
            } else {
                Some(*self + 1)
            }
        } else {
            Some(*self)
        }
    }

    fn decimal(&self) -> (r: Vec<char>) {
        u128_decimal(*self as u128)
    }
}

impl Coordinate for u16 {
    open spec fn spec_value(self) -> int {
        self as int
    }

    open spec fn spec_min() -> int {
        u16::MIN as int
    }

    open spec fn spec_max() -> int {
        u16::MAX as int
    }

    open spec fn spec_from_int(i: int) -> Self {
        i as u16
    }

    proof fn lemma_value(v: Self) {
    }

    proof fn lemma_from_int(i: int) {
    }

    fn zero() -> (r: Self) {
        0
    }

    fn one() -> (r: Self) {
        1
    }

    fn less_than(&self, other: &Self) -> (r: bool) {
        *self < *other
    }

    fn same_as(&self, other: &Self) -> (r: bool) {
        *self == *other
    }

    fn offset(&self, d: i8) -> (r: Option<Self>) {
        if d < 0 {
            if *self == u16::MIN {
                None
            } else {
                Some(*self - 1)
            }
        } else if d > 0 {
            if *self == u16::MAX {
                None
            } else {
                Some(*self + 1)
            }
        } else {
            Some(*self)
        }
    }

    fn decimal(&self) -> (r: Vec<char>) {
        u128_decimal(*self as u128)
    }
}

impl Coordinate for u32 {
    open spec fn spec_value(self) -> int {
        self as int
    }

    open spec fn spec_min() -> int {
        u32::MIN as int
    }

    open spec fn spec_max() -> int {
        u32::MAX as int
    }

    open spec fn spec_from_int(i: int) -> Self {
        i as u32
    }

    proof fn lemma_value(v: Self) {
    }

    proof fn lemma_from_int(i: int) {
    }

    fn zero() -> (r: Self) {
        0
    }

    fn one() -> (r: Self) {
        1
    }

    fn less_than(&self, other: &Self) -> (r: bool) {
        *self < *other
    }

    fn same_as(&self, other: &Self) -> (r: bool) {
        *self == *other
    }

    fn offset(&self, d: i8) -> (r: Option<Self>) {
        if d < 0 {
            if *self == u32::MIN {
                None
            } else {
                Some(*self - 1)
            }
        } else if d > 0 {
            if *self == u32::MAX {
                None
            } else {
                Some(*self + 1)
            }
        } else {
            Some(*self)
        }
    }

    fn decimal(&self) -> (r: Vec<char>) {
        u128_decimal(*self as u128)
    }
}

impl Coordinate for u64 {
    open spec fn spec_value(self) -> int {
        self as int
    }

    open spec fn spec_min() -> int {
        u64::MIN as int
    }

    open spec fn spec_max() -> int {
        u64::MAX as int
    }

    open spec fn spec_from_int(i: int) -> Self {
        i as u64
    }

    proof fn lemma_value(v: Self) {
    }

    proof fn lemma_from_int(i: int) {
    }

    fn zero() -> (r: Self) {
        0
    }

    fn one() -> (r: Self) {
        1
    }

    fn less_than(&self, other: &Self) -> (r: bool) {
        *self < *other
    }

    fn same_as(&self, other: &Self) -> (r: bool) {
        *self == *other
    }

    fn offset(&self, d: i8) -> (r: Option<Self>) {
        if d < 0 {
            if *self == u64::MIN {
                None
            } else {
                Some(*self - 1)
            }
        } else if d > 0 {
            if *self == u64::MAX {
                None
            } else {
                Some(*self + 1)
            }
        } else {
            Some(*self)
        }
    }

    fn decimal(&self) -> (r: Vec<char>) {
        u128_decimal(*self as u128)
    }
}

impl Coordinate for usize {
    open spec fn spec_value(self) -> int {
        self as int
    }

    open spec fn spec_min() -> int {
        usize::MIN as int
    }

    open spec fn spec_max() -> int {
        usize::MAX as int
    }

    open spec fn spec_from_int(i: int) -> Self {
        i as usize
    }

    proof fn lemma_value(v: Self) {
    }

    proof fn lemma_from_int(i: int) {
    }

    fn zero() -> (r: Self) {
        0
    }

    fn one() -> (r: Self) {
        1
    }

    fn less_than(&self, other: &Self) -> (r: bool) {
        *self < *other
    }

    fn same_as(&self, other: &Self) -> (r: bool) {
        *self == *other
    }

    fn offset(&self, d: i8) -> (r: Option<Self>) {
        if d < 0 {
            if *self == usize::MIN {
                None
            } else {
                Some(*self - 1)
            }
        } else if d > 0 {
            if *self == usize::MAX {
                None
            } else {
                Some(*self + 1)
            }
        } else {
            Some(*self)
        }
    }

    fn decimal(&self) -> (r: Vec<char>) {
        u128_decimal(*self as u128)
    }
}

impl Coordinate for i16 {
    open spec fn spec_value(self) -> int {
        self as int
    }

    open spec fn spec_min() -> int {
        i16::MIN as int
    }

    open spec fn spec_max() -> int {
        i16::MAX as int
    }

    open spec fn spec_from_int(i: int) -> Self {
        i as i16
    }

    proof fn lemma_value(v: Self) {
    }

    proof fn lemma_from_int(i: int) {
    }

    fn zero() -> (r: Self) {
        0
    }

    fn one() -> (r: Self) {
        1
    }

    fn less_than(&self, other: &Self) -> (r: bool) {
        *self < *other
    }

    fn same_as(&self, other: &Self) -> (r: bool) {
        *self == *other
    }

    fn offset(&self, d: i8) -> (r: Option<Self>) {
        if (d < 0 && *self == i16::MIN) || (d > 0 && *self == i16::MAX) {
            None
        } else {
            Some(*self + d as i16)
        }
    }

    fn decimal(&self) -> (r: Vec<char>) {
        i128_decimal(*self as i128)
    }
}

impl Coordinate for i32 {
    open spec fn spec_value(self) -> int {
        self as int
    }

    open spec fn spec_min() -> int {
        i32::MIN as int
    }

    open spec fn spec_max() -> int {
        i32::MAX as int
    }

    open spec fn spec_from_int(i: int) -> Self {
        i as i32
    }

    proof fn lemma_value(v: Self) {
    }

    proof fn lemma_from_int(i: int) {
    }

    fn zero() -> (r: Self) {
        0
    }

    fn one() -> (r: Self) {
        1
    }

    fn less_than(&self, other: &Self) -> (r: bool) {
        *self < *other
    }

    fn same_as(&self, other: &Self) -> (r: bool) {
        *self == *other
    }

    fn offset(&self, d: i8) -> (r: Option<Self>) {
        if (d < 0 && *self == i32::MIN) || (d > 0 && *self == i32::MAX) {
            None
        } else {
            Some(*self + d as i32)
        }
    }

    fn decimal(&self) -> (r: Vec<char>) {
        i128_decimal(*self as i128)
    }
}

impl Coordinate for i64 {
    open spec fn spec_value(self) -> int {
        self as int
    }

    open spec fn spec_min() -> int {
        i64::MIN as int
    }

    open spec fn spec_max() -> int {
        i64::MAX as int
    }

    open spec fn spec_from_int(i: int) -> Self {
        i as i64
    }

    proof fn lemma_value(v: Self) {
    }

    proof fn lemma_from_int(i: int) {
    }

    fn zero() -> (r: Self) {
        0
    }

    fn one() -> (r: Self) {
        1
    }

    fn less_than(&self, other: &Self) -> (r: bool) {
        *self < *other
    }

    fn same_as(&self, other: &Self) -> (r: bool) {
        *self == *other
    }

    fn offset(&self, d: i8) -> (r: Option<Self>) {
        if (d < 0 && *self == i64::MIN) || (d > 0 && *self == i64::MAX) {
            None
        } else {
            Some(*self + d as i64)
        }
    }

    fn decimal(&self) -> (r: Vec<char>) {
        i128_decimal(*self as i128)
    }
}

impl Coordinate for i128 {
    open spec fn spec_value(self) -> int {
        self as int
    }

    open spec fn spec_min() -> int {
        i128::MIN as int
    }

    open spec fn spec_max() -> int {
        i128::MAX as int
    }

    open spec fn spec_from_int(i: int) -> Self {
        i as i128
    }

    proof fn lemma_value(v: Self) {
    }

    proof fn lemma_from_int(i: int) {
    }

    fn zero() -> (r: Self) {
        0
    }

    fn one() -> (r: Self) {
        1
    }

    fn less_than(&self, other: &Self) -> (r: bool) {
        *self < *other
    }

    fn same_as(&self, other: &Self) -> (r: bool) {
        *self == *other
    }

    fn offset(&self, d: i8) -> (r: Option<Self>) {
        if (d < 0 && *self == i128::MIN) || (d > 0 && *self == i128::MAX) {
            None
        } else {
            Some(*self + d as i128)
        }
    }

    fn decimal(&self) -> (r: Vec<char>) {
        i128_decimal(*self as i128)
    }
}

impl Coordinate for u128 {
    open spec fn spec_value(self) -> int {
        self as int
    }

    open spec fn spec_min() -> int {
        u128::MIN as int
    }

    open spec fn spec_max() -> int {
        u128::MAX as int
    }

    open spec fn spec_from_int(i: int) -> Self {
        i as u128
    }

    proof fn lemma_value(v: Self) {
    }

    proof fn lemma_from_int(i: int) {
    }

    fn zero() -> (r: Self) {
        0
    }

    fn one() -> (r: Self) {
        1
    }

    fn less_than(&self, other: &Self) -> (r: bool) {
        *self < *other
    }

    fn same_as(&self, other: &Self) -> (r: bool) {
        *self == *other
    }

    fn offset(&self, d: i8) -> (r: Option<Self>) {
        if d < 0 {
            if *self == u128::MIN {
                None
            } else {
                Some(*self - 1)
            }
        } else if d > 0 {
            if *self == u128::MAX {
                None
            } else {
                Some(*self + 1)
            }
        } else {
            Some(*self)
        }
    }

    fn decimal(&self) -> (r: Vec<char>) {
        u128_decimal(*self as u128)
    }
}

/// A position of a cell: the x-coordinate, then the y-coordinate.
#[derive(Copy, Clone, PartialEq, Eq, Hash, Debug)]
pub struct Position<T>(pub T, pub T);

/// The outcome of converting both coordinates of `value` with `TryFrom`, as std
/// specifies the conversion: the first error met, x first.
pub open spec fn spec_position_try_from<T: TryFrom<U>, U>(value: Position<U>) -> Result<
    Position<T>,
    <T as TryFrom<U>>::Error,
> {
    match <T as vstd::std_specs::convert::TryFromSpec<U>>::try_from_spec(value.0) {
        Ok(x) => match <T as vstd::std_specs::convert::TryFromSpec<U>>::try_from_spec(value.1) {
            Ok(y) => Ok(Position(x, y)),
            Err(e) => Err(e),
        },
        Err(e) => Err(e),
    }
}

impl<T> Position<T> {
    /// Converts a `Position<U>` into a `Position<T>`, coordinate by coordinate;
    /// returns the first conversion error.
    pub fn try_from<U>(value: Position<U>) -> (res: Result<Position<T>, T::Error>) where
        T: TryFrom<U>,
        ensures
            <T as vstd::std_specs::convert::TryFromSpec<U>>::obeys_try_from_spec() ==> res
                == spec_position_try_from::<T, U>(value),
    {
        let x = T::try_from(value.0)?;
        let y = T::try_from(value.1)?;
        Ok(Position(x, y))
    }

    /// Converts this position into a `Position<U>`; the same as `Position::<U>::try_from(self)`.
    pub fn try_into<U>(self) -> (res: Result<Position<U>, U::Error>) where
        U: TryFrom<T>,
        ensures
            <U as vstd::std_specs::convert::TryFromSpec<T>>::obeys_try_from_spec() ==> res
                == spec_position_try_from::<U, T>(self),
    {
        Position::<U>::try_from(self)
    }
}

} // verus!

verus! {

/// The offset of the `k`-th Moore neighbour of a cell, row by row from the top left:
/// (-1, -1), (0, -1), (1, -1), (-1, 0), (1, 0), (-1, 1), (0, 1), (1, 1).
pub open spec fn neighbour_offset(k: int) -> (int, int) {
    if k == 0 {
        (-1, -1)
    } else if k == 1 {
        (0, -1)
    } else if k == 2 {
        (1, -1)
    } else if k == 3 {
        (-1, 0)
    } else if k == 4 {
        (1, 0)
    } else if k == 5 {
        (-1, 1)
    } else if k == 6 {
        (0, 1)
    } else {
        (1, 1)
    }
}

/// `v` is in the range of the coordinate type `T`.
pub open spec fn in_coordinate_range<T: Coordinate>(v: int) -> bool {
    T::spec_min() <= v <= T::spec_max()
}

/// The first `k` of the Moore neighbours of `p`, in order, leaving out those whose
/// coordinates fall outside the range of `T`.
pub open spec fn neighbours_upto<T: Coordinate>(p: Position<T>, k: nat) -> Seq<Position<T>>
    decreases k,
{
    if k == 0 {
        seq![]
    } else {
        let prev = neighbours_upto(p, (k - 1) as nat);
        let d = neighbour_offset(k - 1);
        let x = p.0.spec_value() + d.0;
        let y = p.1.spec_value() + d.1;
        if in_coordinate_range::<T>(x) && in_coordinate_range::<T>(y) {
            prev.push(Position(T::spec_from_int(x), T::spec_from_int(y)))
        } else {
            prev
        }
    }
}

/// The Moore neighbours of `p` that exist in `T`'s range, row by row from the top left.
pub open spec fn moore_neighbours<T: Coordinate>(p: Position<T>) -> Seq<Position<T>> {
    neighbours_upto(p, 8)
}

/// `q` is one of the eight cells around `p`.
pub open spec fn is_neighbour<T: Coordinate>(p: Position<T>, q: Position<T>) -> bool {
    let dx = q.0.spec_value() - p.0.spec_value();
    let dy = q.1.spec_value() - p.1.spec_value();
    -1 <= dx <= 1 && -1 <= dy <= 1 && !(dx == 0 && dy == 0)
}

/// The position's text, `"(x, y)"`.
pub open spec fn position_text<T: Coordinate>(p: Position<T>) -> Seq<char> {
    seq!['('] + int_decimal(p.0.spec_value()) + seq![',', ' '] + int_decimal(p.1.spec_value())
        + seq![')']
}

/// Two positions with coordinates that denote the same integers are equal.
pub proof fn lemma_position_eq<T: Coordinate>(p: Position<T>, q: Position<T>)
    ensures
        (p == q) <==> (p.0.spec_value() == q.0.spec_value() && p.1.spec_value()
            == q.1.spec_value()),
{
    T::lemma_value(p.0);
    T::lemma_value(p.1);
    T::lemma_value(q.0);
    T::lemma_value(q.1);
}

proof fn lemma_neighbours_upto<T: Coordinate>(p: Position<T>, q: Position<T>, k: nat)
    requires
        k <= 8,
    ensures
        neighbours_upto(p, k).contains(q) <==> exists|j: int|
            0 <= j < k && #[trigger] neighbour_offset(j) == (
                q.0.spec_value() - p.0.spec_value(),
                q.1.spec_value() - p.1.spec_value(),
            ),
    decreases k,
{
    if k > 0 {
        lemma_neighbours_upto(p, q, (k - 1) as nat);
        let prev = neighbours_upto(p, (k - 1) as nat);
        let d = neighbour_offset(k - 1);
        let x = p.0.spec_value() + d.0;
        let y = p.1.spec_value() + d.1;
        let e = (q.0.spec_value() - p.0.spec_value(), q.1.spec_value() - p.1.spec_value());
        T::lemma_value(q.0);
        T::lemma_value(q.1);
        if in_coordinate_range::<T>(x) && in_coordinate_range::<T>(y) {
            let r = Position(T::spec_from_int(x), T::spec_from_int(y));
            T::lemma_from_int(x);
            T::lemma_from_int(y);
            vstd::seq_lib::lemma_seq_contains_after_push(prev, r, q);
            lemma_position_eq(r, q);
        } else {
            if d == e {
                assert(in_coordinate_range::<T>(x) && in_coordinate_range::<T>(y));
            }
        }
        if exists|j: int| 0 <= j < k && #[trigger] neighbour_offset(j) == e {
            let j = choose|j: int| 0 <= j < k && #[trigger] neighbour_offset(j) == e;
            if j < k - 1 {
                assert(exists|j: int| 0 <= j < k - 1 && #[trigger] neighbour_offset(j) == e);
            }
        }
    }
}

/// The Moore neighbours of `p` are exactly the cells around it.
pub proof fn lemma_moore_neighbours<T: Coordinate>(p: Position<T>, q: Position<T>)
    ensures
        moore_neighbours(p).contains(q) <==> is_neighbour(p, q),
{
    lemma_neighbours_upto(p, q, 8);
    let e = (q.0.spec_value() - p.0.spec_value(), q.1.spec_value() - p.1.spec_value());
    if is_neighbour(p, q) {
        let j: int = if e == (-1int, -1int) {
            0
        } else if e == (0int, -1int) {
            1
        } else if e == (1int, -1int) {
            2
        } else if e == (-1int, 0int) {
            3
        } else if e == (1int, 0int) {
            4
        } else if e == (-1int, 1int) {
            5
        } else if e == (0int, 1int) {
            6
        } else {
            7
        };
        assert(neighbour_offset(j) == e);
    }
}

/// The Moore neighbours of a cell never include the cell, and each of them has the
/// cell as a Moore neighbour.
pub proof fn lemma_neighbour_symmetric<T: Coordinate>(p: Position<T>, q: Position<T>)
    ensures
        moore_neighbours(p).contains(q) <==> moore_neighbours(q).contains(p),
        !moore_neighbours(p).contains(p),
{
    lemma_moore_neighbours(p, q);
    lemma_moore_neighbours(q, p);
    lemma_moore_neighbours(p, p);
}

impl<T: Coordinate> Position<T> {
    /// The positions around this one (its Moore neighbourhood), row by row from the
    /// top left; those beyond the range of `T` are left out.
    pub fn moore_neighborhood_positions(&self) -> (res: Vec<Position<T>>)
        ensures
            res@ == moore_neighbours(*self),
    {
        let dxs: [i8; 8] = [-1, 0, 1, -1, 1, -1, 0, 1];
        let dys: [i8; 8] = [-1, -1, -1, 0, 0, 1, 1, 1];
        let mut res: Vec<Position<T>> = Vec::new();
        for k in 0..8
            invariant
                res@ == neighbours_upto(*self, k as nat),
                dxs@ == seq![-1i8, 0i8, 1i8, -1i8, 1i8, -1i8, 0i8, 1i8],
                dys@ == seq![-1i8, -1i8, -1i8, 0i8, 0i8, 1i8, 1i8, 1i8],
        {
            let dx = dxs[k];
            let dy = dys[k];
            assert(neighbour_offset(k as int) == (dx as int, dy as int));
            let x = self.0.offset(dx);
            let y = self.1.offset(dy);
            match (x, y) {
                (Some(x), Some(y)) => {
                    proof {
                        T::lemma_value(x);
                        T::lemma_value(y);
                    }
                    res.push(Position(x, y));
                },
                _ => {},
            }
        }
        res
    }

    /// The position's text, e.g. `"(1, 2)"`.
    pub fn to_string(&self) -> (res: String)
        ensures
            res@ == position_text(*self),
    {
        let mut buf: Vec<char> = Vec::new();
        buf.push('(');
        let mut x = self.0.decimal();
        buf.append(&mut x);
        buf.push(',');
        buf.push(' ');
        let mut y = self.1.decimal();
        buf.append(&mut y);
        buf.push(')');
        assert(buf@ =~= position_text(*self));
        string_of(&buf)
    }
}

} // verus!

verus! {

/// A cell has at most eight Moore neighbours.
pub proof fn lemma_moore_len<T: Coordinate>(p: Position<T>)
    ensures
        moore_neighbours(p).len() <= 8,
{
    lemma_neighbours_upto_len(p, 8);
}

proof fn lemma_neighbours_upto_len<T: Coordinate>(p: Position<T>, k: nat)
    ensures
        neighbours_upto(p, k).len() <= k,
    decreases k,
{
    if k > 0 {
        lemma_neighbours_upto_len(p, (k - 1) as nat);
    }
}

} // verus!
