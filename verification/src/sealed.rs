//! The seal of the `Coordinate` trait: only the primitive integer types can be
//! coordinates, so that their `==`, `<` and hash agree with the integers they denote.

use vstd::prelude::*;

verus! {

/// A marker that no type outside this crate can carry.
pub trait Sealed {}

impl Sealed for i8 {}

impl Sealed for i16 {}

impl Sealed for i32 {}

impl Sealed for i64 {}

impl Sealed for i128 {}

impl Sealed for isize {}

impl Sealed for u8 {}

impl Sealed for u16 {}

impl Sealed for u32 {}

impl Sealed for u64 {}

impl Sealed for u128 {}

impl Sealed for usize {}

} // verus!
