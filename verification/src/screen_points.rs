//! Pixels on the screen and their run-length encoded rows.
use vstd::prelude::*;

use crate::color::Color;
use crate::sorting::{SortKey, stable_sort, sort_by_key};

verus! {

/// A run of `occurence_length` pixels of one colour that starts at column `x`.
#[derive(Clone, Copy, Debug, PartialEq, Eq, Structural)]
pub struct OptimisedScreenPoint {
    pub color: Color,
    pub occurence_length: u32,
    pub x: u32,
}

/// A run of pixels that belong to the triangle with the given shading signature.
#[derive(Clone, Copy, Debug, PartialEq, Eq, Structural)]
pub struct ShadingOptimisedScreenPoints {
    pub shading_signature: u32,
    pub occurence_length: u32,
    pub x: u32,
}

impl SortKey for OptimisedScreenPoint {
    open spec fn sort_key(&self) -> int {
        self.x as int
    }

    fn key_of(&self) -> (k: i64) {
        self.x as i64
    }
}

impl SortKey for ShadingOptimisedScreenPoints {
    open spec fn sort_key(&self) -> int {
        self.shading_signature as int
    }

    fn key_of(&self) -> (k: i64) {
        self.shading_signature as i64
    }
}

impl OptimisedScreenPoint {
    pub fn new(color: Color, occurence_length: u32, x: u32) -> (p: OptimisedScreenPoint)
        ensures
            p == (OptimisedScreenPoint { color, occurence_length, x }),
    {
        OptimisedScreenPoint { color, occurence_length, x }
    }
}

impl ShadingOptimisedScreenPoints {
    pub fn new(shading_signature: u32, occurence_length: u32, x: u32) -> (p:
        ShadingOptimisedScreenPoints)
        ensures
            p == (ShadingOptimisedScreenPoints { shading_signature, occurence_length, x }),
    {
        ShadingOptimisedScreenPoints { shading_signature, occurence_length, x }
    }

    /// Keeps the extent of a coloured run and gives it a shading signature in place of its colour.
    pub fn new_from_optimised(original: OptimisedScreenPoint, shading_signature: u32) -> (p:
        ShadingOptimisedScreenPoints)
        ensures
            p == (ShadingOptimisedScreenPoints {
                shading_signature,
                occurence_length: original.occurence_length,
                x: original.x,
            }),
    {
        ShadingOptimisedScreenPoints::new(shading_signature, original.occurence_length, original.x)
    }
}

/// A copy of a row of plain values.
pub(crate) fn copy_row<T: Copy>(v: &Vec<T>) -> (r: Vec<T>)
    ensures
        r@ == v@,
{
    let mut r: Vec<T> = Vec::new();
    let mut i: usize = 0;
    while i < v.len()
        invariant
            i <= v.len(),
            r@ == v@.take(i as int),
        decreases v.len() - i,
    {
        r.push(v[i]);
        i = i + 1;
        proof {
            assert(r@ =~= v@.take(i as int));
        }
    }
    assert(v@.take(v.len() as int) =~= v@);
    r
}

} // verus!
