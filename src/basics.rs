//! Building small vectors.

use vstd::prelude::*;

verus! {

/// The vector `[10, 20]`, built with its element type written out.
pub fn build_vector() -> (v: Vec<i16>)
    ensures
        v@ == seq![10i16, 20i16],
{
    let mut v: Vec<i16> = Vec::<i16>::new();
    v.push(10i16);
    v.push(20i16);
    assert(v@ =~= seq![10i16, 20i16]);
    v
}

/// The vector `[10, 20]`, with its element type left to inference.
pub fn build_vector2() -> (v: Vec<i16>)
    ensures
        v@ == seq![10i16, 20i16],
{
    let mut v = Vec::new();
    v.push(10);
    v.push(20);
    assert(v@ =~= seq![10i16, 20i16]);
    v
}

} // verus!
