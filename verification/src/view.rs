//! Fixed-size views: reinterpreting a runtime-length slice as an array of
//! statically known length. The conversion succeeds exactly when the
//! lengths match and never panics; the array holds the same elements in
//! the same order.

use vstd::prelude::*;

verus! {

/// Returns the slice's contents as an array of exactly four elements,
/// or `None` when the slice's length differs from four.
pub fn slice4_as_array4<T: Copy>(slice: &[T]) -> (r: Option<[T; 4]>)
    ensures
        match r {
            Some(arr) => slice@.len() == 4 && arr@ == slice@,
            None => slice@.len() != 4,
        },
{
    if slice.len() != 4 {
        return None;
    }
    let arr: [T; 4] = [slice[0], slice[1], slice[2], slice[3]];
    proof {
        assert(arr@ =~= slice@);
    }
    Some(arr)
}

/// Returns the slice's contents as an array of exactly eight elements,
/// or `None` when the slice's length differs from eight.
pub fn slice8_as_array8<T: Copy>(slice: &[T]) -> (r: Option<[T; 8]>)
    ensures
        match r {
            Some(arr) => slice@.len() == 8 && arr@ == slice@,
            None => slice@.len() != 8,
        },
{
    if slice.len() != 8 {
        return None;
    }
    let arr: [T; 8] = [
        slice[0],
        slice[1],
        slice[2],
        slice[3],
        slice[4],
        slice[5],
        slice[6],
        slice[7],
    ];
    proof {
        assert(arr@ =~= slice@);
    }
    Some(arr)
}

} // verus!
