//! The condition under which the standard ordered map behaves as a map.

use vstd::prelude::*;

verus! {

/// Whether the map model of `BTreeMap` holds for keys of type `T`: their order
/// is a total order that agrees with equality. It does for the integer types.
pub open spec fn keys_are_ordered<T: Ord>() -> bool {
    vstd::laws_cmp::obeys_cmp::<T>()
}

} // verus!
