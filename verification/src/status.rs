use vstd::prelude::*;

verus! {

/// Status code of a call that succeeded.
pub const STATUS_OK: u32 = 0;

/// Status code of a call whose operation the index refused.
pub const STATUS_FAILED: u32 = 1;

/// Status code of a call made before any index was initialised.
pub const STATUS_UNINITIALIZED: u32 = 2;

/// The status code that the JavaScript interface returns for a mutating call:
/// `initialized` tells whether an index exists, `succeeded` whether the
/// operation on it returned `Ok`.
pub fn status_code(initialized: bool, succeeded: bool) -> (code: u32)
    ensures
        !initialized ==> code == STATUS_UNINITIALIZED,
        initialized && succeeded ==> code == STATUS_OK,
        initialized && !succeeded ==> code == STATUS_FAILED,
{
    if !initialized {
        STATUS_UNINITIALIZED
    } else if succeeded {
        STATUS_OK
    } else {
        STATUS_FAILED
    }
}

} // verus!
