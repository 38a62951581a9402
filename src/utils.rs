use vstd::prelude::*;
use crate::TreeFileError;

verus! {

/// `value` moved by `add`, or `None` where the result leaves the range of `u64`.
pub open spec fn offset_value(value: u64, add: i64) -> Option<u64> {
    let r = value + add;
    if 0 <= r <= u64::MAX {
        Some(r as u64)
    } else {
        None
    }
}

/// Adds a signed delta to an unsigned counter; a result below zero, or above
/// `u64::MAX`, is a `LogicError`.
pub fn add_and_subtract(value: u64, add: i64) -> (r: Result<u64, TreeFileError>)
    ensures
        match offset_value(value, add) {
            Some(v) => r == Ok::<u64, TreeFileError>(v),
            None => r is Err && r->Err_0 is LogicError,
        },
{
    if add < 0 {
        let a: u64 = ((-(add + 1)) as u64) + 1;
        if a > value {
            return Err(TreeFileError::LogicError {
                msg: "Would subtract below zero on unsigned value (u64)".to_owned(),
            });
        }
        Ok(value - a)
    } else {
        let a: u64 = add as u64;
        if a > u64::MAX - value {
            return Err(TreeFileError::LogicError {
                msg: "Would add above the largest unsigned value (u64)".to_owned(),
            });
        }
        Ok(value + a)
    }
}

} // verus!
