//! The shadow-stack query on Linux, whose `arch_prctl` status call sets the
//! lowest bit of its output when shadow stacks are on.
use crate::error::Error;
use vstd::prelude::*;

verus! {

/// Linux's error code for an invalid argument.
pub const EINVAL: i32 = 22;

/// Linux's error code for a system call that does not exist.
pub const ENOSYS: i32 = 38;

/// Linux's error code for an operation that is not supported.
pub const ENOTSUP: i32 = 95;

/// What a status query that returned `result`, wrote `flags` and left the
/// error code `code` says: shadow stacks are on when the lowest bit of the
/// flags is set; a kernel or processor without them answers with an error
/// that means "off"; any other error is reported.
pub open spec fn shadow_stack_outcome(result: i64, flags: usize, code: i32) -> Result<bool, Error> {
    if result != 0 {
        if code == EINVAL || code == ENOSYS || code == ENOTSUP {
            Ok(false)
        } else {
            Err(Error::Os { operation: "query shadow stack", code })
        }
    } else {
        Ok(flags & 1 != 0)
    }
}

/// Whether this thread runs with shadow stacks; `query` makes the status
/// call and returns its result, the flags it wrote and the error code.
pub fn query_shadow_stack<Q>(query: &mut Q) -> (result: Result<bool, Error>) where
    Q: FnMut() -> (i64, usize, i32),
    requires
        forall|state: Q| call_requires(state, ()),
    ensures
        exists|answer: (i64, usize, i32)|
            {
                &&& exists|state: Q| call_ensures(state, (), answer)
                &&& result == #[trigger] shadow_stack_outcome(answer.0, answer.1, answer.2)
            },
{
    let ghost state = *query;
    let (status, flags, code) = query();
    assert(call_ensures(state, (), (status, flags, code)));
    if status != 0 {
        if code == EINVAL || code == ENOSYS || code == ENOTSUP {
            assert(Ok::<bool, Error>(false) == shadow_stack_outcome(status, flags, code));
            return Ok(false);
        }
        let error = Error::Os { operation: "query shadow stack", code };
        assert(Err::<bool, Error>(error) == shadow_stack_outcome(status, flags, code));
        return Err(error);
    }
    let enabled = flags & 1 != 0;
    assert(Ok::<bool, Error>(enabled) == shadow_stack_outcome(status, flags, code));
    Ok(enabled)
}

} // verus!
