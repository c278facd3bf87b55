//! Result codes shared by every module of the library.

use vstd::prelude::*;

verus! {

/// A status code. `NEXT` and `STOP` are only handed back by traversal callbacks: they ask the
/// traversal to go on, or to end early without an error.
#[allow(non_camel_case_types)]
#[derive(PartialEq, Eq, Structural, Clone, Copy, Debug)]
pub enum Status {
    NEXT,
    STOP,
    NO_MEMORY,
    NO_RESOURCES,
    BAD_STATE,
    OUT_OF_RANGE,
    INVALID_ARGS,
    NOT_FOUND,
    SHOULD_WAIT,
    ALREADY_EXISTS,
    BUFFER_TOO_SMALL,
    TIMED_OUT,
    INTERRUPTED_RETRY,
    INTERNAL_INTR_KILLED,
}

} // verus!
