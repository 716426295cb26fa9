//! Coverage tests: the caller's rule for when enough samples are covered.
//!
//! The summary and the viewer stop listing frames once the samples listed,
//! `running`, cover enough of a `total`. The rule is the caller's, passed
//! as a function `covered(running, total)`; the contracts hold for every
//! such function that answers as some predicate does.
use vstd::prelude::*;

verus! {

/// `covered` answers as the predicate `p` does, whenever it answers.
pub open spec fn decides<F: Fn(u64, u64) -> bool>(covered: F, p: spec_fn(u64, u64) -> bool) -> bool {
    forall|a: u64, b: u64, r: bool| #[trigger] covered.ensures((a, b), r) ==> r == p(a, b)
}

} // verus!
