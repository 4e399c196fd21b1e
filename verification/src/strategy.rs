//! Which planner settles a request.

use vstd::prelude::*;

verus! {

/// Why a request was refused.
#[derive(Clone, Copy, Debug, PartialEq, Eq, Structural)]
pub enum PlanError {
    /// More balances are open than the exact planner takes.
    CapacityExceeded,
    /// Both the exact and the approximate planner were asked for.
    ConflictingMode,
}

/// A way to settle balances.
#[derive(Clone, Copy, Debug, PartialEq, Eq, Structural)]
pub enum Strategy {
    /// As few transfers as possible; slow for many balances.
    Exact,
    /// Fast; the plan may be longer than needed.
    Approximate,
}

/// Up to this many open balances are settled exactly where no planner was
/// asked for.
pub const EXACT_BY_DEFAULT: usize = 20;

/// The strategy for a request: the planner asked for, if one was; else the
/// exact planner for few open balances and the approximate one for many. To
/// ask for both is an error.
pub fn choose_strategy(exact: bool, approx: bool, unsettled: usize) -> (r: Result<
    Strategy,
    PlanError,
>)
    ensures
        r == if exact && approx {
            Err::<Strategy, PlanError>(PlanError::ConflictingMode)
        } else if exact {
            Ok(Strategy::Exact)
        } else if approx {
            Ok(Strategy::Approximate)
        } else if unsettled <= EXACT_BY_DEFAULT {
            Ok(Strategy::Exact)
        } else {
            Ok(Strategy::Approximate)
        },
{
    match (exact, approx, unsettled <= EXACT_BY_DEFAULT) {
        (true, true, _) => Err(PlanError::ConflictingMode),
        (true, false, _) => Ok(Strategy::Exact),
        (false, true, _) => Ok(Strategy::Approximate),
        (false, false, true) => Ok(Strategy::Exact),
        (false, false, false) => Ok(Strategy::Approximate),
    }
}

} // verus!
