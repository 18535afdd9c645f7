//! What the query planner decides of a query's `OFFSET` and `LIMIT` once
//! their expressions are evaluated.
use vstd::prelude::*;

verus! {

/// What the expression of a clause evaluated to.
#[derive(Clone, Copy, Debug, PartialEq, Eq)]
pub enum ClauseValue {
    /// A 64-bit integer literal; `None` for a null of that type.
    Int64(Option<i64>),
    /// The null literal.
    Null,
    /// Anything else.
    Other,
}

/// Why a query cannot be planned.
#[derive(Clone, Copy, Debug, PartialEq, Eq)]
pub enum PlanError {
    /// The offset is below zero; the offset is given.
    NegativeOffset(i64),
    /// The offset is no integer literal.
    UnexpectedOffset,
    /// The limit is below zero or no integer literal.
    NegativeLimit,
}

/// How many rows a plan skips and how many it fetches at most.
#[derive(Clone, Copy, Debug, PartialEq, Eq)]
pub struct Limit {
    pub skip: usize,
    pub fetch: Option<usize>,
}

/// The number of rows to skip: none without a clause; the literal where it
/// is an integer not below zero.
pub open spec fn spec_skip(skip: Option<ClauseValue>) -> Result<int, PlanError> {
    match skip {
        None => Ok(0),
        Some(ClauseValue::Int64(Some(s))) => if s < 0 {
            Err(PlanError::NegativeOffset(s))
        } else {
            Ok(s as int)
        },
        Some(_) => Err(PlanError::UnexpectedOffset),
    }
}

/// The number of rows to fetch at most: unbounded without a clause or with
/// the null literal; the literal where it is an integer not below zero.
pub open spec fn spec_fetch(fetch: Option<ClauseValue>) -> Result<Option<int>, PlanError> {
    match fetch {
        None => Ok(None),
        Some(ClauseValue::Null) => Ok(None),
        Some(ClauseValue::Int64(Some(n))) => if n < 0 {
            Err(PlanError::NegativeLimit)
        } else {
            Ok(Some(n as int))
        },
        Some(_) => Err(PlanError::NegativeLimit),
    }
}

/// The limit that wraps a plan. Without either clause the plan stays as it
/// is. The offset is looked at first, so its error comes first. A number
/// beyond what the machine counts stands for all rows.
pub fn limit(skip: Option<ClauseValue>, fetch: Option<ClauseValue>) -> (r: Result<
    Option<Limit>,
    PlanError,
>)
    ensures
        skip is None && fetch is None ==> r == Ok::<Option<Limit>, PlanError>(None),
        !(skip is None && fetch is None) ==> match (spec_skip(skip), spec_fetch(fetch)) {
            (Err(e), _) => r == Err::<Option<Limit>, PlanError>(e),
            (Ok(_), Err(e)) => r == Err::<Option<Limit>, PlanError>(e),
            (Ok(s), Ok(f)) => r matches Ok(Some(l)) && l.skip == clamp(s) && match f {
                Some(n) => l.fetch == Some(clamp(n)),
                None => l.fetch is None,
            },
        },
{
    if skip.is_none() && fetch.is_none() {
        return Ok(None);
    }
    let skip = match skip {
        None => 0,
        Some(ClauseValue::Int64(Some(s))) => {
            if s < 0 {
                return Err(PlanError::NegativeOffset(s));
            }
            rows(s)
        },
        Some(_) => {
            return Err(PlanError::UnexpectedOffset);
        },
    };
    let fetch = match fetch {
        None => None,
        Some(ClauseValue::Null) => None,
        Some(ClauseValue::Int64(Some(n))) => {
            if n < 0 {
                return Err(PlanError::NegativeLimit);
            }
            Some(rows(n))
        },
        Some(_) => {
            return Err(PlanError::NegativeLimit);
        },
    };
    Ok(Some(Limit { skip, fetch }))
}

/// A number of rows as the machine counts it: itself, or the largest
/// number that the machine counts where it is beyond that.
pub open spec fn clamp(n: int) -> usize {
    if n <= usize::MAX {
        n as usize
    } else {
        usize::MAX
    }
}

fn rows(n: i64) -> (r: usize)
    requires
        n >= 0,
    ensures
        r == clamp(n as int),
{
    if n as u64 <= usize::MAX as u64 {
        n as usize
    } else {
        usize::MAX
    }
}

} // verus!
