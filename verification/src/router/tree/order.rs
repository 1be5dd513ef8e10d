//! The order in which matched handlers are dispatched.

use vstd::prelude::*;
use std::cmp::Ordering;
use crate::router::handler::HookType;
use super::node::PrioritizedHandler;
use super::Tree;

verus! {

/// The rank of a phase: `Before` comes first, `After` last.
pub open spec fn rank(hook: HookType) -> int {
    match hook {
        HookType::Before => 0,
        HookType::Main => 1,
        HookType::After => 2,
    }
}

/// Whether a handler of phase `hook_a` stamped `a` is dispatched before one
/// of phase `hook_b` stamped `b`: the earlier phase goes first, and within a
/// phase the smaller stamp.
pub open spec fn goes_before(hook_a: HookType, a: int, hook_b: HookType, b: int) -> bool {
    rank(hook_a) < rank(hook_b) || (rank(hook_a) == rank(hook_b) && a < b)
}

/// Whether the stamped handler `a` is dispatched before `b`.
pub open spec fn precedes<F>(a: PrioritizedHandler<F>, b: PrioritizedHandler<F>) -> bool {
    goes_before(a.1.hook_type, a.0 as int, b.1.hook_type, b.0 as int)
}

/// Whether two stamped handlers take the same place in the dispatch order.
pub open spec fn ties<F>(a: PrioritizedHandler<F>, b: PrioritizedHandler<F>) -> bool {
    rank(a.1.hook_type) == rank(b.1.hook_type) && a.0 == b.0
}

impl<F> Tree<F> {
    pub fn hook_score(hook: &HookType) -> (score: u32)
        ensures
            score == rank(*hook),
    {
        match hook {
            HookType::Before => 0,
            HookType::Main => 1,
            HookType::After => 2,
        }
    }

    /// Compares two stamped handlers by phase first and by stamp second.
    pub fn compare_handler(a: &PrioritizedHandler<F>, b: &PrioritizedHandler<F>) -> (ordering:
        Ordering)
        ensures
            ordering == Ordering::Less <==> precedes(*a, *b),
            ordering == Ordering::Equal <==> ties(*a, *b),
            ordering == Ordering::Greater <==> precedes(*b, *a),
    {
        let score_a = Self::hook_score(&a.1.hook_type);
        let score_b = Self::hook_score(&b.1.hook_type);
        if score_a == score_b {
            if a.0 < b.0 {
                Ordering::Less
            } else if a.0 == b.0 {
                Ordering::Equal
            } else {
                Ordering::Greater
            }
        } else if score_a < score_b {
            Ordering::Less
        } else {
            Ordering::Greater
        }
    }

    /// Whether `a` is dispatched before `b`.
    pub fn goes_first(a: &PrioritizedHandler<F>, b: &PrioritizedHandler<F>) -> (first: bool)
        ensures
            first == precedes(*a, *b),
    {
        match Self::compare_handler(a, b) {
            Ordering::Less => true,
            _ => false,
        }
    }
}

} // verus!
