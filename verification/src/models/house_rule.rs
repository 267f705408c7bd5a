//! House rules.

use vstd::prelude::*;

verus! {

/// The fields of a house rule that a request changes; the others stay.
#[derive(Debug)]
pub struct UpdateHouseRuleRequest {
    pub title: Option<String>,
    pub description: Option<String>,
    pub category: Option<String>,
    pub is_active: Option<bool>,
}

/// Whether a new house rule is in force where the request does not say.
pub fn default_true() -> (active: bool)
    ensures
        active,
{
    true
}

} // verus!
