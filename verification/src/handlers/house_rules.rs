//! What is asked of a house rule before it is stored.

use crate::handlers::is_blank_text;
use crate::models::house_rule::UpdateHouseRuleRequest;
use crate::models::PaginationParams;
use crate::text::trim;
use vstd::prelude::*;

verus! {

/// Which house rule a request is about.
#[derive(Debug)]
pub struct HouseRulePathParam {
    pub id: i64,
}

/// Which house rules are listed: those of a game, one page of them.
#[derive(Debug)]
pub struct HouseRulesByGameQuery {
    pub game_id: i64,
    pub pagination: PaginationParams,
}

/// What is wrong with a house rule.
#[derive(Debug, Clone, Copy, PartialEq, Eq, Structural)]
pub enum HouseRuleFault {
    EmptyTitle,
    EmptyDescription,
}

impl HouseRuleFault {
    /// The fault in words.
    pub fn message(&self) -> (text: &'static str)
        ensures
            text@ == match *self {
                HouseRuleFault::EmptyTitle => "House rule title cannot be empty"@,
                HouseRuleFault::EmptyDescription => "House rule description cannot be empty"@,
            },
    {
        match self {
            HouseRuleFault::EmptyTitle => "House rule title cannot be empty",
            HouseRuleFault::EmptyDescription => "House rule description cannot be empty",
        }
    }
}

/// What is wrong with a new house rule, if anything: its title, or else its
/// description, holds nothing but whitespace.
pub open spec fn house_rule_fault(title: Seq<char>, description: Seq<char>) -> Option<
    HouseRuleFault,
> {
    if trim(title).len() == 0 {
        Some(HouseRuleFault::EmptyTitle)
    } else if trim(description).len() == 0 {
        Some(HouseRuleFault::EmptyDescription)
    } else {
        None
    }
}

/// What is wrong with a change to a house rule, if anything: as with a new
/// one, but only what is given is looked at.
pub open spec fn house_rule_update_fault(
    title: Option<Seq<char>>,
    description: Option<Seq<char>>,
) -> Option<HouseRuleFault> {
    if title matches Some(t) && trim(t).len() == 0 {
        Some(HouseRuleFault::EmptyTitle)
    } else if description matches Some(d) && trim(d).len() == 0 {
        Some(HouseRuleFault::EmptyDescription)
    } else {
        None
    }
}

/// Whether a new house rule may be stored.
pub fn check_house_rule(title: &str, description: &str) -> (r: Result<(), HouseRuleFault>)
    ensures
        match r {
            Ok(()) => house_rule_fault(title@, description@) is None,
            Err(fault) => house_rule_fault(title@, description@) == Some(fault),
        },
{
    if is_blank_text(title) {
        Err(HouseRuleFault::EmptyTitle)
    } else if is_blank_text(description) {
        Err(HouseRuleFault::EmptyDescription)
    } else {
        Ok(())
    }
}

/// Whether a change to a house rule may be stored.
pub fn check_house_rule_update(request: &UpdateHouseRuleRequest) -> (r: Result<(), HouseRuleFault>)
    ensures
        match r {
            Ok(()) => house_rule_update_fault(
                match request.title {
                    Some(t) => Some(t@),
                    None => None,
                },
                match request.description {
                    Some(d) => Some(d@),
                    None => None,
                },
            ) is None,
            Err(fault) => house_rule_update_fault(
                match request.title {
                    Some(t) => Some(t@),
                    None => None,
                },
                match request.description {
                    Some(d) => Some(d@),
                    None => None,
                },
            ) == Some(fault),
        },
{
    match &request.title {
        Some(t) => {
            if is_blank_text(t.as_str()) {
                return Err(HouseRuleFault::EmptyTitle);
            }
        },
        None => {},
    }
    match &request.description {
        Some(d) => {
            if is_blank_text(d.as_str()) {
                return Err(HouseRuleFault::EmptyDescription);
            }
        },
        None => {},
    }
    Ok(())
}

/// The columns of a house rule that a change sets, in the order of the
/// record, where each is set that the request names.
pub open spec fn changed_columns(
    title: bool,
    description: bool,
    category: bool,
    is_active: bool,
) -> Seq<Seq<char>> {
    (if title {
        seq!["title"@]
    } else {
        Seq::empty()
    }) + (if description {
        seq!["description"@]
    } else {
        Seq::empty()
    }) + (if category {
        seq!["category"@]
    } else {
        Seq::empty()
    }) + (if is_active {
        seq!["is_active"@]
    } else {
        Seq::empty()
    })
}

/// The columns of a house rule that `request` sets.
pub fn columns_to_change(request: &UpdateHouseRuleRequest) -> (columns: Vec<&'static str>)
    ensures
        columns@.len() <= 4,
        Seq::new(columns@.len(), |i: int| columns@[i]@) == changed_columns(
            request.title is Some,
            request.description is Some,
            request.category is Some,
            request.is_active is Some,
        ),
{
    let mut columns: Vec<&'static str> = Vec::new();
    if request.title.is_some() {
        columns.push("title");
    }
    if request.description.is_some() {
        columns.push("description");
    }
    if request.category.is_some() {
        columns.push("category");
    }
    if request.is_active.is_some() {
        columns.push("is_active");
    }
    assert(Seq::new(columns@.len(), |i: int| columns@[i]@) =~= changed_columns(
        request.title is Some,
        request.description is Some,
        request.category is Some,
        request.is_active is Some,
    ));
    columns
}

} // verus!
