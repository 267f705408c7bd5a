//! Stored chunks and where they come from.

use crate::text::same_text;
use vstd::prelude::*;

verus! {

/// Where the text of a stored chunk comes from.
#[derive(Debug, Clone, Copy, PartialEq, Eq, Structural)]
pub enum EmbeddingSourceType {
    /// The uploaded rule book.
    RulesPdf,
    /// A house rule that a user wrote.
    HouseRule,
}

/// The name under which a source is stored.
pub open spec fn source_name(source: EmbeddingSourceType) -> Seq<char> {
    match source {
        EmbeddingSourceType::RulesPdf => "rules_pdf"@,
        EmbeddingSourceType::HouseRule => "house_rule"@,
    }
}

/// The source stored under a name, if it is the name of one.
pub open spec fn source_named(name: Seq<char>) -> Option<EmbeddingSourceType> {
    if name == "rules_pdf"@ {
        Some(EmbeddingSourceType::RulesPdf)
    } else if name == "house_rule"@ {
        Some(EmbeddingSourceType::HouseRule)
    } else {
        None
    }
}

/// A source is found again under its name.
pub proof fn lemma_source_round_trip(source: EmbeddingSourceType)
    ensures
        source_named(source_name(source)) == Some(source),
{
    reveal_strlit("rules_pdf");
    reveal_strlit("house_rule");
    assert("rules_pdf"@.len() == 9);
    assert("house_rule"@.len() == 10);
}

impl EmbeddingSourceType {
    /// The name under which the source is stored.
    pub fn as_str(&self) -> (name: &'static str)
        ensures
            name@ == source_name(*self),
    {
        match self {
            EmbeddingSourceType::RulesPdf => "rules_pdf",
            EmbeddingSourceType::HouseRule => "house_rule",
        }
    }

    /// The source stored under `s`, if it is the name of one.
    pub fn from_str(s: &str) -> (source: Option<Self>)
        ensures
            source == source_named(s@),
    {
        if same_text(s, "rules_pdf") {
            Some(EmbeddingSourceType::RulesPdf)
        } else if same_text(s, "house_rule") {
            Some(EmbeddingSourceType::HouseRule)
        } else {
            None
        }
    }
}

/// The source that a stored name stands for: a name that is none is read
/// as the rule book.
pub open spec fn source_stored_as(name: Seq<char>) -> EmbeddingSourceType {
    match source_named(name) {
        Some(source) => source,
        None => EmbeddingSourceType::RulesPdf,
    }
}

/// The source that a stored name stands for.
pub fn stored_source(name: &str) -> (source: EmbeddingSourceType)
    ensures
        source == source_stored_as(name@),
{
    match EmbeddingSourceType::from_str(name) {
        Some(source) => source,
        None => EmbeddingSourceType::RulesPdf,
    }
}

/// The number of results of a search where none is named.
pub fn default_search_limit() -> (limit: u32)
    ensures
        limit == 10,
{
    10
}

} // verus!
