//! What is decided around a call of the embedding service: whether to call
//! at all, and what its answer amounts to.

use crate::text::{decimal, push_decimal, push_str, string_of};
use vstd::prelude::*;

verus! {

/// The embedding model that is asked where none is named.
pub const DEFAULT_EMBEDDING_MODEL: &'static str = "nomic-embed-text:latest";

/// Where the embedding service is reached where no address is named: an
/// inference service on this machine.
pub const DEFAULT_API_BASE: &'static str = "http://localhost:11434/v1";

/// The key sent to the service where none is named.
pub const DEFAULT_API_KEY: &'static str = "ollama";

/// How the embedding service is reached and which model it is asked for.
#[derive(Debug)]
pub struct EmbedderConfig {
    pub api_base: String,
    pub api_key: String,
    pub embedding_model: String,
}

impl EmbedderConfig {
    /// The service on this machine with the default model.
    pub fn new() -> (config: Self)
        ensures
            config.api_base@ == DEFAULT_API_BASE@,
            config.api_key@ == DEFAULT_API_KEY@,
            config.embedding_model@ == DEFAULT_EMBEDDING_MODEL@,
    {
        Self::with_config(DEFAULT_API_BASE, DEFAULT_API_KEY, DEFAULT_EMBEDDING_MODEL)
    }

    /// A service and a model of the caller's choice.
    pub fn with_config(api_base: &str, api_key: &str, embedding_model: &str) -> (config: Self)
        ensures
            config.api_base@ == api_base@,
            config.api_key@ == api_key@,
            config.embedding_model@ == embedding_model@,
    {
        EmbedderConfig {
            api_base: api_base.to_owned(),
            api_key: api_key.to_owned(),
            embedding_model: embedding_model.to_owned(),
        }
    }

    /// The model that is asked.
    pub fn get_model(&self) -> (model: &str)
        ensures
            model@ == self.embedding_model@,
    {
        self.embedding_model.as_str()
    }
}

/// Why no vectors came back.
#[derive(Debug)]
pub enum EmbeddingError {
    /// The request could not be built; with the reason.
    Request(String),
    /// The service could not be reached or refused when asked for the
    /// vector of one text; with the reason.
    ServiceOne(String),
    /// The service could not be reached or refused when asked for the
    /// vectors of a batch; with the reason.
    Service(String),
    /// The service answered without a vector.
    NoData,
    /// The service answered a batch with another number of vectors than
    /// there were texts.
    CountMismatch { expected: usize, got: usize },
}

/// The error in words.
pub open spec fn embedding_error_text(e: EmbeddingError) -> Seq<char> {
    match e {
        EmbeddingError::Request(reason) => "Failed to build embedding request: "@ + reason@,
        EmbeddingError::ServiceOne(reason) => "Failed to create embedding: "@ + reason@,
        EmbeddingError::Service(reason) => "Failed to create embeddings: "@ + reason@,
        EmbeddingError::NoData => "No embedding data returned"@,
        EmbeddingError::CountMismatch { expected, got } => "Expected "@ + decimal(expected as nat)
            + " embeddings, got "@ + decimal(got as nat),
    }
}

impl EmbeddingError {
    /// The error in words.
    pub fn message(&self) -> (out: String)
        ensures
            out@ == embedding_error_text(*self),
    {
        let mut buf: Vec<char> = Vec::new();
        match self {
            EmbeddingError::Request(reason) => {
                push_str(&mut buf, "Failed to build embedding request: ");
                push_str(&mut buf, reason.as_str());
            },
            EmbeddingError::ServiceOne(reason) => {
                push_str(&mut buf, "Failed to create embedding: ");
                push_str(&mut buf, reason.as_str());
            },
            EmbeddingError::Service(reason) => {
                push_str(&mut buf, "Failed to create embeddings: ");
                push_str(&mut buf, reason.as_str());
            },
            EmbeddingError::NoData => {
                push_str(&mut buf, "No embedding data returned");
            },
            EmbeddingError::CountMismatch { expected, got } => {
                push_str(&mut buf, "Expected ");
                push_decimal(&mut buf, *expected as u64);
                push_str(&mut buf, " embeddings, got ");
                push_decimal(&mut buf, *got as u64);
            },
        }
        assert(buf@ =~= embedding_error_text(*self));
        string_of(buf.as_slice())
    }
}

/// What to do with a batch of texts.
#[derive(Debug, Clone, Copy, PartialEq, Eq, Structural)]
pub enum BatchPlan {
    /// There is no text: the result is empty and the service is not asked.
    Empty,
    /// The service is asked once, for one vector for each text.
    Request,
}

/// What to do with a batch of `count` texts: the service is asked unless
/// there is no text.
pub fn plan_batch(count: usize) -> (plan: BatchPlan)
    ensures
        plan == if count == 0 {
            BatchPlan::Empty
        } else {
            BatchPlan::Request
        },
{
    if count == 0 {
        BatchPlan::Empty
    } else {
        BatchPlan::Request
    }
}

/// Which vector of an answer to a single text is taken: the first, if
/// there is one.
pub fn first_vector(count: usize) -> (r: Result<usize, EmbeddingError>)
    ensures
        count > 0 ==> r == Ok::<usize, EmbeddingError>(0),
        count == 0 ==> r == Err::<usize, EmbeddingError>(EmbeddingError::NoData),
{
    if count == 0 {
        Err(EmbeddingError::NoData)
    } else {
        Ok(0)
    }
}

/// Whether place `i` comes before place `j` by the tags of the service: its
/// tag is smaller, or equal and it came first.
pub open spec fn tag_before(tags: Seq<u32>, i: int, j: int) -> bool {
    tags[i] < tags[j] || (tags[i] == tags[j] && i < j)
}

/// Whether `order` lists every place of `tags` once, by rising tag, places
/// with the same tag in the order in which they came.
pub open spec fn is_tag_order(tags: Seq<u32>, order: Seq<usize>) -> bool {
    &&& order.len() == tags.len()
    &&& forall|k: int| 0 <= k < order.len() ==> (#[trigger] order[k]) < tags.len()
    &&& forall|j: usize| j < tags.len() ==> #[trigger] order.contains(j)
    &&& forall|a: int, b: int|
        0 <= a < b < order.len() ==> tag_before(tags, #[trigger] order[a] as int, #[trigger] order[b] as int)
}

/// The places of `tags` by rising tag, places with the same tag in the
/// order in which they came.
pub fn order_by_tag(tags: &[u32]) -> (order: Vec<usize>)
    ensures
        is_tag_order(tags@, order@),
{
    let n = tags.len();
    let mut order: Vec<usize> = Vec::new();
    let mut i: usize = 0;
    while i < n
        invariant
            n == tags@.len(),
            i <= n,
            order@.len() == i,
            forall|k: int| 0 <= k < order@.len() ==> (#[trigger] order@[k]) < i,
            forall|j: usize| j < i ==> #[trigger] order@.contains(j),
            forall|a: int, b: int|
                0 <= a < b < order@.len() ==> tag_before(
                    tags@,
                    #[trigger] order@[a] as int,
                    #[trigger] order@[b] as int,
                ),
        decreases n - i,
    {
        let tag = tags[i];
        let mut p: usize = order.len();
        while p > 0 && tags[order[p - 1]] > tag
            invariant
                p <= order@.len(),
                n == tags@.len(),
                i < n,
                tag == tags@[i as int],
                forall|k: int| 0 <= k < order@.len() ==> (#[trigger] order@[k]) < i,
                forall|k: int| p <= k < order@.len() ==> tags@[(#[trigger] order@[k]) as int] > tag,
            decreases p,
        {
            p -= 1;
        }
        let ghost before = order@;
        order.insert(p, i);
        proof {
            assert forall|a: int, b: int| 0 <= a < b < order@.len() implies tag_before(
                tags@,
                #[trigger] order@[a] as int,
                #[trigger] order@[b] as int,
            ) by {
                if b < p {
                    assert(order@[a] == before[a] && order@[b] == before[b]);
                } else if b == p {
                    assert(order@[a] == before[a]);
                    if a < p - 1 {
                        assert(tag_before(tags@, before[a] as int, before[p - 1] as int));
                    }
                } else if a < p {
                    assert(order@[a] == before[a] && order@[b] == before[b - 1]);
                } else if a == p {
                    assert(order@[b] == before[b - 1]);
                } else {
                    assert(order@[a] == before[a - 1] && order@[b] == before[b - 1]);
                }
            }
            assert forall|k: int| 0 <= k < order@.len() implies (#[trigger] order@[k]) < i + 1 by {
                if k < p {
                    assert(order@[k] == before[k]);
                } else if k > p {
                    assert(order@[k] == before[k - 1]);
                }
            }
            assert forall|j: usize| j < i + 1 implies #[trigger] order@.contains(j) by {
                if j == i {
                    assert(order@[p as int] == i);
                } else {
                    assert(before.contains(j));
                    let k = choose|k: int| 0 <= k < before.len() && before[k] == j;
                    if k < p {
                        assert(order@[k] == before[k]);
                    } else {
                        assert(order@[k + 1] == before[k]);
                    }
                }
            }
        }
        i += 1;
    }
    order
}

/// What the answer of the service to a batch of `expected` texts amounts
/// to, where `tags` holds, for each vector of the answer, the place of its
/// text in the batch as the service names it.
///
/// The answer is accepted if and only if it holds one vector for each text.
/// The result then lists the places of the answer in the order in which
/// their vectors are handed on: by rising tag.
pub fn arrange_batch(expected: usize, tags: &[u32]) -> (r: Result<Vec<usize>, EmbeddingError>)
    ensures
        r is Ok <==> tags@.len() == expected,
        r matches Ok(order) ==> order@.len() == expected && is_tag_order(tags@, order@),
        r matches Err(e) ==> e == (EmbeddingError::CountMismatch { expected, got: tags.len() }),
{
    if tags.len() != expected {
        return Err(EmbeddingError::CountMismatch { expected, got: tags.len() });
    }
    Ok(order_by_tag(tags))
}

/// Rising tags that are all different and all below `n`, `n` of them, are
/// the numbers from 0 in order.
proof fn lemma_rising_tags(values: Seq<int>, k: int)
    requires
        forall|a: int, b: int| 0 <= a < b < values.len() ==> #[trigger] values[a] < #[trigger] values[b],
        forall|a: int| 0 <= a < values.len() ==> 0 <= #[trigger] values[a] < values.len(),
        0 <= k < values.len(),
    ensures
        values[k] == k,
{
    lemma_rising_low(values, k);
    lemma_rising_high(values, k);
}

proof fn lemma_rising_low(values: Seq<int>, k: int)
    requires
        forall|a: int, b: int| 0 <= a < b < values.len() ==> #[trigger] values[a] < #[trigger] values[b],
        forall|a: int| 0 <= a < values.len() ==> 0 <= #[trigger] values[a] < values.len(),
        0 <= k < values.len(),
    ensures
        values[k] >= k,
    decreases k,
{
    if k > 0 {
        lemma_rising_low(values, k - 1);
        assert(values[k - 1] < values[k]);
    }
}

proof fn lemma_rising_high(values: Seq<int>, k: int)
    requires
        forall|a: int, b: int| 0 <= a < b < values.len() ==> #[trigger] values[a] < #[trigger] values[b],
        forall|a: int| 0 <= a < values.len() ==> 0 <= #[trigger] values[a] < values.len(),
        0 <= k < values.len(),
    ensures
        values[k] <= k,
    decreases values.len() - k,
{
    if k < values.len() - 1 {
        lemma_rising_high(values, k + 1);
        assert(values[k] < values[k + 1]);
    }
}

/// The vectors of a batch come back in the order of the texts: where the
/// service tags each vector with the place of its text, each place once,
/// the vector handed on at place `k` is the one tagged `k`.
pub proof fn lemma_batch_keeps_order(tags: Seq<u32>, order: Seq<usize>)
    requires
        is_tag_order(tags, order),
        forall|i: int| 0 <= i < tags.len() ==> (#[trigger] tags[i]) < tags.len(),
        forall|i: int, j: int| 0 <= i < j < tags.len() ==> #[trigger] tags[i] != #[trigger] tags[j],
    ensures
        forall|k: int| 0 <= k < order.len() ==> tags[(#[trigger] order[k]) as int] == k,
{
    let values = Seq::new(order.len(), |k: int| tags[order[k] as int] as int);
    assert forall|a: int, b: int| 0 <= a < b < values.len() implies #[trigger] values[a]
        < #[trigger] values[b] by {
        assert(tag_before(tags, order[a] as int, order[b] as int));
        let i = order[a] as int;
        let j = order[b] as int;
        if tags[i] == tags[j] {
            assert(i < j);
        }
    }
    assert forall|k: int| 0 <= k < order.len() implies tags[(#[trigger] order[k]) as int] == k by {
        lemma_rising_tags(values, k);
        assert(values[k] == tags[order[k] as int]);
    }
}

} // verus!
