//! Ranking stored chunks against a query.
//!
//! Similarities are numbers with a fraction. Here each stands as its score
//! key: an integer that orders as the number does. The caller turns a
//! number into its key before a search and keeps the number beside it.

use vstd::prelude::*;

verus! {

/// Fewest neighbours that the vector index is asked for.
pub const MIN_NEIGHBORS: u32 = 50;

/// How many neighbours the vector index is asked for, for each result that
/// is wanted: some of them belong to other games.
pub const NEIGHBORS_PER_RESULT: u32 = 3;

/// The score key of 0.5, the least similarity of a result where the caller
/// names none.
pub const DEFAULT_SIMILARITY_THRESHOLD: i64 = 0x3FE0_0000_0000_0000;

/// The score key of 0.3 in single precision, the least similarity of a
/// chunk that is handed to the language model as context.
pub const CHAT_SIMILARITY_THRESHOLD: i64 = 0x3FD3_3333_4000_0000;

/// Chunks handed to the language model as context, at most.
pub const CHAT_CONTEXT_LIMIT: u32 = 5;

/// Results of a search over the rules where the caller names no number.
pub const RULES_SEARCH_LIMIT: usize = 5;

/// The score key of 0, the least similarity in a search over the rules: every
/// chunk that is not opposed to the query is a result.
pub const RULES_SEARCH_THRESHOLD: i64 = 0;

/// The score key of the number whose double-precision bit pattern is
/// `bits`: its magnitude bits read as an integer, negative where the sign
/// bit is set. Both zeros have key 0, and of two numbers the greater has
/// the greater key.
pub open spec fn score_key_of(bits: u64) -> int {
    let magnitude = (bits & 0x7fff_ffff_ffff_ffff) as int;
    if bits & 0x8000_0000_0000_0000 == 0 {
        magnitude
    } else {
        -magnitude
    }
}

/// The score key of the number whose double-precision bit pattern is `bits`.
pub fn score_key(bits: u64) -> (key: i64)
    ensures
        key == score_key_of(bits),
{
    let magnitude: u64 = bits & 0x7fff_ffff_ffff_ffff;
    assert(magnitude <= 0x7fff_ffff_ffff_ffff) by (bit_vector)
        requires
            magnitude == bits & 0x7fff_ffff_ffff_ffff,
    ;
    if bits & 0x8000_0000_0000_0000 == 0 {
        magnitude as i64
    } else {
        -(magnitude as i64)
    }
}

/// Whether the sign bit of a bit pattern is set.
pub open spec fn sign_set(bits: u64) -> bool {
    bits & 0x8000_0000_0000_0000 != 0
}

/// Score keys order bit patterns as numbers in sign-and-magnitude form are
/// ordered: among patterns without the sign bit the greater pattern has the
/// greater key, among patterns with it the smaller, and no pattern with the
/// sign bit has a greater key than one without.
pub proof fn lemma_score_key_order(a: u64, b: u64)
    ensures
        !sign_set(a) && !sign_set(b) ==> (score_key_of(a) <= score_key_of(b) <==> a <= b),
        sign_set(a) && sign_set(b) ==> (score_key_of(a) <= score_key_of(b) <==> a >= b),
        sign_set(a) && !sign_set(b) ==> score_key_of(a) <= 0 <= score_key_of(b),
{
    assert(a & 0x8000_0000_0000_0000 == 0 ==> a & 0x7fff_ffff_ffff_ffff == a) by (bit_vector);
    assert(b & 0x8000_0000_0000_0000 == 0 ==> b & 0x7fff_ffff_ffff_ffff == b) by (bit_vector);
    assert(a & 0x8000_0000_0000_0000 != 0 ==> a == (a & 0x7fff_ffff_ffff_ffff)
        + 0x8000_0000_0000_0000) by (bit_vector);
    assert(b & 0x8000_0000_0000_0000 != 0 ==> b == (b & 0x7fff_ffff_ffff_ffff)
        + 0x8000_0000_0000_0000) by (bit_vector);
}

/// How many neighbours to ask the vector index for when `limit` results
/// are wanted.
pub open spec fn neighbors_wanted(limit: u32) -> int {
    if limit * NEIGHBORS_PER_RESULT >= MIN_NEIGHBORS {
        limit * NEIGHBORS_PER_RESULT
    } else {
        MIN_NEIGHBORS as int
    }
}

/// How many neighbours to ask the vector index for when `limit` results
/// are wanted.
pub fn search_limit(limit: u32) -> (wanted: u32)
    requires
        limit * NEIGHBORS_PER_RESULT <= u32::MAX,
    ensures
        wanted == neighbors_wanted(limit),
{
    let wanted = limit * NEIGHBORS_PER_RESULT;
    if wanted >= MIN_NEIGHBORS {
        wanted
    } else {
        MIN_NEIGHBORS
    }
}

/// How a search is carried out.
#[derive(Debug, Clone, Copy, PartialEq, Eq, Structural)]
pub enum SearchBackend {
    /// The vector index names the nearest chunks, and they are sifted.
    Index,
    /// Every stored vector of the game is held against the query.
    Scan,
}

/// How a search is carried out: with the vector index where there is one,
/// and by going through all stored vectors of the game where there is none.
pub fn search_backend(index_available: bool) -> (backend: SearchBackend)
    ensures
        backend == if index_available {
            SearchBackend::Index
        } else {
            SearchBackend::Scan
        },
{
    if index_available {
        SearchBackend::Index
    } else {
        SearchBackend::Scan
    }
}

// ---------------------------------------------------------------------------
// Writing a batch
// ---------------------------------------------------------------------------

/// What the store is told next while a batch of chunks is written inside
/// one transaction.
#[derive(Debug, Clone, Copy, PartialEq, Eq, Structural)]
pub enum BatchAction {
    /// Insert the chunk at this place of the batch, with its vector.
    Insert(usize),
    /// Make all inserts of the batch lasting.
    Commit,
    /// Undo all inserts of the batch.
    Rollback,
}

/// How an insert went.
#[derive(Debug, Clone, Copy, PartialEq, Eq, Structural)]
pub enum BatchEvent {
    /// The chunk is inserted; with the id of its row.
    Inserted(i64),
    /// The vector could not be written out, or the store refused.
    Failed,
}

/// A batch that is being written.
pub struct BatchInsert {
    count: usize,
    ids: Vec<i64>,
    failed: bool,
}

/// A batch that is being written, as the contracts see it.
pub struct BatchView {
    /// The number of chunks of the batch.
    pub count: nat,
    /// The ids of the rows inserted so far, in the order of the batch.
    pub ids: Seq<i64>,
    /// Whether an insert has failed.
    pub failed: bool,
}

/// What the store is told next.
pub open spec fn batch_action(v: BatchView) -> BatchAction {
    if v.failed {
        BatchAction::Rollback
    } else if v.ids.len() < v.count {
        BatchAction::Insert(v.ids.len() as usize)
    } else {
        BatchAction::Commit
    }
}

/// The batch after the insert that was asked for went as `event` tells.
/// What is reported when no insert was asked for changes nothing.
pub open spec fn batch_after(v: BatchView, event: BatchEvent) -> BatchView {
    if batch_action(v) is Insert {
        match event {
            BatchEvent::Inserted(id) => BatchView { ids: v.ids.push(id), ..v },
            BatchEvent::Failed => BatchView { failed: true, ..v },
        }
    } else {
        v
    }
}

/// The number of chunks of the batch that are in the store once the
/// transaction has ended as asked for: all after a commit, none after a
/// rollback.
pub open spec fn rows_kept(v: BatchView) -> nat {
    if batch_action(v) is Commit {
        v.count
    } else {
        0
    }
}

/// The batch after a run of inserts that went as `events` tell.
pub open spec fn batch_after_all(v: BatchView, events: Seq<BatchEvent>) -> BatchView
    decreases events.len(),
{
    if events.len() == 0 {
        v
    } else {
        batch_after(batch_after_all(v, events.drop_last()), events.last())
    }
}

/// All or nothing: however the inserts of a batch go, a commit is asked
/// for only once every chunk is inserted and none has failed, and then all
/// chunks are kept; and once an insert has failed a rollback is asked for,
/// whatever is reported after, and no chunk is kept.
pub proof fn lemma_batch_all_or_nothing(count: nat, events: Seq<BatchEvent>)
    ensures
        ({
            let start = BatchView { count, ids: Seq::empty(), failed: false };
            let end = batch_after_all(start, events);
            &&& end.count == count
            &&& end.ids.len() <= count
            &&& end.ids.len() <= events.len()
            &&& rows_kept(end) == count || rows_kept(end) == 0
            &&& batch_action(end) is Commit ==> end.ids.len() == count && !end.failed && forall|
                k: int,
            |
                0 <= k < count ==> (#[trigger] events[k]) == BatchEvent::Inserted(end.ids[k])
            &&& (exists|k: int|
                0 <= k < events.len() && k < count && (#[trigger] events[k]) == BatchEvent::Failed
                    && forall|j: int| 0 <= j < k ==> (#[trigger] events[j]) is Inserted)
                ==> batch_action(end) is Rollback && rows_kept(end) == 0
        }),
    decreases events.len(),
{
    let start = BatchView { count, ids: Seq::empty(), failed: false };
    lemma_batch_run(count, events);
    let end = batch_after_all(start, events);
    if exists|k: int|
        0 <= k < events.len() && k < count && (#[trigger] events[k]) == BatchEvent::Failed
            && forall|j: int| 0 <= j < k ==> (#[trigger] events[j]) is Inserted {
        let k = choose|k: int|
            0 <= k < events.len() && k < count && (#[trigger] events[k]) == BatchEvent::Failed
                && forall|j: int| 0 <= j < k ==> (#[trigger] events[j]) is Inserted;
        if !end.failed {
            // without a failure the first inserts were all reported as done
            if end.ids.len() > k {
                assert(events[k] == BatchEvent::Inserted(end.ids[k]));
            } else {
                assert(events[end.ids.len() as int] is Inserted);
            }
        }
    }
}

proof fn lemma_batch_run(count: nat, events: Seq<BatchEvent>)
    ensures
        ({
            let start = BatchView { count, ids: Seq::empty(), failed: false };
            let end = batch_after_all(start, events);
            &&& end.count == count
            &&& end.ids.len() <= count
            &&& end.ids.len() <= events.len()
            &&& forall|k: int|
                0 <= k < end.ids.len() ==> (#[trigger] events[k]) == BatchEvent::Inserted(end.ids[k])
            &&& !end.failed && end.ids.len() < count ==> end.ids.len() == events.len()
            &&& end.failed ==> end.ids.len() < events.len() && events[end.ids.len() as int]
                == BatchEvent::Failed
        }),
    decreases events.len(),
{
    if events.len() > 0 {
        let head = events.drop_last();
        lemma_batch_run(count, head);
        let start = BatchView { count, ids: Seq::empty(), failed: false };
        let before = batch_after_all(start, head);
        let end = batch_after_all(start, events);
        assert forall|k: int| 0 <= k < end.ids.len() implies (#[trigger] events[k])
            == BatchEvent::Inserted(end.ids[k]) by {
            if k < before.ids.len() {
                assert(head[k] == events[k]);
            }
        }
        if end.failed {
            if before.failed {
                assert(head[before.ids.len() as int] == events[before.ids.len() as int]);
            }
        }
    }
}

impl BatchInsert {
    /// Whether no more rows are inserted than the batch has chunks.
    pub closed spec fn wf(&self) -> bool {
        self.ids@.len() <= self.count
    }

    /// The batch as the contracts see it.
    pub closed spec fn view(&self) -> BatchView {
        BatchView { count: self.count as nat, ids: self.ids@, failed: self.failed }
    }

    /// A batch of `count` chunks of which none is inserted yet.
    pub fn new(count: usize) -> (r: Self)
        ensures
            r.wf(),
            r@ == (BatchView { count: count as nat, ids: Seq::empty(), failed: false }),
    {
        BatchInsert { count, ids: Vec::new(), failed: false }
    }

    /// What to tell the store next.
    pub fn next_action(&self) -> (action: BatchAction)
        requires
            self.wf(),
        ensures
            action == batch_action(self@),
    {
        if self.failed {
            BatchAction::Rollback
        } else if self.ids.len() < self.count {
            BatchAction::Insert(self.ids.len())
        } else {
            BatchAction::Commit
        }
    }

    /// Takes note of how the insert that was asked for went.
    pub fn record(&mut self, event: BatchEvent)
        requires
            old(self).wf(),
        ensures
            final(self).wf(),
            final(self)@ == batch_after(old(self)@, event),
    {
        if !self.failed && self.ids.len() < self.count {
            match event {
                BatchEvent::Inserted(id) => {
                    self.ids.push(id);
                },
                BatchEvent::Failed => {
                    self.failed = true;
                },
            }
        }
    }

    /// The ids of the rows of the batch, in its order, if the batch is to
    /// be committed; nothing if it is still under way or has failed.
    pub fn into_ids(self) -> (ids: Option<Vec<i64>>)
        requires
            self.wf(),
        ensures
            ids is Some <==> batch_action(self@) is Commit,
            ids matches Some(v) ==> v@ == self@.ids && v@.len() == self@.count,
    {
        if !self.failed && self.ids.len() == self.count {
            Some(self.ids)
        } else {
            None
        }
    }
}

// ---------------------------------------------------------------------------
// With a vector index
// ---------------------------------------------------------------------------

/// A stored chunk as the vector index reports it: its row and the score key
/// of its similarity to the query.
#[derive(Debug, Clone, Copy, PartialEq, Eq)]
pub struct Neighbor {
    pub rowid: i64,
    pub score: i64,
}

/// A result: the place of a neighbour in the list of neighbours, and the
/// place of its row in the list of rows.
#[derive(Debug, Clone, Copy, PartialEq, Eq)]
pub struct Hit {
    pub neighbor: usize,
    pub row: usize,
}

/// The place of the first row with the given id among `ids[from..]`, if
/// there is one.
pub open spec fn first_row_from(ids: Seq<i64>, id: i64, from: int) -> Option<int>
    decreases ids.len() - from,
{
    if from < 0 || from >= ids.len() {
        None
    } else if ids[from] == id {
        Some(from)
    } else {
        first_row_from(ids, id, from + 1)
    }
}

/// The place of the first row with the given id, if there is one.
pub open spec fn first_row(ids: Seq<i64>, id: i64) -> Option<int> {
    first_row_from(ids, id, 0)
}

/// Whether neighbour `i` is a result: a row of the game has its id, and its
/// similarity is at least the threshold.
pub open spec fn is_hit(
    neighbors: Seq<Neighbor>,
    row_ids: Seq<i64>,
    threshold: i64,
    i: int,
) -> bool {
    first_row(row_ids, neighbors[i].rowid) is Some && neighbors[i].score >= threshold
}

/// Whether neighbour `i` comes before neighbour `j` among the results: it
/// is more similar, or as similar and of an earlier row. Where the index
/// names one row twice with one similarity, the first mention comes first.
pub open spec fn comes_before(neighbors: Seq<Neighbor>, i: int, j: int) -> bool {
    let a = neighbors[i];
    let b = neighbors[j];
    a.score > b.score || (a.score == b.score && (a.rowid < b.rowid || (a.rowid == b.rowid && i
        < j)))
}

/// The result that neighbour `i` stands for.
pub open spec fn hit_of(neighbors: Seq<Neighbor>, row_ids: Seq<i64>, i: int) -> Hit {
    Hit { neighbor: i as usize, row: first_row(row_ids, neighbors[i].rowid)->0 as usize }
}

/// Whether `hits` lists, best first, the best `limit` of the neighbours that
/// are results, or all of them if they are fewer.
pub open spec fn is_selection(
    neighbors: Seq<Neighbor>,
    row_ids: Seq<i64>,
    threshold: i64,
    limit: int,
    hits: Seq<Hit>,
) -> bool {
    &&& hits.len() <= limit
    &&& forall|k: int|
        0 <= k < hits.len() ==> {
            &&& (#[trigger] hits[k]).neighbor < neighbors.len()
            &&& is_hit(neighbors, row_ids, threshold, hits[k].neighbor as int)
            &&& hits[k] == hit_of(neighbors, row_ids, hits[k].neighbor as int)
        }
    &&& forall|a: int, b: int|
        0 <= a < b < hits.len() ==> comes_before(
            neighbors,
            (#[trigger] hits[a]).neighbor as int,
            (#[trigger] hits[b]).neighbor as int,
        )
    &&& forall|i: int|
        0 <= i < neighbors.len() && #[trigger] is_hit(neighbors, row_ids, threshold, i)
            ==> hits.contains(hit_of(neighbors, row_ids, i)) || (hits.len() == limit && forall|
            k: int,
        |
            0 <= k < hits.len() ==> comes_before(neighbors, (#[trigger] hits[k]).neighbor as int, i))
}

/// The place of the first row with the given id, if there is one.
pub fn find_row(row_ids: &[i64], id: i64) -> (r: Option<usize>)
    ensures
        match r {
            Some(j) => first_row(row_ids@, id) == Some(j as int) && j < row_ids@.len()
                && row_ids@[j as int] == id,
            None => first_row(row_ids@, id) is None,
        },
{
    let mut j: usize = 0;
    while j < row_ids.len()
        invariant
            j <= row_ids.len(),
            first_row_from(row_ids@, id, j as int) == first_row(row_ids@, id),
        decreases row_ids.len() - j,
    {
        if row_ids[j] == id {
            return Some(j);
        }
        j += 1;
    }
    None
}

/// What a search with a vector index returns: of the neighbours, those that
/// belong to the game and are similar enough, by falling similarity, those
/// of equal similarity by rising row, and of these the first `limit`.
///
/// `neighbors` are the nearest stored chunks of any game, as the index
/// names them; `row_ids` are the ids of those among them that belong to the
/// game. Rows are numbered as they are stored, so of two results of equal
/// similarity the one that was stored first comes first. There are never
/// more than `limit` results, and every result is at least as similar as
/// `threshold`.
pub fn select_hits(neighbors: &[Neighbor], row_ids: &[i64], threshold: i64, limit: usize) -> (out:
    Vec<Hit>)
    ensures
        is_selection(neighbors@, row_ids@, threshold, limit as int, out@),
        out@.len() <= limit,
        forall|k: int|
            0 <= k < out@.len() ==> {
                &&& (#[trigger] out@[k]).neighbor < neighbors@.len()
                &&& out@[k].row < row_ids@.len()
                &&& row_ids@[out@[k].row as int] == neighbors@[out@[k].neighbor as int].rowid
                &&& neighbors@[out@[k].neighbor as int].score >= threshold
            },
        forall|a: int, b: int|
            0 <= a < b < out@.len() ==> {
                let first = neighbors@[(#[trigger] out@[a]).neighbor as int];
                let second = neighbors@[(#[trigger] out@[b]).neighbor as int];
                first.score > second.score || (first.score == second.score && first.rowid
                    <= second.rowid)
            },
{
    let n = neighbors.len();
    let mut out: Vec<Hit> = Vec::new();
    let mut i: usize = 0;
    while i < n
        invariant
            n == neighbors@.len(),
            i <= n,
            forall|k: int|
                0 <= k < out@.len() ==> {
                    &&& (#[trigger] out@[k]).neighbor < i
                    &&& is_hit(neighbors@, row_ids@, threshold, out@[k].neighbor as int)
                    &&& out@[k] == hit_of(neighbors@, row_ids@, out@[k].neighbor as int)
                    &&& out@[k].row < row_ids@.len()
                    &&& row_ids@[out@[k].row as int] == neighbors@[out@[k].neighbor as int].rowid
                },
            forall|a: int, b: int|
                0 <= a < b < out@.len() ==> comes_before(
                    neighbors@,
                    (#[trigger] out@[a]).neighbor as int,
                    (#[trigger] out@[b]).neighbor as int,
                ),
            forall|j: int|
                0 <= j < i && #[trigger] is_hit(neighbors@, row_ids@, threshold, j)
                    ==> out@.contains(hit_of(neighbors@, row_ids@, j)),
        decreases n - i,
    {
        let score = neighbors[i].score;
        let rowid = neighbors[i].rowid;
        if score >= threshold {
            match find_row(row_ids, rowid) {
                Some(row) => {
                    let mut p: usize = out.len();
                    while p > 0 && (neighbors[out[p - 1].neighbor].score < score || (
                    neighbors[out[p - 1].neighbor].score == score
                        && neighbors[out[p - 1].neighbor].rowid > rowid))
                        invariant
                            p <= out@.len(),
                            n == neighbors@.len(),
                            i < n,
                            score == neighbors@[i as int].score,
                            rowid == neighbors@[i as int].rowid,
                            forall|k: int| 0 <= k < out@.len() ==> (#[trigger] out@[k]).neighbor < i,
                            forall|k: int|
                                p <= k < out@.len() ==> comes_before(
                                    neighbors@,
                                    i as int,
                                    (#[trigger] out@[k]).neighbor as int,
                                ),
                        decreases p,
                    {
                        p -= 1;
                    }
                    let ghost before = out@;
                    let hit = Hit { neighbor: i, row };
                    assert(hit == hit_of(neighbors@, row_ids@, i as int));
                    assert(is_hit(neighbors@, row_ids@, threshold, i as int));
                    out.insert(p, hit);
                    proof {
                        assert forall|a: int, b: int| 0 <= a < b < out@.len() implies comes_before(
                            neighbors@,
                            (#[trigger] out@[a]).neighbor as int,
                            (#[trigger] out@[b]).neighbor as int,
                        ) by {
                            if b < p {
                                assert(out@[a] == before[a] && out@[b] == before[b]);
                            } else if b == p {
                                assert(out@[a] == before[a]);
                                assert(before[p - 1].neighbor < i);
                                if a < p - 1 {
                                    assert(comes_before(
                                        neighbors@,
                                        before[a].neighbor as int,
                                        before[p - 1].neighbor as int,
                                    ));
                                }
                            } else if a < p {
                                assert(out@[a] == before[a] && out@[b] == before[b - 1]);
                            } else if a == p {
                                assert(out@[b] == before[b - 1]);
                            } else {
                                assert(out@[a] == before[a - 1] && out@[b] == before[b - 1]);
                            }
                        }
                        assert forall|k: int| 0 <= k < out@.len() implies {
                            &&& (#[trigger] out@[k]).neighbor < i + 1
                            &&& is_hit(neighbors@, row_ids@, threshold, out@[k].neighbor as int)
                            &&& out@[k] == hit_of(neighbors@, row_ids@, out@[k].neighbor as int)
                            &&& out@[k].row < row_ids@.len()
                            &&& row_ids@[out@[k].row as int] == neighbors@[out@[k].neighbor as int].rowid
                        } by {
                            if k < p {
                                assert(out@[k] == before[k]);
                            } else if k > p {
                                assert(out@[k] == before[k - 1]);
                            }
                        }
                        assert forall|j: int|
                            0 <= j < i + 1 && #[trigger] is_hit(
                                neighbors@,
                                row_ids@,
                                threshold,
                                j,
                            ) implies out@.contains(hit_of(neighbors@, row_ids@, j)) by {
                            if j == i {
                                assert(out@[p as int] == hit);
                            } else {
                                let wanted = hit_of(neighbors@, row_ids@, j);
                                let k = choose|k: int| 0 <= k < before.len() && before[k] == wanted;
                                if k < p {
                                    assert(out@[k] == before[k]);
                                } else {
                                    assert(out@[k + 1] == before[k]);
                                }
                            }
                        }
                    }
                },
                None => {},
            }
        }
        i += 1;
    }
    let ghost full = out@;
    if out.len() > limit {
        out.truncate(limit);
        proof {
            assert forall|j: int|
                0 <= j < neighbors@.len() && #[trigger] is_hit(
                    neighbors@,
                    row_ids@,
                    threshold,
                    j,
                ) implies out@.contains(hit_of(neighbors@, row_ids@, j)) || (out@.len() == limit
                && forall|k: int|
                0 <= k < out@.len() ==> comes_before(
                    neighbors@,
                    (#[trigger] out@[k]).neighbor as int,
                    j,
                )) by {
                let wanted = hit_of(neighbors@, row_ids@, j);
                let at = choose|at: int| 0 <= at < full.len() && full[at] == wanted;
                if at < limit {
                    assert(out@[at] == full[at]);
                } else {
                    assert forall|k: int| 0 <= k < out@.len() implies comes_before(
                        neighbors@,
                        (#[trigger] out@[k]).neighbor as int,
                        j,
                    ) by {
                        assert(out@[k] == full[k]);
                        assert(comes_before(
                            neighbors@,
                            full[k].neighbor as int,
                            full[at].neighbor as int,
                        ));
                    }
                }
            }
        }
    }
    proof {
        assert forall|a: int, b: int| 0 <= a < b < out@.len() implies ({
            let first = neighbors@[(#[trigger] out@[a]).neighbor as int];
            let second = neighbors@[(#[trigger] out@[b]).neighbor as int];
            first.score > second.score || (first.score == second.score && first.rowid
                <= second.rowid)
        }) by {
            assert(out@[a] == full[a] && out@[b] == full[b]);
            assert(comes_before(neighbors@, full[a].neighbor as int, full[b].neighbor as int));
        }
    }
    out
}

/// A selection never holds more than `limit` results, and every result is
/// at least as similar as the threshold.
pub proof fn lemma_selection_is_bounded(
    neighbors: Seq<Neighbor>,
    row_ids: Seq<i64>,
    threshold: i64,
    limit: int,
    hits: Seq<Hit>,
)
    requires
        is_selection(neighbors, row_ids, threshold, limit, hits),
    ensures
        hits.len() <= limit,
        forall|k: int|
            0 <= k < hits.len() ==> neighbors[(#[trigger] hits[k]).neighbor as int].score
                >= threshold,
{
}

/// A selection falls by similarity, and of two results of equal similarity
/// it lists first the one of the earlier row.
pub proof fn lemma_selection_is_sorted(
    neighbors: Seq<Neighbor>,
    row_ids: Seq<i64>,
    threshold: i64,
    limit: int,
    hits: Seq<Hit>,
)
    requires
        is_selection(neighbors, row_ids, threshold, limit, hits),
    ensures
        forall|a: int, b: int|
            0 <= a < b < hits.len() ==> neighbors[(#[trigger] hits[a]).neighbor as int].score
                >= neighbors[(#[trigger] hits[b]).neighbor as int].score,
        forall|a: int, b: int|
            0 <= a < b < hits.len() && neighbors[(#[trigger] hits[a]).neighbor as int].score
                == neighbors[(#[trigger] hits[b]).neighbor as int].score ==> neighbors[hits[a].neighbor as int].rowid
                <= neighbors[hits[b].neighbor as int].rowid,
{
    assert forall|a: int, b: int| 0 <= a < b < hits.len() implies neighbors[(
    #[trigger] hits[a]).neighbor as int].score >= neighbors[(
    #[trigger] hits[b]).neighbor as int].score by {
        assert(comes_before(neighbors, hits[a].neighbor as int, hits[b].neighbor as int));
    }
    assert forall|a: int, b: int|
        0 <= a < b < hits.len() && neighbors[(#[trigger] hits[a]).neighbor as int].score
            == neighbors[(#[trigger] hits[b]).neighbor as int].score implies neighbors[hits[a].neighbor as int].rowid
        <= neighbors[hits[b].neighbor as int].rowid by {
        assert(comes_before(neighbors, hits[a].neighbor as int, hits[b].neighbor as int));
    }
}

/// There is only one selection.
pub proof fn lemma_selection_is_unique(
    neighbors: Seq<Neighbor>,
    row_ids: Seq<i64>,
    threshold: i64,
    limit: int,
    first: Seq<Hit>,
    second: Seq<Hit>,
)
    requires
        is_selection(neighbors, row_ids, threshold, limit, first),
        is_selection(neighbors, row_ids, threshold, limit, second),
    ensures
        first == second,
{
    lemma_selection_prefix(neighbors, row_ids, threshold, limit, first, second, first.len() as int);
    lemma_selection_prefix(neighbors, row_ids, threshold, limit, second, first, second.len() as int);
    assert(first =~= second);
}

proof fn lemma_selection_prefix(
    neighbors: Seq<Neighbor>,
    row_ids: Seq<i64>,
    threshold: i64,
    limit: int,
    first: Seq<Hit>,
    second: Seq<Hit>,
    upto: int,
)
    requires
        is_selection(neighbors, row_ids, threshold, limit, first),
        is_selection(neighbors, row_ids, threshold, limit, second),
        0 <= upto <= first.len(),
    ensures
        upto <= second.len(),
        forall|k: int| 0 <= k < upto ==> first[k] == second[k],
    decreases upto,
{
    if upto > 0 {
        lemma_selection_prefix(neighbors, row_ids, threshold, limit, first, second, upto - 1);
        let at = upto - 1;
        let x = first[at];
        let i = x.neighbor as int;
        assert(is_hit(neighbors, row_ids, threshold, i));
        // `x` is in `second`, or `second` is full and all of it comes before `x`.
        if second.contains(x) {
            let pos = choose|pos: int| 0 <= pos < second.len() && second[pos] == x;
            if pos < at {
                // `second[pos] == first[pos]` would place `x` twice in `first`.
                assert(first[pos] == second[pos]);
                assert(comes_before(neighbors, first[pos].neighbor as int, first[at].neighbor as int));
            } else if pos > at {
                // `second[at]` comes before `x` and is not among `first[..at]`.
                let y = second[at];
                let j = y.neighbor as int;
                assert(comes_before(neighbors, second[at].neighbor as int, second[pos].neighbor as int));
                assert(is_hit(neighbors, row_ids, threshold, j));
                if first.contains(y) {
                    let q = choose|q: int| 0 <= q < first.len() && first[q] == y;
                    if q < at {
                        assert(second[q] == first[q]);
                        assert(comes_before(
                            neighbors,
                            second[q].neighbor as int,
                            second[at].neighbor as int,
                        ));
                    } else if q > at {
                        assert(comes_before(
                            neighbors,
                            first[at].neighbor as int,
                            first[q].neighbor as int,
                        ));
                    }
                } else {
                    assert(comes_before(neighbors, first[at].neighbor as int, j));
                }
            }
        } else {
            // all of `second` comes before `x`, and `second` holds `limit` results
            assert(second.len() == limit);
            assert(at < second.len());
            let y = second[at];
            let j = y.neighbor as int;
            assert(comes_before(neighbors, second[at].neighbor as int, i));
            assert(is_hit(neighbors, row_ids, threshold, j));
            if first.contains(y) {
                let q = choose|q: int| 0 <= q < first.len() && first[q] == y;
                if q < at {
                    assert(second[q] == first[q]);
                    assert(comes_before(
                        neighbors,
                        second[q].neighbor as int,
                        second[at].neighbor as int,
                    ));
                } else if q > at {
                    assert(comes_before(
                        neighbors,
                        first[at].neighbor as int,
                        first[q].neighbor as int,
                    ));
                }
            } else {
                assert(comes_before(neighbors, first[at].neighbor as int, j));
            }
        }
    }
}

/// The results among the first `n` neighbours, in the order of the
/// neighbours.
pub open spec fn hits_among(
    neighbors: Seq<Neighbor>,
    row_ids: Seq<i64>,
    threshold: i64,
    n: int,
) -> Seq<Hit>
    decreases n,
{
    if n <= 0 {
        Seq::empty()
    } else if is_hit(neighbors, row_ids, threshold, n - 1) {
        hits_among(neighbors, row_ids, threshold, n - 1).push(hit_of(neighbors, row_ids, n - 1))
    } else {
        hits_among(neighbors, row_ids, threshold, n - 1)
    }
}

/// The first `limit` results among all neighbours, in the order of the
/// neighbours.
pub open spec fn first_hits(
    neighbors: Seq<Neighbor>,
    row_ids: Seq<i64>,
    threshold: i64,
    limit: int,
) -> Seq<Hit> {
    let all = hits_among(neighbors, row_ids, threshold, neighbors.len() as int);
    if all.len() <= limit {
        all
    } else {
        all.take(limit)
    }
}

/// Whether the neighbours are named best first: by falling similarity,
/// those of equal similarity by rising row.
pub open spec fn named_best_first(neighbors: Seq<Neighbor>) -> bool {
    forall|i: int, j: int| 0 <= i < j < neighbors.len() ==> comes_before(neighbors, i, j)
}

proof fn lemma_hits_among(neighbors: Seq<Neighbor>, row_ids: Seq<i64>, threshold: i64, n: int)
    requires
        0 <= n <= neighbors.len() <= usize::MAX,
    ensures
        ({
            let hits = hits_among(neighbors, row_ids, threshold, n);
            &&& forall|k: int|
                0 <= k < hits.len() ==> {
                    &&& (#[trigger] hits[k]).neighbor < n
                    &&& is_hit(neighbors, row_ids, threshold, hits[k].neighbor as int)
                    &&& hits[k] == hit_of(neighbors, row_ids, hits[k].neighbor as int)
                }
            &&& forall|a: int, b: int|
                0 <= a < b < hits.len() ==> (#[trigger] hits[a]).neighbor < (
                #[trigger] hits[b]).neighbor
            &&& forall|i: int|
                0 <= i < n && #[trigger] is_hit(neighbors, row_ids, threshold, i) ==> hits.contains(
                    hit_of(neighbors, row_ids, i),
                )
        }),
    decreases n,
{
    if n > 0 {
        lemma_hits_among(neighbors, row_ids, threshold, n - 1);
        let before = hits_among(neighbors, row_ids, threshold, n - 1);
        let hits = hits_among(neighbors, row_ids, threshold, n);
        assert forall|i: int|
            0 <= i < n && #[trigger] is_hit(neighbors, row_ids, threshold, i) implies hits.contains(
            hit_of(neighbors, row_ids, i),
        ) by {
            if i == n - 1 {
                assert(hits[before.len() as int] == hit_of(neighbors, row_ids, i));
            } else {
                let k = choose|k: int|
                    0 <= k < before.len() && before[k] == hit_of(neighbors, row_ids, i);
                assert(hits[k] == before[k]);
            }
        }
    }
}

/// Where the index names the neighbours best first, the selection is what
/// is found by going through them in the order of the index and stopping
/// once `limit` results are found.
pub proof fn lemma_selection_keeps_order(
    neighbors: Seq<Neighbor>,
    row_ids: Seq<i64>,
    threshold: i64,
    limit: int,
)
    requires
        neighbors.len() <= usize::MAX,
        named_best_first(neighbors),
        0 <= limit,
    ensures
        is_selection(
            neighbors,
            row_ids,
            threshold,
            limit,
            first_hits(neighbors, row_ids, threshold, limit),
        ),
{
    let n = neighbors.len() as int;
    let all = hits_among(neighbors, row_ids, threshold, n);
    let hits = first_hits(neighbors, row_ids, threshold, limit);
    lemma_hits_among(neighbors, row_ids, threshold, n);
    assert forall|k: int| 0 <= k < hits.len() implies (#[trigger] hits[k]) == all[k] by {}
    assert forall|a: int, b: int| 0 <= a < b < hits.len() implies comes_before(
        neighbors,
        (#[trigger] hits[a]).neighbor as int,
        (#[trigger] hits[b]).neighbor as int,
    ) by {
        assert(all[a].neighbor < all[b].neighbor);
    }
    assert forall|i: int|
        0 <= i < neighbors.len() && #[trigger] is_hit(
            neighbors,
            row_ids,
            threshold,
            i,
        ) implies hits.contains(hit_of(neighbors, row_ids, i)) || (hits.len() == limit && forall|
        k: int,
    |
        0 <= k < hits.len() ==> comes_before(neighbors, (#[trigger] hits[k]).neighbor as int, i)) by {
        let at = choose|at: int| 0 <= at < all.len() && all[at] == hit_of(neighbors, row_ids, i);
        if at < hits.len() {
            assert(hits[at] == all[at]);
        } else {
            assert forall|k: int| 0 <= k < hits.len() implies comes_before(
                neighbors,
                (#[trigger] hits[k]).neighbor as int,
                i,
            ) by {
                assert(hits[k] == all[k]);
                assert(all[k].neighbor < all[at].neighbor);
            }
        }
    }
}

// ---------------------------------------------------------------------------
// Without a vector index
// ---------------------------------------------------------------------------

/// Whether candidate `i` is similar enough to be a result.
pub open spec fn qualifies(scores: Seq<i64>, threshold: i64, i: int) -> bool {
    0 <= i < scores.len() && scores[i] >= threshold
}

/// Whether candidate `i` ranks before candidate `j`: it is more similar,
/// or as similar and stored earlier.
pub open spec fn ranks_before(scores: Seq<i64>, i: int, j: int) -> bool {
    scores[i] > scores[j] || (scores[i] == scores[j] && i < j)
}

/// Whether `order` lists, best first, the best `limit` of the candidates
/// that are similar enough, or all of them if they are fewer.
pub open spec fn is_ranking(
    scores: Seq<i64>,
    threshold: i64,
    limit: int,
    order: Seq<usize>,
) -> bool {
    &&& order.len() <= limit
    &&& forall|k: int| 0 <= k < order.len() ==> qualifies(scores, threshold, #[trigger] order[k] as int)
    &&& forall|a: int, b: int|
        0 <= a < b < order.len() ==> ranks_before(
            scores,
            #[trigger] order[a] as int,
            #[trigger] order[b] as int,
        )
    &&& forall|j: int| #[trigger]
        qualifies(scores, threshold, j) ==> order.contains(j as usize) || (order.len() == limit
            && forall|k: int|
            0 <= k < order.len() ==> ranks_before(scores, #[trigger] order[k] as int, j))
}

/// What a search without a vector index returns, given the score key of
/// each stored chunk of the game in the order in which they were stored: the
/// places of the chunks that are at least as similar as `threshold`, by
/// falling similarity, those of equal similarity in the order in which they
/// were stored, and of these the first `limit`.
pub fn rank_by_score(scores: &[i64], threshold: i64, limit: usize) -> (order: Vec<usize>)
    ensures
        is_ranking(scores@, threshold, limit as int, order@),
{
    let n = scores.len();
    let mut order: Vec<usize> = Vec::new();
    let mut i: usize = 0;
    while i < n
        invariant
            n == scores@.len(),
            i <= n,
            forall|k: int|
                0 <= k < order@.len() ==> qualifies(scores@, threshold, #[trigger] order@[k] as int)
                    && order@[k] < i,
            forall|a: int, b: int|
                0 <= a < b < order@.len() ==> ranks_before(
                    scores@,
                    #[trigger] order@[a] as int,
                    #[trigger] order@[b] as int,
                ),
            forall|j: int|
                0 <= j < i && #[trigger] qualifies(scores@, threshold, j) ==> order@.contains(
                    j as usize,
                ),
        decreases n - i,
    {
        let score = scores[i];
        if score >= threshold {
            let mut p: usize = order.len();
            while p > 0 && scores[order[p - 1]] < score
                invariant
                    p <= order@.len(),
                    n == scores@.len(),
                    i < n,
                    score == scores@[i as int],
                    forall|k: int| 0 <= k < order@.len() ==> (#[trigger] order@[k]) < i,
                    forall|k: int|
                        p <= k < order@.len() ==> scores@[(#[trigger] order@[k]) as int] < score,
                decreases p,
            {
                p -= 1;
            }
            let ghost before = order@;
            order.insert(p, i);
            proof {
                assert forall|a: int, b: int| 0 <= a < b < order@.len() implies ranks_before(
                    scores@,
                    #[trigger] order@[a] as int,
                    #[trigger] order@[b] as int,
                ) by {
                    if b < p {
                        assert(order@[a] == before[a] && order@[b] == before[b]);
                    } else if b == p {
                        assert(order@[a] == before[a]);
                        if a < p - 1 {
                            assert(ranks_before(scores@, before[a] as int, before[p - 1] as int));
                        }
                    } else if a < p {
                        assert(order@[a] == before[a] && order@[b] == before[b - 1]);
                    } else if a == p {
                        assert(order@[b] == before[b - 1]);
                    } else {
                        assert(order@[a] == before[a - 1] && order@[b] == before[b - 1]);
                    }
                }
                assert forall|k: int| 0 <= k < order@.len() implies qualifies(
                    scores@,
                    threshold,
                    #[trigger] order@[k] as int,
                ) && order@[k] < i + 1 by {
                    if k < p {
                        assert(order@[k] == before[k]);
                    } else if k > p {
                        assert(order@[k] == before[k - 1]);
                    }
                }
                assert forall|j: int|
                    0 <= j < i + 1 && #[trigger] qualifies(
                        scores@,
                        threshold,
                        j,
                    ) implies order@.contains(j as usize) by {
                    if j == i {
                        assert(order@[p as int] == i);
                    } else {
                        let k = choose|k: int| 0 <= k < before.len() && before[k] == j as usize;
                        if k < p {
                            assert(order@[k] == before[k]);
                        } else {
                            assert(order@[k + 1] == before[k]);
                        }
                    }
                }
            }
        }
        i += 1;
    }
    let ghost full = order@;
    if order.len() > limit {
        order.truncate(limit);
        proof {
            assert forall|j: int| #[trigger] qualifies(scores@, threshold, j) implies order@.contains(
                j as usize,
            ) || (order@.len() == limit && forall|k: int|
                0 <= k < order@.len() ==> ranks_before(scores@, #[trigger] order@[k] as int, j)) by {
                let at = choose|at: int| 0 <= at < full.len() && full[at] == j as usize;
                if at < limit {
                    assert(order@[at] == full[at]);
                } else {
                    assert forall|k: int| 0 <= k < order@.len() implies ranks_before(
                        scores@,
                        #[trigger] order@[k] as int,
                        j,
                    ) by {
                        assert(order@[k] == full[k]);
                        assert(ranks_before(scores@, full[k] as int, full[at] as int));
                    }
                }
            }
        }
    }
    order
}

/// A ranking never holds more than `limit` places, and every chunk in it is
/// at least as similar as the threshold.
pub proof fn lemma_ranking_is_bounded(
    scores: Seq<i64>,
    threshold: i64,
    limit: int,
    order: Seq<usize>,
)
    requires
        is_ranking(scores, threshold, limit, order),
    ensures
        order.len() <= limit,
        forall|k: int| 0 <= k < order.len() ==> scores[(#[trigger] order[k]) as int] >= threshold,
{
    assert forall|k: int| 0 <= k < order.len() implies scores[(#[trigger] order[k]) as int]
        >= threshold by {
        assert(qualifies(scores, threshold, order[k] as int));
    }
}

/// A ranking falls by similarity, and of two chunks of equal similarity it
/// lists first the one that was stored first.
pub proof fn lemma_ranking_is_sorted(
    scores: Seq<i64>,
    threshold: i64,
    limit: int,
    order: Seq<usize>,
)
    requires
        is_ranking(scores, threshold, limit, order),
    ensures
        forall|a: int, b: int|
            0 <= a < b < order.len() ==> scores[(#[trigger] order[a]) as int] >= scores[(
            #[trigger] order[b]) as int],
        forall|a: int, b: int|
            0 <= a < b < order.len() && scores[(#[trigger] order[a]) as int] == scores[(
            #[trigger] order[b]) as int] ==> order[a] < order[b],
{
    assert forall|a: int, b: int| 0 <= a < b < order.len() implies scores[(
    #[trigger] order[a]) as int] >= scores[(#[trigger] order[b]) as int] by {
        assert(ranks_before(scores, order[a] as int, order[b] as int));
    }
    assert forall|a: int, b: int|
        0 <= a < b < order.len() && scores[(#[trigger] order[a]) as int] == scores[(
        #[trigger] order[b]) as int] implies order[a] < order[b] by {
        assert(ranks_before(scores, order[a] as int, order[b] as int));
    }
}

/// There is only one ranking.
pub proof fn lemma_ranking_is_unique(
    scores: Seq<i64>,
    threshold: i64,
    limit: int,
    first: Seq<usize>,
    second: Seq<usize>,
)
    requires
        is_ranking(scores, threshold, limit, first),
        is_ranking(scores, threshold, limit, second),
    ensures
        first == second,
{
    lemma_ranking_prefix(scores, threshold, limit, first, second, first.len() as int);
    lemma_ranking_prefix(scores, threshold, limit, second, first, second.len() as int);
    assert(first =~= second);
}

proof fn lemma_ranking_prefix(
    scores: Seq<i64>,
    threshold: i64,
    limit: int,
    first: Seq<usize>,
    second: Seq<usize>,
    upto: int,
)
    requires
        is_ranking(scores, threshold, limit, first),
        is_ranking(scores, threshold, limit, second),
        0 <= upto <= first.len(),
    ensures
        upto <= second.len(),
        forall|k: int| 0 <= k < upto ==> first[k] == second[k],
    decreases upto,
{
    if upto > 0 {
        lemma_ranking_prefix(scores, threshold, limit, first, second, upto - 1);
        let at = upto - 1;
        let x = first[at];
        assert(qualifies(scores, threshold, x as int));
        // `x` is in `second`, or `second` is full and all of it ranks before `x`.
        if second.contains(x) {
            let pos = choose|pos: int| 0 <= pos < second.len() && second[pos] == x;
            if pos < at {
                // `second[pos] == first[pos]` would place `x` twice in `first`.
                assert(first[pos] == second[pos]);
                assert(ranks_before(scores, first[pos] as int, first[at] as int));
            } else if pos > at {
                // `second[at]` ranks before `x` and is not among `first[..at]`.
                let y = second[at];
                assert(ranks_before(scores, y as int, x as int));
                assert(qualifies(scores, threshold, y as int));
                if first.contains(y) {
                    let q = choose|q: int| 0 <= q < first.len() && first[q] == y;
                    if q < at {
                        assert(second[q] == first[q]);
                        assert(ranks_before(scores, second[q] as int, second[at] as int));
                    } else if q > at {
                        assert(ranks_before(scores, first[at] as int, first[q] as int));
                    }
                } else {
                    assert(ranks_before(scores, first[at] as int, y as int));
                }
            }
        } else {
            // all of `second` ranks before `x`, and `second` holds `limit` places
            assert(second.len() == limit);
            assert(at < second.len());
            let y = second[at];
            assert(ranks_before(scores, y as int, x as int));
            assert(qualifies(scores, threshold, y as int));
            if first.contains(y) {
                let q = choose|q: int| 0 <= q < first.len() && first[q] == y;
                if q < at {
                    assert(second[q] == first[q]);
                    assert(ranks_before(scores, second[q] as int, second[at] as int));
                } else if q > at {
                    assert(ranks_before(scores, first[at] as int, first[q] as int));
                }
            } else {
                assert(ranks_before(scores, first[at] as int, y as int));
            }
        }
    }
}

} // verus!
