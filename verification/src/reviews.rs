//! The decisions of the review endpoints: validating a review, sequencing
//! the vector and metadata appends of one insert, answering single and bulk
//! inserts, and choosing what a search returns.

use vstd::prelude::*;
use vstd::string::*;
use crate::store::ReviewMeta;
use crate::text::{push_decimal, spec_decimal};

verus! {

/// Response for a single insert.
#[derive(Debug, Clone, Copy, PartialEq, Eq, Structural)]
pub struct ApiResponse {
    pub id: u64,
    pub success: bool,
}

/// Response for a bulk insert.
#[derive(Debug)]
pub struct BulkInsertResponse {
    pub inserted: usize,
    pub failed: usize,
    pub errors: Vec<String>,
}

/// How the insert of one review ended.
#[derive(Debug)]
pub enum InsertOutcome {
    /// Title, body or product id was blank; nothing was appended.
    Invalid,
    /// Appending the vector failed, with this error text (`{:?}`).
    IndexFailed(String),
    /// Appending the metadata failed, with this error text (`{}`).
    MetaFailed(String),
    /// Both appends succeeded but under different ids.
    IdMismatch { vector_id: u64, meta_id: u64 },
    /// Both appends succeeded under this id.
    Inserted(u64),
}

/// What to do next while inserting one review.
#[derive(Debug)]
pub enum InsertStep {
    /// Append the review's vector to the vector index.
    AppendVector,
    /// Append the review's metadata to the store; the vector got this id.
    AppendMeta { vector_id: u64 },
    /// The insert is over.
    Done(InsertOutcome),
}

/// Starts the insert of a review: an invalid review ends it at once,
/// a valid one goes on to the vector append.
pub fn begin_insert(meta: &ReviewMeta) -> (step: InsertStep)
    ensures
        meta.spec_is_valid() ==> step is AppendVector,
        !meta.spec_is_valid() ==> step matches InsertStep::Done(InsertOutcome::Invalid),
{
    if meta.is_valid() {
        InsertStep::AppendVector
    } else {
        InsertStep::Done(InsertOutcome::Invalid)
    }
}

/// The next step once the vector append has answered: its id leads on to
/// the metadata append, its error (given as text) ends the insert.
pub fn vector_appended(result: Result<u64, String>) -> (step: InsertStep)
    ensures
        result matches Ok(id) ==> step matches InsertStep::AppendMeta { vector_id } && vector_id
            == id,
        result matches Err(text) ==> step matches InsertStep::Done(InsertOutcome::IndexFailed(t))
            && t@ == text@,
{
    match result {
        Ok(id) => InsertStep::AppendMeta { vector_id: id },
        Err(text) => InsertStep::Done(InsertOutcome::IndexFailed(text)),
    }
}

/// How the insert ends once the metadata append has answered: the review is
/// inserted when both appends gave the same id.
pub fn meta_appended(vector_id: u64, result: Result<u64, String>) -> (outcome: InsertOutcome)
    ensures
        result matches Ok(id) ==> (id == vector_id ==> (outcome matches InsertOutcome::Inserted(i)
            && i == id)),
        result matches Ok(id) ==> (id != vector_id ==> (outcome matches InsertOutcome::IdMismatch {
            vector_id: v,
            meta_id: m,
        } && v == vector_id && m == id)),
        result matches Err(text) ==> outcome matches InsertOutcome::MetaFailed(t) && t@ == text@,
{
    match result {
        Ok(id) => {
            if id == vector_id {
                InsertOutcome::Inserted(id)
            } else {
                InsertOutcome::IdMismatch { vector_id, meta_id: id }
            }
        },
        Err(text) => InsertOutcome::MetaFailed(text),
    }
}

/// HTTP status of a created review.
pub const CREATED: u16 = 201u16;

/// HTTP status of a rejected review.
pub const BAD_REQUEST: u16 = 400u16;

/// HTTP status of a failed insert.
pub const INTERNAL_SERVER_ERROR: u16 = 500u16;

/// The answer of the single-insert endpoint for an insert that ended with
/// `outcome`: `201` with the id when the review was inserted, `400` when it
/// was invalid, `500` otherwise.
pub open spec fn spec_insert_reply(outcome: InsertOutcome) -> Result<(u16, ApiResponse), u16> {
    match outcome {
        InsertOutcome::Inserted(id) => Ok((CREATED, ApiResponse { id, success: true })),
        InsertOutcome::Invalid => Err(BAD_REQUEST),
        _ => Err(INTERNAL_SERVER_ERROR),
    }
}

/// The answer of the single-insert endpoint.
pub fn insert_reply(outcome: &InsertOutcome) -> (r: Result<(u16, ApiResponse), u16>)
    ensures
        r == spec_insert_reply(*outcome),
        forall|id: u64|
            *outcome == InsertOutcome::Inserted(id) ==> r == Ok::<(u16, ApiResponse), u16>(
                (201u16, ApiResponse { id: id, success: true }),
            ),
        *outcome == InsertOutcome::Invalid ==> r == Err::<(u16, ApiResponse), u16>(400u16),
        !(*outcome is Inserted) && !(*outcome is Invalid) ==> r == Err::<(u16, ApiResponse), u16>(
            500u16,
        ),
{
    match outcome {
        InsertOutcome::Inserted(id) => Ok((CREATED, ApiResponse { id: *id, success: true })),
        InsertOutcome::Invalid => Err(BAD_REQUEST),
        _ => Err(INTERNAL_SERVER_ERROR),
    }
}

/// The single-insert endpoint answers an inserted review with `201` and
/// that very id, an invalid one with `400`, and any other with `500`.
pub proof fn lemma_insert_reply(outcome: InsertOutcome)
    ensures
        forall|id: u64|
            outcome == InsertOutcome::Inserted(id) ==> spec_insert_reply(outcome) == Ok::<
                (u16, ApiResponse),
                u16,
            >((201u16, ApiResponse { id: id, success: true })),
        outcome == InsertOutcome::Invalid ==> spec_insert_reply(outcome) == Err::<
            (u16, ApiResponse),
            u16,
        >(400u16),
        !(outcome is Inserted) && !(outcome is Invalid) ==> spec_insert_reply(outcome) == Err::<
            (u16, ApiResponse),
            u16,
        >(500u16),
{
}

/// How many of `outcomes` the single-insert endpoint answers with `201`.
pub open spec fn spec_created(outcomes: Seq<InsertOutcome>) -> nat
    decreases outcomes.len(),
{
    if outcomes.len() == 0 {
        0
    } else {
        spec_created(outcomes.drop_last()) + if spec_insert_reply(outcomes.last()) is Ok {
            1nat
        } else {
            0nat
        }
    }
}

/// The error message the bulk endpoint reports for item `item` when its
/// insert ended with `outcome` (empty for an inserted item).
pub open spec fn spec_failure_message(item: nat, outcome: InsertOutcome) -> Seq<char> {
    let head = "item "@ + spec_decimal(item);
    match outcome {
        InsertOutcome::Invalid => head + ": validation failed"@,
        InsertOutcome::IdMismatch { .. } => head + ": ID mismatch"@,
        InsertOutcome::MetaFailed(text) => head + ": meta error "@ + text@,
        InsertOutcome::IndexFailed(text) => head + ": index error "@ + text@,
        InsertOutcome::Inserted(_) => Seq::empty(),
    }
}

/// How many of `outcomes` are inserted reviews.
pub open spec fn spec_inserted(outcomes: Seq<InsertOutcome>) -> nat
    decreases outcomes.len(),
{
    if outcomes.len() == 0 {
        0
    } else {
        spec_inserted(outcomes.drop_last()) + if outcomes.last() is Inserted {
            1nat
        } else {
            0nat
        }
    }
}

/// The error messages of `outcomes`, one per failed item, in item order.
pub open spec fn spec_errors(outcomes: Seq<InsertOutcome>) -> Seq<Seq<char>>
    decreases outcomes.len(),
{
    if outcomes.len() == 0 {
        Seq::empty()
    } else if outcomes.last() is Inserted {
        spec_errors(outcomes.drop_last())
    } else {
        spec_errors(outcomes.drop_last()).push(
            spec_failure_message((outcomes.len() - 1) as nat, outcomes.last()),
        )
    }
}

/// The texts of a list of strings.
pub open spec fn texts(strings: Seq<String>) -> Seq<Seq<char>> {
    strings.map_values(|s: String| s@)
}

/// The error message for item `item`, which failed with `outcome`.
pub fn failure_message(item: usize, outcome: &InsertOutcome) -> (msg: String)
    requires
        !(outcome is Inserted),
    ensures
        msg@ == spec_failure_message(item as nat, *outcome),
{
    let mut msg = String::from_str("item ");
    push_decimal(&mut msg, item as u64);
    match outcome {
        InsertOutcome::Invalid => msg.append(": validation failed"),
        InsertOutcome::IdMismatch { .. } => msg.append(": ID mismatch"),
        InsertOutcome::MetaFailed(text) => {
            msg.append(": meta error ");
            msg.append(text.as_str());
        },
        InsertOutcome::IndexFailed(text) => {
            msg.append(": index error ");
            msg.append(text.as_str());
        },
        InsertOutcome::Inserted(_) => {},
    }
    msg
}

impl BulkInsertResponse {
    /// The response before any item has been processed.
    pub fn new() -> (r: BulkInsertResponse)
        ensures
            r.inserted == 0,
            r.failed == 0,
            r.errors@.len() == 0,
    {
        BulkInsertResponse { inserted: 0, failed: 0, errors: Vec::new() }
    }

    /// Counts item `item`, which ended with `outcome`: an inserted item adds
    /// to `inserted`; any other adds to `failed` and appends its message.
    pub fn record(&mut self, item: usize, outcome: &InsertOutcome)
        requires
            old(self).inserted + old(self).failed < usize::MAX,
        ensures
            outcome is Inserted ==> final(self).inserted == old(self).inserted + 1,
            outcome is Inserted ==> final(self).failed == old(self).failed,
            outcome is Inserted ==> final(self).errors@ == old(self).errors@,
            !(outcome is Inserted) ==> final(self).inserted == old(self).inserted,
            !(outcome is Inserted) ==> final(self).failed == old(self).failed + 1,
            !(outcome is Inserted) ==> texts(final(self).errors@) == texts(old(self).errors@).push(
                spec_failure_message(item as nat, *outcome),
            ),
    {
        match outcome {
            InsertOutcome::Inserted(_) => {
                self.inserted = self.inserted + 1;
            },
            _ => {
                self.failed = self.failed + 1;
                let msg = failure_message(item, outcome);
                let ghost before = self.errors@;
                self.errors.push(msg);
                assert(texts(self.errors@) =~= texts(before).push(
                    spec_failure_message(item as nat, *outcome),
                ));
            },
        }
    }

    /// The response for a bulk insert whose items, in order, ended with
    /// `outcomes`.
    pub fn from_outcomes(outcomes: &Vec<InsertOutcome>) -> (r: BulkInsertResponse)
        ensures
            r.inserted == spec_inserted(outcomes@),
            r.inserted + r.failed == outcomes@.len(),
            texts(r.errors@) == spec_errors(outcomes@),
    {
        let mut r = BulkInsertResponse::new();
        let mut i: usize = 0;
        while i < outcomes.len()
            invariant
                i <= outcomes@.len(),
                r.inserted == spec_inserted(outcomes@.take(i as int)),
                r.inserted + r.failed == i,
                texts(r.errors@) == spec_errors(outcomes@.take(i as int)),
            decreases outcomes.len() - i,
        {
            proof {
                assert(outcomes@.take(i + 1).drop_last() =~= outcomes@.take(i as int));
            }
            r.record(i, &outcomes[i]);
            i = i + 1;
        }
        assert(outcomes@.take(outcomes@.len() as int) =~= outcomes@);
        r
    }
}

/// Every item of a bulk insert is counted once: the inserted items and the
/// failed ones, each with one message, together make up all the items.
pub proof fn lemma_bulk_tally(outcomes: Seq<InsertOutcome>)
    ensures
        spec_inserted(outcomes) + spec_errors(outcomes).len() == outcomes.len(),
    decreases outcomes.len(),
{
    if outcomes.len() > 0 {
        lemma_bulk_tally(outcomes.drop_last());
    }
}

/// A bulk insert counts as inserted exactly the items that a single insert
/// would answer with `201 Created`, and reports one error for each of the
/// others.
pub proof fn lemma_bulk_matches_single(outcomes: Seq<InsertOutcome>)
    ensures
        spec_inserted(outcomes) == spec_created(outcomes),
        spec_errors(outcomes).len() == outcomes.len() - spec_created(outcomes),
    decreases outcomes.len(),
{
    lemma_bulk_tally(outcomes);
    if outcomes.len() > 0 {
        lemma_bulk_matches_single(outcomes.drop_last());
    }
}

/// Number of hits a search returns when the request names none.
pub const DEFAULT_TOP_K: usize = 5usize;

/// The number of hits to search for.
pub fn effective_top_k(top_k: Option<usize>) -> (k: usize)
    ensures
        top_k matches Some(n) ==> k == n,
        top_k is None ==> k == DEFAULT_TOP_K,
{
    match top_k {
        Some(n) => n,
        None => DEFAULT_TOP_K,
    }
}

/// The positions, in order, of the lookups that found something.
pub open spec fn spec_found_positions<T>(lookups: Seq<Option<T>>) -> Seq<usize>
    decreases lookups.len(),
{
    if lookups.len() == 0 {
        Seq::empty()
    } else if lookups.last() is Some {
        spec_found_positions(lookups.drop_last()).push((lookups.len() - 1) as usize)
    } else {
        spec_found_positions(lookups.drop_last())
    }
}

/// The positions kept are exactly the positions of the lookups that found
/// something, each once and in increasing order, the last lookup included.
pub proof fn lemma_found_positions<T>(lookups: Seq<Option<T>>)
    requires
        lookups.len() <= usize::MAX,
    ensures
        forall|k: int|
            0 <= k < spec_found_positions(lookups).len() ==> #[trigger] spec_found_positions(
                lookups,
            )[k] < lookups.len() && lookups[spec_found_positions(lookups)[k] as int] is Some,
        forall|j: int, k: int|
            0 <= j < k < spec_found_positions(lookups).len() ==> spec_found_positions(lookups)[j]
                < spec_found_positions(lookups)[k],
        forall|i: int|
            0 <= i < lookups.len() && #[trigger] lookups[i] is Some ==> spec_found_positions(
                lookups,
            ).contains(i as usize),
    decreases lookups.len(),
{
    if lookups.len() > 0 {
        let init = lookups.drop_last();
        lemma_found_positions(init);
        let p = spec_found_positions(lookups);
        let pi = spec_found_positions(init);
        assert(p == if lookups.last() is Some {
            pi.push((lookups.len() - 1) as usize)
        } else {
            pi
        });
        assert(p.len() == pi.len() || (p.len() == pi.len() + 1 && p[pi.len() as int] == (lookups.len() - 1) as usize && lookups.last() is Some));
        assert forall|k: int| 0 <= k < p.len() implies #[trigger] p[k] < lookups.len()
            && lookups[p[k] as int] is Some by {
            if k < pi.len() {
                assert(p[k] == pi[k]);
                assert(pi[k] < init.len());
                assert(lookups[pi[k] as int] == init[pi[k] as int]);
            } else {
                assert(k == pi.len());
                assert(p[k] == (lookups.len() - 1) as usize);
                assert(lookups.last() is Some);
                assert(lookups[lookups.len() - 1] is Some);
            }
        }
        assert forall|j: int, k: int| 0 <= j < k < p.len() implies p[j] < p[k] by {
            if k < pi.len() {
                assert(p[j] == pi[j] && p[k] == pi[k]);
            } else {
                assert(k == pi.len());
                assert(j < pi.len());
                assert(p[j] == pi[j]);
                assert(pi[j] < init.len());
                assert(p[k] == (lookups.len() - 1) as usize);
            }
        }
        assert forall|i: int| 0 <= i < lookups.len() && #[trigger] lookups[i] is Some implies p.contains(
            i as usize,
        ) by {
            if i < init.len() {
                assert(init[i] == lookups[i]);
                assert(pi.contains(i as usize));
                let k = choose|k: int| 0 <= k < pi.len() && pi[k] == i as usize;
                assert(p[k] == pi[k]);
            } else {
                assert(p[p.len() - 1] == i as usize);
            }
        }
    }
}

/// Which search hits make it into the response: those whose metadata was
/// found, in hit order; missing ones are skipped.
pub fn found_positions<T>(lookups: &Vec<Option<T>>) -> (positions: Vec<usize>)
    ensures
        positions@ == spec_found_positions(lookups@),
        forall|k: int|
            0 <= k < positions@.len() ==> #[trigger] positions@[k] < lookups@.len()
                && lookups@[positions@[k] as int] is Some,
        forall|j: int, k: int| 0 <= j < k < positions@.len() ==> positions@[j] < positions@[k],
        forall|i: int|
            0 <= i < lookups@.len() && #[trigger] lookups@[i] is Some ==> positions@.contains(
                i as usize,
            ),
{
    let _count = lookups.len();
    proof {
        lemma_found_positions(lookups@);
    }
    let mut positions: Vec<usize> = Vec::new();
    let mut i: usize = 0;
    while i < lookups.len()
        invariant
            i <= lookups@.len(),
            positions@ == spec_found_positions(lookups@.take(i as int)),
        decreases lookups.len() - i,
    {
        proof {
            assert(lookups@.take(i + 1).drop_last() =~= lookups@.take(i as int));
        }
        if lookups[i].is_some() {
            positions.push(i);
        }
        i = i + 1;
    }
    assert(lookups@.take(lookups@.len() as int) =~= lookups@);
    positions
}

} // verus!
