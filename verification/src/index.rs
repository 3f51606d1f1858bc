//! The decisions around the native vector index: reading its status codes,
//! naming its errors, turning the ids it reports into record ids, and
//! numbering the vectors appended to it.

use vstd::prelude::*;
use vstd::string::*;
use crate::store::StoreError;
use crate::text::{signed_decimal, spec_signed_decimal};

verus! {

/// The native index handle, only ever seen behind a pointer.
pub struct SPFHandleOpaque {}

/// Errors reported by the native vector index.
#[derive(Debug, Clone, Copy, PartialEq, Eq, Structural)]
pub enum IndexError {
    /// A call returned this non-zero status code.
    CError(i32),
    /// Opening succeeded but handed back no handle.
    NullHandle,
}

impl IndexError {
    /// The text that `{:?}` gives for this error.
    pub open spec fn spec_debug_text(self) -> Seq<char> {
        match self {
            IndexError::CError(rc) => "CError("@ + spec_signed_decimal(rc as int) + ")"@,
            IndexError::NullHandle => "NullHandle"@,
        }
    }

    /// The outcome of a native call that returned status `rc`: zero is
    /// success, anything else is that error code.
    pub fn check_status(rc: i32) -> (r: Result<(), IndexError>)
        ensures
            rc == 0 ==> r == Ok::<(), IndexError>(()),
            rc != 0 ==> r == Err::<(), IndexError>(IndexError::CError(rc)),
    {
        if rc != 0 {
            Err(IndexError::CError(rc))
        } else {
            Ok(())
        }
    }

    /// The outcome of opening the index: a non-zero status is reported
    /// first; otherwise a missing handle is an error.
    pub fn check_open(rc: i32, handle_is_null: bool) -> (r: Result<(), IndexError>)
        ensures
            rc != 0 ==> r == Err::<(), IndexError>(IndexError::CError(rc)),
            rc == 0 && handle_is_null ==> r == Err::<(), IndexError>(IndexError::NullHandle),
            rc == 0 && !handle_is_null ==> r == Ok::<(), IndexError>(()),
    {
        if rc != 0 {
            return Err(IndexError::CError(rc));
        }
        if handle_is_null {
            return Err(IndexError::NullHandle);
        }
        Ok(())
    }

    /// The text that `{:?}` gives for this error.
    pub fn debug_text(&self) -> (s: String)
        ensures
            s@ == self.spec_debug_text(),
    {
        match self {
            IndexError::CError(rc) => {
                let mut s = String::from_str("CError(");
                let digits = signed_decimal(*rc);
                s.append(digits.as_str());
                s.append(")");
                s
            },
            IndexError::NullHandle => String::from_str("NullHandle"),
        }
    }

    /// The store error that reports this index error: `StoreError::Index`
    /// with the error's `{:?}` text.
    pub fn into_store_error(self) -> (e: StoreError)
        ensures
            e matches StoreError::Index(msg) && msg@ == self.spec_debug_text(),
    {
        StoreError::Index(self.debug_text())
    }
}

/// The ids of the hits of a native search, in the order reported: each
/// native `i64` id read as a `usize`.
pub fn hit_ids(raw: &Vec<i64>) -> (ids: Vec<usize>)
    ensures
        ids@.len() == raw@.len(),
        forall|k: int| 0 <= k < raw@.len() ==> #[trigger] ids@[k] == raw@[k] as usize,
        forall|k: int| 0 <= k < raw@.len() && 0 <= raw@[k] <= usize::MAX ==> ids@[k] == raw@[k],
{
    let mut ids: Vec<usize> = Vec::new();
    let mut i: usize = 0;
    while i < raw.len()
        invariant
            i <= raw@.len(),
            ids@.len() == i,
            forall|k: int| 0 <= k < i ==> #[trigger] ids@[k] == raw@[k] as usize,
            forall|k: int| 0 <= k < i && 0 <= raw@[k] <= usize::MAX ==> ids@[k] == raw@[k],
        decreases raw.len() - i,
    {
        let id = raw[i] as usize;
        ids.push(id);
        i = i + 1;
    }
    ids
}

/// The ids given to the vectors appended to the index: the count of vectors
/// appended so far is the id of the next one, so successive appends get the
/// 0-based ids 0, 1, 2, ... in step with the metadata records.
pub struct VectorIds {
    count: u64,
}

impl View for VectorIds {
    type V = u64;

    closed spec fn view(&self) -> u64 {
        self.count
    }
}

impl VectorIds {
    /// Ids for an index that already holds `count` vectors.
    pub fn starting_at(count: u64) -> (ids: VectorIds)
        ensures
            ids@ == count,
    {
        VectorIds { count }
    }

    /// The number of vectors appended so far.
    pub fn count(&self) -> (n: u64)
        ensures
            n == self@,
    {
        self.count
    }

    /// The id the next appended vector gets.
    pub fn next_id(&self) -> (id: u64)
        ensures
            id == self@,
    {
        self.count
    }

    /// Accounts for the native append of the vector under `next_id()`,
    /// which answered `status`: on success the id is handed out and the
    /// count grows by one; on failure the count stays and the error is
    /// reported as a store error.
    pub fn record_append(&mut self, status: Result<(), IndexError>) -> (r: Result<u64, StoreError>)
        requires
            old(self)@ < u64::MAX,
        ensures
            status is Ok ==> final(self)@ == old(self)@ + 1,
            status is Ok ==> (r matches Ok(id) && id == old(self)@),
            status is Err ==> final(self)@ == old(self)@,
            status matches Err(e) ==> (r matches Err(StoreError::Index(msg)) && msg@
                == e.spec_debug_text()),
    {
        match status {
            Ok(()) => {
                let id = self.count;
                self.count = self.count + 1;
                Ok(id)
            },
            Err(e) => Err(e.into_store_error()),
        }
    }
}

/// How many of a run of native appends succeeded.
pub open spec fn successes(succeeded: Seq<bool>) -> nat
    decreases succeeded.len(),
{
    if succeeded.len() == 0 {
        0
    } else {
        successes(succeeded.drop_last()) + if succeeded.last() {
            1nat
        } else {
            0nat
        }
    }
}

/// The ids handed out by a run of appends, starting from a count of
/// `start`, whose native appends succeeded as `succeeded` says: each
/// success gets the count at that point, and only successes raise it.
pub open spec fn ids_handed_out(start: int, succeeded: Seq<bool>) -> Seq<int>
    decreases succeeded.len(),
{
    if succeeded.len() == 0 {
        Seq::empty()
    } else if succeeded.last() {
        ids_handed_out(start, succeeded.drop_last()).push(start + successes(succeeded.drop_last()))
    } else {
        ids_handed_out(start, succeeded.drop_last())
    }
}

/// Successive appends get consecutive ids: the ids handed out from a count
/// of `start` are `start, start + 1, ...`, one per successful append, with
/// no gap for a failed one. From an empty index they are 0, 1, 2, ...
pub proof fn lemma_consecutive_ids(start: int, succeeded: Seq<bool>)
    ensures
        ids_handed_out(start, succeeded) == Seq::new(successes(succeeded), |i: int| start + i),
    decreases succeeded.len(),
{
    if succeeded.len() > 0 {
        lemma_consecutive_ids(start, succeeded.drop_last());
    }
    assert(ids_handed_out(start, succeeded) =~= Seq::new(successes(succeeded), |i: int| start + i));
}

} // verus!
