//! Registry of the single in-flight sync run. At most one run (preview or
//! apply) holds the pipeline at a time: a second start while one is active is
//! refused with the id of the run holding the slot, never queued (a queued
//! plan would go stale). Cancellation is per run: each run owns its own
//! cancel token, and cancelling any other (or unknown) id is a no-op.
use crate::keys::{key_order, KeyOrder};
use std::sync::atomic::{AtomicBool, Ordering};
use std::sync::Arc;
use vstd::prelude::*;

verus! {

/// Server-minted run id: a ULID string.
pub type RunId = String;

/// The Crockford base-32 alphabet ULIDs are written in.
pub open spec fn is_ulid_char(c: char) -> bool {
    ('0' <= c && c <= '9') || ('A' <= c && c <= 'Z' && c != 'I' && c != 'L' && c != 'O' && c != 'U')
}

/// Calls `ulid::Ulid::new()` and renders it with `to_string`. Claimed: the
/// text is 26 characters of the Crockford base-32 alphabet (the crate's
/// `base32::encode`). Its value rests on the clock and a random source, so
/// nothing more is said of it; in particular two calls are not claimed to
/// differ.
#[verifier::external_body]
pub(crate) fn fresh_ulid() -> (r: String)
    ensures
        r@.len() == 26,
        forall|i: int| 0 <= i < 26 ==> is_ulid_char(#[trigger] r@[i]),
{
    ulid::Ulid::new().to_string()
}

/// Calls `Arc::clone`. Claimed: the clone shares the same allocation, which
/// Verus sees as the same value.
#[verifier::external_body]
fn share(t: &Arc<AtomicBool>) -> (r: Arc<AtomicBool>)
    ensures
        r == *t,
{
    t.clone()
}

/// What a caller knows about a run before it is granted the slot.
#[derive(Debug, Clone)]
pub struct RunDescriptor {
    pub job_id: String,
    /// The pair ids this run covers (empty: all enabled pairs).
    pub pair_ids: Vec<String>,
}

/// The run holding the slot.
struct ActiveRun {
    run_id: RunId,
    job_id: String,
    pair_ids: Vec<String>,
    cancel: Arc<AtomicBool>,
}

/// What an execution of a held run needs: its job, pairs and cancel token.
pub struct RunContext {
    pub run_id: RunId,
    pub job_id: String,
    pub pair_ids: Vec<String>,
    pub cancel: Arc<AtomicBool>,
}

/// Why a start is refused.
#[derive(Debug, Clone, PartialEq, Eq)]
pub enum RunError {
    /// Another run holds the pipeline; its id.
    Busy { run_id: RunId },
}

/// Handle given to the caller that won the slot.
pub struct RunHandle {
    pub run_id: RunId,
    cancel: Arc<AtomicBool>,
}

/// The view of a run in the slot: its id, job id, pair ids and cancel token.
pub struct RunView {
    pub run_id: Seq<char>,
    pub job_id: Seq<char>,
    pub pair_ids: Seq<Seq<char>>,
    pub token: Arc<AtomicBool>,
}

/// A call that changes the slot: a start that would be granted this run, or
/// a finish of an id.
pub enum RunEvent {
    Start(RunView),
    Finish(Seq<char>),
}

/// The slot after one call: a start is granted only into an empty slot; a
/// finish releases the slot only when the id is the holder's.
pub open spec fn step(slot: Option<RunView>, e: RunEvent) -> Option<RunView> {
    match e {
        RunEvent::Start(v) => match slot {
            Some(a) => Some(a),
            None => Some(v),
        },
        RunEvent::Finish(id) => match slot {
            Some(a) => if a.run_id == id {
                None
            } else {
                Some(a)
            },
            None => None,
        },
    }
}

/// The slot after a history of calls on a new registry.
pub open spec fn replay(h: Seq<RunEvent>) -> Option<RunView>
    decreases h.len(),
{
    if h.len() == 0 {
        None
    } else {
        step(replay(h.drop_last()), h.last())
    }
}

/// Call `k` of the history is a start that was granted (the slot was empty)
/// and no later call finished its id.
pub open spec fn unfinished_win(h: Seq<RunEvent>, k: int) -> bool {
    &&& 0 <= k < h.len()
    &&& replay(h.take(k)) is None
    &&& h[k] is Start
    &&& forall|j: int| k < j < h.len() ==> #[trigger] h[j] != RunEvent::Finish(h[k]->Start_0.run_id)
}

proof fn lemma_unfinished_prefix(h: Seq<RunEvent>, k: int)
    requires
        h.len() > 0,
        0 <= k < h.len() - 1,
    ensures
        unfinished_win(h, k) == (unfinished_win(h.drop_last(), k) && h.last() != RunEvent::Finish(
            h[k]->Start_0.run_id,
        )),
{
    let hp = h.drop_last();
    assert(h.take(k) =~= hp.take(k));
    if unfinished_win(h, k) {
        assert forall|j: int| k < j < hp.len() implies #[trigger] hp[j] != RunEvent::Finish(hp[k]->Start_0.run_id) by {
            assert(hp[j] == h[j]);
        }
        assert(h[h.len() - 1] == h.last());
    }
    if unfinished_win(hp, k) && h.last() != RunEvent::Finish(h[k]->Start_0.run_id) {
        assert forall|j: int| k < j < h.len() implies #[trigger] h[j] != RunEvent::Finish(h[k]->Start_0.run_id) by {
            if j < h.len() - 1 {
                assert(hp[j] == h[j]);
            }
        }
    }
}

/// Over any history of starts and finishes on a new registry, a run holds
/// the slot exactly when it is the last granted start whose id has not been
/// finished since: its view is the slot, and with no such start the slot is
/// empty.
pub proof fn law_slot_is_last_unfinished_start(h: Seq<RunEvent>)
    ensures
        forall|k: int| #[trigger] unfinished_win(h, k) ==> replay(h) == Some(h[k]->Start_0),
        replay(h) is Some ==> exists|k: int| #[trigger] unfinished_win(h, k),
    decreases h.len(),
{
    if h.len() > 0 {
        let hp = h.drop_last();
        let n = hp.len() as int;
        law_slot_is_last_unfinished_start(hp);
        assert(h.take(n) =~= hp);
        assert forall|k: int| 0 <= k < n implies #[trigger] unfinished_win(h, k) == (unfinished_win(hp, k)
            && h.last() != RunEvent::Finish(h[k]->Start_0.run_id)) by {
            lemma_unfinished_prefix(h, k);
        }
        assert(h[n] == h.last());
        assert forall|k: int| #[trigger] unfinished_win(h, k) implies replay(h) == Some(h[k]->Start_0) by {
            if k < n {
                assert(unfinished_win(hp, k));
                assert(hp[k] == h[k]);
            }
        }
        if replay(h) is Some {
            match replay(hp) {
                Some(a) => {
                    let k = choose|k: int| #[trigger] unfinished_win(hp, k);
                    assert(hp[k] == h[k]);
                    assert(unfinished_win(h, k));
                },
                None => {
                    assert(unfinished_win(h, n));
                },
            }
        }
    }
}

pub open spec fn texts(v: Seq<String>) -> Seq<Seq<char>> {
    Seq::new(v.len(), |i: int| v[i]@)
}

fn clone_texts(v: &Vec<String>) -> (r: Vec<String>)
    ensures
        texts(r@) == texts(v@),
{
    let mut out: Vec<String> = Vec::new();
    let mut k: usize = 0;
    while k < v.len()
        invariant
            k <= v@.len(),
            out@.len() == k,
            forall|i: int| 0 <= i < k ==> (#[trigger] out@[i])@ == v@[i]@,
        decreases v@.len() - k,
    {
        out.push(v[k].clone());
        k = k + 1;
    }
    proof {
        assert(texts(out@) =~= texts(v@));
    }
    out
}

fn same_text(a: &str, b: &str) -> (r: bool)
    ensures
        r == (a@ == b@),
{
    key_order(a, b) == KeyOrder::Equal
}

impl RunHandle {
    pub closed spec fn token(&self) -> Arc<AtomicBool> {
        self.cancel
    }

    /// The run id's text.
    pub closed spec fn id(&self) -> Seq<char> {
        self.run_id@
    }

    /// The run id this handle was granted: the id the slot holds while the
    /// run is active, and the one to hand to `context`, `cancel` and
    /// `finish`.
    pub fn run_id(&self) -> (r: &RunId)
        ensures
            r@ == self.id(),
    {
        &self.run_id
    }

    /// The per-run cancel token, for the apply loop.
    pub fn cancel_flag(&self) -> (r: &AtomicBool)
        ensures
            *r == *self.token(),
    {
        &self.cancel
    }

    /// A shared clone of the per-run cancel token, for a worker on another
    /// thread.
    pub fn cancel_token(&self) -> (r: Arc<AtomicBool>)
        ensures
            r == self.token(),
    {
        share(&self.cancel)
    }

    /// Whether this run's token has been flipped.
    pub fn is_cancelled(&self) -> bool {
        self.cancel.load(Ordering::Relaxed)
    }
}

/// The at-most-one-run registry.
pub struct RunRegistry {
    inner: Option<ActiveRun>,
}

impl RunRegistry {
    /// The run in the slot, if any.
    pub closed spec fn slot(&self) -> Option<RunView> {
        match self.inner {
            Some(a) => Some(RunView { run_id: a.run_id@, job_id: a.job_id@, pair_ids: texts(a.pair_ids@), token: a.cancel }),
            None => None,
        }
    }

    pub fn new() -> (r: RunRegistry)
        ensures
            r.slot() is None,
    {
        RunRegistry { inner: None }
    }

    /// Claim the single pipeline slot: refused with the holder's id while a
    /// run is active (the slot unchanged), else granted under a fresh id.
    pub fn try_start(&mut self, descriptor: RunDescriptor) -> (r: Result<RunHandle, RunError>)
        ensures
            match old(self).slot() {
                Some(a) => final(self).slot() == old(self).slot() && (r matches Err(RunError::Busy { run_id })
                    && run_id@ == a.run_id),
                None => r matches Ok(h) && h.id().len() == 26 && final(self).slot() == Some(
                    RunView {
                        run_id: h.id(),
                        job_id: descriptor.job_id@,
                        pair_ids: texts(descriptor.pair_ids@),
                        token: h.token(),
                    },
                ),
            },
            r matches Ok(h) ==> final(self).slot() == step(
                old(self).slot(),
                RunEvent::Start(
                    RunView {
                        run_id: h.id(),
                        job_id: descriptor.job_id@,
                        pair_ids: texts(descriptor.pair_ids@),
                        token: h.token(),
                    },
                ),
            ),
    {
        match &self.inner {
            Some(active) => {
                return Err(RunError::Busy { run_id: active.run_id.clone() });
            },
            None => {},
        }
        let run_id = fresh_ulid();
        let cancel = Arc::new(AtomicBool::new(false));
        let handle_cancel = share(&cancel);
        self.inner = Some(
            ActiveRun { run_id: run_id.clone(), job_id: descriptor.job_id, pair_ids: descriptor.pair_ids, cancel },
        );
        Ok(RunHandle { run_id, cancel: handle_cancel })
    }

    /// The held run's context, if `run_id` is the run in the slot.
    pub fn context(&self, run_id: &str) -> (r: Option<RunContext>)
        ensures
            match self.slot() {
                Some(a) if a.run_id == run_id@ => r matches Some(c) && c.run_id@ == a.run_id && c.job_id@ == a.job_id
                    && texts(c.pair_ids@) == a.pair_ids && c.cancel == a.token,
                _ => r is None,
            },
    {
        match &self.inner {
            Some(a) => {
                if same_text(a.run_id.as_str(), run_id) {
                    Some(
                        RunContext {
                            run_id: a.run_id.clone(),
                            job_id: a.job_id.clone(),
                            pair_ids: clone_texts(&a.pair_ids),
                            cancel: share(&a.cancel),
                        },
                    )
                } else {
                    None
                }
            },
            None => None,
        }
    }

    /// Flip the cancel token of `run_id`, if it is the run in the slot;
    /// `true` iff it was. Another id touches nothing.
    pub fn cancel(&self, run_id: &str) -> (r: bool)
        ensures
            r == (self.slot() matches Some(a) && a.run_id == run_id@),
    {
        match &self.inner {
            Some(active) => {
                if same_text(active.run_id.as_str(), run_id) {
                    active.cancel.store(true, Ordering::Relaxed);
                    true
                } else {
                    false
                }
            },
            None => false,
        }
    }

    /// Release the slot held by `run_id`; a different (stale) id never
    /// evicts the run in the slot.
    pub fn finish(&mut self, run_id: &str)
        ensures
            match old(self).slot() {
                Some(a) if a.run_id == run_id@ => final(self).slot() is None,
                _ => final(self).slot() == old(self).slot(),
            },
            final(self).slot() == step(old(self).slot(), RunEvent::Finish(run_id@)),
    {
        let release = match &self.inner {
            Some(active) => same_text(active.run_id.as_str(), run_id),
            None => false,
        };
        if release {
            self.inner = None;
        }
    }

    /// The id of the run in the slot, if any.
    pub fn active(&self) -> (r: Option<RunId>)
        ensures
            match self.slot() {
                Some(a) => r matches Some(id) && id@ == a.run_id,
                None => r is None,
            },
    {
        match &self.inner {
            Some(a) => Some(a.run_id.clone()),
            None => None,
        }
    }
}

} // verus!
