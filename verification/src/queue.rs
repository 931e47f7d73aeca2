//! Admission queue: a FIFO of waiting user identifiers plus at most one
//! active session. Every mutation eagerly promotes the head of the queue
//! when the active slot is free, recomputes the queue snapshot, and
//! publishes it to subscribers over a best-effort fan-out channel.
use vstd::prelude::*;

use crate::bytes::bytes_eq;

verus! {

/// Per-slot wait estimate, in seconds: a deliberately rough heuristic.
pub const WAIT_SECS_PER_SLOT: u64 = 600;

/// A session is reclaimed once it has run longer than this, in milliseconds.
pub const MAX_SESSION_DURATION_MS: u64 = 600_000;

/// A session is reclaimed once it has been idle longer than this, in milliseconds.
pub const MAX_IDLE_TIME_MS: u64 = 60_000;

/// Capacity, in snapshots per subscriber, of the update channel.
pub const STATE_CHANNEL_CAPACITY: usize = 100;

/// Snapshot of the queue after a mutation: how many users are ahead of the
/// latest arrival and a heuristic estimate of the wait, in seconds.
#[derive(Clone, Copy, Debug, PartialEq, Eq, Structural)]
pub struct QueueState {
    pub position: u32,
    pub estimated_wait_secs: u64,
}

/// The single active session: who holds it and, in milliseconds on the
/// caller's clock, when it started and when it last showed activity.
#[derive(Debug)]
pub struct SessionState {
    pub user_id: Vec<u8>,
    pub start_time_ms: u64,
    pub last_activity_ms: u64,
}

/// Errors returned to the caller of a queue operation; none of them
/// disturbs the queue itself.
#[derive(Clone, Copy, Debug, PartialEq, Eq, Structural)]
pub enum QueueError {
    /// The user is already waiting or already holds the active session.
    AlreadyQueued,
    /// An activity ping arrived from a user who does not hold the session.
    NoActiveSession,
}

/// Mathematical image of a session.
#[verifier::ext_equal]
pub struct SessionModel {
    pub user_id: Seq<u8>,
    pub start_time_ms: u64,
    pub last_activity_ms: u64,
}

/// Mathematical image of the whole queue.
#[verifier::ext_equal]
pub struct QueueModel {
    pub waiting: Seq<Seq<u8>>,
    pub active: Option<SessionModel>,
    pub max_session_ms: u64,
    pub max_idle_ms: u64,
}

impl View for SessionState {
    type V = SessionModel;

    open spec fn view(&self) -> SessionModel {
        SessionModel {
            user_id: self.user_id@,
            start_time_ms: self.start_time_ms,
            last_activity_ms: self.last_activity_ms,
        }
    }
}

/// The predicate under which `spec_leave` keeps a waiting entry: everyone
/// but the departing user stays.
pub open spec fn keeps_on_leave(u: Seq<u8>) -> spec_fn(Seq<u8>) -> bool {
    |w: Seq<u8>| w != u
}

/// A session is stale once it has exceeded the duration budget or sat idle
/// past the idle budget, measured on the caller's clock.
pub open spec fn session_stale(
    s: SessionModel,
    now_ms: u64,
    max_session_ms: u64,
    max_idle_ms: u64,
) -> bool {
    now_ms - s.start_time_ms > max_session_ms || now_ms - s.last_activity_ms > max_idle_ms
}

impl QueueModel {
    /// The user is somewhere in the waiting list.
    pub open spec fn user_waiting(self, u: Seq<u8>) -> bool {
        self.waiting.contains(u)
    }

    /// The user holds the active session.
    pub open spec fn user_active(self, u: Seq<u8>) -> bool {
        match self.active {
            Some(s) => s.user_id == u,
            None => false,
        }
    }

    /// The user is known to the queue, waiting or active.
    pub open spec fn in_system(self, u: Seq<u8>) -> bool {
        self.user_waiting(u) || self.user_active(u)
    }

    /// The part of well-formedness that survives mid-transition, while the
    /// active slot is momentarily free: no identifier appears twice in the
    /// waiting list, and the active user is not also waiting.
    pub open spec fn pre_wf(self) -> bool {
        &&& forall|i: int, j: int|
            0 <= i < j < self.waiting.len() ==> self.waiting[i] != self.waiting[j]
        &&& match self.active {
            Some(s) => !self.waiting.contains(s.user_id),
            None => true,
        }
    }

    /// Well-formedness: `pre_wf` and, since the queue promotes eagerly,
    /// nobody waits while the active slot is free.
    pub open spec fn wf(self) -> bool {
        &&& self.pre_wf()
        &&& self.active is None ==> self.waiting.len() == 0
    }

    /// The published snapshot: position is the number of waiting users
    /// (saturated at the field's maximum), the estimate a fixed amount per slot.
    pub open spec fn spec_queue_state(self) -> QueueState {
        let position: u32 = if self.waiting.len() > u32::MAX {
            u32::MAX
        } else {
            self.waiting.len() as u32
        };
        QueueState {
            position,
            estimated_wait_secs: (position * WAIT_SECS_PER_SLOT) as u64,
        }
    }

    /// Promotion: when the active slot is free and somebody waits, the head
    /// of the queue becomes active with fresh timestamps.
    pub open spec fn spec_promote(self, now_ms: u64) -> QueueModel {
        if self.active is None && self.waiting.len() > 0 {
            QueueModel {
                waiting: self.waiting.drop_first(),
                active: Some(
                    SessionModel {
                        user_id: self.waiting[0],
                        start_time_ms: now_ms,
                        last_activity_ms: now_ms,
                    },
                ),
                ..self
            }
        } else {
            self
        }
    }

    /// Joining: a known user is rejected and nothing changes; otherwise the
    /// user is appended and promotion runs.
    pub open spec fn spec_join(self, u: Seq<u8>, now_ms: u64) -> QueueModel {
        if self.in_system(u) {
            self
        } else {
            QueueModel { waiting: self.waiting.push(u), ..self }.spec_promote(now_ms)
        }
    }

    /// What `join_queue` hands back for each input.
    pub open spec fn spec_join_result(self, u: Seq<u8>, now_ms: u64) -> Result<
        QueueState,
        QueueError,
    > {
        if self.in_system(u) {
            Err(QueueError::AlreadyQueued)
        } else {
            Ok(self.spec_join(u, now_ms).spec_queue_state())
        }
    }

    /// Leaving: the active user's session completes and promotion runs;
    /// a waiting user is removed; an unknown user changes nothing.
    pub open spec fn spec_leave(self, u: Seq<u8>, now_ms: u64) -> QueueModel {
        if self.user_active(u) {
            QueueModel { active: None, ..self }.spec_promote(now_ms)
        } else {
            QueueModel { waiting: self.waiting.filter(keeps_on_leave(u)), ..self }
        }
    }

    /// An activity ping from the active user refreshes the idle timer and
    /// nothing else; from anyone else it changes nothing.
    pub open spec fn spec_touch(self, u: Seq<u8>, now_ms: u64) -> QueueModel {
        match self.active {
            Some(s) => if s.user_id == u {
                QueueModel {
                    active: Some(SessionModel { last_activity_ms: now_ms, ..s }),
                    ..self
                }
            } else {
                self
            },
            None => self,
        }
    }

    /// Reclamation: a stale session is cleared and promotion runs in the
    /// same step; otherwise the queue is untouched.
    pub open spec fn spec_reap(self, now_ms: u64) -> QueueModel {
        match self.active {
            Some(s) => if session_stale(s, now_ms, self.max_session_ms, self.max_idle_ms) {
                QueueModel { active: None, ..self }.spec_promote(now_ms)
            } else {
                self
            },
            None => self,
        }
    }
}

/// Promotion turns any mid-transition state back into a well-formed one.
pub proof fn lemma_promote_preserves_wf(q: QueueModel, now_ms: u64)
    requires
        q.pre_wf(),
    ensures
        q.spec_promote(now_ms).wf(),
{
    if q.active is None && q.waiting.len() > 0 {
        let p = q.spec_promote(now_ms);
        assert forall|k: int| 0 <= k < p.waiting.len() implies p.waiting[k] != q.waiting[0] by {
            assert(p.waiting[k] == q.waiting[k + 1]);
        }
        assert(!p.waiting.contains(q.waiting[0]));
    }
}

/// Promotion takes the head of the waiting list — the earliest joiner —
/// gives it a session with fresh timestamps, and leaves the rest of the
/// list in order.
pub proof fn lemma_promote_takes_head(q: QueueModel, now_ms: u64)
    requires
        q.active is None,
        q.waiting.len() > 0,
    ensures
        q.spec_promote(now_ms).active == Some(
            SessionModel { user_id: q.waiting[0], start_time_ms: now_ms, last_activity_ms: now_ms },
        ),
        q.spec_promote(now_ms).waiting == q.waiting.drop_first(),
{
}

/// Promotion creates a session exactly when the active slot is free and
/// somebody waits; in every other state it changes nothing — so it never
/// makes a second active session.
pub proof fn lemma_promote_only_when_free(q: QueueModel, now_ms: u64)
    ensures
        q.active is Some ==> q.spec_promote(now_ms) == q,
        q.active is None && q.waiting.len() == 0 ==> q.spec_promote(now_ms) == q,
        q.spec_promote(now_ms).active is Some <==> (q.active is Some || q.waiting.len() > 0),
{
}

/// Joining preserves well-formedness: the waiting list stays free of
/// duplicates and the active user is never also waiting.
pub proof fn lemma_join_preserves_wf(q: QueueModel, u: Seq<u8>, now_ms: u64)
    requires
        q.wf(),
    ensures
        q.spec_join(u, now_ms).wf(),
{
    if !q.in_system(u) {
        let mid = QueueModel { waiting: q.waiting.push(u), ..q };
        assert forall|i: int, j: int|
            0 <= i < j < mid.waiting.len() implies mid.waiting[i] != mid.waiting[j] by {
            if j == q.waiting.len() {
                assert(mid.waiting[i] == q.waiting[i]);
                assert(q.waiting.contains(q.waiting[i]));
            }
        }
        match q.active {
            Some(s) => {
                assert forall|k: int|
                    0 <= k < mid.waiting.len() implies mid.waiting[k] != s.user_id by {
                    if k < q.waiting.len() {
                        assert(q.waiting.contains(q.waiting[k]));
                    }
                }
                assert(!mid.waiting.contains(s.user_id));
                assert(mid.wf());
            },
            None => {
                assert(mid.waiting =~= seq![u]);
                lemma_promote_preserves_wf(mid, now_ms);
            },
        }
    }
}

/// Filtering a duplicate-free sequence keeps it duplicate-free and adds
/// no new elements.
pub proof fn lemma_filter_keeps_distinct(s: Seq<Seq<u8>>, pred: spec_fn(Seq<u8>) -> bool)
    requires
        forall|i: int, j: int| 0 <= i < j < s.len() ==> s[i] != s[j],
    ensures
        forall|i: int, j: int|
            0 <= i < j < s.filter(pred).len() ==> s.filter(pred)[i] != s.filter(pred)[j],
        forall|x: Seq<u8>| #[trigger] s.filter(pred).contains(x) ==> s.contains(x),
    decreases s.len(),
{
    reveal(Seq::filter);
    if s.len() > 0 {
        let dl = s.drop_last();
        assert forall|i: int, j: int| 0 <= i < j < dl.len() implies dl[i] != dl[j] by {
            assert(dl[i] == s[i] && dl[j] == s[j]);
        }
        lemma_filter_keeps_distinct(dl, pred);
        let f = s.filter(pred);
        let fd = dl.filter(pred);
        assert forall|x: Seq<u8>| #[trigger] f.contains(x) implies s.contains(x) by {
            if fd.contains(x) {
                assert(dl.contains(x));
                let w = choose|w: int| 0 <= w < dl.len() && dl[w] == x;
                assert(s[w] == x);
            } else {
                assert(x == s.last());
                assert(s[s.len() - 1] == x);
            }
        }
        if pred(s.last()) {
            assert forall|k: int| 0 <= k < dl.len() implies dl[k] != s.last() by {
                assert(dl[k] == s[k]);
            }
            assert(!dl.contains(s.last()));
            assert(!fd.contains(s.last()));
            assert forall|i: int, j: int| 0 <= i < j < f.len() implies f[i] != f[j] by {
                if j == f.len() - 1 {
                    assert(f[j] == s.last());
                    assert(fd.contains(fd[i]));
                }
            }
        }
    }
}

/// Leaving preserves well-formedness.
pub proof fn lemma_leave_preserves_wf(q: QueueModel, u: Seq<u8>, now_ms: u64)
    requires
        q.wf(),
    ensures
        q.spec_leave(u, now_ms).wf(),
{
    if q.user_active(u) {
        lemma_promote_preserves_wf(QueueModel { active: None, ..q }, now_ms);
    } else {
        reveal(Seq::filter);
        let pred = keeps_on_leave(u);
        lemma_filter_keeps_distinct(q.waiting, pred);
        let res = q.spec_leave(u, now_ms);
        assert(res.waiting == q.waiting.filter(pred));
        match q.active {
            Some(s) => {
                if q.waiting.filter(pred).contains(s.user_id) {
                    assert(q.waiting.contains(s.user_id));
                }
                assert(res.pre_wf());
            },
            None => {
                assert(q.waiting =~= Seq::<Seq<u8>>::empty());
                assert(q.waiting.filter(pred) =~= Seq::<Seq<u8>>::empty());
                assert(res.pre_wf());
            },
        }
        assert(res.wf());
    }
}

/// An activity ping preserves well-formedness.
pub proof fn lemma_touch_preserves_wf(q: QueueModel, u: Seq<u8>, now_ms: u64)
    requires
        q.wf(),
    ensures
        q.spec_touch(u, now_ms).wf(),
{
}

/// Reclamation preserves well-formedness.
pub proof fn lemma_reap_preserves_wf(q: QueueModel, now_ms: u64)
    requires
        q.wf(),
    ensures
        q.spec_reap(now_ms).wf(),
{
    match q.active {
        Some(s) => {
            if session_stale(s, now_ms, q.max_session_ms, q.max_idle_ms) {
                lemma_promote_preserves_wf(QueueModel { active: None, ..q }, now_ms);
            }
        },
        None => {},
    }
}

/// Reclamation is idempotent at a fixed instant: a session installed by a
/// reclamation has fresh timestamps, so a second pass finds nothing stale.
pub proof fn lemma_reap_idempotent(q: QueueModel, now_ms: u64)
    requires
        q.wf(),
    ensures
        q.spec_reap(now_ms).spec_reap(now_ms) == q.spec_reap(now_ms),
{
}

/// A stale session is reclaimed and the next waiting user, when there is
/// one, is promoted within the same reclamation step.
pub proof fn lemma_reap_reclaims_and_promotes(q: QueueModel, now_ms: u64)
    requires
        q.wf(),
        q.active is Some,
        session_stale(q.active->Some_0, now_ms, q.max_session_ms, q.max_idle_ms),
    ensures
        q.waiting.len() > 0 ==> q.spec_reap(now_ms).user_active(q.waiting[0]),
        q.waiting.len() > 0 ==> q.spec_reap(now_ms).waiting =~= q.waiting.drop_first(),
        q.waiting.len() == 0 ==> q.spec_reap(now_ms).active is None,
{
}

/// Promotion is first-in, first-out: when two distinct users join an idle
/// queue in order, the first is active at once and the second waits; the
/// second is promoted exactly when the first leaves or is reclaimed.
pub proof fn lemma_fifo(q: QueueModel, a: Seq<u8>, b: Seq<u8>, t1: u64, t2: u64, t3: u64)
    requires
        q.wf(),
        q.active is None,
        a != b,
    ensures
        q.spec_join(a, t1).user_active(a),
        q.spec_join(a, t1).spec_join(b, t2).user_active(a),
        q.spec_join(a, t1).spec_join(b, t2).waiting =~= seq![b],
        q.spec_join(a, t1).spec_join(b, t2).spec_leave(a, t3).user_active(b),
        session_stale(
            q.spec_join(a, t1).spec_join(b, t2).active->Some_0,
            t3,
            q.max_session_ms,
            q.max_idle_ms,
        ) ==> q.spec_join(a, t1).spec_join(b, t2).spec_reap(t3).user_active(b),
{
    let q1 = q.spec_join(a, t1);
    assert(q.waiting.push(a)[0] == a);
    assert(q.waiting.push(a).drop_first() =~= Seq::<Seq<u8>>::empty());
    assert(q1.user_active(a));
    let q2 = q1.spec_join(b, t2);
    assert(!q1.in_system(b));
    assert(q2.waiting =~= seq![b]);
    assert(q2.waiting[0] == b);
    assert(q2.spec_leave(a, t3).user_active(b));
}

#[verifier::external_type_specification]
#[verifier::external_body]
#[verifier::reject_recursive_types(T)]
pub struct ExBroadcastSender<T>(tokio::sync::broadcast::Sender<T>);

#[verifier::external_type_specification]
#[verifier::external_body]
#[verifier::reject_recursive_types(T)]
pub struct ExBroadcastReceiver<T>(tokio::sync::broadcast::Receiver<T>);

/// Relies on tokio::sync::broadcast::channel: yields the sending half of a
/// fresh bounded fan-out channel. The capacity is positive and small, so the
/// call does not panic.
#[verifier::external_body]
fn new_state_channel() -> tokio::sync::broadcast::Sender<QueueState> {
    let (tx, _rx) = tokio::sync::broadcast::channel(STATE_CHANNEL_CAPACITY);
    tx
}

/// Relies on tokio::sync::broadcast::Sender::send: best-effort fan-out that
/// never blocks; a send with no subscribers, or past a lagging subscriber,
/// is simply dropped for that subscriber.
#[verifier::external_body]
fn publish_snapshot(tx: &tokio::sync::broadcast::Sender<QueueState>, st: QueueState) {
    let _ = tx.send(st);
}

/// Relies on tokio::sync::broadcast::Sender::subscribe: a fresh receiver
/// that observes only snapshots published after this call, never history.
#[verifier::external_body]
fn subscribe_snapshot_channel(
    tx: &tokio::sync::broadcast::Sender<QueueState>,
) -> tokio::sync::broadcast::Receiver<QueueState> {
    tx.subscribe()
}

/// The admission queue: waiting users in arrival order, at most one active
/// session, and the sending half of the snapshot channel.
pub struct Queue {
    waiting: Vec<Vec<u8>>,
    active_session: Option<SessionState>,
    state_tx: tokio::sync::broadcast::Sender<QueueState>,
    max_session_duration_ms: u64,
    max_idle_time_ms: u64,
}

impl View for Queue {
    type V = QueueModel;

    closed spec fn view(&self) -> QueueModel {
        QueueModel {
            waiting: crate::bytes::views_of(self.waiting@),
            active: match self.active_session {
                Some(s) => Some(s@),
                None => None,
            },
            max_session_ms: self.max_session_duration_ms,
            max_idle_ms: self.max_idle_time_ms,
        }
    }
}

impl Queue {
    /// An empty queue with the default duration and idle budgets.
    pub fn new() -> (q: Queue)
        ensures
            q@.wf(),
            q@.waiting.len() == 0,
            q@.active is None,
            q@.max_session_ms == MAX_SESSION_DURATION_MS,
            q@.max_idle_ms == MAX_IDLE_TIME_MS,
    {
        let q = Queue {
            waiting: Vec::new(),
            active_session: None,
            state_tx: new_state_channel(),
            max_session_duration_ms: MAX_SESSION_DURATION_MS,
            max_idle_time_ms: MAX_IDLE_TIME_MS,
        };
        proof {
            assert(q@.waiting =~= Seq::<Seq<u8>>::empty());
        }
        q
    }

    /// Whether the user is waiting or holds the active session.
    fn is_known(&self, user_id: &Vec<u8>) -> (r: bool)
        ensures
            r == self@.in_system(user_id@),
    {
        if let Some(s) = &self.active_session {
            if bytes_eq(&s.user_id, user_id) {
                return true;
            }
        }
        let n = self.waiting.len();
        let mut i: usize = 0;
        while i < n
            invariant
                n == self.waiting@.len(),
                0 <= i <= n,
                forall|k: int| 0 <= k < i ==> self@.waiting[k] != user_id@,
            decreases n - i,
        {
            if bytes_eq(&self.waiting[i], user_id) {
                assert(self@.waiting[i as int] == user_id@);
                return true;
            }
            i += 1;
        }
        assert(!self@.user_waiting(user_id@));
        false
    }

    /// The snapshot that every mutation publishes.
    fn get_queue_state(&self) -> (r: QueueState)
        ensures
            r == self@.spec_queue_state(),
    {
        let len = self.waiting.len();
        let position: u32 = if len > u32::MAX as usize {
            u32::MAX
        } else {
            len as u32
        };
        QueueState { position, estimated_wait_secs: (position as u64) * WAIT_SECS_PER_SLOT }
    }

    /// Push the snapshot to all current subscribers, best effort.
    fn broadcast_state(&self, state: QueueState) {
        publish_snapshot(&self.state_tx, state);
    }

    /// Promote the head of the waiting list when the active slot is free.
    fn process_queue(&mut self, now_ms: u64)
        requires
            old(self)@.pre_wf(),
        ensures
            final(self)@ == old(self)@.spec_promote(now_ms),
            final(self)@.wf(),
    {
        proof {
            lemma_promote_preserves_wf(old(self)@, now_ms);
        }
        if self.active_session.is_none() && self.waiting.len() > 0 {
            let ghost pre = self@;
            let next_user = self.waiting.remove(0);
            self.active_session = Some(
                SessionState {
                    user_id: next_user,
                    start_time_ms: now_ms,
                    last_activity_ms: now_ms,
                },
            );
            proof {
                assert(self@.waiting =~= pre.waiting.drop_first());
                assert(self@ =~~= pre.spec_promote(now_ms));
            }
            let st = self.get_queue_state();
            self.broadcast_state(st);
        }
    }

    /// Join: a user already waiting or active is rejected; anyone else is
    /// appended, promotion runs, and the caller's own snapshot is returned
    /// and published.
    pub fn join_queue(&mut self, user_id: Vec<u8>, now_ms: u64) -> (r: Result<
        QueueState,
        QueueError,
    >)
        requires
            old(self)@.wf(),
        ensures
            final(self)@ == old(self)@.spec_join(user_id@, now_ms),
            final(self)@.wf(),
            r == old(self)@.spec_join_result(user_id@, now_ms),
    {
        let ghost pre = self@;
        let ghost uv = user_id@;
        if self.is_known(&user_id) {
            return Err(QueueError::AlreadyQueued);
        }
        self.waiting.push(user_id);
        proof {
            assert(self@.waiting =~= pre.waiting.push(uv));
            assert(self@ =~~= QueueModel { waiting: pre.waiting.push(uv), ..pre });
            assert(self@.pre_wf()) by {
                lemma_join_preserves_wf(pre, uv, now_ms);
                assert forall|i: int, j: int|
                    0 <= i < j < self@.waiting.len() implies self@.waiting[i]
                    != self@.waiting[j] by {
                    if j == pre.waiting.len() {
                        assert(pre.waiting.contains(pre.waiting[i]));
                    }
                }
                match pre.active {
                    Some(s) => {
                        assert forall|k: int|
                            0 <= k < self@.waiting.len() implies self@.waiting[k]
                            != s.user_id by {
                            if k < pre.waiting.len() {
                                assert(pre.waiting.contains(pre.waiting[k]));
                            }
                        }
                        assert(!self@.waiting.contains(s.user_id));
                    },
                    None => {},
                }
            }
        }
        self.process_queue(now_ms);
        let st = self.get_queue_state();
        self.broadcast_state(st);
        Ok(st)
    }

    /// Leave: the active user's session completes and the next waiter is
    /// promoted; a waiting user is removed; in every case the new snapshot
    /// is published and the call succeeds.
    pub fn leave_queue(&mut self, user_id: &Vec<u8>, now_ms: u64) -> (r: Result<(), QueueError>)
        requires
            old(self)@.wf(),
        ensures
            final(self)@ == old(self)@.spec_leave(user_id@, now_ms),
            final(self)@.wf(),
            r is Ok,
    {
        let ghost pre = self@;
        proof {
            lemma_leave_preserves_wf(pre, user_id@, now_ms);
        }
        let mut was_active = false;
        if let Some(s) = &self.active_session {
            if bytes_eq(&s.user_id, user_id) {
                was_active = true;
            }
        }
        if was_active {
            self.active_session = None;
            self.process_queue(now_ms);
            proof {
                assert(self@ =~~= pre.spec_leave(user_id@, now_ms));
            }
        } else {
            let ghost pred = keeps_on_leave(user_id@);
            let mut kept: Vec<Vec<u8>> = Vec::new();
            let n = self.waiting.len();
            let mut i: usize = 0;
            while i < n
                invariant
                    n == self.waiting@.len(),
                    0 <= i <= n,
                    self@ == pre,
                    pred == keeps_on_leave(user_id@),
                    crate::bytes::views_of(kept@) == pre.waiting.take(i as int).filter(pred),
                decreases n - i,
            {
                proof {
                    reveal(Seq::filter);
                    let taken = pre.waiting.take(i as int);
                    let taken1 = pre.waiting.take(i + 1 as int);
                    assert(taken1.drop_last() =~= taken);
                    assert(taken1.last() == pre.waiting[i as int]);
                }
                if !bytes_eq(&self.waiting[i], user_id) {
                    let entry = crate::bytes::copy_bytes(&self.waiting[i]);
                    kept.push(entry);
                    proof {
                        assert(crate::bytes::views_of(kept@) =~= crate::bytes::views_of(
                            kept@.drop_last(),
                        ).push(pre.waiting[i as int]));
                        assert(crate::bytes::views_of(kept@) =~= pre.waiting.take(
                            i + 1 as int,
                        ).filter(pred));
                    }
                } else {
                    proof {
                        assert(crate::bytes::views_of(kept@) =~= pre.waiting.take(
                            i + 1 as int,
                        ).filter(pred));
                    }
                }
                i += 1;
            }
            proof {
                assert(pre.waiting.take(n as int) =~= pre.waiting);
            }
            self.waiting = kept;
            proof {
                assert(self@ =~~= pre.spec_leave(user_id@, now_ms));
            }
        }
        let st = self.get_queue_state();
        self.broadcast_state(st);
        Ok(())
    }

    /// Whether anyone is waiting or a session is active.
    pub fn has_pending_users(&self) -> (r: bool)
        ensures
            r == (self@.waiting.len() > 0 || self@.active is Some),
    {
        self.waiting.len() > 0 || self.active_session.is_some()
    }

    /// Activity ping: refreshes the idle timer of the active user's session;
    /// rejected for anyone else.
    pub fn update_activity(&mut self, user_id: &Vec<u8>, now_ms: u64) -> (r: Result<
        (),
        QueueError,
    >)
        requires
            old(self)@.wf(),
        ensures
            final(self)@ == old(self)@.spec_touch(user_id@, now_ms),
            final(self)@.wf(),
            r is Ok <==> old(self)@.user_active(user_id@),
            r is Err ==> r == Err::<(), QueueError>(QueueError::NoActiveSession),
    {
        let ghost pre = self@;
        if let Some(s) = &mut self.active_session {
            if bytes_eq(&s.user_id, user_id) {
                s.last_activity_ms = now_ms;
                proof {
                    assert(self@ =~~= pre.spec_touch(user_id@, now_ms));
                }
                return Ok(());
            }
        }
        Err(QueueError::NoActiveSession)
    }

    /// Reclamation: a session over its duration budget or idle past its
    /// idle budget is cleared and the next waiter promoted, in this same
    /// call; a fresh session is left untouched. Never an error.
    pub fn cleanup_stale_sessions(&mut self, now_ms: u64) -> (r: Result<(), QueueError>)
        requires
            old(self)@.wf(),
        ensures
            final(self)@ == old(self)@.spec_reap(now_ms),
            final(self)@.wf(),
            r is Ok,
    {
        let ghost pre = self@;
        proof {
            lemma_reap_preserves_wf(pre, now_ms);
        }
        let mut stale = false;
        if let Some(s) = &self.active_session {
            if (now_ms >= s.start_time_ms && now_ms - s.start_time_ms > self.max_session_duration_ms)
                || (now_ms >= s.last_activity_ms && now_ms - s.last_activity_ms
                > self.max_idle_time_ms) {
                stale = true;
            }
        }
        if stale {
            self.end_session(now_ms);
            proof {
                assert(self@ =~~= pre.spec_reap(now_ms));
            }
        }
        Ok(())
    }

    /// Clear the active session and promote the next waiter.
    fn end_session(&mut self, now_ms: u64)
        requires
            old(self)@.pre_wf(),
        ensures
            final(self)@ == (QueueModel { active: None, ..old(self)@ }).spec_promote(now_ms),
            final(self)@.wf(),
    {
        self.active_session = None;
        self.process_queue(now_ms);
    }

    /// A receiver of every snapshot published after this call.
    pub fn subscribe_to_updates(&self) -> tokio::sync::broadcast::Receiver<QueueState> {
        subscribe_snapshot_channel(&self.state_tx)
    }

    /// The identifier of the active user, if a session is active.
    pub fn active_user(&self) -> (r: Option<Vec<u8>>)
        ensures
            match r {
                Some(u) => self@.active is Some && u@ == self@.active->Some_0.user_id,
                None => self@.active is None,
            },
    {
        match &self.active_session {
            Some(s) => Some(crate::bytes::copy_bytes(&s.user_id)),
            None => None,
        }
    }

    /// The waiting identifiers, in queue order.
    pub fn waiting_users(&self) -> (r: Vec<Vec<u8>>)
        ensures
            crate::bytes::views_of(r@) == self@.waiting,
    {
        let mut out: Vec<Vec<u8>> = Vec::new();
        let n = self.waiting.len();
        let mut i: usize = 0;
        while i < n
            invariant
                n == self.waiting@.len(),
                0 <= i <= n,
                crate::bytes::views_of(out@) == self@.waiting.take(i as int),
            decreases n - i,
        {
            let entry = crate::bytes::copy_bytes(&self.waiting[i]);
            let ghost prev_out = out@;
            let ghost ev = entry@;
            out.push(entry);
            proof {
                assert(crate::bytes::views_of(out@) =~= crate::bytes::views_of(prev_out).push(ev));
                assert(crate::bytes::views_of(out@) =~= self@.waiting.take(i + 1 as int));
            }
            i += 1;
        }
        proof {
            assert(self@.waiting.take(n as int) =~= self@.waiting);
        }
        out
    }
}

} // verus!
