use crate::auth::Claims;
use crate::claim::ClaimState;
use crate::errors::ApiError;
use vstd::prelude::*;

verus! {

/// One envelope as a sender submits it. The sender's user is never read
/// from here; `from_device_id` counts only where the credential is bound
/// to no device.
#[derive(Debug, Clone, PartialEq, Eq)]
pub struct SendReq {
    pub to_user_id: u128,
    pub to_device_id: u128,
    pub from_device_id: u128,
    pub ciphertext_b64: String,
    pub msg_type: String,
}

#[derive(Debug, Clone, Copy, PartialEq, Eq)]
pub struct SendResp {
    pub ok: bool,
}

#[derive(Debug, Clone, Copy, PartialEq, Eq)]
pub struct InboxQuery {
    pub device_id: u128,
}

/// One envelope as it is handed to the recipient device.
#[derive(Debug, Clone, PartialEq, Eq)]
pub struct InboxItem {
    pub id: u64,
    pub to_user_id: u128,
    pub to_device_id: u128,
    pub from_user_id: u128,
    pub from_device_id: u128,
    pub msg_type: String,
    pub ciphertext_b64: String,
    pub created_at: i64,
}

/// One stored envelope. `state` is `Available` while it is pending and
/// `Claimed { at }` once it has been delivered at time `at`.
#[derive(Debug, Clone, PartialEq, Eq)]
pub struct Envelope {
    pub id: u64,
    pub to_user_id: u128,
    pub to_device_id: u128,
    pub from_user_id: u128,
    pub from_device_id: u128,
    pub msg_type: String,
    pub ciphertext_b64: String,
    pub created_at: i64,
    pub state: ClaimState,
}

/// The queue of envelopes, oldest first.
pub struct MessageRelay {
    rows: Vec<Envelope>,
    next_id: u64,
}

/// Ids grow along the queue and stay below the next id to hand out, so no
/// two rows share one.
pub open spec fn rows_wf(rows: Seq<Envelope>, next_id: u64) -> bool {
    &&& forall|i: int, j: int| 0 <= i < j < rows.len() ==> rows[i].id < rows[j].id
    &&& forall|i: int| 0 <= i < rows.len() ==> rows[i].id < next_id
}

/// Whether the envelope is addressed to the given device.
pub open spec fn addressed_to(e: Envelope, user_id: u128, device_id: u128) -> bool {
    e.to_user_id == user_id && e.to_device_id == device_id
}

/// An envelope that a fetch for the device may take now: addressed to it,
/// not delivered, and not held by an unfinished fetch.
pub open spec fn is_pending(e: Envelope, user_id: u128, device_id: u128) -> bool {
    addressed_to(e, user_id, device_id) && e.state is Available
}

/// The envelopes a fetch for the device may take, oldest first.
pub open spec fn pending(rows: Seq<Envelope>, user_id: u128, device_id: u128) -> Seq<Envelope>
    decreases rows.len(),
{
    if rows.len() == 0 {
        Seq::empty()
    } else {
        let before = pending(rows.drop_last(), user_id, device_id);
        if is_pending(rows.last(), user_id, device_id) {
            before.push(rows.last())
        } else {
            before
        }
    }
}

/// How many envelopes one fetch hands out: all pending ones, up to the limit.
pub open spec fn batch_len(rows: Seq<Envelope>, user_id: u128, device_id: u128, max_batch: int) -> int {
    let p = pending(rows, user_id, device_id).len() as int;
    if p < max_batch {
        p
    } else if max_batch < 0 {
        0
    } else {
        max_batch
    }
}

/// Whether a fetch for the device with the given limit takes row `j`: the
/// row is pending and fewer than `max_batch` pending rows stand before it.
pub open spec fn takes(rows: Seq<Envelope>, j: int, user_id: u128, device_id: u128, max_batch: int) -> bool {
    &&& 0 <= j < rows.len()
    &&& is_pending(rows[j], user_id, device_id)
    &&& pending(rows.take(j), user_id, device_id).len() < max_batch
}

/// The envelope with another state and everything else as it was.
pub open spec fn with_state(e: Envelope, state: ClaimState) -> Envelope {
    Envelope {
        id: e.id,
        to_user_id: e.to_user_id,
        to_device_id: e.to_device_id,
        from_user_id: e.from_user_id,
        from_device_id: e.from_device_id,
        msg_type: e.msg_type,
        ciphertext_b64: e.ciphertext_b64,
        created_at: e.created_at,
        state,
    }
}

/// The envelope as it is handed to its recipient.
pub open spec fn item_of(e: Envelope) -> InboxItem {
    InboxItem {
        id: e.id,
        to_user_id: e.to_user_id,
        to_device_id: e.to_device_id,
        from_user_id: e.from_user_id,
        from_device_id: e.from_device_id,
        msg_type: e.msg_type,
        ciphertext_b64: e.ciphertext_b64,
        created_at: e.created_at,
    }
}

/// What one fetch returns: the oldest pending envelopes of the device, up to
/// the limit, in queue order.
pub open spec fn inbox_items(rows: Seq<Envelope>, user_id: u128, device_id: u128, max_batch: int) -> Seq<InboxItem> {
    pending(rows, user_id, device_id).take(batch_len(rows, user_id, device_id, max_batch)).map_values(
        |e: Envelope| item_of(e),
    )
}

/// The queue after one fetch at time `now`: the rows it takes are
/// delivered, every other row is as before.
pub open spec fn rows_after_inbox(rows: Seq<Envelope>, user_id: u128, device_id: u128, max_batch: int, now: i64) -> Seq<Envelope> {
    Seq::new(
        rows.len(),
        |j: int|
            if takes(rows, j, user_id, device_id, max_batch) {
                with_state(rows[j], ClaimState::Claimed { at: now })
            } else {
                rows[j]
            },
    )
}

/// The row that a submitted envelope becomes: sender taken from the
/// credential, pending, created at `now`.
pub open spec fn envelope_of(claims: Claims, req: SendReq, id: u64, now: i64) -> Envelope {
    Envelope {
        id,
        to_user_id: req.to_user_id,
        to_device_id: req.to_device_id,
        from_user_id: claims.sub,
        from_device_id: claims.device_or(req.from_device_id),
        msg_type: req.msg_type,
        ciphertext_b64: req.ciphertext_b64,
        created_at: now,
        state: ClaimState::Available,
    }
}

/// The queue after a batch has been appended, ids counted up from `next_id`.
pub open spec fn rows_after_send(rows: Seq<Envelope>, claims: Claims, reqs: Seq<SendReq>, next_id: u64, now: i64) -> Seq<Envelope> {
    rows + Seq::new(reqs.len(), |k: int| envelope_of(claims, reqs[k], (next_id + k) as u64, now))
}

/// The queue with `change` applied to the state of the row that has the
/// given id, if there is one.
pub open spec fn rows_with_change(rows: Seq<Envelope>, id: u64, change: spec_fn(ClaimState) -> ClaimState) -> Seq<Envelope> {
    Seq::new(
        rows.len(),
        |j: int|
            if rows[j].id == id {
                with_state(rows[j], change(rows[j].state))
            } else {
                rows[j]
            },
    )
}

/// Whether the queue has a row with the given id in a state that `wanted` accepts.
pub open spec fn has_row_in(rows: Seq<Envelope>, id: u64, wanted: spec_fn(ClaimState) -> bool) -> bool {
    exists|j: int| 0 <= j < rows.len() && rows[j].id == id && wanted(#[trigger] rows[j].state)
}

/// What the queue is made of: its rows and the next id to hand out.
pub struct RelayState {
    pub rows: Seq<Envelope>,
    pub next_id: u64,
}

/// One call on the queue, with its arguments.
pub enum RelayOp {
    Send { claims: Claims, reqs: Seq<SendReq>, now: i64 },
    Inbox { claims: Claims, user_id: u128, device_id: u128, max_batch: int, now: i64 },
    Hold { id: u64 },
    Release { id: u64 },
    Commit { id: u64, now: i64 },
}

/// The queue after one call. A refused call leaves it as it was.
pub open spec fn relay_step(s: RelayState, op: RelayOp) -> RelayState {
    match op {
        RelayOp::Send { claims, reqs, now } => if s.next_id + reqs.len() > u64::MAX {
            s
        } else {
            RelayState {
                rows: rows_after_send(s.rows, claims, reqs, s.next_id, now),
                next_id: (s.next_id + reqs.len()) as u64,
            }
        },
        RelayOp::Inbox { claims, user_id, device_id, max_batch, now } => if claims.acts_for(user_id, device_id) {
            RelayState { rows: rows_after_inbox(s.rows, user_id, device_id, max_batch, now), next_id: s.next_id }
        } else {
            s
        },
        RelayOp::Hold { id } => RelayState {
            rows: rows_with_change(s.rows, id, |c: ClaimState| c.after_hold()),
            next_id: s.next_id,
        },
        RelayOp::Release { id } => RelayState {
            rows: rows_with_change(s.rows, id, |c: ClaimState| c.after_release()),
            next_id: s.next_id,
        },
        RelayOp::Commit { id, now } => RelayState {
            rows: rows_with_change(s.rows, id, |c: ClaimState| c.after_commit(now)),
            next_id: s.next_id,
        },
    }
}

/// The envelopes that one call hands to its caller.
pub open spec fn relay_output(s: RelayState, op: RelayOp) -> Seq<InboxItem> {
    match op {
        RelayOp::Inbox { claims, user_id, device_id, max_batch, now } => if claims.acts_for(user_id, device_id) {
            inbox_items(s.rows, user_id, device_id, max_batch)
        } else {
            Seq::empty()
        },
        _ => Seq::empty(),
    }
}

/// One more row adds itself to the pending envelopes where it is pending, and nothing otherwise.
pub proof fn lemma_pending_push(rows: Seq<Envelope>, e: Envelope, user_id: u128, device_id: u128)
    ensures
        pending(rows.push(e), user_id, device_id) == if is_pending(e, user_id, device_id) {
            pending(rows, user_id, device_id).push(e)
        } else {
            pending(rows, user_id, device_id)
        },
{
    assert(rows.push(e).drop_last() =~= rows);
}

/// The pending envelopes among the first `i + 1` rows, from those among the first `i`.
pub proof fn lemma_pending_take_next(rows: Seq<Envelope>, i: int, user_id: u128, device_id: u128)
    requires
        0 <= i < rows.len(),
    ensures
        pending(rows.take(i + 1), user_id, device_id) == if is_pending(rows[i], user_id, device_id) {
            pending(rows.take(i), user_id, device_id).push(rows[i])
        } else {
            pending(rows.take(i), user_id, device_id)
        },
{
    assert(rows.take(i + 1) =~= rows.take(i).push(rows[i]));
    lemma_pending_push(rows.take(i), rows[i], user_id, device_id);
}

impl View for MessageRelay {
    type V = Seq<Envelope>;

    /// The rows of the queue, oldest first, delivered ones included.
    closed spec fn view(&self) -> Seq<Envelope> {
        self.rows@
    }
}

impl MessageRelay {
    /// The id that the next appended envelope gets.
    pub closed spec fn next_id(&self) -> u64 {
        self.next_id
    }

    /// The queue's invariant: ids that grow along the queue.
    pub open spec fn wf(&self) -> bool {
        rows_wf(self@, self.next_id())
    }

    /// The queue as a plain value.
    pub open spec fn state(&self) -> RelayState {
        RelayState { rows: self@, next_id: self.next_id() }
    }

    /// An empty queue. Envelope ids start at zero.
    pub fn new() -> (relay: MessageRelay)
        ensures
            relay.wf(),
            relay@ == Seq::<Envelope>::empty(),
            relay.next_id() == 0,
    {
        MessageRelay { rows: Vec::new(), next_id: 0 }
    }

    /// An empty queue whose first envelope gets the id `first_id`.
    pub fn starting_at(first_id: u64) -> (relay: MessageRelay)
        ensures
            relay.wf(),
            relay@ == Seq::<Envelope>::empty(),
            relay.next_id() == first_id,
    {
        MessageRelay { rows: Vec::new(), next_id: first_id }
    }

    /// Appends a batch of envelopes, all or none, each pending and stamped
    /// with `now`. The batch is refused as a whole, with `Internal`, exactly
    /// when the store has not enough ids left for it.
    pub fn send(&mut self, claims: &Claims, reqs: &Vec<SendReq>, now: i64) -> (r: Result<SendResp, ApiError>)
        requires
            old(self).wf(),
        ensures
            final(self).wf(),
            old(self).next_id() + reqs@.len() > u64::MAX ==> r == Err::<SendResp, ApiError>(ApiError::Internal)
                && final(self)@ == old(self)@ && final(self).next_id() == old(self).next_id(),
            old(self).next_id() + reqs@.len() <= u64::MAX ==> r == Ok::<SendResp, ApiError>(SendResp { ok: true })
                && final(self)@ == rows_after_send(old(self)@, *claims, reqs@, old(self).next_id(), now)
                && final(self).next_id() == old(self).next_id() + reqs@.len(),
            final(self).state() == relay_step(old(self).state(), (RelayOp::Send { claims: *claims, reqs: reqs@, now })),
    {
        let n = reqs.len();
        if n as u64 > u64::MAX - self.next_id {
            return Err(ApiError::Internal);
        }
        let ghost start = self.rows@;
        let first = self.next_id;
        let mut k: usize = 0;
        while k < n
            invariant
                0 <= k <= n,
                n == reqs@.len(),
                first + n <= u64::MAX,
                self.next_id == first + k,
                rows_wf(start, first),
                self.rows@ == start + Seq::new(k as nat, |c: int| envelope_of(*claims, reqs@[c], (first + c) as u64, now)),
            decreases n - k,
        {
            let req = &reqs[k];
            let row = Envelope {
                id: self.next_id,
                to_user_id: req.to_user_id,
                to_device_id: req.to_device_id,
                from_user_id: claims.sub,
                from_device_id: claims.bound_device_or(req.from_device_id),
                msg_type: req.msg_type.clone(),
                ciphertext_b64: req.ciphertext_b64.clone(),
                created_at: now,
                state: ClaimState::Available,
            };
            self.rows.push(row);
            self.next_id = self.next_id + 1;
            k = k + 1;
            assert(self.rows@ =~= start + Seq::new(k as nat, |c: int| envelope_of(*claims, reqs@[c], (first + c) as u64, now)));
        }
        Ok(SendResp { ok: true })
    }

    /// Hands the device its oldest pending envelopes, at most `max_batch`
    /// of them, and marks them delivered at `now` in the same step. Rows
    /// held by an unfinished fetch are passed over. The call is refused
    /// with `Forbidden`, and changes nothing, exactly when the caller does
    /// not act for that user and device.
    pub fn inbox(&mut self, claims: &Claims, user_id: u128, q: &InboxQuery, max_batch: usize, now: i64) -> (r: Result<Vec<InboxItem>, ApiError>)
        requires
            old(self).wf(),
        ensures
            final(self).wf(),
            final(self).next_id() == old(self).next_id(),
            !claims.acts_for(user_id, q.device_id) ==> r == Err::<Vec<InboxItem>, ApiError>(ApiError::Forbidden)
                && final(self)@ == old(self)@,
            claims.acts_for(user_id, q.device_id) ==> r is Ok
                && r->Ok_0@ == inbox_items(old(self)@, user_id, q.device_id, max_batch as int)
                && final(self)@ == rows_after_inbox(old(self)@, user_id, q.device_id, max_batch as int, now),
            final(self).state() == relay_step(
                old(self).state(),
                (RelayOp::Inbox { claims: *claims, user_id, device_id: q.device_id, max_batch: max_batch as int, now }),
            ),
            r is Ok ==> r->Ok_0@ == relay_output(
                old(self).state(),
                (RelayOp::Inbox { claims: *claims, user_id, device_id: q.device_id, max_batch: max_batch as int, now }),
            ),
    {
        if !claims.may_act_for(user_id, q.device_id) {
            return Err(ApiError::Forbidden);
        }
        let device_id = q.device_id;
        let ghost start = self.rows@;
        let ghost max = max_batch as int;
        let ghost next = self.next_id;
        let mut out: Vec<InboxItem> = Vec::new();
        let n = self.rows.len();
        let mut i: usize = 0;
        while i < n
            invariant
                0 <= i <= n,
                n == start.len(),
                self.rows@.len() == n,
                max == max_batch as int,
                self.next_id == next,
                rows_wf(start, next),
                forall|j: int| 0 <= j < i ==> self.rows@[j] == rows_after_inbox(start, user_id, device_id, max, now)[j],
                forall|j: int| i <= j < n ==> self.rows@[j] == start[j],
                out@ == inbox_items(start.take(i as int), user_id, device_id, max),
                out@.len() == batch_len(start.take(i as int), user_id, device_id, max),
            decreases n - i,
        {
            proof {
                lemma_pending_take_next(start, i as int, user_id, device_id);
            }
            let matches_device = self.rows[i].to_user_id == user_id && self.rows[i].to_device_id == device_id;
            if matches_device && out.len() < max_batch {
                let won = self.rows[i].state.try_claim(now);
                if won {
                    let row = &self.rows[i];
                    let item = InboxItem {
                        id: row.id,
                        to_user_id: row.to_user_id,
                        to_device_id: row.to_device_id,
                        from_user_id: row.from_user_id,
                        from_device_id: row.from_device_id,
                        msg_type: row.msg_type.clone(),
                        ciphertext_b64: row.ciphertext_b64.clone(),
                        created_at: row.created_at,
                    };
                    out.push(item);
                    assert(self.rows@[i as int] == with_state(start[i as int], ClaimState::Claimed { at: now }));
                }
            }
            assert(out@ =~= inbox_items(start.take(i + 1), user_id, device_id, max));
            i = i + 1;
        }
        proof {
            assert(start.take(n as int) =~= start);
            assert(self.rows@ =~= rows_after_inbox(start, user_id, device_id, max, now));
        }
        Ok(out)
    }

    fn position(&self, id: u64) -> (r: Option<usize>)
        ensures
            match r {
                Some(j) => j < self@.len() && self@[j as int].id == id,
                None => forall|j: int| 0 <= j < self@.len() ==> self@[j].id != id,
            },
    {
        let n = self.rows.len();
        let mut i: usize = 0;
        while i < n
            invariant
                0 <= i <= n,
                n == self.rows@.len(),
                forall|j: int| 0 <= j < i ==> self.rows@[j].id != id,
            decreases n - i,
        {
            if self.rows[i].id == id {
                return Some(i);
            }
            i = i + 1;
        }
        None
    }

    /// First step of a fetch that is spread over time: locks the pending
    /// row with the given id. Until the row is released or committed every
    /// `inbox` call passes over it. Wins exactly when such a row exists and
    /// is pending and unlocked.
    pub fn hold(&mut self, id: u64) -> (won: bool)
        requires
            old(self).wf(),
        ensures
            final(self).wf(),
            final(self).next_id() == old(self).next_id(),
            won == has_row_in(old(self)@, id, |s: ClaimState| s is Available),
            final(self)@ == rows_with_change(old(self)@, id, |s: ClaimState| s.after_hold()),
            final(self).state() == relay_step(old(self).state(), (RelayOp::Hold { id })),
    {
        let ghost start = self.rows@;
        let won = match self.position(id) {
            Some(j) => self.rows[j].state.try_hold(),
            None => false,
        };
        assert(self.rows@ =~= rows_with_change(start, id, |s: ClaimState| s.after_hold()));
        won
    }

    /// Gives a locked row back to the queue, as a fetch that is abandoned
    /// before it commits does. Done exactly when such a row exists and is locked.
    pub fn release(&mut self, id: u64) -> (done: bool)
        requires
            old(self).wf(),
        ensures
            final(self).wf(),
            final(self).next_id() == old(self).next_id(),
            done == has_row_in(old(self)@, id, |s: ClaimState| s is Held),
            final(self)@ == rows_with_change(old(self)@, id, |s: ClaimState| s.after_release()),
            final(self).state() == relay_step(old(self).state(), (RelayOp::Release { id })),
    {
        let ghost start = self.rows@;
        let done = match self.position(id) {
            Some(j) => self.rows[j].state.release(),
            None => false,
        };
        assert(self.rows@ =~= rows_with_change(start, id, |s: ClaimState| s.after_release()));
        done
    }

    /// Last step of a fetch that is spread over time: marks the locked row
    /// delivered at `now`. Done exactly when such a row exists and is locked.
    pub fn commit(&mut self, id: u64, now: i64) -> (done: bool)
        requires
            old(self).wf(),
        ensures
            final(self).wf(),
            final(self).next_id() == old(self).next_id(),
            done == has_row_in(old(self)@, id, |s: ClaimState| s is Held),
            final(self)@ == rows_with_change(old(self)@, id, |s: ClaimState| s.after_commit(now)),
            final(self).state() == relay_step(old(self).state(), (RelayOp::Commit { id, now })),
    {
        let ghost start = self.rows@;
        let done = match self.position(id) {
            Some(j) => self.rows[j].state.commit(now),
            None => false,
        };
        assert(self.rows@ =~= rows_with_change(start, id, |s: ClaimState| s.after_commit(now)));
        done
    }

    /// How many envelopes the queue holds, delivered ones included.
    pub fn len(&self) -> (n: usize)
        ensures
            n == self@.len(),
    {
        self.rows.len()
    }

    /// A copy of the row at position `i` of the queue, if there is one.
    pub fn row(&self, i: usize) -> (e: Option<Envelope>)
        ensures
            i < self@.len() ==> e == Some(self@[i as int]),
            i >= self@.len() ==> e is None,
    {
        if i >= self.rows.len() {
            return None;
        }
        let r = &self.rows[i];
        Some(Envelope {
            id: r.id,
            to_user_id: r.to_user_id,
            to_device_id: r.to_device_id,
            from_user_id: r.from_user_id,
            from_device_id: r.from_device_id,
            msg_type: r.msg_type.clone(),
            ciphertext_b64: r.ciphertext_b64.clone(),
            created_at: r.created_at,
            state: r.state,
        })
    }
}

} // verus!
