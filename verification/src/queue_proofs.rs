use crate::auth::Claims;
use crate::claim::ClaimState;
use crate::messages::{relay_output, relay_step, RelayOp, RelayState, addressed_to, batch_len, envelope_of, inbox_items, is_pending, item_of, lemma_pending_take_next, pending, rows_after_inbox, rows_after_send, rows_wf, rows_with_change, takes, Envelope, InboxItem, SendReq};
use vstd::prelude::*;

verus! {

/// The ids of the envelopes that have been delivered.
pub open spec fn delivered_ids(rows: Seq<Envelope>) -> Set<u64> {
    Set::new(|id: u64| exists|j: int| 0 <= j < rows.len() && rows[j].id == id && #[trigger] rows[j].state is Claimed)
}

/// The ids of the envelopes in a fetch result.
pub open spec fn item_ids(items: Seq<InboxItem>) -> Set<u64> {
    Set::new(|id: u64| exists|k: int| 0 <= k < items.len() && #[trigger] items[k].id == id)
}

/// The pending envelopes seen in a prefix of the queue are the first
/// pending envelopes of the whole queue.
pub proof fn lemma_pending_prefix(rows: Seq<Envelope>, i: int, user_id: u128, device_id: u128)
    requires
        0 <= i <= rows.len(),
    ensures
        pending(rows.take(i), user_id, device_id).len() <= pending(rows, user_id, device_id).len(),
        pending(rows.take(i), user_id, device_id) =~= pending(rows, user_id, device_id).take(
            pending(rows.take(i), user_id, device_id).len() as int,
        ),
    decreases rows.len() - i,
{
    if i == rows.len() {
        assert(rows.take(i) =~= rows);
    } else {
        lemma_pending_prefix(rows, i + 1, user_id, device_id);
        lemma_pending_take_next(rows, i, user_id, device_id);
    }
}

/// The `k`-th pending envelope is a pending row of the queue with exactly
/// `k` pending rows before it.
pub proof fn lemma_pending_index(rows: Seq<Envelope>, k: int, user_id: u128, device_id: u128) -> (j: int)
    requires
        0 <= k < pending(rows, user_id, device_id).len(),
    ensures
        0 <= j < rows.len(),
        rows[j] == pending(rows, user_id, device_id)[k],
        is_pending(rows[j], user_id, device_id),
        pending(rows.take(j), user_id, device_id).len() == k,
    decreases rows.len(),
{
    let before = pending(rows.drop_last(), user_id, device_id);
    if is_pending(rows.last(), user_id, device_id) && k == before.len() {
        let j = rows.len() - 1;
        assert(rows.take(j) =~= rows.drop_last());
        j
    } else {
        let j = lemma_pending_index(rows.drop_last(), k, user_id, device_id);
        assert(rows.drop_last().take(j) =~= rows.take(j));
        j
    }
}

/// A pending row with `k` pending rows before it is the `k`-th pending envelope.
pub proof fn lemma_pending_rank(rows: Seq<Envelope>, j: int, user_id: u128, device_id: u128)
    requires
        0 <= j < rows.len(),
        is_pending(rows[j], user_id, device_id),
    ensures
        pending(rows.take(j), user_id, device_id).len() < pending(rows, user_id, device_id).len(),
        pending(rows, user_id, device_id)[pending(rows.take(j), user_id, device_id).len() as int] == rows[j],
{
    lemma_pending_take_next(rows, j, user_id, device_id);
    lemma_pending_prefix(rows, j + 1, user_id, device_id);
    let k = pending(rows.take(j), user_id, device_id).len() as int;
    let upto = pending(rows.take(j + 1), user_id, device_id);
    assert(upto[k] == rows[j]);
    assert(upto == pending(rows, user_id, device_id).take(k + 1));
}

/// Pending envelopes of a queue followed by another are those of the
/// first followed by those of the second.
pub proof fn lemma_pending_concat(a: Seq<Envelope>, b: Seq<Envelope>, user_id: u128, device_id: u128)
    ensures
        pending(a + b, user_id, device_id) =~= pending(a, user_id, device_id) + pending(b, user_id, device_id),
    decreases b.len(),
{
    if b.len() == 0 {
        assert(a + b =~= a);
    } else {
        lemma_pending_concat(a, b.drop_last(), user_id, device_id);
        assert((a + b).drop_last() =~= a + b.drop_last());
    }
}

/// What a fetch hands out was pending and unlocked before the fetch and
/// is delivered after it: every returned id belongs to a row that the
/// fetch took.
pub proof fn lemma_inbox_takes_pending(rows: Seq<Envelope>, user_id: u128, device_id: u128, max_batch: int, now: i64, k: int) -> (j: int)
    requires
        0 <= k < inbox_items(rows, user_id, device_id, max_batch).len(),
    ensures
        0 <= j < rows.len(),
        inbox_items(rows, user_id, device_id, max_batch)[k] == item_of(rows[j]),
        rows[j].state is Available,
        addressed_to(rows[j], user_id, device_id),
        takes(rows, j, user_id, device_id, max_batch),
        rows_after_inbox(rows, user_id, device_id, max_batch, now)[j].state == (ClaimState::Claimed { at: now }),
        rows_after_inbox(rows, user_id, device_id, max_batch, now)[j].id == rows[j].id,
{
    lemma_pending_index(rows, k, user_id, device_id)
}

/// No double delivery. A fetch returns no envelope that was already
/// delivered, and every envelope it returns is delivered afterwards.
pub proof fn lemma_inbox_delivers_fresh(rows: Seq<Envelope>, next_id: u64, user_id: u128, device_id: u128, max_batch: int, now: i64)
    requires
        rows_wf(rows, next_id),
    ensures
        item_ids(inbox_items(rows, user_id, device_id, max_batch)).disjoint(delivered_ids(rows)),
        item_ids(inbox_items(rows, user_id, device_id, max_batch)).subset_of(
            delivered_ids(rows_after_inbox(rows, user_id, device_id, max_batch, now)),
        ),
{
    let items = inbox_items(rows, user_id, device_id, max_batch);
    let after = rows_after_inbox(rows, user_id, device_id, max_batch, now);
    assert forall|id: u64| item_ids(items).contains(id) implies !delivered_ids(rows).contains(id) && delivered_ids(
        after,
    ).contains(id) by {
        let k = choose|k: int| 0 <= k < items.len() && #[trigger] items[k].id == id;
        let j = lemma_inbox_takes_pending(rows, user_id, device_id, max_batch, now, k);
        assert(after[j].state is Claimed);
        if delivered_ids(rows).contains(id) {
            let j2 = choose|j2: int| 0 <= j2 < rows.len() && rows[j2].id == id && #[trigger] rows[j2].state is Claimed;
            assert(j2 != j);
            assert(j2 < j || j < j2);
        }
    }
}

/// Delivery is final: whatever a fetch, an append, a lock, a release or a
/// commit does, an envelope that was delivered before is delivered after.
pub proof fn lemma_delivered_is_final(rows: Seq<Envelope>, claims: Claims, reqs: Seq<SendReq>, next_id: u64, user_id: u128, device_id: u128, max_batch: int, now: i64, id: u64)
    ensures
        delivered_ids(rows).subset_of(delivered_ids(rows_after_inbox(rows, user_id, device_id, max_batch, now))),
        delivered_ids(rows).subset_of(delivered_ids(rows_after_send(rows, claims, reqs, next_id, now))),
        delivered_ids(rows).subset_of(delivered_ids(rows_with_change(rows, id, |s: ClaimState| s.after_hold()))),
        delivered_ids(rows).subset_of(delivered_ids(rows_with_change(rows, id, |s: ClaimState| s.after_release()))),
        delivered_ids(rows).subset_of(delivered_ids(rows_with_change(rows, id, |s: ClaimState| s.after_commit(now)))),
{
    let a1 = rows_after_inbox(rows, user_id, device_id, max_batch, now);
    let a2 = rows_after_send(rows, claims, reqs, next_id, now);
    let a3 = rows_with_change(rows, id, |s: ClaimState| s.after_hold());
    let a4 = rows_with_change(rows, id, |s: ClaimState| s.after_release());
    let a5 = rows_with_change(rows, id, |s: ClaimState| s.after_commit(now));
    assert forall|x: u64| delivered_ids(rows).contains(x) implies delivered_ids(a1).contains(x) && delivered_ids(
        a2,
    ).contains(x) && delivered_ids(a3).contains(x) && delivered_ids(a4).contains(x) && delivered_ids(a5).contains(
        x,
    ) by {
        let j = choose|j: int| 0 <= j < rows.len() && rows[j].id == x && #[trigger] rows[j].state is Claimed;
        assert(a1[j].id == x && a1[j].state is Claimed);
        assert(a2[j].id == x && a2[j].state is Claimed);
        assert(a3[j].id == x && a3[j].state is Claimed);
        assert(a4[j].id == x && a4[j].state is Claimed);
        assert(a5[j].id == x && a5[j].state is Claimed);
    }
}

/// Two fetches, for any devices and with any limits, one after the other:
/// no envelope id is in both results.
pub proof fn lemma_no_double_delivery(
    rows: Seq<Envelope>,
    next_id: u64,
    user_a: u128,
    device_a: u128,
    max_a: int,
    now_a: i64,
    user_b: u128,
    device_b: u128,
    max_b: int,
    now_b: i64,
)
    requires
        rows_wf(rows, next_id),
    ensures
        item_ids(inbox_items(rows, user_a, device_a, max_a)).disjoint(
            item_ids(inbox_items(rows_after_inbox(rows, user_a, device_a, max_a, now_a), user_b, device_b, max_b)),
        ),
{
    let mid = rows_after_inbox(rows, user_a, device_a, max_a, now_a);
    lemma_inbox_delivers_fresh(rows, next_id, user_a, device_a, max_a, now_a);
    assert(rows_wf(mid, next_id));
    lemma_inbox_delivers_fresh(mid, next_id, user_b, device_b, max_b, now_b);
}

/// Within every prefix of the queue, a fetch leaves pending what was
/// pending there and was not among the first it could take.
pub proof fn lemma_inbox_drains_prefix(rows: Seq<Envelope>, i: int, user_id: u128, device_id: u128, max_batch: int, now: i64)
    requires
        0 <= i <= rows.len(),
    ensures
        pending(rows_after_inbox(rows, user_id, device_id, max_batch, now).take(i), user_id, device_id) =~= pending(
            rows.take(i),
            user_id,
            device_id,
        ).skip(batch_len(rows.take(i), user_id, device_id, max_batch)),
    decreases i,
{
    let after = rows_after_inbox(rows, user_id, device_id, max_batch, now);
    if i > 0 {
        lemma_inbox_drains_prefix(rows, i - 1, user_id, device_id, max_batch, now);
        lemma_pending_take_next(rows, i - 1, user_id, device_id);
        lemma_pending_take_next(after, i - 1, user_id, device_id);
    }
}

/// After a fetch, the device's pending envelopes are the former ones
/// without those handed out, in the same order; what was handed out are
/// the first of them. A limit that covers them all leaves none pending.
pub proof fn lemma_inbox_drains(rows: Seq<Envelope>, user_id: u128, device_id: u128, max_batch: int, now: i64)
    ensures
        pending(rows_after_inbox(rows, user_id, device_id, max_batch, now), user_id, device_id) =~= pending(
            rows,
            user_id,
            device_id,
        ).skip(batch_len(rows, user_id, device_id, max_batch)),
        inbox_items(rows, user_id, device_id, max_batch) =~= pending(rows, user_id, device_id).take(
            batch_len(rows, user_id, device_id, max_batch),
        ).map_values(|e: Envelope| item_of(e)),
        max_batch >= pending(rows, user_id, device_id).len() ==> pending(
            rows_after_inbox(rows, user_id, device_id, max_batch, now),
            user_id,
            device_id,
        ).len() == 0,
{
    let after = rows_after_inbox(rows, user_id, device_id, max_batch, now);
    lemma_inbox_drains_prefix(rows, rows.len() as int, user_id, device_id, max_batch, now);
    assert(rows.take(rows.len() as int) =~= rows);
    assert(after.take(rows.len() as int) =~= after);
}

/// A fetch for a device with nothing pending returns nothing and changes
/// nothing, whatever the limit.
pub proof fn lemma_empty_inbox(rows: Seq<Envelope>, user_id: u128, device_id: u128, max_batch: int, now: i64)
    requires
        pending(rows, user_id, device_id).len() == 0,
    ensures
        inbox_items(rows, user_id, device_id, max_batch) =~= Seq::<InboxItem>::empty(),
        rows_after_inbox(rows, user_id, device_id, max_batch, now) =~= rows,
{
    assert forall|j: int| 0 <= j < rows.len() implies !takes(rows, j, user_id, device_id, max_batch) by {
        if is_pending(rows[j], user_id, device_id) {
            lemma_pending_rank(rows, j, user_id, device_id);
        }
    }
}

/// First in, first out. An appended batch joins the pending envelopes of
/// each device behind those already waiting, in the order of the batch.
pub proof fn lemma_send_appends_pending(rows: Seq<Envelope>, claims: Claims, reqs: Seq<SendReq>, next_id: u64, now: i64, user_id: u128, device_id: u128)
    ensures
        pending(rows_after_send(rows, claims, reqs, next_id, now), user_id, device_id) =~= pending(
            rows,
            user_id,
            device_id,
        ) + pending(
            Seq::new(reqs.len(), |k: int| envelope_of(claims, reqs[k], (next_id + k) as u64, now)),
            user_id,
            device_id,
        ),
{
    lemma_pending_concat(
        rows,
        Seq::new(reqs.len(), |k: int| envelope_of(claims, reqs[k], (next_id + k) as u64, now)),
        user_id,
        device_id,
    );
}

/// A batch whose envelopes all go to one device is pending for it as a whole.
pub proof fn lemma_pending_all(rows: Seq<Envelope>, user_id: u128, device_id: u128)
    requires
        forall|k: int| 0 <= k < rows.len() ==> is_pending(#[trigger] rows[k], user_id, device_id),
    ensures
        pending(rows, user_id, device_id) =~= rows,
    decreases rows.len(),
{
    if rows.len() > 0 {
        lemma_pending_all(rows.drop_last(), user_id, device_id);
    }
}

/// First in, first out, end to end. Envelopes appended for a device that
/// has nothing pending come back from one fetch with a limit that covers
/// them, in the order in which they were appended.
pub proof fn lemma_fifo(rows: Seq<Envelope>, claims: Claims, reqs: Seq<SendReq>, next_id: u64, now: i64, user_id: u128, device_id: u128, max_batch: int)
    requires
        pending(rows, user_id, device_id).len() == 0,
        forall|k: int| 0 <= k < reqs.len() ==> (#[trigger] reqs[k]).to_user_id == user_id && reqs[k].to_device_id == device_id,
        max_batch >= reqs.len(),
    ensures
        inbox_items(rows_after_send(rows, claims, reqs, next_id, now), user_id, device_id, max_batch) =~= Seq::new(
            reqs.len(),
            |k: int| item_of(envelope_of(claims, reqs[k], (next_id + k) as u64, now)),
        ),
{
    let fresh = Seq::new(reqs.len(), |k: int| envelope_of(claims, reqs[k], (next_id + k) as u64, now));
    lemma_send_appends_pending(rows, claims, reqs, next_id, now, user_id, device_id);
    assert forall|k: int| 0 <= k < fresh.len() implies is_pending(#[trigger] fresh[k], user_id, device_id) by {
        assert(fresh[k] == envelope_of(claims, reqs[k], (next_id + k) as u64, now));
    }
    lemma_pending_all(fresh, user_id, device_id);
    assert(pending(rows, user_id, device_id) + fresh =~= fresh);
}

/// The queue after a history of calls, applied one after the other.
pub open spec fn relay_run(s: RelayState, ops: Seq<RelayOp>) -> RelayState
    decreases ops.len(),
{
    if ops.len() == 0 {
        s
    } else {
        relay_step(relay_run(s, ops.drop_last()), ops.last())
    }
}

/// An appended batch keeps the ids of the queue growing and below the next id.
pub proof fn lemma_send_keeps_wf(rows: Seq<Envelope>, claims: Claims, reqs: Seq<SendReq>, next_id: u64, now: i64)
    requires
        rows_wf(rows, next_id),
        next_id + reqs.len() <= u64::MAX,
    ensures
        rows_wf(rows_after_send(rows, claims, reqs, next_id, now), (next_id + reqs.len()) as u64),
{
}

/// Every call keeps the queue well formed.
pub proof fn lemma_step_keeps_wf(s: RelayState, op: RelayOp)
    requires
        rows_wf(s.rows, s.next_id),
    ensures
        rows_wf(relay_step(s, op).rows, relay_step(s, op).next_id),
{
    match op {
        RelayOp::Send { claims, reqs, now } => {
            if s.next_id + reqs.len() <= u64::MAX {
                lemma_send_keeps_wf(s.rows, claims, reqs, s.next_id, now);
            }
        },
        _ => {},
    }
}

/// Every call keeps delivered envelopes delivered; what it hands out was
/// not delivered before it and is delivered after it.
pub proof fn lemma_step_delivers_fresh(s: RelayState, op: RelayOp)
    requires
        rows_wf(s.rows, s.next_id),
    ensures
        delivered_ids(s.rows).subset_of(delivered_ids(relay_step(s, op).rows)),
        item_ids(relay_output(s, op)).disjoint(delivered_ids(s.rows)),
        item_ids(relay_output(s, op)).subset_of(delivered_ids(relay_step(s, op).rows)),
{
    match op {
        RelayOp::Send { claims, reqs, now } => {
            lemma_delivered_is_final(s.rows, claims, reqs, s.next_id, 0, 0, 0, now, 0);
        },
        RelayOp::Inbox { claims, user_id, device_id, max_batch, now } => {
            lemma_delivered_is_final(s.rows, claims, Seq::empty(), s.next_id, user_id, device_id, max_batch, now, 0);
            lemma_inbox_delivers_fresh(s.rows, s.next_id, user_id, device_id, max_batch, now);
        },
        RelayOp::Hold { id } => {
            lemma_delivered_is_final(s.rows, arbitrary(), Seq::empty(), s.next_id, 0, 0, 0, 0, id);
        },
        RelayOp::Release { id } => {
            lemma_delivered_is_final(s.rows, arbitrary(), Seq::empty(), s.next_id, 0, 0, 0, 0, id);
        },
        RelayOp::Commit { id, now } => {
            lemma_delivered_is_final(s.rows, arbitrary(), Seq::empty(), s.next_id, 0, 0, 0, now, id);
        },
    }
}

/// Through any history the queue stays well formed, and an envelope that
/// was delivered at some point of it is delivered at every later point.
pub proof fn lemma_run_keeps_delivered(s: RelayState, ops: Seq<RelayOp>, a: int, b: int)
    requires
        rows_wf(s.rows, s.next_id),
        0 <= a <= b <= ops.len(),
    ensures
        rows_wf(relay_run(s, ops.take(b)).rows, relay_run(s, ops.take(b)).next_id),
        delivered_ids(relay_run(s, ops.take(a)).rows).subset_of(delivered_ids(relay_run(s, ops.take(b)).rows)),
    decreases b,
{
    if b == 0 {
        assert(ops.take(0) =~= Seq::<RelayOp>::empty());
    } else {
        assert(ops.take(b).drop_last() =~= ops.take(b - 1));
        let before = relay_run(s, ops.take(b - 1));
        if a < b {
            lemma_run_keeps_delivered(s, ops, a, b - 1);
        } else {
            lemma_run_keeps_delivered(s, ops, b - 1, b - 1);
        }
        lemma_step_keeps_wf(before, ops[b - 1]);
        lemma_step_delivers_fresh(before, ops[b - 1]);
    }
}

/// No double delivery, whatever happens in between. In any history of
/// calls on the queue (fetches for any devices with any limits, appends,
/// locks, releases and commits, in any order), no envelope id is handed
/// out by two different calls.
pub proof fn lemma_history_no_double_delivery(s: RelayState, ops: Seq<RelayOp>, a: int, b: int)
    requires
        rows_wf(s.rows, s.next_id),
        0 <= a < b < ops.len(),
    ensures
        item_ids(relay_output(relay_run(s, ops.take(a)), ops[a])).disjoint(
            item_ids(relay_output(relay_run(s, ops.take(b)), ops[b])),
        ),
{
    let at_a = relay_run(s, ops.take(a));
    let at_b = relay_run(s, ops.take(b));
    lemma_run_keeps_delivered(s, ops, a, a);
    lemma_step_delivers_fresh(at_a, ops[a]);
    assert(ops.take(a + 1).drop_last() =~= ops.take(a));
    assert(relay_run(s, ops.take(a + 1)) == relay_step(at_a, ops[a]));
    lemma_run_keeps_delivered(s, ops, a + 1, b);
    lemma_step_delivers_fresh(at_b, ops[b]);
}

/// What `times.len()` fetches for one device hand out, one after the
/// other, each with the same limit.
pub open spec fn drained(rows: Seq<Envelope>, user_id: u128, device_id: u128, max_batch: int, times: Seq<i64>) -> Seq<InboxItem>
    decreases times.len(),
{
    if times.len() == 0 {
        Seq::empty()
    } else {
        inbox_items(rows, user_id, device_id, max_batch) + drained(
            rows_after_inbox(rows, user_id, device_id, max_batch, times[0]),
            user_id,
            device_id,
            max_batch,
            times.skip(1),
        )
    }
}

/// Repeated fetches hand out the pending envelopes from the oldest on,
/// each once: `k` fetches with limit `max_batch` return the first
/// `k * max_batch` pending envelopes, or all of them where there are fewer.
pub proof fn lemma_drained_prefix(rows: Seq<Envelope>, user_id: u128, device_id: u128, max_batch: int, times: Seq<i64>)
    requires
        max_batch >= 0,
    ensures
        ({
            let p = pending(rows, user_id, device_id);
            let n = if times.len() * max_batch < p.len() {
                times.len() * max_batch
            } else {
                p.len() as int
            };
            drained(rows, user_id, device_id, max_batch, times) =~= p.take(n).map_values(|e: Envelope| item_of(e))
        }),
    decreases times.len(),
{
    let p = pending(rows, user_id, device_id);
    let k = times.len() as int;
    if k > 0 {
        let after = rows_after_inbox(rows, user_id, device_id, max_batch, times[0]);
        let b = batch_len(rows, user_id, device_id, max_batch);
        lemma_inbox_drains(rows, user_id, device_id, max_batch, times[0]);
        lemma_drained_prefix(after, user_id, device_id, max_batch, times.skip(1));
        let q = pending(after, user_id, device_id);
        assert(q =~= p.skip(b));
        assert(k * max_batch == (k - 1) * max_batch + max_batch) by (nonlinear_arith);
        assert((k - 1) * max_batch >= 0) by (nonlinear_arith)
            requires
                k >= 1,
                max_batch >= 0,
        ;
        let m = if (k - 1) * max_batch < q.len() {
            (k - 1) * max_batch
        } else {
            q.len() as int
        };
        let n = if k * max_batch < p.len() {
            k * max_batch
        } else {
            p.len() as int
        };
        assert(n == b + m);
        let first = p.take(b).map_values(|e: Envelope| item_of(e));
        let rest = q.take(m).map_values(|e: Envelope| item_of(e));
        let whole = p.take(n).map_values(|e: Envelope| item_of(e));
        assert(first + rest =~= whole) by {
            assert forall|i: int| 0 <= i < n implies (first + rest)[i] == whole[i] by {
                if i >= b {
                    assert(q.take(m)[i - b] == p[i]);
                }
            }
        }
    } else {
        assert(0 * max_batch == 0) by (nonlinear_arith);
    }
}

/// Draining. Enough fetches, one after the other, hand the device every
/// envelope that was pending, oldest first and each exactly once.
pub proof fn lemma_drain_all(rows: Seq<Envelope>, user_id: u128, device_id: u128, max_batch: int, times: Seq<i64>)
    requires
        max_batch >= 1,
        times.len() * max_batch >= pending(rows, user_id, device_id).len(),
    ensures
        drained(rows, user_id, device_id, max_batch, times) =~= pending(rows, user_id, device_id).map_values(
            |e: Envelope| item_of(e),
        ),
{
    let p = pending(rows, user_id, device_id);
    lemma_drained_prefix(rows, user_id, device_id, max_batch, times);
    assert(p.take(p.len() as int) =~= p);
}

/// The rows stand in the order of their creation times.
pub open spec fn time_ordered(rows: Seq<Envelope>) -> bool {
    forall|i: int, j: int| 0 <= i < j < rows.len() ==> rows[i].created_at <= rows[j].created_at
}

/// No row was created after `now`.
pub open spec fn none_after(rows: Seq<Envelope>, now: i64) -> bool {
    forall|i: int| 0 <= i < rows.len() ==> (#[trigger] rows[i]).created_at <= now
}

/// As long as the clock that callers read never runs backwards, the queue
/// stands in the order of the creation times: a call at a time that is not
/// before any row's creation keeps it so.
pub proof fn lemma_step_keeps_time_order(s: RelayState, op: RelayOp)
    requires
        time_ordered(s.rows),
        op matches RelayOp::Send { now, .. } ==> none_after(s.rows, now),
    ensures
        time_ordered(relay_step(s, op).rows),
        op matches RelayOp::Send { now, .. } ==> none_after(relay_step(s, op).rows, now),
{
    let after = relay_step(s, op).rows;
    match op {
        RelayOp::Send { claims, reqs, now } => {
            if s.next_id + reqs.len() <= u64::MAX {
                assert forall|i: int| 0 <= i < after.len() implies (#[trigger] after[i]).created_at <= now by {
                    if i < s.rows.len() {
                        assert(after[i] == s.rows[i]);
                    }
                }
                assert forall|i: int, j: int| 0 <= i < j < after.len() implies after[i].created_at <= after[j].created_at by {
                    if j < s.rows.len() {
                        assert(after[i] == s.rows[i] && after[j] == s.rows[j]);
                    } else {
                        assert(after[j].created_at == now);
                    }
                }
            }
        },
        _ => {
            assert forall|i: int, j: int| 0 <= i < j < after.len() implies after[i].created_at <= after[j].created_at by {
                assert(after[i].created_at == s.rows[i].created_at && after[j].created_at == s.rows[j].created_at);
            }
        },
    }
}

/// Oldest first. Where the queue stands in the order of the creation
/// times, so do the pending envelopes of every device, and with them
/// every fetch result.
pub proof fn lemma_pending_in_time_order(rows: Seq<Envelope>, user_id: u128, device_id: u128)
    requires
        time_ordered(rows),
    ensures
        time_ordered(pending(rows, user_id, device_id)),
{
    let p = pending(rows, user_id, device_id);
    assert forall|a: int, b: int| 0 <= a < b < p.len() implies p[a].created_at <= p[b].created_at by {
        let ja = lemma_pending_index(rows, a, user_id, device_id);
        let jb = lemma_pending_index(rows, b, user_id, device_id);
        if ja >= jb {
            lemma_pending_prefix(rows.take(ja), jb, user_id, device_id);
            assert(rows.take(ja).take(jb) =~= rows.take(jb));
        }
    }
}

/// Skip on contention. A fetch passes over a row that an unfinished fetch
/// holds: it leaves the row as it is, hands it to nobody, and goes on to
/// the rows behind it.
pub proof fn lemma_inbox_skips_held(rows: Seq<Envelope>, next_id: u64, j: int, user_id: u128, device_id: u128, max_batch: int, now: i64)
    requires
        rows_wf(rows, next_id),
        0 <= j < rows.len(),
        rows[j].state is Held,
    ensures
        rows_after_inbox(rows, user_id, device_id, max_batch, now)[j] == rows[j],
        !item_ids(inbox_items(rows, user_id, device_id, max_batch)).contains(rows[j].id),
{
    let items = inbox_items(rows, user_id, device_id, max_batch);
    if item_ids(items).contains(rows[j].id) {
        let k = choose|k: int| 0 <= k < items.len() && #[trigger] items[k].id == rows[j].id;
        let x = lemma_inbox_takes_pending(rows, user_id, device_id, max_batch, now, k);
        assert(x < j || j < x);
    }
}

/// A fetch that locks a pending row and is abandoned before it commits
/// leaves the queue exactly as it found it.
pub proof fn lemma_abandoned_fetch_changes_nothing(rows: Seq<Envelope>, next_id: u64, id: u64)
    requires
        rows_wf(rows, next_id),
        exists|j: int| 0 <= j < rows.len() && rows[j].id == id && (#[trigger] rows[j]).state is Available,
    ensures
        rows_with_change(
            rows_with_change(rows, id, |c: ClaimState| c.after_hold()),
            id,
            |c: ClaimState| c.after_release(),
        ) =~= rows,
{
    let j = choose|j: int| 0 <= j < rows.len() && rows[j].id == id && (#[trigger] rows[j]).state is Available;
    let held = rows_with_change(rows, id, |c: ClaimState| c.after_hold());
    let back = rows_with_change(held, id, |c: ClaimState| c.after_release());
    assert forall|x: int| 0 <= x < rows.len() implies back[x] == rows[x] by {
        if x != j {
            assert(x < j || j < x);
        }
    }
}

} // verus!
