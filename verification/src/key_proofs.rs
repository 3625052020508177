use crate::claim::ClaimState;
use crate::keys::{
    key_of, key_output, key_step, lemma_change_keeps_wf, lemma_first_claimable_is, OneTimePrekey, lemma_fetch_keeps_wf, KeyOp, KeyState, PrekeyBundleResp, fresh_key,
    bundle_of, bundle_resps, bundles_wf, claimed_key, consumes, first_claimable, has_any_bundle, has_bundle,
    has_material, is_bundle_of, is_claimable, is_key_of, lemma_first_claimable, prekeys_after_fetch,
    prekeys_wf, prekeys_with_change, resp_of, upsert, with_prekeys, PrekeyBundle, PrekeyRow, UploadBundleReq,
};
use vstd::prelude::*;

verus! {

/// The ids of the keys that a fetch for the device may still consume.
pub open spec fn available_ids(rows: Seq<PrekeyRow>, user_id: u128, device_id: u128) -> Set<i32> {
    Set::new(|id: i32| exists|j: int| 0 <= j < rows.len() && rows[j].id == id && is_claimable(#[trigger] rows[j], user_id, device_id))
}

/// The ids of the keys that have been consumed.
pub open spec fn consumed_ids(rows: Seq<PrekeyRow>) -> Set<i32> {
    Set::new(|id: i32| exists|j: int| 0 <= j < rows.len() && rows[j].id == id && #[trigger] rows[j].state is Claimed)
}

/// A fetch answers for every device of the user that has a bundle.
pub proof fn lemma_resp_for_bundle(bundles: Seq<PrekeyBundle>, rows: Seq<PrekeyRow>, user_id: u128, i: int) -> (k: int)
    requires
        0 <= i < bundles.len(),
        bundles[i].user_id == user_id,
    ensures
        0 <= k < bundle_resps(bundles, rows, user_id).len(),
        bundle_resps(bundles, rows, user_id)[k] == resp_of(bundles[i], rows),
    decreases bundles.len(),
{
    if i == bundles.len() - 1 {
        bundle_resps(bundles.drop_last(), rows, user_id).len() as int
    } else {
        lemma_resp_for_bundle(bundles.drop_last(), rows, user_id, i)
    }
}

/// Every entry of a fetch result answers for a bundle of the user.
pub proof fn lemma_resp_source(bundles: Seq<PrekeyBundle>, rows: Seq<PrekeyRow>, user_id: u128, k: int) -> (i: int)
    requires
        0 <= k < bundle_resps(bundles, rows, user_id).len(),
    ensures
        0 <= i < bundles.len(),
        bundles[i].user_id == user_id,
        bundle_resps(bundles, rows, user_id)[k] == resp_of(bundles[i], rows),
    decreases bundles.len(),
{
    let before = bundle_resps(bundles.drop_last(), rows, user_id);
    if bundles.last().user_id == user_id && k == before.len() {
        bundles.len() - 1
    } else {
        lemma_resp_source(bundles.drop_last(), rows, user_id, k)
    }
}

/// After an upsert the device has exactly the uploaded bundle, and the
/// bundles of all other devices are as they were.
pub proof fn lemma_upsert(bundles: Seq<PrekeyBundle>, b: PrekeyBundle) -> (i: int)
    requires
        bundles_wf(bundles),
    ensures
        bundles_wf(upsert(bundles, b)),
        0 <= i < upsert(bundles, b).len(),
        upsert(bundles, b)[i] == b,
        has_any_bundle(upsert(bundles, b), b.user_id),
        forall|user_id: u128, device_id: u128|
            !is_bundle_of(b, user_id, device_id) ==> (has_bundle(upsert(bundles, b), user_id, device_id) == has_bundle(
                bundles,
                user_id,
                device_id,
            )),
        forall|k: int|
            0 <= k < bundles.len() && !is_bundle_of(bundles[k], b.user_id, b.device_id) ==> upsert(bundles, b)[k]
                == bundles[k],
{
    let after = upsert(bundles, b);
    let i = if has_bundle(bundles, b.user_id, b.device_id) {
        choose|i: int| 0 <= i < bundles.len() && is_bundle_of(#[trigger] bundles[i], b.user_id, b.device_id)
    } else {
        bundles.len() as int
    };
    assert(after[i] == b);
    assert(after[i].user_id == b.user_id);
    assert forall|user_id: u128, device_id: u128| !is_bundle_of(b, user_id, device_id) implies (has_bundle(
        after,
        user_id,
        device_id,
    ) == has_bundle(bundles, user_id, device_id)) by {
        if has_bundle(after, user_id, device_id) {
            let k = choose|k: int| 0 <= k < after.len() && is_bundle_of(#[trigger] after[k], user_id, device_id);
            assert(is_bundle_of(bundles[k], user_id, device_id));
        }
        if has_bundle(bundles, user_id, device_id) {
            let k = choose|k: int| 0 <= k < bundles.len() && is_bundle_of(#[trigger] bundles[k], user_id, device_id);
            assert(is_bundle_of(after[k], user_id, device_id));
        }
    }
    i
}

/// An upload never deletes a key: the rows stored before stay where they
/// were, unchanged, and behind them stand only fresh available keys of the
/// uploading device; every uploaded content is among the device's keys
/// afterwards.
pub proof fn lemma_with_prekeys(rows: Seq<PrekeyRow>, user_id: u128, device_id: u128, materials: Seq<String>, next_id: int)
    ensures
        rows.len() <= with_prekeys(rows, user_id, device_id, materials, next_id).len() <= rows.len() + materials.len(),
        with_prekeys(rows, user_id, device_id, materials, next_id).take(rows.len() as int) =~= rows,
        forall|j: int|
            rows.len() <= j < with_prekeys(rows, user_id, device_id, materials, next_id).len() ==> {
                let r = #[trigger] with_prekeys(rows, user_id, device_id, materials, next_id)[j];
                &&& is_claimable(r, user_id, device_id)
                &&& r.id == (next_id + j - rows.len()) as i32
                &&& !has_material(rows, user_id, device_id, r.prekey_b64@)
            },
        forall|k: int|
            0 <= k < materials.len() ==> has_material(
                with_prekeys(rows, user_id, device_id, materials, next_id),
                user_id,
                device_id,
                (#[trigger] materials[k])@,
            ),
    decreases materials.len(),
{
    if materials.len() > 0 {
        let shorter = materials.drop_last();
        let before = with_prekeys(rows, user_id, device_id, shorter, next_id);
        let after = with_prekeys(rows, user_id, device_id, materials, next_id);
        lemma_with_prekeys(rows, user_id, device_id, shorter, next_id);
        assert forall|j: int| rows.len() <= j < after.len() implies {
            let r = #[trigger] after[j];
            &&& is_claimable(r, user_id, device_id)
            &&& r.id == (next_id + j - rows.len()) as i32
            &&& !has_material(rows, user_id, device_id, r.prekey_b64@)
        } by {
            if j < before.len() {
                assert(after[j] == before[j]);
            } else {
                if has_material(rows, user_id, device_id, materials.last()@) {
                    let x = choose|x: int|
                        0 <= x < rows.len() && is_key_of(#[trigger] rows[x], user_id, device_id) && rows[x].prekey_b64@
                            == materials.last()@;
                    assert(before.take(rows.len() as int)[x] == rows[x]);
                    assert(is_key_of(before[x], user_id, device_id));
                }
            }
        }
        assert forall|k: int| 0 <= k < materials.len() implies has_material(
            after,
            user_id,
            device_id,
            (#[trigger] materials[k])@,
        ) by {
            if k < shorter.len() {
                assert(shorter[k] == materials[k]);
                let x = choose|x: int|
                    0 <= x < before.len() && is_key_of(#[trigger] before[x], user_id, device_id) && before[x].prekey_b64@
                        == materials[k]@;
                assert(after[x] == before[x]);
            } else {
                if has_material(before, user_id, device_id, materials.last()@) {
                } else {
                    assert(is_key_of(after[after.len() - 1], user_id, device_id));
                }
            }
        }
    }
}

/// Round trip. After an upload, a fetch for the user answers for the
/// device with exactly the uploaded keys. Where the upload brings no
/// one-time key and the device had none available, the answer carries none.
pub proof fn lemma_upload_then_fetch(bundles: Seq<PrekeyBundle>, rows: Seq<PrekeyRow>, next_id: i32, user_id: u128, req: UploadBundleReq, now: i64) -> (k: int)
    requires
        bundles_wf(bundles),
        prekeys_wf(rows, next_id),
    ensures
        has_any_bundle(upsert(bundles, bundle_of(user_id, req, now)), user_id),
        ({
            let after_bundles = upsert(bundles, bundle_of(user_id, req, now));
            let after_rows = with_prekeys(rows, user_id, req.device_id, req.one_time_prekeys_b64@, next_id as int);
            let resps = bundle_resps(after_bundles, after_rows, user_id);
            &&& 0 <= k < resps.len()
            &&& resps[k].user_id == user_id
            &&& resps[k].device_id == req.device_id
            &&& resps[k].identity_key == req.identity_key_ed25519_b64
            &&& resps[k].static_key == req.static_x25519_b64
            &&& resps[k].signed_prekey.public_key == req.signed_prekey_x25519_b64
            &&& resps[k].signed_prekey.signature == req.signed_prekey_signature_b64
            &&& resps[k].one_time_prekey == claimed_key(after_rows, user_id, req.device_id)
            &&& (req.one_time_prekeys_b64@.len() == 0 && first_claimable(rows, user_id, req.device_id) is None)
                ==> resps[k].one_time_prekey is None
        }),
{
    let b = bundle_of(user_id, req, now);
    let after_bundles = upsert(bundles, b);
    let after_rows = with_prekeys(rows, user_id, req.device_id, req.one_time_prekeys_b64@, next_id as int);
    let i = lemma_upsert(bundles, b);
    lemma_resp_for_bundle(after_bundles, after_rows, user_id, i)
}

/// What a fetch does to one device of the user that has a bundle: where a
/// key is available it consumes exactly the first one, so that one key id
/// leaves the available ones; where none is, nothing changes for the
/// device and the fetch still answers.
pub proof fn lemma_fetch_consumes_one(bundles: Seq<PrekeyBundle>, rows: Seq<PrekeyRow>, next_id: i32, user_id: u128, device_id: u128, now: i64)
    requires
        prekeys_wf(rows, next_id),
        has_bundle(bundles, user_id, device_id),
    ensures
        match first_claimable(rows, user_id, device_id) {
            Some(j) => {
                &&& 0 <= j < rows.len()
                &&& available_ids(rows, user_id, device_id).contains(rows[j].id)
                &&& prekeys_after_fetch(bundles, rows, user_id, now)[j].state == (ClaimState::Claimed { at: now })
                &&& available_ids(prekeys_after_fetch(bundles, rows, user_id, now), user_id, device_id)
                    =~= available_ids(rows, user_id, device_id).remove(rows[j].id)
            },
            None => {
                &&& available_ids(rows, user_id, device_id) =~= Set::<i32>::empty()
                &&& available_ids(prekeys_after_fetch(bundles, rows, user_id, now), user_id, device_id) =~= Set::<
                    i32,
                >::empty()
            },
        },
{
    let after = prekeys_after_fetch(bundles, rows, user_id, now);
    lemma_first_claimable(rows, user_id, device_id);
    assert forall|x: int| 0 <= x < rows.len() implies (#[trigger] after[x]).id == rows[x].id && is_key_of(
        after[x],
        user_id,
        device_id,
    ) == is_key_of(rows[x], user_id, device_id) by {}
    match first_claimable(rows, user_id, device_id) {
        Some(j) => {
            assert(consumes(bundles, rows, j, user_id));
            assert(is_claimable(rows[j], user_id, device_id));
            assert forall|id: i32|
                available_ids(after, user_id, device_id).contains(id) == available_ids(rows, user_id, device_id).remove(
                    rows[j].id,
                ).contains(id) by {
                if available_ids(after, user_id, device_id).contains(id) {
                    let x = choose|x: int| 0 <= x < after.len() && after[x].id == id && is_claimable(#[trigger] after[x], user_id, device_id);
                    assert(after[x].id == rows[x].id);
                    assert(x != j);
                    assert(after[x] == rows[x]);
                    assert(is_claimable(rows[x], user_id, device_id));
                    assert(x < j || j < x);
                }
                if available_ids(rows, user_id, device_id).remove(rows[j].id).contains(id) {
                    let x = choose|x: int| 0 <= x < rows.len() && rows[x].id == id && is_claimable(#[trigger] rows[x], user_id, device_id);
                    assert(x != j);
                    assert(!consumes(bundles, rows, x, user_id));
                    assert(after[x] == rows[x]);
                    assert(is_claimable(after[x], user_id, device_id));
                }
            }
        },
        None => {
            assert forall|id: i32| !available_ids(rows, user_id, device_id).contains(id) by {}
            assert forall|id: i32| !available_ids(after, user_id, device_id).contains(id) by {
                if available_ids(after, user_id, device_id).contains(id) {
                    let x = choose|x: int| 0 <= x < after.len() && after[x].id == id && is_claimable(#[trigger] after[x], user_id, device_id);
                    assert(after[x].id == rows[x].id);
                    assert(!is_claimable(rows[x], user_id, device_id));
                }
            }
        },
    }
}

/// No double claim. Of two fetches, one after the other, for any users
/// and any of their devices, the second never hands out the key that the
/// first handed out.
pub proof fn lemma_no_double_claim(
    bundles: Seq<PrekeyBundle>,
    rows: Seq<PrekeyRow>,
    next_id: i32,
    user_a: u128,
    device_a: u128,
    now_a: i64,
    user_b: u128,
    device_b: u128,
)
    requires
        prekeys_wf(rows, next_id),
        has_bundle(bundles, user_a, device_a),
    ensures
        ({
            let first = claimed_key(rows, user_a, device_a);
            let second = claimed_key(prekeys_after_fetch(bundles, rows, user_a, now_a), user_b, device_b);
            first is Some && second is Some ==> first->Some_0.key_id != second->Some_0.key_id
        }),
{
    let after = prekeys_after_fetch(bundles, rows, user_a, now_a);
    lemma_first_claimable(rows, user_a, device_a);
    lemma_first_claimable(after, user_b, device_b);
    if first_claimable(rows, user_a, device_a) is Some && first_claimable(after, user_b, device_b) is Some {
        let j = first_claimable(rows, user_a, device_a)->Some_0;
        let x = first_claimable(after, user_b, device_b)->Some_0;
        assert(consumes(bundles, rows, j, user_a));
        assert(after[j].state is Claimed);
        assert(x != j);
        assert(after[x].id == rows[x].id);
        assert(x < j || j < x);
    }
}

/// Consumption is final: a key that was consumed stays consumed through
/// every later fetch, upload, lock, release and commit.
pub proof fn lemma_consumed_is_final(bundles: Seq<PrekeyBundle>, rows: Seq<PrekeyRow>, user_id: u128, device_id: u128, materials: Seq<String>, next_id: int, now: i64, id: i32)
    ensures
        consumed_ids(rows).subset_of(consumed_ids(prekeys_after_fetch(bundles, rows, user_id, now))),
        consumed_ids(rows).subset_of(consumed_ids(with_prekeys(rows, user_id, device_id, materials, next_id))),
        consumed_ids(rows).subset_of(consumed_ids(prekeys_with_change(rows, id, |s: ClaimState| s.after_hold()))),
        consumed_ids(rows).subset_of(consumed_ids(prekeys_with_change(rows, id, |s: ClaimState| s.after_release()))),
        consumed_ids(rows).subset_of(consumed_ids(prekeys_with_change(rows, id, |s: ClaimState| s.after_commit(now)))),
{
    let a1 = prekeys_after_fetch(bundles, rows, user_id, now);
    let a2 = with_prekeys(rows, user_id, device_id, materials, next_id);
    let a3 = prekeys_with_change(rows, id, |s: ClaimState| s.after_hold());
    let a4 = prekeys_with_change(rows, id, |s: ClaimState| s.after_release());
    let a5 = prekeys_with_change(rows, id, |s: ClaimState| s.after_commit(now));
    lemma_with_prekeys(rows, user_id, device_id, materials, next_id);
    assert forall|x: i32| consumed_ids(rows).contains(x) implies consumed_ids(a1).contains(x) && consumed_ids(a2).contains(
        x,
    ) && consumed_ids(a3).contains(x) && consumed_ids(a4).contains(x) && consumed_ids(a5).contains(x) by {
        let j = choose|j: int| 0 <= j < rows.len() && rows[j].id == x && #[trigger] rows[j].state is Claimed;
        assert(a1[j].id == x && a1[j].state is Claimed);
        assert(a2.take(rows.len() as int)[j] == rows[j]);
        assert(a2[j].id == x && a2[j].state is Claimed);
        assert(a3[j].id == x && a3[j].state is Claimed);
        assert(a4[j].id == x && a4[j].state is Claimed);
        assert(a5[j].id == x && a5[j].state is Claimed);
    }
}

/// The ids of the one-time keys in a fetch result.
pub open spec fn handed_out_ids(resps: Seq<PrekeyBundleResp>) -> Set<i32> {
    Set::new(
        |id: i32|
            exists|k: int|
                0 <= k < resps.len() && (#[trigger] resps[k]).one_time_prekey is Some
                    && resps[k].one_time_prekey->Some_0.key_id == id,
    )
}

/// The store after a history of calls, applied one after the other.
pub open spec fn key_run(s: KeyState, ops: Seq<KeyOp>) -> KeyState
    decreases ops.len(),
{
    if ops.len() == 0 {
        s
    } else {
        key_step(key_run(s, ops.drop_last()), ops.last())
    }
}

/// The store's invariant, stated of its parts.
pub open spec fn key_state_wf(s: KeyState) -> bool {
    bundles_wf(s.bundles) && prekeys_wf(s.rows, s.next_id)
}

/// Stored keys keep the rows well formed: the new ids follow the old ones
/// and no device gets a content twice.
pub proof fn lemma_upload_keeps_wf(rows: Seq<PrekeyRow>, user_id: u128, device_id: u128, materials: Seq<String>, next_id: i32)
    requires
        prekeys_wf(rows, next_id),
        next_id + materials.len() <= i32::MAX,
    ensures
        rows.len() <= with_prekeys(rows, user_id, device_id, materials, next_id as int).len() <= rows.len()
            + materials.len(),
        prekeys_wf(
            with_prekeys(rows, user_id, device_id, materials, next_id as int),
            (next_id + with_prekeys(rows, user_id, device_id, materials, next_id as int).len() - rows.len()) as i32,
        ),
    decreases materials.len(),
{
    if materials.len() > 0 {
        let before = with_prekeys(rows, user_id, device_id, materials.drop_last(), next_id as int);
        let after = with_prekeys(rows, user_id, device_id, materials, next_id as int);
        lemma_upload_keeps_wf(rows, user_id, device_id, materials.drop_last(), next_id);
        if !has_material(before, user_id, device_id, materials.last()@) {
            let id = (next_id + before.len() - rows.len()) as i32;
            let fresh = fresh_key(id, user_id, device_id, materials.last());
            assert(after == before.push(fresh));
            assert forall|i: int, j: int|
                0 <= i < j < after.len() && is_key_of(after[i], after[j].user_id, after[j].device_id) implies after[i].prekey_b64@
                != after[j].prekey_b64@ by {
                if j == before.len() {
                    assert(is_key_of(before[i], user_id, device_id));
                } else {
                    assert(after[i] == before[i] && after[j] == before[j]);
                }
            }
            assert forall|i: int, j: int| 0 <= i < j < after.len() implies after[i].id < after[j].id by {
                if j < before.len() {
                    assert(after[i] == before[i] && after[j] == before[j]);
                } else {
                    assert(after[i] == before[i]);
                }
            }
        }
    }
}

/// Every call keeps the store well formed.
pub proof fn lemma_key_step_keeps_wf(s: KeyState, op: KeyOp)
    requires
        key_state_wf(s),
    ensures
        key_state_wf(key_step(s, op)),
{
    match op {
        KeyOp::Upload { claims, user_id, req, now } => {
            if !(claims.sub != user_id || s.next_id + req.one_time_prekeys_b64@.len() > i32::MAX) {
                lemma_upsert(s.bundles, bundle_of(user_id, req, now));
                lemma_upload_keeps_wf(s.rows, user_id, req.device_id, req.one_time_prekeys_b64@, s.next_id);
            }
        },
        KeyOp::Fetch { user_id, now } => {
            lemma_fetch_keeps_wf(s.bundles, s.rows, s.next_id, user_id, now);
        },
        KeyOp::Hold { id } => {
            lemma_change_keeps_wf(s.rows, s.next_id, id, |c: ClaimState| c.after_hold());
        },
        KeyOp::Release { id } => {
            lemma_change_keeps_wf(s.rows, s.next_id, id, |c: ClaimState| c.after_release());
        },
        KeyOp::Commit { id, now } => {
            lemma_change_keeps_wf(s.rows, s.next_id, id, |c: ClaimState| c.after_commit(now));
        },
    }
}

/// A fetch hands out only keys that were not consumed before it, and all
/// of them are consumed after it.
pub proof fn lemma_fetch_hands_out_fresh(bundles: Seq<PrekeyBundle>, rows: Seq<PrekeyRow>, next_id: i32, user_id: u128, now: i64)
    requires
        prekeys_wf(rows, next_id),
    ensures
        handed_out_ids(bundle_resps(bundles, rows, user_id)).disjoint(consumed_ids(rows)),
        handed_out_ids(bundle_resps(bundles, rows, user_id)).subset_of(
            consumed_ids(prekeys_after_fetch(bundles, rows, user_id, now)),
        ),
{
    let resps = bundle_resps(bundles, rows, user_id);
    let after = prekeys_after_fetch(bundles, rows, user_id, now);
    assert forall|id: i32| handed_out_ids(resps).contains(id) implies !consumed_ids(rows).contains(id) && consumed_ids(
        after,
    ).contains(id) by {
        let k = choose|k: int|
            0 <= k < resps.len() && (#[trigger] resps[k]).one_time_prekey is Some && resps[k].one_time_prekey->Some_0.key_id
                == id;
        let i = lemma_resp_source(bundles, rows, user_id, k);
        let device_id = bundles[i].device_id;
        lemma_first_claimable(rows, user_id, device_id);
        let j = first_claimable(rows, user_id, device_id)->Some_0;
        assert(is_bundle_of(bundles[i], user_id, device_id));
        assert(consumes(bundles, rows, j, user_id));
        assert(after[j].id == id && after[j].state is Claimed);
        if consumed_ids(rows).contains(id) {
            let x = choose|x: int| 0 <= x < rows.len() && rows[x].id == id && #[trigger] rows[x].state is Claimed;
            assert(x < j || j < x);
        }
    }
}

/// Every call keeps consumed keys consumed; what it hands out was not
/// consumed before it and is consumed after it.
pub proof fn lemma_key_step_consumes_fresh(s: KeyState, op: KeyOp)
    requires
        key_state_wf(s),
    ensures
        consumed_ids(s.rows).subset_of(consumed_ids(key_step(s, op).rows)),
        handed_out_ids(key_output(s, op)).disjoint(consumed_ids(s.rows)),
        handed_out_ids(key_output(s, op)).subset_of(consumed_ids(key_step(s, op).rows)),
{
    match op {
        KeyOp::Upload { claims, user_id, req, now } => {
            lemma_consumed_is_final(
                s.bundles,
                s.rows,
                user_id,
                req.device_id,
                req.one_time_prekeys_b64@,
                s.next_id as int,
                now,
                0,
            );
        },
        KeyOp::Fetch { user_id, now } => {
            lemma_consumed_is_final(s.bundles, s.rows, user_id, 0, Seq::empty(), 0, now, 0);
            lemma_fetch_hands_out_fresh(s.bundles, s.rows, s.next_id, user_id, now);
        },
        KeyOp::Hold { id } => {
            lemma_consumed_is_final(s.bundles, s.rows, 0, 0, Seq::empty(), 0, 0, id);
        },
        KeyOp::Release { id } => {
            lemma_consumed_is_final(s.bundles, s.rows, 0, 0, Seq::empty(), 0, 0, id);
        },
        KeyOp::Commit { id, now } => {
            lemma_consumed_is_final(s.bundles, s.rows, 0, 0, Seq::empty(), 0, now, id);
        },
    }
}

/// Through any history the store stays well formed, and a key that was
/// consumed at some point of it is consumed at every later point.
pub proof fn lemma_key_run_keeps_consumed(s: KeyState, ops: Seq<KeyOp>, a: int, b: int)
    requires
        key_state_wf(s),
        0 <= a <= b <= ops.len(),
    ensures
        key_state_wf(key_run(s, ops.take(b))),
        consumed_ids(key_run(s, ops.take(a)).rows).subset_of(consumed_ids(key_run(s, ops.take(b)).rows)),
    decreases b,
{
    if b == 0 {
        assert(ops.take(0) =~= Seq::<KeyOp>::empty());
    } else {
        assert(ops.take(b).drop_last() =~= ops.take(b - 1));
        let before = key_run(s, ops.take(b - 1));
        if a < b {
            lemma_key_run_keeps_consumed(s, ops, a, b - 1);
        } else {
            lemma_key_run_keeps_consumed(s, ops, b - 1, b - 1);
        }
        lemma_key_step_keeps_wf(before, ops[b - 1]);
        lemma_key_step_consumes_fresh(before, ops[b - 1]);
    }
}

/// No double claim, whatever happens in between. In any history of calls
/// on the store (fetches for any users, uploads, locks, releases and
/// commits, in any order), no one-time key id is handed out by two
/// different calls.
pub proof fn lemma_history_no_double_claim(s: KeyState, ops: Seq<KeyOp>, a: int, b: int)
    requires
        key_state_wf(s),
        0 <= a < b < ops.len(),
    ensures
        handed_out_ids(key_output(key_run(s, ops.take(a)), ops[a])).disjoint(
            handed_out_ids(key_output(key_run(s, ops.take(b)), ops[b])),
        ),
{
    let at_a = key_run(s, ops.take(a));
    let at_b = key_run(s, ops.take(b));
    lemma_key_run_keeps_consumed(s, ops, a, a);
    lemma_key_step_consumes_fresh(at_a, ops[a]);
    assert(ops.take(a + 1).drop_last() =~= ops.take(a));
    assert(key_run(s, ops.take(a + 1)) == key_step(at_a, ops[a]));
    lemma_key_run_keeps_consumed(s, ops, a + 1, b);
    lemma_key_step_consumes_fresh(at_b, ops[b]);
}

/// One call never hands the same one-time key to two devices.
pub proof fn lemma_fetch_keys_differ(bundles: Seq<PrekeyBundle>, rows: Seq<PrekeyRow>, next_id: i32, user_id: u128, a: int, b: int)
    requires
        bundles_wf(bundles),
        prekeys_wf(rows, next_id),
        0 <= a < b < bundle_resps(bundles, rows, user_id).len(),
    ensures
        ({
            let resps = bundle_resps(bundles, rows, user_id);
            &&& resps[a].device_id != resps[b].device_id
            &&& resps[a].one_time_prekey is Some && resps[b].one_time_prekey is Some
                ==> resps[a].one_time_prekey->Some_0.key_id != resps[b].one_time_prekey->Some_0.key_id
        }),
{
    let ia = lemma_resp_position(bundles, rows, user_id, a);
    let ib = lemma_resp_position(bundles, rows, user_id, b);
    lemma_first_claimable(rows, user_id, bundles[ia].device_id);
    lemma_first_claimable(rows, user_id, bundles[ib].device_id);
    assert(ia != ib);
    if ia < ib {
        assert(!is_bundle_of(bundles[ia], bundles[ib].user_id, bundles[ib].device_id));
    } else {
        assert(!is_bundle_of(bundles[ib], bundles[ia].user_id, bundles[ia].device_id));
    }
    let resps = bundle_resps(bundles, rows, user_id);
    if resps[a].one_time_prekey is Some && resps[b].one_time_prekey is Some {
        let ja = first_claimable(rows, user_id, bundles[ia].device_id)->Some_0;
        let jb = first_claimable(rows, user_id, bundles[ib].device_id)->Some_0;
        assert(ja != jb);
        assert(ja < jb || jb < ja);
    }
}

/// The entries of a fetch result follow the order of the bundles.
pub proof fn lemma_resp_position(bundles: Seq<PrekeyBundle>, rows: Seq<PrekeyRow>, user_id: u128, k: int) -> (i: int)
    requires
        0 <= k < bundle_resps(bundles, rows, user_id).len(),
    ensures
        0 <= i < bundles.len(),
        bundles[i].user_id == user_id,
        bundle_resps(bundles, rows, user_id)[k] == resp_of(bundles[i], rows),
        bundle_resps(bundles.take(i), rows, user_id).len() == k,
    decreases bundles.len(),
{
    let before = bundle_resps(bundles.drop_last(), rows, user_id);
    if bundles.last().user_id == user_id && k == before.len() {
        let i = bundles.len() - 1;
        assert(bundles.take(i) =~= bundles.drop_last());
        i
    } else {
        let i = lemma_resp_position(bundles.drop_last(), rows, user_id, k);
        assert(bundles.drop_last().take(i) =~= bundles.take(i));
        i
    }
}

/// A history that consists of fetches alone.
pub open spec fn only_fetches(ops: Seq<KeyOp>) -> bool {
    forall|i: int| 0 <= i < ops.len() ==> #[trigger] ops[i] is Fetch
}

/// A fetch makes no key available: what a device has available after it,
/// it had available before.
pub proof fn lemma_fetch_shrinks_available(bundles: Seq<PrekeyBundle>, rows: Seq<PrekeyRow>, user_id: u128, now: i64, of_user: u128, of_device: u128)
    ensures
        available_ids(prekeys_after_fetch(bundles, rows, user_id, now), of_user, of_device).subset_of(
            available_ids(rows, of_user, of_device),
        ),
{
    let after = prekeys_after_fetch(bundles, rows, user_id, now);
    assert forall|id: i32| available_ids(after, of_user, of_device).contains(id) implies available_ids(
        rows,
        of_user,
        of_device,
    ).contains(id) by {
        let x = choose|x: int| 0 <= x < after.len() && after[x].id == id && is_claimable(#[trigger] after[x], of_user, of_device);
        assert(after[x] == rows[x]);
        assert(is_claimable(rows[x], of_user, of_device));
    }
}

/// Through a history of fetches no device gains an available key.
pub proof fn lemma_fetches_shrink_available(s: KeyState, ops: Seq<KeyOp>, b: int, of_user: u128, of_device: u128)
    requires
        only_fetches(ops),
        0 <= b <= ops.len(),
    ensures
        available_ids(key_run(s, ops.take(b)).rows, of_user, of_device).subset_of(
            available_ids(s.rows, of_user, of_device),
        ),
    decreases b,
{
    if b == 0 {
        assert(ops.take(0) =~= Seq::<KeyOp>::empty());
    } else {
        assert(ops.take(b).drop_last() =~= ops.take(b - 1));
        lemma_fetches_shrink_available(s, ops, b - 1, of_user, of_device);
        let before = key_run(s, ops.take(b - 1));
        assert(ops[b - 1] is Fetch);
        match ops[b - 1] {
            KeyOp::Fetch { user_id, now } => {
                lemma_fetch_shrinks_available(before.bundles, before.rows, user_id, now, of_user, of_device);
            },
            _ => {},
        }
    }
}

/// Many fetches, one device. However many fetches run one after the
/// other, every one-time key that any of them hands out for a device was
/// among the keys the device had available at the start; as no key id is
/// handed out twice, a device with N available keys gives out at most N.
pub proof fn lemma_fetches_claim_within_available(s: KeyState, ops: Seq<KeyOp>, b: int, k: int)
    requires
        only_fetches(ops),
        0 <= b < ops.len(),
        0 <= k < key_output(key_run(s, ops.take(b)), ops[b]).len(),
        key_output(key_run(s, ops.take(b)), ops[b])[k].one_time_prekey is Some,
    ensures
        ({
            let resp = key_output(key_run(s, ops.take(b)), ops[b])[k];
            available_ids(s.rows, resp.user_id, resp.device_id).contains(resp.one_time_prekey->Some_0.key_id)
        }),
{
    let at_b = key_run(s, ops.take(b));
    assert(ops[b] is Fetch);
    match ops[b] {
        KeyOp::Fetch { user_id, now } => {
            let i = lemma_resp_source(at_b.bundles, at_b.rows, user_id, k);
            let device_id = at_b.bundles[i].device_id;
            lemma_first_claimable(at_b.rows, user_id, device_id);
            let j = first_claimable(at_b.rows, user_id, device_id)->Some_0;
            assert(is_claimable(at_b.rows[j], user_id, device_id));
            assert(available_ids(at_b.rows, user_id, device_id).contains(at_b.rows[j].id));
            lemma_fetches_shrink_available(s, ops, b, user_id, device_id);
        },
        _ => {},
    }
}

/// Skip on contention. A fetch passes over a key that an unfinished claim
/// holds: it leaves the key as it is and hands it to nobody.
pub proof fn lemma_fetch_skips_held(bundles: Seq<PrekeyBundle>, rows: Seq<PrekeyRow>, next_id: i32, j: int, user_id: u128, now: i64)
    requires
        prekeys_wf(rows, next_id),
        0 <= j < rows.len(),
        rows[j].state is Held,
    ensures
        prekeys_after_fetch(bundles, rows, user_id, now)[j] == rows[j],
        !handed_out_ids(bundle_resps(bundles, rows, user_id)).contains(rows[j].id),
{
    let resps = bundle_resps(bundles, rows, user_id);
    lemma_first_claimable(rows, user_id, rows[j].device_id);
    if handed_out_ids(resps).contains(rows[j].id) {
        let k = choose|k: int|
            0 <= k < resps.len() && (#[trigger] resps[k]).one_time_prekey is Some && resps[k].one_time_prekey->Some_0.key_id
                == rows[j].id;
        let i = lemma_resp_source(bundles, rows, user_id, k);
        lemma_first_claimable(rows, user_id, bundles[i].device_id);
        let x = first_claimable(rows, user_id, bundles[i].device_id)->Some_0;
        assert(x < j || j < x);
    }
}

/// Graceful exhaustion. A device that has no key available uploads
/// exactly one key of a content it did not have. The next fetch for its
/// user hands out that key, the one after it hands out none, and both
/// answer: a fetch does not fail for want of one-time keys.
pub proof fn lemma_one_key_then_none(bundles: Seq<PrekeyBundle>, rows: Seq<PrekeyRow>, next_id: i32, user_id: u128, req: UploadBundleReq, now: i64, fetched_at: i64)
    requires
        bundles_wf(bundles),
        prekeys_wf(rows, next_id),
        req.one_time_prekeys_b64@.len() == 1,
        first_claimable(rows, user_id, req.device_id) is None,
        !has_material(rows, user_id, req.device_id, req.one_time_prekeys_b64@[0]@),
    ensures
        ({
            let after_bundles = upsert(bundles, bundle_of(user_id, req, now));
            let after_upload = with_prekeys(rows, user_id, req.device_id, req.one_time_prekeys_b64@, next_id as int);
            let after_fetch = prekeys_after_fetch(after_bundles, after_upload, user_id, fetched_at);
            &&& has_any_bundle(after_bundles, user_id)
            &&& claimed_key(after_upload, user_id, req.device_id) == Some(
                OneTimePrekey { key_id: next_id, public_key: req.one_time_prekeys_b64@[0] },
            )
            &&& claimed_key(after_fetch, user_id, req.device_id) is None
        }),
{
    let device_id = req.device_id;
    let materials = req.one_time_prekeys_b64@;
    let after_bundles = upsert(bundles, bundle_of(user_id, req, now));
    let after_upload = with_prekeys(rows, user_id, device_id, materials, next_id as int);
    let after_fetch = prekeys_after_fetch(after_bundles, after_upload, user_id, fetched_at);
    let at = rows.len() as int;

    reveal_with_fuel(with_prekeys, 2);
    assert(materials.drop_last() =~= Seq::<String>::empty());
    assert(after_upload == rows.push(fresh_key(next_id, user_id, device_id, materials[0])));

    lemma_first_claimable(rows, user_id, device_id);
    assert forall|k: int| 0 <= k < at implies !is_claimable(after_upload[k], user_id, device_id) by {
        assert(after_upload[k] == rows[k]);
    }
    lemma_first_claimable_is(after_upload, at, user_id, device_id);
    assert(key_of(after_upload[at]) == OneTimePrekey { key_id: next_id, public_key: materials[0] });

    let i = lemma_upsert(bundles, bundle_of(user_id, req, now));
    assert(is_bundle_of(after_bundles[i], user_id, device_id));
    assert(consumes(after_bundles, after_upload, at, user_id));
    assert forall|k: int| 0 <= k < after_fetch.len() implies !is_claimable(after_fetch[k], user_id, device_id) by {
        if k < at {
            assert(!consumes(after_bundles, after_upload, k, user_id) ==> after_fetch[k] == rows[k]);
        }
    }
    lemma_first_claimable(after_fetch, user_id, device_id);
}

} // verus!
