use crate::auth::Claims;
use crate::claim::ClaimState;
use crate::errors::ApiError;
use vstd::prelude::*;

verus! {

#[derive(Debug, Clone, PartialEq, Eq)]
pub struct SignedPrekey {
    pub key_id: i32,
    pub public_key: String,
    pub signature: String,
}

#[derive(Debug, Clone, PartialEq, Eq)]
pub struct OneTimePrekey {
    pub key_id: i32,
    pub public_key: String,
}

#[derive(Debug, Clone, PartialEq, Eq)]
pub struct UploadBundleReq {
    pub device_id: u128,
    pub identity_key_ed25519_b64: String,
    pub static_x25519_b64: String,
    pub signed_prekey_x25519_b64: String,
    pub signed_prekey_signature_b64: String,
    pub one_time_prekeys_b64: Vec<String>,
}

#[derive(Debug, Clone, Copy, PartialEq, Eq)]
pub struct UploadBundleResp {
    pub ok: bool,
}

/// What a fetch returns for one device: its published keys and, where the
/// device had one left, a one-time key that is now consumed.
#[derive(Debug, Clone, PartialEq, Eq)]
pub struct PrekeyBundleResp {
    pub user_id: u128,
    pub device_id: u128,
    pub identity_key: String,
    pub static_key: String,
    pub signed_prekey: SignedPrekey,
    pub one_time_prekey: Option<OneTimePrekey>,
}

/// The published keys of one device. All key material is opaque here: it
/// is stored and handed on, never interpreted.
#[derive(Debug, Clone, PartialEq, Eq)]
pub struct PrekeyBundle {
    pub user_id: u128,
    pub device_id: u128,
    pub identity_key: String,
    pub static_key: String,
    pub signed_prekey: String,
    pub signature: String,
    pub rotated_at: i64,
}

/// One stored one-time key. `state` is `Available` until a fetch consumes
/// the key, and `Claimed { at }` from then on.
#[derive(Debug, Clone, PartialEq, Eq)]
pub struct PrekeyRow {
    pub id: i32,
    pub user_id: u128,
    pub device_id: u128,
    pub prekey_b64: String,
    pub state: ClaimState,
}

/// The published bundles, one per device, and the one-time keys of all
/// devices in the order in which they were stored.
pub struct KeyStore {
    bundles: Vec<PrekeyBundle>,
    prekeys: Vec<PrekeyRow>,
    next_id: i32,
}

/// The id that signed prekeys are reported under.
pub const SIGNED_PREKEY_ID: i32 = 1;

/// Whether the bundle is the one of the given device.
pub open spec fn is_bundle_of(b: PrekeyBundle, user_id: u128, device_id: u128) -> bool {
    b.user_id == user_id && b.device_id == device_id
}

/// Whether the device has published a bundle.
pub open spec fn has_bundle(bundles: Seq<PrekeyBundle>, user_id: u128, device_id: u128) -> bool {
    exists|i: int| 0 <= i < bundles.len() && is_bundle_of(#[trigger] bundles[i], user_id, device_id)
}

/// Whether the user has published a bundle for any device.
pub open spec fn has_any_bundle(bundles: Seq<PrekeyBundle>, user_id: u128) -> bool {
    exists|i: int| 0 <= i < bundles.len() && (#[trigger] bundles[i]).user_id == user_id
}

/// At most one bundle per device.
pub open spec fn bundles_wf(bundles: Seq<PrekeyBundle>) -> bool {
    forall|i: int, j: int|
        0 <= i < j < bundles.len() ==> !is_bundle_of(bundles[i], bundles[j].user_id, bundles[j].device_id)
}

/// Whether the key belongs to the given device.
pub open spec fn is_key_of(r: PrekeyRow, user_id: u128, device_id: u128) -> bool {
    r.user_id == user_id && r.device_id == device_id
}

/// A key that a fetch for the device may consume now.
pub open spec fn is_claimable(r: PrekeyRow, user_id: u128, device_id: u128) -> bool {
    is_key_of(r, user_id, device_id) && r.state is Available
}

/// Whether the device already has a key of this content, consumed or not.
pub open spec fn has_material(rows: Seq<PrekeyRow>, user_id: u128, device_id: u128, material: Seq<char>) -> bool {
    exists|j: int| 0 <= j < rows.len() && is_key_of(#[trigger] rows[j], user_id, device_id) && rows[j].prekey_b64@ == material
}

/// Ids grow along the rows and stay below the next id to hand out, and no
/// device has two keys of the same content.
pub open spec fn prekeys_wf(rows: Seq<PrekeyRow>, next_id: i32) -> bool {
    &&& 1 <= next_id
    &&& forall|i: int, j: int| 0 <= i < j < rows.len() ==> rows[i].id < rows[j].id
    &&& forall|i: int| 0 <= i < rows.len() ==> rows[i].id < next_id
    &&& forall|i: int, j: int|
        0 <= i < j < rows.len() && is_key_of(rows[i], rows[j].user_id, rows[j].device_id) ==> rows[i].prekey_b64@
            != rows[j].prekey_b64@
}

/// The bundle that an upload publishes.
pub open spec fn bundle_of(user_id: u128, req: UploadBundleReq, now: i64) -> PrekeyBundle {
    PrekeyBundle {
        user_id,
        device_id: req.device_id,
        identity_key: req.identity_key_ed25519_b64,
        static_key: req.static_x25519_b64,
        signed_prekey: req.signed_prekey_x25519_b64,
        signature: req.signed_prekey_signature_b64,
        rotated_at: now,
    }
}

/// Replace on conflict: the bundle takes the place of the one its device
/// had, or joins the others where the device had none.
pub open spec fn upsert(bundles: Seq<PrekeyBundle>, b: PrekeyBundle) -> Seq<PrekeyBundle> {
    if has_bundle(bundles, b.user_id, b.device_id) {
        Seq::new(
            bundles.len(),
            |i: int|
                if is_bundle_of(bundles[i], b.user_id, b.device_id) {
                    b
                } else {
                    bundles[i]
                },
        )
    } else {
        bundles.push(b)
    }
}

/// A key as it is stored: available, under the given id.
pub open spec fn fresh_key(id: i32, user_id: u128, device_id: u128, material: String) -> PrekeyRow {
    PrekeyRow { id, user_id, device_id, prekey_b64: material, state: ClaimState::Available }
}

/// The rows after the keys of an upload have been stored: behind the old
/// rows comes one available row for each uploaded key whose content the
/// device did not have yet, in upload order, ids counted up from `next_id`.
pub open spec fn with_prekeys(rows: Seq<PrekeyRow>, user_id: u128, device_id: u128, materials: Seq<String>, next_id: int) -> Seq<PrekeyRow>
    decreases materials.len(),
{
    if materials.len() == 0 {
        rows
    } else {
        let before = with_prekeys(rows, user_id, device_id, materials.drop_last(), next_id);
        if has_material(before, user_id, device_id, materials.last()@) {
            before
        } else {
            before.push(
                fresh_key((next_id + before.len() - rows.len()) as i32, user_id, device_id, materials.last()),
            )
        }
    }
}

/// The position of the first key that a fetch for the device may consume.
pub open spec fn first_claimable(rows: Seq<PrekeyRow>, user_id: u128, device_id: u128) -> Option<int>
    decreases rows.len(),
{
    if rows.len() == 0 {
        None
    } else {
        match first_claimable(rows.drop_last(), user_id, device_id) {
            Some(j) => Some(j),
            None => if is_claimable(rows.last(), user_id, device_id) {
                Some(rows.len() - 1)
            } else {
                None
            },
        }
    }
}

/// The key once it has been consumed at `now`.
pub open spec fn consumed(r: PrekeyRow, now: i64) -> PrekeyRow {
    PrekeyRow { id: r.id, user_id: r.user_id, device_id: r.device_id, prekey_b64: r.prekey_b64, state: ClaimState::Claimed { at: now } }
}

/// The key as it is handed to a fetcher.
pub open spec fn key_of(r: PrekeyRow) -> OneTimePrekey {
    OneTimePrekey { key_id: r.id, public_key: r.prekey_b64 }
}

/// The one-time key that a fetch hands out for a device, if it has one left.
pub open spec fn claimed_key(rows: Seq<PrekeyRow>, user_id: u128, device_id: u128) -> Option<OneTimePrekey> {
    match first_claimable(rows, user_id, device_id) {
        Some(j) => Some(key_of(rows[j])),
        None => None,
    }
}

/// The answer of a fetch for one bundle, given the stored keys.
pub open spec fn resp_of(b: PrekeyBundle, rows: Seq<PrekeyRow>) -> PrekeyBundleResp {
    PrekeyBundleResp {
        user_id: b.user_id,
        device_id: b.device_id,
        identity_key: b.identity_key,
        static_key: b.static_key,
        signed_prekey: SignedPrekey { key_id: SIGNED_PREKEY_ID, public_key: b.signed_prekey, signature: b.signature },
        one_time_prekey: claimed_key(rows, b.user_id, b.device_id),
    }
}

/// What a fetch returns: one entry for each device of the user that has a
/// bundle, in the order of the bundles.
pub open spec fn bundle_resps(bundles: Seq<PrekeyBundle>, rows: Seq<PrekeyRow>, user_id: u128) -> Seq<PrekeyBundleResp>
    decreases bundles.len(),
{
    if bundles.len() == 0 {
        Seq::empty()
    } else {
        let before = bundle_resps(bundles.drop_last(), rows, user_id);
        if bundles.last().user_id == user_id {
            before.push(resp_of(bundles.last(), rows))
        } else {
            before
        }
    }
}

/// Whether a fetch for the user consumes row `j`: the row is the first
/// claimable key of a device of the user that has a bundle.
pub open spec fn consumes(bundles: Seq<PrekeyBundle>, rows: Seq<PrekeyRow>, j: int, user_id: u128) -> bool {
    &&& 0 <= j < rows.len()
    &&& rows[j].user_id == user_id
    &&& has_bundle(bundles, user_id, rows[j].device_id)
    &&& first_claimable(rows, user_id, rows[j].device_id) == Some(j)
}

/// The rows after a fetch for the user at time `now`.
pub open spec fn prekeys_after_fetch(bundles: Seq<PrekeyBundle>, rows: Seq<PrekeyRow>, user_id: u128, now: i64) -> Seq<PrekeyRow> {
    Seq::new(
        rows.len(),
        |j: int|
            if consumes(bundles, rows, j, user_id) {
                consumed(rows[j], now)
            } else {
                rows[j]
            },
    )
}

/// The rows with `change` applied to the state of the key that has the
/// given id, if there is one.
pub open spec fn prekeys_with_change(rows: Seq<PrekeyRow>, id: i32, change: spec_fn(ClaimState) -> ClaimState) -> Seq<PrekeyRow> {
    Seq::new(
        rows.len(),
        |j: int|
            if rows[j].id == id {
                PrekeyRow {
                    id: rows[j].id,
                    user_id: rows[j].user_id,
                    device_id: rows[j].device_id,
                    prekey_b64: rows[j].prekey_b64,
                    state: change(rows[j].state),
                }
            } else {
                rows[j]
            },
    )
}

/// Whether there is a key with the given id in a state that `wanted` accepts.
pub open spec fn has_key_in(rows: Seq<PrekeyRow>, id: i32, wanted: spec_fn(ClaimState) -> bool) -> bool {
    exists|j: int| 0 <= j < rows.len() && rows[j].id == id && wanted(#[trigger] rows[j].state)
}

/// What the store is made of: the bundles, the one-time keys and the next
/// key id to hand out.
pub struct KeyState {
    pub bundles: Seq<PrekeyBundle>,
    pub rows: Seq<PrekeyRow>,
    pub next_id: i32,
}

/// One call on the store, with its arguments.
pub enum KeyOp {
    Upload { claims: Claims, user_id: u128, req: UploadBundleReq, now: i64 },
    Fetch { user_id: u128, now: i64 },
    Hold { id: i32 },
    Release { id: i32 },
    Commit { id: i32, now: i64 },
}

/// The store after one call. A refused call leaves it as it was.
pub open spec fn key_step(s: KeyState, op: KeyOp) -> KeyState {
    match op {
        KeyOp::Upload { claims, user_id, req, now } => if claims.sub != user_id || s.next_id
            + req.one_time_prekeys_b64@.len() > i32::MAX {
            s
        } else {
            let rows = with_prekeys(s.rows, user_id, req.device_id, req.one_time_prekeys_b64@, s.next_id as int);
            KeyState {
                bundles: upsert(s.bundles, bundle_of(user_id, req, now)),
                rows,
                next_id: (s.next_id + (rows.len() - s.rows.len())) as i32,
            }
        },
        KeyOp::Fetch { user_id, now } => if has_any_bundle(s.bundles, user_id) {
            KeyState {
                bundles: s.bundles,
                rows: prekeys_after_fetch(s.bundles, s.rows, user_id, now),
                next_id: s.next_id,
            }
        } else {
            s
        },
        KeyOp::Hold { id } => KeyState {
            bundles: s.bundles,
            rows: prekeys_with_change(s.rows, id, |c: ClaimState| c.after_hold()),
            next_id: s.next_id,
        },
        KeyOp::Release { id } => KeyState {
            bundles: s.bundles,
            rows: prekeys_with_change(s.rows, id, |c: ClaimState| c.after_release()),
            next_id: s.next_id,
        },
        KeyOp::Commit { id, now } => KeyState {
            bundles: s.bundles,
            rows: prekeys_with_change(s.rows, id, |c: ClaimState| c.after_commit(now)),
            next_id: s.next_id,
        },
    }
}

/// The answers that one call hands to its caller.
pub open spec fn key_output(s: KeyState, op: KeyOp) -> Seq<PrekeyBundleResp> {
    match op {
        KeyOp::Fetch { user_id, now } => if has_any_bundle(s.bundles, user_id) {
            bundle_resps(s.bundles, s.rows, user_id)
        } else {
            Seq::empty()
        },
        _ => Seq::empty(),
    }
}

/// The first claimable key is claimable and no key before it is; where
/// there is none, no key is claimable.
pub proof fn lemma_first_claimable(rows: Seq<PrekeyRow>, user_id: u128, device_id: u128)
    ensures
        match first_claimable(rows, user_id, device_id) {
            Some(j) => 0 <= j < rows.len() && is_claimable(rows[j], user_id, device_id) && forall|k: int|
                0 <= k < j ==> !is_claimable(rows[k], user_id, device_id),
            None => forall|k: int| 0 <= k < rows.len() ==> !is_claimable(rows[k], user_id, device_id),
        },
    decreases rows.len(),
{
    if rows.len() > 0 {
        let shorter = rows.drop_last();
        lemma_first_claimable(shorter, user_id, device_id);
        assert forall|k: int| 0 <= k < shorter.len() implies !is_claimable(shorter[k], user_id, device_id) == !is_claimable(
            rows[k],
            user_id,
            device_id,
        ) by {
            assert(shorter[k] == rows[k]);
        }
    }
}

/// A claimable key with no claimable key before it is the first claimable key.
pub proof fn lemma_first_claimable_is(rows: Seq<PrekeyRow>, j: int, user_id: u128, device_id: u128)
    requires
        0 <= j < rows.len(),
        is_claimable(rows[j], user_id, device_id),
        forall|k: int| 0 <= k < j ==> !is_claimable(rows[k], user_id, device_id),
    ensures
        first_claimable(rows, user_id, device_id) == Some(j),
{
    lemma_first_claimable(rows, user_id, device_id);
}

/// A change of one key's state keeps the rows well formed.
pub proof fn lemma_change_keeps_wf(rows: Seq<PrekeyRow>, next_id: i32, id: i32, change: spec_fn(ClaimState) -> ClaimState)
    requires
        prekeys_wf(rows, next_id),
    ensures
        prekeys_wf(prekeys_with_change(rows, id, change), next_id),
{
    let after = prekeys_with_change(rows, id, change);
    assert forall|i: int, j: int| 0 <= i < j < after.len() implies after[i].id < after[j].id by {
        assert(after[i].id == rows[i].id && after[j].id == rows[j].id);
    }
    assert forall|i: int, j: int|
        0 <= i < j < after.len() && is_key_of(after[i], after[j].user_id, after[j].device_id) implies after[i].prekey_b64@
        != after[j].prekey_b64@ by {
        assert(after[i].id == rows[i].id && after[j].id == rows[j].id);
        assert(is_key_of(rows[i], rows[j].user_id, rows[j].device_id));
    }
}

/// Consuming keys keeps the rows well formed.
pub proof fn lemma_fetch_keeps_wf(bundles: Seq<PrekeyBundle>, rows: Seq<PrekeyRow>, next_id: i32, user_id: u128, now: i64)
    requires
        prekeys_wf(rows, next_id),
    ensures
        prekeys_wf(prekeys_after_fetch(bundles, rows, user_id, now), next_id),
{
    let after = prekeys_after_fetch(bundles, rows, user_id, now);
    assert forall|j: int| 0 <= j < rows.len() implies (#[trigger] after[j]).id == rows[j].id && after[j].user_id
        == rows[j].user_id && after[j].device_id == rows[j].device_id && after[j].prekey_b64 == rows[j].prekey_b64 by {}
    assert forall|i: int, j: int| 0 <= i < j < after.len() implies after[i].id < after[j].id by {
        assert(after[i].id == rows[i].id && after[j].id == rows[j].id);
    }
    assert forall|i: int, j: int|
        0 <= i < j < after.len() && is_key_of(after[i], after[j].user_id, after[j].device_id) implies after[i].prekey_b64@
        != after[j].prekey_b64@ by {
        assert(after[i].id == rows[i].id && after[j].id == rows[j].id);
        assert(is_key_of(rows[i], rows[j].user_id, rows[j].device_id));
    }
}

/// Which key is first claimable depends only on which rows are claimable.
pub proof fn lemma_first_claimable_same(a: Seq<PrekeyRow>, b: Seq<PrekeyRow>, user_id: u128, device_id: u128)
    requires
        a.len() == b.len(),
        forall|j: int| 0 <= j < a.len() ==> is_claimable(a[j], user_id, device_id) == is_claimable(b[j], user_id, device_id),
    ensures
        first_claimable(a, user_id, device_id) == first_claimable(b, user_id, device_id),
    decreases a.len(),
{
    if a.len() > 0 {
        lemma_first_claimable_same(a.drop_last(), b.drop_last(), user_id, device_id);
    }
}

/// The answers for one more bundle are those before, followed by its own where it is the user's.
pub proof fn lemma_bundle_resps_take_next(bundles: Seq<PrekeyBundle>, rows: Seq<PrekeyRow>, user_id: u128, i: int)
    requires
        0 <= i < bundles.len(),
    ensures
        bundle_resps(bundles.take(i + 1), rows, user_id) == if bundles[i].user_id == user_id {
            bundle_resps(bundles.take(i), rows, user_id).push(resp_of(bundles[i], rows))
        } else {
            bundle_resps(bundles.take(i), rows, user_id)
        },
{
    assert(bundles.take(i + 1).drop_last() =~= bundles.take(i));
}

/// A device has a bundle among the first `i + 1` exactly when it has one among the first `i` or the next is its own.
pub proof fn lemma_has_bundle_take_next(bundles: Seq<PrekeyBundle>, user_id: u128, device_id: u128, i: int)
    requires
        0 <= i < bundles.len(),
    ensures
        has_bundle(bundles.take(i + 1), user_id, device_id) == (has_bundle(bundles.take(i), user_id, device_id)
            || is_bundle_of(bundles[i], user_id, device_id)),
{
    let shorter = bundles.take(i);
    let longer = bundles.take(i + 1);
    if has_bundle(shorter, user_id, device_id) {
        let k = choose|k: int| 0 <= k < shorter.len() && is_bundle_of(#[trigger] shorter[k], user_id, device_id);
        assert(is_bundle_of(longer[k], user_id, device_id));
    }
    if is_bundle_of(bundles[i], user_id, device_id) {
        assert(is_bundle_of(longer[i], user_id, device_id));
    }
    if has_bundle(longer, user_id, device_id) {
        let k = choose|k: int| 0 <= k < longer.len() && is_bundle_of(#[trigger] longer[k], user_id, device_id);
        if k < i {
            assert(is_bundle_of(shorter[k], user_id, device_id));
        }
    }
}

impl KeyStore {
    /// The published bundles, in the order in which their devices first published.
    pub closed spec fn bundles(&self) -> Seq<PrekeyBundle> {
        self.bundles@
    }

    /// The one-time keys of all devices, in the order in which they were
    /// stored, consumed ones included.
    pub closed spec fn prekeys(&self) -> Seq<PrekeyRow> {
        self.prekeys@
    }

    /// The id that the next stored one-time key gets.
    pub closed spec fn next_id(&self) -> i32 {
        self.next_id
    }

    /// The store's invariant: one bundle per device, key ids that grow and no
    /// key content twice for one device.
    pub open spec fn wf(&self) -> bool {
        bundles_wf(self.bundles()) && prekeys_wf(self.prekeys(), self.next_id())
    }

    /// The store as a plain value.
    pub open spec fn state(&self) -> KeyState {
        KeyState { bundles: self.bundles(), rows: self.prekeys(), next_id: self.next_id() }
    }

    /// Nothing differs between the two stores.
    pub open spec fn same_as(&self, other: &KeyStore) -> bool {
        &&& self.bundles() == other.bundles()
        &&& self.prekeys() == other.prekeys()
        &&& self.next_id() == other.next_id()
    }

    /// An empty store. Key ids start at one.
    pub fn new() -> (store: KeyStore)
        ensures
            store.wf(),
            store.bundles() == Seq::<PrekeyBundle>::empty(),
            store.prekeys() == Seq::<PrekeyRow>::empty(),
            store.next_id() == 1,
    {
        KeyStore { bundles: Vec::new(), prekeys: Vec::new(), next_id: 1 }
    }

    /// An empty store whose first one-time key gets the id `first_id`.
    /// Key ids are positive: there is no store for a `first_id` below one.
    pub fn starting_at(first_id: i32) -> (r: Option<KeyStore>)
        ensures
            first_id < 1 ==> r is None,
            first_id >= 1 ==> r is Some && r->Some_0.wf() && r->Some_0.bundles() == Seq::<PrekeyBundle>::empty()
                && r->Some_0.prekeys() == Seq::<PrekeyRow>::empty() && r->Some_0.next_id() == first_id,
    {
        if first_id < 1 {
            None
        } else {
            Some(KeyStore { bundles: Vec::new(), prekeys: Vec::new(), next_id: first_id })
        }
    }

    fn bundle_position(&self, user_id: u128, device_id: u128) -> (r: Option<usize>)
        ensures
            match r {
                Some(i) => i < self.bundles().len() && is_bundle_of(self.bundles()[i as int], user_id, device_id),
                None => !has_bundle(self.bundles(), user_id, device_id),
            },
    {
        let n = self.bundles.len();
        let mut i: usize = 0;
        while i < n
            invariant
                0 <= i <= n,
                n == self.bundles@.len(),
                forall|k: int| 0 <= k < i ==> !is_bundle_of(self.bundles@[k], user_id, device_id),
            decreases n - i,
        {
            if self.bundles[i].user_id == user_id && self.bundles[i].device_id == device_id {
                return Some(i);
            }
            i = i + 1;
        }
        None
    }

    fn holds_material(&self, user_id: u128, device_id: u128, material: &String) -> (b: bool)
        ensures
            b == has_material(self.prekeys(), user_id, device_id, material@),
    {
        let n = self.prekeys.len();
        let mut j: usize = 0;
        while j < n
            invariant
                0 <= j <= n,
                n == self.prekeys@.len(),
                forall|k: int|
                    0 <= k < j ==> !(is_key_of(self.prekeys@[k], user_id, device_id) && self.prekeys@[k].prekey_b64@
                        == material@),
            decreases n - j,
        {
            let row = &self.prekeys[j];
            if row.user_id == user_id && row.device_id == device_id && row.prekey_b64 == *material {
                return true;
            }
            j = j + 1;
        }
        false
    }

    /// Publishes the keys of one device of the caller: the bundle replaces
    /// the one the device had, and each one-time key whose content the
    /// device does not have yet is stored as an available key. Refused with
    /// `Forbidden` exactly when the caller is not the target user, and with
    /// `Internal` exactly when the store has not an id left for each key of
    /// the upload; a refused upload changes nothing.
    pub fn upload_bundle(&mut self, claims: &Claims, user_id: u128, req: &UploadBundleReq, now: i64) -> (r: Result<UploadBundleResp, ApiError>)
        requires
            old(self).wf(),
        ensures
            final(self).wf(),
            claims.sub != user_id ==> r == Err::<UploadBundleResp, ApiError>(ApiError::Forbidden) && final(self).same_as(
                old(self),
            ),
            claims.sub == user_id && old(self).next_id() + req.one_time_prekeys_b64@.len() > i32::MAX ==> r == Err::<
                UploadBundleResp,
                ApiError,
            >(ApiError::Internal) && final(self).same_as(old(self)),
            claims.sub == user_id && old(self).next_id() + req.one_time_prekeys_b64@.len() <= i32::MAX ==> r == Ok::<
                UploadBundleResp,
                ApiError,
            >(UploadBundleResp { ok: true }) && final(self).bundles() == upsert(
                old(self).bundles(),
                bundle_of(user_id, *req, now),
            ) && final(self).prekeys() == with_prekeys(
                old(self).prekeys(),
                user_id,
                req.device_id,
                req.one_time_prekeys_b64@,
                old(self).next_id() as int,
            ) && final(self).next_id() == old(self).next_id() + (final(self).prekeys().len() - old(
                self,
            ).prekeys().len()),
            final(self).state() == key_step(
                old(self).state(),
                (KeyOp::Upload { claims: *claims, user_id, req: *req, now }),
            ),
    {
        if claims.sub != user_id {
            return Err(ApiError::Forbidden);
        }
        let n = req.one_time_prekeys_b64.len();
        if n > (i32::MAX - self.next_id) as usize {
            return Err(ApiError::Internal);
        }
        let device_id = req.device_id;
        let bundle = PrekeyBundle {
            user_id,
            device_id,
            identity_key: req.identity_key_ed25519_b64.clone(),
            static_key: req.static_x25519_b64.clone(),
            signed_prekey: req.signed_prekey_x25519_b64.clone(),
            signature: req.signed_prekey_signature_b64.clone(),
            rotated_at: now,
        };
        let ghost old_bundles = self.bundles@;
        let ghost new_bundles = upsert(old_bundles, bundle_of(user_id, *req, now));
        match self.bundle_position(user_id, device_id) {
            Some(i) => {
                self.bundles[i] = bundle;
                assert(self.bundles@ =~= upsert(old_bundles, bundle_of(user_id, *req, now)));
            },
            None => {
                self.bundles.push(bundle);
            },
        }
        assert(self.bundles@ == new_bundles);
        assert(bundles_wf(new_bundles));
        let ghost start = self.prekeys@;
        let ghost materials = req.one_time_prekeys_b64@;
        let first = self.next_id;
        let mut k: usize = 0;
        while k < n
            invariant
                0 <= k <= n,
                n == materials.len(),
                materials == req.one_time_prekeys_b64@,
                1 <= first,
                first + n <= i32::MAX,
                self.bundles@ == new_bundles,
                bundles_wf(self.bundles@),
                prekeys_wf(self.prekeys@, self.next_id),
                self.prekeys@ == with_prekeys(start, user_id, device_id, materials.take(k as int), first as int),
                self.next_id == first + (self.prekeys@.len() - start.len()),
                start.len() <= self.prekeys@.len() <= start.len() + k,
            decreases n - k,
        {
            assert(materials.take(k + 1).drop_last() =~= materials.take(k as int));
            let material = &req.one_time_prekeys_b64[k];
            if !self.holds_material(user_id, device_id, material) {
                let row = PrekeyRow {
                    id: self.next_id,
                    user_id,
                    device_id,
                    prekey_b64: material.clone(),
                    state: ClaimState::Available,
                };
                self.prekeys.push(row);
                self.next_id = self.next_id + 1;
            }
            k = k + 1;
        }
        assert(materials.take(n as int) =~= materials);
        Ok(UploadBundleResp { ok: true })
    }

    /// Try-claim, else move on: goes through the keys in the order in which
    /// they were stored and consumes the first one of the device that is
    /// still available, passing over keys that are consumed or held.
    fn claim_one(&mut self, user_id: u128, device_id: u128, now: i64) -> (r: Option<OneTimePrekey>)
        ensures
            final(self).bundles() == old(self).bundles(),
            final(self).next_id() == old(self).next_id(),
            r == claimed_key(old(self).prekeys(), user_id, device_id),
            final(self).prekeys() == match first_claimable(old(self).prekeys(), user_id, device_id) {
                Some(j) => old(self).prekeys().update(j, consumed(old(self).prekeys()[j], now)),
                None => old(self).prekeys(),
            },
    {
        let ghost start = self.prekeys@;
        let n = self.prekeys.len();
        let mut j: usize = 0;
        while j < n
            invariant
                0 <= j <= n,
                n == start.len(),
                self.prekeys@ == start,
                start == old(self).prekeys@,
                self.bundles@ == old(self).bundles@,
                self.next_id == old(self).next_id,
                forall|k: int| 0 <= k < j ==> !is_claimable(start[k], user_id, device_id),
            decreases n - j,
        {
            if self.prekeys[j].user_id == user_id && self.prekeys[j].device_id == device_id {
                let won = self.prekeys[j].state.try_claim(now);
                if won {
                    let key = OneTimePrekey { key_id: self.prekeys[j].id, public_key: self.prekeys[j].prekey_b64.clone() };
                    proof {
                        lemma_first_claimable_is(start, j as int, user_id, device_id);
                        assert(self.prekeys@ =~= start.update(j as int, consumed(start[j as int], now)));
                    }
                    return Some(key);
                }
            }
            j = j + 1;
        }
        proof {
            lemma_first_claimable(start, user_id, device_id);
        }
        None
    }

    /// Returns the published keys of every device of the user and, for
    /// each, consumes one of its available one-time keys in the same step;
    /// a device that has none left is returned without one. Refused with
    /// `NotFound`, and without any change, exactly when the user has no
    /// bundle at all. Any authenticated caller may fetch any user's keys.
    pub fn fetch_bundle(&mut self, claims: &Claims, user_id: u128, now: i64) -> (r: Result<Vec<PrekeyBundleResp>, ApiError>)
        requires
            old(self).wf(),
        ensures
            final(self).wf(),
            final(self).bundles() == old(self).bundles(),
            final(self).next_id() == old(self).next_id(),
            !has_any_bundle(old(self).bundles(), user_id) ==> r is Err && r->Err_0 is NotFound && r->Err_0.message_of()
                == "User not found or no keys"@ && final(self).prekeys() == old(self).prekeys(),
            has_any_bundle(old(self).bundles(), user_id) ==> r is Ok && r->Ok_0@ == bundle_resps(
                old(self).bundles(),
                old(self).prekeys(),
                user_id,
            ) && final(self).prekeys() == prekeys_after_fetch(old(self).bundles(), old(self).prekeys(), user_id, now),
            final(self).state() == key_step(old(self).state(), (KeyOp::Fetch { user_id, now })),
            r is Ok ==> r->Ok_0@ == key_output(old(self).state(), (KeyOp::Fetch { user_id, now })),
    {
        let ghost bundles = self.bundles@;
        let ghost start = self.prekeys@;
        let mut out: Vec<PrekeyBundleResp> = Vec::new();
        let n = self.bundles.len();
        let mut i: usize = 0;
        while i < n
            invariant
                0 <= i <= n,
                n == bundles.len(),
                self.bundles@ == bundles,
                self.next_id == old(self).next_id,
                bundles_wf(bundles),
                prekeys_wf(start, self.next_id),
                self.prekeys@ == prekeys_after_fetch(bundles.take(i as int), start, user_id, now),
                out@ == bundle_resps(bundles.take(i as int), start, user_id),
                (out@.len() > 0) == has_any_bundle(bundles.take(i as int), user_id),
            decreases n - i,
        {
            proof {
                lemma_bundle_resps_take_next(bundles, start, user_id, i as int);
            }
            let ghost current = self.prekeys@;
            if self.bundles[i].user_id == user_id {
                let device_id = self.bundles[i].device_id;
                proof {
                    assert(!has_bundle(bundles.take(i as int), user_id, device_id)) by {
                        if has_bundle(bundles.take(i as int), user_id, device_id) {
                            let k = choose|k: int|
                                0 <= k < bundles.take(i as int).len() && is_bundle_of(
                                    #[trigger] bundles.take(i as int)[k],
                                    user_id,
                                    device_id,
                                );
                            assert(is_bundle_of(bundles[k], bundles[i as int].user_id, bundles[i as int].device_id));
                        }
                    }
                    lemma_first_claimable_same(current, start, user_id, device_id);
                    lemma_first_claimable(start, user_id, device_id);
                }
                let key = self.claim_one(user_id, device_id, now);
                let b = &self.bundles[i];
                let resp = PrekeyBundleResp {
                    user_id: b.user_id,
                    device_id: b.device_id,
                    identity_key: b.identity_key.clone(),
                    static_key: b.static_key.clone(),
                    signed_prekey: SignedPrekey {
                        key_id: SIGNED_PREKEY_ID,
                        public_key: b.signed_prekey.clone(),
                        signature: b.signature.clone(),
                    },
                    one_time_prekey: key,
                };
                out.push(resp);
                proof {
                    assert(bundles.take(i + 1)[i as int].user_id == user_id);
                }
            } else {
                proof {
                    if has_any_bundle(bundles.take(i + 1), user_id) {
                        let k = choose|k: int|
                            0 <= k < bundles.take(i + 1).len() && (#[trigger] bundles.take(i + 1)[k]).user_id == user_id;
                        assert(bundles.take(i as int)[k].user_id == user_id);
                    }
                    if has_any_bundle(bundles.take(i as int), user_id) {
                        let k = choose|k: int|
                            0 <= k < bundles.take(i as int).len() && (#[trigger] bundles.take(i as int)[k]).user_id == user_id;
                        assert(bundles.take(i + 1)[k].user_id == user_id);
                    }
                }
            }
            proof {
                assert forall|j: int| 0 <= j < start.len() implies self.prekeys@[j] == prekeys_after_fetch(
                    bundles.take(i + 1),
                    start,
                    user_id,
                    now,
                )[j] by {
                    lemma_has_bundle_take_next(bundles, user_id, start[j].device_id, i as int);
                }
                assert(self.prekeys@ =~= prekeys_after_fetch(bundles.take(i + 1), start, user_id, now));
            }
            i = i + 1;
        }
        proof {
            assert(bundles.take(n as int) =~= bundles);
            lemma_fetch_keeps_wf(bundles, start, self.next_id, user_id, now);
        }
        if out.len() == 0 {
            proof {
                assert forall|j: int| 0 <= j < start.len() implies !consumes(bundles, start, j, user_id) by {
                    if has_bundle(bundles, user_id, start[j].device_id) {
                        let k = choose|k: int|
                            0 <= k < bundles.len() && is_bundle_of(#[trigger] bundles[k], user_id, start[j].device_id);
                        assert(bundles[k].user_id == user_id);
                    }
                }
                assert(self.prekeys@ =~= start);
            }
            return Err(ApiError::NotFound("User not found or no keys".to_string()));
        }
        Ok(out)
    }

    fn key_position(&self, id: i32) -> (r: Option<usize>)
        ensures
            match r {
                Some(j) => j < self.prekeys().len() && self.prekeys()[j as int].id == id,
                None => forall|j: int| 0 <= j < self.prekeys().len() ==> self.prekeys()[j].id != id,
            },
    {
        let n = self.prekeys.len();
        let mut i: usize = 0;
        while i < n
            invariant
                0 <= i <= n,
                n == self.prekeys@.len(),
                forall|j: int| 0 <= j < i ==> self.prekeys@[j].id != id,
            decreases n - i,
        {
            if self.prekeys[i].id == id {
                return Some(i);
            }
            i = i + 1;
        }
        None
    }

    /// First step of a claim that is spread over time: locks the available
    /// key with the given id. Until the key is released or committed every
    /// fetch passes over it and takes the next available key instead. Wins
    /// exactly when such a key exists and is available.
    pub fn hold(&mut self, id: i32) -> (won: bool)
        requires
            old(self).wf(),
        ensures
            final(self).wf(),
            final(self).bundles() == old(self).bundles(),
            final(self).next_id() == old(self).next_id(),
            won == has_key_in(old(self).prekeys(), id, |s: ClaimState| s is Available),
            final(self).prekeys() == prekeys_with_change(old(self).prekeys(), id, |s: ClaimState| s.after_hold()),
            final(self).state() == key_step(old(self).state(), (KeyOp::Hold { id })),
    {
        let ghost start = self.prekeys@;
        let won = match self.key_position(id) {
            Some(j) => self.prekeys[j].state.try_hold(),
            None => false,
        };
        proof {
            assert(self.prekeys@ =~= prekeys_with_change(start, id, |s: ClaimState| s.after_hold()));
            lemma_change_keeps_wf(start, self.next_id, id, |s: ClaimState| s.after_hold());
        }
        won
    }

    /// Gives a locked key back, as a claim that is abandoned before it
    /// commits does. Done exactly when such a key exists and is locked.
    pub fn release(&mut self, id: i32) -> (done: bool)
        requires
            old(self).wf(),
        ensures
            final(self).wf(),
            final(self).bundles() == old(self).bundles(),
            final(self).next_id() == old(self).next_id(),
            done == has_key_in(old(self).prekeys(), id, |s: ClaimState| s is Held),
            final(self).prekeys() == prekeys_with_change(old(self).prekeys(), id, |s: ClaimState| s.after_release()),
            final(self).state() == key_step(old(self).state(), (KeyOp::Release { id })),
    {
        let ghost start = self.prekeys@;
        let done = match self.key_position(id) {
            Some(j) => self.prekeys[j].state.release(),
            None => false,
        };
        proof {
            assert(self.prekeys@ =~= prekeys_with_change(start, id, |s: ClaimState| s.after_release()));
            lemma_change_keeps_wf(start, self.next_id, id, |s: ClaimState| s.after_release());
        }
        done
    }

    /// Last step of a claim that is spread over time: consumes the locked
    /// key at `now`. Done exactly when such a key exists and is locked.
    pub fn commit(&mut self, id: i32, now: i64) -> (done: bool)
        requires
            old(self).wf(),
        ensures
            final(self).wf(),
            final(self).bundles() == old(self).bundles(),
            final(self).next_id() == old(self).next_id(),
            done == has_key_in(old(self).prekeys(), id, |s: ClaimState| s is Held),
            final(self).prekeys() == prekeys_with_change(old(self).prekeys(), id, |s: ClaimState| s.after_commit(now)),
            final(self).state() == key_step(old(self).state(), (KeyOp::Commit { id, now })),
    {
        let ghost start = self.prekeys@;
        let done = match self.key_position(id) {
            Some(j) => self.prekeys[j].state.commit(now),
            None => false,
        };
        proof {
            assert(self.prekeys@ =~= prekeys_with_change(start, id, |s: ClaimState| s.after_commit(now)));
            lemma_change_keeps_wf(start, self.next_id, id, |s: ClaimState| s.after_commit(now));
        }
        done
    }

    /// How many devices have a bundle.
    pub fn bundle_count(&self) -> (n: usize)
        ensures
            n == self.bundles().len(),
    {
        self.bundles.len()
    }

    /// How many one-time keys are stored, consumed ones included.
    pub fn prekey_count(&self) -> (n: usize)
        ensures
            n == self.prekeys().len(),
    {
        self.prekeys.len()
    }

    /// A copy of the one-time key row at position `i`, if there is one.
    pub fn prekey(&self, i: usize) -> (row: Option<PrekeyRow>)
        ensures
            i < self.prekeys().len() ==> row == Some(self.prekeys()[i as int]),
            i >= self.prekeys().len() ==> row is None,
    {
        if i >= self.prekeys.len() {
            return None;
        }
        let r = &self.prekeys[i];
        Some(
            PrekeyRow {
                id: r.id,
                user_id: r.user_id,
                device_id: r.device_id,
                prekey_b64: r.prekey_b64.clone(),
                state: r.state,
            },
        )
    }
}

} // verus!
