use relay_core::auth::Claims;
use relay_core::claim::ClaimState;
use relay_core::errors::ApiError;
use relay_core::keys::{KeyStore, OneTimePrekey, UploadBundleReq, UploadBundleResp};

const ALICE: u128 = 0xA11CE;
const BOB: u128 = 0xB0B;
const PHONE: u128 = 0xD1;
const LAPTOP: u128 = 0xD2;

fn user(sub: u128) -> Claims {
    Claims { sub, device: None, exp: 0 }
}

fn bundle(device_id: u128, tag: &str, keys: &[&str]) -> UploadBundleReq {
    UploadBundleReq {
        device_id,
        identity_key_ed25519_b64: format!("idk-{}", tag),
        static_x25519_b64: format!("stk-{}", tag),
        signed_prekey_x25519_b64: format!("spk-{}", tag),
        signed_prekey_signature_b64: format!("sig-{}", tag),
        one_time_prekeys_b64: keys.iter().map(|k| k.to_string()).collect(),
    }
}

#[test]
fn upload_then_fetch_round_trip() {
    let mut store = KeyStore::new();
    let up = store.upload_bundle(&user(ALICE), ALICE, &bundle(PHONE, "a", &[]), 10);
    assert_eq!(up.unwrap(), UploadBundleResp { ok: true });
    let got = store.fetch_bundle(&user(BOB), ALICE, 20).unwrap();
    assert_eq!(got.len(), 1);
    assert_eq!(got[0].user_id, ALICE);
    assert_eq!(got[0].device_id, PHONE);
    assert_eq!(got[0].identity_key, "idk-a");
    assert_eq!(got[0].static_key, "stk-a");
    assert_eq!(got[0].signed_prekey.key_id, 1);
    assert_eq!(got[0].signed_prekey.public_key, "spk-a");
    assert_eq!(got[0].signed_prekey.signature, "sig-a");
    assert_eq!(got[0].one_time_prekey, None);
}

#[test]
fn one_key_is_handed_out_once_then_none() {
    let mut store = KeyStore::new();
    store.upload_bundle(&user(ALICE), ALICE, &bundle(PHONE, "a", &["k1"]), 10).unwrap();
    let first = store.fetch_bundle(&user(BOB), ALICE, 20).unwrap();
    assert_eq!(first[0].one_time_prekey, Some(OneTimePrekey { key_id: 1, public_key: "k1".to_string() }));
    let second = store.fetch_bundle(&user(BOB), ALICE, 21).unwrap();
    assert_eq!(second.len(), 1);
    assert_eq!(second[0].one_time_prekey, None);
    assert_eq!(second[0].identity_key, "idk-a");
    assert_eq!(store.prekey(0).unwrap().state, ClaimState::Claimed { at: 20 });
}

#[test]
fn upload_for_another_user_is_forbidden_and_writes_nothing() {
    let mut store = KeyStore::new();
    let r = store.upload_bundle(&user(BOB), ALICE, &bundle(PHONE, "evil", &["k"]), 10);
    assert!(matches!(r, Err(ApiError::Forbidden)));
    assert_eq!(store.bundle_count(), 0);
    assert_eq!(store.prekey_count(), 0);
    assert!(matches!(store.fetch_bundle(&user(BOB), ALICE, 11), Err(ApiError::NotFound(_))));
}

#[test]
fn fetch_for_a_user_without_bundle_is_not_found() {
    let mut store = KeyStore::new();
    store.upload_bundle(&user(ALICE), ALICE, &bundle(PHONE, "a", &["k1"]), 10).unwrap();
    let r = store.fetch_bundle(&user(ALICE), BOB, 20);
    match r {
        Err(e) => {
            assert!(matches!(e, ApiError::NotFound(_)));
            assert_eq!(e.status_code(), 404);
            assert_eq!(e.message(), "User not found or no keys");
        }
        Ok(_) => panic!("a user without bundle has nothing to fetch"),
    }
    assert_eq!(store.prekey(0).unwrap().state, ClaimState::Available);
}

#[test]
fn no_key_is_claimed_twice() {
    let mut store = KeyStore::new();
    store.upload_bundle(&user(ALICE), ALICE, &bundle(PHONE, "a", &["k1", "k2", "k3"]), 10).unwrap();
    let mut ids = Vec::new();
    let mut misses = 0;
    for t in 0..5 {
        let got = store.fetch_bundle(&user(BOB), ALICE, 20 + t).unwrap();
        match &got[0].one_time_prekey {
            Some(k) => ids.push(k.key_id),
            None => misses += 1,
        }
    }
    assert_eq!(ids, vec![1, 2, 3]);
    assert_eq!(misses, 2);
}

#[test]
fn repeated_key_material_is_ignored() {
    let mut store = KeyStore::new();
    store.upload_bundle(&user(ALICE), ALICE, &bundle(PHONE, "a", &["k1", "k1", "k2"]), 10).unwrap();
    assert_eq!(store.prekey_count(), 2);
    store.upload_bundle(&user(ALICE), ALICE, &bundle(PHONE, "a", &["k2", "k3"]), 11).unwrap();
    assert_eq!(store.prekey_count(), 3);
    assert_eq!(store.prekey(2).unwrap().prekey_b64, "k3");
    assert_eq!(store.prekey(2).unwrap().id, 3);
    store.fetch_bundle(&user(BOB), ALICE, 12).unwrap();
    store.upload_bundle(&user(ALICE), ALICE, &bundle(PHONE, "a", &["k1"]), 13).unwrap();
    assert_eq!(store.prekey_count(), 3);
    assert_eq!(store.prekey(0).unwrap().state, ClaimState::Claimed { at: 12 });
    store.upload_bundle(&user(ALICE), ALICE, &bundle(LAPTOP, "b", &["k1"]), 14).unwrap();
    assert_eq!(store.prekey_count(), 4);
}

#[test]
fn a_second_upload_replaces_the_bundle_and_keeps_the_keys() {
    let mut store = KeyStore::new();
    store.upload_bundle(&user(ALICE), ALICE, &bundle(PHONE, "old", &["k1"]), 10).unwrap();
    store.upload_bundle(&user(ALICE), ALICE, &bundle(PHONE, "new", &["k2"]), 11).unwrap();
    assert_eq!(store.bundle_count(), 1);
    let a = store.fetch_bundle(&user(BOB), ALICE, 20).unwrap();
    assert_eq!(a.len(), 1);
    assert_eq!(a[0].identity_key, "idk-new");
    assert_eq!(a[0].signed_prekey.signature, "sig-new");
    assert_eq!(a[0].one_time_prekey.as_ref().unwrap().public_key, "k1");
    let b = store.fetch_bundle(&user(BOB), ALICE, 21).unwrap();
    assert_eq!(b[0].one_time_prekey.as_ref().unwrap().public_key, "k2");
}

#[test]
fn every_device_of_the_user_is_answered_for() {
    let mut store = KeyStore::new();
    store.upload_bundle(&user(ALICE), ALICE, &bundle(PHONE, "p", &["kp"]), 10).unwrap();
    store.upload_bundle(&user(BOB), BOB, &bundle(PHONE, "bob", &["kb"]), 11).unwrap();
    store.upload_bundle(&user(ALICE), ALICE, &bundle(LAPTOP, "l", &[]), 12).unwrap();
    let got = store.fetch_bundle(&user(BOB), ALICE, 20).unwrap();
    assert_eq!(got.len(), 2);
    assert_eq!(got[0].device_id, PHONE);
    assert_eq!(got[0].one_time_prekey.as_ref().unwrap().public_key, "kp");
    assert_eq!(got[1].device_id, LAPTOP);
    assert_eq!(got[1].identity_key, "idk-l");
    assert_eq!(got[1].one_time_prekey, None);
    assert_eq!(store.prekey(1).unwrap().state, ClaimState::Available);
}

#[test]
fn a_held_key_is_passed_over() {
    let mut store = KeyStore::new();
    store.upload_bundle(&user(ALICE), ALICE, &bundle(PHONE, "a", &["k1", "k2"]), 10).unwrap();
    assert!(store.hold(1));
    assert!(!store.hold(1));
    let a = store.fetch_bundle(&user(BOB), ALICE, 20).unwrap();
    assert_eq!(a[0].one_time_prekey.as_ref().unwrap().key_id, 2);
    let b = store.fetch_bundle(&user(BOB), ALICE, 21).unwrap();
    assert_eq!(b[0].one_time_prekey, None);
    assert!(store.release(1));
    let c = store.fetch_bundle(&user(BOB), ALICE, 22).unwrap();
    assert_eq!(c[0].one_time_prekey.as_ref().unwrap().key_id, 1);
    assert!(!store.hold(1));
    assert!(!store.release(1));
    assert!(!store.hold(99));
}

#[test]
fn a_committed_key_is_gone() {
    let mut store = KeyStore::new();
    store.upload_bundle(&user(ALICE), ALICE, &bundle(PHONE, "a", &["k1"]), 10).unwrap();
    assert!(!store.commit(1, 11));
    assert!(store.hold(1));
    assert!(store.commit(1, 12));
    assert_eq!(store.prekey(0).unwrap().state, ClaimState::Claimed { at: 12 });
    let a = store.fetch_bundle(&user(BOB), ALICE, 20).unwrap();
    assert_eq!(a[0].one_time_prekey, None);
}

#[test]
fn an_upload_without_ids_left_is_refused_as_a_whole() {
    assert!(KeyStore::starting_at(0).is_none());
    assert!(KeyStore::starting_at(-3).is_none());
    let mut store = KeyStore::starting_at(i32::MAX - 1).unwrap();
    let r = store.upload_bundle(&user(ALICE), ALICE, &bundle(PHONE, "a", &["k1", "k2"]), 10);
    assert!(matches!(r, Err(ApiError::Internal)));
    assert_eq!(store.bundle_count(), 0);
    assert_eq!(store.prekey_count(), 0);
    store.upload_bundle(&user(ALICE), ALICE, &bundle(PHONE, "a", &["k1"]), 11).unwrap();
    assert_eq!(store.prekey(0).unwrap().id, i32::MAX - 1);
    assert_eq!(store.bundle_count(), 1);
}

#[test]
fn key_rows_beyond_the_end_are_absent() {
    let mut store = KeyStore::new();
    assert!(store.prekey(0).is_none());
    store.upload_bundle(&user(ALICE), ALICE, &bundle(PHONE, "a", &["k1"]), 10).unwrap();
    assert_eq!(store.prekey(0).unwrap().user_id, ALICE);
    assert_eq!(store.prekey(0).unwrap().device_id, PHONE);
    assert!(store.prekey(1).is_none());
}
