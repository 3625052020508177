use relay_core::auth::Claims;
use relay_core::claim::ClaimState;
use relay_core::errors::ApiError;
use relay_core::messages::{InboxItem, InboxQuery, MessageRelay, SendReq, SendResp};

const ALICE: u128 = 0xA11CE;
const ALICE_PHONE: u128 = 0xA1;
const BOB: u128 = 0xB0B;
const BOB_PHONE: u128 = 0xB1;
const BOB_LAPTOP: u128 = 0xB2;

fn user(sub: u128) -> Claims {
    Claims { sub, device: None, exp: 0 }
}

fn device(sub: u128, device: u128) -> Claims {
    Claims { sub, device: Some(device), exp: 0 }
}

fn envelope(to_user: u128, to_device: u128, text: &str) -> SendReq {
    SendReq {
        to_user_id: to_user,
        to_device_id: to_device,
        from_device_id: 0x5EED,
        ciphertext_b64: text.to_string(),
        msg_type: "signal".to_string(),
    }
}

fn texts(items: &[InboxItem]) -> Vec<String> {
    items.iter().map(|i| i.ciphertext_b64.clone()).collect()
}

fn fetch(relay: &mut MessageRelay, who: &Claims, dev: u128, max: usize, now: i64) -> Vec<InboxItem> {
    relay.inbox(who, who.sub, &InboxQuery { device_id: dev }, max, now).unwrap()
}

#[test]
fn fifo_two_envelopes_come_back_in_order() {
    let mut relay = MessageRelay::new();
    let sent = relay.send(&user(ALICE), &vec![envelope(BOB, BOB_PHONE, "E1"), envelope(BOB, BOB_PHONE, "E2")], 100);
    assert_eq!(sent.unwrap(), SendResp { ok: true });
    let got = fetch(&mut relay, &user(BOB), BOB_PHONE, 2, 200);
    assert_eq!(texts(&got), vec!["E1".to_string(), "E2".to_string()]);
    assert_eq!(got[0].id, 0);
    assert_eq!(got[1].id, 1);
    assert_eq!(got[0].created_at, 100);
    assert_eq!(got[0].msg_type, "signal");
    assert_eq!(got[0].to_user_id, BOB);
    assert_eq!(got[0].to_device_id, BOB_PHONE);
}

#[test]
fn fifo_across_separate_sends() {
    let mut relay = MessageRelay::new();
    relay.send(&user(ALICE), &vec![envelope(BOB, BOB_PHONE, "E1")], 100).unwrap();
    relay.send(&user(ALICE), &vec![envelope(BOB, BOB_LAPTOP, "other")], 101).unwrap();
    relay.send(&user(ALICE), &vec![envelope(BOB, BOB_PHONE, "E2")], 102).unwrap();
    let got = fetch(&mut relay, &user(BOB), BOB_PHONE, 10, 200);
    assert_eq!(texts(&got), vec!["E1".to_string(), "E2".to_string()]);
    let other = fetch(&mut relay, &user(BOB), BOB_LAPTOP, 10, 200);
    assert_eq!(texts(&other), vec!["other".to_string()]);
}

#[test]
fn empty_inbox_is_an_empty_list() {
    let mut relay = MessageRelay::new();
    for max in [1usize, 2, 100, usize::MAX] {
        let got = relay.inbox(&user(BOB), BOB, &InboxQuery { device_id: BOB_PHONE }, max, 1);
        assert_eq!(got.unwrap(), Vec::<InboxItem>::new());
    }
    assert_eq!(relay.len(), 0);
    relay.send(&user(ALICE), &vec![envelope(BOB, BOB_LAPTOP, "x")], 1).unwrap();
    assert!(fetch(&mut relay, &user(BOB), BOB_PHONE, 5, 2).is_empty());
    assert_eq!(relay.row(0).unwrap().state, ClaimState::Available);
}

#[test]
fn zero_batch_takes_nothing() {
    let mut relay = MessageRelay::new();
    relay.send(&user(ALICE), &vec![envelope(BOB, BOB_PHONE, "x")], 1).unwrap();
    assert!(fetch(&mut relay, &user(BOB), BOB_PHONE, 0, 2).is_empty());
    assert_eq!(relay.row(0).unwrap().state, ClaimState::Available);
}

#[test]
fn draining_returns_each_envelope_once() {
    let mut relay = MessageRelay::new();
    let batch: Vec<SendReq> = (0..5).map(|i| envelope(BOB, BOB_PHONE, &format!("m{}", i))).collect();
    relay.send(&user(ALICE), &batch, 10).unwrap();
    let a = fetch(&mut relay, &user(BOB), BOB_PHONE, 2, 20);
    let b = fetch(&mut relay, &user(BOB), BOB_PHONE, 2, 21);
    let c = fetch(&mut relay, &user(BOB), BOB_PHONE, 2, 22);
    let d = fetch(&mut relay, &user(BOB), BOB_PHONE, 2, 23);
    assert_eq!(a.len(), 2);
    assert_eq!(b.len(), 2);
    assert_eq!(c.len(), 1);
    assert_eq!(d.len(), 0);
    let mut ids: Vec<u64> = a.iter().chain(b.iter()).chain(c.iter()).map(|i| i.id).collect();
    assert_eq!(ids, vec![0, 1, 2, 3, 4]);
    ids.dedup();
    assert_eq!(ids.len(), 5);
    assert_eq!(relay.row(0).unwrap().state, ClaimState::Claimed { at: 20 });
    assert_eq!(relay.row(2).unwrap().state, ClaimState::Claimed { at: 21 });
    assert_eq!(relay.row(4).unwrap().state, ClaimState::Claimed { at: 22 });
}

#[test]
fn sender_is_taken_from_the_credential() {
    let mut relay = MessageRelay::new();
    relay.send(&device(ALICE, ALICE_PHONE), &vec![envelope(BOB, BOB_PHONE, "x")], 5).unwrap();
    relay.send(&user(ALICE), &vec![envelope(BOB, BOB_PHONE, "y")], 6).unwrap();
    let got = fetch(&mut relay, &user(BOB), BOB_PHONE, 10, 7);
    assert_eq!(got[0].from_user_id, ALICE);
    assert_eq!(got[0].from_device_id, ALICE_PHONE);
    assert_eq!(got[1].from_user_id, ALICE);
    assert_eq!(got[1].from_device_id, 0x5EED);
}

#[test]
fn inbox_of_another_user_is_forbidden() {
    let mut relay = MessageRelay::new();
    relay.send(&user(ALICE), &vec![envelope(BOB, BOB_PHONE, "x")], 5).unwrap();
    let r = relay.inbox(&user(ALICE), BOB, &InboxQuery { device_id: BOB_PHONE }, 10, 6);
    assert!(matches!(r, Err(ApiError::Forbidden)));
    assert_eq!(relay.row(0).unwrap().state, ClaimState::Available);
    assert_eq!(fetch(&mut relay, &user(BOB), BOB_PHONE, 10, 7).len(), 1);
}

#[test]
fn inbox_of_another_device_is_forbidden_for_a_bound_credential() {
    let mut relay = MessageRelay::new();
    relay.send(&user(ALICE), &vec![envelope(BOB, BOB_PHONE, "x")], 5).unwrap();
    let r = relay.inbox(&device(BOB, BOB_LAPTOP), BOB, &InboxQuery { device_id: BOB_PHONE }, 10, 6);
    assert!(matches!(r, Err(ApiError::Forbidden)));
    assert_eq!(relay.row(0).unwrap().state, ClaimState::Available);
    let ok = relay.inbox(&device(BOB, BOB_PHONE), BOB, &InboxQuery { device_id: BOB_PHONE }, 10, 7);
    assert_eq!(ok.unwrap().len(), 1);
}

#[test]
fn envelopes_of_another_user_are_never_handed_out() {
    let mut relay = MessageRelay::new();
    relay.send(&user(ALICE), &vec![envelope(BOB, BOB_PHONE, "x")], 5).unwrap();
    assert!(fetch(&mut relay, &user(ALICE), BOB_PHONE, 10, 6).is_empty());
    assert_eq!(relay.row(0).unwrap().state, ClaimState::Available);
}

#[test]
fn a_held_envelope_is_passed_over_not_waited_for() {
    let mut relay = MessageRelay::new();
    let batch: Vec<SendReq> = (0..3).map(|i| envelope(BOB, BOB_PHONE, &format!("m{}", i))).collect();
    relay.send(&user(ALICE), &batch, 10).unwrap();
    assert!(relay.hold(0));
    assert!(!relay.hold(0));
    let got = fetch(&mut relay, &user(BOB), BOB_PHONE, 2, 20);
    assert_eq!(texts(&got), vec!["m1".to_string(), "m2".to_string()]);
    assert_eq!(relay.row(0).unwrap().state, ClaimState::Held);
    assert!(relay.release(0));
    assert!(!relay.release(0));
    let late = fetch(&mut relay, &user(BOB), BOB_PHONE, 2, 30);
    assert_eq!(texts(&late), vec!["m0".to_string()]);
    assert!(!relay.hold(0));
    assert!(!relay.hold(77));
}

#[test]
fn a_committed_hold_delivers_exactly_once() {
    let mut relay = MessageRelay::new();
    relay.send(&user(ALICE), &vec![envelope(BOB, BOB_PHONE, "x")], 10).unwrap();
    assert!(!relay.commit(0, 11));
    assert!(relay.hold(0));
    assert!(relay.commit(0, 12));
    assert!(!relay.commit(0, 13));
    assert_eq!(relay.row(0).unwrap().state, ClaimState::Claimed { at: 12 });
    assert!(fetch(&mut relay, &user(BOB), BOB_PHONE, 10, 20).is_empty());
}

#[test]
fn a_batch_without_ids_left_is_refused_as_a_whole() {
    let mut relay = MessageRelay::starting_at(u64::MAX - 1);
    let r = relay.send(&user(ALICE), &vec![envelope(BOB, BOB_PHONE, "a"), envelope(BOB, BOB_PHONE, "b")], 1);
    assert!(matches!(r, Err(ApiError::Internal)));
    assert_eq!(relay.len(), 0);
    relay.send(&user(ALICE), &vec![envelope(BOB, BOB_PHONE, "a")], 2).unwrap();
    assert_eq!(relay.len(), 1);
    assert_eq!(relay.row(0).unwrap().id, u64::MAX - 1);
    let again = relay.send(&user(ALICE), &vec![envelope(BOB, BOB_PHONE, "b")], 3);
    assert!(matches!(again, Err(ApiError::Internal)));
    assert_eq!(relay.len(), 1);
}

#[test]
fn rows_beyond_the_end_are_absent() {
    let mut relay = MessageRelay::new();
    assert!(relay.row(0).is_none());
    relay.send(&user(ALICE), &vec![envelope(BOB, BOB_PHONE, "a")], 2).unwrap();
    assert!(relay.row(0).is_some());
    assert!(relay.row(1).is_none());
}

#[test]
fn an_empty_batch_is_accepted() {
    let mut relay = MessageRelay::starting_at(u64::MAX);
    assert_eq!(relay.send(&user(ALICE), &Vec::new(), 1).unwrap(), SendResp { ok: true });
    assert_eq!(relay.len(), 0);
}

#[test]
fn of_two_claims_on_one_row_one_wins() {
    let mut s = ClaimState::Available;
    assert!(s.is_available());
    assert!(s.try_claim(7));
    assert!(!s.try_claim(8));
    assert_eq!(s, ClaimState::Claimed { at: 7 });
    assert!(s.is_claimed());
    assert!(!s.try_hold());
    assert!(!s.release());
    assert!(!s.commit(9));
    assert_eq!(s, ClaimState::Claimed { at: 7 });
}

#[test]
fn a_hold_blocks_a_claim_until_it_is_released() {
    let mut s = ClaimState::Available;
    assert!(s.try_hold());
    assert!(!s.try_claim(1));
    assert!(!s.try_hold());
    assert_eq!(s, ClaimState::Held);
    assert!(s.release());
    assert_eq!(s, ClaimState::Available);
    assert!(s.try_hold());
    assert!(s.commit(5));
    assert_eq!(s, ClaimState::Claimed { at: 5 });
}
