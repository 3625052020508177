use relay_core::auth::{bearer_token, require_auth, verified, Claims, TOKEN_LIFETIME_SECS};
use relay_core::errors::ApiError;
use relay_core::identifiers::{digest_text, hash_identifier, identifier_hashes};

#[test]
fn bearer_token_is_what_follows_the_prefix() {
    assert_eq!(bearer_token(Some("Bearer abc.def.ghi")).unwrap(), "abc.def.ghi");
    assert_eq!(bearer_token(Some("Bearer ")).unwrap(), "");
    assert_eq!(bearer_token(Some("Bearer Bearer x")).unwrap(), "Bearer x");
}

#[test]
fn other_headers_are_unauthorized() {
    assert!(matches!(bearer_token(None), Err(ApiError::Unauthorized)));
    assert!(matches!(bearer_token(Some("")), Err(ApiError::Unauthorized)));
    assert!(matches!(bearer_token(Some("Bearer")), Err(ApiError::Unauthorized)));
    assert!(matches!(bearer_token(Some("bearer abc")), Err(ApiError::Unauthorized)));
    assert!(matches!(bearer_token(Some("Basic abc")), Err(ApiError::Unauthorized)));
    assert!(matches!(bearer_token(Some(" Bearer abc")), Err(ApiError::Unauthorized)));
}

#[test]
fn issued_claims_expire_thirty_days_on() {
    assert_eq!(TOKEN_LIFETIME_SECS, 30 * 24 * 60 * 60);
    let c = Claims::issued(7, 1_700_000_000).unwrap();
    assert_eq!(c, Claims { sub: 7, device: None, exp: 1_702_592_000 });
    assert_eq!(Claims::issued(7, -TOKEN_LIFETIME_SECS).unwrap().exp, 0);
}

#[test]
fn claims_cannot_be_issued_for_a_time_out_of_range() {
    assert!(matches!(Claims::issued(7, i64::MAX), Err(ApiError::Internal)));
    assert!(matches!(Claims::issued(7, i64::MAX - TOKEN_LIFETIME_SECS + 1), Err(ApiError::Internal)));
    assert!(matches!(Claims::issued(7, -TOKEN_LIFETIME_SECS - 1), Err(ApiError::Internal)));
}

#[test]
fn a_credential_acts_for_its_own_user_and_device_only() {
    let unbound = Claims { sub: 1, device: None, exp: 0 };
    let bound = Claims { sub: 1, device: Some(10), exp: 0 };
    assert!(unbound.may_act_for(1, 10));
    assert!(unbound.may_act_for(1, 11));
    assert!(!unbound.may_act_for(2, 10));
    assert!(bound.may_act_for(1, 10));
    assert!(!bound.may_act_for(1, 11));
    assert!(!bound.may_act_for(2, 10));
    assert_eq!(unbound.bound_device_or(5), 5);
    assert_eq!(bound.bound_device_or(5), 10);
}

#[test]
fn errors_map_to_status_and_text() {
    assert_eq!(ApiError::Unauthorized.status_code(), 401);
    assert_eq!(ApiError::Forbidden.status_code(), 403);
    assert_eq!(ApiError::BadRequest("bad".to_string()).status_code(), 400);
    assert_eq!(ApiError::Internal.status_code(), 500);
    assert_eq!(ApiError::NotFound("gone".to_string()).status_code(), 404);
    assert_eq!(ApiError::Unauthorized.message(), "unauthorized");
    assert_eq!(ApiError::Forbidden.message(), "forbidden");
    assert_eq!(ApiError::BadRequest("bad".to_string()).message(), "bad");
    assert_eq!(ApiError::Internal.message(), "internal");
    assert_eq!(ApiError::NotFound("gone".to_string()).message(), "gone");
}

#[test]
fn identifiers_are_hashed_with_sha256_in_lower_case_hex() {
    assert_eq!(hash_identifier("abc"), "ba7816bf8f01cfea414140de5dae2223b00361a396177a9cb410ff61f20015ad");
    assert_eq!(hash_identifier(""), "e3b0c44298fc1c149afbf4c8996fb92427ae41e4649b934ca495991b7852b855");
    assert_ne!(hash_identifier("+15550100"), "+15550100");
    assert_eq!(hash_identifier("+15550100").len(), 64);
}

#[test]
fn digest_text_writes_two_digits_per_byte() {
    assert_eq!(digest_text(&vec![1, 2, 3, 15, 16]), "0102030f10");
    assert_eq!(digest_text(&vec![0x00, 0x9a, 0xff, 0xa0]), "009affa0");
    assert_eq!(digest_text(&Vec::new()), "");
}

#[test]
fn absent_identifiers_have_no_hash() {
    let (p, e) = identifier_hashes(&Some("abc".to_string()), &None);
    assert_eq!(p.unwrap(), "ba7816bf8f01cfea414140de5dae2223b00361a396177a9cb410ff61f20015ad");
    assert_eq!(e, None);
    let (phone, email) = identifier_hashes(&None, &Some("".to_string()));
    assert_eq!(phone, None);
    assert_eq!(email.unwrap(), "e3b0c44298fc1c149afbf4c8996fb92427ae41e4649b934ca495991b7852b855");
}

fn check(token: &str) -> Option<Claims> {
    if token == "good" {
        Some(Claims { sub: 42, device: Some(7), exp: 99 })
    } else {
        None
    }
}

#[test]
fn a_valid_credential_gives_its_identity() {
    let r = require_auth(Some("Bearer good"), check);
    assert_eq!(r.unwrap(), Claims { sub: 42, device: Some(7), exp: 99 });
}

#[test]
fn an_invalid_credential_is_unauthorized() {
    assert!(matches!(require_auth(Some("Bearer bad"), check), Err(ApiError::Unauthorized)));
    assert!(matches!(require_auth(Some("Bearer  good"), check), Err(ApiError::Unauthorized)));
    assert!(matches!(require_auth(Some("Bearer "), check), Err(ApiError::Unauthorized)));
}

#[test]
fn without_a_bearer_credential_the_verifier_is_not_asked() {
    let asked = std::cell::Cell::new(0);
    let counting = |t: &str| {
        asked.set(asked.get() + 1);
        check(t)
    };
    assert!(matches!(require_auth(None, &counting), Err(ApiError::Unauthorized)));
    assert!(matches!(require_auth(Some("good"), &counting), Err(ApiError::Unauthorized)));
    assert!(matches!(require_auth(Some("Basic good"), &counting), Err(ApiError::Unauthorized)));
    assert_eq!(asked.get(), 0);
    assert!(require_auth(Some("Bearer good"), &counting).is_ok());
    assert_eq!(asked.get(), 1);
}

#[test]
fn a_verification_outcome_maps_to_identity_or_unauthorized() {
    let c = Claims { sub: 1, device: None, exp: 5 };
    assert_eq!(verified(Some(c)).unwrap(), c);
    assert!(matches!(verified(None), Err(ApiError::Unauthorized)));
}
