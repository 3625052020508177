use relay_core::attachments::{check_owner, storage_key, DOWNLOAD_LINK_SECS, UPLOAD_LINK_SECS};
use relay_core::auth::Claims;
use relay_core::errors::ApiError;

#[test]
fn storage_key_names_owner_and_attachment() {
    let key = storage_key(0xa1a2a3a4b1b2c1c2d1d2d3d4d5d6d7d8, 1);
    assert_eq!(key, "a1a2a3a4-b1b2-c1c2-d1d2-d3d4d5d6d7d8/00000000-0000-0000-0000-000000000001.bin");
    let edge = storage_key(0, u128::MAX);
    assert_eq!(edge, "00000000-0000-0000-0000-000000000000/ffffffff-ffff-ffff-ffff-ffffffffffff.bin");
}

#[test]
fn storage_key_matches_the_uuid_crate() {
    let owner = uuid::Uuid::from_u128(0x0123456789abcdef0fedcba987654321);
    let attachment = uuid::Uuid::from_u128(0xdeadbeef00000000000000000000cafe);
    assert_eq!(storage_key(owner.as_u128(), attachment.as_u128()), format!("{}/{}.bin", owner, attachment));
    assert_eq!(
        storage_key(owner.as_u128(), attachment.as_u128()),
        "01234567-89ab-cdef-0fed-cba987654321/deadbeef-0000-0000-0000-00000000cafe.bin"
    );
}

#[test]
fn only_the_owner_completes_an_upload() {
    let alice = Claims { sub: 5, device: None, exp: 0 };
    assert!(check_owner(&alice, 5).is_ok());
    assert!(matches!(check_owner(&alice, 6), Err(ApiError::Forbidden)));
}

#[test]
fn links_last_ten_minutes_up_and_one_hour_down() {
    assert_eq!(UPLOAD_LINK_SECS, 10 * 60);
    assert_eq!(DOWNLOAD_LINK_SECS, 60 * 60);
}
