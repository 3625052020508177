use crate::auth::Claims;
use crate::errors::ApiError;
use crate::identifiers::hex_digit;
use vstd::prelude::*;
use vstd::string::StringExecFns;

verus! {

/// How long a link for an upload is good for, in seconds.
pub const UPLOAD_LINK_SECS: u32 = 600;

/// How long a link for a download is good for, in seconds.
pub const DOWNLOAD_LINK_SECS: u32 = 3600;

/// The text form of a 128-bit id: its 32 hexadecimal digits in lower
/// case, most significant first, in groups of 8, 4, 4, 4 and 12 with a
/// hyphen between the groups.
pub open spec fn id_text(id: u128) -> Seq<char> {
    Seq::new(
        36,
        |i: int|
            if i == 8 || i == 13 || i == 18 || i == 23 {
                '-'
            } else {
                let k = if i < 8 {
                    i
                } else if i < 13 {
                    i - 1
                } else if i < 18 {
                    i - 2
                } else if i < 23 {
                    i - 3
                } else {
                    i - 4
                };
                hex_digit(((id >> ((4 * (31 - k)) as u128)) & 0xf) as int)
            },
    )
}

/// The text that `uuid::Uuid` writes for the id with this value: its
/// hyphenated lower-case form, as `id_text` spells it out.
#[verifier::external_body]
fn id_to_text(id: u128) -> (text: String)
    ensures
        text@ == id_text(id),
{
    uuid::Uuid::from_u128(id).hyphenated().to_string()
}

/// The key under which an attachment is kept in the object store.
pub open spec fn storage_key_of(owner: u128, attachment_id: u128) -> Seq<char> {
    id_text(owner) + "/"@ + id_text(attachment_id) + ".bin"@
}

/// The key under which an attachment is kept in the object store: the
/// owner's id, a slash, the attachment's id and `.bin`.
pub fn storage_key(owner: u128, attachment_id: u128) -> (key: String)
    ensures
        key@ == storage_key_of(owner, attachment_id),
{
    let mut key = id_to_text(owner);
    key.append("/");
    let name = id_to_text(attachment_id);
    key.append(name.as_str());
    key.append(".bin");
    key
}

/// Only the user who asked for an upload may complete it: `Forbidden`
/// exactly when the caller is not the attachment's owner.
pub fn check_owner(claims: &Claims, owner: u128) -> (r: Result<(), ApiError>)
    ensures
        r == if claims.sub == owner {
            Ok::<(), ApiError>(())
        } else {
            Err::<(), ApiError>(ApiError::Forbidden)
        },
{
    if claims.sub == owner {
        Ok(())
    } else {
        Err(ApiError::Forbidden)
    }
}

} // verus!
