use crate::errors::ApiError;
use vstd::prelude::*;

verus! {

/// How long an issued credential lasts: thirty days, in seconds.
pub const TOKEN_LIFETIME_SECS: i64 = 2_592_000;

/// `str::strip_prefix` with a string as the pattern: where `s` starts with
/// `prefix` the result is what follows it, otherwise there is none.
#[verifier::external_body]
fn strip_prefix<'a>(s: &'a str, prefix: &str) -> (rest: Option<&'a str>)
    ensures
        match rest {
            Some(t) => s@ == prefix@ + t@,
            None => !prefix@.is_prefix_of(s@),
        },
{
    s.strip_prefix(prefix)
}

/// The credential that an `Authorization` header carries: what follows
/// `Bearer `. A missing header, or one of another form, is `Unauthorized`.
pub fn bearer_token<'a>(authorization: Option<&'a str>) -> (r: Result<&'a str, ApiError>)
    ensures
        match authorization {
            Some(h) if "Bearer "@.is_prefix_of(h@) => r is Ok && r->Ok_0@ == h@.skip("Bearer "@.len() as int),
            _ => r == Err::<&str, ApiError>(ApiError::Unauthorized),
        },
{
    match authorization {
        None => Err(ApiError::Unauthorized),
        Some(h) => match strip_prefix(h, "Bearer ") {
            Some(t) => {
                assert(t@ =~= h@.skip("Bearer "@.len() as int));
                assert("Bearer "@.is_prefix_of(h@));
                Ok(t)
            },
            None => Err(ApiError::Unauthorized),
        },
    }
}

/// The identity that a verified credential carries: a user, the device the
/// credential is bound to (if any), and the time at which it expires, in
/// seconds since the epoch.
#[derive(Debug, Clone, Copy, PartialEq, Eq)]
pub struct Claims {
    pub sub: u128,
    pub device: Option<u128>,
    pub exp: usize,
}

/// What becomes of a credential once its verification has run: the
/// identity it carries where it was found genuine and in date, and
/// `Unauthorized` where it was not.
pub fn verified(decoded: Option<Claims>) -> (r: Result<Claims, ApiError>)
    ensures
        r == match decoded {
            Some(c) => Ok::<Claims, ApiError>(c),
            None => Err::<Claims, ApiError>(ApiError::Unauthorized),
        },
{
    match decoded {
        Some(c) => Ok(c),
        None => Err(ApiError::Unauthorized),
    }
}

/// Authenticates a request: takes the credential from the `Authorization`
/// header and hands it to `verify`, which says whose it is or that it is
/// not valid. A header without a bearer credential is `Unauthorized` and
/// `verify` is not asked; otherwise the answer is what `verified` makes of
/// the outcome of `verify` on exactly the text behind `Bearer `.
pub fn require_auth<F: Fn(&str) -> Option<Claims>>(authorization: Option<&str>, verify: F) -> (r: Result<
    Claims,
    ApiError,
>)
    requires
        forall|t: &str| call_requires(verify, (t,)),
    ensures
        match authorization {
            Some(h) if "Bearer "@.is_prefix_of(h@) => exists|t: &str, decoded: Option<Claims>|
                t@ == h@.skip("Bearer "@.len() as int) && call_ensures(verify, (t,), decoded) && r == match decoded {
                    Some(c) => Ok::<Claims, ApiError>(c),
                    None => Err::<Claims, ApiError>(ApiError::Unauthorized),
                },
            _ => r == Err::<Claims, ApiError>(ApiError::Unauthorized),
        },
{
    match bearer_token(authorization) {
        Ok(token) => {
            let decoded = verify(token);
            verified(decoded)
        },
        Err(e) => Err(ApiError::Unauthorized),
    }
}

impl Claims {
    /// Whether this identity may act for `device_id` of user `user_id`: the
    /// user must be its own, and a credential bound to a device acts for
    /// that device only.
    pub open spec fn acts_for(self, user_id: u128, device_id: u128) -> bool {
        self.sub == user_id && (self.device is Some ==> self.device == Some(device_id))
    }

    /// The device this identity speaks from: the bound one, or `fallback`
    /// where the credential names none.
    pub open spec fn device_or(self, fallback: u128) -> u128 {
        match self.device {
            Some(d) => d,
            None => fallback,
        }
    }

    /// Decides whether this identity may act for the given user and device.
    pub fn may_act_for(&self, user_id: u128, device_id: u128) -> (ok: bool)
        ensures
            ok == self.acts_for(user_id, device_id),
    {
        if self.sub != user_id {
            return false;
        }
        match self.device {
            Some(d) => d == device_id,
            None => true,
        }
    }

    /// The identity that a credential issued at `now` (seconds since the
    /// epoch) carries: the user, no device, and an expiry thirty days on.
    /// `Internal` exactly when that expiry is not a time a credential can
    /// carry: before the epoch, or beyond what the machine can count.
    pub fn issued(user_id: u128, now: i64) -> (r: Result<Claims, ApiError>)
        ensures
            0 <= now + TOKEN_LIFETIME_SECS <= usize::MAX && now + TOKEN_LIFETIME_SECS <= i64::MAX ==> r == Ok::<
                Claims,
                ApiError,
            >(Claims { sub: user_id, device: None, exp: (now + TOKEN_LIFETIME_SECS) as usize }),
            !(0 <= now + TOKEN_LIFETIME_SECS <= usize::MAX && now + TOKEN_LIFETIME_SECS <= i64::MAX) ==> r == Err::<
                Claims,
                ApiError,
            >(ApiError::Internal),
    {
        if now > i64::MAX - TOKEN_LIFETIME_SECS {
            return Err(ApiError::Internal);
        }
        let exp: i64 = now + TOKEN_LIFETIME_SECS;
        if exp < 0 || exp as u64 > usize::MAX as u64 {
            return Err(ApiError::Internal);
        }
        Ok(Claims { sub: user_id, device: None, exp: exp as usize })
    }

    /// The device this identity speaks from, `fallback` where it is bound to none.
    pub fn bound_device_or(&self, fallback: u128) -> (d: u128)
        ensures
            d == self.device_or(fallback),
    {
        match self.device {
            Some(d) => d,
            None => fallback,
        }
    }
}

} // verus!
