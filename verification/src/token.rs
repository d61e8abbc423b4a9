use vstd::prelude::*;
use crate::text::optional_text;

verus! {

/// Why a grant of tokens cannot be used.
#[derive(Clone, Copy, Debug, PartialEq, Eq, Structural)]
pub enum TokenError {
    AccessTokenMissing,
    AccessExpiryMissing,
    RefreshTokenMissing,
    RefreshExpiryMissing,
    /// A lifetime is given as a negative number of seconds.
    NegativeLifetime,
}

/// A pair of tokens as the bank grants it: each with the seconds for which it is good.
#[derive(Debug)]
pub struct TokenGrant {
    pub access_token: String,
    pub access_lifetime: u64,
    pub refresh_token: String,
    pub refresh_lifetime: u64,
}

/// A grant of tokens, its texts as sequences of characters.
pub struct TokenGrantView {
    pub access_token: Seq<char>,
    pub access_lifetime: u64,
    pub refresh_token: Seq<char>,
    pub refresh_lifetime: u64,
}

impl View for TokenGrant {
    type V = TokenGrantView;

    open spec fn view(&self) -> TokenGrantView {
        TokenGrantView {
            access_token: self.access_token@,
            access_lifetime: self.access_lifetime,
            refresh_token: self.refresh_token@,
            refresh_lifetime: self.refresh_lifetime,
        }
    }
}

/// The seconds of a lifetime, which must be there and not be negative.
pub open spec fn lifetime(seconds: Option<i32>, missing: TokenError) -> Result<u64, TokenError> {
    match seconds {
        None => Err(missing),
        Some(s) => if s < 0 {
            Err(TokenError::NegativeLifetime)
        } else {
            Ok(s as u64)
        },
    }
}

/// The grant that the bank's answer holds. What is wrong with the access
/// token is reported before what is wrong with the refresh token, and a
/// missing token before its lifetime.
pub open spec fn granted(
    access: Option<Seq<char>>,
    access_expires: Option<i32>,
    refresh: Option<Seq<char>>,
    refresh_expires: Option<i32>,
) -> Result<TokenGrantView, TokenError> {
    match access {
        None => Err(TokenError::AccessTokenMissing),
        Some(access_token) => match lifetime(access_expires, TokenError::AccessExpiryMissing) {
            Err(e) => Err(e),
            Ok(access_lifetime) => match refresh {
                None => Err(TokenError::RefreshTokenMissing),
                Some(refresh_token) => match lifetime(refresh_expires, TokenError::RefreshExpiryMissing) {
                    Err(e) => Err(e),
                    Ok(refresh_lifetime) => Ok(
                        TokenGrantView {
                            access_token: access_token,
                            access_lifetime: access_lifetime,
                            refresh_token: refresh_token,
                            refresh_lifetime: refresh_lifetime,
                        },
                    ),
                },
            },
        },
    }
}

/// The view of a grant that was read, or the reason why none was.
pub open spec fn grant_outcome(r: Result<TokenGrant, TokenError>) -> Result<TokenGrantView, TokenError> {
    match r {
        Ok(g) => Ok(g@),
        Err(e) => Err(e),
    }
}

fn read_lifetime(seconds: Option<i32>, missing: TokenError) -> (r: Result<u64, TokenError>)
    ensures
        r == lifetime(seconds, missing),
{
    match seconds {
        None => Err(missing),
        Some(s) => if s < 0 {
            Err(TokenError::NegativeLifetime)
        } else {
            Ok(s as u64)
        },
    }
}

/// Reads a grant of tokens from the fields of the bank's answer.
pub fn read_grant(
    access: Option<String>,
    access_expires: Option<i32>,
    refresh: Option<String>,
    refresh_expires: Option<i32>,
) -> (r: Result<TokenGrant, TokenError>)
    ensures
        grant_outcome(r) == granted(optional_text(access), access_expires, optional_text(refresh), refresh_expires),
{
    let access_token = match access {
        None => {
            return Err(TokenError::AccessTokenMissing);
        },
        Some(token) => token,
    };
    let access_lifetime = match read_lifetime(access_expires, TokenError::AccessExpiryMissing) {
        Err(e) => {
            return Err(e);
        },
        Ok(seconds) => seconds,
    };
    let refresh_token = match refresh {
        None => {
            return Err(TokenError::RefreshTokenMissing);
        },
        Some(token) => token,
    };
    let refresh_lifetime = match read_lifetime(refresh_expires, TokenError::RefreshExpiryMissing) {
        Err(e) => {
            return Err(e);
        },
        Ok(seconds) => seconds,
    };
    Ok(TokenGrant { access_token, access_lifetime, refresh_token, refresh_lifetime })
}

/// A point in time: seconds and nanoseconds since the start of 1970.
#[derive(Clone, Copy, Debug, PartialEq, Eq, Structural)]
pub struct Moment {
    pub seconds: u64,
    pub nanoseconds: u32,
}

impl Moment {
    /// Whether this moment lies strictly before the other.
    pub open spec fn before(self, other: Moment) -> bool {
        self.seconds < other.seconds || (self.seconds == other.seconds && self.nanoseconds < other.nanoseconds)
    }

    /// Whether this moment lies strictly before the other.
    pub fn is_before(&self, other: &Moment) -> (r: bool)
        ensures
            r == self.before(*other),
    {
        self.seconds < other.seconds || (self.seconds == other.seconds && self.nanoseconds < other.nanoseconds)
    }
}

/// What to do with stored tokens.
#[derive(Clone, Copy, Debug, PartialEq, Eq, Structural)]
pub enum TokenUse {
    /// The access token is still good.
    Access,
    /// The access token has run out: get a new one with the refresh token.
    Refresh,
    /// Both have run out.
    Expired,
}

/// What to do with stored tokens at a moment.
pub open spec fn token_use(now: Moment, access_expires: Moment, refresh_expires: Moment) -> TokenUse {
    if now.before(access_expires) {
        TokenUse::Access
    } else if refresh_expires.before(now) {
        TokenUse::Expired
    } else {
        TokenUse::Refresh
    }
}

/// Decides what to do with stored tokens at a moment.
pub fn choose_token(now: Moment, access_expires: Moment, refresh_expires: Moment) -> (r: TokenUse)
    ensures
        r == token_use(now, access_expires, refresh_expires),
{
    if now.is_before(&access_expires) {
        TokenUse::Access
    } else if refresh_expires.is_before(&now) {
        TokenUse::Expired
    } else {
        TokenUse::Refresh
    }
}

} // verus!
