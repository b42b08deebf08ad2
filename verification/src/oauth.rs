//! The decisions of the Bitbucket sign-in: what to ask the provider for, and what
//! its replies mean. Sending the requests and reading the replies is left to
//! the caller.

use vstd::prelude::*;
use vstd::string::StringExecFns;

verus! {

/// The Bitbucket identity provider.
#[derive(Clone, Copy, Debug, PartialEq, Eq, Structural)]
pub struct Bitbucket;

/// The user as Bitbucket's user-info reply names them.
#[derive(Debug, PartialEq, Eq)]
pub struct User {
    pub username: String,
}

/// A user-info reply that was read with success.
#[derive(Debug, PartialEq, Eq)]
pub struct UserOk {
    pub user: User,
}

/// What the sign-in needs to know of the provider and of this client.
#[derive(Debug, PartialEq, Eq)]
pub struct OAuth2Cfg {
    pub client_id: String,
    pub client_secret: String,
    pub token_url: String,
    pub userinfo_url: String,
}

/// The signed-in user.
#[derive(Debug, PartialEq, Eq)]
pub struct OAuth2User {
    pub id: String,
    pub username: String,
    pub email: Option<String>,
}

/// Why a sign-in failed.
#[derive(Debug, PartialEq, Eq)]
pub enum OAuthError {
    /// The provider answered with a status other than success; with the body it sent.
    HttpResponse(u16, String),
    /// The provider's reply could not be read; with the reader's message.
    Serialization(String),
}

/// The request that trades an authorization code for an access token: a POST of `body`,
/// a form, to `url`, with the client's id and secret as basic credentials, asking for JSON.
#[derive(Debug, PartialEq, Eq)]
pub struct TokenRequest {
    pub url: String,
    pub body: String,
    pub client_id: String,
    pub client_secret: String,
}

/// The request for the user that a token belongs to: a GET of `url` with the token as
/// bearer, asking for JSON.
#[derive(Debug, PartialEq, Eq)]
pub struct UserRequest {
    pub url: String,
    pub token: String,
}

/// A status from 200 to 299.
pub open spec fn status_is_success(status: u16) -> bool {
    200 <= status < 300
}

/// A failed sign-in as the contracts see it: the status where the provider refused, and
/// the text that the error carries.
pub struct FailureView {
    pub status: Option<u16>,
    pub text: Seq<char>,
}

/// A signed-in user as the contracts see it.
pub struct SignedInView {
    pub id: Seq<char>,
    pub username: Seq<char>,
    pub email: Option<Seq<char>>,
}

impl View for OAuthError {
    type V = FailureView;

    open spec fn view(&self) -> FailureView {
        match self {
            OAuthError::HttpResponse(status, body) => FailureView {
                status: Some(*status),
                text: body@,
            },
            OAuthError::Serialization(message) => FailureView { status: None, text: message@ },
        }
    }
}

impl View for OAuth2User {
    type V = SignedInView;

    open spec fn view(&self) -> SignedInView {
        SignedInView {
            id: self.id@,
            username: self.username@,
            email: match self.email {
                Some(e) => Some(e@),
                None => None,
            },
        }
    }
}

/// What reading a token reply gave: the token, or the reader's message.
pub open spec fn token_read(read: Result<String, String>) -> Result<Seq<char>, Seq<char>> {
    match read {
        Ok(token) => Ok(token@),
        Err(message) => Err(message@),
    }
}

/// What reading a user reply gave: the user name, or the reader's message.
pub open spec fn user_read(read: Result<UserOk, String>) -> Result<Seq<char>, Seq<char>> {
    match read {
        Ok(reply) => Ok(reply.user.username@),
        Err(message) => Err(message@),
    }
}

/// What the reply to the token request means: with a status of success, the token that
/// was read, or the failure to read it; with any other status, the refusal.
pub open spec fn token_outcome(status: u16, body: Seq<char>, read: Result<Seq<char>, Seq<char>>) -> Result<
    Seq<char>,
    FailureView,
> {
    if status_is_success(status) {
        match read {
            Ok(token) => Ok(token),
            Err(message) => Err(FailureView { status: None, text: message }),
        }
    } else {
        Err(FailureView { status: Some(status), text: body })
    }
}

/// What the reply to the user request means: with a status of success, the user that was
/// read, whose user name serves as id and as name, or the failure to read it; with any
/// other status, the refusal.
pub open spec fn user_outcome(status: u16, body: Seq<char>, read: Result<Seq<char>, Seq<char>>) -> Result<
    SignedInView,
    FailureView,
> {
    if status_is_success(status) {
        match read {
            Ok(username) => Ok(SignedInView { id: username, username: username, email: None }),
            Err(message) => Err(FailureView { status: None, text: message }),
        }
    } else {
        Err(FailureView { status: Some(status), text: body })
    }
}

/// The result of the token step as the contracts see it.
pub open spec fn token_result(r: Result<String, OAuthError>) -> Result<Seq<char>, FailureView> {
    match r {
        Ok(token) => Ok(token@),
        Err(e) => Err(e@),
    }
}

/// The result of the user step as the contracts see it.
pub open spec fn user_result(r: Result<OAuth2User, OAuthError>) -> Result<SignedInView, FailureView> {
    match r {
        Ok(user) => Ok(user@),
        Err(e) => Err(e@),
    }
}

impl Bitbucket {
    /// Whether a status reports success.
    pub fn is_success(status: u16) -> (r: bool)
        ensures
            r == status_is_success(status),
    {
        200 <= status && status < 300
    }

    /// The first step of a sign-in: the request for an access token in exchange for the
    /// authorization code `code`.
    pub fn token_request(&self, config: &OAuth2Cfg, code: &str) -> (r: TokenRequest)
        ensures
            r.url@ == config.token_url@,
            r.body@ == "grant_type=authorization_code&code="@ + code@,
            r.client_id@ == config.client_id@,
            r.client_secret@ == config.client_secret@,
    {
        let mut body: String = "grant_type=authorization_code&code=".to_owned();
        body.append(code);
        TokenRequest {
            url: config.token_url.clone(),
            body,
            client_id: config.client_id.clone(),
            client_secret: config.client_secret.clone(),
        }
    }

    /// The access token in the reply to the token request. A status other than success is
    /// an error that carries status and body; a body that could not be read is an error
    /// that carries the reader's message.
    pub fn token_from_reply(&self, status: u16, body: String, read: Result<String, String>) -> (r:
        Result<String, OAuthError>)
        ensures
            token_result(r) == token_outcome(status, body@, token_read(read)),
    {
        if Self::is_success(status) {
            match read {
                Ok(token) => Ok(token),
                Err(message) => Err(OAuthError::Serialization(message)),
            }
        } else {
            Err(OAuthError::HttpResponse(status, body))
        }
    }

    /// The second step of a sign-in: the request for the user that `token` belongs to.
    pub fn user_request(&self, config: &OAuth2Cfg, token: &str) -> (r: UserRequest)
        ensures
            r.url@ == config.userinfo_url@,
            r.token@ == token@,
    {
        UserRequest { url: config.userinfo_url.clone(), token: token.to_owned() }
    }

    /// The user in the reply to the user request: the provider's user name serves as id
    /// and as name, and no e-mail address is known. A status other than success is an
    /// error that carries status and body; a body that could not be read is an error that
    /// carries the reader's message.
    pub fn user_from_reply(&self, status: u16, body: String, read: Result<UserOk, String>) -> (r:
        Result<OAuth2User, OAuthError>)
        ensures
            user_result(r) == user_outcome(status, body@, user_read(read)),
    {
        if Self::is_success(status) {
            match read {
                Ok(reply) => Ok(
                    OAuth2User {
                        id: reply.user.username.clone(),
                        username: reply.user.username,
                        email: None,
                    },
                ),
                Err(message) => Err(OAuthError::Serialization(message)),
            }
        } else {
            Err(OAuthError::HttpResponse(status, body))
        }
    }
}

} // verus!
