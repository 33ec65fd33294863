//! User entities, and the one piece of account logic that is pure:
//! turning a decoded token into the requesting user's identifier.

use vstd::prelude::*;
use crate::auth::UserToken;
use crate::responses::{ErrorResponse, HTTPException};

verus! {

/// Payload for signing up.
#[derive(Debug)]
pub struct UserSignUpDTO {
    pub email: String,
    pub password: String,
    pub name: String,
}

/// Payload for logging in.
#[derive(Debug)]
pub struct UserLoginDTO {
    pub email: String,
    pub password: String,
}

/// A stored account. The password field holds a hash, never plain text.
#[derive(Debug)]
pub struct User {
    pub id: u64,
    pub email: String,
    pub password: String,
    pub name: String,
}

impl User {
    /// The sign-up decision, given what the mail validator and the store
    /// reported: an invalid address is rejected, an address already in use is
    /// a conflict, anything else may be registered.
    pub fn signup_gate(email_is_valid: bool, email_taken: bool) -> (r: Result<(), HTTPException>)
        ensures
            !email_is_valid ==> (r matches Err(HTTPException::BadRequest(m)) && m@
                == "Invalid e-mail address"@),
            email_is_valid && email_taken ==> (r matches Err(HTTPException::Conflict(m)) && m@
                == "There's a user with the same e-mail registered."@),
            email_is_valid && !email_taken ==> r is Ok,
    {
        proof {
            reveal_strlit("Invalid e-mail address");
            reveal_strlit("There's a user with the same e-mail registered.");
        }
        if !email_is_valid {
            Err(HTTPException::BadRequest(String::from_str("Invalid e-mail address")))
        } else if email_taken {
            Err(HTTPException::Conflict(String::from_str(
                "There's a user with the same e-mail registered.",
            )))
        } else {
            Ok(())
        }
    }

    /// The login decision, given what the store and the hash check reported:
    /// `user_id` is the account found under the address, if any, and
    /// `password_matches` is the hash comparison's verdict, `None` where the
    /// check itself failed.
    pub fn authenticate_gate(user_id: Option<u64>, password_matches: Option<bool>) -> (r: Result<
        u64,
        HTTPException,
    >)
        ensures
            user_id is None ==> r matches Err(HTTPException::NotFound(_)),
            user_id is Some && password_matches == Some(true) ==> r == Ok::<u64, HTTPException>(
                user_id->0,
            ),
            user_id is Some && password_matches == Some(false) ==> r matches Err(
                HTTPException::BadRequest(_),
            ),
            user_id is Some && password_matches is None ==> r matches Err(
                HTTPException::Internal(_),
            ),
    {
        match user_id {
            None => Err(
                HTTPException::NotFound(
                    String::from_str("Not found a user with the specified credentials"),
                ),
            ),
            Some(id) => match password_matches {
                Some(true) => Ok(id),
                Some(false) => Err(
                    HTTPException::BadRequest(String::from_str("Passwords does not match")),
                ),
                None => Err(
                    HTTPException::Internal(
                        String::from_str(
                            "Failed to check the credentials. Please try again later",
                        ),
                    ),
                ),
            },
        }
    }

    /// The user id carried by a decoded token, or `Unauthorized` with the
    /// decoder's message when decoding failed.
    pub fn get_user_id_by_token(token: Result<UserToken, ErrorResponse>) -> (r: Result<
        u64,
        HTTPException,
    >)
        ensures
            match token {
                Ok(t) => r == Ok::<u64, HTTPException>(t.user_id),
                Err(e) => r matches Err(HTTPException::Unauthorized(m)) && m@ == e.message@,
            },
    {
        match token {
            Ok(token) => Ok(token.user_id),
            Err(e) => Err(HTTPException::Unauthorized(e.message)),
        }
    }
}

} // verus!
