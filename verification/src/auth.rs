//! The session's view of who is logged in.

use vstd::prelude::*;

use crate::error::ResponseError;
use crate::store::AccountPk;

verus! {

/// What the session carries: the logged-in account's key, if any.
pub struct LoggedIn {
    pub account: Option<AccountPk>,
}

impl LoggedIn {
    /// The logged-in account's key, or the demand to authenticate.
    pub fn account(&self) -> (r: Result<AccountPk, ResponseError>)
        ensures
            self.account matches Some(pk) ==> r matches Ok(p) && p == pk,
            self.account is None ==> r == Err::<AccountPk, ResponseError>(
                ResponseError::NeedsAuth,
            ),
    {
        match &self.account {
            Some(pk) => Ok(pk.clone()),
            None => Err(ResponseError::NeedsAuth),
        }
    }
}

} // verus!
