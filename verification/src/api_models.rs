//! Data reported by the target service: lists, follow records, the
//! authenticated account, and pairwise relationships.
//!
//! Dates are carried as civil day numbers (days since the common era), so
//! that "older than `n` days" is plain integer arithmetic.

use vstd::prelude::*;

verus! {

/// A list as reported by the service: an opaque id and a display title.
/// The title is the sole input to the filter parser.
#[derive(Debug)]
pub struct List {
    pub id: String,
    pub title: String,
}

impl Clone for List {
    fn clone(&self) -> (res: Self)
        ensures
            res == *self,
    {
        List { id: self.id.clone(), title: self.title.clone() }
    }
}

/// One account the operating account follows, with the day number of its
/// latest status, if any.
#[derive(Debug, Clone)]
pub struct Account {
    pub id: String,
    pub last_status_day: Option<i64>,
}

/// The authenticated account, as returned by the credentials-verification
/// endpoint.
#[derive(Debug)]
pub struct CredentialAccount {
    pub id: String,
    pub username: String,
}

/// The two directed follow relations between the operating account and
/// another account.
#[derive(Debug)]
pub struct Relationship {
    pub id: String,
    pub following: bool,
    pub followed_by: bool,
}

impl Clone for Relationship {
    fn clone(&self) -> (res: Self)
        ensures
            res == *self,
    {
        Relationship { id: self.id.clone(), following: self.following, followed_by: self.followed_by }
    }
}

} // verus!
