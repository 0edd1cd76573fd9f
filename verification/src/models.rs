use vstd::prelude::*;
use std::sync::Arc;

verus! {

/// A component of a twin: elements nest under a parent element and carry
/// data sources.  Identifiers are the 128-bit values of UUIDs.
#[derive(Debug, PartialEq)]
pub struct Element {
    pub id: u128,
    pub twin: u128,
    pub name: String,
    pub parent: Option<u128>,
    /// Creation time in milliseconds since the epoch, once stored.
    pub created_at: Option<i64>,
}

/// A source of data attached to an element.
#[derive(Debug, PartialEq)]
pub struct Source {
    pub id: u128,
    pub name: String,
    pub element: u128,
    /// Creation time in milliseconds since the epoch, once stored.
    pub created_at: Option<i64>,
}


/// What a request registers an element with.
#[derive(Debug, PartialEq)]
pub struct ElementRegister {
    pub name: String,
    pub parent: Option<u128>,
}

/// What a request registers a data source with.
#[derive(Debug, PartialEq)]
pub struct SourceRegister {
    pub name: String,
    pub element: u128,
}

/// One reading of a data source.
#[derive(Debug, PartialEq)]
pub struct SourceData {
    pub source: u128,
    /// Time of the reading in milliseconds since the epoch.
    pub stamp: i64,
    pub value: String,
    /// Time the reading was stored in milliseconds since the epoch.
    pub created_at: i64,
}

/// A user account; `password` holds the encoded hash of the password.
#[derive(Debug, PartialEq)]
pub struct User {
    pub email: String,
    pub id: u128,
    pub name: String,
    pub password: String,
}

/// The credentials of a login request.
#[derive(Debug, PartialEq)]
pub struct UserLogin {
    pub email: String,
    pub password: String,
    pub remember_me: bool,
}

/// The claims of an access token: the user it was issued to, written as
/// JSON, and the time it expires in seconds since the epoch.
#[derive(Debug, PartialEq)]
pub struct Claims {
    pub sub: String,
    pub exp: usize,
}

/// What a request registers a user with.
#[derive(Debug, PartialEq)]
pub struct Register {
    pub name: String,
    pub email: String,
    pub password: String,
}

/// A group of users.
#[derive(Debug, PartialEq)]
pub struct Group {
    pub id: String,
    pub name: String,
}

/// What a request registers a group with.
#[derive(Debug, PartialEq)]
pub struct GroupRegister {
    pub name: String,
}

/// The settings the service runs with.
#[derive(Debug, PartialEq)]
pub struct Environment {
    pub server_address: String,
    pub db_address: String,
    pub secret_key: String,
    pub twin_instance: u128,
}

/// The state every request handler shares: the database session.
pub struct AppState<S> {
    pub session: Arc<S>,
}

/// The query parameter of the element listing: whether to answer the tree
/// of elements.
#[derive(Debug, PartialEq)]
pub struct Serializeable {
    pub serialized: bool,
}

/// The query parameters of a deletion of source data: the bounds of the
/// readings to delete, and whether to delete all readings when no bound is
/// given.
#[derive(Debug, PartialEq)]
pub struct DataInterval {
    pub since: Option<String>,
    pub until: Option<String>,
    pub force: Option<bool>,
}

impl User {
    /// A copy of the user, field for field.
    pub fn duplicate(&self) -> (r: User)
        ensures
            r == *self,
    {
        User { email: self.email.clone(), id: self.id, name: self.name.clone(), password: self.password.clone() }
    }
}

impl Element {
    /// A copy of the element, field for field.
    pub fn duplicate(&self) -> (r: Element)
        ensures
            r == *self,
    {
        Element {
            id: self.id,
            twin: self.twin,
            name: self.name.clone(),
            parent: self.parent,
            created_at: self.created_at,
        }
    }
}

impl Source {
    /// A copy of the source, field for field.
    pub fn duplicate(&self) -> (r: Source)
        ensures
            r == *self,
    {
        Source { id: self.id, name: self.name.clone(), element: self.element, created_at: self.created_at }
    }
}

} // verus!
