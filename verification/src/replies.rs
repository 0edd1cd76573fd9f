use vstd::prelude::*;
use vstd::string::*;
use vstd::utf8::encode_utf8;
use crate::ids::{is_random_uuid, new_uuid, uuid_hyphenated, uuid_text};
use crate::auth::{
    argon2_default_prefix, argon2_encoded, argon2_verifies, generate_hash, is_alphanumeric, token_lifetime, token_result,
    MAX_TIMESTAMP, SALT_LENGTH,
};
use crate::db::{new_user_statement, positional_view, QueryValues, Statement, ValueView};
use crate::models::{Element, ElementRegister, Register, Source, SourceRegister, User, UserLogin, Serializeable};
use crate::order::{sort_by_parent, sorted_by_parent};
use crate::text::{decimal, text, usize_text};
use crate::tree::{ElementSerialized, build_element_tree, forest, settle, settles, sources_view, tree_parts};

verus! {

/// A message answer.
#[derive(Debug, PartialEq)]
pub struct Response {
    pub message: String,
    pub status: bool,
}

/// A message answer with one item.
#[derive(Debug, PartialEq)]
pub struct DataResponse<T> {
    pub message: String,
    pub status: bool,
    pub data: T,
}

/// A message answer with a list of items.
#[derive(Debug, PartialEq)]
pub struct VecDataResponse<T> {
    pub message: String,
    pub data: Vec<T>,
    pub status: bool,
}

/// The answer to a login that succeeded.
#[derive(Debug, PartialEq)]
pub struct LoginResponse {
    pub status: bool,
    pub token: String,
    pub message: String,
}

/// A message answer with one item and the message topics that go with it,
/// as (name, topic) pairs.
#[derive(Debug, PartialEq)]
pub struct DataResponseWithTopics<T> {
    pub topics: Vec<(String, String)>,
    pub message: String,
    pub status: bool,
    pub data: T,
}

/// The JSON body of an answer.
#[derive(Debug, PartialEq)]
pub enum Body<T> {
    Plain(Response),
    Data(DataResponse<T>),
    List(VecDataResponse<T>),
    Login(LoginResponse),
    Topics(DataResponseWithTopics<T>),
}

/// An HTTP answer: its status code and its body.
#[derive(Debug, PartialEq)]
pub struct Reply<T> {
    pub code: u16,
    pub body: Body<T>,
}

/// `r` is a message answer with this code, message and status.
pub open spec fn is_plain<T>(r: Reply<T>, code: u16, message: Seq<char>, status: bool) -> bool {
    &&& r.code == code
    &&& r.body matches Body::Plain(b)
    &&& b.message@ == message
    &&& b.status == status
}

/// `r` is a successful answer with this code, message and item.
pub open spec fn is_data<T>(r: Reply<T>, code: u16, message: Seq<char>, data: T) -> bool {
    &&& r.code == code
    &&& r.body matches Body::Data(b)
    &&& b.message@ == message
    &&& b.status
    &&& b.data == data
}

/// The code an error status is answered with: 400, 404 and 500 as they
/// are, anything else as 400.
pub open spec fn error_code(status: usize) -> u16 {
    if status == 404 {
        404
    } else if status == 500 {
        500
    } else {
        400
    }
}

/// The answer to a failed request: the code of its status and the message
/// with status `false`.
pub fn handle_req_error<T>(error: String, status: usize) -> (r: Reply<T>)
    ensures
        is_plain(r, error_code(status), error@, false),
{
    let code: u16 = match status {
        400 => 400,
        404 => 404,
        500 => 500,
        _ => 400,
    };
    Reply { code, body: Body::Plain(Response { message: error, status: false }) }
}

fn plain<T>(code: u16, message: String, status: bool) -> (r: Reply<T>)
    ensures
        is_plain(r, code, message@, status),
{
    Reply { code, body: Body::Plain(Response { message, status }) }
}

/// The error answer to a failed request, as `handle_req_error` gives it.
pub open spec fn is_error<T>(r: Reply<T>, e: (String, usize)) -> bool {
    is_plain(r, error_code(e.1), e.0@, false)
}

/// The element a registration creates, with its new id, in the twin.
pub fn new_element(register: &ElementRegister, id: u128, twin: u128) -> (r: Element)
    ensures
        r.id == id,
        r.twin == twin,
        r.name == register.name,
        r.parent == register.parent,
        r.created_at is None,
{
    Element { id, twin, name: register.name.clone(), parent: register.parent, created_at: None }
}

/// A new element of the twin, as a registration asks for it, with a fresh
/// random id.
pub fn create_element(register: &ElementRegister, twin: u128) -> (r: Element)
    ensures
        is_random_uuid(r.id),
        r.twin == twin,
        r.name == register.name,
        r.parent == register.parent,
        r.created_at is None,
{
    new_element(register, new_uuid(), twin)
}

/// The answer to a registration of an element: created (201) with the
/// report of the store and the element, or, when it was not stored, 200
/// with "Error in creating element." and status `false`.
pub fn put_element_reply(element: Element, stored: Result<String, String>) -> (r: Reply<Element>)
    ensures
        match stored {
            Ok(m) => is_data(r, 201, m@, element),
            Err(_) => is_plain(r, 200, "Error in creating element."@, false),
        },
{
    match stored {
        Ok(m) => Reply { code: 201, body: Body::Data(DataResponse { message: m, status: true, data: element }) },
        Err(_) => plain(200, text("Error in creating element."), false),
    }
}

/// The answer to a read of an element: the element with "Found element <id>",
/// or the error.
pub fn get_element_reply(found: Result<Element, (String, usize)>) -> (r: Reply<Element>)
    ensures
        match found {
            Ok(e) => is_data(r, 200, "Found element "@ + uuid_hyphenated(e.id), e),
            Err(e) => is_error(r, e),
        },
{
    match found {
        Ok(e) => {
            let mut m = text("Found element ");
            let idt = uuid_text(e.id);
            m.append(idt.as_str());
            Reply { code: 200, body: Body::Data(DataResponse { message: m, status: true, data: e }) }
        },
        Err((error, status)) => handle_req_error(error, status),
    }
}

/// `r` is a successful list answer with this message and these items.
pub open spec fn is_list<T>(r: Reply<T>, message: Seq<char>, data: Seq<T>) -> bool {
    &&& r.code == 200
    &&& r.body matches Body::List(b)
    &&& b.message@ == message
    &&& b.status
    &&& b.data@ == data
}

/// The answer to a read of the sources of an element: the sources with
/// "Found <n> sources for element <id as asked>", or the error.
pub fn sources_of_element_reply(element_id: &str, found: Result<Vec<Source>, (String, usize)>) -> (r: Reply<Source>)
    ensures
        match found {
            Ok(v) => is_list(r, "Found "@ + decimal(v@.len()) + " sources for element "@ + element_id@, v@),
            Err(e) => is_error(r, e),
        },
{
    match found {
        Ok(v) => {
            let mut m = text("Found ");
            let n = usize_text(v.len());
            m.append(n.as_str());
            m.append(" sources for element ");
            m.append(element_id);
            Reply { code: 200, body: Body::List(VecDataResponse { message: m, data: v, status: true }) }
        },
        Err((error, status)) => handle_req_error(error, status),
    }
}

/// The source a registration creates, with its new id.
pub fn new_source(register: &SourceRegister, id: u128) -> (r: Source)
    ensures
        r.id == id,
        r.name == register.name,
        r.element == register.element,
        r.created_at is None,
{
    Source { id, name: register.name.clone(), element: register.element, created_at: None }
}

/// A new source, as a registration asks for it, with a fresh random id.
pub fn create_source(register: &SourceRegister) -> (r: Source)
    ensures
        is_random_uuid(r.id),
        r.name == register.name,
        r.element == register.element,
        r.created_at is None,
{
    new_source(register, new_uuid())
}

/// Name of the topic on which a source's readings are published.
pub const SOURCE_DATA_TOPIC: &'static str = "source_data";

/// Name of the topic on which readings of a source are acknowledged.
pub const SOURCE_DATA_ACK_TOPIC: &'static str = "source_data_ack";

/// The topic of a source's readings: "<twin>/<element>/<source>".
pub open spec fn data_topic(twin: u128, s: Source) -> Seq<char> {
    uuid_hyphenated(twin) + "/"@ + uuid_hyphenated(s.element) + "/"@ + uuid_hyphenated(s.id)
}

impl Source {
    /// The topic of this source's readings in the twin.
    pub fn data_topic(&self, twin: u128) -> (r: String)
        ensures
            r@ == data_topic(twin, *self),
    {
        let mut r = uuid_text(twin);
        r.append("/");
        let e = uuid_text(self.element);
        r.append(e.as_str());
        r.append("/");
        let i = uuid_text(self.id);
        r.append(i.as_str());
        r
    }

    /// The topic on which readings of this source are acknowledged:
    /// the topic of its readings followed by "/ack".
    pub fn data_ack_topic(&self, twin: u128) -> (r: String)
        ensures
            r@ == data_topic(twin, *self) + "/ack"@,
    {
        let mut r = self.data_topic(twin);
        r.append("/ack");
        r
    }
}

/// The answer to a registration of a source: created (201) with
/// "Created source <id>:<name> of element <element>.", the source and its
/// two topics; or 500 with "Error in creating source." when it was not stored.
pub fn put_source_reply(twin: u128, stored: Result<Source, String>) -> (r: Reply<Source>)
    ensures
        match stored {
            Ok(s) => {
                &&& r.code == 201
                &&& r.body matches Body::Topics(b)
                &&& b.message@ == "Created source "@ + uuid_hyphenated(s.id) + ":"@ + s.name@ + " of element "@
                    + uuid_hyphenated(s.element) + "."@
                &&& b.status
                &&& b.data == s
                &&& b.topics@.len() == 2
                &&& b.topics@[0].0@ == SOURCE_DATA_TOPIC@
                &&& b.topics@[0].1@ == data_topic(twin, s)
                &&& b.topics@[1].0@ == SOURCE_DATA_ACK_TOPIC@
                &&& b.topics@[1].1@ == data_topic(twin, s) + "/ack"@
            },
            Err(_) => is_plain(r, 500, "Error in creating source."@, false),
        },
{
    match stored {
        Ok(s) => {
            let mut m = text("Created source ");
            let i = uuid_text(s.id);
            m.append(i.as_str());
            m.append(":");
            m.append(s.name.as_str());
            m.append(" of element ");
            let e = uuid_text(s.element);
            m.append(e.as_str());
            m.append(".");
            let mut topics: Vec<(String, String)> = Vec::new();
            topics.push((text(SOURCE_DATA_TOPIC), s.data_topic(twin)));
            topics.push((text(SOURCE_DATA_ACK_TOPIC), s.data_ack_topic(twin)));
            Reply { code: 201, body: Body::Topics(DataResponseWithTopics { topics, message: m, status: true, data: s }) }
        },
        Err(_) => plain(500, text("Error in creating source."), false),
    }
}

/// The answer to a read of a source: the source with "Found source <id>",
/// or the error.
pub fn get_source_reply(found: Result<Source, (String, usize)>) -> (r: Reply<Source>)
    ensures
        match found {
            Ok(s) => is_data(r, 200, "Found source "@ + uuid_hyphenated(s.id), s),
            Err(e) => is_error(r, e),
        },
{
    match found {
        Ok(s) => {
            let mut m = text("Found source ");
            let idt = uuid_text(s.id);
            m.append(idt.as_str());
            Reply { code: 200, body: Body::Data(DataResponse { message: m, status: true, data: s }) }
        },
        Err((error, status)) => handle_req_error(error, status),
    }
}

/// The answer to a deletion of readings of a source: 400 "Invalid input
/// request." when the request asks for no deletion it may run (`None`);
/// otherwise "Deleted source data from source <id as asked>." when it ran,
/// or 500 "Error deleting source data." when it failed.
pub fn delete_source_data_reply(source_id: &str, ran: Option<bool>) -> (r: Reply<Source>)
    ensures
        match ran {
            None => is_plain(r, 400, "Invalid input request."@, false),
            Some(true) => is_plain(r, 200, "Deleted source data from source "@ + source_id@ + "."@, true),
            Some(false) => is_plain(r, 500, "Error deleting source data."@, false),
        },
{
    match ran {
        None => handle_req_error(text("Invalid input request."), 400),
        Some(true) => {
            let mut m = text("Deleted source data from source ");
            m.append(source_id);
            m.append(".");
            plain(200, m, true)
        },
        Some(false) => handle_req_error(text("Error deleting source data."), 500),
    }
}

/// What the listing of a twin's elements answers or needs.
#[derive(Debug, PartialEq)]
pub enum TwinListing {
    /// The answer, when no tree is asked for or the read failed.
    Flat(Reply<Element>),
    /// The elements, sorted, whose sources are needed to build the tree.
    Tree(Vec<Element>),
}

/// The listing of a twin's elements, from the elements read: they are
/// sorted by `sort_by_parent`; with `serialized` set the sorted elements
/// are handed on to build the tree, else they are answered with
/// "Found <n> elements for twin.".  A failed read is answered as an error.
pub fn plan_twin_listing(found: Result<Vec<Element>, (String, usize)>, params: Option<Serializeable>) -> (r: TwinListing)
    ensures
        match found {
            Ok(v) => {
                if params matches Some(p) && p.serialized {
                    r matches TwinListing::Tree(w) && w@ == sorted_by_parent(v@)
                } else {
                    r matches TwinListing::Flat(rep) && is_list(rep,
                        "Found "@ + decimal(v@.len()) + " elements for twin."@, sorted_by_parent(v@))
                }
            },
            Err(e) => r matches TwinListing::Flat(rep) && is_error(rep, e),
        },
{
    match found {
        Ok(v) => {
            let count = v.len();
            let sorted = sort_by_parent(v);
            let tree = match params {
                Some(p) => p.serialized,
                None => false,
            };
            if tree {
                TwinListing::Tree(sorted)
            } else {
                let mut m = text("Found ");
                let n = usize_text(count);
                m.append(n.as_str());
                m.append(" elements for twin.");
                TwinListing::Flat(Reply { code: 200, body: Body::List(VecDataResponse { message: m, data: sorted, status: true }) })
            }
        },
        Err((error, status)) => TwinListing::Flat(handle_req_error(error, status)),
    }
}

/// The answer with the tree of a twin's elements, built from the sorted
/// elements and `sources[i]`, the sources of `elements[i]`, by
/// `build_element_tree`: "Found <n> root elements for twin." with the
/// trees of the top-level elements.  `None` when the placing would never end.
pub fn twin_tree_reply(elements: &Vec<Element>, sources: &Vec<Vec<Source>>) -> (r: Option<Reply<ElementSerialized>>)
    requires
        elements@.len() == sources@.len(),
    ensures
        ({
            let parts = tree_parts(elements@, sources_view(sources@));
            &&& r is Some == settles(parts.0, parts.1)
            &&& r matches Some(rep) ==> {
                &&& rep.code == 200
                &&& rep.body matches Body::List(b)
                &&& b.status
                &&& forest(b.data@) == settle(parts.0, parts.1)
                &&& b.data@.len() == parts.0.len()
                &&& b.message@ == "Found "@ + decimal(parts.0.len()) + " root elements for twin."@
            }
        }),
{
    match build_element_tree(elements, sources) {
        Some(tree) => {
            proof {
                let parts = tree_parts(elements@, sources_view(sources@));
                crate::tree::lemma_settle_places_all(parts.0, parts.1);
                crate::tree::lemma_forest(tree@);
            }
            let mut m = text("Found ");
            let n = usize_text(tree.len());
            m.append(n.as_str());
            m.append(" root elements for twin.");
            Some(Reply { code: 200, body: Body::List(VecDataResponse { message: m, data: tree, status: true }) })
        },
        None => None,
    }
}

/// The answer to a login: for an unknown email (`None`) 200 with
/// "Invalid email <email>." and status `true`; for a wrong password 200
/// with "Invalid password informed." and status `false`; for a token, the
/// token with "You have successfully logged in.".
pub fn login_reply(email: &String, outcome: Option<Result<String, String>>) -> (r: Reply<User>)
    ensures
        match outcome {
            None => is_plain(r, 200, "Invalid email "@ + email@ + "."@, true),
            Some(Err(_)) => is_plain(r, 200, "Invalid password informed."@, false),
            Some(Ok(t)) => {
                &&& r.code == 200
                &&& r.body matches Body::Login(b)
                &&& b.status
                &&& b.token == t
                &&& b.message@ == "You have successfully logged in."@
            },
        },
{
    match outcome {
        None => {
            let mut m = text("Invalid email ");
            m.append(email.as_str());
            m.append(".");
            plain(200, m, true)
        },
        Some(Err(_)) => plain(200, text("Invalid password informed."), false),
        Some(Ok(token)) => Reply {
            code: 200,
            body: Body::Login(LoginResponse { status: true, token, message: text("You have successfully logged in.") }),
        },
    }
}

/// The answer to a registration of an email that has a user already.
pub fn register_exists_reply(user: &User) -> (r: Reply<User>)
    ensures
        is_plain(r, 200, "User "@ + user.email@ + " already exists."@, false),
{
    let mut m = text("User ");
    m.append(user.email.as_str());
    m.append(" already exists.");
    plain(200, m, false)
}

/// What a registration does once the email has been looked up: answer, or
/// store the new user.
#[derive(Debug, PartialEq)]
pub enum RegisterAction {
    /// Answer the request without storing anything.
    Answer(Reply<User>),
    /// Run the statement that stores the new user, then read it back.
    Insert(Statement),
}

/// The statement stores the user of the registration, with a fresh random
/// id and a new hash of its password made with a random salt of 32 letters
/// and digits.
pub open spec fn stores_new_user(st: Statement, register: Register) -> bool {
    &&& st.text@ == "INSERT INTO user (email, id, name, password) VALUES (?, ?, ?, ?)"@
    &&& st.values matches QueryValues::Positional(v) && ({
        let pv = positional_view(v@);
        &&& pv.len() == 4
        &&& pv[0] == ValueView::Text(register.email@)
        &&& pv[1] matches ValueView::Uuid(id) && is_random_uuid(id)
        &&& pv[2] == ValueView::Text(register.name@)
        &&& pv[3] matches ValueView::Text(h) && {
            &&& argon2_verifies(h, register.password@) == Some(true)
            &&& h.len() > argon2_default_prefix().len()
            &&& h.take(argon2_default_prefix().len() as int) == argon2_default_prefix()
            &&& exists|salt: Seq<char>| {
                &&& salt.len() == SALT_LENGTH
                &&& forall|i: int| 0 <= i < salt.len() ==> is_alphanumeric(#[trigger] salt[i])
                &&& #[trigger] argon2_encoded(register.password@, salt) == Some(h)
            }
        }
    })
}

/// The step of a registration after the email was looked up: a user with
/// the email exists, so the registration is answered "User <email> already
/// exists." with status `false`; or none does, so the new user is stored.
/// A new user's password must fit the hashing's limit of `u32::MAX` bytes.
pub fn register_after_lookup(register: &Register, existing: Result<User, String>) -> (r: RegisterAction)
    requires
        existing is Err ==> encode_utf8(register.password@).len() <= 0xFFFF_FFFF,
    ensures
        match existing {
            Ok(u) => r matches RegisterAction::Answer(rep)
                && is_plain(rep, 200, "User "@ + u.email@ + " already exists."@, false),
            Err(_) => r matches RegisterAction::Insert(st) && stores_new_user(st, *register),
        },
{
    match existing {
        Ok(u) => RegisterAction::Answer(register_exists_reply(&u)),
        Err(_) => {
            let hash = match generate_hash(&register.password) {
                Some(h) => h,
                None => {
                    proof {
                        assert(false);
                    }
                    String::new()
                },
            };
            let st = new_user_statement(register, &hash);
            RegisterAction::Insert(st)
        },
    }
}

/// A user stored by a registration logs in with the password it registered
/// with: the stored hash accepts that password, and at any time the clock
/// represents with room for the token's lifetime, the login is answered a
/// token (see `authenticate` and `token_at`).
pub proof fn lemma_registered_user_logs_in(
    st: Statement,
    register: Register,
    stored: User,
    login: UserLogin,
    now: int,
    secret: Seq<char>,
)
    requires
        stores_new_user(st, register),
        st.values matches QueryValues::Positional(v) && positional_view(v@)[3] == ValueView::Text(stored.password@),
        login.password@ == register.password@,
        0 <= now,
        now + token_lifetime(login.remember_me) <= MAX_TIMESTAMP,
    ensures
        argon2_verifies(stored.password@, login.password@) == Some(true),
        token_result(stored, now, login.remember_me, secret) is Ok,
{
}

/// The answer to a registration that created the user.
pub fn register_created_reply(email: &String, user: User) -> (r: Reply<User>)
    ensures
        is_data(r, 200, "Success in creating user "@ + email@ + "."@, user),
{
    let mut m = text("Success in creating user ");
    m.append(email.as_str());
    m.append(".");
    Reply { code: 200, body: Body::Data(DataResponse { message: m, status: true, data: user }) }
}

/// The answer to a request that an authenticated user makes to check its login.
pub fn logged_in_reply() -> (r: Reply<User>)
    ensures
        is_plain(r, 200, "User logged in."@, true),
{
    plain(200, text("User logged in."), true)
}

} // verus!
