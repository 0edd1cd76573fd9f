use twin_api::db::{QueryValue, QueryValues};
use twin_api::models::Register;
use twin_api::replies::{register_after_lookup, RegisterAction};
use twin_api::deletion::{
    delete_element_next, delete_element_start, delete_source_next, delete_source_start, DeletionAction,
    DeletionEvent, ElementDeletion, SourceDeletion,
};
use twin_api::models::{Element, ElementRegister, Serializeable, Source, SourceRegister, User};
use twin_api::replies::{
    delete_source_data_reply, get_element_reply, get_source_reply, handle_req_error, logged_in_reply, login_reply,
    new_element, new_source, plan_twin_listing, put_element_reply, put_source_reply, register_created_reply,
    register_exists_reply, sources_of_element_reply, twin_tree_reply, Body, DataResponse, DataResponseWithTopics,
    LoginResponse, Reply, Response, TwinListing, VecDataResponse, SOURCE_DATA_ACK_TOPIC, SOURCE_DATA_TOPIC,
};

const ID: u128 = 0x557c8018_5e21_4b74_8bb0_9040e2e8ead1;
const ID_TEXT: &str = "557c8018-5e21-4b74-8bb0-9040e2e8ead1";
const TWIN: u128 = 0x11111111_2222_3333_4444_555555555555;
const TWIN_TEXT: &str = "11111111-2222-3333-4444-555555555555";
const EL: u128 = 0xaaaaaaaa_bbbb_cccc_dddd_eeeeeeeeeeee;
const EL_TEXT: &str = "aaaaaaaa-bbbb-cccc-dddd-eeeeeeeeeeee";

fn plain<T>(code: u16, message: &str, status: bool) -> Reply<T> {
    Reply { code, body: Body::Plain(Response { message: message.to_string(), status }) }
}

fn element(id: u128, parent: Option<u128>) -> Element {
    Element { id, twin: TWIN, name: "E".to_string(), parent, created_at: None }
}

#[test]
fn errors_are_answered_by_status() {
    assert_eq!(handle_req_error::<Element>("bad".to_string(), 400), plain(400, "bad", false));
    assert_eq!(handle_req_error::<Element>("none".to_string(), 404), plain(404, "none", false));
    assert_eq!(handle_req_error::<Element>("oops".to_string(), 500), plain(500, "oops", false));
    assert_eq!(handle_req_error::<Element>("odd".to_string(), 418), plain(400, "odd", false));
}

#[test]
fn element_creation_answers() {
    let reg = ElementRegister { name: "E".to_string(), parent: Some(EL) };
    let e = new_element(&reg, ID, TWIN);
    assert_eq!(e, Element { id: ID, twin: TWIN, name: "E".to_string(), parent: Some(EL), created_at: None });
    let created = put_element_reply(e.duplicate(), Ok("stored".to_string()));
    assert_eq!(created, Reply { code: 201, body: Body::Data(DataResponse { message: "stored".to_string(), status: true, data: e.duplicate() }) });
    assert_eq!(put_element_reply(e, Err("x".to_string())), plain(200, "Error in creating element.", false));
}

#[test]
fn element_reads_answer() {
    let e = element(ID, None);
    let found = get_element_reply(Ok(e.duplicate()));
    assert_eq!(found, Reply { code: 200, body: Body::Data(DataResponse { message: format!("Found element {}", ID_TEXT), status: true, data: e }) });
    assert_eq!(get_element_reply(Err(("No item found.".to_string(), 404))), plain(404, "No item found.", false));
}

#[test]
fn source_listing_answers() {
    let s = Source { id: ID, name: "S".to_string(), element: EL, created_at: None };
    let r = sources_of_element_reply("el-1", Ok(vec![s.duplicate(), s.duplicate()]));
    assert_eq!(r, Reply { code: 200, body: Body::List(VecDataResponse {
        message: "Found 2 sources for element el-1".to_string(), data: vec![s.duplicate(), s], status: true }) });
    assert_eq!(sources_of_element_reply("x", Err(("Invalid input.".to_string(), 400))), plain(400, "Invalid input.", false));
}

#[test]
fn source_creation_answers_with_topics() {
    let s = new_source(&SourceRegister { name: "S".to_string(), element: EL }, ID);
    assert_eq!(s, Source { id: ID, name: "S".to_string(), element: EL, created_at: None });
    let topic = format!("{}/{}/{}", TWIN_TEXT, EL_TEXT, ID_TEXT);
    assert_eq!(s.data_topic(TWIN), topic);
    assert_eq!(s.data_ack_topic(TWIN), format!("{}/ack", topic));
    assert_eq!(s.data_topic(TWIN).split('/').count(), 3);
    assert_eq!(s.data_ack_topic(TWIN).split('/').count(), 4);
    let r = put_source_reply(TWIN, Ok(s.duplicate()));
    assert_eq!(r, Reply { code: 201, body: Body::Topics(DataResponseWithTopics {
        topics: vec![
            (SOURCE_DATA_TOPIC.to_string(), topic.clone()),
            (SOURCE_DATA_ACK_TOPIC.to_string(), format!("{}/ack", topic)),
        ],
        message: format!("Created source {}:S of element {}.", ID_TEXT, EL_TEXT),
        status: true,
        data: s,
    }) });
    assert_eq!(put_source_reply(TWIN, Err("x".to_string())), plain(500, "Error in creating source.", false));
}

#[test]
fn source_reads_answer() {
    let s = Source { id: ID, name: "S".to_string(), element: EL, created_at: None };
    assert_eq!(get_source_reply(Ok(s.duplicate())), Reply { code: 200, body: Body::Data(DataResponse {
        message: format!("Found source {}", ID_TEXT), status: true, data: s }) });
    assert_eq!(get_source_reply(Err(("Invalid input.".to_string(), 400))), plain(400, "Invalid input.", false));
}

#[test]
fn source_data_deletion_answers() {
    assert_eq!(delete_source_data_reply("s1", None), plain(400, "Invalid input request.", false));
    assert_eq!(delete_source_data_reply("s1", Some(true)), plain(200, "Deleted source data from source s1.", true));
    assert_eq!(delete_source_data_reply("s1", Some(false)), plain(500, "Error deleting source data.", false));
}

#[test]
fn twin_listing_is_sorted_and_counted() {
    let v = vec![element(1, Some(2)), element(2, None), element(3, None)];
    match plan_twin_listing(Ok(v), None) {
        TwinListing::Flat(r) => {
            assert_eq!(r.code, 200);
            match r.body {
                Body::List(b) => {
                    assert_eq!(b.message, "Found 3 elements for twin.");
                    assert!(b.status);
                    assert_eq!(b.data.iter().map(|e| e.id).collect::<Vec<_>>(), vec![2, 3, 1]);
                },
                _ => panic!("a list was expected"),
            }
        },
        TwinListing::Tree(_) => panic!("no tree was asked for"),
    }
    let v = vec![element(1, Some(2)), element(2, None)];
    match plan_twin_listing(Ok(v), Some(Serializeable { serialized: true })) {
        TwinListing::Tree(w) => assert_eq!(w.iter().map(|e| e.id).collect::<Vec<_>>(), vec![2, 1]),
        TwinListing::Flat(_) => panic!("a tree was asked for"),
    }
    match plan_twin_listing(Ok(vec![]), Some(Serializeable { serialized: false })) {
        TwinListing::Flat(r) => match r.body {
            Body::List(b) => assert_eq!(b.message, "Found 0 elements for twin."),
            _ => panic!("a list was expected"),
        },
        TwinListing::Tree(_) => panic!("no tree was asked for"),
    }
    match plan_twin_listing(Err(("oops".to_string(), 500)), None) {
        TwinListing::Flat(r) => assert_eq!(r, plain(500, "oops", false)),
        TwinListing::Tree(_) => panic!("the read failed"),
    }
}

#[test]
fn twin_tree_answer_counts_roots() {
    let elements = vec![element(2, None), element(3, None), element(1, Some(2))];
    let sources = vec![vec![], vec![], vec![]];
    let r = twin_tree_reply(&elements, &sources).unwrap();
    match r.body {
        Body::List(b) => {
            assert_eq!(b.message, "Found 2 root elements for twin.");
            assert_eq!(b.data.len(), 2);
            assert_eq!(b.data[0].children[0].element.id, 1);
        },
        _ => panic!("a list was expected"),
    }
    let orphan = vec![element(1, Some(9))];
    assert!(twin_tree_reply(&orphan, &vec![vec![]]).is_none());
}

#[test]
fn login_answers() {
    let email = "a@b.c".to_string();
    assert_eq!(login_reply(&email, None), plain(200, "Invalid email a@b.c.", true));
    assert_eq!(login_reply(&email, Some(Err("Invalid password input".to_string()))), plain(200, "Invalid password informed.", false));
    assert_eq!(login_reply(&email, Some(Ok("tok".to_string()))), Reply { code: 200, body: Body::Login(LoginResponse {
        status: true, token: "tok".to_string(), message: "You have successfully logged in.".to_string() }) });
    assert_eq!(logged_in_reply(), plain(200, "User logged in.", true));
}

#[test]
fn registration_answers() {
    let user = User { email: "example_1@example.com".to_string(), id: ID, name: "N".to_string(), password: "h".to_string() };
    assert_eq!(register_exists_reply(&user), plain(200, "User example_1@example.com already exists.", false));
    let r = register_created_reply(&user.email, user.duplicate());
    assert_eq!(r, Reply { code: 200, body: Body::Data(DataResponse {
        message: "Success in creating user example_1@example.com.".to_string(), status: true, data: user }) });
}

#[test]
fn element_deletion_runs_its_steps() {
    let (state, action) = delete_element_start("el-1".to_string());
    assert_eq!(action, DeletionAction::DeleteById { table: "element".to_string(), id: "el-1".to_string() });
    let (state, action) = delete_element_next(state, DeletionEvent::Deleted(Ok("Deleted element x.".to_string())));
    assert_eq!(action, DeletionAction::ListSources { element_id: "el-1".to_string() });
    let sources = vec![Source { id: ID, name: "S".to_string(), element: EL, created_at: None }];
    let (state, action) = delete_element_next(state, DeletionEvent::Listed(Ok(sources)));
    assert_eq!(action, DeletionAction::DeleteWhereIn { table: "source".to_string(), column: "id".to_string(), ids: vec![ID_TEXT.to_string()] });
    let (state, action) = delete_element_next(state, DeletionEvent::Deleted(Ok("Deleted source y.".to_string())));
    assert_eq!(action, DeletionAction::DeleteWhereIn { table: "source_data".to_string(), column: "source".to_string(), ids: vec![ID_TEXT.to_string()] });
    let (state, action) = delete_element_next(state, DeletionEvent::Deleted(Ok("Deleted source_data y.".to_string())));
    assert_eq!(state, ElementDeletion::Done);
    assert_eq!(action, DeletionAction::Answer(plain(200, "Deleted element x.\nDeleted source y.\nDeleted source_data y.\n", true)));
}

#[test]
fn element_deletion_stops_at_an_error() {
    let (state, _) = delete_element_start("bad".to_string());
    let (state, action) = delete_element_next(state, DeletionEvent::Deleted(Err(("Invalid input.".to_string(), 400))));
    assert_eq!(state, ElementDeletion::Done);
    assert_eq!(action, DeletionAction::Answer(plain(400, "Invalid input.", false)));
}

#[test]
fn source_deletion_runs_its_steps() {
    let (state, action) = delete_source_start("s1".to_string());
    assert_eq!(action, DeletionAction::DeleteById { table: "source".to_string(), id: "s1".to_string() });
    let (state, action) = delete_source_next(state, Ok("Deleted source s.".to_string()));
    assert_eq!(action, DeletionAction::DeleteWhere { table: "source_data".to_string(), column: "source".to_string(), id: "s1".to_string() });
    let (state, action) = delete_source_next(state, Ok("Deleted source_data s.".to_string()));
    assert_eq!(state, SourceDeletion::Done);
    assert_eq!(action, DeletionAction::Answer(plain(200, "Deleted source s.\nDeleted source_data s.", true)));
    let (_, action) = delete_source_next(SourceDeletion::DeletingSource { id: "s".to_string() }, Err(("Invalid input.".to_string(), 400)));
    assert_eq!(action, DeletionAction::Answer(plain(400, "Invalid input.", false)));
}

fn flatten(v: &[twin_api::tree::ElementSerialized], out: &mut Vec<u128>) {
    for e in v {
        out.push(e.element.id);
        flatten(&e.children, out);
    }
}

#[test]
fn tree_and_flat_listings_hold_the_same_elements() {
    let read = || vec![element(4, Some(3)), element(1, Some(2)), element(2, None), element(3, Some(1)), element(5, None)];
    let mut flat_ids = match plan_twin_listing(Ok(read()), None) {
        TwinListing::Flat(r) => match r.body {
            Body::List(b) => b.data.iter().map(|e| e.id).collect::<Vec<_>>(),
            _ => panic!("a list was expected"),
        },
        TwinListing::Tree(_) => panic!("no tree was asked for"),
    };
    let sorted = match plan_twin_listing(Ok(read()), Some(Serializeable { serialized: true })) {
        TwinListing::Tree(w) => w,
        TwinListing::Flat(_) => panic!("a tree was asked for"),
    };
    let sources: Vec<Vec<Source>> = sorted.iter().map(|_| Vec::new()).collect();
    let mut tree_ids = Vec::new();
    match twin_tree_reply(&sorted, &sources).unwrap().body {
        Body::List(b) => flatten(&b.data, &mut tree_ids),
        _ => panic!("a list was expected"),
    }
    flat_ids.sort();
    tree_ids.sort();
    assert_eq!(flat_ids, tree_ids);
    assert_eq!(tree_ids, vec![1, 2, 3, 4, 5]);
}

#[test]
fn registration_stores_a_new_user_only() {
    let reg = Register { name: "N".to_string(), email: "a@b.c".to_string(), password: "pw".to_string() };
    let existing = User { email: "a@b.c".to_string(), id: ID, name: "N".to_string(), password: "h".to_string() };
    assert_eq!(
        register_after_lookup(&reg, Ok(existing)),
        RegisterAction::Answer(plain(200, "User a@b.c already exists.", false))
    );
    match register_after_lookup(&reg, Err("No user with selected email".to_string())) {
        RegisterAction::Insert(st) => {
            assert_eq!(st.text, "INSERT INTO user (email, id, name, password) VALUES (?, ?, ?, ?)");
            match st.values {
                QueryValues::Positional(v) => {
                    assert_eq!(v.len(), 4);
                    assert_eq!(v[0], QueryValue::Text("a@b.c".to_string()));
                    assert_eq!(v[2], QueryValue::Text("N".to_string()));
                    match &v[3] {
                        QueryValue::Text(h) => {
                            assert!(h.starts_with("$argon2i$v=19$m=4096,t=3,p=1$"));
                            assert_eq!(twin_api::auth::verify_hash(&"pw".to_string(), h), Some(true));
                        },
                        _ => panic!("a hash was expected"),
                    }
                    match v[1] {
                        QueryValue::Uuid(id) => assert_eq!((id >> 76) & 0xf, 4),
                        _ => panic!("an id was expected"),
                    }
                },
                _ => panic!("positional values were expected"),
            }
        },
        RegisterAction::Answer(_) => panic!("the user should be stored"),
    }
}
