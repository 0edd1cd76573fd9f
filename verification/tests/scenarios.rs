use twin_api::auth::{authenticate, verify_hash};
use twin_api::db::{first_row, insert_element_outcome, insert_source_outcome, QueryValue, QueryValues};
use twin_api::deletion::{
    delete_element_next, delete_element_start, delete_source_next, delete_source_start, DeletionAction,
    DeletionEvent, ElementDeletion, SourceDeletion,
};
use twin_api::ids::str_to_uuid;
use twin_api::models::{Element, ElementRegister, Environment, Register, Serializeable, Source, SourceRegister, User, UserLogin};
use twin_api::replies::{
    get_element_reply, get_source_reply, logged_in_reply, login_reply,
    put_element_reply, put_source_reply, register_after_lookup, register_created_reply, sources_of_element_reply,
    plan_twin_listing, twin_tree_reply, Body, RegisterAction, TwinListing, SOURCE_DATA_ACK_TOPIC, SOURCE_DATA_TOPIC,
};
use twin_api::text::bearer_token;
use twin_api::tree::ElementSerialized;

const TWIN: u128 = 0x11111111_2222_3333_4444_555555555555;

fn env() -> Environment {
    Environment {
        server_address: "127.0.0.1:8080".to_string(),
        db_address: "127.0.0.1:9042".to_string(),
        secret_key: "secret".to_string(),
        twin_instance: TWIN,
    }
}

fn put_element(register: &ElementRegister) -> Element {
    let e = twin_api::replies::create_element(register, TWIN);
    let stored = insert_element_outcome(&e, true);
    let reply = put_element_reply(e.duplicate(), stored);
    assert_eq!(reply.code, 201);
    match reply.body {
        Body::Data(b) => {
            assert!(b.status);
            b.data
        },
        _ => panic!("an element was expected"),
    }
}

fn put_source(register: &SourceRegister) -> (Source, String, String) {
    let s = twin_api::replies::create_source(register);
    let stored = insert_source_outcome(&s, true);
    let reply = put_source_reply(TWIN, stored);
    assert_eq!(reply.code, 201);
    match reply.body {
        Body::Topics(b) => {
            assert!(b.status);
            assert_eq!(b.topics[0].0, SOURCE_DATA_TOPIC);
            assert_eq!(b.topics[1].0, SOURCE_DATA_ACK_TOPIC);
            (b.data, b.topics[0].1.clone(), b.topics[1].1.clone())
        },
        _ => panic!("a source with topics was expected"),
    }
}

fn get_element(table: &[Element], id_text: &str) -> twin_api::replies::Reply<Element> {
    let found = str_to_uuid(id_text.to_string()).and_then(|id| {
        first_row(table.iter().filter(|e| e.id == id).map(|e| e.duplicate()).collect())
    });
    get_element_reply(found)
}

fn get_source(table: &[Source], id_text: &str) -> twin_api::replies::Reply<Source> {
    let found = str_to_uuid(id_text.to_string()).and_then(|id| {
        first_row(table.iter().filter(|s| s.id == id).map(|s| s.duplicate()).collect())
    });
    get_source_reply(found)
}

fn text_of(id: u128) -> String {
    uuid::Uuid::from_u128(id).to_string()
}

fn register_user(reg: &Register) -> User {
    match register_after_lookup(reg, Err("No user with selected email".to_string())) {
        RegisterAction::Insert(st) => match st.values {
            QueryValues::Positional(v) => match (&v[0], &v[1], &v[2], &v[3]) {
                (QueryValue::Text(email), QueryValue::Uuid(id), QueryValue::Text(name), QueryValue::Text(hash)) => {
                    User { email: email.clone(), id: *id, name: name.clone(), password: hash.clone() }
                },
                _ => panic!("unexpected values"),
            },
            _ => panic!("positional values were expected"),
        },
        RegisterAction::Answer(_) => panic!("the user should be stored"),
    }
}

#[test]
fn create_element() {
    let table_entry = ElementRegister { name: "Element 1".to_string(), parent: None };
    let e2 = put_element(&table_entry);
    assert_eq!(e2.name, table_entry.name);
    assert_eq!(e2.parent, table_entry.parent);
    let e3 = put_element(&table_entry);
    assert_eq!(e3.name, table_entry.name);
    assert_ne!(e3.id, e2.id);
    let child = ElementRegister { name: "Element 2".to_string(), parent: Some(e2.id) };
    let e4 = put_element(&child);
    assert_eq!(e4.parent, Some(e2.id));
    let table = vec![e2.duplicate(), e3.duplicate(), e4.duplicate()];
    for e in [&e2, &e4] {
        let reply = get_element(&table, &text_of(e.id));
        assert_eq!(reply.code, 200);
        match reply.body {
            Body::Data(b) => {
                assert!(b.status);
                assert_eq!(b.data, *e);
            },
            _ => panic!("an element was expected"),
        }
    }
}

#[test]
fn get_element_sources() {
    let element = put_element(&ElementRegister { name: "Element with Sources".to_string(), parent: None });
    let register = SourceRegister { name: "Source".to_string(), element: element.id };
    let sources: Vec<Source> = (0..3).map(|_| put_source(&register).0).collect();
    let read: Vec<Source> = sources.iter().map(|s| s.duplicate()).collect();
    let reply = sources_of_element_reply(&text_of(element.id), Ok(read));
    assert_eq!(reply.code, 200);
    match reply.body {
        Body::List(b) => {
            assert_eq!(b.data.len(), 3);
            for s in &sources {
                let found = b.data.iter().find(|x| x.id == s.id).unwrap();
                assert_eq!(found, s);
                assert_eq!(found.element, element.id);
            }
        },
        _ => panic!("a list was expected"),
    }
}

#[test]
fn delete_element() {
    let element = put_element(&ElementRegister { name: "Test element to be deleted".to_string(), parent: None });
    let register = SourceRegister { name: "Source from deleted element".to_string(), element: element.id };
    let s1 = put_source(&register).0;
    let s2 = put_source(&register).0;
    let mut elements = vec![element.duplicate()];
    let mut sources = vec![s1.duplicate(), s2.duplicate()];
    let (mut state, mut action) = delete_element_start(text_of(element.id));
    loop {
        let event = match action {
            DeletionAction::DeleteById { table, id } => {
                assert_eq!(table, "element");
                elements.retain(|e| text_of(e.id) != id);
                DeletionEvent::Deleted(Ok(format!("Deleted {} {}.", table, id)))
            },
            DeletionAction::ListSources { element_id } => DeletionEvent::Listed(Ok(sources
                .iter()
                .filter(|s| text_of(s.element) == element_id)
                .map(|s| s.duplicate())
                .collect())),
            DeletionAction::DeleteWhereIn { table, ids, .. } => {
                if table == "source" {
                    sources.retain(|s| !ids.contains(&text_of(s.id)));
                }
                DeletionEvent::Deleted(Ok(format!("Deleted {} {}.", table, ids.join(", "))))
            },
            DeletionAction::Answer(reply) => {
                assert_eq!(reply.code, 200);
                assert_eq!(state, ElementDeletion::Done);
                break;
            },
            DeletionAction::DeleteWhere { .. } => panic!("not a step of an element's deletion"),
        };
        let next = delete_element_next(state, event);
        state = next.0;
        action = next.1;
    }
    assert!(elements.is_empty());
    assert!(sources.is_empty());
    let reply = get_element(&elements, &text_of(element.id));
    assert_eq!(reply.code, 404);
    let reply = get_source(&sources, &text_of(s1.id));
    assert_eq!(reply.code, 404);
    let reply = get_source(&sources, &text_of(s2.id));
    assert_eq!(reply.code, 404);
}

#[test]
fn create_source() {
    let element = put_element(&ElementRegister { name: "Element".to_string(), parent: None });
    let register = SourceRegister { name: "Source 1".to_string(), element: element.id };
    let (source, topic, ack_topic) = put_source(&register);
    assert_eq!(source.name, register.name);
    assert_eq!(source.element, element.id);
    let parts: Vec<&str> = topic.split('/').collect();
    assert_eq!(parts.len(), 3);
    let elements = vec![element.duplicate()];
    let sources = vec![source.duplicate()];
    match get_element(&elements, parts[1]).body {
        Body::Data(b) => assert_eq!(b.data, element),
        _ => panic!("an element was expected"),
    }
    match get_source(&sources, parts[2]).body {
        Body::Data(b) => assert_eq!(b.data, source),
        _ => panic!("a source was expected"),
    }
    let invalid = get_source(&sources, "123");
    assert_eq!(invalid.code, 400);
    let invalid = get_source(&sources, &format!("{}-123", text_of(source.id)));
    assert_eq!(invalid.code, 400);
    let ack: Vec<&str> = ack_topic.split('/').collect();
    assert_eq!(ack.len(), 4);
    match get_element(&elements, ack[1]).body {
        Body::Data(b) => assert_eq!(b.data, element),
        _ => panic!("an element was expected"),
    }
    match get_source(&sources, ack[2]).body {
        Body::Data(b) => assert_eq!(b.data, source),
        _ => panic!("a source was expected"),
    }
}

#[test]
fn delete_source() {
    let element = put_element(&ElementRegister { name: "Element".to_string(), parent: None });
    let source = put_source(&SourceRegister { name: "Source".to_string(), element: element.id }).0;
    let mut sources = vec![source.duplicate()];
    let (state, action) = delete_source_start(text_of(source.id));
    match action {
        DeletionAction::DeleteById { table, id } => {
            assert_eq!(table, "source");
            sources.retain(|s| text_of(s.id) != id);
        },
        _ => panic!("the source is deleted first"),
    }
    let (state, action) = delete_source_next(state, Ok("Deleted source.".to_string()));
    assert!(matches!(action, DeletionAction::DeleteWhere { .. }));
    let (state, action) = delete_source_next(state, Ok("Deleted source data.".to_string()));
    assert_eq!(state, SourceDeletion::Done);
    match action {
        DeletionAction::Answer(reply) => assert_eq!(reply.code, 200),
        _ => panic!("an answer was expected"),
    }
    assert_eq!(get_source(&sources, &text_of(source.id)).code, 404);
}

#[test]
fn get_twin_elements() {
    let r = |name: &str, parent: Option<u128>| ElementRegister { name: name.to_string(), parent };
    let e1 = put_element(&r("Element 1", None));
    let e2 = put_element(&r("Element 2", None));
    let e3 = put_element(&r("Element 3", None));
    let e4 = put_element(&r("Element 4", None));
    let e4_child = put_element(&r("Element with Sources", Some(e4.id)));
    let e5 = put_element(&r("Element with no sources", None));
    let e5_child = put_element(&r("Child Element with no sources", Some(e5.id)));
    let cc: Vec<Element> = (0..3).map(|_| put_element(&r("Child Element with sources", Some(e5_child.id)))).collect();
    let src = |e: &Element| put_source(&SourceRegister { name: "Source".to_string(), element: e.id }).0;
    let mut all_sources: Vec<Source> = Vec::new();
    for _ in 0..3 {
        all_sources.push(src(&e1));
    }
    for _ in 0..2 {
        all_sources.push(src(&e2));
    }
    all_sources.push(src(&e4));
    all_sources.push(src(&e4_child));
    for c in &cc {
        all_sources.push(src(c));
    }
    let rows = vec![
        cc[2].duplicate(), e5_child.duplicate(), e1.duplicate(), e4_child.duplicate(), e2.duplicate(),
        cc[0].duplicate(), e3.duplicate(), e4.duplicate(), cc[1].duplicate(), e5.duplicate(),
    ];
    match plan_twin_listing(Ok(rows), Some(Serializeable { serialized: true })) {
        TwinListing::Tree(sorted) => {
            let sources: Vec<Vec<Source>> = sorted
                .iter()
                .map(|e| all_sources.iter().filter(|s| s.element == e.id).map(|s| s.duplicate()).collect())
                .collect();
            let reply = twin_tree_reply(&sorted, &sources).unwrap();
            let tree: Vec<ElementSerialized> = match reply.body {
                Body::List(b) => b.data,
                _ => panic!("a list was expected"),
            };
            let find = |v: &[ElementSerialized], id: u128| v.iter().position(|x| x.element.id == id).unwrap();
            let s1 = &tree[find(&tree, e1.id)];
            assert_eq!(s1.element, e1);
            assert_eq!(s1.sources.len(), 3);
            assert!(s1.sources.iter().all(|s| s.element == e1.id));
            assert_eq!(tree[find(&tree, e2.id)].sources.len(), 2);
            assert_eq!(tree[find(&tree, e3.id)].sources.len(), 0);
            let s4 = &tree[find(&tree, e4.id)];
            assert_eq!(s4.sources.len(), 1);
            assert_eq!(s4.children.len(), 1);
            assert_eq!(s4.children[0].element, e4_child);
            assert_eq!(s4.children[0].sources.len(), 1);
            assert!(s4.children[0].children.is_empty());
            let s5 = &tree[find(&tree, e5.id)];
            assert_eq!(s5.children.len(), 1);
            assert!(s5.sources.is_empty());
            let s5c = &s5.children[0];
            assert_eq!(s5c.element, e5_child);
            assert_eq!(s5c.children.len(), 3);
            for c in &cc {
                let x = &s5c.children[find(&s5c.children, c.id)];
                assert_eq!(x.element, *c);
                assert!(x.children.is_empty());
                assert_eq!(x.sources.len(), 1);
                assert_eq!(x.sources[0].element, c.id);
            }
        },
        TwinListing::Flat(_) => panic!("a tree was asked for"),
    }
}

#[test]
fn create_user() {
    let reg = Register {
        email: "example_1@example.com".to_string(),
        name: "Example user".to_string(),
        password: "example_password".to_string(),
    };
    let user = register_user(&reg);
    let reply = register_created_reply(&reg.email, user);
    assert_eq!(reply.code, 200);
    match reply.body {
        Body::Data(b) => {
            assert_eq!(b.message, format!("Success in creating user {}.", reg.email));
            assert!(b.status);
            assert_eq!(b.data.email, reg.email);
            assert_eq!(b.data.name, reg.name);
            assert_ne!(b.data.password, reg.password);
            let again = register_after_lookup(&reg, Ok(b.data));
            match again {
                RegisterAction::Answer(r) => match r.body {
                    Body::Plain(p) => {
                        assert_eq!(p.message, format!("User {} already exists.", reg.email));
                        assert!(!p.status);
                    },
                    _ => panic!("a message was expected"),
                },
                RegisterAction::Insert(_) => panic!("the user exists"),
            }
        },
        _ => panic!("the user was expected"),
    }
}

#[test]
fn login() {
    let reg = Register {
        email: "example_3@example.com".to_string(),
        name: "Example user".to_string(),
        password: "example_password".to_string(),
    };
    let user = register_user(&reg);
    let login = UserLogin { email: reg.email.clone(), password: reg.password.clone(), remember_me: false };
    let outcome = authenticate(login, user.duplicate(), &env());
    let reply = login_reply(&reg.email, Some(outcome));
    assert_eq!(reply.code, 200);
    let token = match reply.body {
        Body::Login(b) => {
            assert!(b.status);
            b.token
        },
        _ => panic!("a token was expected"),
    };
    let header = format!("Bearer {}", token);
    let data = jsonwebtoken::decode::<serde_json::Value>(
        &bearer_token(&header),
        &jsonwebtoken::DecodingKey::from_secret(b"secret"),
        &jsonwebtoken::Validation::default(),
    )
    .unwrap();
    let sub: serde_json::Value = serde_json::from_str(data.claims["sub"].as_str().unwrap()).unwrap();
    assert_eq!(sub["email"], reg.email.as_str());
    assert_eq!(verify_hash(&reg.password, &user.password), Some(true));
    assert_eq!(logged_in_reply().code, 200);
}

#[test]
fn unauthorized() {
    let token = bearer_token("");
    assert_eq!(token, "");
    let decoded = jsonwebtoken::decode::<serde_json::Value>(
        &token,
        &jsonwebtoken::DecodingKey::from_secret(b"secret"),
        &jsonwebtoken::Validation::default(),
    );
    assert!(decoded.is_err());
}
