use twin_api::db::{
    delete_in_outcome, delete_outcome, delete_source_data_query, delete_where_in_query, delete_where_query,
    element_sources_query, first_row, insert_element_outcome, insert_element_statement, insert_source_outcome,
    insert_source_statement, join_ids, new_user_statement, register_statement, select_by_id_query, twin_elements_query,
    user_by_email_statement, user_from_first_row, QueryValue, QueryValues,
};
use twin_api::models::{DataInterval, Element, Register, Source, User};

const ID: u128 = 0x557c8018_5e21_4b74_8bb0_9040e2e8ead1;
const ID_TEXT: &str = "557c8018-5e21-4b74-8bb0-9040e2e8ead1";
const TWIN: u128 = 0x11111111_2222_3333_4444_555555555555;

fn named(pairs: &[(&str, QueryValue)]) -> QueryValues {
    QueryValues::Named(
        pairs
            .iter()
            .map(|(n, v)| {
                (n.to_string(), match v {
                    QueryValue::Uuid(u) => QueryValue::Uuid(*u),
                    QueryValue::Text(t) => QueryValue::Text(t.clone()),
                })
            })
            .collect(),
    )
}

#[test]
fn select_by_id_names_table_and_id() {
    assert_eq!(select_by_id_query("element", ID), format!("SELECT * FROM element WHERE id = {}", ID_TEXT));
}

#[test]
fn first_row_or_not_found() {
    assert_eq!(first_row(vec![7, 8]), Ok(7));
    assert_eq!(first_row::<u8>(vec![]), Err(("No item found.".to_string(), 404)));
}

#[test]
fn delete_statements_and_reports() {
    assert_eq!(
        delete_where_query("source_data", "source", ID),
        format!("DELETE FROM source_data WHERE source = {}", ID_TEXT)
    );
    assert_eq!(delete_outcome("element", ID, true), Ok(format!("Deleted element {}.", ID_TEXT)));
    assert_eq!(delete_outcome("element", ID, false), Ok(format!("Error deleting element {}.", ID_TEXT)));
}

#[test]
fn delete_where_in_lists_the_ids() {
    let ids = vec!["a".to_string(), "b".to_string(), "c".to_string()];
    assert_eq!(join_ids(&ids), "a, b, c");
    assert_eq!(join_ids(&vec![]), "");
    assert_eq!(delete_where_in_query(&ids, "source", "id"), "DELETE FROM source WHERE id IN (a, b, c)");
    assert_eq!(delete_in_outcome(&ids, "source", true), Ok("Deleted source a, b, c.".to_string()));
    assert_eq!(delete_in_outcome(&ids, "source", false), Ok("Error deleting source a, b, c.".to_string()));
}

#[test]
fn listing_queries() {
    assert_eq!(element_sources_query(ID), format!("SELECT * FROM source WHERE element = {}", ID_TEXT));
    assert_eq!(twin_elements_query("abc"), "SELECT * FROM element WHERE twin = abc");
}

#[test]
fn user_lookup() {
    let st = user_by_email_statement(&"a@b.c".to_string());
    assert_eq!(st.text, "SELECT * FROM user WHERE email = ? ALLOW FILTERING");
    assert_eq!(st.values, QueryValues::Positional(vec![QueryValue::Text("a@b.c".to_string())]));
    let user = User { email: "a@b.c".to_string(), id: ID, name: "A".to_string(), password: "h".to_string() };
    assert_eq!(user_from_first_row(Some(Some(user.duplicate()))), Ok(user));
    assert_eq!(user_from_first_row(None), Err("No user with selected email".to_string()));
    assert_eq!(user_from_first_row(Some(None)), Err("Could not convert rows to User model.".to_string()));
}

#[test]
fn user_registration_statement() {
    let reg = Register { name: "A".to_string(), email: "a@b.c".to_string(), password: "pw".to_string() };
    let st = register_statement(&reg, ID, &"hash".to_string());
    assert_eq!(st.text, "INSERT INTO user (email, id, name, password) VALUES (?, ?, ?, ?)");
    assert_eq!(
        st.values,
        QueryValues::Positional(vec![
            QueryValue::Text("a@b.c".to_string()),
            QueryValue::Uuid(ID),
            QueryValue::Text("A".to_string()),
            QueryValue::Text("hash".to_string()),
        ])
    );
}

#[test]
fn element_storage() {
    let top = Element { id: ID, twin: TWIN, name: "E".to_string(), parent: None, created_at: None };
    let st = insert_element_statement(&top);
    assert_eq!(st.text, "INSERT INTO element (id, twin, name, created_at) VALUES (?, ?, ?, toTimestamp(now()))");
    assert_eq!(
        st.values,
        named(&[("id", QueryValue::Uuid(ID)), ("twin", QueryValue::Uuid(TWIN)), ("name", QueryValue::Text("E".to_string()))])
    );
    let child = Element { id: ID, twin: TWIN, name: "E".to_string(), parent: Some(7), created_at: None };
    let st = insert_element_statement(&child);
    assert_eq!(
        st.text,
        "INSERT INTO element (id, twin, name, parent, created_at) VALUES (?, ?, ?, ?, toTimestamp(now()))"
    );
    assert_eq!(
        child.to_query(),
        named(&[
            ("id", QueryValue::Uuid(ID)),
            ("twin", QueryValue::Uuid(TWIN)),
            ("name", QueryValue::Text("E".to_string())),
            ("parent", QueryValue::Uuid(7)),
        ])
    );
    assert_eq!(
        insert_element_outcome(&top, true),
        Ok(format!("New element {}:E of twin 11111111-2222-3333-4444-555555555555.", ID_TEXT))
    );
    assert_eq!(insert_element_outcome(&top, false), Err("Error inserting element.".to_string()));
}

#[test]
fn source_storage() {
    let s = Source { id: ID, name: "S".to_string(), element: TWIN, created_at: None };
    let st = insert_source_statement(&s);
    assert_eq!(st.text, "INSERT INTO source (id, name, element, created_at) VALUES (?, ?, ?, toTimestamp(now()))");
    assert_eq!(
        st.values,
        named(&[("id", QueryValue::Uuid(ID)), ("name", QueryValue::Text("S".to_string())), ("element", QueryValue::Uuid(TWIN))])
    );
    assert_eq!(insert_source_outcome(&s, true), Ok(s.duplicate()));
    assert_eq!(insert_source_outcome(&s, false), Err("Error inserting data source.".to_string()));
}

fn interval(since: Option<&str>, until: Option<&str>, force: Option<bool>) -> Option<DataInterval> {
    Some(DataInterval { since: since.map(|s| s.to_string()), until: until.map(|s| s.to_string()), force })
}

#[test]
fn source_data_deletion_needs_a_bound_or_force() {
    let base = "DELETE FROM source_data WHERE source = s1";
    assert_eq!(delete_source_data_query("s1", &None), None);
    assert_eq!(delete_source_data_query("s1", &interval(None, None, None)), None);
    assert_eq!(delete_source_data_query("s1", &interval(None, None, Some(false))), None);
    assert_eq!(delete_source_data_query("s1", &interval(None, None, Some(true))), Some(base.to_string()));
    assert_eq!(
        delete_source_data_query("s1", &interval(Some("10"), None, None)),
        Some(format!("{} AND stamp >= 10", base))
    );
    assert_eq!(
        delete_source_data_query("s1", &interval(None, Some("20"), Some(false))),
        Some(format!("{} AND stamp <= 20", base))
    );
    assert_eq!(
        delete_source_data_query("s1", &interval(Some("10"), Some("20"), Some(true))),
        Some(format!("{} AND stamp >= 10 AND stamp <= 20", base))
    );
}

#[test]
fn new_users_get_a_random_id() {
    let reg = Register { name: "A".to_string(), email: "a@b.c".to_string(), password: "pw".to_string() };
    let st = new_user_statement(&reg, &"hash".to_string());
    assert_eq!(st.text, "INSERT INTO user (email, id, name, password) VALUES (?, ?, ?, ?)");
    match st.values {
        QueryValues::Positional(v) => {
            assert_eq!(v.len(), 4);
            assert_eq!(v[0], QueryValue::Text("a@b.c".to_string()));
            match v[1] {
                QueryValue::Uuid(u) => assert_eq!((u >> 76) & 0xf, 4),
                _ => panic!("an id was expected"),
            }
            assert_eq!(v[2], QueryValue::Text("A".to_string()));
            assert_eq!(v[3], QueryValue::Text("hash".to_string()));
        },
        _ => panic!("positional values were expected"),
    }
}
