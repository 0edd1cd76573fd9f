use vstd::prelude::*;
use vstd::string::*;
use crate::ids::{is_random_uuid, new_uuid, uuid_hyphenated, uuid_text};
use crate::models::{DataInterval, Element, Register, Source, User};
use crate::text::text;

verus! {

/// A value bound to a statement.
#[derive(Debug, PartialEq)]
pub enum QueryValue {
    Uuid(u128),
    Text(String),
}

/// The values bound to a statement, by position or by column name.
#[derive(Debug, PartialEq)]
pub enum QueryValues {
    Positional(Vec<QueryValue>),
    Named(Vec<(String, QueryValue)>),
}

/// A statement and the values bound to it.
#[derive(Debug, PartialEq)]
pub struct Statement {
    pub text: String,
    pub values: QueryValues,
}

/// A statement's mathematical value: its text and its values, names
/// as character sequences.
pub enum ValueView {
    Uuid(u128),
    Text(Seq<char>),
}

pub open spec fn value_view(v: QueryValue) -> ValueView {
    match v {
        QueryValue::Uuid(u) => ValueView::Uuid(u),
        QueryValue::Text(s) => ValueView::Text(s@),
    }
}

pub open spec fn named_view(v: Seq<(String, QueryValue)>) -> Seq<(Seq<char>, ValueView)> {
    v.map_values(|p: (String, QueryValue)| (p.0@, value_view(p.1)))
}

pub open spec fn positional_view(v: Seq<QueryValue>) -> Seq<ValueView> {
    v.map_values(|p: QueryValue| value_view(p))
}

fn named(name: &str, value: QueryValue) -> (r: (String, QueryValue))
    ensures
        r.0@ == name@,
        r.1 == value,
{
    (text(name), value)
}

fn text_value(s: &String) -> (r: QueryValue)
    ensures
        value_view(r) == ValueView::Text(s@),
{
    QueryValue::Text(s.clone())
}

/// `a + b + c + ...` as a string.
fn join3(a: &str, b: &str, c: &str) -> (r: String)
    ensures
        r@ == a@ + b@ + c@,
{
    let mut r = text(a);
    r.append(b);
    r.append(c);
    r
}

/// The query that reads the row of `table` with the given id.
pub fn select_by_id_query(table: &str, id: u128) -> (r: String)
    ensures
        r@ == "SELECT * FROM "@ + table@ + " WHERE id = "@ + uuid_hyphenated(id),
{
    let idt = uuid_text(id);
    let mut r = join3("SELECT * FROM ", table, " WHERE id = ");
    r.append(idt.as_str());
    r
}

/// The answer to a read by id, from the rows read: the first row, or
/// "No item found." (404) when there is none.
pub fn first_row<R>(rows: Vec<R>) -> (r: Result<R, (String, usize)>)
    ensures
        rows@.len() == 0 ==> (r matches Err(e) && e.0@ == "No item found."@ && e.1 == 404),
        rows@.len() > 0 ==> r == Ok::<R, (String, usize)>(rows@[0]),
{
    let mut rows = rows;
    if rows.len() == 0 {
        return Err((text("No item found."), 404));
    }
    Ok(rows.swap_remove(0))
}

/// The statement that deletes the rows of `table` whose `column` holds the id.
pub fn delete_where_query(table: &str, column: &str, id: u128) -> (r: String)
    ensures
        r@ == "DELETE FROM "@ + table@ + " WHERE "@ + column@ + " = "@ + uuid_hyphenated(id),
{
    let idt = uuid_text(id);
    let mut r = join3("DELETE FROM ", table, " WHERE ");
    r.append(column);
    r.append(" = ");
    r.append(idt.as_str());
    r
}

/// The answer to a deletion: a report that it was done or that it failed;
/// both are answered as successes.
pub fn delete_outcome(table: &str, id: u128, done: bool) -> (r: Result<String, (String, usize)>)
    ensures
        r matches Ok(m) && m@ == (if done { "Deleted "@ } else { "Error deleting "@ }) + table@ + " "@
            + uuid_hyphenated(id) + "."@,
{
    let idt = uuid_text(id);
    let mut m = if done { text("Deleted ") } else { text("Error deleting ") };
    m.append(table);
    m.append(" ");
    m.append(idt.as_str());
    m.append(".");
    Ok(m)
}

/// The ids joined by ", ".
pub open spec fn joined(ids: Seq<Seq<char>>) -> Seq<char>
    decreases ids.len(),
{
    if ids.len() == 0 {
        Seq::empty()
    } else if ids.len() == 1 {
        ids[0]
    } else {
        joined(ids.drop_last()) + ", "@ + ids.last()
    }
}

pub open spec fn strings_view(v: Seq<String>) -> Seq<Seq<char>> {
    v.map_values(|s: String| s@)
}

/// The ids joined by ", ".
pub fn join_ids(ids: &Vec<String>) -> (r: String)
    ensures
        r@ == joined(strings_view(ids@)),
{
    let mut r = String::new();
    let ghost v = strings_view(ids@);
    for i in 0..ids.len()
        invariant
            v == strings_view(ids@),
            v.len() == ids@.len(),
            r@ == joined(v.take(i as int)),
    {
        proof {
            assert(v.take(i + 1).drop_last() =~= v.take(i as int));
            assert(v.take(i + 1).last() == ids@[i as int]@);
            if i == 0 {
                assert(v.take(0) =~= Seq::<Seq<char>>::empty());
            }
        }
        if i > 0 {
            r.append(", ");
        }
        r.append(ids[i].as_str());
        proof {
            if i == 0 {
                assert(r@ =~= joined(v.take(1)));
            }
        }
    }
    proof {
        assert(v.take(ids@.len() as int) =~= v);
    }
    r
}

/// The statement that deletes the rows of `table` whose `column` holds one of the ids.
pub fn delete_where_in_query(ids: &Vec<String>, table: &str, column: &str) -> (r: String)
    ensures
        r@ == "DELETE FROM "@ + table@ + " WHERE "@ + column@ + " IN ("@ + joined(strings_view(ids@)) + ")"@,
{
    let list = join_ids(ids);
    let mut r = join3("DELETE FROM ", table, " WHERE ");
    r.append(column);
    r.append(" IN (");
    r.append(list.as_str());
    r.append(")");
    r
}

/// The answer to a deletion of several rows, as for one row.
pub fn delete_in_outcome(ids: &Vec<String>, table: &str, done: bool) -> (r: Result<String, (String, usize)>)
    ensures
        r matches Ok(m) && m@ == (if done { "Deleted "@ } else { "Error deleting "@ }) + table@ + " "@
            + joined(strings_view(ids@)) + "."@,
{
    let list = join_ids(ids);
    let mut m = if done { text("Deleted ") } else { text("Error deleting ") };
    m.append(table);
    m.append(" ");
    m.append(list.as_str());
    m.append(".");
    Ok(m)
}

/// The query that reads the sources of an element.
pub fn element_sources_query(element: u128) -> (r: String)
    ensures
        r@ == "SELECT * FROM source WHERE element = "@ + uuid_hyphenated(element),
{
    let idt = uuid_text(element);
    let mut r = text("SELECT * FROM source WHERE element = ");
    r.append(idt.as_str());
    r
}

/// The query that reads the elements of a twin, named as configured.
pub fn twin_elements_query(twin: &str) -> (r: String)
    ensures
        r@ == "SELECT * FROM element WHERE twin = "@ + twin@,
{
    let mut r = text("SELECT * FROM element WHERE twin = ");
    r.append(twin);
    r
}

/// The statement that reads the user with an email.
pub fn user_by_email_statement(email: &String) -> (r: Statement)
    ensures
        r.text@ == "SELECT * FROM user WHERE email = ? ALLOW FILTERING"@,
        r.values matches QueryValues::Positional(v) && positional_view(v@) == seq![ValueView::Text(email@)],
{
    let mut v: Vec<QueryValue> = Vec::new();
    v.push(text_value(email));
    proof {
        assert(positional_view(v@) =~= seq![ValueView::Text(email@)]);
    }
    Statement { text: text("SELECT * FROM user WHERE email = ? ALLOW FILTERING"), values: QueryValues::Positional(v) }
}

/// The answer to a read of a user by email, from the first row read:
/// `None` when no row was read, `Some(None)` when the row is not a user.
pub fn user_from_first_row(first: Option<Option<User>>) -> (r: Result<User, String>)
    ensures
        match first {
            None => r matches Err(m) && m@ == "No user with selected email"@,
            Some(None) => r matches Err(m) && m@ == "Could not convert rows to User model."@,
            Some(Some(u)) => r == Ok::<User, String>(u),
        },
{
    match first {
        None => Err(text("No user with selected email")),
        Some(None) => Err(text("Could not convert rows to User model.")),
        Some(Some(u)) => Ok(u),
    }
}

/// The statement that stores a new user with the hash of its password.
pub fn register_statement(user: &Register, id: u128, hash: &String) -> (r: Statement)
    ensures
        r.text@ == "INSERT INTO user (email, id, name, password) VALUES (?, ?, ?, ?)"@,
        r.values matches QueryValues::Positional(v) && positional_view(v@) == seq![
            ValueView::Text(user.email@),
            ValueView::Uuid(id),
            ValueView::Text(user.name@),
            ValueView::Text(hash@),
        ],
{
    let mut v: Vec<QueryValue> = Vec::new();
    v.push(text_value(&user.email));
    v.push(QueryValue::Uuid(id));
    v.push(text_value(&user.name));
    v.push(text_value(hash));
    proof {
        assert(positional_view(v@) =~= seq![
            ValueView::Text(user.email@),
            ValueView::Uuid(id),
            ValueView::Text(user.name@),
            ValueView::Text(hash@),
        ]);
    }
    Statement {
        text: text("INSERT INTO user (email, id, name, password) VALUES (?, ?, ?, ?)"),
        values: QueryValues::Positional(v),
    }
}

/// The statement that stores a new user, with a fresh random id, and the
/// hash of its password.
pub fn new_user_statement(user: &Register, hash: &String) -> (r: Statement)
    ensures
        r.text@ == "INSERT INTO user (email, id, name, password) VALUES (?, ?, ?, ?)"@,
        r.values matches QueryValues::Positional(v) && ({
            let pv = positional_view(v@);
            &&& pv.len() == 4
            &&& pv[0] == ValueView::Text(user.email@)
            &&& pv[1] matches ValueView::Uuid(id) && is_random_uuid(id)
            &&& pv[2] == ValueView::Text(user.name@)
            &&& pv[3] == ValueView::Text(hash@)
        }),
{
    register_statement(user, new_uuid(), hash)
}

/// The named values of an element: `id`, `twin`, `name`, then `parent`
/// when it has one.
pub open spec fn element_values(e: Element) -> Seq<(Seq<char>, ValueView)> {
    let base = seq![
        ("id"@, ValueView::Uuid(e.id)),
        ("twin"@, ValueView::Uuid(e.twin)),
        ("name"@, ValueView::Text(e.name@)),
    ];
    match e.parent {
        Some(p) => base.push(("parent"@, ValueView::Uuid(p))),
        None => base,
    }
}

impl Element {
    /// The values an element is stored with.
    pub fn to_query(&self) -> (r: QueryValues)
        ensures
            r matches QueryValues::Named(v) && named_view(v@) == element_values(*self),
    {
        let mut v: Vec<(String, QueryValue)> = Vec::new();
        v.push(named("id", QueryValue::Uuid(self.id)));
        v.push(named("twin", QueryValue::Uuid(self.twin)));
        v.push(named("name", text_value(&self.name)));
        match self.parent {
            Some(p) => {
                v.push(named("parent", QueryValue::Uuid(p)));
            },
            None => {},
        }
        proof {
            assert(named_view(v@) =~= element_values(*self));
        }
        QueryValues::Named(v)
    }
}

impl Source {
    /// The values a source is stored with: `id`, `name`, `element`.
    pub fn to_query(&self) -> (r: QueryValues)
        ensures
            r matches QueryValues::Named(v) && named_view(v@) == seq![
                ("id"@, ValueView::Uuid(self.id)),
                ("name"@, ValueView::Text(self.name@)),
                ("element"@, ValueView::Uuid(self.element)),
            ],
    {
        let mut v: Vec<(String, QueryValue)> = Vec::new();
        v.push(named("id", QueryValue::Uuid(self.id)));
        v.push(named("name", text_value(&self.name)));
        v.push(named("element", QueryValue::Uuid(self.element)));
        proof {
            assert(named_view(v@) =~= seq![
                ("id"@, ValueView::Uuid(self.id)),
                ("name"@, ValueView::Text(self.name@)),
                ("element"@, ValueView::Uuid(self.element)),
            ]);
        }
        QueryValues::Named(v)
    }
}

/// The statement that stores an element: with the parent column when the
/// element has a parent, without it otherwise.
pub fn insert_element_statement(element: &Element) -> (r: Statement)
    ensures
        r.text@ == (if element.parent is None {
            "INSERT INTO element (id, twin, name, created_at) VALUES (?, ?, ?, toTimestamp(now()))"@
        } else {
            "INSERT INTO element (id, twin, name, parent, created_at) VALUES (?, ?, ?, ?, toTimestamp(now()))"@
        }),
        r.values matches QueryValues::Named(v) && named_view(v@) == element_values(*element),
{
    let t = if element.parent.is_none() {
        text("INSERT INTO element (id, twin, name, created_at) VALUES (?, ?, ?, toTimestamp(now()))")
    } else {
        text("INSERT INTO element (id, twin, name, parent, created_at) VALUES (?, ?, ?, ?, toTimestamp(now()))")
    };
    Statement { text: t, values: element.to_query() }
}

/// The answer to storing an element: a report of the new element, or an error.
pub fn insert_element_outcome(element: &Element, stored: bool) -> (r: Result<String, String>)
    ensures
        stored ==> (r matches Ok(m) && m@ == "New element "@ + uuid_hyphenated(element.id) + ":"@
            + element.name@ + " of twin "@ + uuid_hyphenated(element.twin) + "."@),
        !stored ==> (r matches Err(m) && m@ == "Error inserting element."@),
{
    if stored {
        let mut m = text("New element ");
        let idt = uuid_text(element.id);
        let twt = uuid_text(element.twin);
        m.append(idt.as_str());
        m.append(":");
        m.append(element.name.as_str());
        m.append(" of twin ");
        m.append(twt.as_str());
        m.append(".");
        Ok(m)
    } else {
        Err(text("Error inserting element."))
    }
}

/// The statement that stores a source.
pub fn insert_source_statement(source: &Source) -> (r: Statement)
    ensures
        r.text@ == "INSERT INTO source (id, name, element, created_at) VALUES (?, ?, ?, toTimestamp(now()))"@,
        r.values matches QueryValues::Named(v) && named_view(v@) == seq![
            ("id"@, ValueView::Uuid(source.id)),
            ("name"@, ValueView::Text(source.name@)),
            ("element"@, ValueView::Uuid(source.element)),
        ],
{
    Statement {
        text: text("INSERT INTO source (id, name, element, created_at) VALUES (?, ?, ?, toTimestamp(now()))"),
        values: source.to_query(),
    }
}

/// The answer to storing a source: the source, or an error.
pub fn insert_source_outcome(source: &Source, stored: bool) -> (r: Result<Source, String>)
    ensures
        stored ==> r == Ok::<Source, String>(*source),
        !stored ==> (r matches Err(m) && m@ == "Error inserting data source."@),
{
    if stored {
        Ok(source.duplicate())
    } else {
        Err(text("Error inserting data source."))
    }
}

/// The deletion of the readings of a source that a request asks for:
/// the readings of the source, bounded below by `since` and above by
/// `until` when given.  Without a bound it deletes all readings only when
/// `force` is set; otherwise, and without parameters, there is nothing to
/// run (`None`).
pub open spec fn source_data_deletion(id: Seq<char>, params: Option<DataInterval>) -> Option<Seq<char>> {
    match params {
        None => None,
        Some(p) => {
            let base = "DELETE FROM source_data WHERE source = "@ + id;
            let with_since = match p.since {
                Some(s) => base + " AND stamp >= "@ + s@,
                None => base,
            };
            let query = match p.until {
                Some(u) => with_since + " AND stamp <= "@ + u@,
                None => with_since,
            };
            if p.since is Some || p.until is Some || p.force == Some(true) {
                Some(query)
            } else {
                None
            }
        },
    }
}

/// The statement that deletes readings of a source, if the request asks
/// for a deletion it may run (see `source_data_deletion`).
pub fn delete_source_data_query(id: &str, params: &Option<DataInterval>) -> (r: Option<String>)
    ensures
        match r {
            Some(q) => source_data_deletion(id@, *params) == Some(q@),
            None => source_data_deletion(id@, *params) is None,
        },
{
    match params {
        None => None,
        Some(p) => {
            let mut q = text("DELETE FROM source_data WHERE source = ");
            q.append(id);
            match &p.since {
                Some(s) => {
                    q.append(" AND stamp >= ");
                    q.append(s.as_str());
                },
                None => {},
            }
            match &p.until {
                Some(u) => {
                    q.append(" AND stamp <= ");
                    q.append(u.as_str());
                },
                None => {},
            }
            let forced = match p.force {
                Some(f) => f,
                None => false,
            };
            if p.since.is_some() || p.until.is_some() || forced {
                Some(q)
            } else {
                None
            }
        },
    }
}

} // verus!

verus! {

/// A deletion of readings runs only for a request with a bound or with
/// `force` set; its statement starts with the deletion of the source's
/// readings, then holds the lower bound right after it when `since` is
/// given, and ends with the upper bound when `until` is given, with nothing
/// else in it.
pub proof fn lemma_data_deletion_bounds(id: Seq<char>, p: DataInterval)
    ensures
        source_data_deletion(id, None) is None,
        source_data_deletion(id, Some(p)) is Some <==> (p.since is Some || p.until is Some || p.force == Some(true)),
        source_data_deletion(id, Some(p)) matches Some(q) ==> {
            let base = "DELETE FROM source_data WHERE source = "@ + id;
            let lower = match p.since {
                Some(s) => " AND stamp >= "@ + s@,
                None => Seq::empty(),
            };
            let upper = match p.until {
                Some(u) => " AND stamp <= "@ + u@,
                None => Seq::empty(),
            };
            &&& q.len() == base.len() + lower.len() + upper.len()
            &&& q.take(base.len() as int) == base
            &&& q.subrange(base.len() as int, (base.len() + lower.len()) as int) == lower
            &&& q.skip(q.len() - upper.len()) == upper
        },
{
    if let Some(q) = source_data_deletion(id, Some(p)) {
        let base = "DELETE FROM source_data WHERE source = "@ + id;
        let lower = match p.since {
            Some(s) => " AND stamp >= "@ + s@,
            None => Seq::<char>::empty(),
        };
        let upper = match p.until {
            Some(u) => " AND stamp <= "@ + u@,
            None => Seq::<char>::empty(),
        };
        assert(q =~= base + lower + upper);
        assert(q.take(base.len() as int) =~= base);
        assert(q.subrange(base.len() as int, (base.len() + lower.len()) as int) =~= lower);
        assert(q.skip(q.len() - upper.len()) =~= upper);
    }
}

/// Where the id at position `i` starts in the ids joined by ", ".
pub open spec fn joined_offset(ids: Seq<Seq<char>>, i: int) -> int
    decreases i,
{
    if i <= 0 {
        0
    } else {
        joined_offset(ids, i - 1) + ids[i - 1].len() + 2
    }
}

proof fn lemma_subrange_of_prefix(x: Seq<char>, y: Seq<char>, a: int, b: int)
    requires
        0 <= a <= b <= x.len(),
    ensures
        (x + y).subrange(a, b) == x.subrange(a, b),
{
    assert((x + y).subrange(a, b) =~= x.subrange(a, b));
}

proof fn lemma_joined_len(ids: Seq<Seq<char>>)
    ensures
        ids.len() == 0 ==> joined(ids).len() == 0,
        ids.len() > 0 ==> joined(ids).len() == joined_offset(ids, ids.len() - 1) + ids.last().len(),
    decreases ids.len(),
{
    reveal_strlit(", ");
    if ids.len() > 1 {
        let d = ids.drop_last();
        lemma_joined_len(d);
        lemma_joined_offset_prefix(ids, d.len() - 1);
        assert(d.last() == ids[ids.len() - 2]);
    }
}

proof fn lemma_joined_id(ids: Seq<Seq<char>>, i: int)
    requires
        0 <= i < ids.len(),
    ensures
        joined(ids).subrange(joined_offset(ids, i), joined_offset(ids, i) + ids[i].len()) == ids[i],
    decreases ids.len(),
{
    reveal_strlit(", ");
    let n = ids.len();
    if n == 1 {
        assert(joined(ids).subrange(0, ids[0].len() as int) =~= ids[0]);
    } else {
        let d = ids.drop_last();
        let jd = joined(d);
        lemma_joined_len(d);
        assert(joined(ids) == jd + ", "@ + ids.last());
        if i == n - 1 {
            lemma_joined_offset_prefix(ids, n - 2);
            assert(d.last() == ids[n - 2]);
            assert(joined_offset(ids, i) == jd.len() + 2);
            assert(joined(ids).subrange(joined_offset(ids, i), joined_offset(ids, i) + ids[i].len()) =~= ids.last());
        } else {
            lemma_joined_id(d, i);
            lemma_joined_offset_prefix(ids, i);
            lemma_joined_offset_mono(d, i, d.len() - 1);
            assert(d[i] == ids[i]);
            lemma_subrange_of_prefix(jd, ", "@ + ids.last(), joined_offset(ids, i), joined_offset(ids, i) + ids[i].len());
            assert(jd + ", "@ + ids.last() =~= jd + (", "@ + ids.last()));
        }
    }
}

proof fn lemma_joined_sep(ids: Seq<Seq<char>>, i: int)
    requires
        0 <= i < ids.len() - 1,
    ensures
        joined(ids).subrange(joined_offset(ids, i) + ids[i].len(), joined_offset(ids, i + 1)) == ", "@,
    decreases ids.len(),
{
    reveal_strlit(", ");
    let n = ids.len();
    let d = ids.drop_last();
    let jd = joined(d);
    lemma_joined_len(d);
    assert(joined(ids) == jd + ", "@ + ids.last());
    lemma_joined_offset_prefix(ids, i);
    assert(d[i] == ids[i]);
    if i == n - 2 {
        assert(joined_offset(ids, i) + ids[i].len() == jd.len());
        assert(joined(ids).subrange(jd.len() as int, jd.len() + 2int) =~= ", "@);
    } else {
        lemma_joined_sep(d, i);
        lemma_joined_offset_prefix(ids, i + 1);
        lemma_joined_offset_mono(d, i + 1, d.len() - 1);
        lemma_subrange_of_prefix(jd, ", "@ + ids.last(), joined_offset(ids, i) + ids[i].len(), joined_offset(ids, i + 1));
        assert(jd + ", "@ + ids.last() =~= jd + (", "@ + ids.last()));
    }
}

/// The ids joined by ", " hold every id, in order, each at its place,
/// with ", " between two neighbours and nothing else.
pub proof fn lemma_joined_holds_each_id(ids: Seq<Seq<char>>)
    ensures
        ids.len() == 0 ==> joined(ids).len() == 0,
        ids.len() > 0 ==> joined(ids).len() == joined_offset(ids, ids.len() - 1) + ids.last().len(),
        forall|i: int| 0 <= i < ids.len() ==> joined(ids).subrange(joined_offset(ids, i), joined_offset(ids, i) + ids[i].len())
            == #[trigger] ids[i],
        forall|i: int| 0 <= i < ids.len() - 1 ==> joined(ids).subrange(joined_offset(ids, i) + ids[i].len(),
            #[trigger] joined_offset(ids, i + 1)) == ", "@,
{
    lemma_joined_len(ids);
    assert forall|i: int| 0 <= i < ids.len() implies joined(ids).subrange(joined_offset(ids, i), joined_offset(ids, i) + ids[i].len())
        == #[trigger] ids[i] by {
        lemma_joined_id(ids, i);
    }
    assert forall|i: int| 0 <= i < ids.len() - 1 implies joined(ids).subrange(joined_offset(ids, i) + ids[i].len(),
        #[trigger] joined_offset(ids, i + 1)) == ", "@ by {
        lemma_joined_sep(ids, i);
    }
}

proof fn lemma_joined_offset_prefix(ids: Seq<Seq<char>>, k: int)
    requires
        0 <= k < ids.len(),
    ensures
        joined_offset(ids.drop_last(), k) == joined_offset(ids, k),
        joined_offset(ids, k) >= 0,
    decreases k,
{
    if k > 0 {
        lemma_joined_offset_prefix(ids, k - 1);
    }
}

proof fn lemma_joined_offset_mono(ids: Seq<Seq<char>>, i: int, k: int)
    requires
        0 <= i <= k + 1,
        0 <= k < ids.len(),
    ensures
        joined_offset(ids, i) <= joined_offset(ids, k) + ids[k].len() + 2,
        i <= k ==> joined_offset(ids, i) + ids[i].len() <= joined_offset(ids, k) + ids[k].len(),
    decreases k + 1 - i,
{
    if i <= k {
        lemma_joined_offset_mono(ids, i + 1, k);
    }
}

/// The value bound under a column name: the first one named so.
pub open spec fn column(v: Seq<(Seq<char>, ValueView)>, name: Seq<char>) -> Option<ValueView>
    decreases v.len(),
{
    if v.len() == 0 {
        None
    } else if v[0].0 == name {
        Some(v[0].1)
    } else {
        column(v.drop_first(), name)
    }
}

/// An element is stored with each of its fields under its own column: its
/// id, its twin, its name, and its parent exactly when it has one; no other
/// value is bound.
pub proof fn lemma_element_columns(e: Element)
    ensures
        column(element_values(e), "id"@) == Some(ValueView::Uuid(e.id)),
        column(element_values(e), "twin"@) == Some(ValueView::Uuid(e.twin)),
        column(element_values(e), "name"@) == Some(ValueView::Text(e.name@)),
        column(element_values(e), "parent"@) == (match e.parent {
            Some(p) => Some(ValueView::Uuid(p)),
            None => None::<ValueView>,
        }),
        element_values(e).len() == (if e.parent is Some { 4nat } else { 3nat }),
{
    reveal_strlit("id");
    reveal_strlit("twin");
    reveal_strlit("name");
    reveal_strlit("parent");
    reveal_with_fuel(column, 5);
    let v = element_values(e);
    assert(v.drop_first().drop_first().drop_first().len() == v.len() - 3);
    assert("id"@.len() == 2 && "twin"@.len() == 4 && "name"@.len() == 4 && "parent"@.len() == 6);
    assert("twin"@[0] != "name"@[0]);
    assert("id"@ != "twin"@ && "id"@ != "name"@ && "id"@ != "parent"@);
    assert("twin"@ != "name"@);
    assert("twin"@ != "parent"@ && "name"@ != "parent"@);
    assert(v.drop_first()[0] == v[1]);
    assert(v.drop_first().drop_first()[0] == v[2]);
    if e.parent is Some {
        assert(v.drop_first().drop_first().drop_first()[0] == v[3]);
        assert(v.drop_first().drop_first().drop_first().drop_first().len() == 0);
    } else {
        assert(v.drop_first().drop_first().drop_first().len() == 0);
    }
}

} // verus!
