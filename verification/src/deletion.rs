use vstd::prelude::*;
use vstd::string::*;
use crate::db::strings_view;
use crate::ids::{id_from_text, lemma_uuid_text_roundtrip, uuid_hyphenated, uuid_text};
use crate::models::{Element, Source};
use crate::replies::{Body, Reply, Response, handle_req_error, is_error, is_plain};
use crate::text::{push_char, text};

verus! {

/// A step of a deletion that the caller runs against the database.
#[derive(Debug, PartialEq)]
pub enum DeletionAction<T> {
    /// Delete the row of `table` with the id (as `delete_by_id` does).
    DeleteById { table: String, id: String },
    /// Delete the rows of `table` whose `column` holds the id.
    DeleteWhere { table: String, column: String, id: String },
    /// Read the sources of the element.
    ListSources { element_id: String },
    /// Delete the rows of `table` whose `column` holds one of the ids.
    DeleteWhereIn { table: String, column: String, ids: Vec<String> },
    /// Answer the request; the deletion is over.
    Answer(Reply<T>),
}

/// What a step of a deletion gave.
#[derive(Debug, PartialEq)]
pub enum DeletionEvent {
    Deleted(Result<String, (String, usize)>),
    Listed(Result<Vec<Source>, (String, usize)>),
}

/// The progress of the deletion of an element, its sources and their
/// readings; `message` gathers the reports so far, each ended by a newline.
#[derive(Debug, PartialEq)]
pub enum ElementDeletion {
    DeletingElement { id: String },
    ListingSources { id: String, message: String },
    DeletingSources { message: String, ids: Vec<String> },
    DeletingSourceData { message: String, ids: Vec<String> },
    Done,
}

/// The ids of the sources, as text.
pub open spec fn source_ids(v: Seq<Source>) -> Seq<Seq<char>> {
    v.map_values(|s: Source| uuid_hyphenated(s.id))
}

/// The event answers the step that the state waits for.
pub open spec fn element_event_fits(state: ElementDeletion, event: DeletionEvent) -> bool {
    match state {
        ElementDeletion::ListingSources { .. } => event is Listed,
        ElementDeletion::Done => false,
        _ => event is Deleted,
    }
}

/// The ids of sources as text.
pub fn ids_of_sources(v: &Vec<Source>) -> (r: Vec<String>)
    ensures
        strings_view(r@) == source_ids(v@),
        r@.len() == v@.len(),
        forall|i: int| 0 <= i < v@.len() ==> (#[trigger] r@[i])@ == uuid_hyphenated(v@[i].id),
{
    let mut r: Vec<String> = Vec::new();
    for i in 0..v.len()
        invariant
            strings_view(r@) =~= source_ids(v@).take(i as int),
    {
        let ghost old_r = r@;
        r.push(uuid_text(v[i].id));
        proof {
            assert(strings_view(r@) =~= strings_view(old_r).push(uuid_hyphenated(v@[i as int].id)));
        }
    }
    proof {
        assert(source_ids(v@).take(v@.len() as int) =~= source_ids(v@));
        lemma_source_ids(v@);
        assert forall|i: int| 0 <= i < v@.len() implies (#[trigger] r@[i])@ == uuid_hyphenated(v@[i].id) by {
            assert(strings_view(r@)[i] == r@[i]@);
        }
    }
    r
}

/// The ids handed to a deletion hold one id per listed source, in order,
/// each the text of that source's id, which reads back as that id.
pub proof fn lemma_source_ids(v: Seq<Source>)
    ensures
        source_ids(v).len() == v.len(),
        forall|i: int| 0 <= i < v.len() ==> #[trigger] source_ids(v)[i] == uuid_hyphenated(v[i].id),
        forall|i: int| 0 <= i < v.len() ==> id_from_text(#[trigger] source_ids(v)[i]) == Ok::<u128, (Seq<char>, usize)>(v[i].id),
{
    assert forall|i: int| 0 <= i < v.len() implies id_from_text(#[trigger] source_ids(v)[i]) == Ok::<u128, (Seq<char>, usize)>(v[i].id) by {
        lemma_uuid_text_roundtrip(v[i].id);
    }
}

fn with_line(message: String, line: &String) -> (r: String)
    ensures
        r@ == message@ + line@ + seq!['\n'],
{
    let mut m = message;
    m.append(line.as_str());
    push_char(&mut m, '\n');
    m
}

/// The first step of deleting an element: delete it.
pub fn delete_element_start(id: String) -> (r: (ElementDeletion, DeletionAction<Element>))
    ensures
        r.0 == (ElementDeletion::DeletingElement { id }),
        r.1 matches DeletionAction::DeleteById { table, id: i } && table@ == "element"@ && i == id,
{
    let i = id.clone();
    (ElementDeletion::DeletingElement { id }, DeletionAction::DeleteById { table: text("element"), id: i })
}

/// The next step of deleting an element, from what the last step gave.
/// Once the element is deleted its sources are read, then the sources are
/// deleted, then their readings; the answer gathers the reports, each on a
/// line.  A failed step is answered as an error and ends the deletion.
pub fn delete_element_next(state: ElementDeletion, event: DeletionEvent) -> (r: (ElementDeletion, DeletionAction<Element>))
    requires
        element_event_fits(state, event),
    ensures
        match (state, event) {
            (ElementDeletion::DeletingElement { id }, DeletionEvent::Deleted(Ok(m))) => {
                &&& r.0 matches ElementDeletion::ListingSources { id: i, message }
                &&& i == id
                &&& message@ == m@ + seq!['\n']
                &&& r.1 matches DeletionAction::ListSources { element_id } && element_id == id
            },
            (ElementDeletion::ListingSources { message, .. }, DeletionEvent::Listed(Ok(v))) => {
                &&& r.0 matches ElementDeletion::DeletingSources { message: m2, ids }
                &&& m2 == message
                &&& strings_view(ids@) == source_ids(v@)
                &&& r.1 matches DeletionAction::DeleteWhereIn { table, column, ids: ids2 }
                &&& table@ == "source"@ && column@ == "id"@ && ids2@ == ids@
            },
            (ElementDeletion::DeletingSources { message, ids }, DeletionEvent::Deleted(Ok(m))) => {
                &&& r.0 matches ElementDeletion::DeletingSourceData { message: m2, ids: ids2 }
                &&& m2@ == message@ + m@ + seq!['\n']
                &&& ids2@ == ids@
                &&& r.1 matches DeletionAction::DeleteWhereIn { table, column, ids: ids3 }
                &&& table@ == "source_data"@ && column@ == "source"@ && ids3@ == ids@
            },
            (ElementDeletion::DeletingSourceData { message, .. }, DeletionEvent::Deleted(Ok(m))) => {
                &&& r.0 == ElementDeletion::Done
                &&& r.1 matches DeletionAction::Answer(rep) && is_plain(rep, 200, message@ + m@ + seq!['\n'], true)
            },
            (_, DeletionEvent::Deleted(Err(e))) => {
                &&& r.0 == ElementDeletion::Done
                &&& r.1 matches DeletionAction::Answer(rep) && is_error(rep, e)
            },
            (_, DeletionEvent::Listed(Err(e))) => {
                &&& r.0 == ElementDeletion::Done
                &&& r.1 matches DeletionAction::Answer(rep) && is_error(rep, e)
            },
            _ => false,
        },
{
    match (state, event) {
        (ElementDeletion::DeletingElement { id }, DeletionEvent::Deleted(Ok(m))) => {
            let message = with_line(String::new(), &m);
            proof {
                assert(message@ =~= m@ + seq!['\n']);
            }
            let i = id.clone();
            (ElementDeletion::ListingSources { id, message }, DeletionAction::ListSources { element_id: i })
        },
        (ElementDeletion::ListingSources { message, .. }, DeletionEvent::Listed(Ok(v))) => {
            let ids = ids_of_sources(&v);
            let ids2 = clone_strings(&ids);
            (ElementDeletion::DeletingSources { message, ids }, DeletionAction::DeleteWhereIn {
                table: text("source"),
                column: text("id"),
                ids: ids2,
            })
        },
        (ElementDeletion::DeletingSources { message, ids }, DeletionEvent::Deleted(Ok(m))) => {
            let message = with_line(message, &m);
            let ids2 = clone_strings(&ids);
            (ElementDeletion::DeletingSourceData { message, ids }, DeletionAction::DeleteWhereIn {
                table: text("source_data"),
                column: text("source"),
                ids: ids2,
            })
        },
        (ElementDeletion::DeletingSourceData { message, .. }, DeletionEvent::Deleted(Ok(m))) => {
            let message = with_line(message, &m);
            (ElementDeletion::Done, DeletionAction::Answer(Reply {
                code: 200,
                body: Body::Plain(Response { message, status: true }),
            }))
        },
        (_, DeletionEvent::Deleted(Err((error, status)))) => {
            (ElementDeletion::Done, DeletionAction::Answer(handle_req_error(error, status)))
        },
        (_, DeletionEvent::Listed(Err((error, status)))) => {
            (ElementDeletion::Done, DeletionAction::Answer(handle_req_error(error, status)))
        },
        (ElementDeletion::ListingSources { message, .. }, DeletionEvent::Deleted(Ok(_))) => {
            (ElementDeletion::Done, DeletionAction::Answer(handle_req_error(message, 500)))
        },
        (ElementDeletion::Done, DeletionEvent::Deleted(Ok(m))) => {
            (ElementDeletion::Done, DeletionAction::Answer(handle_req_error(m, 500)))
        },
        (_, DeletionEvent::Listed(Ok(_))) => {
            (ElementDeletion::Done, DeletionAction::Answer(handle_req_error(String::new(), 500)))
        },
    }
}

/// A copy of a list of strings.
pub fn clone_strings(v: &Vec<String>) -> (r: Vec<String>)
    ensures
        r@ == v@,
{
    let mut r: Vec<String> = Vec::new();
    for i in 0..v.len()
        invariant
            r@ =~= v@.take(i as int),
    {
        r.push(v[i].clone());
    }
    proof {
        assert(r@ =~= v@);
    }
    r
}

/// The progress of the deletion of a source and its readings.
#[derive(Debug, PartialEq)]
pub enum SourceDeletion {
    DeletingSource { id: String },
    DeletingData { message: String },
    Done,
}

/// The first step of deleting a source: delete it.
pub fn delete_source_start(id: String) -> (r: (SourceDeletion, DeletionAction<Source>))
    ensures
        r.0 == (SourceDeletion::DeletingSource { id }),
        r.1 matches DeletionAction::DeleteById { table, id: i } && table@ == "source"@ && i == id,
{
    let i = id.clone();
    (SourceDeletion::DeletingSource { id }, DeletionAction::DeleteById { table: text("source"), id: i })
}

/// The next step of deleting a source: once it is deleted, its readings;
/// then the answer with the two reports on two lines.  A failed step is
/// answered as an error.
pub fn delete_source_next(state: SourceDeletion, event: Result<String, (String, usize)>) -> (r: (SourceDeletion, DeletionAction<Source>))
    requires
        !(state is Done),
    ensures
        match (state, event) {
            (SourceDeletion::DeletingSource { id }, Ok(m)) => {
                &&& r.0 == (SourceDeletion::DeletingData { message: m })
                &&& r.1 matches DeletionAction::DeleteWhere { table, column, id: i }
                &&& table@ == "source_data"@ && column@ == "source"@ && i == id
            },
            (SourceDeletion::DeletingData { message }, Ok(m)) => {
                &&& r.0 == SourceDeletion::Done
                &&& r.1 matches DeletionAction::Answer(rep) && is_plain(rep, 200, message@ + seq!['\n'] + m@, true)
            },
            (_, Err(e)) => {
                &&& r.0 == SourceDeletion::Done
                &&& r.1 matches DeletionAction::Answer(rep) && is_error(rep, e)
            },
            _ => false,
        },
{
    match (state, event) {
        (SourceDeletion::DeletingSource { id }, Ok(m)) => {
            let i = id.clone();
            (SourceDeletion::DeletingData { message: m }, DeletionAction::DeleteWhere {
                table: text("source_data"),
                column: text("source"),
                id: i,
            })
        },
        (SourceDeletion::DeletingData { message }, Ok(m)) => {
            let mut t = message;
            let ghost m0 = t@;
            push_char(&mut t, '\n');
            t.append(m.as_str());
            proof {
                assert(t@ =~= m0 + seq!['\n'] + m@);
            }
            (SourceDeletion::Done, DeletionAction::Answer(Reply {
                code: 200,
                body: Body::Plain(Response { message: t, status: true }),
            }))
        },
        (_, Err((error, status))) => (SourceDeletion::Done, DeletionAction::Answer(handle_req_error(error, status))),
        (SourceDeletion::Done, Ok(m)) => (SourceDeletion::Done, DeletionAction::Answer(handle_req_error(m, 500))),
    }
}

} // verus!
