use tk::error::{Error, Malformed};
use tk::header::{read_ticket, HeaderFields};
use tk::types::{Frontmatter, Status, Ticket, TicketType, Timestamp};

fn at(secs: i64) -> Timestamp {
    Timestamp { secs, nanos: 0 }
}

fn bare(id: &str) -> HeaderFields {
    HeaderFields {
        id: Some(id.to_string()),
        status: None,
        deps: vec![],
        created: Some(at(7)),
        updated: None,
        closed: None,
        ticket_type: None,
        priority: None,
        assignee: None,
        parent: None,
        tags: vec![],
    }
}

#[test]
fn absent_fields_have_their_defaults() {
    let meta = Frontmatter::from_fields(bare("tk-a1b2")).unwrap();
    assert_eq!(meta.id, "tk-a1b2");
    assert_eq!(meta.status, Status::Open);
    assert_eq!(meta.ticket_type, TicketType::Feat);
    assert_eq!(meta.priority, 2);
    assert_eq!(meta.created, at(7));
    assert_eq!(meta.updated, None);
    assert_eq!(meta.closed, None);
    assert_eq!(meta.assignee, None);
    assert_eq!(meta.parent, None);
    assert!(meta.deps.is_empty());
    assert!(meta.tags.is_empty());
}

#[test]
fn fields_are_taken_as_they_stand() {
    let mut fields = bare("tk-a1b2.1");
    fields.status = Some("inprogress".to_string());
    fields.ticket_type = Some("bug".to_string());
    fields.priority = Some(0);
    fields.deps = vec!["tk-x".to_string(), "tk-y".to_string()];
    fields.tags = vec!["ui".to_string()];
    fields.updated = Some(at(9));
    fields.closed = Some(at(8));
    fields.assignee = Some("ada".to_string());
    fields.parent = Some("tk-a1b2".to_string());
    let meta = Frontmatter::from_fields(fields).unwrap();
    assert_eq!(meta.status, Status::InProgress);
    assert_eq!(meta.ticket_type, TicketType::Fix);
    assert_eq!(meta.priority, 0);
    assert_eq!(meta.deps, vec!["tk-x", "tk-y"]);
    assert_eq!(meta.tags, vec!["ui"]);
    assert_eq!(meta.updated, Some(at(9)));
    assert_eq!(meta.closed, Some(at(8)));
    assert_eq!(meta.assignee, Some("ada".to_string()));
    assert_eq!(meta.parent, Some("tk-a1b2".to_string()));
}

#[test]
fn a_header_needs_an_id_and_a_time_of_making() {
    let mut fields = bare("x");
    fields.id = None;
    assert_eq!(Frontmatter::from_fields(fields), Err(Error::Parse(Malformed::MissingId)));
    let mut fields = bare("x");
    fields.created = None;
    assert_eq!(Frontmatter::from_fields(fields), Err(Error::Parse(Malformed::MissingCreated)));
    let mut fields = bare("x");
    fields.id = None;
    fields.created = None;
    fields.status = Some("bogus".to_string());
    assert_eq!(Frontmatter::from_fields(fields), Err(Error::Parse(Malformed::MissingId)));
}

#[test]
fn status_and_type_must_be_known() {
    let mut fields = bare("x");
    fields.status = Some("bogus".to_string());
    fields.ticket_type = Some("bogus".to_string());
    assert_eq!(Frontmatter::from_fields(fields), Err(Error::Parse(Malformed::UnknownStatus)));
    let mut fields = bare("x");
    fields.ticket_type = Some("bogus".to_string());
    assert_eq!(Frontmatter::from_fields(fields), Err(Error::Parse(Malformed::UnknownType)));
}

#[test]
fn a_header_is_read_back_from_its_fields() {
    let mut t = Ticket::new_at("tk-a1b2".to_string(), "T".to_string(), at(5));
    for status in [Status::Open, Status::InProgress, Status::Closed, Status::Archived] {
        for kind in [
            TicketType::Feat,
            TicketType::Fix,
            TicketType::Chore,
            TicketType::Docs,
            TicketType::Refactor,
            TicketType::Test,
        ] {
            t.meta.status = status;
            t.meta.ticket_type = kind;
            t.meta.priority = 4;
            t.meta.deps = vec!["tk-b".to_string()];
            t.meta.tags = vec!["x".to_string(), "y".to_string()];
            t.meta.updated = Some(at(6));
            t.meta.parent = Some("tk-p".to_string());
            let fields = t.meta.to_fields();
            assert_eq!(fields.status, Some(status.as_str().to_string()));
            assert_eq!(fields.ticket_type, Some(kind.as_str().to_string()));
            assert_eq!(fields.priority, Some(4));
            assert_eq!(Frontmatter::from_fields(fields), Ok(t.meta.clone()));
        }
    }
}

#[test]
fn a_ticket_is_made_of_fields_and_text() {
    let t = read_ticket(bare("tk-a1b2"), "# Title\n\nBody\n").unwrap();
    assert_eq!(t.id(), "tk-a1b2");
    assert_eq!(t.title, "Title");
    assert_eq!(t.body, "Body\n");
    let t = read_ticket(bare("tk-a1b2"), "just text").unwrap();
    assert_eq!(t.title, "Untitled");
    assert_eq!(t.body, "just text");
    let mut fields = bare("x");
    fields.id = None;
    assert_eq!(read_ticket(fields, "# T"), Err(Error::Parse(Malformed::MissingId)));
}
