use tk::error::{Error, Invalid};
use tk::types::{
    clone_names, has_name, is_blocking, position, Note, Status, Ticket, TicketType, Timestamp,
};

fn at(secs: i64) -> Timestamp {
    Timestamp { secs, nanos: 0 }
}

fn ticket(id: &str, status: Status, deps: &[&str]) -> Ticket {
    let mut t = Ticket::new_at(id.to_string(), format!("Ticket {}", id), at(1_700_000_000));
    t.meta.status = status;
    t.meta.deps = deps.iter().map(|d| d.to_string()).collect();
    t
}

#[test]
fn a_status_has_its_names() {
    assert_eq!(Status::from_str("open"), Ok(Status::Open));
    assert_eq!(Status::from_str("in-progress"), Ok(Status::InProgress));
    assert_eq!(Status::from_str("in_progress"), Ok(Status::InProgress));
    assert_eq!(Status::from_str("inprogress"), Ok(Status::InProgress));
    assert_eq!(Status::from_str("started"), Ok(Status::InProgress));
    assert_eq!(Status::from_str("closed"), Ok(Status::Closed));
    assert_eq!(Status::from_str("done"), Ok(Status::Closed));
    assert_eq!(Status::from_str("archived"), Ok(Status::Archived));
}

#[test]
fn names_are_read_in_any_case() {
    assert_eq!(Status::from_str("OPEN"), Ok(Status::Open));
    assert_eq!(Status::from_str("In-Progress"), Ok(Status::InProgress));
    assert_eq!(TicketType::from_str("FEAT"), Ok(TicketType::Feat));
    assert_eq!(TicketType::from_str("Bug"), Ok(TicketType::Fix));
    assert_eq!(TicketType::from_str("tas\u{212A}"), Ok(TicketType::Feat));
}

#[test]
fn an_unknown_status_is_turned_down() {
    for name in ["", "opened", " open", "open ", "clos", "in progress", "\u{f6}pen"] {
        assert_eq!(Status::from_str(name), Err(Error::InvalidInput(Invalid::Status)));
    }
}

#[test]
fn a_type_has_its_names_and_old_names() {
    assert_eq!(TicketType::from_str("feat"), Ok(TicketType::Feat));
    assert_eq!(TicketType::from_str("feature"), Ok(TicketType::Feat));
    assert_eq!(TicketType::from_str("fix"), Ok(TicketType::Fix));
    assert_eq!(TicketType::from_str("bug"), Ok(TicketType::Fix));
    assert_eq!(TicketType::from_str("chore"), Ok(TicketType::Chore));
    assert_eq!(TicketType::from_str("docs"), Ok(TicketType::Docs));
    assert_eq!(TicketType::from_str("refactor"), Ok(TicketType::Refactor));
    assert_eq!(TicketType::from_str("test"), Ok(TicketType::Test));
    assert_eq!(TicketType::from_str("task"), Ok(TicketType::Feat));
    assert_eq!(TicketType::from_str("epic"), Ok(TicketType::Feat));
}

#[test]
fn an_unknown_type_is_turned_down() {
    for name in ["", "feats", "story", "doc"] {
        assert_eq!(TicketType::from_str(name), Err(Error::InvalidInput(Invalid::Type)));
    }
}

#[test]
fn statuses_and_types_are_written_in_lower_case() {
    assert_eq!(Status::Open.as_str(), "open");
    assert_eq!(Status::InProgress.as_str(), "in-progress");
    assert_eq!(Status::Closed.as_str(), "closed");
    assert_eq!(Status::Archived.as_str(), "archived");
    for status in [Status::Open, Status::InProgress, Status::Closed, Status::Archived] {
        assert_eq!(Status::from_str(status.as_str()), Ok(status));
    }
    for kind in [
        TicketType::Feat,
        TicketType::Fix,
        TicketType::Chore,
        TicketType::Docs,
        TicketType::Refactor,
        TicketType::Test,
    ] {
        assert_eq!(TicketType::from_str(kind.as_str()), Ok(kind));
    }
    assert_eq!(TicketType::Refactor.as_str(), "refactor");
    assert_eq!(Status::Open.marker(), ' ');
    assert_eq!(Status::InProgress.marker(), '*');
    assert_eq!(Status::Closed.marker(), 'x');
    assert_eq!(Status::Archived.marker(), 'a');
    assert_eq!(Status::default(), Status::Open);
    assert_eq!(TicketType::default(), TicketType::Feat);
}

#[test]
fn a_new_ticket_is_open_and_bare() {
    let t = Ticket::new_at("tk-a1b2".to_string(), "Title".to_string(), at(5));
    assert_eq!(t.id(), "tk-a1b2");
    assert_eq!(t.title, "Title");
    assert_eq!(t.body, "");
    assert_eq!(t.meta.status, Status::Open);
    assert_eq!(t.meta.ticket_type, TicketType::Feat);
    assert_eq!(t.meta.priority, 2);
    assert_eq!(t.meta.created, at(5));
    assert_eq!(t.meta.updated, None);
    assert_eq!(t.meta.closed, None);
    assert_eq!(t.meta.assignee, None);
    assert_eq!(t.meta.parent, None);
    assert!(t.meta.deps.is_empty());
    assert!(t.meta.tags.is_empty());
    assert!(t.is_open());
}

#[test]
fn a_ticket_made_now_has_the_time_of_the_clock() {
    let before = Timestamp::now();
    let mut t = Ticket::new("tk-1".to_string(), "T".to_string());
    assert!(!t.meta.created.is_before(&before));
    assert!(t.meta.created.secs > 1_600_000_000);
    assert_eq!(t.meta.updated, None);
    t.touch();
    let updated = t.meta.updated.unwrap();
    assert!(!updated.is_before(&t.meta.created));
    assert_eq!(t.id(), "tk-1");
    assert_eq!(t.title, "T");
}

#[test]
fn touching_sets_the_time_of_the_last_change_only() {
    let mut t = ticket("tk-1", Status::Closed, &["tk-2"]);
    let copy = t.clone();
    t.touch_at(at(77));
    assert_eq!(t.meta.updated, Some(at(77)));
    t.meta.updated = None;
    assert_eq!(t, copy);
}

#[test]
fn open_and_in_progress_tickets_are_open() {
    assert!(ticket("a", Status::Open, &[]).is_open());
    assert!(ticket("a", Status::InProgress, &[]).is_open());
    assert!(!ticket("a", Status::Closed, &[]).is_open());
    assert!(!ticket("a", Status::Archived, &[]).is_open());
}

#[test]
fn an_open_dependency_blocks() {
    let all = vec![
        ticket("a", Status::Open, &[]),
        ticket("b", Status::Open, &["a"]),
        ticket("c", Status::Closed, &[]),
        ticket("d", Status::Open, &["c"]),
        ticket("e", Status::Open, &["gone"]),
        ticket("f", Status::Open, &["c", "gone", "g"]),
        ticket("g", Status::InProgress, &[]),
        ticket("h", Status::Open, &["i"]),
        ticket("i", Status::Archived, &[]),
    ];
    let blocked: Vec<bool> = all.iter().map(|t| t.is_blocked_by(&all)).collect();
    assert_eq!(blocked, vec![false, true, false, false, false, true, false, false, false]);
    assert!(is_blocking(&all, &"a".to_string()));
    assert!(!is_blocking(&all, &"c".to_string()));
    assert!(!is_blocking(&all, &"gone".to_string()));
}

#[test]
fn the_first_ticket_of_an_id_is_the_one_meant() {
    let all = vec![
        ticket("a", Status::Closed, &[]),
        ticket("a", Status::Open, &[]),
        ticket("b", Status::Open, &["a"]),
    ];
    assert_eq!(position(&all, &"a".to_string()), Some(0));
    assert_eq!(position(&all, &"b".to_string()), Some(2));
    assert_eq!(position(&all, &"c".to_string()), None);
    assert!(!all[2].is_blocked_by(&all));
}

#[test]
fn times_are_ordered() {
    let a = Timestamp { secs: 10, nanos: 5 };
    let b = Timestamp { secs: 10, nanos: 6 };
    let c = Timestamp { secs: 11, nanos: 0 };
    let d = Timestamp { secs: -1, nanos: 999_999_999 };
    assert!(a.is_before(&b));
    assert!(b.is_before(&c));
    assert!(a.is_before(&c));
    assert!(d.is_before(&a));
    assert!(!a.is_before(&a));
    assert!(!b.is_before(&a));
    assert!(!c.is_before(&d));
}

#[test]
fn a_time_is_written_to_the_minute() {
    assert_eq!(at(1431648000).to_minute(), Some("2015-05-15 00:00".to_string()));
    assert_eq!(at(1431648000 + 3 * 3600 + 125).to_minute(), Some("2015-05-15 03:02".to_string()));
    assert_eq!(at(0).to_minute(), Some("1970-01-01 00:00".to_string()));
    assert_eq!(at(-1).to_minute(), Some("1969-12-31 23:59".to_string()));
    assert_eq!(at(i64::MAX).to_minute(), None);
    assert_eq!(Timestamp { secs: 0, nanos: 2_000_000_000 }.to_minute(), None);
}

#[test]
fn a_note_is_one_line() {
    let note = Note::new_at("Looked into it".to_string(), Some("ada".to_string()), at(1431648000));
    assert_eq!(note.format(), Some("[2015-05-15 00:00 ada] Looked into it".to_string()));
    assert_eq!(note.render("when"), "[when ada] Looked into it");
}

#[test]
fn a_note_without_author_is_anonymous() {
    let note = Note::new_at("x".to_string(), None, at(86400 * 365));
    assert_eq!(note.format(), Some("[1971-01-01 00:00 anonymous] x".to_string()));
}

#[test]
fn a_note_out_of_the_calendar_has_no_line() {
    let note = Note::new_at("x".to_string(), None, at(i64::MIN));
    assert_eq!(note.format(), None);
}

#[test]
fn a_note_written_now_can_be_formatted() {
    let note = Note::new("hello".to_string(), Some("me".to_string()));
    assert_eq!(note.content, "hello");
    assert_eq!(note.author, Some("me".to_string()));
    let line = note.format().unwrap();
    assert!(line.starts_with("[20"));
    assert!(line.ends_with(" me] hello"));
    assert_eq!(line.len(), "[2015-05-15 00:00 me] hello".len());
}

#[test]
fn lists_of_strings_are_copied_and_searched() {
    let v = vec!["a".to_string(), "bb".to_string()];
    assert_eq!(clone_names(&v), v);
    assert!(has_name(&v, &"bb".to_string()));
    assert!(!has_name(&v, &"b".to_string()));
}

#[test]
fn the_time_of_the_clock_can_be_written() {
    let now = Timestamp::now();
    let text = now.to_minute().unwrap();
    assert_eq!(text.len(), "2015-05-15 00:00".len());
    assert!(text.starts_with("20"));
    assert!(now.nanos < 1_000_000_000);
}
