use tk::commands::{
    add_dependency, add_note, append_line, archive, close, create, delete, draft, edit,
    note_text, parse_tags, remove_dependency, set_status, unarchive,
};
use tk::error::{Error, Invalid, Missing};
use tk::storage::Storage;
use tk::types::{Note, Status, Ticket, TicketType, Timestamp};

fn at(secs: i64) -> Timestamp {
    Timestamp { secs, nanos: 0 }
}

fn ticket(id: &str) -> Ticket {
    Ticket::new_at(id.to_string(), format!("Ticket {}", id), at(1_700_000_000))
}

fn store(active: &[&str], archived: &[&str]) -> Storage {
    let mut s = Storage::new();
    s.init();
    for id in active {
        assert!(s.adopt(ticket(id), false));
    }
    for id in archived {
        assert!(s.adopt(ticket(id), true));
    }
    s
}

fn ids(tickets: &[Ticket]) -> Vec<String> {
    tickets.iter().map(|t| t.id().to_string()).collect()
}

#[test]
fn a_draft_needs_a_title_line() {
    assert_eq!(draft("# Title\n\nBody\n"), Ok(("Title".to_string(), "Body".to_string())));
    assert_eq!(draft("\n\n  # Title  \n"), Ok(("Title".to_string(), "".to_string())));
    assert_eq!(draft(""), Err(Error::InvalidInput(Invalid::EmptyInput)));
    assert_eq!(draft(" \n\t"), Err(Error::InvalidInput(Invalid::EmptyInput)));
    assert_eq!(draft("Title\nBody"), Err(Error::InvalidInput(Invalid::MissingTitle)));
    assert_eq!(draft("#Title"), Err(Error::InvalidInput(Invalid::MissingTitle)));
    assert_eq!(draft("# Untitled\nBody"), Ok(("Untitled".to_string(), "Body".to_string())));
}

#[test]
fn a_heading_mark_with_nothing_after_it_passes_as_untitled() {
    assert_eq!(draft("# \nBody"), Ok(("Untitled".to_string(), "# \nBody".to_string())));
}

#[test]
fn tags_are_split_at_commas() {
    assert_eq!(parse_tags(Some("ui, urgent ,x")), vec!["ui", "urgent", "x"]);
    assert_eq!(parse_tags(Some("")), vec![""]);
    assert_eq!(parse_tags(None), Vec::<String>::new());
}

#[test]
fn a_typed_note_is_trimmed_and_must_not_be_empty() {
    assert_eq!(note_text("  hello\nworld \n"), Ok("hello\nworld".to_string()));
    assert_eq!(note_text(" \n"), Err(Error::InvalidInput(Invalid::EmptyNote)));
    assert_eq!(note_text(""), Err(Error::InvalidInput(Invalid::EmptyNote)));
}

#[test]
fn creating_saves_a_new_ticket() {
    let mut s = store(&["tk-old1"], &[]);
    let t = create(&mut s, "# Add login\n\nWith a form.\n", 1, "bug", None, Some("ui, auth"), at(42)).unwrap();
    assert!(t.id().starts_with("tk-"));
    assert_eq!(t.id().len(), 7);
    assert_ne!(t.id(), "tk-old1");
    assert_eq!(t.title, "Add login");
    assert_eq!(t.body, "With a form.");
    assert_eq!(t.meta.priority, 1);
    assert_eq!(t.meta.ticket_type, TicketType::Fix);
    assert_eq!(t.meta.tags, vec!["ui", "auth"]);
    assert_eq!(t.meta.status, Status::Open);
    assert_eq!(t.meta.created, at(42));
    assert_eq!(t.meta.updated, None);
    assert_eq!(t.meta.parent, None);
    assert!(t.meta.deps.is_empty());
    assert_eq!(s.load(t.id()), Some(t.clone()));
    assert_eq!(s.all_ids(), vec!["tk-old1".to_string(), t.id().to_string()]);
}

#[test]
fn a_child_gets_the_next_number_of_its_parent() {
    let mut s = store(&["tk-a1b2", "tk-a1b2.1", "tk-zz"], &["tk-a1b2.2"]);
    let t = create(&mut s, "# Child", 2, "feat", Some("tk-a1b2"), None, at(1)).unwrap();
    assert_eq!(t.id(), "tk-a1b2.3");
    assert_eq!(t.meta.parent, Some("tk-a1b2".to_string()));
    assert!(t.meta.tags.is_empty());
    let u = create(&mut s, "# Grandchild", 2, "feat", Some("tk-a1b2.3"), None, at(2)).unwrap();
    assert_eq!(u.id(), "tk-a1b2.3.1");
    assert_eq!(u.meta.parent, Some("tk-a1b2.3".to_string()));
}

#[test]
fn creating_fails_on_bad_input_before_anything_is_saved() {
    let mut s = store(&["tk-a", "tk-b"], &[]);
    assert_eq!(create(&mut s, "  ", 2, "feat", None, None, at(1)), Err(Error::InvalidInput(Invalid::EmptyInput)));
    assert_eq!(create(&mut s, "no title", 2, "feat", None, None, at(1)), Err(Error::InvalidInput(Invalid::MissingTitle)));
    assert_eq!(create(&mut s, "# T", 2, "nonsense", None, None, at(1)), Err(Error::InvalidInput(Invalid::Type)));
    assert_eq!(create(&mut s, "# T", 2, "feat", Some("tk-x"), None, at(1)), Err(Error::NotFound(Missing::Parent)));
    assert_eq!(create(&mut s, "# T", 2, "feat", Some("tk-"), None, at(1)), Err(Error::AmbiguousReference { matches: 2 }));
    // the input is looked at first, then the parent, then the type
    assert_eq!(create(&mut s, "", 2, "nonsense", Some("tk-x"), None, at(1)), Err(Error::InvalidInput(Invalid::EmptyInput)));
    assert_eq!(create(&mut s, "# T", 2, "nonsense", Some("tk-x"), None, at(1)), Err(Error::NotFound(Missing::Parent)));
    assert_eq!(s.all_ids(), vec!["tk-a", "tk-b"]);
}

#[test]
fn a_parent_with_all_numbers_taken_has_no_more_children() {
    let mut s = store(&["tk-a", "tk-a.4294967295"], &[]);
    assert_eq!(create(&mut s, "# T", 2, "feat", Some("tk-a"), None, at(1)), Err(Error::ChildLimit));
    assert_eq!(s.all_ids().len(), 2);
}

#[test]
fn setting_a_status_touches_the_ticket() {
    let mut s = store(&["tk-a1", "tk-b2"], &[]);
    let t = set_status(&mut s, "tk-a", "in-progress", at(9)).unwrap();
    assert_eq!(t.meta.status, Status::InProgress);
    assert_eq!(t.meta.updated, Some(at(9)));
    assert_eq!(t.meta.closed, None);
    assert_eq!(s.load("tk-a1"), Some(t));
    let t = set_status(&mut s, "tk-b", "done", at(10)).unwrap();
    assert_eq!(t.meta.status, Status::Closed);
    assert_eq!(t.meta.closed, Some(at(10)));
    let t = set_status(&mut s, "tk-b", "open", at(11)).unwrap();
    assert_eq!(t.meta.status, Status::Open);
    assert_eq!(t.meta.closed, Some(at(10)));
    assert_eq!(t.meta.updated, Some(at(11)));
    assert_eq!(set_status(&mut s, "tk-a", "bogus", at(9)), Err(Error::InvalidInput(Invalid::Status)));
    assert_eq!(set_status(&mut s, "tk-x", "open", at(9)), Err(Error::NotFound(Missing::Ticket)));
    assert_eq!(set_status(&mut s, "tk-x", "bogus", at(9)), Err(Error::NotFound(Missing::Ticket)));
    assert_eq!(set_status(&mut s, "tk-", "open", at(9)), Err(Error::AmbiguousReference { matches: 2 }));
}

#[test]
fn closing_records_when() {
    let mut s = store(&["tk-a1"], &[]);
    let t = close(&mut s, "tk-a1", at(100)).unwrap();
    assert_eq!(t.meta.status, Status::Closed);
    assert_eq!(t.meta.closed, Some(at(100)));
    assert_eq!(t.meta.updated, Some(at(100)));
    assert!(!s.load("tk-a1").unwrap().is_open());
    assert_eq!(close(&mut s, "nope", at(1)), Err(Error::NotFound(Missing::Ticket)));
}

#[test]
fn dependencies_are_added_once() {
    let mut s = store(&["tk-a1", "tk-b2", "tk-c3"], &[]);
    let t = add_dependency(&mut s, "tk-a", "tk-b", at(5)).unwrap();
    assert_eq!(t.meta.deps, vec!["tk-b2"]);
    assert_eq!(t.meta.updated, Some(at(5)));
    let t = add_dependency(&mut s, "tk-a1", "tk-c3", at(6)).unwrap();
    assert_eq!(t.meta.deps, vec!["tk-b2", "tk-c3"]);
    assert_eq!(s.load("tk-a1").unwrap().meta.deps, vec!["tk-b2", "tk-c3"]);
    assert_eq!(add_dependency(&mut s, "tk-a1", "tk-b", at(7)), Err(Error::InvalidInput(Invalid::DuplicateDependency)));
    assert_eq!(add_dependency(&mut s, "tk-a1", "tk-a1", at(7)), Err(Error::InvalidInput(Invalid::SelfDependency)));
    assert_eq!(add_dependency(&mut s, "tk-a1", "tk-zz", at(7)), Err(Error::NotFound(Missing::Dependency)));
    assert_eq!(add_dependency(&mut s, "tk-zz", "tk-a1", at(7)), Err(Error::NotFound(Missing::Ticket)));
    assert_eq!(s.load("tk-a1").unwrap().meta.updated, Some(at(6)));
}

#[test]
fn dependencies_are_removed_if_listed() {
    let mut s = store(&["tk-a1", "tk-b2", "tk-c3"], &[]);
    add_dependency(&mut s, "tk-a1", "tk-b2", at(1)).unwrap();
    add_dependency(&mut s, "tk-a1", "tk-c3", at(2)).unwrap();
    let t = remove_dependency(&mut s, "tk-a1", "tk-b", at(3)).unwrap();
    assert_eq!(t.meta.deps, vec!["tk-c3"]);
    assert_eq!(t.meta.updated, Some(at(3)));
    assert_eq!(remove_dependency(&mut s, "tk-a1", "tk-b2", at(4)), Err(Error::InvalidInput(Invalid::UnknownDependency)));
    assert_eq!(remove_dependency(&mut s, "tk-a1", "tk-q", at(4)), Err(Error::NotFound(Missing::Dependency)));
    assert_eq!(remove_dependency(&mut s, "tk-q", "tk-b2", at(4)), Err(Error::NotFound(Missing::Ticket)));
    assert_eq!(s.load("tk-a1").unwrap().meta.deps, vec!["tk-c3"]);
}

#[test]
fn editing_replaces_title_and_text() {
    let mut s = store(&["tk-a1"], &[]);
    let t = edit(&mut s, "tk-a", "  # New title\n\nNew body\nmore\n").unwrap();
    assert_eq!(t.title, "New title");
    assert_eq!(t.body, "New body\nmore");
    assert_eq!(t.meta.updated, None);
    assert_eq!(s.load("tk-a1"), Some(t));
    assert_eq!(edit(&mut s, "tk-a", "nothing"), Err(Error::InvalidInput(Invalid::MissingTitle)));
    assert_eq!(edit(&mut s, "tk-a", ""), Err(Error::InvalidInput(Invalid::EmptyInput)));
    assert_eq!(edit(&mut s, "tk-x", "# T"), Err(Error::NotFound(Missing::Ticket)));
    assert_eq!(s.load("tk-a1").unwrap().title, "New title");
}

#[test]
fn a_line_is_added_after_an_empty_line() {
    let mut body = String::new();
    append_line(&mut body, "first");
    assert_eq!(body, "first");
    append_line(&mut body, "second");
    assert_eq!(body, "first\n\nsecond");
    let mut body = "text\n".to_string();
    append_line(&mut body, "note");
    assert_eq!(body, "text\n\nnote");
}

#[test]
fn a_note_is_added_to_the_text() {
    let mut s = store(&["tk-a1"], &[]);
    let note = Note::new_at("first".to_string(), Some("ada".to_string()), at(1431648000));
    let t = add_note(&mut s, "tk-a", &note, at(10)).unwrap();
    assert_eq!(t.body, "[2015-05-15 00:00 ada] first");
    assert_eq!(t.meta.updated, Some(at(10)));
    let note = Note::new_at("second".to_string(), None, at(1431648060));
    let t = add_note(&mut s, "tk-a", &note, at(11)).unwrap();
    assert_eq!(t.body, "[2015-05-15 00:00 ada] first\n\n[2015-05-15 00:01 anonymous] second");
    assert_eq!(s.load("tk-a1"), Some(t));
    let lost = Note::new_at("x".to_string(), None, at(i64::MAX));
    assert_eq!(add_note(&mut s, "tk-a", &lost, at(12)), Err(Error::InvalidInput(Invalid::Timestamp)));
    assert_eq!(add_note(&mut s, "tk-x", &note, at(12)), Err(Error::NotFound(Missing::Ticket)));
    assert_eq!(s.load("tk-a1").unwrap().meta.updated, Some(at(11)));
}

#[test]
fn archiving_and_taking_back_restores_the_ticket() {
    let mut s = store(&["tk-a1", "tk-b2"], &[]);
    let before = s.load("tk-a1").unwrap();
    let away = archive(&mut s, "tk-a", at(50)).unwrap();
    assert_eq!(away.meta.status, Status::Archived);
    assert_eq!(away.meta.updated, Some(at(50)));
    assert_eq!(ids(&s.load_all()), vec!["tk-b2"]);
    assert_eq!(ids(&s.load_all_with_archived()), vec!["tk-b2", "tk-a1"]);
    assert_eq!(s.find_by_prefix("tk-a1").unwrap(), Some(away));
    let back = unarchive(&mut s, "tk-a1", at(60)).unwrap();
    assert_eq!(back.meta.status, Status::Open);
    assert_eq!(back.meta.updated, Some(at(60)));
    assert_eq!(ids(&s.load_all()), vec!["tk-b2", "tk-a1"]);
    assert_eq!(ids(&s.load_all_with_archived()), vec!["tk-b2", "tk-a1"]);
    assert_eq!(s.find_by_prefix("tk-a1").unwrap(), Some(back.clone()));
    let mut same = back;
    same.meta.updated = None;
    assert_eq!(same, before);
}

#[test]
fn an_archived_ticket_can_be_archived_again() {
    let mut s = store(&["tk-b2"], &["tk-a1"]);
    let away = archive(&mut s, "tk-a1", at(50)).unwrap();
    assert_eq!(away.meta.status, Status::Archived);
    assert_eq!(ids(&s.load_all()), vec!["tk-b2"]);
    assert_eq!(ids(&s.load_all_with_archived()), vec!["tk-b2", "tk-a1"]);
}

#[test]
fn only_archived_tickets_are_taken_back() {
    let mut s = store(&["tk-a1"], &["tk-z9"]);
    assert_eq!(unarchive(&mut s, "tk-a1", at(1)), Err(Error::NotFound(Missing::Ticket)));
    assert_eq!(unarchive(&mut s, "tk-z", at(1)), Err(Error::NotFound(Missing::Ticket)));
    assert_eq!(archive(&mut s, "tk-q", at(1)), Err(Error::NotFound(Missing::Ticket)));
    assert_eq!(ids(&s.load_all_with_archived()), vec!["tk-a1", "tk-z9"]);
}

#[test]
fn deleting_must_be_confirmed() {
    let mut s = store(&["tk-a1"], &["tk-z9"]);
    assert_eq!(delete(&mut s, "tk-a", false), Err(Error::NotConfirmed));
    assert_eq!(delete(&mut s, "tk-q", false), Err(Error::NotFound(Missing::Ticket)));
    assert_eq!(delete(&mut s, "tk-q", true), Err(Error::NotFound(Missing::Ticket)));
    assert_eq!(ids(&s.load_all_with_archived()), vec!["tk-a1", "tk-z9"]);
    assert_eq!(delete(&mut s, "tk-a", true).unwrap().id(), "tk-a1");
    assert_eq!(delete(&mut s, "tk-z", true).unwrap().id(), "tk-z9");
    assert!(s.load_all_with_archived().is_empty());
}
