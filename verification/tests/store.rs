use tk::error::{Error, Missing};
use tk::storage::{clone_tickets, resolve_prefix, Storage};
use tk::types::{Status, Ticket, Timestamp};

fn ticket(id: &str) -> Ticket {
    Ticket::new_at(
        id.to_string(),
        format!("Ticket {}", id),
        Timestamp { secs: 1_700_000_000, nanos: 0 },
    )
}

fn store(active: &[&str], archived: &[&str]) -> Storage {
    let mut s = Storage::new();
    s.init();
    for id in active {
        assert!(s.adopt(ticket(id), false));
    }
    for id in archived {
        assert!(s.adopt(ticket(id), true));
    }
    s
}

fn ids(tickets: &[Ticket]) -> Vec<String> {
    tickets.iter().map(|t| t.id().to_string()).collect()
}

#[test]
fn a_new_store_is_empty_and_not_set_up() {
    let mut s = Storage::new();
    assert!(!s.is_initialized());
    assert!(s.load_all().is_empty());
    assert!(s.load_all_with_archived().is_empty());
    assert!(s.all_ids().is_empty());
    assert_eq!(s.tickets_dir(), ".tickets");
    assert_eq!(s.archive_dir(), ".tickets/archive");
    assert!(s.init());
    assert!(s.is_initialized());
    assert!(!s.init());
    assert!(s.is_initialized());
}

#[test]
fn documents_have_their_paths() {
    let s = Storage::new();
    assert_eq!(s.ticket_path("tk-a1b2"), ".tickets/tk-a1b2.md");
    assert_eq!(s.archive_path("tk-a1b2"), ".tickets/archive/tk-a1b2.md");
    assert_eq!(s.ticket_path("tk-a1b2.3"), ".tickets/tk-a1b2.3.md");
    let t = Storage::at("/work/proj/.tickets".to_string());
    assert_eq!(t.ticket_path("x"), "/work/proj/.tickets/x.md");
    assert_eq!(t.archive_path("x"), "/work/proj/.tickets/archive/x.md");
    assert!(!t.is_initialized());
    let u = Storage::at("store/".to_string());
    assert_eq!(u.ticket_path("x"), "store/x.md");
    assert_eq!(u.archive_dir(), "store/archive");
    assert_eq!(Storage::at(String::new()).archive_path("x"), "archive/x.md");
}

#[test]
fn the_root_is_named_or_found_or_made() {
    let dirs = vec!["/a/b/c".to_string(), "/a/b".to_string(), "/a".to_string(), "/".to_string()];
    assert_eq!(Storage::locate_root(Some("/over/ride"), &dirs, &[true, true, true, true]), "/over/ride");
    assert_eq!(Storage::locate_root(None, &dirs, &[false, true, true, false]), "/a/b/.tickets");
    assert_eq!(Storage::locate_root(None, &dirs, &[false, false, false, true]), "/.tickets");
    assert_eq!(Storage::locate_root(None, &dirs, &[true, false, false, false]), "/a/b/c/.tickets");
    assert_eq!(Storage::locate_root(None, &dirs, &[false, false, false, false]), "/a/b/c/.tickets");
    assert_eq!(Storage::locate_root(None, &dirs, &[]), "/a/b/c/.tickets");
    assert_eq!(Storage::locate_root(None, &[], &[]), ".tickets");
}

#[test]
fn document_names_end_in_md() {
    for name in ["tk-a1b2.md", "a.md", "tk-a1b2.3.md", "..md"] {
        assert!(Storage::is_document_name(name), "{}", name);
    }
    for name in [".md", "md", "archive", "tk-a1b2.txt", "tk-a1b2.md.bak", "tk-a1b2md", ""] {
        assert!(!Storage::is_document_name(name), "{}", name);
    }
}

#[test]
fn a_prefix_of_several_ids_is_ambiguous() {
    let s = store(&["tk-ab12", "tk-ab99"], &[]);
    assert_eq!(s.find_by_prefix("tk-a").unwrap_err(), Error::AmbiguousReference { matches: 2 });
    assert_eq!(s.find_by_prefix("").unwrap_err(), Error::AmbiguousReference { matches: 2 });
}

#[test]
fn a_whole_id_is_never_ambiguous() {
    let s = store(&["tk-ab12", "tk-ab123", "tk-ab1234"], &["tk-ab12345"]);
    assert_eq!(s.find_by_prefix("tk-ab12").unwrap().unwrap().id(), "tk-ab12");
    assert_eq!(s.find_by_prefix("tk-ab123").unwrap().unwrap().id(), "tk-ab123");
    assert_eq!(s.find_by_prefix("tk-ab1").unwrap_err(), Error::AmbiguousReference { matches: 4 });
    assert_eq!(s.find_by_prefix("tk-ab12345").unwrap().unwrap().id(), "tk-ab12345");
}

#[test]
fn a_prefix_of_one_id_finds_it() {
    let s = store(&["tk-ab12", "tk-cd34"], &["tk-ef56"]);
    assert_eq!(s.find_by_prefix("tk-c").unwrap().unwrap().id(), "tk-cd34");
    assert_eq!(s.find_by_prefix("tk-e").unwrap().unwrap().id(), "tk-ef56");
    assert_eq!(s.find_by_prefix("tk-x").unwrap(), None);
    assert_eq!(s.find_by_prefix("k-ab").unwrap(), None);
    assert_eq!(Storage::new().find_by_prefix("tk").unwrap(), None);
}

#[test]
fn places_are_resolved_in_a_list() {
    let all = vec![ticket("tk-ab12"), ticket("tk-ab99"), ticket("tk-cd")];
    assert_eq!(resolve_prefix(&all, "tk-ab99"), Ok(Some(1)));
    assert_eq!(resolve_prefix(&all, "tk-c"), Ok(Some(2)));
    assert_eq!(resolve_prefix(&all, "tk-"), Err(Error::AmbiguousReference { matches: 3 }));
    assert_eq!(resolve_prefix(&all, "zz"), Ok(None));
    assert_eq!(ids(&clone_tickets(&all)), ids(&all));
}

#[test]
fn loading_finds_active_and_archived_tickets() {
    let s = store(&["a", "b"], &["c"]);
    assert_eq!(s.load("a").unwrap().id(), "a");
    assert_eq!(s.load("c").unwrap().id(), "c");
    assert_eq!(s.load("d"), None);
    assert_eq!(s.load("").map(|t| t.id().to_string()), None);
    assert_eq!(ids(&s.load_all()), vec!["a", "b"]);
    assert_eq!(ids(&s.load_all_with_archived()), vec!["a", "b", "c"]);
    assert_eq!(s.all_ids(), vec!["a", "b"]);
    assert_eq!(s.every_id(), vec!["a", "b", "c"]);
}

#[test]
fn a_ticket_of_a_known_id_is_not_adopted() {
    let mut s = store(&["a"], &["b"]);
    assert!(!s.adopt(ticket("a"), false));
    assert!(!s.adopt(ticket("a"), true));
    assert!(!s.adopt(ticket("b"), false));
    assert!(s.adopt(ticket("c"), true));
    assert_eq!(ids(&s.load_all_with_archived()), vec!["a", "b", "c"]);
}

#[test]
fn saving_replaces_or_adds() {
    let mut s = store(&["a", "b"], &[]);
    let mut changed = ticket("a");
    changed.title = "Changed".to_string();
    s.save(&changed);
    assert_eq!(ids(&s.load_all()), vec!["a", "b"]);
    assert_eq!(s.load("a").unwrap().title, "Changed");
    s.save(&ticket("c"));
    assert_eq!(ids(&s.load_all()), vec!["a", "b", "c"]);
}

#[test]
fn saving_an_archived_ticket_makes_it_active() {
    let mut s = store(&["a"], &["b", "c"]);
    s.save(&ticket("b"));
    assert_eq!(ids(&s.load_all()), vec!["a", "b"]);
    assert_eq!(ids(&s.load_all_with_archived()), vec!["a", "b", "c"]);
}

#[test]
fn archiving_moves_a_ticket_away_and_back() {
    let mut s = store(&["a", "b", "c"], &["z"]);
    assert_eq!(s.archive("b"), Ok(()));
    assert_eq!(ids(&s.load_all()), vec!["a", "c"]);
    assert_eq!(ids(&s.load_all_with_archived()), vec!["a", "c", "z", "b"]);
    assert_eq!(s.archive("b"), Err(Error::NotFound(Missing::Ticket)));
    assert_eq!(s.archive("nope"), Err(Error::NotFound(Missing::Ticket)));
    assert_eq!(s.unarchive("a"), Err(Error::NotFound(Missing::Ticket)));
    assert_eq!(s.unarchive("b"), Ok(()));
    assert_eq!(ids(&s.load_all()), vec!["a", "c", "b"]);
    assert_eq!(ids(&s.load_all_with_archived()), vec!["a", "c", "b", "z"]);
    assert_eq!(s.unarchive("b"), Err(Error::NotFound(Missing::Ticket)));
}

#[test]
fn archiving_takes_the_whole_id_only() {
    let mut s = store(&["tk-ab12"], &[]);
    assert_eq!(s.archive("tk-ab"), Err(Error::NotFound(Missing::Ticket)));
    assert_eq!(s.archive("tk-ab12"), Ok(()));
}

#[test]
fn deleting_removes_a_ticket_wherever_it_is() {
    let mut s = store(&["a", "b"], &["c"]);
    assert_eq!(s.delete("a"), Ok(()));
    assert_eq!(s.delete("c"), Ok(()));
    assert_eq!(s.delete("c"), Err(Error::NotFound(Missing::Ticket)));
    assert_eq!(s.delete("x"), Err(Error::NotFound(Missing::Ticket)));
    assert_eq!(ids(&s.load_all_with_archived()), vec!["b"]);
}

#[test]
fn a_loaded_ticket_is_a_copy() {
    let mut s = store(&["a"], &[]);
    let mut t = s.load("a").unwrap();
    t.meta.status = Status::Closed;
    assert_eq!(s.load("a").unwrap().meta.status, Status::Open);
    s.save(&t);
    assert_eq!(s.load("a").unwrap().meta.status, Status::Closed);
}
