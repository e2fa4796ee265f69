use tk::ready::{blocked, blocking, carries_tags, ready, select, Blocked};
use tk::types::{Status, Ticket, Timestamp};

fn ticket(id: &str, status: Status, deps: &[&str]) -> Ticket {
    let mut t = Ticket::new_at(
        id.to_string(),
        format!("Ticket {}", id),
        Timestamp { secs: 1_700_000_000, nanos: 0 },
    );
    t.meta.status = status;
    t.meta.deps = deps.iter().map(|d| d.to_string()).collect();
    t
}

fn ranked(id: &str, priority: u8, secs: i64, tags: &[&str]) -> Ticket {
    let mut t = ticket(id, Status::Open, &[]);
    t.meta.priority = priority;
    t.meta.created = Timestamp { secs, nanos: 0 };
    t.meta.tags = tags.iter().map(|d| d.to_string()).collect();
    t
}

fn ids(all: &[Ticket], places: &[usize]) -> Vec<String> {
    places.iter().map(|i| all[*i].id().to_string()).collect()
}

fn none() -> Vec<String> {
    Vec::new()
}

#[test]
fn ready_and_blocked_split_the_open_tickets() {
    let all = vec![
        ticket("A", Status::Open, &[]),
        ticket("B", Status::Open, &["A"]),
        ticket("C", Status::Closed, &[]),
        ticket("D", Status::Open, &["C"]),
    ];
    assert_eq!(ids(&all, &ready(&all, &none())), vec!["A", "D"]);
    let held = blocked(&all, &none());
    assert_eq!(held, vec![Blocked { index: 1, blocked_by: vec!["A".to_string()] }]);
}

#[test]
fn a_missing_dependency_does_not_block() {
    let all = vec![ticket("A", Status::Open, &["ghost"]), ticket("B", Status::InProgress, &["A", "ghost"])];
    assert_eq!(ids(&all, &ready(&all, &none())), vec!["A"]);
    let held = blocked(&all, &none());
    assert_eq!(held.len(), 1);
    assert_eq!(held[0].index, 1);
    assert_eq!(held[0].blocked_by, vec!["A"]);
}

#[test]
fn the_blocking_dependencies_keep_their_order() {
    let all = vec![
        ticket("T", Status::Open, &["c", "x", "a", "b", "a"]),
        ticket("a", Status::Open, &[]),
        ticket("b", Status::Closed, &[]),
        ticket("c", Status::InProgress, &[]),
    ];
    assert_eq!(blocking(&all[0], &all), vec!["c", "a", "a"]);
    assert_eq!(blocking(&all[1], &all), Vec::<String>::new());
}

#[test]
fn tickets_are_listed_by_priority_then_age_then_place() {
    let all = vec![
        ranked("mid-late", 2, 300, &[]),
        ranked("top", 0, 900, &[]),
        ranked("mid-early", 2, 100, &[]),
        ranked("low", 4, 1, &[]),
        ranked("mid-early-twin", 2, 100, &[]),
        ranked("high", 1, 500, &[]),
    ];
    let want = vec!["top", "high", "mid-early", "mid-early-twin", "mid-late", "low"];
    assert_eq!(ids(&all, &ready(&all, &none())), want);
    assert_eq!(ids(&all, &select(&all, None, &none())), want);
}

#[test]
fn nanoseconds_break_ties_of_seconds() {
    let mut a = ranked("a", 1, 10, &[]);
    a.meta.created.nanos = 7;
    let mut b = ranked("b", 1, 10, &[]);
    b.meta.created.nanos = 3;
    let all = vec![a, b];
    assert_eq!(ids(&all, &ready(&all, &none())), vec!["b", "a"]);
}

#[test]
fn every_wanted_tag_must_be_carried() {
    let all = vec![
        ranked("both", 2, 1, &["ui", "urgent"]),
        ranked("ui", 2, 2, &["ui"]),
        ranked("none", 2, 3, &[]),
        ranked("more", 2, 4, &["x", "urgent", "ui"]),
    ];
    let ui = vec!["ui".to_string()];
    let both = vec!["ui".to_string(), "urgent".to_string()];
    assert_eq!(ids(&all, &ready(&all, &ui)), vec!["both", "ui", "more"]);
    assert_eq!(ids(&all, &ready(&all, &both)), vec!["both", "more"]);
    assert_eq!(ids(&all, &select(&all, None, &both)), vec!["both", "more"]);
    assert!(carries_tags(&all[0], &both));
    assert!(!carries_tags(&all[1], &both));
    assert!(carries_tags(&all[2], &none()));
}

#[test]
fn blocked_tickets_are_filtered_by_tag_too() {
    let mut a = ticket("a", Status::Open, &["z"]);
    a.meta.tags = vec!["ui".to_string()];
    let b = ticket("b", Status::Open, &["z"]);
    let z = ticket("z", Status::Open, &[]);
    let all = vec![a, b, z];
    let ui = vec!["ui".to_string()];
    let held = blocked(&all, &ui);
    assert_eq!(held.len(), 1);
    assert_eq!(held[0].index, 0);
    assert_eq!(blocked(&all, &none()).len(), 2);
}

#[test]
fn a_selection_can_ask_for_a_status() {
    let all = vec![
        ticket("o", Status::Open, &[]),
        ticket("c", Status::Closed, &[]),
        ticket("w", Status::InProgress, &[]),
        ticket("a", Status::Archived, &[]),
        ticket("c2", Status::Closed, &[]),
    ];
    assert_eq!(ids(&all, &select(&all, Some(Status::Closed), &none())), vec!["c", "c2"]);
    assert_eq!(ids(&all, &select(&all, Some(Status::InProgress), &none())), vec!["w"]);
    assert_eq!(select(&all, None, &none()).len(), 5);
    assert!(select(&[], None, &none()).is_empty());
    assert!(ready(&[], &none()).is_empty());
    assert!(blocked(&[], &none()).is_empty());
}

#[test]
fn closed_tickets_are_neither_ready_nor_blocked() {
    let all = vec![ticket("a", Status::Closed, &["b"]), ticket("b", Status::Open, &[]), ticket("c", Status::Archived, &[])];
    assert_eq!(ids(&all, &ready(&all, &none())), vec!["b"]);
    assert!(blocked(&all, &none()).is_empty());
}
