use tk::cycles::find_cycles;
use tk::types::{Status, Ticket, Timestamp};

fn ticket(id: &str, deps: &[&str]) -> Ticket {
    let mut t = Ticket::new_at(
        id.to_string(),
        format!("Ticket {}", id),
        Timestamp { secs: 1_700_000_000, nanos: 0 },
    );
    t.meta.deps = deps.iter().map(|d| d.to_string()).collect();
    t
}

#[test]
fn a_ring_of_three_is_one_cycle() {
    let all = vec![ticket("A", &["B"]), ticket("B", &["C"]), ticket("C", &["A"])];
    assert_eq!(find_cycles(&all), vec![vec!["A", "B", "C"]]);
}

#[test]
fn no_cycle_gives_an_empty_list() {
    let all = vec![
        ticket("A", &["B", "C"]),
        ticket("B", &["C", "D"]),
        ticket("C", &["D"]),
        ticket("D", &[]),
        ticket("E", &["A", "D"]),
    ];
    assert!(find_cycles(&all).is_empty());
    assert!(find_cycles(&[]).is_empty());
}

#[test]
fn a_ticket_that_waits_for_itself_is_a_cycle() {
    let all = vec![ticket("A", &["A"])];
    assert_eq!(find_cycles(&all), vec![vec!["A"]]);
}

#[test]
fn dangling_dependencies_lead_nowhere() {
    let all = vec![ticket("A", &["ghost", "B"]), ticket("B", &["ghost"])];
    assert!(find_cycles(&all).is_empty());
}

#[test]
fn the_cycle_starts_where_the_walk_came_back() {
    let all = vec![ticket("root", &["A"]), ticket("A", &["B"]), ticket("B", &["C"]), ticket("C", &["A"])];
    assert_eq!(find_cycles(&all), vec![vec!["A", "B", "C"]]);
}

#[test]
fn separate_rings_are_separate_cycles() {
    let all = vec![
        ticket("A", &["B"]),
        ticket("B", &["A"]),
        ticket("X", &["Y"]),
        ticket("Y", &["Z"]),
        ticket("Z", &["X"]),
        ticket("free", &["A", "X"]),
    ];
    assert_eq!(find_cycles(&all), vec![vec!["A", "B"], vec!["X", "Y", "Z"]]);
}

#[test]
fn rings_that_share_a_ticket_are_both_found() {
    let all = vec![ticket("A", &["B", "C"]), ticket("B", &["A"]), ticket("C", &["A"])];
    assert_eq!(find_cycles(&all), vec![vec!["A", "B"], vec!["A", "C"]]);
}

#[test]
fn a_done_ticket_is_not_walked_again() {
    // D is left behind before the second root reaches it
    let all = vec![ticket("A", &["D"]), ticket("B", &["D", "B2"]), ticket("B2", &["B"]), ticket("D", &[])];
    assert_eq!(find_cycles(&all), vec![vec!["B", "B2"]]);
}

#[test]
fn the_last_ticket_of_an_id_gives_the_edges() {
    let all = vec![ticket("A", &["B"]), ticket("B", &["A"]), ticket("A", &[])];
    assert!(find_cycles(&all).is_empty());
    let all = vec![ticket("A", &[]), ticket("B", &["A"]), ticket("A", &["B"])];
    assert_eq!(find_cycles(&all), vec![vec!["A", "B"]]);
}

#[test]
fn closed_tickets_are_on_cycles_too() {
    let mut a = ticket("A", &["B"]);
    a.meta.status = Status::Closed;
    let all = vec![a, ticket("B", &["A"])];
    assert_eq!(find_cycles(&all), vec![vec!["A", "B"]]);
}

#[test]
fn a_long_chain_is_walked_to_its_end() {
    let n = 2000;
    let mut all: Vec<Ticket> = Vec::new();
    for i in 0..n {
        let next = format!("t{}", i + 1);
        all.push(ticket(&format!("t{}", i), &[next.as_str()]));
    }
    assert!(find_cycles(&all).is_empty());
    all.push(ticket(&format!("t{}", n), &["t0"]));
    let found = find_cycles(&all);
    assert_eq!(found.len(), 1);
    assert_eq!(found[0].len(), n + 1);
    assert_eq!(found[0][0], "t0");
    assert_eq!(found[0][n], format!("t{}", n));
}
