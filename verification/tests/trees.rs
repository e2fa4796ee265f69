use tk::tree::{dep_tree, tree_lines, TreeRow};
use tk::types::{Status, Ticket, Timestamp};

fn ticket(id: &str, status: Status, deps: &[&str]) -> Ticket {
    let mut t = Ticket::new_at(
        id.to_string(),
        format!("Ticket {}", id),
        Timestamp { secs: 1_700_000_000, nanos: 0 },
    );
    t.meta.status = status;
    t.meta.deps = deps.iter().map(|d| d.to_string()).collect();
    t
}

fn row(index: usize, trail: &[bool], last: bool, repeated: bool) -> TreeRow {
    TreeRow { index, trail: trail.to_vec(), last, repeated }
}

#[test]
fn a_tree_is_walked_from_the_top_down() {
    let all = vec![
        ticket("root", Status::Open, &["a", "b"]),
        ticket("a", Status::Open, &["c", "d"]),
        ticket("b", Status::Open, &["d"]),
        ticket("c", Status::Open, &[]),
        ticket("d", Status::Open, &[]),
    ];
    assert_eq!(
        dep_tree(&all[0], &all, false),
        vec![
            row(1, &[], false, false),
            row(3, &[false], false, false),
            row(4, &[false], true, false),
            row(2, &[], true, false),
            row(4, &[true], true, false),
        ]
    );
}

#[test]
fn a_leaf_has_no_tree() {
    let all = vec![ticket("a", Status::Open, &[]), ticket("b", Status::Open, &["ghost"])];
    assert!(dep_tree(&all[0], &all, true).is_empty());
    assert!(dep_tree(&all[1], &all, true).is_empty());
}

#[test]
fn closed_tickets_are_shown_in_the_full_tree_only() {
    let all = vec![
        ticket("root", Status::Open, &["done", "ghost", "open"]),
        ticket("done", Status::Closed, &["under"]),
        ticket("open", Status::InProgress, &[]),
        ticket("under", Status::Open, &[]),
    ];
    assert_eq!(dep_tree(&all[0], &all, false), vec![row(2, &[], true, false)]);
    assert_eq!(
        dep_tree(&all[0], &all, true),
        vec![row(1, &[], false, false), row(3, &[false], true, false), row(2, &[], true, false)]
    );
}

#[test]
fn a_cycle_ends_the_branch() {
    let all = vec![
        ticket("a", Status::Open, &["b"]),
        ticket("b", Status::Open, &["c"]),
        ticket("c", Status::Open, &["a", "b"]),
    ];
    assert_eq!(
        dep_tree(&all[0], &all, false),
        vec![
            row(1, &[], true, false),
            row(2, &[true], true, false),
            row(0, &[true, true], false, true),
            row(1, &[true, true], true, true),
        ]
    );
}

#[test]
fn a_ticket_that_waits_for_itself_is_shown_once() {
    let all = vec![ticket("a", Status::Open, &["a"])];
    assert_eq!(dep_tree(&all[0], &all, false), vec![row(0, &[], true, true)]);
}

#[test]
fn the_root_need_not_be_in_the_list() {
    let all = vec![ticket("a", Status::Open, &["b"]), ticket("b", Status::Open, &[])];
    let root = ticket("elsewhere", Status::Open, &["a"]);
    assert_eq!(
        dep_tree(&root, &all, false),
        vec![row(0, &[], true, false), row(1, &[true], true, false)]
    );
}

#[test]
fn a_tree_is_drawn_with_branches() {
    let all = vec![
        ticket("root", Status::Open, &["a", "b"]),
        ticket("a", Status::Open, &["c", "d"]),
        ticket("b", Status::Closed, &["d"]),
        ticket("c", Status::Open, &["b"]),
        ticket("d", Status::Open, &[]),
    ];
    assert_eq!(
        tree_lines(&all[0], &all, true),
        vec![
            "\u{251c}\u{2500}\u{2500} [ ] a - Ticket a",
            "\u{2502}   \u{251c}\u{2500}\u{2500} [ ] c - Ticket c",
            "\u{2502}   \u{2502}   \u{2514}\u{2500}\u{2500} [x] b - Ticket b",
            "\u{2502}   \u{2502}       \u{2514}\u{2500}\u{2500} [ ] d - Ticket d",
            "\u{2502}   \u{2514}\u{2500}\u{2500} [ ] d - Ticket d",
            "\u{2514}\u{2500}\u{2500} [x] b - Ticket b",
            "    \u{2514}\u{2500}\u{2500} [ ] d - Ticket d",
        ]
    );
    assert_eq!(
        tree_lines(&all[0], &all, false),
        vec![
            "\u{2514}\u{2500}\u{2500} [ ] a - Ticket a",
            "    \u{251c}\u{2500}\u{2500} [ ] c - Ticket c",
            "    \u{2514}\u{2500}\u{2500} [ ] d - Ticket d",
        ]
    );
}

#[test]
fn a_repeated_ticket_is_marked() {
    let all = vec![ticket("a", Status::Open, &["b"]), ticket("b", Status::Open, &["a"])];
    assert_eq!(
        tree_lines(&all[0], &all, false),
        vec![
            "\u{2514}\u{2500}\u{2500} [ ] b - Ticket b",
            "    \u{2514}\u{2500}\u{2500} [ ] a - Ticket a (cycle)",
        ]
    );
}
