//! The tree of what a ticket waits for.
//!
//! Under each ticket stand the tickets it waits for, in the order of its
//! dependencies, and under each of those its own. A dependency that names no
//! ticket is left out, and so is a ticket that is no longer open unless the
//! full tree is asked for. A ticket that stands above itself on the way down
//! is shown once more and not opened again, so that a cycle ends the branch.

use crate::storage::{lemma_no_place, lemma_place_of, place_of};
use crate::types::{names, position, views, Ticket, TicketView};
use vstd::prelude::*;

verus! {

/// One line of the tree.
#[derive(Debug, PartialEq, Eq)]
pub struct TreeRow {
    /// The place of the ticket in the list that was examined.
    pub index: usize,
    /// For each line above this one on the way down, whether it was the last
    /// under the line above it. The root is not counted.
    pub trail: Vec<bool>,
    /// Whether this line is the last under the line above it.
    pub last: bool,
    /// Whether the ticket stands above itself, so that the branch ends here.
    pub repeated: bool,
}

/// A line of the tree as specifications see it.
pub struct RowView {
    pub index: int,
    pub trail: Seq<bool>,
    pub last: bool,
    pub repeated: bool,
}

impl View for TreeRow {
    type V = RowView;

    open spec fn view(&self) -> RowView {
        RowView {
            index: self.index as int,
            trail: self.trail@,
            last: self.last,
            repeated: self.repeated,
        }
    }
}

/// The views of a list of lines.
pub open spec fn row_views(rows: Seq<TreeRow>) -> Seq<RowView> {
    rows.map_values(|r: TreeRow| r@)
}

/// The places of the tickets that `deps` name and that are shown: all of them
/// in the full tree, the open ones otherwise.
pub open spec fn shown(tickets: Seq<TicketView>, deps: Seq<Seq<char>>, full: bool) -> Seq<int>
    decreases deps.len(),
{
    if deps.len() == 0 {
        Seq::empty()
    } else {
        let rest = shown(tickets, deps.drop_last(), full);
        match place_of(tickets, deps.last()) {
            Some(i) => if full || tickets[i].is_open() {
                rest.push(i)
            } else {
                rest
            },
            None => rest,
        }
    }
}

/// The lines for the tickets `kids` from the `k`th on, each followed by the
/// lines under it. `path` holds the places above them, `trail` what the lines
/// above them were.
pub open spec fn rows_from(
    tickets: Seq<TicketView>,
    kids: Seq<int>,
    k: int,
    path: Seq<int>,
    trail: Seq<bool>,
    full: bool,
) -> Seq<RowView>
    decreases tickets.len() - path.len(), kids.len() - k,
{
    if k < 0 || k >= kids.len() {
        Seq::empty()
    } else {
        let child = kids[k];
        let last = k == kids.len() - 1;
        let repeated = path.contains(child);
        let row = RowView { index: child, trail, last, repeated };
        let below = if repeated || path.len() >= tickets.len() || !(0 <= child < tickets.len()) {
            Seq::empty()
        } else {
            rows_from(
                tickets,
                shown(tickets, tickets[child].meta.deps, full),
                0,
                path.push(child),
                trail.push(last),
                full,
            )
        };
        seq![row] + below + rows_from(tickets, kids, k + 1, path, trail, full)
    }
}

/// The tree under the ticket `root`, line by line from the top down.
pub open spec fn tree_of(root: TicketView, tickets: Seq<TicketView>, full: bool) -> Seq<RowView> {
    let path = match place_of(tickets, root.meta.id) {
        Some(i) => seq![i],
        None => Seq::empty(),
    };
    rows_from(tickets, shown(tickets, root.meta.deps, full), 0, path, Seq::empty(), full)
}

/// The places of the tickets that `deps` name and that are shown.
fn shown_places(tickets: &[Ticket], deps: &Vec<String>, full: bool) -> (r: Vec<usize>)
    ensures
        r@.map_values(|i: usize| i as int) == shown(
            views(tickets@),
            names(deps@),
            full,
        ),
        forall|k: int| 0 <= k < r.len() ==> (#[trigger] r@[k]) < tickets.len(),
{
    let ghost all = views(tickets@);
    let ghost ids = names(deps@);
    let ghost widen = |i: usize| i as int;
    let mut r: Vec<usize> = Vec::new();
    let mut k: usize = 0;
    assert(ids.take(0) =~= Seq::<Seq<char>>::empty());
    assert(r@.map_values(widen) =~= Seq::<int>::empty());
    while k < deps.len()
        invariant
            k <= deps.len(),
            all == views(tickets@),
            ids == names(deps@),
            widen == |i: usize| i as int,
            r@.map_values(widen) == shown(all, ids.take(k as int), full),
            forall|j: int| 0 <= j < r.len() ==> (#[trigger] r@[j]) < tickets.len(),
        decreases deps.len() - k,
    {
        proof {
            assert(ids.take(k + 1).drop_last() =~= ids.take(k as int));
            assert(ids.take(k + 1).last() == deps@[k as int]@);
        }
        match position(tickets, &deps[k]) {
            Some(i) => {
                proof {
                    lemma_place_of(all, deps@[k as int]@, i as int);
                    assert(all[i as int] == tickets@[i as int]@);
                }
                if full || tickets[i].is_open() {
                    let ghost before = r@.map_values(widen);
                    r.push(i);
                    assert(r@.map_values(widen) =~= before.push(i as int));
                }
            },
            None => {
                proof {
                    lemma_no_place(all, deps@[k as int]@);
                }
            },
        }
        k += 1;
    }
    assert(ids.take(k as int) =~= ids);
    r
}

/// Whether `path` holds the place `i`.
fn on_path(path: &Vec<usize>, i: usize) -> (b: bool)
    ensures
        b == path@.map_values(|i: usize| i as int).contains(i as int),
{
    let ghost wide = path@.map_values(|i: usize| i as int);
    let mut k: usize = 0;
    while k < path.len()
        invariant
            k <= path.len(),
            wide == path@.map_values(|i: usize| i as int),
            forall|j: int| 0 <= j < k ==> wide[j] != i as int,
        decreases path.len() - k,
    {
        if path[k] == i {
            assert(wide[k as int] == i as int);
            return true;
        }
        k += 1;
    }
    false
}

/// Adds to `out` the lines for the tickets `kids` from the `k`th on, each
/// followed by the lines under it.
fn add_rows(
    tickets: &[Ticket],
    kids: &Vec<usize>,
    k: usize,
    path: &mut Vec<usize>,
    trail: &mut Vec<bool>,
    full: bool,
    out: &mut Vec<TreeRow>,
)
    requires
        forall|j: int| 0 <= j < kids.len() ==> (#[trigger] kids@[j]) < tickets.len(),
        forall|j: int| 0 <= j < old(out).len() ==> (#[trigger] old(out)@[j]).index < tickets.len(),
    ensures
        forall|j: int| 0 <= j < final(out).len() ==> (#[trigger] final(out)@[j]).index
            < tickets.len(),
        final(path)@ == old(path)@,
        final(trail)@ == old(trail)@,
        row_views(final(out)@) == row_views(old(out)@) + rows_from(
            views(tickets@),
            kids@.map_values(|i: usize| i as int),
            k as int,
            old(path)@.map_values(|i: usize| i as int),
            old(trail)@,
            full,
        ),
    decreases tickets.len() - old(path).len(), kids.len() - k,
{
    let ghost all = views(tickets@);
    let ghost wide_kids = kids@.map_values(|i: usize| i as int);
    let ghost wide_path = path@.map_values(|i: usize| i as int);
    let ghost trail0 = trail@;
    let ghost out0 = row_views(out@);
    if k >= kids.len() {
        assert(row_views(out@) =~= out0 + Seq::<RowView>::empty());
        return ;
    }
    let child = kids[k];
    let last = k == kids.len() - 1;
    let repeated = on_path(path, child);
    assert(wide_kids[k as int] == child as int);
    let row = TreeRow { index: child, trail: trail.clone(), last, repeated };
    let ghost row_view = RowView { index: child as int, trail: trail0, last, repeated };
    assert(row@ == row_view);
    out.push(row);
    assert(row_views(out@) =~= out0.push(row_view));
    let ghost below = Seq::<RowView>::empty();
    if !repeated && path.len() < tickets.len() {
        assert(all[child as int] == tickets@[child as int]@);
        let under = shown_places(tickets, &tickets[child].meta.deps, full);
        path.push(child);
        trail.push(last);
        assert(path@.map_values(|i: usize| i as int) =~= wide_path.push(child as int));
        add_rows(tickets, &under, 0, path, trail, full, out);
        path.pop();
        trail.pop();
        proof {
            below = rows_from(
                all,
                shown(all, all[child as int].meta.deps, full),
                0,
                wide_path.push(child as int),
                trail0.push(last),
                full,
            );
            assert(path@ =~= old(path)@);
            assert(trail@ =~= trail0);
        }
    }
    assert(row_views(out@) == out0.push(row_view) + below);
    let ghost mid = row_views(out@);
    add_rows(tickets, kids, k + 1, path, trail, full, out);
    proof {
        let rest = rows_from(all, wide_kids, k + 1, wide_path, trail0, full);
        assert(row_views(out@) == mid + rest);
        assert(out0.push(row_view) + below + rest =~= out0 + (seq![row_view] + below + rest));
    }
}

/// The tree under the ticket `root` among `tickets`, line by line from the top
/// down; the root itself has no line. In the full tree tickets that are no
/// longer open are shown too.
pub fn dep_tree(root: &Ticket, tickets: &[Ticket], full: bool) -> (out: Vec<TreeRow>)
    ensures
        row_views(out@) == tree_of(root@, views(tickets@), full),
        forall|j: int| 0 <= j < out.len() ==> (#[trigger] out@[j]).index < tickets.len(),
{
    let ghost all = views(tickets@);
    let mut path: Vec<usize> = Vec::new();
    match position(tickets, &root.meta.id) {
        Some(i) => {
            proof {
                lemma_place_of(all, root@.meta.id, i as int);
            }
            path.push(i);
            assert(path@.map_values(|i: usize| i as int) =~= seq![i as int]);
        },
        None => {
            proof {
                lemma_no_place(all, root@.meta.id);
            }
            assert(path@.map_values(|i: usize| i as int) =~= Seq::<int>::empty());
        },
    }
    let kids = shown_places(tickets, &root.meta.deps, full);
    let mut trail: Vec<bool> = Vec::new();
    let mut out: Vec<TreeRow> = Vec::new();
    assert(row_views(out@) =~= Seq::<RowView>::empty());
    add_rows(tickets, &kids, 0, &mut path, &mut trail, full, &mut out);
    assert(Seq::<RowView>::empty() + tree_of(root@, all, full) =~= tree_of(root@, all, full));
    out
}

/// What is drawn before a line for the lines above it: a bar under each that
/// has more lines to come, and room under each that was the last.
pub open spec fn trail_text(trail: Seq<bool>) -> Seq<char>
    decreases trail.len(),
{
    if trail.len() == 0 {
        Seq::empty()
    } else {
        trail_text(trail.drop_last()) + if trail.last() {
            seq![' ', ' ', ' ', ' ']
        } else {
            seq!['\u{2502}', ' ', ' ', ' ']
        }
    }
}

/// A line of the tree as text: the trail, a branch, a mark for a ticket that
/// is no longer open, the id and the title, and a remark where the ticket
/// stands above itself.
pub open spec fn row_text(row: RowView, t: TicketView) -> Seq<char> {
    trail_text(row.trail) + (if row.last {
        seq!['\u{2514}', '\u{2500}', '\u{2500}', ' ']
    } else {
        seq!['\u{251c}', '\u{2500}', '\u{2500}', ' ']
    }) + seq!['[', if t.is_open() {
        ' '
    } else {
        'x'
    }, ']', ' '] + t.meta.id + seq![' ', '-', ' '] + t.title + if row.repeated {
        seq![' ', '(', 'c', 'y', 'c', 'l', 'e', ')']
    } else {
        Seq::empty()
    }
}

/// The lines of a tree as text.
pub open spec fn tree_text(rows: Seq<RowView>, tickets: Seq<TicketView>) -> Seq<Seq<char>> {
    Seq::new(rows.len(), |k: int| row_text(rows[k], tickets[rows[k].index]))
}

fn push_all(out: &mut String, text: &Vec<char>)
    ensures
        final(out)@ == old(out)@ + text@,
{
    let mut i: usize = 0;
    while i < text.len()
        invariant
            i <= text.len(),
            out@ == old(out)@ + text@.take(i as int),
        decreases text.len() - i,
    {
        out.push(text[i]);
        assert(text@.take(i + 1) =~= text@.take(i as int).push(text@[i as int]));
        i += 1;
    }
    assert(text@.take(i as int) =~= text@);
}

/// A line of the tree as text.
fn row_line(row: &TreeRow, t: &Ticket) -> (r: String)
    ensures
        r@ == row_text(row@, t@),
{
    let bar: Vec<char> = vec!['\u{2502}', ' ', ' ', ' '];
    let room: Vec<char> = vec![' ', ' ', ' ', ' '];
    let mut r = String::new();
    let mut i: usize = 0;
    assert(row.trail@.take(0) =~= Seq::<bool>::empty());
    while i < row.trail.len()
        invariant
            i <= row.trail.len(),
            bar@ == seq!['\u{2502}', ' ', ' ', ' '],
            room@ == seq![' ', ' ', ' ', ' '],
            r@ == trail_text(row.trail@.take(i as int)),
        decreases row.trail.len() - i,
    {
        proof {
            assert(row.trail@.take(i + 1).drop_last() =~= row.trail@.take(i as int));
            assert(row.trail@.take(i + 1).last() == row.trail@[i as int]);
        }
        if row.trail[i] {
            push_all(&mut r, &room);
        } else {
            push_all(&mut r, &bar);
        }
        i += 1;
    }
    assert(row.trail@.take(i as int) =~= row.trail@);
    let branch: Vec<char> = if row.last {
        vec!['\u{2514}', '\u{2500}', '\u{2500}', ' ']
    } else {
        vec!['\u{251c}', '\u{2500}', '\u{2500}', ' ']
    };
    push_all(&mut r, &branch);
    r.push('[');
    r.push(if t.is_open() {
        ' '
    } else {
        'x'
    });
    r.push(']');
    r.push(' ');
    r.append(t.meta.id.as_str());
    r.push(' ');
    r.push('-');
    r.push(' ');
    r.append(t.title.as_str());
    if row.repeated {
        let again: Vec<char> = vec![' ', '(', 'c', 'y', 'c', 'l', 'e', ')'];
        push_all(&mut r, &again);
    }
    assert(r@ =~= row_text(row@, t@));
    r
}

/// The tree under the ticket `root` among `tickets` as lines of text.
pub fn tree_lines(root: &Ticket, tickets: &[Ticket], full: bool) -> (lines: Vec<String>)
    ensures
        names(lines@) == tree_text(
            tree_of(root@, views(tickets@), full),
            views(tickets@),
        ),
{
    let rows = dep_tree(root, tickets, full);
    let ghost all = views(tickets@);
    let ghost want = tree_text(row_views(rows@), all);
    let mut lines: Vec<String> = Vec::new();
    let mut k: usize = 0;
    while k < rows.len()
        invariant
            k <= rows.len(),
            all == views(tickets@),
            want == tree_text(row_views(rows@), all),
            forall|j: int| 0 <= j < rows.len() ==> (#[trigger] rows@[j]).index < tickets.len(),
            names(lines@) == want.take(k as int),
        decreases rows.len() - k,
    {
        let row = &rows[k];
        assert(row_views(rows@)[k as int] == row@);
        assert(all[row.index as int] == tickets@[row.index as int]@);
        let ghost before = names(lines@);
        lines.push(row_line(row, &tickets[row.index]));
        assert(names(lines@) =~= before.push(want[k as int]));
        assert(want.take(k + 1) =~= want.take(k as int).push(want[k as int]));
        k += 1;
    }
    assert(want.take(k as int) =~= want);
    lines
}

} // verus!
