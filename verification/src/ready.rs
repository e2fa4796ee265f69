//! Which tickets can be worked on, which are held back and by what, and the
//! order in which tickets are listed.

use crate::types::{
    blocked_by, blocks, has_name, is_blocking, names, views, Status, Ticket, TicketView,
};
use vstd::prelude::*;

verus! {

/// The ticket at `i` is listed before the one at `j`: more urgent first, then
/// older first, then as they stand in `tickets`.
pub open spec fn listed_before(tickets: Seq<TicketView>, i: int, j: int) -> bool {
    let a = tickets[i].meta;
    let b = tickets[j].meta;
    ||| a.priority < b.priority
    ||| a.priority == b.priority && a.created.before(b.created)
    ||| a.priority == b.priority && a.created == b.created && i < j
}

/// `out` lists the places in `tickets` that are in `keep`, each once, in
/// listing order. There is exactly one such list.
pub open spec fn is_listing(tickets: Seq<TicketView>, keep: Set<int>, out: Seq<usize>) -> bool {
    &&& forall|k: int|
        0 <= k < out.len() ==> (#[trigger] out[k]) < tickets.len() && keep.contains(out[k] as int)
    &&& forall|i: int|
        0 <= i < tickets.len() && #[trigger] keep.contains(i) ==> exists|k: int|
            0 <= k < out.len() && #[trigger] out[k] == i
    &&& forall|a: int, b: int|
        0 <= a < b < out.len() ==> listed_before(tickets, #[trigger] out[a] as int, #[trigger] out[b] as int)
}

/// The ticket carries every tag of `wanted`.
pub open spec fn has_tags(t: TicketView, wanted: Seq<Seq<char>>) -> bool {
    forall|k: int| 0 <= k < wanted.len() ==> t.meta.tags.contains(#[trigger] wanted[k])
}

/// The ticket at `i` is open, carries the wanted tags, and nothing holds it back.
pub open spec fn is_ready(tickets: Seq<TicketView>, wanted: Seq<Seq<char>>, i: int) -> bool {
    &&& 0 <= i < tickets.len()
    &&& tickets[i].is_open()
    &&& !blocked_by(tickets[i], tickets)
    &&& has_tags(tickets[i], wanted)
}

/// The ticket at `i` is open, carries the wanted tags, and a dependency holds it back.
pub open spec fn is_blocked(tickets: Seq<TicketView>, wanted: Seq<Seq<char>>, i: int) -> bool {
    &&& 0 <= i < tickets.len()
    &&& tickets[i].is_open()
    &&& blocked_by(tickets[i], tickets)
    &&& has_tags(tickets[i], wanted)
}

/// The ticket at `i` has the wanted status, if one is wanted, and the wanted tags.
pub open spec fn is_selected(
    tickets: Seq<TicketView>,
    status: Option<Status>,
    wanted: Seq<Seq<char>>,
    i: int,
) -> bool {
    &&& 0 <= i < tickets.len()
    &&& status is Some ==> tickets[i].meta.status == status->0
    &&& has_tags(tickets[i], wanted)
}

/// Those of `deps` that hold a ticket back, in the order of `deps`.
pub open spec fn blocking_deps(deps: Seq<Seq<char>>, tickets: Seq<TicketView>) -> Seq<Seq<char>> {
    deps.filter(|d: Seq<char>| blocks(tickets, d))
}

/// The places that a list of held-back tickets names.
pub open spec fn places(out: Seq<Blocked>) -> Seq<usize> {
    out.map_values(|b: Blocked| b.index)
}

/// A ticket that is held back, and the dependencies that hold it.
#[derive(Debug, PartialEq, Eq)]
pub struct Blocked {
    /// Where the ticket stands in the list that was examined.
    pub index: usize,
    /// The ids of its dependencies that are still open.
    pub blocked_by: Vec<String>,
}

/// Two lists of the same places, both in listing order, are the same list.
pub proof fn lemma_listing_unique(
    tickets: Seq<TicketView>,
    keep: Set<int>,
    x: Seq<usize>,
    y: Seq<usize>,
)
    requires
        is_listing(tickets, keep, x),
        is_listing(tickets, keep, y),
    ensures
        x == y,
    decreases x.len(),
{
    if x.len() == 0 {
        if y.len() > 0 {
            let i = y[0] as int;
            assert(keep.contains(i));
        }
        assert(x =~= y);
    } else {
        // the last entry of x is the greatest place kept, and so is the last of y
        let m = x.last() as int;
        assert(x[x.len() - 1] == m);
        assert(keep.contains(m));
        let ky = choose|k: int| 0 <= k < y.len() && #[trigger] y[k] == m;
        if ky < y.len() - 1 {
            let z = y[ky + 1] as int;
            assert(keep.contains(z));
            let kx = choose|k: int| 0 <= k < x.len() && #[trigger] x[k] == z;
            assert(listed_before(tickets, y[ky] as int, y[ky + 1] as int));
            if kx < x.len() - 1 {
                assert(listed_before(tickets, x[kx] as int, x[x.len() - 1] as int));
            }
        }
        assert(y.last() == m);
        let keep2 = keep.remove(m);
        let x2 = x.drop_last();
        let y2 = y.drop_last();
        assert(is_listing(tickets, keep2, x2)) by {
            assert forall|k: int| 0 <= k < x2.len() implies (#[trigger] x2[k]) < tickets.len()
                && keep2.contains(x2[k] as int) by {
                assert(x2[k] == x[k]);
                assert(listed_before(tickets, x[k] as int, x[x.len() - 1] as int));
            }
            assert forall|i: int| 0 <= i < tickets.len() && #[trigger] keep2.contains(i) implies exists|k: int|
                0 <= k < x2.len() && #[trigger] x2[k] == i by {
                let k = choose|k: int| 0 <= k < x.len() && #[trigger] x[k] == i;
                assert(x2[k] == i);
            }
            assert forall|a: int, b: int| 0 <= a < b < x2.len() implies listed_before(
                tickets,
                #[trigger] x2[a] as int,
                #[trigger] x2[b] as int,
            ) by {
                assert(x2[a] == x[a] && x2[b] == x[b]);
            }
        }
        assert(is_listing(tickets, keep2, y2)) by {
            assert forall|k: int| 0 <= k < y2.len() implies (#[trigger] y2[k]) < tickets.len()
                && keep2.contains(y2[k] as int) by {
                assert(y2[k] == y[k]);
                assert(listed_before(tickets, y[k] as int, y[y.len() - 1] as int));
            }
            assert forall|i: int| 0 <= i < tickets.len() && #[trigger] keep2.contains(i) implies exists|k: int|
                0 <= k < y2.len() && #[trigger] y2[k] == i by {
                let k = choose|k: int| 0 <= k < y.len() && #[trigger] y[k] == i;
                assert(y2[k] == i);
            }
            assert forall|a: int, b: int| 0 <= a < b < y2.len() implies listed_before(
                tickets,
                #[trigger] y2[a] as int,
                #[trigger] y2[b] as int,
            ) by {
                assert(y2[a] == y[a] && y2[b] == y[b]);
            }
        }
        lemma_listing_unique(tickets, keep2, x2, y2);
        assert(x =~= x2.push(x.last()));
        assert(y =~= y2.push(y.last()));
    }
}

/// Whether the ticket at `i` is listed before the one at `j`.
fn goes_before(tickets: &[Ticket], i: usize, j: usize) -> (b: bool)
    requires
        i < tickets.len(),
        j < tickets.len(),
    ensures
        b == listed_before(views(tickets@), i as int, j as int),
{
    let a = &tickets[i].meta;
    let b = &tickets[j].meta;
    assert(views(tickets@)[i as int] == tickets@[i as int]@);
    assert(views(tickets@)[j as int] == tickets@[j as int]@);
    if a.priority != b.priority {
        a.priority < b.priority
    } else if a.created.is_before(&b.created) {
        true
    } else if b.created.is_before(&a.created) {
        false
    } else {
        i < j
    }
}

/// The places that `keep` marks, in listing order.
fn listing(tickets: &[Ticket], keep: &Vec<bool>) -> (out: Vec<usize>)
    requires
        keep.len() == tickets.len(),
    ensures
        is_listing(views(tickets@), Set::new(|i: int| 0 <= i < keep.len() && keep@[i]), out@),
{
    let ghost all = views(tickets@);
    let mut out: Vec<usize> = Vec::new();
    let mut i: usize = 0;
    while i < tickets.len()
        invariant
            i <= tickets.len(),
            keep.len() == tickets.len(),
            all == views(tickets@),
            forall|k: int| 0 <= k < out.len() ==> (#[trigger] out@[k]) < i && keep@[out@[k] as int],
            forall|j: int| 0 <= j < i && keep@[j] ==> exists|k: int|
                0 <= k < out.len() && #[trigger] out@[k] == j,
            forall|a: int, b: int|
                0 <= a < b < out.len() ==> listed_before(
                    all,
                    #[trigger] out@[a] as int,
                    #[trigger] out@[b] as int,
                ),
        decreases tickets.len() - i,
    {
        if keep[i] {
            let mut p: usize = 0;
            while p < out.len() && goes_before(tickets, out[p], i)
                invariant
                    p <= out.len(),
                    i < tickets.len(),
                    all == views(tickets@),
                    forall|k: int| 0 <= k < out.len() ==> (#[trigger] out@[k]) < i,
                    forall|q: int| 0 <= q < p ==> listed_before(all, #[trigger] out@[q] as int, i as int),
                decreases out.len() - p,
            {
                p += 1;
            }
            let ghost before = out@;
            out.insert(p, i);
            assert forall|a: int, b: int| 0 <= a < b < out.len() implies listed_before(
                all,
                #[trigger] out@[a] as int,
                #[trigger] out@[b] as int,
            ) by {
                if a == p {
                    // `i` goes before what stood at `p`, and that before all that follows
                    assert(out@[b] == before[b - 1]);
                    assert(!listed_before(all, before[p as int] as int, i as int));
                    if b - 1 > p {
                        assert(listed_before(all, before[p as int] as int, before[b - 1] as int));
                    }
                } else if b == p {
                    assert(out@[a] == before[a]);
                } else if a < p && p < b {
                    assert(out@[a] == before[a] && out@[b] == before[b - 1]);
                } else if b < p {
                    assert(out@[a] == before[a] && out@[b] == before[b]);
                } else {
                    assert(out@[a] == before[a - 1] && out@[b] == before[b - 1]);
                }
            }
            assert forall|j: int| 0 <= j < i + 1 && keep@[j] implies exists|k: int|
                0 <= k < out.len() && #[trigger] out@[k] == j by {
                if j == i {
                    assert(out@[p as int] == i);
                } else {
                    let k = choose|k: int| 0 <= k < before.len() && #[trigger] before[k] == j;
                    if k < p {
                        assert(out@[k] == j);
                    } else {
                        assert(out@[k + 1] == j);
                    }
                }
            }
            assert forall|k: int| 0 <= k < out.len() implies (#[trigger] out@[k]) < i + 1
                && keep@[out@[k] as int] by {
                if k < p {
                    assert(out@[k] == before[k]);
                } else if k > p {
                    assert(out@[k] == before[k - 1]);
                }
            }
        }
        i += 1;
    }
    out
}

/// Whether the ticket carries every tag of `wanted`.
pub fn carries_tags(t: &Ticket, wanted: &Vec<String>) -> (b: bool)
    ensures
        b == has_tags(t@, names(wanted@)),
{
    let mut k: usize = 0;
    while k < wanted.len()
        invariant
            k <= wanted.len(),
            forall|j: int| 0 <= j < k ==> t@.meta.tags.contains(#[trigger] names(wanted@)[j]),
        decreases wanted.len() - k,
    {
        if !has_name(t.meta.tags.as_slice(), &wanted[k]) {
            assert(names(wanted@)[k as int] == wanted@[k as int]@);
            return false;
        }
        assert(names(wanted@)[k as int] == wanted@[k as int]@);
        k += 1;
    }
    true
}

/// The tickets that can be worked on: open, carrying every tag of `tags`, with
/// no dependency still open. They come as places in `tickets`, in listing order.
pub fn ready(tickets: &[Ticket], tags: &Vec<String>) -> (out: Vec<usize>)
    ensures
        is_listing(
            views(tickets@),
            Set::new(|i: int| is_ready(views(tickets@), names(tags@), i)),
            out@,
        ),
{
    let mut keep: Vec<bool> = Vec::new();
    let mut i: usize = 0;
    while i < tickets.len()
        invariant
            i <= tickets.len(),
            keep.len() == i,
            forall|j: int| 0 <= j < i ==> keep@[j] == is_ready(views(tickets@), names(tags@), j),
        decreases tickets.len() - i,
    {
        let t = &tickets[i];
        assert(views(tickets@)[i as int] == t@);
        let k = t.is_open() && !t.is_blocked_by(tickets) && carries_tags(t, tags);
        keep.push(k);
        i += 1;
    }
    let out = listing(tickets, &keep);
    assert(Set::new(|i: int| 0 <= i < keep.len() && keep@[i]) =~= Set::new(
        |i: int| is_ready(views(tickets@), names(tags@), i),
    ));
    out
}

/// The tickets with the wanted status, if one is wanted, that carry every tag
/// of `tags`. They come as places in `tickets`, in listing order.
pub fn select(tickets: &[Ticket], status: Option<Status>, tags: &Vec<String>) -> (out: Vec<usize>)
    ensures
        is_listing(
            views(tickets@),
            Set::new(|i: int| is_selected(views(tickets@), status, names(tags@), i)),
            out@,
        ),
{
    let mut keep: Vec<bool> = Vec::new();
    let mut i: usize = 0;
    while i < tickets.len()
        invariant
            i <= tickets.len(),
            keep.len() == i,
            forall|j: int|
                0 <= j < i ==> keep@[j] == is_selected(views(tickets@), status, names(tags@), j),
        decreases tickets.len() - i,
    {
        let t = &tickets[i];
        assert(views(tickets@)[i as int] == t@);
        let right_status = match status {
            Some(s) => t.meta.status == s,
            None => true,
        };
        let k = right_status && carries_tags(t, tags);
        keep.push(k);
        i += 1;
    }
    let out = listing(tickets, &keep);
    assert(Set::new(|i: int| 0 <= i < keep.len() && keep@[i]) =~= Set::new(
        |i: int| is_selected(views(tickets@), status, names(tags@), i),
    ));
    out
}

/// The dependencies of `t` that are still open in `tickets`, in the order in
/// which `t` lists them.
pub fn blocking(t: &Ticket, tickets: &[Ticket]) -> (out: Vec<String>)
    ensures
        names(out@) == blocking_deps(t@.meta.deps, views(tickets@)),
{
    let ghost deps = t@.meta.deps;
    let ghost all = views(tickets@);
    let mut out: Vec<String> = Vec::new();
    let mut k: usize = 0;
    proof {
        reveal(Seq::filter);
        assert(deps.take(0) == Seq::<Seq<char>>::empty());
        assert(names(out@) == Seq::<Seq<char>>::empty());
    }
    while k < t.meta.deps.len()
        invariant
            k <= t.meta.deps.len(),
            deps == t@.meta.deps,
            all == views(tickets@),
            names(out@) == blocking_deps(deps.take(k as int), all),
        decreases t.meta.deps.len() - k,
    {
        let dep = &t.meta.deps[k];
        proof {
            reveal(Seq::filter);
            assert(deps[k as int] == dep@);
            assert(deps.take(k + 1).drop_last() == deps.take(k as int));
            assert(deps.take(k + 1).last() == dep@);
        }
        if is_blocking(tickets, dep) {
            let ghost before = names(out@);
            out.push(dep.clone());
            assert(names(out@) == before.push(dep@));
        }
        k += 1;
    }
    assert(deps.take(k as int) == deps);
    out
}

/// The tickets that are held back: open, carrying every tag of `tags`, with a
/// dependency still open. They come in listing order, each with the
/// dependencies that hold it.
pub fn blocked(tickets: &[Ticket], tags: &Vec<String>) -> (out: Vec<Blocked>)
    ensures
        is_listing(
            views(tickets@),
            Set::new(|i: int| is_blocked(views(tickets@), names(tags@), i)),
            places(out@),
        ),
        forall|k: int|
            0 <= k < out.len() ==> names((#[trigger] out@[k]).blocked_by@) == blocking_deps(
                views(tickets@)[out@[k].index as int].meta.deps,
                views(tickets@),
            ),
{
    let mut keep: Vec<bool> = Vec::new();
    let mut i: usize = 0;
    while i < tickets.len()
        invariant
            i <= tickets.len(),
            keep.len() == i,
            forall|j: int| 0 <= j < i ==> keep@[j] == is_blocked(views(tickets@), names(tags@), j),
        decreases tickets.len() - i,
    {
        let t = &tickets[i];
        assert(views(tickets@)[i as int] == t@);
        let k = t.is_open() && t.is_blocked_by(tickets) && carries_tags(t, tags);
        keep.push(k);
        i += 1;
    }
    let order = listing(tickets, &keep);
    assert(Set::new(|i: int| 0 <= i < keep.len() && keep@[i]) =~= Set::new(
        |i: int| is_blocked(views(tickets@), names(tags@), i),
    ));
    let mut out: Vec<Blocked> = Vec::new();
    let mut k: usize = 0;
    while k < order.len()
        invariant
            k <= order.len(),
            forall|j: int| 0 <= j < order.len() ==> (#[trigger] order@[j]) < tickets.len(),
            places(out@) == order@.take(k as int),
            forall|j: int|
                0 <= j < out.len() ==> names((#[trigger] out@[j]).blocked_by@) == blocking_deps(
                    views(tickets@)[out@[j].index as int].meta.deps,
                    views(tickets@),
                ),
        decreases order.len() - k,
    {
        let index = order[k];
        assert(views(tickets@)[index as int] == tickets@[index as int]@);
        let held = blocking(&tickets[index], tickets);
        let ghost before = places(out@);
        out.push(Blocked { index, blocked_by: held });
        assert(places(out@) =~= before.push(index));
        assert(order@.take(k + 1) =~= order@.take(k as int).push(index));
        k += 1;
    }
    assert(order@.take(k as int) == order@);
    out
}

} // verus!
