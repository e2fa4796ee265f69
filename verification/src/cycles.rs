//! Cycles among the dependencies of a set of tickets.
//!
//! Tickets are the nodes of a graph and each dependency is an edge from a
//! ticket to the ticket it waits for. Where several tickets carry one id the
//! last of them stands for the id, as in an index built record by record; an
//! id that no ticket carries gives no edge.

use crate::types::{names, views, Ticket, TicketView};
use vstd::hash_map::StringHashMap;
use vstd::prelude::*;

verus! {

/// Some ticket has the id `id`.
pub open spec fn has_id(tickets: Seq<TicketView>, id: Seq<char>) -> bool {
    exists|i: int| 0 <= i < tickets.len() && (#[trigger] tickets[i]).meta.id == id
}

/// `i` is the last place in `tickets` where the id is `id`.
pub open spec fn last_with_id(tickets: Seq<TicketView>, id: Seq<char>, i: int) -> bool {
    &&& 0 <= i < tickets.len()
    &&& tickets[i].meta.id == id
    &&& forall|j: int| i < j < tickets.len() ==> (#[trigger] tickets[j]).meta.id != id
}

/// The ticket of id `a` waits for `b`, and `b` is the id of a ticket.
pub open spec fn depends_on(tickets: Seq<TicketView>, a: Seq<char>, b: Seq<char>) -> bool {
    exists|i: int|
        #[trigger] last_with_id(tickets, a, i) && tickets[i].meta.deps.contains(b) && has_id(
            tickets,
            b,
        )
}

/// The place after `k` on a round of `len` places.
pub open spec fn next_on(len: nat, k: int) -> int {
    if k + 1 < len {
        k + 1
    } else {
        0
    }
}

/// `c` is a round trip: each of its ids waits for the next, and the last for the first.
pub open spec fn is_cycle(tickets: Seq<TicketView>, c: Seq<Seq<char>>) -> bool {
    &&& c.len() > 0
    &&& forall|k: int|
        0 <= k < c.len() ==> depends_on(tickets, c[k], c[#[trigger] next_on(c.len(), k)])
}

/// Some round trip leads through the dependencies of `tickets`.
pub open spec fn has_cycle(tickets: Seq<TicketView>) -> bool {
    exists|c: Seq<Seq<char>>| is_cycle(tickets, c)
}

/// The place of the last ticket with the id `id`, if there is one.
pub open spec fn last_place_of(tickets: Seq<TicketView>, id: Seq<char>) -> Option<int> {
    if exists|i: int| last_with_id(tickets, id, i) {
        Some(choose|i: int| last_with_id(tickets, id, i))
    } else {
        None
    }
}

/// The places that the dependencies `deps` lead to, in the order of `deps`.
pub open spec fn targets(tickets: Seq<TicketView>, deps: Seq<Seq<char>>) -> Seq<int>
    decreases deps.len(),
{
    if deps.len() == 0 {
        Seq::empty()
    } else {
        let rest = targets(tickets, deps.drop_last());
        match last_place_of(tickets, deps.last()) {
            Some(i) => rest.push(i),
            None => rest,
        }
    }
}

/// The first place at or after `from` where `path` holds `t`, or the length
/// of `path`.
pub open spec fn first_place(path: Seq<int>, t: int, from: int) -> int
    decreases path.len() - from,
{
    if from < 0 || from >= path.len() {
        path.len() as int
    } else if path[from] == t {
        from
    } else {
        first_place(path, t, from + 1)
    }
}

/// How far a walk through the graph has come: the places it has been to, and
/// the cycles it has met, each as the places on it.
pub struct Walk {
    pub visited: Seq<bool>,
    pub found: Seq<Seq<int>>,
}

/// The walk `w` carried on from the place `u`, which `path` has led to: `u` is
/// marked, and every dependency of the ticket there is followed in turn.
pub open spec fn walk_from(tickets: Seq<TicketView>, u: int, path: Seq<int>, w: Walk) -> Walk
    decreases tickets.len() - path.len(), 0int,
{
    if !(0 <= u < tickets.len()) || u >= w.visited.len() || path.len() >= tickets.len() {
        w
    } else {
        walk_edges(
            tickets,
            targets(tickets, tickets[u].meta.deps),
            0,
            path.push(u),
            Walk { visited: w.visited.update(u, true), found: w.found },
        )
    }
}

/// The walk `w` carried on along the edges `out` of the last place of `path`,
/// from the `j`th on. An edge to a place not yet visited is followed. An edge
/// back to a place on `path` closes a cycle, which is the part of `path` from
/// that place on. An edge to a place that was left behind is passed over.
pub open spec fn walk_edges(
    tickets: Seq<TicketView>,
    out: Seq<int>,
    j: int,
    path: Seq<int>,
    w: Walk,
) -> Walk
    decreases tickets.len() - path.len(), out.len() - j + 1,
{
    if j < 0 || j >= out.len() {
        w
    } else {
        let t = out[j];
        let next = if 0 <= t < w.visited.len() && !w.visited[t] {
            walk_from(tickets, t, path, w)
        } else if path.contains(t) {
            Walk { found: w.found.push(path.skip(first_place(path, t, 0))), ..w }
        } else {
            w
        };
        walk_edges(tickets, out, j + 1, path, next)
    }
}

/// The walk `w` carried on through the tickets from the `i`th on: from each in
/// turn, the place that stands for its id is walked from unless it was
/// visited already.
pub open spec fn sweep(tickets: Seq<TicketView>, i: int, w: Walk) -> Walk
    decreases tickets.len() - i,
{
    if i < 0 || i >= tickets.len() {
        w
    } else {
        let next = match last_place_of(tickets, tickets[i].meta.id) {
            Some(u) => if 0 <= u < w.visited.len() && !w.visited[u] {
                walk_from(tickets, u, Seq::empty(), w)
            } else {
                w
            },
            None => w,
        };
        sweep(tickets, i + 1, next)
    }
}

/// The ids of the tickets at the places `c`.
pub open spec fn ids_at(tickets: Seq<TicketView>, c: Seq<int>) -> Seq<Seq<char>> {
    c.map_values(|i: int| tickets[i].meta.id)
}

/// The cycles that a depth-first walk through `tickets` meets, in the order in
/// which it meets them, each as the ids on it.
pub open spec fn cycles_of(tickets: Seq<TicketView>) -> Seq<Seq<Seq<char>>> {
    let start = Walk {
        visited: Seq::new(tickets.len(), |i: int| false),
        found: Seq::empty(),
    };
    sweep(tickets, 0, start).found.map_values(|c: Seq<int>| ids_at(tickets, c))
}

/// The cycles of a list as lists of ids.
pub open spec fn cycle_names(cycles: Seq<Vec<String>>) -> Seq<Seq<Seq<char>>> {
    cycles.map_values(|c: Vec<String>| names(c@))
}

/// Places as specifications count them.
pub open spec fn ints(places: Seq<usize>) -> Seq<int> {
    places.map_values(|i: usize| i as int)
}

/// The rows of a table of edges.
spec fn rows(edges: Seq<Vec<usize>>) -> Seq<Seq<usize>> {
    edges.map_values(|row: Vec<usize>| row@)
}

/// One of `deps` is the id of a ticket, and `w` is the last place with that id.
spec fn resolves(tickets: Seq<TicketView>, deps: Seq<Seq<char>>, w: usize) -> bool {
    exists|q: int| 0 <= q < deps.len() && #[trigger] last_with_id(tickets, deps[q], w as int)
}

/// `g` holds, for each ticket, the places of the tickets it waits for.
spec fn wired(tickets: Seq<TicketView>, g: Seq<Seq<usize>>) -> bool {
    &&& g.len() == tickets.len()
    &&& forall|u: int, j: int|
        0 <= u < g.len() && 0 <= j < g[u].len() ==> resolves(
            tickets,
            tickets[u].meta.deps,
            #[trigger] g[u][j],
        )
    &&& forall|u: int, w: usize|
        0 <= u < g.len() && #[trigger] resolves(tickets, tickets[u].meta.deps, w)
            ==> g[u].contains(w)
}

proof fn lemma_resolves_step(tickets: Seq<TicketView>, deps: Seq<Seq<char>>, p: int, w: usize)
    requires
        0 <= p < deps.len(),
    ensures
        resolves(tickets, deps.take(p + 1), w) <==> resolves(tickets, deps.take(p), w)
            || last_with_id(tickets, deps[p], w as int),
{
    let a = deps.take(p);
    let b = deps.take(p + 1);
    if resolves(tickets, b, w) {
        let q = choose|q: int| 0 <= q < b.len() && #[trigger] last_with_id(tickets, b[q], w as int);
        if q < p {
            assert(last_with_id(tickets, a[q], w as int));
        }
    }
    if resolves(tickets, a, w) {
        let q = choose|q: int| 0 <= q < a.len() && #[trigger] last_with_id(tickets, a[q], w as int);
        assert(last_with_id(tickets, b[q], w as int));
    }
    if last_with_id(tickets, deps[p], w as int) {
        assert(last_with_id(tickets, b[p], w as int));
    }
}

/// How many entries of `v` are false.
spec fn unmarked(v: Seq<bool>) -> nat
    decreases v.len(),
{
    if v.len() == 0 {
        0
    } else {
        unmarked(v.drop_last()) + if v.last() {
            0nat
        } else {
            1nat
        }
    }
}

proof fn lemma_mark(v: Seq<bool>, i: int)
    requires
        0 <= i < v.len(),
        !v[i],
    ensures
        unmarked(v.update(i, true)) == unmarked(v) - 1,
    decreases v.len(),
{
    let w = v.update(i, true);
    if i == v.len() - 1 {
        assert(w.drop_last() == v.drop_last());
    } else {
        assert(w.drop_last() == v.drop_last().update(i, true));
        lemma_mark(v.drop_last(), i);
    }
}

proof fn lemma_last_unique(tickets: Seq<TicketView>, id: Seq<char>, i: int, j: int)
    requires
        last_with_id(tickets, id, i),
        last_with_id(tickets, id, j),
    ensures
        i == j,
{
    if i < j {
        assert(tickets[j].meta.id != id);
    } else if j < i {
        assert(tickets[i].meta.id != id);
    }
}

/// `g` holds, for each ticket, the places that its dependencies lead to, in order.
spec fn wired_exactly(tickets: Seq<TicketView>, g: Seq<Seq<usize>>) -> bool {
    &&& g.len() == tickets.len()
    &&& forall|u: int|
        0 <= u < g.len() ==> ints(#[trigger] g[u]) == targets(tickets, tickets[u].meta.deps)
}

proof fn lemma_last_place(tickets: Seq<TicketView>, id: Seq<char>, i: int)
    requires
        last_with_id(tickets, id, i),
    ensures
        last_place_of(tickets, id) == Some(i),
{
    let j = choose|j: int| last_with_id(tickets, id, j);
    lemma_last_unique(tickets, id, i, j);
}

/// An index from each id to the last place where a ticket carries it.
fn index_by_id(tickets: &[Ticket]) -> (m: StringHashMap<usize>)
    ensures
        forall|id: Seq<char>| #[trigger]
            m@.contains_key(id) ==> last_with_id(views(tickets@), id, m@[id] as int),
        forall|j: int|
            0 <= j < tickets.len() ==> m@.contains_key((#[trigger] views(tickets@)[j]).meta.id),
{
    let ghost all = views(tickets@);
    let mut m: StringHashMap<usize> = StringHashMap::new();
    let mut i: usize = 0;
    while i < tickets.len()
        invariant
            i <= tickets.len(),
            all == views(tickets@),
            forall|id: Seq<char>| #[trigger]
                m@.contains_key(id) ==> {
                    &&& m@[id] < i
                    &&& all[m@[id] as int].meta.id == id
                    &&& forall|j: int| m@[id] < j < i ==> (#[trigger] all[j]).meta.id != id
                },
            forall|j: int| 0 <= j < i ==> m@.contains_key((#[trigger] all[j]).meta.id),
        decreases tickets.len() - i,
    {
        assert(all[i as int] == tickets@[i as int]@);
        m.insert(tickets[i].meta.id.clone(), i);
        i += 1;
    }
    m
}

/// For each ticket, the places of the tickets it waits for, in the order of
/// its dependencies.
fn wire(tickets: &[Ticket], m: &StringHashMap<usize>) -> (edges: Vec<Vec<usize>>)
    requires
        forall|id: Seq<char>| #[trigger]
            m@.contains_key(id) ==> last_with_id(views(tickets@), id, m@[id] as int),
        forall|j: int|
            0 <= j < tickets.len() ==> m@.contains_key((#[trigger] views(tickets@)[j]).meta.id),
    ensures
        wired(views(tickets@), rows(edges@)),
        wired_exactly(views(tickets@), rows(edges@)),
{
    let ghost all = views(tickets@);
    let mut edges: Vec<Vec<usize>> = Vec::new();
    let mut u: usize = 0;
    while u < tickets.len()
        invariant
            u <= tickets.len(),
            all == views(tickets@),
            edges.len() == u,
            forall|id: Seq<char>| #[trigger]
                m@.contains_key(id) ==> last_with_id(all, id, m@[id] as int),
            forall|j: int| 0 <= j < tickets.len() ==> m@.contains_key((#[trigger] all[j]).meta.id),
            forall|v: int, j: int|
                0 <= v < u && 0 <= j < rows(edges@)[v].len() ==> resolves(
                    all,
                    all[v].meta.deps,
                    #[trigger] rows(edges@)[v][j],
                ),
            forall|v: int, w: usize|
                0 <= v < u && #[trigger] resolves(all, all[v].meta.deps, w) ==> rows(
                    edges@,
                )[v].contains(w),
            forall|v: int|
                0 <= v < u ==> ints(#[trigger] rows(edges@)[v]) == targets(all, all[v].meta.deps),
        decreases tickets.len() - u,
    {
        let t = &tickets[u];
        assert(all[u as int] == t@);
        let ghost deps = t@.meta.deps;
        let mut row: Vec<usize> = Vec::new();
        let mut p: usize = 0;
        assert(deps.take(0) =~= Seq::<Seq<char>>::empty());
        assert(ints(row@) =~= Seq::<int>::empty());
        while p < t.meta.deps.len()
            invariant
                p <= t.meta.deps.len(),
                deps == t@.meta.deps,
                ints(row@) == targets(all, deps.take(p as int)),
                forall|id: Seq<char>| #[trigger]
                    m@.contains_key(id) ==> last_with_id(all, id, m@[id] as int),
                forall|j: int| 0 <= j < all.len() ==> m@.contains_key((#[trigger] all[j]).meta.id),
                forall|j: int|
                    0 <= j < row.len() ==> resolves(all, deps.take(p as int), #[trigger] row@[j]),
                forall|w: usize| #[trigger]
                    resolves(all, deps.take(p as int), w) ==> row@.contains(w),
            decreases t.meta.deps.len() - p,
        {
            let dep = &t.meta.deps[p];
            assert(deps[p as int] == dep@);
            let ghost before = row@;
            let found = m.get(dep.as_str());
            proof {
                assert(deps.take(p + 1).drop_last() =~= deps.take(p as int));
                assert(deps.take(p + 1).last() == dep@);
            }
            if let Some(w) = found {
                row.push(*w);
                proof {
                    assert(row@[before.len() as int] == *w);
                    lemma_last_place(all, dep@, *w as int);
                    assert(ints(row@) =~= ints(before).push(*w as int));
                }
            } else {
                proof {
                    if exists|i: int| last_with_id(all, dep@, i) {
                        let i = choose|i: int| last_with_id(all, dep@, i);
                        assert(m@.contains_key(all[i].meta.id));
                    }
                }
            }
            proof {
                assert forall|j: int| 0 <= j < row.len() implies resolves(
                    all,
                    deps.take(p + 1),
                    #[trigger] row@[j],
                ) by {
                    lemma_resolves_step(all, deps, p as int, row@[j]);
                    if j < before.len() {
                        assert(row@[j] == before[j]);
                    }
                }
                assert forall|w: usize| #[trigger]
                    resolves(all, deps.take(p + 1), w) implies row@.contains(w) by {
                    lemma_resolves_step(all, deps, p as int, w);
                    if resolves(all, deps.take(p as int), w) {
                        let j = choose|j: int| 0 <= j < before.len() && before[j] == w;
                        assert(row@[j] == w);
                    } else {
                        assert(m@.contains_key(all[w as int].meta.id));
                        lemma_last_unique(all, dep@, w as int, m@[dep@] as int);
                        assert(row@[before.len() as int] == w);
                    }
                }
            }
            p += 1;
        }
        assert(deps.take(p as int) == deps);
        let ghost before = rows(edges@);
        edges.push(row);
        assert(rows(edges@) =~= before.push(row@));
        assert forall|v: int| 0 <= v < u + 1 implies ints(#[trigger] rows(edges@)[v]) == targets(
            all,
            all[v].meta.deps,
        ) by {
            if v < u {
                assert(rows(edges@)[v] == before[v]);
            }
        }
        u += 1;
    }
    edges
}

/// The place `i` stands for its own id.
spec fn canonical(tickets: Seq<TicketView>, i: int) -> bool {
    0 <= i < tickets.len() && last_with_id(tickets, tickets[i].meta.id, i)
}

/// `w` stands in `done` before the place `a`.
spec fn earlier(done: Seq<usize>, a: int, w: usize) -> bool {
    exists|b: int| 0 <= b < a && #[trigger] done[b] == w
}

/// Whatever a node of `done` leads to was done before it.
#[verifier::opaque]
spec fn settled(g: Seq<Seq<usize>>, done: Seq<usize>) -> bool {
    forall|a: int, j: int|
        0 <= a < done.len() && 0 <= j < g[done[a] as int].len() ==> earlier(
            done,
            a,
            #[trigger] g[done[a] as int][j],
        )
}

/// Each node of `path` leads to the next.
#[verifier::opaque]
spec fn linked(g: Seq<Seq<usize>>, path: Seq<usize>) -> bool {
    forall|k: int| 0 <= k < path.len() - 1 ==> g[(#[trigger] path[k]) as int].contains(path[k + 1])
}

/// The state of a depth-first walk: `path` leads from a root to the node in
/// hand, `done` lists the nodes that were left behind in the order in which
/// they were left, and as long as no cycle was met (`clean`) `done` is settled.
#[verifier::opaque]
spec fn sound(
    g: Seq<Seq<usize>>,
    visited: Seq<bool>,
    on_path: Seq<bool>,
    path: Seq<usize>,
    done: Seq<usize>,
    clean: bool,
) -> bool {
    let n = g.len();
    &&& n <= usize::MAX
    &&& visited.len() == n
    &&& on_path.len() == n
    &&& forall|u: int, j: int| 0 <= u < n && 0 <= j < g[u].len() ==> (#[trigger] g[u][j]) < n
    &&& forall|k: int|
        0 <= k < path.len() ==> (#[trigger] path[k]) < n && on_path[path[k] as int]
            && visited[path[k] as int]
    &&& forall|v: int| 0 <= v < n && #[trigger] on_path[v] ==> path.contains(v as usize)
    &&& linked(g, path)
    &&& forall|a: int|
        0 <= a < done.len() ==> (#[trigger] done[a]) < n && visited[done[a] as int]
            && !on_path[done[a] as int]
    &&& forall|v: int|
        0 <= v < n && #[trigger] visited[v] && !on_path[v] ==> done.contains(v as usize)
    &&& clean ==> settled(g, done)
}

/// Every node of `path` stands for its own id.
spec fn all_canonical(tickets: Seq<TicketView>, path: Seq<usize>) -> bool {
    forall|k: int| 0 <= k < path.len() ==> canonical(tickets, (#[trigger] path[k]) as int)
}

/// Every entry of `cycles` is a round trip.
pub open spec fn all_cycles(tickets: Seq<TicketView>, cycles: Seq<Vec<String>>) -> bool {
    forall|k: int| 0 <= k < cycles.len() ==> is_cycle(tickets, names((#[trigger] cycles[k])@))
}

/// The ids of the tickets on `path` from `start` on.
spec fn ids_from(tickets: Seq<TicketView>, path: Seq<usize>, start: int) -> Seq<Seq<char>> {
    Seq::new((path.len() - start) as nat, |i: int| tickets[path[start + i] as int].meta.id)
}

proof fn lemma_edge(tickets: Seq<TicketView>, g: Seq<Seq<usize>>, u: int, j: int)
    requires
        wired(tickets, g),
        canonical(tickets, u),
        0 <= j < g[u].len(),
    ensures
        canonical(tickets, g[u][j] as int),
        depends_on(tickets, tickets[u].meta.id, tickets[g[u][j] as int].meta.id),
{
    let w = g[u][j];
    let deps = tickets[u].meta.deps;
    assert(resolves(tickets, deps, w));
    let q = choose|q: int| 0 <= q < deps.len() && #[trigger] last_with_id(tickets, deps[q], w as int);
    assert(deps.contains(deps[q]));
    assert(has_id(tickets, deps[q]));
    assert(last_with_id(tickets, tickets[u].meta.id, u));
}

proof fn lemma_path_cycle(
    tickets: Seq<TicketView>,
    g: Seq<Seq<usize>>,
    path: Seq<usize>,
    start: int,
)
    requires
        wired(tickets, g),
        all_canonical(tickets, path),
        0 <= start < path.len(),
        linked(g, path),
        g[path.last() as int].contains(path[start]),
    ensures
        is_cycle(tickets, ids_from(tickets, path, start)),
{
    reveal(linked);
    let c = ids_from(tickets, path, start);
    assert forall|k: int| 0 <= k < c.len() implies depends_on(
        tickets,
        c[k],
        c[#[trigger] next_on(c.len(), k)],
    ) by {
        let u = path[start + k];
        assert(canonical(tickets, u as int));
        if k + 1 < c.len() {
            let w = path[start + k + 1];
            assert(g[u as int].contains(w));
            let j = choose|j: int| 0 <= j < g[u as int].len() && g[u as int][j] == w;
            lemma_edge(tickets, g, u as int, j);
        } else {
            let w = path[start];
            assert(u == path.last());
            let j = choose|j: int| 0 <= j < g[u as int].len() && g[u as int][j] == w;
            lemma_edge(tickets, g, u as int, j);
        }
    }
}

/// Adds the cycle that the edge from the end of `path` back to `w` closes.
fn report(
    tickets: &[Ticket],
    edges: &Vec<Vec<usize>>,
    path: &Vec<usize>,
    w: usize,
    cycles: &mut Vec<Vec<String>>,
)
    requires
        wired(views(tickets@), rows(edges@)),
        all_canonical(views(tickets@), path@),
        path@.contains(w),
        linked(rows(edges@), path@),
        rows(edges@)[path@.last() as int].contains(w),
        all_cycles(views(tickets@), old(cycles)@),
    ensures
        all_cycles(views(tickets@), final(cycles)@),
        final(cycles).len() == old(cycles).len() + 1,
        cycle_names(final(cycles)@) == cycle_names(old(cycles)@).push(
            ids_at(
                views(tickets@),
                ints(path@).skip(first_place(ints(path@), w as int, 0)),
            ),
        ),
{
    let ghost all = views(tickets@);
    let ghost wide = ints(path@);
    let mut start: usize = 0;
    while path[start] != w
        invariant
            start < path.len(),
            wide == ints(path@),
            exists|k: int| start <= k < path.len() && path@[k] == w,
            first_place(wide, w as int, 0) == first_place(wide, w as int, start as int),
        decreases path.len() - start,
    {
        assert(wide[start as int] == path@[start as int] as int);
        start += 1;
    }
    assert(wide[start as int] == path@[start as int] as int);
    assert(first_place(wide, w as int, 0) == start);
    let mut c: Vec<String> = Vec::new();
    let mut k: usize = start;
    while k < path.len()
        invariant
            start <= k <= path.len(),
            all == views(tickets@),
            all_canonical(all, path@),
            names(c@) == ids_from(all, path@, start as int).take(k - start),
        decreases path.len() - k,
    {
        let at = path[k];
        assert(canonical(all, at as int));
        assert(all[at as int] == tickets@[at as int]@);
        let ghost before = names(c@);
        c.push(tickets[at].meta.id.clone());
        assert(names(c@) =~= before.push(all[at as int].meta.id));
        assert(names(c@) =~= ids_from(all, path@, start as int).take(k + 1 - start));
        k += 1;
    }
    proof {
        assert(names(c@) =~= ids_from(all, path@, start as int));
        lemma_path_cycle(all, rows(edges@), path@, start as int);
    }
    let ghost before = cycles@;
    proof {
        assert(names(c@) =~= ids_at(all, wide.skip(start as int))) by {
            assert forall|i: int| 0 <= i < path.len() - start implies ids_from(
                all,
                path@,
                start as int,
            )[i] == ids_at(all, wide.skip(start as int))[i] by {
                assert(wide.skip(start as int)[i] == path@[start + i] as int);
            }
        }
    }
    cycles.push(c);
    assert forall|i: int| 0 <= i < cycles.len() implies is_cycle(
        all,
        names((#[trigger] cycles@[i])@),
    ) by {
        if i < before.len() {
            assert(cycles@[i] == before[i]);
        }
    }
    assert(cycle_names(cycles@) =~= cycle_names(before).push(names(c@)));
}

/// What holds of a node `w` in a sound state.
proof fn lemma_sound_at(
    g: Seq<Seq<usize>>,
    visited: Seq<bool>,
    on_path: Seq<bool>,
    path: Seq<usize>,
    done: Seq<usize>,
    clean: bool,
    w: int,
)
    requires
        sound(g, visited, on_path, path, done, clean),
        0 <= w < g.len(),
    ensures
        g.len() <= usize::MAX,
        visited.len() == g.len(),
        on_path.len() == g.len(),
        linked(g, path),
        on_path[w] ==> path.contains(w as usize) && visited[w],
        visited[w] && !on_path[w] ==> done.contains(w as usize),
        !visited[w] ==> !path.contains(w as usize),
        !on_path[w] ==> !path.contains(w as usize),
        forall|j: int| 0 <= j < g[w].len() ==> (#[trigger] g[w][j]) < g.len(),
        sound(g, visited, on_path, path, done, false),
{
    reveal(sound);
    if on_path[w] {
        let k = choose|k: int| 0 <= k < path.len() && path[k] == w as usize;
        assert(visited[path[k] as int]);
    }
    if path.contains(w as usize) {
        let k = choose|k: int| 0 <= k < path.len() && path[k] == w as usize;
        assert(visited[path[k] as int]);
        assert(on_path[path[k] as int]);
    }
}

/// Stepping onto the node `u`, which was not visited before.
proof fn lemma_enter(
    g: Seq<Seq<usize>>,
    visited: Seq<bool>,
    on_path: Seq<bool>,
    path: Seq<usize>,
    done: Seq<usize>,
    clean: bool,
    u: int,
)
    requires
        sound(g, visited, on_path, path, done, clean),
        0 <= u < g.len() <= usize::MAX,
        !visited[u],
        path.len() > 0 ==> g[path.last() as int].contains(u as usize),
    ensures
        sound(
            g,
            visited.update(u, true),
            on_path.update(u, true),
            path.push(u as usize),
            done,
            clean,
        ),
        !on_path[u],
        !path.contains(u as usize),
{
    reveal(sound);
    reveal(linked);
    lemma_sound_at(g, visited, on_path, path, done, clean, u);
    let visited2 = visited.update(u, true);
    let on_path2 = on_path.update(u, true);
    let path2 = path.push(u as usize);
    assert forall|k: int| 0 <= k < path2.len() - 1 implies g[(#[trigger] path2[k]) as int].contains(
        path2[k + 1],
    ) by {
        if k < path.len() - 1 {
            assert(path2[k] == path[k]);
            assert(path2[k + 1] == path[k + 1]);
        } else {
            assert(path2[k] == path.last());
        }
    }
    assert forall|v: int| 0 <= v < g.len() && #[trigger] on_path2[v] implies path2.contains(
        v as usize,
    ) by {
        if v == u {
            assert(path2[path.len() as int] == u as usize);
        } else {
            assert(on_path[v]);
            let k = choose|k: int| 0 <= k < path.len() && path[k] == v as usize;
            assert(path2[k] == v as usize);
        }
    }
    assert forall|k: int| 0 <= k < path2.len() implies (#[trigger] path2[k]) < g.len()
        && on_path2[path2[k] as int] && visited2[path2[k] as int] by {
        if k < path.len() {
            assert(path2[k] == path[k]);
        }
    }
    assert forall|v: int|
        0 <= v < g.len() && #[trigger] visited2[v] && !on_path2[v] implies done.contains(
        v as usize,
    ) by {
        assert(visited[v] && !on_path[v]);
    }
    assert forall|a: int| 0 <= a < done.len() implies (#[trigger] done[a]) < g.len()
        && visited2[done[a] as int] && !on_path2[done[a] as int] by {
        assert(visited[done[a] as int]);
    }
}

/// Stepping back from the node `u` once all that it leads to was looked at.
proof fn lemma_leave(
    g: Seq<Seq<usize>>,
    visited: Seq<bool>,
    on_path: Seq<bool>,
    path: Seq<usize>,
    left: Seq<usize>,
    clean: bool,
    u: int,
)
    requires
        0 <= u < g.len() <= usize::MAX,
        on_path.len() == g.len(),
        sound(g, visited, on_path.update(u, true), path.push(u as usize), left, clean),
        !on_path[u],
        !path.contains(u as usize),
        clean ==> forall|i: int| 0 <= i < g[u].len() ==> left.contains(#[trigger] g[u][i]),
    ensures
        sound(g, visited, on_path, path, left.push(u as usize), clean),
{
    reveal(sound);
    reveal(linked);
    reveal(settled);
    let on_path2 = on_path.update(u, true);
    let path2 = path.push(u as usize);
    let done = left.push(u as usize);
    assert(path2[path.len() as int] == u as usize);
    assert forall|k: int| 0 <= k < path.len() implies (#[trigger] path[k]) < g.len()
        && on_path[path[k] as int] && visited[path[k] as int] by {
        assert(path2[k] == path[k]);
        assert(path.contains(path[k]));
    }
    assert forall|v: int| 0 <= v < g.len() && #[trigger] on_path[v] implies path.contains(
        v as usize,
    ) by {
        assert(on_path2[v]);
        let k = choose|k: int| 0 <= k < path2.len() && path2[k] == v as usize;
        assert(path[k] == v as usize);
    }
    assert forall|k: int| 0 <= k < path.len() - 1 implies g[(#[trigger] path[k]) as int].contains(
        path[k + 1],
    ) by {
        assert(path2[k] == path[k]);
        assert(path2[k + 1] == path[k + 1]);
    }
    assert forall|a: int| 0 <= a < done.len() implies (#[trigger] done[a]) < g.len()
        && visited[done[a] as int] && !on_path[done[a] as int] by {
        if a < left.len() {
            assert(done[a] == left[a]);
            assert(!on_path2[left[a] as int]);
        } else {
            assert(visited[path2[path.len() as int] as int]);
        }
    }
    assert forall|v: int|
        0 <= v < g.len() && #[trigger] visited[v] && !on_path[v] implies done.contains(
        v as usize,
    ) by {
        if v == u {
            assert(done[left.len() as int] == u as usize);
        } else {
            assert(!on_path2[v]);
            assert(left.contains(v as usize));
            let b = choose|b: int| 0 <= b < left.len() && left[b] == v as usize;
            assert(done[b] == v as usize);
        }
    }
    if clean {
        assert forall|a: int, i: int|
            0 <= a < done.len() && 0 <= i < g[done[a] as int].len() implies earlier(
            done,
            a,
            #[trigger] g[done[a] as int][i],
        ) by {
            if a < left.len() {
                assert(done[a] == left[a]);
                assert(earlier(left, a, g[left[a] as int][i]));
                let b = choose|b: int| 0 <= b < a && #[trigger] left[b] == g[left[a] as int][i];
                assert(done[b] == left[b]);
            } else {
                assert(left.contains(g[u][i]));
                let b = choose|b: int| 0 <= b < left.len() && left[b] == g[u][i];
                assert(done[b] == left[b]);
            }
        }
    }
}

/// What was done stays done when more is done after it.
proof fn lemma_still_done(before: Seq<usize>, after: Seq<usize>, w: usize)
    requires
        before.len() <= after.len(),
        forall|a: int| 0 <= a < before.len() ==> after[a] == before[a],
        before.contains(w),
    ensures
        after.contains(w),
{
    let b = choose|b: int| 0 <= b < before.len() && before[b] == w;
    assert(after[b] == w);
}

/// The cycles of `cycles` are those at the places `found`.
spec fn named(tickets: Seq<TicketView>, cycles: Seq<Vec<String>>, found: Seq<Seq<int>>) -> bool {
    cycle_names(cycles) == found.map_values(|c: Seq<int>| ids_at(tickets, c))
}

proof fn lemma_named_push(
    tickets: Seq<TicketView>,
    before: Seq<Vec<String>>,
    after: Seq<Vec<String>>,
    found: Seq<Seq<int>>,
    c: Seq<int>,
)
    requires
        named(tickets, before, found),
        cycle_names(after) == cycle_names(before).push(ids_at(tickets, c)),
    ensures
        named(tickets, after, found.push(c)),
{
    assert(found.push(c).map_values(|c: Seq<int>| ids_at(tickets, c)) =~= found.map_values(
        |c: Seq<int>| ids_at(tickets, c),
    ).push(ids_at(tickets, c)));
}

proof fn lemma_unmarked_blank(v: Seq<bool>)
    requires
        forall|i: int| 0 <= i < v.len() ==> !v[i],
    ensures
        unmarked(v) == v.len(),
    decreases v.len(),
{
    if v.len() > 0 {
        lemma_unmarked_blank(v.drop_last());
    }
}

proof fn lemma_on_path(path: Seq<usize>, w: usize)
    ensures
        path.contains(w) <==> ints(path).contains(w as int),
{
    if path.contains(w) {
        let k = choose|k: int| 0 <= k < path.len() && path[k] == w;
        assert(ints(path)[k] == w as int);
    }
    if ints(path).contains(w as int) {
        let k = choose|k: int| 0 <= k < ints(path).len() && ints(path)[k] == w as int;
        assert(path[k] == w);
    }
}

/// Walks on from the node `u`, which was not visited before, and leaves it done.
fn visit(
    tickets: &[Ticket],
    edges: &Vec<Vec<usize>>,
    u: usize,
    visited: &mut Vec<bool>,
    on_path: &mut Vec<bool>,
    path: &mut Vec<usize>,
    cycles: &mut Vec<Vec<String>>,
    Ghost(done0): Ghost<Seq<usize>>,
    Ghost(found0): Ghost<Seq<Seq<int>>>,
) -> (r: (Ghost<Seq<usize>>, Ghost<Seq<Seq<int>>>))
    requires
        wired(views(tickets@), rows(edges@)),
        wired_exactly(views(tickets@), rows(edges@)),
        old(path).len() + unmarked(old(on_path)@) == tickets.len(),
        named(views(tickets@), old(cycles)@, found0),
        sound(
            rows(edges@),
            old(visited)@,
            old(on_path)@,
            old(path)@,
            done0,
            old(cycles).len() == 0,
        ),
        canonical(views(tickets@), u as int),
        !old(visited)@[u as int],
        all_canonical(views(tickets@), old(path)@),
        old(path).len() > 0 ==> rows(edges@)[old(path)@.last() as int].contains(u),
        all_cycles(views(tickets@), old(cycles)@),
    ensures
        sound(
            rows(edges@),
            final(visited)@,
            final(on_path)@,
            final(path)@,
            r.0@,
            final(cycles).len() == 0,
        ),
        (Walk { visited: final(visited)@, found: r.1@ }) == walk_from(
            views(tickets@),
            u as int,
            ints(old(path)@),
            Walk { visited: old(visited)@, found: found0 },
        ),
        named(views(tickets@), final(cycles)@, r.1@),
        final(path)@ == old(path)@,
        final(on_path)@ == old(on_path)@,
        final(visited)@.len() == old(visited)@.len(),
        final(visited)@[u as int],
        forall|v: int| 0 <= v < old(visited).len() && old(visited)@[v] ==> final(visited)@[v],
        unmarked(final(visited)@) < unmarked(old(visited)@),
        done0.len() <= r.0@.len(),
        forall|a: int| 0 <= a < done0.len() ==> r.0@[a] == done0[a],
        old(cycles).len() <= final(cycles).len(),
        all_cycles(views(tickets@), final(cycles)@),
    decreases unmarked(old(visited)@),
{
    let ghost all = views(tickets@);
    let ghost g = rows(edges@);
    let ghost vis0 = visited@;
    let ghost on0 = on_path@;
    let ghost path0 = path@;
    let ghost cycles0 = cycles@;
    let ghost goal = walk_from(
        all,
        u as int,
        ints(path0),
        Walk { visited: vis0, found: found0 },
    );
    let ghost out = targets(all, all[u as int].meta.deps);
    proof {
        lemma_sound_at(g, vis0, on0, path0, done0, cycles.len() == 0, u as int);
        lemma_mark(vis0, u as int);
        lemma_mark(on0, u as int);
        lemma_enter(g, vis0, on0, path0, done0, cycles.len() == 0, u as int);
        assert(ints(path0.push(u)) =~= ints(path0).push(u as int));
        assert(out == ints(g[u as int]));
    }
    visited[u] = true;
    on_path[u] = true;
    path.push(u);
    let ghost mut done = done0;
    let ghost mut found = found0;
    proof {
        assert forall|k: int| 0 <= k < path@.len() implies canonical(
            all,
            (#[trigger] path@[k]) as int,
        ) by {
            if k < path0.len() {
                assert(path@[k] == path0[k]);
            }
        }
    }
    let mut j: usize = 0;
    while j < edges[u].len()
        invariant
            all == views(tickets@),
            g == rows(edges@),
            vis0 == old(visited)@,
            wired(all, g),
            canonical(all, u as int),
            u < g.len(),
            j <= g[u as int].len(),
            g[u as int] == edges@[u as int]@,
            sound(g, visited@, on_path@, path@, done, cycles.len() == 0),
            path@ == path0.push(u),
            on_path@ == on0.update(u as int, true),
            all_canonical(all, path@),
            vis0.len() == visited@.len(),
            forall|v: int| 0 <= v < vis0.len() && vis0[v] ==> visited@[v],
            visited@[u as int],
            unmarked(visited@) < unmarked(vis0),
            done0.len() <= done.len(),
            forall|a: int| 0 <= a < done0.len() ==> done[a] == done0[a],
            cycles0.len() <= cycles.len(),
            all_cycles(all, cycles@),
            cycles.len() == 0 ==> forall|i: int|
                0 <= i < j ==> done.contains(#[trigger] g[u as int][i]),
            wired_exactly(all, g),
            path@.len() + unmarked(on_path@) == tickets.len(),
            named(all, cycles@, found),
            out == ints(g[u as int]),
            walk_edges(
                all,
                out,
                j as int,
                ints(path@),
                Walk { visited: visited@, found },
            ) == goal,
        decreases g[u as int].len() - j,
    {
        let w = edges[u][j];
        let ghost before = done;
        let ghost cycles_before = cycles@;
        proof {
            lemma_edge(all, g, u as int, j as int);
            assert(g[u as int][j as int] == w);
            assert(out[j as int] == w as int);
            assert(path@.last() == u);
            lemma_sound_at(g, visited@, on_path@, path@, done, cycles.len() == 0, u as int);
            lemma_sound_at(g, visited@, on_path@, path@, done, cycles.len() == 0, w as int);
            lemma_on_path(path@, w);
        }
        if !visited[w] {
            let r = visit(
                tickets,
                edges,
                w,
                visited,
                on_path,
                path,
                cycles,
                Ghost(done),
                Ghost(found),
            );
            proof {
                done = r.0@;
                found = r.1@;
                lemma_sound_at(g, visited@, on_path@, path@, done, cycles.len() == 0, w as int);
            }
        } else if on_path[w] {
            report(tickets, edges, path, w, cycles);
            proof {
                let c = ints(path@).skip(first_place(ints(path@), w as int, 0));
                lemma_named_push(all, cycles_before, cycles@, found, c);
                found = found.push(c);
            }
        }
        proof {
            if cycles.len() == 0 {
                assert forall|i: int| 0 <= i < j + 1 implies done.contains(
                    #[trigger] g[u as int][i],
                ) by {
                    if i < j {
                        lemma_still_done(before, done, g[u as int][i]);
                    }
                }
            }
        }
        j += 1;
    }
    proof {
        lemma_sound_at(g, visited@, on_path@, path@, done, cycles.len() == 0, u as int);
        lemma_leave(g, visited@, on0, path0, done, cycles.len() == 0, u as int);
    }
    path.pop();
    on_path[u] = false;
    proof {
        assert(path@ == path0);
        assert(on_path@ =~= on0);
        done = done.push(u);
    }
    (Ghost(done), Ghost(found))
}

proof fn lemma_done_off_cycle(g: Seq<Seq<usize>>, done: Seq<usize>, c: Seq<usize>, a: int)
    requires
        settled(g, done),
        c.len() > 0,
        forall|k: int|
            0 <= k < c.len() ==> g[c[k] as int].contains(c[#[trigger] next_on(c.len(), k)]),
        0 <= a < done.len(),
    ensures
        forall|k: int| 0 <= k < c.len() ==> #[trigger] c[k] != done[a],
    decreases a,
{
    assert forall|k: int| 0 <= k < c.len() implies #[trigger] c[k] != done[a] by {
        if c[k] == done[a] {
            let next = next_on(c.len(), k);
            let w = c[next];
            assert(0 <= next < c.len());
            assert(g[c[k] as int].contains(w));
            let j = choose|j: int| 0 <= j < g[c[k] as int].len() && g[c[k] as int][j] == w;
            assert(earlier(done, a, g[done[a] as int][j])) by {
                reveal(settled);
            }
            let b = choose|b: int| 0 <= b < a && #[trigger] done[b] == w;
            lemma_done_off_cycle(g, done, c, b);
            assert(c[next] != done[b]);
        }
    }
}

/// An edge between ids is an edge between the places that stand for them.
proof fn lemma_depends_edge(
    tickets: Seq<TicketView>,
    g: Seq<Seq<usize>>,
    a: Seq<char>,
    b: Seq<char>,
    i: int,
    w: usize,
)
    requires
        wired(tickets, g),
        depends_on(tickets, a, b),
        last_with_id(tickets, a, i),
        last_with_id(tickets, b, w as int),
    ensures
        g[i].contains(w),
{
    let i2 = choose|i2: int|
        #[trigger] last_with_id(tickets, a, i2) && tickets[i2].meta.deps.contains(b) && has_id(
            tickets,
            b,
        );
    lemma_last_unique(tickets, a, i, i2);
    let deps = tickets[i].meta.deps;
    let q = choose|q: int| 0 <= q < deps.len() && deps[q] == b;
    assert(last_with_id(tickets, deps[q], w as int));
    assert(resolves(tickets, deps, w));
}

/// The place that stands for an id which waits for another.
proof fn lemma_depends_place(tickets: Seq<TicketView>, a: Seq<char>, b: Seq<char>) -> (i: int)
    requires
        depends_on(tickets, a, b),
    ensures
        last_with_id(tickets, a, i),
{
    choose|i: int|
        #[trigger] last_with_id(tickets, a, i) && tickets[i].meta.deps.contains(b) && has_id(
            tickets,
            b,
        )
}

/// The places that stand for the ids of a cycle, up to `n` of them.
proof fn lemma_cycle_places(tickets: Seq<TicketView>, c: Seq<Seq<char>>, n: int) -> (idx: Seq<
    usize,
>)
    requires
        is_cycle(tickets, c),
        0 <= n <= c.len(),
        tickets.len() <= usize::MAX,
    ensures
        idx.len() == n,
        forall|k: int| 0 <= k < n ==> last_with_id(tickets, c[k], (#[trigger] idx[k]) as int),
    decreases n,
{
    if n == 0 {
        Seq::empty()
    } else {
        let rest = lemma_cycle_places(tickets, c, n - 1);
        assert(depends_on(tickets, c[n - 1], c[next_on(c.len(), n - 1)]));
        let i = lemma_depends_place(tickets, c[n - 1], c[next_on(c.len(), n - 1)]);
        let idx = rest.push(i as usize);
        assert forall|k: int| 0 <= k < n implies last_with_id(
            tickets,
            c[k],
            (#[trigger] idx[k]) as int,
        ) by {
            if k < n - 1 {
                assert(idx[k] == rest[k]);
            }
        }
        idx
    }
}

proof fn lemma_settled_acyclic(tickets: Seq<TicketView>, g: Seq<Seq<usize>>, done: Seq<usize>)
    requires
        wired(tickets, g),
        settled(g, done),
        tickets.len() <= usize::MAX,
        forall|v: int| canonical(tickets, v) ==> done.contains(v as usize),
    ensures
        !has_cycle(tickets),
{
    if has_cycle(tickets) {
        let c = choose|c: Seq<Seq<char>>| is_cycle(tickets, c);
        let idx = lemma_cycle_places(tickets, c, c.len() as int);
        assert forall|k: int| 0 <= k < idx.len() implies g[idx[k] as int].contains(
            idx[#[trigger] next_on(idx.len(), k)],
        ) by {
            let next = next_on(c.len(), k);
            assert(depends_on(tickets, c[k], c[next]));
            assert(last_with_id(tickets, c[next], idx[next] as int));
            lemma_depends_edge(tickets, g, c[k], c[next], idx[k] as int, idx[next]);
        }
        assert(last_with_id(tickets, c[0], idx[0] as int));
        assert(canonical(tickets, idx[0] as int));
        assert(done.contains(idx[0]));
        let a = choose|a: int| 0 <= a < done.len() && done[a] == idx[0];
        lemma_done_off_cycle(g, done, idx, a);
        assert(idx[0] != done[a]);
    }
}

/// A walk that has not begun is sound.
proof fn lemma_start(tickets: Seq<TicketView>, g: Seq<Seq<usize>>, blank: Seq<bool>)
    requires
        wired(tickets, g),
        blank.len() == g.len() <= usize::MAX,
        forall|v: int| 0 <= v < blank.len() ==> !blank[v],
    ensures
        sound(g, blank, blank, Seq::empty(), Seq::empty(), true),
{
    reveal(sound);
    reveal(linked);
    reveal(settled);
    assert forall|u: int, j: int| 0 <= u < g.len() && 0 <= j < g[u].len() implies (
    #[trigger] g[u][j]) < g.len() by {
        assert(resolves(tickets, tickets[u].meta.deps, g[u][j]));
    }
}

/// The cycles among the dependencies of `tickets`, each as the ids on it in
/// the order in which one waits for the next, the last waiting for the first.
///
/// The tickets are walked depth first, in their order and each along its
/// dependencies in their order, and every edge that leads back onto the way
/// that was come gives a cycle: the part of the way from the ticket that was
/// met again. A ticket that was left behind is not walked from again. Every
/// list returned is a cycle, and there is one at least whenever the
/// dependencies hold a cycle at all.
pub fn find_cycles(tickets: &[Ticket]) -> (cycles: Vec<Vec<String>>)
    ensures
        cycle_names(cycles@) == cycles_of(views(tickets@)),
        all_cycles(views(tickets@), cycles@),
        cycles.len() == 0 <==> !has_cycle(views(tickets@)),
{
    let ghost all = views(tickets@);
    let n = tickets.len();
    let m = index_by_id(tickets);
    let edges = wire(tickets, &m);
    let ghost g = rows(edges@);
    let mut visited: Vec<bool> = Vec::new();
    let mut on_path: Vec<bool> = Vec::new();
    let mut i: usize = 0;
    while i < n
        invariant
            i <= n,
            visited.len() == i,
            on_path.len() == i,
            visited@ == on_path@,
            forall|v: int| 0 <= v < i ==> !visited@[v],
        decreases n - i,
    {
        visited.push(false);
        on_path.push(false);
        i += 1;
    }
    let mut path: Vec<usize> = Vec::new();
    let mut cycles: Vec<Vec<String>> = Vec::new();
    let ghost mut done: Seq<usize> = Seq::empty();
    let ghost mut found: Seq<Seq<int>> = Seq::empty();
    let ghost start = Walk { visited: Seq::new(all.len(), |i: int| false), found: Seq::empty() };
    proof {
        lemma_start(all, g, visited@);
        lemma_unmarked_blank(on_path@);
        assert(visited@ =~= start.visited);
        assert(cycle_names(cycles@) =~= found.map_values(|c: Seq<int>| ids_at(all, c)));
        assert(ints(path@) =~= Seq::<int>::empty());
    }
    let mut i: usize = 0;
    while i < n
        invariant
            i <= n,
            n == tickets.len(),
            n == g.len(),
            all == views(tickets@),
            g == rows(edges@),
            wired(all, g),
            wired_exactly(all, g),
            unmarked(on_path@) == n,
            named(all, cycles@, found),
            sweep(all, i as int, Walk { visited: visited@, found }) == sweep(all, 0, start),
            forall|id: Seq<char>| #[trigger]
                m@.contains_key(id) ==> last_with_id(all, id, m@[id] as int),
            forall|j: int| 0 <= j < n ==> m@.contains_key((#[trigger] all[j]).meta.id),
            sound(g, visited@, on_path@, path@, done, cycles.len() == 0),
            path@.len() == 0,
            visited@.len() == n,
            all_cycles(all, cycles@),
            forall|v: int| 0 <= v < i && canonical(all, v) ==> visited@[v],
        decreases n - i,
    {
        assert(all[i as int] == tickets@[i as int]@);
        let ghost before = visited@;
        if let Some(at) = m.get(tickets[i].meta.id.as_str()) {
            let u = *at;
            proof {
                if canonical(all, i as int) {
                    lemma_last_unique(all, all[i as int].meta.id, i as int, u as int);
                }
                lemma_last_place(all, all[i as int].meta.id, u as int);
                assert(ints(path@) =~= Seq::<int>::empty());
            }
            if !visited[u] {
                let r = visit(
                    tickets,
                    &edges,
                    u,
                    &mut visited,
                    &mut on_path,
                    &mut path,
                    &mut cycles,
                    Ghost(done),
                    Ghost(found),
                );
                proof {
                    done = r.0@;
                    found = r.1@;
                }
            }
        }
        i += 1;
    }
    proof {
        if cycles.len() == 0 {
            assert forall|v: int| canonical(all, v) implies done.contains(v as usize) by {
                lemma_sound_at(g, visited@, on_path@, path@, done, true, v);
            }
            assert(settled(g, done)) by {
                reveal(sound);
            }
            lemma_settled_acyclic(all, g, done);
        } else {
            assert(is_cycle(all, names(cycles@[0]@)));
        }
    }
    cycles
}

} // verus!
