//! The store: the tickets that are kept, the active ones and the archived
//! ones, and where each has its document.
//!
//! The store holds the tickets in memory. Whoever keeps them in files reads
//! the files into the store and repeats on the files what is done to the store.

use crate::document;
use crate::error::{Error, Missing};
use crate::text::{has_prefix, matches_at, to_chars};
use crate::types::{first_with_id, names, no_such_id, position, views, Ticket, TicketView};
use vstd::prelude::*;
use vstd::string::*;

verus! {

/// The place of the first ticket with the id `id`, if there is one.
pub open spec fn place_of(tickets: Seq<TicketView>, id: Seq<char>) -> Option<int> {
    if exists|i: int| first_with_id(tickets, id, i) {
        Some(choose|i: int| first_with_id(tickets, id, i))
    } else {
        None
    }
}

/// No two tickets have the same id.
pub open spec fn distinct_ids(tickets: Seq<TicketView>) -> bool {
    forall|i: int, j: int|
        0 <= i < j < tickets.len() ==> (#[trigger] tickets[i]).meta.id != (
        #[trigger] tickets[j]).meta.id
}

/// `tickets` without the first ticket of id `id`.
pub open spec fn without(tickets: Seq<TicketView>, id: Seq<char>) -> Seq<TicketView> {
    match place_of(tickets, id) {
        Some(i) => tickets.remove(i),
        None => tickets,
    }
}

/// `tickets` with `t` in the place of the first ticket of the same id, or at
/// the end if there is none.
pub open spec fn put(tickets: Seq<TicketView>, t: TicketView) -> Seq<TicketView> {
    match place_of(tickets, t.meta.id) {
        Some(i) => tickets.update(i, t),
        None => tickets.push(t),
    }
}

/// The tickets whose id begins with `prefix`.
pub open spec fn beginning_with(tickets: Seq<TicketView>, prefix: Seq<char>) -> Seq<TicketView> {
    tickets.filter(|t: TicketView| prefix.is_prefix_of(t.meta.id))
}

/// The ticket that `prefix` stands for: the one whose id it is, or else the
/// only one whose id begins with it. Several such tickets are an error that
/// says how many, and none is no ticket.
pub open spec fn resolve(tickets: Seq<TicketView>, prefix: Seq<char>) -> Result<
    Option<TicketView>,
    Error,
> {
    match place_of(tickets, prefix) {
        Some(i) => Ok(Some(tickets[i])),
        None => {
            let found = beginning_with(tickets, prefix);
            if found.len() == 0 {
                Ok(None)
            } else if found.len() == 1 {
                Ok(Some(found[0]))
            } else {
                Err(Error::AmbiguousReference { matches: found.len() as usize })
            }
        },
    }
}

/// The store as specifications see it.
pub struct StorageView {
    pub root: Seq<char>,
    pub archive_root: Seq<char>,
    pub initialized: bool,
    pub active: Seq<TicketView>,
    pub archived: Seq<TicketView>,
}

impl StorageView {
    /// Every ticket of the store, the active ones first.
    pub open spec fn all(self) -> Seq<TicketView> {
        self.active + self.archived
    }

    /// No id is held twice, be it among the active tickets, among the archived
    /// ones, or once in each.
    pub open spec fn wf(self) -> bool {
        distinct_ids(self.all())
    }

    /// The store after `t` was saved: `t` is active, in the place of the
    /// active ticket of its id if there was one, and no archived ticket has its id.
    pub open spec fn save(self, t: TicketView) -> StorageView {
        StorageView {
            active: put(self.active, t),
            archived: without(self.archived, t.meta.id),
            ..self
        }
    }

    /// The store after the active ticket at `i` was moved to the archive.
    pub open spec fn archive_at(self, i: int) -> StorageView {
        StorageView {
            active: self.active.remove(i),
            archived: without(self.archived, self.active[i].meta.id).push(self.active[i]),
            ..self
        }
    }

    /// The store after the archived ticket at `i` was moved back.
    pub open spec fn unarchive_at(self, i: int) -> StorageView {
        StorageView {
            active: without(self.active, self.archived[i].meta.id).push(self.archived[i]),
            archived: self.archived.remove(i),
            ..self
        }
    }

    /// The store without the ticket of id `id`: the active one if there is
    /// one, else the archived one.
    pub open spec fn delete(self, id: Seq<char>) -> StorageView {
        match place_of(self.active, id) {
            Some(i) => StorageView { active: self.active.remove(i), ..self },
            None => StorageView { archived: without(self.archived, id), ..self },
        }
    }

    /// The store after the active ticket `id` was moved to the archive; the
    /// store as it is where no active ticket has that id.
    pub open spec fn archive(self, id: Seq<char>) -> StorageView {
        match place_of(self.active, id) {
            Some(i) => self.archive_at(i),
            None => self,
        }
    }

    /// The store after the archived ticket `id` was moved back; the store as it
    /// is where no archived ticket has that id.
    pub open spec fn unarchive(self, id: Seq<char>) -> StorageView {
        match place_of(self.archived, id) {
            Some(i) => self.unarchive_at(i),
            None => self,
        }
    }

    /// Some active ticket has the id `id`.
    pub open spec fn is_active(self, id: Seq<char>) -> bool {
        place_of(self.active, id) is Some
    }

    /// Some archived ticket has the id `id`.
    pub open spec fn is_archived(self, id: Seq<char>) -> bool {
        place_of(self.archived, id) is Some
    }
}

/// The first ticket with an id is found by `place_of`.
pub proof fn lemma_place_of(tickets: Seq<TicketView>, id: Seq<char>, i: int)
    requires
        first_with_id(tickets, id, i),
    ensures
        place_of(tickets, id) == Some(i),
{
    let j = choose|j: int| first_with_id(tickets, id, j);
    if j < i {
        assert(tickets[j].meta.id != id);
    } else if i < j {
        assert(tickets[i].meta.id != id);
    }
}

/// Where no ticket has the id, `place_of` finds none.
pub proof fn lemma_no_place(tickets: Seq<TicketView>, id: Seq<char>)
    requires
        no_such_id(tickets, id),
    ensures
        place_of(tickets, id) is None,
{
    if exists|i: int| first_with_id(tickets, id, i) {
        let i = choose|i: int| first_with_id(tickets, id, i);
        assert(tickets[i].meta.id != id);
    }
}

/// What `place_of` finds, read the other way.
pub proof fn lemma_place_found(tickets: Seq<TicketView>, id: Seq<char>)
    ensures
        match place_of(tickets, id) {
            Some(i) => first_with_id(tickets, id, i),
            None => no_such_id(tickets, id),
        },
{
    if !(exists|i: int| first_with_id(tickets, id, i)) {
        if !no_such_id(tickets, id) {
            let j = choose|j: int| 0 <= j < tickets.len() && (#[trigger] tickets[j]).meta.id == id;
            lemma_first_exists(tickets, id, j);
        }
    }
}

proof fn lemma_first_exists(tickets: Seq<TicketView>, id: Seq<char>, j: int)
    requires
        0 <= j < tickets.len(),
        tickets[j].meta.id == id,
    ensures
        exists|i: int| first_with_id(tickets, id, i),
    decreases j,
{
    if forall|k: int| 0 <= k < j ==> (#[trigger] tickets[k]).meta.id != id {
        assert(first_with_id(tickets, id, j));
    } else {
        let k = choose|k: int| 0 <= k < j && (#[trigger] tickets[k]).meta.id == id;
        lemma_first_exists(tickets, id, k);
    }
}

/// The place of the ticket that `prefix` stands for among `tickets`.
pub fn resolve_prefix(tickets: &[Ticket], prefix: &str) -> (r: Result<Option<usize>, Error>)
    ensures
        match resolve(views(tickets@), prefix@) {
            Ok(Some(t)) => r is Ok && r->Ok_0 is Some && r->Ok_0->0 < tickets.len() && views(
                tickets@,
            )[r->Ok_0->0 as int] == t,
            Ok(None) => r == Ok::<Option<usize>, Error>(None),
            Err(e) => r == Err::<Option<usize>, Error>(e),
        },
{
    let ghost all = views(tickets@);
    let wanted = prefix.to_owned();
    match position(tickets, &wanted) {
        Some(i) => {
            proof {
                lemma_place_of(all, prefix@, i as int);
            }
            return Ok(Some(i));
        },
        None => {
            proof {
                lemma_no_place(all, prefix@);
            }
        },
    }
    let pat = to_chars(prefix);
    let ghost pred = |t: TicketView| prefix@.is_prefix_of(t.meta.id);
    let mut count: usize = 0;
    let mut first: usize = 0;
    let mut i: usize = 0;
    proof {
        reveal(Seq::filter);
        assert(all.take(0) =~= Seq::<TicketView>::empty());
    }
    while i < tickets.len()
        invariant
            i <= tickets.len(),
            all == views(tickets@),
            pat@ == prefix@,
            pred == |t: TicketView| prefix@.is_prefix_of(t.meta.id),
            count == all.take(i as int).filter(pred).len(),
            count <= i,
            count > 0 ==> first < i && all.take(i as int).filter(pred)[0] == all[first as int],
        decreases tickets.len() - i,
    {
        let id = to_chars(tickets[i].meta.id.as_str());
        proof {
            reveal(Seq::filter);
            assert(all[i as int] == tickets@[i as int]@);
            assert(all.take(i + 1).drop_last() =~= all.take(i as int));
            assert(all.take(i + 1).last() == all[i as int]);
        }
        if has_prefix(id.as_slice(), pat.as_slice()) {
            if count == 0 {
                first = i;
            }
            count += 1;
        }
        i += 1;
    }
    proof {
        assert(all.take(i as int) =~= all);
    }
    if count == 0 {
        Ok(None)
    } else if count == 1 {
        Ok(Some(first))
    } else {
        Err(Error::AmbiguousReference { matches: count })
    }
}

/// The ids of `tickets`.
pub open spec fn ids(tickets: Seq<TicketView>) -> Seq<Seq<char>> {
    tickets.map_values(|t: TicketView| t.meta.id)
}

/// A copy of a list of tickets.
pub fn clone_tickets(v: &Vec<Ticket>) -> (r: Vec<Ticket>)
    ensures
        views(r@) == views(v@),
{
    let mut r: Vec<Ticket> = Vec::new();
    let mut i: usize = 0;
    while i < v.len()
        invariant
            i <= v.len(),
            views(r@) == views(v@).take(i as int),
        decreases v.len() - i,
    {
        let ghost before = views(r@);
        r.push(v[i].clone());
        assert(views(r@) =~= before.push(v@[i as int]@));
        assert(views(v@).take(i + 1) =~= views(v@).take(i as int).push(v@[i as int]@));
        i += 1;
    }
    assert(views(v@).take(i as int) =~= views(v@));
    r
}

/// Takes the first ticket of id `id` out of `v`.
fn take_out(v: &mut Vec<Ticket>, id: &String) -> (r: Option<Ticket>)
    ensures
        views(final(v)@) == without(views(old(v)@), id@),
        match place_of(views(old(v)@), id@) {
            Some(i) => r is Some && r->0@ == views(old(v)@)[i],
            None => r is None,
        },
{
    let ghost before = views(v@);
    match position(v.as_slice(), id) {
        Some(i) => {
            proof {
                lemma_place_of(before, id@, i as int);
            }
            let t = v.remove(i);
            assert(views(v@) =~= before.remove(i as int));
            Some(t)
        },
        None => {
            proof {
                lemma_no_place(before, id@);
            }
            None
        },
    }
}

/// Puts `t` in the place of the first ticket of its id, or at the end.
fn put_in(v: &mut Vec<Ticket>, t: Ticket)
    ensures
        views(final(v)@) == put(views(old(v)@), t@),
{
    let ghost before = views(v@);
    match position(v.as_slice(), &t.meta.id) {
        Some(i) => {
            proof {
                lemma_place_of(before, t@.meta.id, i as int);
            }
            v[i] = t;
            assert(views(v@) =~= before.update(i as int, t@));
        },
        None => {
            proof {
                lemma_no_place(before, t@.meta.id);
            }
            v.push(t);
            assert(views(v@) =~= before.push(t@));
        },
    }
}

/// The store: where it lives, whether it was set up, and its tickets.
#[derive(Debug)]
pub struct Storage {
    tickets_dir: String,
    archive_dir: String,
    initialized: bool,
    active: Vec<Ticket>,
    archived: Vec<Ticket>,
}

impl View for Storage {
    type V = StorageView;

    closed spec fn view(&self) -> StorageView {
        StorageView {
            root: self.tickets_dir@,
            archive_root: self.archive_dir@,
            initialized: self.initialized,
            active: views(self.active@),
            archived: views(self.archived@),
        }
    }
}

/// The path of `name` in the directory `dir`: the two with a slash between
/// them, unless `dir` is empty or ends with one.
pub open spec fn joined(dir: Seq<char>, name: Seq<char>) -> Seq<char> {
    if dir.len() == 0 || dir.last() == '/' {
        dir + name
    } else {
        dir + seq!['/'] + name
    }
}

/// The path of the document of the ticket `id` in the directory `dir`.
pub open spec fn document_path(dir: Seq<char>, id: Seq<char>) -> Seq<char> {
    joined(dir, id + document_ending())
}

/// The directory of the archive under `root`.
pub open spec fn archive_under(root: Seq<char>) -> Seq<char> {
    joined(root, seq!['a', 'r', 'c', 'h', 'i', 'v', 'e'])
}

/// The name of the tracking directory.
pub open spec fn tracking_dir() -> Seq<char> {
    seq!['.', 't', 'i', 'c', 'k', 'e', 't', 's']
}

/// The ending of a document's name.
pub open spec fn document_ending() -> Seq<char> {
    seq!['.', 'm', 'd']
}

/// `name` is the name of a ticket document: something, then the ending `.md`.
pub open spec fn is_document(name: Seq<char>) -> bool {
    name.len() > 3 && name.skip(name.len() - 3) == document_ending()
}

/// Where the store is: the directory named outright, if one is; else the
/// tracking directory of the nearest of `ancestors` that has one, the working
/// directory coming first and each parent after its child; else the tracking
/// directory that the working directory is to get. `has_store` says of each
/// ancestor whether it has a tracking directory.
pub open spec fn root_of(
    explicit: Option<Seq<char>>,
    ancestors: Seq<Seq<char>>,
    has_store: Seq<bool>,
) -> Seq<char> {
    match explicit {
        Some(dir) => dir,
        None => if ancestors.len() == 0 {
            tracking_dir()
        } else {
            joined(ancestors[nearest_store(ancestors.len() as int, has_store, 0)], tracking_dir())
        },
    }
}

/// The first place from `from` on, below `n`, that `has_store` holds of; 0 if
/// there is none.
pub open spec fn nearest_store(n: int, has_store: Seq<bool>, from: int) -> int
    decreases n - from,
{
    if from < 0 || from >= n {
        0
    } else if from < has_store.len() && has_store[from] {
        from
    } else {
        nearest_store(n, has_store, from + 1)
    }
}

/// `dir`, with a slash after it unless it is empty or ends with one.
fn dir_with_slash(dir: &str) -> (r: String)
    ensures
        forall|name: Seq<char>| r@ + name == #[trigger] joined(dir@, name),
{
    let chars = to_chars(dir);
    let mut r = dir.to_owned();
    if chars.len() > 0 && chars[chars.len() - 1] != '/' {
        r.push('/');
    }
    assert forall|name: Seq<char>| r@ + name == #[trigger] joined(dir@, name) by {
        assert(r@ + name =~= joined(dir@, name));
    }
    r
}

fn path_in(dir: &str, id: &str) -> (r: String)
    ensures
        r@ == document_path(dir@, id@),
{
    let mut r = dir_with_slash(dir);
    let ghost head = r@;
    r.append(id);
    r.push('.');
    r.push('m');
    r.push('d');
    assert(r@ =~= head + (id@ + document_ending()));
    r
}

impl Storage {
    /// An empty store in `.tickets` under the working directory, not yet set up.
    pub fn new() -> (r: Storage)
        ensures
            r@ == (StorageView {
                root: tracking_dir(),
                archive_root: archive_under(tracking_dir()),
                initialized: false,
                active: Seq::empty(),
                archived: Seq::empty(),
            }),
    {
        let mut root = String::new();
        root.push('.');
        root.push('t');
        root.push('i');
        root.push('c');
        root.push('k');
        root.push('e');
        root.push('t');
        root.push('s');
        assert(root@ =~= tracking_dir());
        Storage::at(root)
    }

    /// An empty store in the directory `root`, not yet set up.
    pub fn at(root: String) -> (r: Storage)
        ensures
            r@ == (StorageView {
                root: root@,
                archive_root: archive_under(root@),
                initialized: false,
                active: Seq::empty(),
                archived: Seq::empty(),
            }),
    {
        let mut archive = dir_with_slash(root.as_str());
        let ghost head = archive@;
        archive.append("archive");
        proof {
            reveal_strlit("archive");
            assert(archive@ =~= head + seq!['a', 'r', 'c', 'h', 'i', 'v', 'e']);
        }
        let r = Storage {
            tickets_dir: root,
            archive_dir: archive,
            initialized: false,
            active: Vec::new(),
            archived: Vec::new(),
        };
        assert(r@.active =~= Seq::empty());
        assert(r@.archived =~= Seq::empty());
        r
    }

    /// Sets the store up, and says whether that was still to be done.
    pub fn init(&mut self) -> (fresh: bool)
        ensures
            fresh == !old(self)@.initialized,
            final(self)@ == (StorageView { initialized: true, ..old(self)@ }),
    {
        let fresh = !self.initialized;
        self.initialized = true;
        fresh
    }

    /// Whether the store was set up.
    pub fn is_initialized(&self) -> (b: bool)
        ensures
            b == self@.initialized,
    {
        self.initialized
    }

    /// The directory of the active tickets.
    pub fn tickets_dir(&self) -> (r: &str)
        ensures
            r@ == self@.root,
    {
        self.tickets_dir.as_str()
    }

    /// The directory of the archived tickets.
    pub fn archive_dir(&self) -> (r: &str)
        ensures
            r@ == self@.archive_root,
    {
        self.archive_dir.as_str()
    }

    /// Where the document of the active ticket `id` is kept.
    pub fn ticket_path(&self, id: &str) -> (r: String)
        ensures
            r@ == document_path(self@.root, id@),
    {
        path_in(self.tickets_dir.as_str(), id)
    }

    /// Where the document of the archived ticket `id` is kept.
    pub fn archive_path(&self, id: &str) -> (r: String)
        ensures
            r@ == document_path(self@.archive_root, id@),
    {
        path_in(self.archive_dir.as_str(), id)
    }

    /// Whether `name` is the name of a ticket document.
    pub fn is_document_name(name: &str) -> (b: bool)
        ensures
            b == is_document(name@),
    {
        let chars = to_chars(name);
        let ending: Vec<char> = vec!['.', 'm', 'd'];
        assert(ending@ == document_ending());
        if chars.len() <= 3 {
            return false;
        }
        let b = matches_at(chars.as_slice(), ending.as_slice(), chars.len() - 3);
        assert(chars@.subrange(chars.len() - 3, chars.len() as int) == chars@.skip(
            chars.len() - 3,
        ));
        b
    }

    /// Where the store is. See `root_of`.
    pub fn locate_root(explicit: Option<&str>, ancestors: &[String], has_store: &[bool]) -> (r:
        String)
        ensures
            r@ == root_of(
                match explicit {
                    Some(dir) => Some(dir@),
                    None => None,
                },
                names(ancestors@),
                has_store@,
            ),
    {
        if let Some(dir) = explicit {
            return dir.to_owned();
        }
        let n: usize = ancestors.len();
        let mut at: usize = 0;
        let mut i: usize = 0;
        while i < n
            invariant_except_break
                at == 0,
                nearest_store(n as int, has_store@, 0) == nearest_store(
                    n as int,
                    has_store@,
                    i as int,
                ),
            invariant
                i <= n,
                n == ancestors.len(),
            ensures
                at < n || n == 0,
                n > 0 ==> at == nearest_store(n as int, has_store@, 0),
            decreases n - i,
        {
            if i < has_store.len() && has_store[i] {
                at = i;
                break ;
            }
            i += 1;
        }
        let mut r = if n > 0 {
            dir_with_slash(ancestors[at].as_str())
        } else {
            String::new()
        };
        let ghost head = r@;
        r.push('.');
        r.push('t');
        r.push('i');
        r.push('c');
        r.push('k');
        r.push('e');
        r.push('t');
        r.push('s');
        proof {
            assert(r@ =~= head + tracking_dir());
            if n > 0 {
                assert(names(ancestors@)[at as int] == ancestors@[at as int]@);
            }
        }
        r
    }

    /// The title of `body` and the text under it.
    pub fn extract_title(body: &str) -> (r: (String, &str))
        ensures
            r.0@ == document::title_and_text(body@).0,
            r.1@ == document::title_and_text(body@).1,
    {
        document::extract_title(body)
    }

    /// Takes in a ticket that was read from its document, unless the store
    /// holds a ticket of that id already. Says whether it was taken in.
    pub fn adopt(&mut self, ticket: Ticket, archived: bool) -> (added: bool)
        ensures
            added == (place_of(old(self)@.all(), ticket@.meta.id) is None),
            !added ==> final(self)@ == old(self)@,
            added && archived ==> final(self)@ == (StorageView {
                archived: old(self)@.archived.push(ticket@),
                ..old(self)@
            }),
            added && !archived ==> final(self)@ == (StorageView {
                active: old(self)@.active.push(ticket@),
                ..old(self)@
            }),
            old(self)@.wf() ==> final(self)@.wf(),
    {
        let ghost before = self@;
        proof {
            lemma_place_found(before.all(), ticket@.meta.id);
            lemma_place_found(before.active, ticket@.meta.id);
            lemma_place_found(before.archived, ticket@.meta.id);
        }
        let known = match position(self.active.as_slice(), &ticket.meta.id) {
            Some(i) => {
                proof {
                    assert(before.all()[i as int] == before.active[i as int]);
                    if place_of(before.all(), ticket@.meta.id) is None {
                        assert(before.all()[i as int].meta.id != ticket@.meta.id);
                    }
                }
                true
            },
            None => match position(self.archived.as_slice(), &ticket.meta.id) {
                Some(i) => {
                    proof {
                        assert(before.all()[before.active.len() + i] == before.archived[i as int]);
                        if place_of(before.all(), ticket@.meta.id) is None {
                            assert(before.all()[before.active.len() + i].meta.id
                                != ticket@.meta.id);
                        }
                    }
                    true
                },
                None => {
                    proof {
                        assert forall|j: int| 0 <= j < before.all().len() implies (
                        #[trigger] before.all()[j]).meta.id != ticket@.meta.id by {
                            if j < before.active.len() {
                                assert(before.all()[j] == before.active[j]);
                            } else {
                                assert(before.all()[j] == before.archived[j
                                    - before.active.len()]);
                            }
                        }
                        lemma_no_place(before.all(), ticket@.meta.id);
                    }
                    false
                },
            },
        };
        if known {
            return false;
        }
        let ghost t = ticket@;
        if archived {
            self.archived.push(ticket);
            assert(self@.archived =~= before.archived.push(t));
        } else {
            self.active.push(ticket);
            assert(self@.active =~= before.active.push(t));
        }
        proof {
            if before.wf() {
                lemma_pushed_wf(before, t, archived);
            }
        }
        true
    }

    /// The ticket of id `id`: the active one, else the archived one.
    pub fn load(&self, id: &str) -> (r: Option<Ticket>)
        ensures
            match place_of(self@.active, id@) {
                Some(i) => r is Some && r->0@ == self@.active[i],
                None => match place_of(self@.archived, id@) {
                    Some(i) => r is Some && r->0@ == self@.archived[i],
                    None => r is None,
                },
            },
    {
        let wanted = id.to_owned();
        match position(self.active.as_slice(), &wanted) {
            Some(i) => {
                proof {
                    lemma_place_of(self@.active, id@, i as int);
                }
                Some(self.active[i].clone())
            },
            None => {
                proof {
                    lemma_no_place(self@.active, id@);
                }
                match position(self.archived.as_slice(), &wanted) {
                    Some(i) => {
                        proof {
                            lemma_place_of(self@.archived, id@, i as int);
                        }
                        Some(self.archived[i].clone())
                    },
                    None => {
                        proof {
                            lemma_no_place(self@.archived, id@);
                        }
                        None
                    },
                }
            },
        }
    }

    /// The active tickets.
    pub fn load_all(&self) -> (r: Vec<Ticket>)
        ensures
            views(r@) == self@.active,
    {
        clone_tickets(&self.active)
    }

    /// Every ticket, the active ones first.
    pub fn load_all_with_archived(&self) -> (r: Vec<Ticket>)
        ensures
            views(r@) == self@.all(),
    {
        let mut r = clone_tickets(&self.active);
        let mut i: usize = 0;
        while i < self.archived.len()
            invariant
                i <= self.archived.len(),
                views(r@) == self@.active + self@.archived.take(i as int),
            decreases self.archived.len() - i,
        {
            let ghost before = views(r@);
            r.push(self.archived[i].clone());
            assert(views(r@) =~= before.push(self.archived@[i as int]@));
            assert(self@.archived.take(i + 1) =~= self@.archived.take(i as int).push(
                self.archived@[i as int]@,
            ));
            assert(views(r@) =~= self@.active + self@.archived.take(i + 1));
            i += 1;
        }
        assert(self@.archived.take(i as int) =~= self@.archived);
        r
    }

    /// Saves `ticket`: it becomes an active ticket, in the place of the active
    /// ticket of its id if there is one, and the archive keeps no ticket of
    /// its id.
    pub fn save(&mut self, ticket: &Ticket)
        ensures
            final(self)@ == old(self)@.save(ticket@),
            old(self)@.wf() ==> final(self)@.wf(),
    {
        let ghost before = self@;
        let copy = ticket.clone();
        let _ = take_out(&mut self.archived, &copy.meta.id);
        put_in(&mut self.active, copy);
        proof {
            if before.wf() {
                lemma_save_wf(before, ticket@);
            }
        }
    }

    /// Moves the active ticket `id` to the archive.
    pub fn archive(&mut self, id: &str) -> (r: Result<(), Error>)
        ensures
            match place_of(old(self)@.active, id@) {
                Some(i) => r is Ok && final(self)@ == old(self)@.archive_at(i),
                None => r == Err::<(), Error>(Error::NotFound(Missing::Ticket)) && final(self)@
                    == old(self)@,
            },
            old(self)@.wf() ==> final(self)@.wf(),
    {
        let ghost before = self@;
        let wanted = id.to_owned();
        match take_out(&mut self.active, &wanted) {
            Some(t) => {
                let ghost i = place_of(before.active, id@)->0;
                proof {
                    lemma_place_found(before.active, id@);
                }
                let _ = take_out(&mut self.archived, &wanted);
                let ghost left = views(self.archived@);
                self.archived.push(t);
                proof {
                    assert(views(self.archived@) =~= left.push(before.active[i]));
                    if before.wf() {
                        lemma_archive_wf(before, i);
                    }
                }
                Ok(())
            },
            None => Err(Error::NotFound(Missing::Ticket)),
        }
    }

    /// Moves the archived ticket `id` back among the active ones.
    pub fn unarchive(&mut self, id: &str) -> (r: Result<(), Error>)
        ensures
            match place_of(old(self)@.archived, id@) {
                Some(i) => r is Ok && final(self)@ == old(self)@.unarchive_at(i),
                None => r == Err::<(), Error>(Error::NotFound(Missing::Ticket)) && final(self)@
                    == old(self)@,
            },
            old(self)@.wf() ==> final(self)@.wf(),
    {
        let ghost before = self@;
        let wanted = id.to_owned();
        match take_out(&mut self.archived, &wanted) {
            Some(t) => {
                let ghost i = place_of(before.archived, id@)->0;
                proof {
                    lemma_place_found(before.archived, id@);
                }
                let _ = take_out(&mut self.active, &wanted);
                let ghost left = views(self.active@);
                self.active.push(t);
                proof {
                    assert(views(self.active@) =~= left.push(before.archived[i]));
                    if before.wf() {
                        lemma_unarchive_wf(before, i);
                    }
                }
                Ok(())
            },
            None => Err(Error::NotFound(Missing::Ticket)),
        }
    }

    /// Removes the ticket `id` for good: the active one if there is one, else
    /// the archived one.
    pub fn delete(&mut self, id: &str) -> (r: Result<(), Error>)
        ensures
            old(self)@.is_active(id@) || old(self)@.is_archived(id@) ==> r is Ok && final(self)@
                == old(self)@.delete(id@),
            !old(self)@.is_active(id@) && !old(self)@.is_archived(id@) ==> r == Err::<(), Error>(
                Error::NotFound(Missing::Ticket),
            ) && final(self)@ == old(self)@,
            old(self)@.wf() ==> final(self)@.wf(),
    {
        let ghost before = self@;
        let wanted = id.to_owned();
        proof {
            if before.wf() {
                lemma_delete_wf(before, id@);
            }
        }
        match take_out(&mut self.active, &wanted) {
            Some(_t) => Ok(()),
            None => match take_out(&mut self.archived, &wanted) {
                Some(_t) => Ok(()),
                None => Err(Error::NotFound(Missing::Ticket)),
            },
        }
    }

    /// The ticket that `prefix` stands for among all tickets of the store.
    pub fn find_by_prefix(&self, prefix: &str) -> (r: Result<Option<Ticket>, Error>)
        ensures
            match resolve(self@.all(), prefix@) {
                Ok(Some(t)) => r is Ok && r->Ok_0 is Some && r->Ok_0->0@ == t,
                Ok(None) => r is Ok && r->Ok_0 is None,
                Err(e) => r is Err && r->Err_0 == e,
            },
    {
        let all = self.load_all_with_archived();
        match resolve_prefix(all.as_slice(), prefix) {
            Ok(Some(i)) => Ok(Some(all[i].clone())),
            Ok(None) => Ok(None),
            Err(e) => Err(e),
        }
    }

    /// The ids of all tickets, the active ones first.
    pub fn every_id(&self) -> (r: Vec<String>)
        ensures
            names(r@) == ids(self@.all()),
    {
        let all = self.load_all_with_archived();
        let mut r: Vec<String> = Vec::new();
        let mut i: usize = 0;
        while i < all.len()
            invariant
                i <= all.len(),
                views(all@) == self@.all(),
                names(r@) == ids(self@.all()).take(i as int),
            decreases all.len() - i,
        {
            let ghost before = names(r@);
            r.push(all[i].meta.id.clone());
            assert(views(all@)[i as int] == all@[i as int]@);
            assert(names(r@) =~= before.push(all@[i as int]@.meta.id));
            assert(ids(self@.all()).take(i + 1) =~= ids(self@.all()).take(i as int).push(
                all@[i as int]@.meta.id,
            ));
            i += 1;
        }
        assert(ids(self@.all()).take(i as int) =~= ids(self@.all()));
        r
    }

    /// The ids of the active tickets.
    pub fn all_ids(&self) -> (r: Vec<String>)
        ensures
            names(r@) == ids(self@.active),
    {
        let mut r: Vec<String> = Vec::new();
        let mut i: usize = 0;
        while i < self.active.len()
            invariant
                i <= self.active.len(),
                names(r@) == ids(self@.active).take(i as int),
            decreases self.active.len() - i,
        {
            let ghost before = names(r@);
            r.push(self.active[i].meta.id.clone());
            assert(names(r@) =~= before.push(self.active@[i as int]@.meta.id));
            assert(ids(self@.active).take(i + 1) =~= ids(self@.active).take(i as int).push(
                self.active@[i as int]@.meta.id,
            ));
            i += 1;
        }
        assert(ids(self@.active).take(i as int) =~= ids(self@.active));
        r
    }
}

/// Leaving a ticket out keeps the ids distinct, and leaves no ticket of the
/// id where the ids were distinct.
pub proof fn lemma_without(tickets: Seq<TicketView>, id: Seq<char>)
    ensures
        forall|k: int|
            0 <= k < without(tickets, id).len() ==> tickets.contains(
                #[trigger] without(tickets, id)[k],
            ),
        distinct_ids(tickets) ==> distinct_ids(without(tickets, id)) && no_such_id(
            without(tickets, id),
            id,
        ),
        forall|other: Seq<char>|
            other != id && #[trigger] no_such_id(tickets, other) ==> no_such_id(
                without(tickets, id),
                other,
            ),
{
    lemma_place_found(tickets, id);
    let out = without(tickets, id);
    match place_of(tickets, id) {
        Some(i) => {
            assert forall|k: int| 0 <= k < out.len() implies tickets.contains(
                #[trigger] out[k],
            ) by {
                if k < i {
                    assert(out[k] == tickets[k]);
                } else {
                    assert(out[k] == tickets[k + 1]);
                }
            }
            if distinct_ids(tickets) {
                assert forall|a: int, b: int| 0 <= a < b < out.len() implies (
                #[trigger] out[a]).meta.id != (#[trigger] out[b]).meta.id by {
                    let a2 = if a < i {
                        a
                    } else {
                        a + 1
                    };
                    let b2 = if b < i {
                        b
                    } else {
                        b + 1
                    };
                    assert(out[a] == tickets[a2] && out[b] == tickets[b2]);
                }
                assert forall|k: int| 0 <= k < out.len() implies (#[trigger] out[k]).meta.id
                    != id by {
                    let k2 = if k < i {
                        k
                    } else {
                        k + 1
                    };
                    assert(out[k] == tickets[k2]);
                    if k2 < i {
                        assert(tickets[k2].meta.id != tickets[i].meta.id);
                    } else {
                        assert(tickets[i].meta.id != tickets[k2].meta.id);
                    }
                }
            }
            assert forall|other: Seq<char>|
                other != id && #[trigger] no_such_id(tickets, other) implies no_such_id(
                out,
                other,
            ) by {
                assert forall|k: int| 0 <= k < out.len() implies (#[trigger] out[k]).meta.id
                    != other by {
                    let k2 = if k < i {
                        k
                    } else {
                        k + 1
                    };
                    assert(out[k] == tickets[k2]);
                }
            }
        },
        None => {
            assert forall|k: int| 0 <= k < out.len() implies tickets.contains(
                #[trigger] out[k],
            ) by {
                assert(out[k] == tickets[k]);
            }
        },
    }
}

/// The ids of two lists taken together are distinct where they are in each
/// list and no id is in both.
proof fn lemma_joined(a: Seq<TicketView>, b: Seq<TicketView>)
    requires
        distinct_ids(a),
        distinct_ids(b),
        forall|i: int, j: int|
            0 <= i < a.len() && 0 <= j < b.len() ==> (#[trigger] a[i]).meta.id != (
            #[trigger] b[j]).meta.id,
    ensures
        distinct_ids(a + b),
{
    let c = a + b;
    assert forall|i: int, j: int| 0 <= i < j < c.len() implies (#[trigger] c[i]).meta.id != (
    #[trigger] c[j]).meta.id by {
        if j < a.len() {
            assert(c[i] == a[i] && c[j] == a[j]);
        } else if i >= a.len() {
            assert(c[i] == b[i - a.len()] && c[j] == b[j - a.len()]);
        } else {
            assert(c[i] == a[i] && c[j] == b[j - a.len()]);
        }
    }
}

/// The other way round.
pub proof fn lemma_split(a: Seq<TicketView>, b: Seq<TicketView>)
    requires
        distinct_ids(a + b),
    ensures
        distinct_ids(a),
        distinct_ids(b),
        forall|i: int, j: int|
            0 <= i < a.len() && 0 <= j < b.len() ==> (#[trigger] a[i]).meta.id != (
            #[trigger] b[j]).meta.id,
{
    let c = a + b;
    assert forall|i: int, j: int| 0 <= i < j < a.len() implies (#[trigger] a[i]).meta.id != (
    #[trigger] a[j]).meta.id by {
        assert(c[i] == a[i] && c[j] == a[j]);
    }
    assert forall|i: int, j: int| 0 <= i < j < b.len() implies (#[trigger] b[i]).meta.id != (
    #[trigger] b[j]).meta.id by {
        assert(c[i + a.len()] == b[i] && c[j + a.len()] == b[j]);
    }
    assert forall|i: int, j: int| 0 <= i < a.len() && 0 <= j < b.len() implies (
    #[trigger] a[i]).meta.id != (#[trigger] b[j]).meta.id by {
        assert(c[i] == a[i] && c[j + a.len()] == b[j]);
    }
}

/// A list with distinct ids, and a ticket whose id is not among them.
proof fn lemma_pushed(a: Seq<TicketView>, t: TicketView)
    requires
        distinct_ids(a),
        no_such_id(a, t.meta.id),
    ensures
        distinct_ids(a.push(t)),
{
    let c = a.push(t);
    assert forall|i: int, j: int| 0 <= i < j < c.len() implies (#[trigger] c[i]).meta.id != (
    #[trigger] c[j]).meta.id by {
        if j < a.len() {
            assert(c[i] == a[i] && c[j] == a[j]);
        } else {
            assert(c[i] == a[i]);
        }
    }
}

proof fn lemma_pushed_wf(s: StorageView, t: TicketView, archived: bool)
    requires
        s.wf(),
        place_of(s.all(), t.meta.id) is None,
    ensures
        archived ==> (StorageView { archived: s.archived.push(t), ..s }).wf(),
        !archived ==> (StorageView { active: s.active.push(t), ..s }).wf(),
{
    lemma_split(s.active, s.archived);
    lemma_place_found(s.all(), t.meta.id);
    assert forall|j: int| 0 <= j < s.active.len() implies (#[trigger] s.active[j]).meta.id
        != t.meta.id by {
        assert(s.all()[j] == s.active[j]);
    }
    assert forall|j: int| 0 <= j < s.archived.len() implies (#[trigger] s.archived[j]).meta.id
        != t.meta.id by {
        assert(s.all()[j + s.active.len()] == s.archived[j]);
    }
    if archived {
        lemma_pushed(s.archived, t);
        let b = s.archived.push(t);
        assert forall|i: int, j: int| 0 <= i < s.active.len() && 0 <= j < b.len() implies (
        #[trigger] s.active[i]).meta.id != (#[trigger] b[j]).meta.id by {
            if j < s.archived.len() {
                assert(b[j] == s.archived[j]);
            }
        }
        lemma_joined(s.active, b);
    } else {
        lemma_pushed(s.active, t);
        let a = s.active.push(t);
        assert forall|i: int, j: int| 0 <= i < a.len() && 0 <= j < s.archived.len() implies (
        #[trigger] a[i]).meta.id != (#[trigger] s.archived[j]).meta.id by {
            if i < s.active.len() {
                assert(a[i] == s.active[i]);
            }
        }
        lemma_joined(a, s.archived);
    }
}

/// Saving keeps the ids of the store distinct.
pub proof fn lemma_save_wf(s: StorageView, t: TicketView)
    requires
        s.wf(),
    ensures
        s.save(t).wf(),
{
    let id = t.meta.id;
    lemma_split(s.active, s.archived);
    lemma_without(s.archived, id);
    lemma_place_found(s.active, id);
    let a = put(s.active, t);
    let b = without(s.archived, id);
    match place_of(s.active, id) {
        Some(i) => {
            assert forall|x: int, y: int| 0 <= x < y < a.len() implies (#[trigger] a[x]).meta.id
                != (#[trigger] a[y]).meta.id by {
                assert(a[x].meta.id == s.active[x].meta.id);
                assert(a[y].meta.id == s.active[y].meta.id);
            }
            assert forall|x: int, y: int| 0 <= x < a.len() && 0 <= y < b.len() implies (
            #[trigger] a[x]).meta.id != (#[trigger] b[y]).meta.id by {
                assert(a[x].meta.id == s.active[x].meta.id);
                assert(s.archived.contains(b[y]));
                let k = choose|k: int| 0 <= k < s.archived.len() && s.archived[k] == b[y];
                assert(s.active[x].meta.id != s.archived[k].meta.id);
            }
        },
        None => {
            lemma_pushed(s.active, t);
            assert forall|x: int, y: int| 0 <= x < a.len() && 0 <= y < b.len() implies (
            #[trigger] a[x]).meta.id != (#[trigger] b[y]).meta.id by {
                assert(s.archived.contains(b[y]));
                let k = choose|k: int| 0 <= k < s.archived.len() && s.archived[k] == b[y];
                if x < s.active.len() {
                    assert(a[x] == s.active[x]);
                    assert(s.active[x].meta.id != s.archived[k].meta.id);
                }
            }
        },
    }
    lemma_joined(a, b);
}

/// Moving a ticket to the archive keeps the ids of the store distinct.
pub proof fn lemma_archive_wf(s: StorageView, i: int)
    requires
        s.wf(),
        0 <= i < s.active.len(),
    ensures
        s.archive_at(i).wf(),
{
    let t = s.active[i];
    let id = t.meta.id;
    lemma_split(s.active, s.archived);
    assert(first_with_id(s.active, id, i)) by {
        assert forall|j: int| 0 <= j < i implies (#[trigger] s.active[j]).meta.id != id by {}
    }
    lemma_place_of(s.active, id, i);
    lemma_without(s.active, id);
    lemma_without(s.archived, id);
    let a = s.active.remove(i);
    let left = without(s.archived, id);
    assert(no_such_id(s.archived, id));
    lemma_no_place(s.archived, id);
    lemma_pushed(left, t);
    let b = left.push(t);
    assert forall|x: int, y: int| 0 <= x < a.len() && 0 <= y < b.len() implies (
    #[trigger] a[x]).meta.id != (#[trigger] b[y]).meta.id by {
        assert(s.active.contains(a[x]));
        let k = choose|k: int| 0 <= k < s.active.len() && s.active[k] == a[x];
        if y < left.len() {
            assert(b[y] == s.archived[y]);
            assert(s.active[k].meta.id != s.archived[y].meta.id);
        }
    }
    lemma_joined(a, b);
}

/// Moving a ticket back from the archive keeps the ids of the store distinct.
pub proof fn lemma_unarchive_wf(s: StorageView, i: int)
    requires
        s.wf(),
        0 <= i < s.archived.len(),
    ensures
        s.unarchive_at(i).wf(),
{
    let t = s.archived[i];
    let id = t.meta.id;
    lemma_split(s.active, s.archived);
    assert(first_with_id(s.archived, id, i)) by {
        assert forall|j: int| 0 <= j < i implies (#[trigger] s.archived[j]).meta.id != id by {}
    }
    lemma_place_of(s.archived, id, i);
    lemma_without(s.active, id);
    lemma_without(s.archived, id);
    let b = s.archived.remove(i);
    let left = without(s.active, id);
    assert(no_such_id(s.active, id));
    lemma_no_place(s.active, id);
    lemma_pushed(left, t);
    let a = left.push(t);
    assert forall|x: int, y: int| 0 <= x < a.len() && 0 <= y < b.len() implies (
    #[trigger] a[x]).meta.id != (#[trigger] b[y]).meta.id by {
        assert(s.archived.contains(b[y]));
        let k = choose|k: int| 0 <= k < s.archived.len() && s.archived[k] == b[y];
        if x < left.len() {
            assert(a[x] == s.active[x]);
            assert(s.active[x].meta.id != s.archived[k].meta.id);
        }
    }
    lemma_joined(a, b);
}

/// Removing a ticket keeps the ids of the store distinct.
pub proof fn lemma_delete_wf(s: StorageView, id: Seq<char>)
    requires
        s.wf(),
    ensures
        s.delete(id).wf(),
{
    lemma_split(s.active, s.archived);
    lemma_without(s.active, id);
    lemma_without(s.archived, id);
    let a = without(s.active, id);
    let b = without(s.archived, id);
    match place_of(s.active, id) {
        Some(i) => {
            assert forall|x: int, y: int|
                0 <= x < a.len() && 0 <= y < s.archived.len() implies (#[trigger] a[x]).meta.id
                != (#[trigger] s.archived[y]).meta.id by {
                assert(s.active.contains(a[x]));
                let k = choose|k: int| 0 <= k < s.active.len() && s.active[k] == a[x];
                assert(s.active[k].meta.id != s.archived[y].meta.id);
            }
            lemma_joined(a, s.archived);
        },
        None => {
            assert forall|x: int, y: int|
                0 <= x < s.active.len() && 0 <= y < b.len() implies (
            #[trigger] s.active[x]).meta.id != (#[trigger] b[y]).meta.id by {
                assert(s.archived.contains(b[y]));
                let k = choose|k: int| 0 <= k < s.archived.len() && s.archived[k] == b[y];
                assert(s.active[x].meta.id != s.archived[k].meta.id);
            }
            lemma_joined(s.active, b);
        },
    }
}

/// What `resolve` finds is a ticket of the list.
pub proof fn lemma_resolved_member(tickets: Seq<TicketView>, prefix: Seq<char>)
    ensures
        resolve(tickets, prefix) matches Ok(Some(t)) ==> tickets.contains(t),
{
    lemma_place_found(tickets, prefix);
    match place_of(tickets, prefix) {
        Some(i) => {},
        None => {
            let found = beginning_with(tickets, prefix);
            if found.len() == 1 {
                assert(found.contains(found[0]));
                tickets.lemma_filter_contains_rev(
                    |t: TicketView| prefix.is_prefix_of(t.meta.id),
                    found[0],
                );
            }
        },
    }
}

/// A ticket of the store is found by its id among the active tickets or among
/// the archived ones.
pub proof fn lemma_member_placed(s: StorageView, t: TicketView)
    requires
        s.all().contains(t),
    ensures
        s.is_active(t.meta.id) || s.is_archived(t.meta.id),
{
    let k = choose|k: int| 0 <= k < s.all().len() && s.all()[k] == t;
    lemma_place_found(s.active, t.meta.id);
    lemma_place_found(s.archived, t.meta.id);
    if k < s.active.len() {
        assert(s.active[k] == t);
    } else {
        assert(s.archived[k - s.active.len()] == t);
    }
}

/// Some ticket of the list has the id `id`.
pub open spec fn holds(tickets: Seq<TicketView>, id: Seq<char>) -> bool {
    !no_such_id(tickets, id)
}

/// A list holds an id exactly if `place_of` finds a place for it.
pub proof fn lemma_holds(tickets: Seq<TicketView>, id: Seq<char>)
    ensures
        holds(tickets, id) <==> place_of(tickets, id) is Some,
{
    lemma_place_found(tickets, id);
    if place_of(tickets, id) is Some {
        let i = place_of(tickets, id)->0;
        assert(tickets[i].meta.id == id);
    }
}

/// Where the ids are distinct, the ticket of an id is found by that id, in
/// whatever place it stands.
pub proof fn lemma_found_at(tickets: Seq<TicketView>, k: int)
    requires
        distinct_ids(tickets),
        0 <= k < tickets.len(),
    ensures
        place_of(tickets, tickets[k].meta.id) == Some(k),
        resolve(tickets, tickets[k].meta.id) == Ok::<Option<TicketView>, Error>(Some(tickets[k])),
{
    assert(first_with_id(tickets, tickets[k].meta.id, k));
    lemma_place_of(tickets, tickets[k].meta.id, k);
}

/// After `put`, the ticket found by the id of `t` is `t`.
pub proof fn lemma_put_at(tickets: Seq<TicketView>, t: TicketView)
    ensures
        place_of(put(tickets, t), t.meta.id) is Some,
        put(tickets, t)[place_of(put(tickets, t), t.meta.id)->0] == t,
{
    lemma_place_found(tickets, t.meta.id);
    let after = put(tickets, t);
    match place_of(tickets, t.meta.id) {
        Some(i) => {
            assert(first_with_id(after, t.meta.id, i)) by {
                assert forall|j: int| 0 <= j < i implies (#[trigger] after[j]).meta.id
                    != t.meta.id by {
                    assert(after[j] == tickets[j]);
                }
            }
            lemma_place_of(after, t.meta.id, i);
        },
        None => {
            let n = tickets.len() as int;
            assert(first_with_id(after, t.meta.id, n)) by {
                assert forall|j: int| 0 <= j < n implies (#[trigger] after[j]).meta.id
                    != t.meta.id by {
                    assert(after[j] == tickets[j]);
                }
            }
            lemma_place_of(after, t.meta.id, n);
        },
    }
}

/// A ticket added to a list that does not hold its id is found by that id.
pub proof fn lemma_pushed_at(tickets: Seq<TicketView>, t: TicketView)
    requires
        no_such_id(tickets, t.meta.id),
    ensures
        place_of(tickets.push(t), t.meta.id) == Some(tickets.len() as int),
{
    let after = tickets.push(t);
    let n = tickets.len() as int;
    assert(first_with_id(after, t.meta.id, n)) by {
        assert forall|j: int| 0 <= j < n implies (#[trigger] after[j]).meta.id != t.meta.id by {
            assert(after[j] == tickets[j]);
        }
    }
    lemma_place_of(after, t.meta.id, n);
}

/// In a store without a doubled id, a ticket of the store is what its id
/// stands for.
pub proof fn lemma_resolves_to(s: StorageView, t: TicketView)
    requires
        s.wf(),
        s.all().contains(t),
    ensures
        resolve(s.all(), t.meta.id) == Ok::<Option<TicketView>, Error>(Some(t)),
{
    let k = choose|k: int| 0 <= k < s.all().len() && s.all()[k] == t;
    lemma_found_at(s.all(), k);
}

/// A whole id stands for the first ticket that has it, whatever other ids
/// begin with it.
pub proof fn lemma_whole_id_resolves(tickets: Seq<TicketView>, k: int)
    requires
        first_with_id(tickets, tickets[k].meta.id, k),
    ensures
        resolve(tickets, tickets[k].meta.id) == Ok::<Option<TicketView>, Error>(Some(tickets[k])),
{
    lemma_place_of(tickets, tickets[k].meta.id, k);
}

} // verus!
