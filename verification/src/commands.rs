//! What each command of the tracker does to the store.
//!
//! A command looks up the ticket it is about, changes it, and saves it. The
//! functions here do that on the store and hand back the ticket as it was
//! saved, so that its document can be written.

use crate::document::{extract_title, heading, title_and_text, untitled};
use crate::error::{Error, Invalid, Missing};
use crate::id::{generate, generate_child, is_generated, max_child, max_child_number, next_child};
use crate::storage::{
    ids, lemma_archive_wf, lemma_found_at, lemma_holds, lemma_member_placed, lemma_no_place,
    lemma_place_found, lemma_pushed_at, lemma_put_at, lemma_resolved_member, lemma_resolves_to,
    lemma_save_wf, lemma_split, lemma_unarchive_wf, lemma_without, place_of, put, resolve, without,
    Storage, StorageView,
};
use crate::text::{comma_parts, has_prefix, split_commas, string_of, to_chars, trim, trimmed};
use crate::types::{
    has_name, lookup, minute_text, names, note_line, opt_name, status_names, type_names,
    FrontmatterView, Note, Status, Ticket, TicketType, TicketView, Timestamp,
};
use vstd::prelude::*;
use vstd::string::*;

verus! {

/// The ticket that `prefix` stands for in the store, or why there is none.
pub open spec fn located(store: StorageView, prefix: Seq<char>, what: Missing) -> Result<
    TicketView,
    Error,
> {
    match resolve(store.all(), prefix) {
        Ok(Some(t)) => Ok(t),
        Ok(None) => Err(Error::NotFound(what)),
        Err(e) => Err(e),
    }
}

/// A command came out as `want` says: with the ticket saved, or with the
/// error and the store as it was.
pub open spec fn outcome(
    before: StorageView,
    after: StorageView,
    want: Result<TicketView, Error>,
    got: Result<Ticket, Error>,
) -> bool {
    match want {
        Ok(t) => got is Ok && got->Ok_0@ == t && after == before.save(t),
        Err(e) => got is Err && got->Err_0 == e && after == before,
    }
}

/// The title and text that `input` gives a ticket. The input must hold more
/// than white space, and a title line, which is demanded where the input does
/// not even begin with the heading mark.
pub open spec fn drafted(input: Seq<char>) -> Result<(Seq<char>, Seq<char>), Error> {
    let text = trim(input);
    if text.len() == 0 {
        Err(Error::InvalidInput(Invalid::EmptyInput))
    } else if title_and_text(text).0 == untitled() && !heading().is_prefix_of(
        text,
    ) {
        Err(Error::InvalidInput(Invalid::MissingTitle))
    } else {
        Ok(title_and_text(text))
    }
}

/// The tags that a comma-separated list names; none where no list is given.
pub open spec fn tags_of(list: Option<Seq<char>>) -> Seq<Seq<char>> {
    match list {
        Some(text) => comma_parts(text),
        None => Seq::empty(),
    }
}

/// `body` with `line` added: on a line of its own, after an empty line.
pub open spec fn with_line(body: Seq<char>, line: Seq<char>) -> Seq<char> {
    if body.len() == 0 {
        line
    } else if body.last() == '\n' {
        body + seq!['\n'] + line
    } else {
        body + seq!['\n', '\n'] + line
    }
}

impl TicketView {
    /// The ticket with the status `status`.
    pub open spec fn with_status(self, status: Status) -> TicketView {
        TicketView { meta: FrontmatterView { status, ..self.meta }, ..self }
    }

    /// The ticket closed at `now`.
    pub open spec fn closed_at(self, now: Timestamp) -> TicketView {
        TicketView {
            meta: FrontmatterView {
                status: Status::Closed,
                closed: Some(now),
                updated: Some(now),
                ..self.meta
            },
            ..self
        }
    }

    /// The ticket with the dependencies `deps`.
    pub open spec fn with_deps(self, deps: Seq<Seq<char>>) -> TicketView {
        TicketView { meta: FrontmatterView { deps, ..self.meta }, ..self }
    }

    /// The ticket with the title `title` and the text `body`.
    pub open spec fn with_text(self, title: Seq<char>, body: Seq<char>) -> TicketView {
        TicketView { title, body, ..self }
    }
}

/// What setting a status comes to. Setting the status `Closed` closes the
/// ticket, so that the time is recorded.
pub open spec fn status_set(
    store: StorageView,
    prefix: Seq<char>,
    name: Seq<char>,
    now: Timestamp,
) -> Result<TicketView, Error> {
    match located(store, prefix, Missing::Ticket) {
        Err(e) => Err(e),
        Ok(t) => match lookup(status_names(), name) {
            None => Err(Error::InvalidInput(Invalid::Status)),
            Some(status) => if status == Status::Closed {
                Ok(t.closed_at(now))
            } else {
                Ok(t.with_status(status).touched(now))
            },
        },
    }
}

/// What closing a ticket comes to.
pub open spec fn closed(store: StorageView, prefix: Seq<char>, now: Timestamp) -> Result<
    TicketView,
    Error,
> {
    match located(store, prefix, Missing::Ticket) {
        Err(e) => Err(e),
        Ok(t) => Ok(t.closed_at(now)),
    }
}

/// What adding a dependency comes to. A ticket cannot wait for itself, nor
/// twice for the same ticket.
pub open spec fn dependency_added(
    store: StorageView,
    prefix: Seq<char>,
    dep: Seq<char>,
    now: Timestamp,
) -> Result<TicketView, Error> {
    match located(store, prefix, Missing::Ticket) {
        Err(e) => Err(e),
        Ok(t) => match located(store, dep, Missing::Dependency) {
            Err(e) => Err(e),
            Ok(d) => if d.meta.id == t.meta.id {
                Err(Error::InvalidInput(Invalid::SelfDependency))
            } else if t.meta.deps.contains(d.meta.id) {
                Err(Error::InvalidInput(Invalid::DuplicateDependency))
            } else {
                Ok(t.with_deps(t.meta.deps.push(d.meta.id)).touched(now))
            },
        },
    }
}

/// `deps` without `id`.
pub open spec fn all_except(deps: Seq<Seq<char>>, id: Seq<char>) -> Seq<Seq<char>> {
    deps.filter(|x: Seq<char>| x != id)
}

/// What removing a dependency comes to.
pub open spec fn dependency_removed(
    store: StorageView,
    prefix: Seq<char>,
    dep: Seq<char>,
    now: Timestamp,
) -> Result<TicketView, Error> {
    match located(store, prefix, Missing::Ticket) {
        Err(e) => Err(e),
        Ok(t) => match located(store, dep, Missing::Dependency) {
            Err(e) => Err(e),
            Ok(d) => if !t.meta.deps.contains(d.meta.id) {
                Err(Error::InvalidInput(Invalid::UnknownDependency))
            } else {
                Ok(t.with_deps(all_except(t.meta.deps, d.meta.id)).touched(now))
            },
        },
    }
}

/// What replacing the title and text of a ticket comes to.
pub open spec fn edited(store: StorageView, prefix: Seq<char>, input: Seq<char>) -> Result<
    TicketView,
    Error,
> {
    match located(store, prefix, Missing::Ticket) {
        Err(e) => Err(e),
        Ok(t) => match drafted(input) {
            Err(e) => Err(e),
            Ok(text) => Ok(t.with_text(text.0, text.1)),
        },
    }
}

/// What adding a note to a ticket comes to, given the time of the note as text.
pub open spec fn noted(
    store: StorageView,
    prefix: Seq<char>,
    stamp: Option<Seq<char>>,
    author: Option<Seq<char>>,
    content: Seq<char>,
    now: Timestamp,
) -> Result<TicketView, Error> {
    match located(store, prefix, Missing::Ticket) {
        Err(e) => Err(e),
        Ok(t) => match stamp {
            None => Err(Error::InvalidInput(Invalid::Timestamp)),
            Some(text) => Ok(
                t.with_text(t.title, with_line(t.body, note_line(text, author, content))).touched(
                    now,
                ),
            ),
        },
    }
}

fn locate(storage: &Storage, prefix: &str, what: Missing) -> (r: Result<Ticket, Error>)
    ensures
        match located(storage@, prefix@, what) {
            Ok(t) => r is Ok && r->Ok_0@ == t,
            Err(e) => r is Err && r->Err_0 == e,
        },
{
    match storage.find_by_prefix(prefix) {
        Ok(Some(t)) => Ok(t),
        Ok(None) => Err(Error::NotFound(what)),
        Err(e) => Err(e),
    }
}

/// The title and text that `input` gives a ticket.
pub fn draft(input: &str) -> (r: Result<(String, String), Error>)
    ensures
        match drafted(input@) {
            Ok(text) => r is Ok && r->Ok_0.0@ == text.0 && r->Ok_0.1@ == text.1,
            Err(e) => r is Err && r->Err_0 == e,
        },
{
    let chars = to_chars(input);
    let text = trimmed(chars.as_slice());
    if text.len() == 0 {
        return Err(Error::InvalidInput(Invalid::EmptyInput));
    }
    let trimmed_input = string_of(text);
    let (title, body) = extract_title(trimmed_input.as_str());
    let mark: Vec<char> = vec!['#', ' '];
    assert(mark@ == heading());
    let untitled = "Untitled".to_owned();
    if title == untitled && !has_prefix(text, mark.as_slice()) {
        return Err(Error::InvalidInput(Invalid::MissingTitle));
    }
    Ok((title, body.to_owned()))
}

/// The tags that a comma-separated list names; none where no list is given.
pub fn parse_tags(list: Option<&str>) -> (r: Vec<String>)
    ensures
        names(r@) == tags_of(
            match list {
                Some(text) => Some(text@),
                None => None,
            },
        ),
{
    match list {
        Some(text) => split_commas(text),
        None => {
            let r: Vec<String> = Vec::new();
            assert(names(r@) =~= Seq::<Seq<char>>::empty());
            r
        },
    }
}

/// What was typed as a note, trimmed; an empty note is turned down.
pub fn note_text(typed: &str) -> (r: Result<String, Error>)
    ensures
        trim(typed@).len() == 0 ==> r == Err::<String, Error>(
            Error::InvalidInput(Invalid::EmptyNote),
        ),
        trim(typed@).len() > 0 ==> r is Ok && r->Ok_0@ == trim(typed@),
{
    let chars = to_chars(typed);
    let text = trimmed(chars.as_slice());
    if text.len() == 0 {
        Err(Error::InvalidInput(Invalid::EmptyNote))
    } else {
        Ok(string_of(text))
    }
}

/// Sets the status of the ticket that `prefix` stands for to the one that
/// `name` names.
pub fn set_status(storage: &mut Storage, prefix: &str, name: &str, now: Timestamp) -> (r: Result<
    Ticket,
    Error,
>)
    ensures
        outcome(old(storage)@, final(storage)@, status_set(old(storage)@, prefix@, name@, now), r),
        old(storage)@.wf() ==> final(storage)@.wf(),
{
    let mut ticket = locate(storage, prefix, Missing::Ticket)?;
    let status = Status::from_str(name)?;
    ticket.meta.status = status;
    if status == Status::Closed {
        ticket.meta.closed = Some(now);
    }
    ticket.touch_at(now);
    storage.save(&ticket);
    Ok(ticket)
}

/// Closes the ticket that `prefix` stands for.
pub fn close(storage: &mut Storage, prefix: &str, now: Timestamp) -> (r: Result<Ticket, Error>)
    ensures
        outcome(old(storage)@, final(storage)@, closed(old(storage)@, prefix@, now), r),
        old(storage)@.wf() ==> final(storage)@.wf(),
{
    let mut ticket = locate(storage, prefix, Missing::Ticket)?;
    ticket.meta.status = Status::Closed;
    ticket.meta.closed = Some(now);
    ticket.touch_at(now);
    storage.save(&ticket);
    Ok(ticket)
}

/// Makes the ticket that `prefix` stands for wait for the one that `dep`
/// stands for.
pub fn add_dependency(storage: &mut Storage, prefix: &str, dep: &str, now: Timestamp) -> (r:
    Result<Ticket, Error>)
    ensures
        outcome(
            old(storage)@,
            final(storage)@,
            dependency_added(old(storage)@, prefix@, dep@, now),
            r,
        ),
        old(storage)@.wf() ==> final(storage)@.wf(),
{
    let mut ticket = locate(storage, prefix, Missing::Ticket)?;
    let other = locate(storage, dep, Missing::Dependency)?;
    if other.meta.id == ticket.meta.id {
        return Err(Error::InvalidInput(Invalid::SelfDependency));
    }
    if has_name(ticket.meta.deps.as_slice(), &other.meta.id) {
        return Err(Error::InvalidInput(Invalid::DuplicateDependency));
    }
    let ghost before = ticket@;
    ticket.meta.deps.push(other.meta.id.clone());
    assert(ticket@.meta.deps =~= before.meta.deps.push(other@.meta.id));
    ticket.touch_at(now);
    storage.save(&ticket);
    Ok(ticket)
}

/// The strings of `v` whose text is not that of `s`.
fn all_but(v: &Vec<String>, s: &String) -> (r: Vec<String>)
    ensures
        names(r@) == all_except(names(v@), s@),
{
    let ghost all = names(v@);
    let mut r: Vec<String> = Vec::new();
    let mut i: usize = 0;
    proof {
        reveal(Seq::filter);
        assert(all.take(0) =~= Seq::<Seq<char>>::empty());
        assert(names(r@) =~= Seq::<Seq<char>>::empty());
    }
    while i < v.len()
        invariant
            i <= v.len(),
            all == names(v@),
            names(r@) == all_except(all.take(i as int), s@),
        decreases v.len() - i,
    {
        proof {
            reveal(Seq::filter);
            assert(all.take(i + 1).drop_last() =~= all.take(i as int));
            assert(all.take(i + 1).last() == v@[i as int]@);
        }
        if v[i] != *s {
            let ghost before = names(r@);
            r.push(v[i].clone());
            assert(names(r@) =~= before.push(v@[i as int]@));
        }
        i += 1;
    }
    assert(all.take(i as int) =~= all);
    r
}

/// Makes the ticket that `prefix` stands for wait no longer for the one that
/// `dep` stands for.
pub fn remove_dependency(storage: &mut Storage, prefix: &str, dep: &str, now: Timestamp) -> (r:
    Result<Ticket, Error>)
    ensures
        outcome(
            old(storage)@,
            final(storage)@,
            dependency_removed(old(storage)@, prefix@, dep@, now),
            r,
        ),
        old(storage)@.wf() ==> final(storage)@.wf(),
{
    let mut ticket = locate(storage, prefix, Missing::Ticket)?;
    let other = locate(storage, dep, Missing::Dependency)?;
    if !has_name(ticket.meta.deps.as_slice(), &other.meta.id) {
        return Err(Error::InvalidInput(Invalid::UnknownDependency));
    }
    let left = all_but(&ticket.meta.deps, &other.meta.id);
    ticket.meta.deps = left;
    ticket.touch_at(now);
    storage.save(&ticket);
    Ok(ticket)
}

/// Gives the ticket that `prefix` stands for the title and text of `input`.
pub fn edit(storage: &mut Storage, prefix: &str, input: &str) -> (r: Result<Ticket, Error>)
    ensures
        outcome(old(storage)@, final(storage)@, edited(old(storage)@, prefix@, input@), r),
        old(storage)@.wf() ==> final(storage)@.wf(),
{
    let mut ticket = locate(storage, prefix, Missing::Ticket)?;
    let (title, body) = draft(input)?;
    ticket.title = title;
    ticket.body = body;
    storage.save(&ticket);
    Ok(ticket)
}

/// `body` with `line` added: on a line of its own, after an empty line.
pub fn append_line(body: &mut String, line: &str)
    ensures
        final(body)@ == with_line(old(body)@, line@),
{
    let chars = to_chars(body.as_str());
    if chars.len() > 0 {
        if chars[chars.len() - 1] != '\n' {
            body.push('\n');
        }
        body.push('\n');
    }
    body.append(line);
    assert(body@ =~= with_line(old(body)@, line@));
}

/// Adds `note` to the text of the ticket that `prefix` stands for.
pub fn add_note(storage: &mut Storage, prefix: &str, note: &Note, now: Timestamp) -> (r: Result<
    Ticket,
    Error,
>)
    ensures
        outcome(
            old(storage)@,
            final(storage)@,
            noted(
                old(storage)@,
                prefix@,
                minute_text(note.timestamp.secs as int, note.timestamp.nanos as int),
                opt_name(note.author),
                note.content@,
                now,
            ),
            r,
        ),
        old(storage)@.wf() ==> final(storage)@.wf(),
{
    let mut ticket = locate(storage, prefix, Missing::Ticket)?;
    match note.format() {
        None => Err(Error::InvalidInput(Invalid::Timestamp)),
        Some(line) => {
            append_line(&mut ticket.body, line.as_str());
            ticket.touch_at(now);
            storage.save(&ticket);
            Ok(ticket)
        },
    }
}

/// The id of the parent that `parent` stands for, if a parent is asked for.
pub open spec fn parent_id(store: StorageView, parent: Option<Seq<char>>) -> Result<
    Option<Seq<char>>,
    Error,
> {
    match parent {
        None => Ok(None),
        Some(prefix) => match located(store, prefix, Missing::Parent) {
            Ok(t) => Ok(Some(t.meta.id)),
            Err(e) => Err(e),
        },
    }
}

/// What a new ticket is made of, apart from its id, or why none is made.
pub struct Plan {
    pub title: Seq<char>,
    pub body: Seq<char>,
    pub parent: Option<Seq<char>>,
    pub kind: TicketType,
}

/// The plan for a new ticket: the input is read first, then the parent is
/// looked up, which must have a number left for the child, then the type.
pub open spec fn planned(
    store: StorageView,
    input: Seq<char>,
    kind_name: Seq<char>,
    parent: Option<Seq<char>>,
) -> Result<Plan, Error> {
    match drafted(input) {
        Err(e) => Err(e),
        Ok(text) => match parent_id(store, parent) {
            Err(e) => Err(e),
            Ok(pid) => if pid is Some && max_child(pid->0, ids(store.all())) >= u32::MAX {
                Err(Error::ChildLimit)
            } else {
                match lookup(type_names(), kind_name) {
                    None => Err(Error::InvalidInput(Invalid::Type)),
                    Some(kind) => Ok(Plan { title: text.0, body: text.1, parent: pid, kind }),
                }
            },
        },
    }
}

/// The new ticket of id `id` that follows `plan`.
pub open spec fn made(
    plan: Plan,
    id: Seq<char>,
    priority: u8,
    tags: Seq<Seq<char>>,
    now: Timestamp,
) -> TicketView {
    TicketView {
        meta: FrontmatterView {
            id,
            status: Status::Open,
            deps: Seq::empty(),
            created: now,
            updated: None,
            closed: None,
            ticket_type: plan.kind,
            priority,
            assignee: None,
            parent: plan.parent,
            tags,
        },
        title: plan.title,
        body: plan.body,
    }
}

/// The view of a text that may be absent.
pub open spec fn opt_text(o: Option<&str>) -> Option<Seq<char>> {
    match o {
        Some(s) => Some(s@),
        None => None,
    }
}

/// Makes a ticket from `input`, a title line and the text under it, and saves it.
///
/// A child of `parent` gets the parent's next number. A ticket of its own gets
/// a generated id, which is the id of no ticket in the store unless it is one
/// of the long ids of last resort.
pub fn create(
    storage: &mut Storage,
    input: &str,
    priority: u8,
    kind_name: &str,
    parent: Option<&str>,
    tags: Option<&str>,
    now: Timestamp,
) -> (r: Result<Ticket, Error>)
    ensures
        match planned(old(storage)@, input@, kind_name@, opt_text(parent)) {
            Err(e) => r is Err && r->Err_0 == e && final(storage)@ == old(storage)@,
            Ok(plan) => {
                &&& r is Ok
                &&& r->Ok_0@ == made(
                    plan,
                    r->Ok_0@.meta.id,
                    priority,
                    tags_of(opt_text(tags)),
                    now,
                )
                &&& final(storage)@ == old(storage)@.save(r->Ok_0@)
                &&& plan.parent is Some ==> r->Ok_0@.meta.id == next_child(
                    plan.parent->0,
                    ids(old(storage)@.all()),
                )
                &&& plan.parent is None ==> is_generated(r->Ok_0@.meta.id) && (r->Ok_0@.meta.id.len()
                    <= 11 ==> !ids(old(storage)@.all()).contains(r->Ok_0@.meta.id))
            },
        },
        old(storage)@.wf() ==> final(storage)@.wf(),
{
    let (title, body) = draft(input)?;
    let existing = storage.every_id();
    let (id, parent_id) = match parent {
        Some(prefix) => {
            let above = locate(storage, prefix, Missing::Parent)?;
            if max_child_number(above.id(), existing.as_slice()) == u32::MAX {
                return Err(Error::ChildLimit);
            }
            let id = generate_child(above.id(), existing.as_slice());
            (id, Some(above.meta.id))
        },
        None => (generate(existing.as_slice()), None),
    };
    let kind = TicketType::from_str(kind_name)?;
    let labels = parse_tags(tags);
    let mut ticket = Ticket::new_at(id, title, now);
    ticket.meta.priority = priority;
    ticket.meta.ticket_type = kind;
    ticket.meta.parent = parent_id;
    ticket.meta.tags = labels;
    ticket.body = body;
    storage.save(&ticket);
    Ok(ticket)
}

/// The store after the ticket that `prefix` stands for was archived at `now`,
/// and the ticket as it was archived.
pub open spec fn archived(store: StorageView, prefix: Seq<char>, now: Timestamp) -> Result<
    (StorageView, TicketView),
    Error,
> {
    match located(store, prefix, Missing::Ticket) {
        Err(e) => Err(e),
        Ok(t) => {
            let kept = t.with_status(Status::Archived).touched(now);
            Ok((store.save(kept).archive(t.meta.id), kept))
        },
    }
}

/// The store after the archived ticket `id` was taken back at `now`, and the
/// ticket as it was taken back.
pub open spec fn unarchived(store: StorageView, id: Seq<char>, now: Timestamp) -> Result<
    (StorageView, TicketView),
    Error,
> {
    match place_of(store.archived, id) {
        None => Err(Error::NotFound(Missing::Ticket)),
        Some(i) => {
            let back = store.unarchive_at(i);
            match located(back, id, Missing::Ticket) {
                Err(e) => Err(e),
                Ok(t) => {
                    let open = t.with_status(Status::Open).touched(now);
                    Ok((back.save(open), open))
                },
            }
        },
    }
}

/// A command that moves a ticket came out as `want` says.
pub open spec fn moved(
    before: StorageView,
    after: StorageView,
    want: Result<(StorageView, TicketView), Error>,
    got: Result<Ticket, Error>,
) -> bool {
    match want {
        Ok(done) => got is Ok && got->Ok_0@ == done.1 && after == done.0,
        Err(e) => got is Err && got->Err_0 == e && after == before,
    }
}

proof fn lemma_put_holds(tickets: Seq<TicketView>, t: TicketView)
    ensures
        place_of(put(tickets, t), t.meta.id) is Some,
{
    lemma_place_found(tickets, t.meta.id);
    let after = put(tickets, t);
    match place_of(tickets, t.meta.id) {
        Some(i) => {
            assert(after[i].meta.id == t.meta.id);
        },
        None => {
            assert(after[tickets.len() as int].meta.id == t.meta.id);
        },
    }
    lemma_holds(after, t.meta.id);
}

/// Archives the ticket that `prefix` stands for: it is saved with the status
/// `Archived` and moved to the archive.
pub fn archive(storage: &mut Storage, prefix: &str, now: Timestamp) -> (r: Result<Ticket, Error>)
    ensures
        moved(old(storage)@, final(storage)@, archived(old(storage)@, prefix@, now), r),
        old(storage)@.wf() ==> final(storage)@.wf(),
{
    let mut ticket = locate(storage, prefix, Missing::Ticket)?;
    ticket.meta.status = Status::Archived;
    ticket.touch_at(now);
    storage.save(&ticket);
    proof {
        lemma_put_holds(old(storage)@.active, ticket@);
    }
    match storage.archive(ticket.id()) {
        Ok(()) => Ok(ticket),
        Err(e) => Err(e),
    }
}

/// Takes the archived ticket `id` back among the active ones, open again.
pub fn unarchive(storage: &mut Storage, id: &str, now: Timestamp) -> (r: Result<Ticket, Error>)
    ensures
        moved(old(storage)@, final(storage)@, unarchived(old(storage)@, id@, now), r),
        old(storage)@.wf() ==> final(storage)@.wf(),
{
    let ghost before = storage@;
    match storage.unarchive(id) {
        Err(e) => {
            return Err(e);
        },
        Ok(()) => {},
    }
    proof {
        // the ticket that came back is found by its id
        let i = place_of(before.archived, id@)->0;
        lemma_place_found(before.archived, id@);
        let back = before.unarchive_at(i);
        assert(back.active.last().meta.id == id@);
        assert(back.all()[back.active.len() - 1] == back.active.last());
        lemma_holds(back.all(), id@);
    }
    let mut ticket = match locate(storage, id, Missing::Ticket) {
        Ok(t) => t,
        Err(e) => {
            return Err(e);
        },
    };
    ticket.meta.status = Status::Open;
    ticket.touch_at(now);
    storage.save(&ticket);
    Ok(ticket)
}

/// What deleting the ticket that `prefix` stands for comes to: it must be
/// confirmed, and the ticket is handed back as it last was.
pub open spec fn deleted(store: StorageView, prefix: Seq<char>, force: bool) -> Result<
    (StorageView, TicketView),
    Error,
> {
    match located(store, prefix, Missing::Ticket) {
        Err(e) => Err(e),
        Ok(t) => if force {
            Ok((store.delete(t.meta.id), t))
        } else {
            Err(Error::NotConfirmed)
        },
    }
}

/// Deletes the ticket that `prefix` stands for, if `force` confirms it.
pub fn delete(storage: &mut Storage, prefix: &str, force: bool) -> (r: Result<Ticket, Error>)
    ensures
        moved(old(storage)@, final(storage)@, deleted(old(storage)@, prefix@, force), r),
        old(storage)@.wf() ==> final(storage)@.wf(),
{
    let ticket = locate(storage, prefix, Missing::Ticket)?;
    if !force {
        return Err(Error::NotConfirmed);
    }
    proof {
        lemma_resolved_member(storage@.all(), prefix@);
        lemma_member_placed(storage@, ticket@);
    }
    match storage.delete(ticket.id()) {
        Ok(()) => Ok(ticket),
        Err(e) => Err(e),
    }
}

/// Archiving an active ticket and taking it back.
///
/// After it was archived the ticket is in the archive and not among the active
/// tickets, and its id still stands for it. After it was taken back it is
/// among the active tickets and not in the archive, open, and otherwise as it
/// was but for the time of its last change; its id stands for it again. The
/// store holds no id twice at either time.
pub proof fn lemma_archive_round_trip(
    store: StorageView,
    k: int,
    now: Timestamp,
    later: Timestamp,
)
    requires
        store.wf(),
        0 <= k < store.active.len(),
    ensures
        ({
            let t = store.active[k];
            let id = t.meta.id;
            let away = archived(store, id, now);
            let back = unarchived(away->Ok_0.0, id, later);
            &&& away is Ok
            &&& away->Ok_0.1 == t.with_status(Status::Archived).touched(now)
            &&& away->Ok_0.0.wf()
            &&& away->Ok_0.0.is_archived(id)
            &&& !away->Ok_0.0.is_active(id)
            &&& located(away->Ok_0.0, id, Missing::Ticket) == Ok::<TicketView, Error>(
                away->Ok_0.1,
            )
            &&& back is Ok
            &&& back->Ok_0.1 == t.with_status(Status::Open).touched(later)
            &&& back->Ok_0.0.wf()
            &&& back->Ok_0.0.is_active(id)
            &&& !back->Ok_0.0.is_archived(id)
            &&& located(back->Ok_0.0, id, Missing::Ticket) == Ok::<TicketView, Error>(
                back->Ok_0.1,
            )
        }),
{
    let t = store.active[k];
    let id = t.meta.id;
    // the id stands for the ticket
    assert(store.all()[k] == t);
    lemma_found_at(store.all(), k);
    let t1 = t.with_status(Status::Archived).touched(now);
    // saved as archived
    let s0 = store.save(t1);
    lemma_save_wf(store, t1);
    lemma_put_at(store.active, t1);
    let i = place_of(s0.active, id)->0;
    assert(s0.active[i] == t1);
    // moved to the archive
    let s1 = s0.archive(id);
    assert(s1 == s0.archive_at(i));
    lemma_archive_wf(s0, i);
    lemma_split(s0.active, s0.archived);
    lemma_without(s0.active, id);
    lemma_without(s0.archived, id);
    assert(s1.active == without(s0.active, id));
    lemma_no_place(s1.active, id);
    let left = without(s0.archived, id);
    lemma_pushed_at(left, t1);
    let j = left.len() as int;
    assert(s1.archived[j] == t1);
    assert(s1.all()[s1.active.len() + j] == t1);
    lemma_resolves_to(s1, t1);
    // taken back
    let s2 = s1.unarchive_at(j);
    lemma_unarchive_wf(s1, j);
    assert(s2.active.last() == t1);
    assert(s2.all()[s2.active.len() - 1] == t1);
    lemma_resolves_to(s2, t1);
    let t2 = t1.with_status(Status::Open).touched(later);
    assert(t2 == t.with_status(Status::Open).touched(later));
    // saved as open
    let s3 = s2.save(t2);
    lemma_save_wf(s2, t2);
    lemma_put_at(s2.active, t2);
    let m = place_of(s3.active, id)->0;
    lemma_place_found(s3.active, id);
    assert(s3.all()[m] == t2);
    lemma_resolves_to(s3, t2);
    lemma_split(s2.active, s2.archived);
    lemma_without(s2.archived, id);
    lemma_no_place(s3.archived, id);
}

/// What `all_except` keeps: every entry but `id`, none of them twice where
/// none was there twice.
pub proof fn lemma_all_except(deps: Seq<Seq<char>>, id: Seq<char>)
    ensures
        forall|x: Seq<char>|
            #[trigger] all_except(deps, id).contains(x) <==> deps.contains(x) && x != id,
        deps.no_duplicates() ==> all_except(deps, id).no_duplicates(),
    decreases deps.len(),
{
    reveal(Seq::filter);
    let kept = all_except(deps, id);
    if deps.len() == 0 {
        assert forall|x: Seq<char>| #[trigger] kept.contains(x) <==> deps.contains(x) && x
            != id by {}
    } else {
        let front = deps.drop_last();
        let last = deps.last();
        lemma_all_except(front, id);
        let kept_front = all_except(front, id);
        assert forall|x: Seq<char>| #[trigger] kept.contains(x) <==> deps.contains(x) && x
            != id by {
            if kept.contains(x) {
                let i = choose|i: int| 0 <= i < kept.len() && kept[i] == x;
                if last != id && i == kept.len() - 1 {
                    assert(deps[deps.len() - 1] == x);
                } else {
                    assert(kept_front[i] == x);
                    assert(kept_front.contains(x));
                    let j = choose|j: int| 0 <= j < front.len() && front[j] == x;
                    assert(deps[j] == x);
                }
            }
            if deps.contains(x) && x != id {
                let j = choose|j: int| 0 <= j < deps.len() && deps[j] == x;
                if j == deps.len() - 1 {
                    assert(kept[kept.len() - 1] == x);
                } else {
                    assert(front[j] == x);
                    assert(kept_front.contains(x));
                    let i = choose|i: int| 0 <= i < kept_front.len() && kept_front[i] == x;
                    assert(kept[i] == x);
                }
            }
        }
        if deps.no_duplicates() {
            assert forall|i: int, j: int| 0 <= i < j < front.len() implies front[i]
                != front[j] by {
                assert(deps[i] != deps[j]);
            }
            if last != id {
                assert forall|i: int, j: int| 0 <= i < j < kept.len() implies kept[i]
                    != kept[j] by {
                    if j == kept.len() - 1 {
                        assert(kept_front[i] == kept[i]);
                        assert(kept_front.contains(kept[i]));
                        let a = choose|a: int| 0 <= a < front.len() && front[a] == kept[i];
                        assert(deps[a] != deps[deps.len() - 1]);
                    } else {
                        assert(kept_front[i] == kept[i] && kept_front[j] == kept[j]);
                    }
                }
            }
        }
    }
}

/// Adding and removing dependencies keeps a ticket waiting for no ticket
/// twice, and not for itself.
pub proof fn lemma_dependencies_stay_valid(
    store: StorageView,
    prefix: Seq<char>,
    dep: Seq<char>,
    now: Timestamp,
)
    requires
        located(store, prefix, Missing::Ticket) is Ok,
        located(store, prefix, Missing::Ticket)->Ok_0.wf(),
    ensures
        dependency_added(store, prefix, dep, now) is Ok ==> dependency_added(
            store,
            prefix,
            dep,
            now,
        )->Ok_0.wf(),
        dependency_removed(store, prefix, dep, now) is Ok ==> dependency_removed(
            store,
            prefix,
            dep,
            now,
        )->Ok_0.wf(),
{
    let t = located(store, prefix, Missing::Ticket)->Ok_0;
    let deps = t.meta.deps;
    if dependency_added(store, prefix, dep, now) is Ok {
        let d = located(store, dep, Missing::Dependency)->Ok_0;
        let more = deps.push(d.meta.id);
        assert forall|i: int, j: int| 0 <= i < j < more.len() implies more[i] != more[j] by {
            if j == deps.len() {
                assert(deps.contains(more[i]));
            } else {
                assert(deps[i] != deps[j]);
            }
        }
        if more.contains(t.meta.id) {
            let i = choose|i: int| 0 <= i < more.len() && more[i] == t.meta.id;
            if i < deps.len() {
                assert(deps[i] == t.meta.id);
            }
        }
    }
    if dependency_removed(store, prefix, dep, now) is Ok {
        let d = located(store, dep, Missing::Dependency)->Ok_0;
        lemma_all_except(deps, d.meta.id);
    }
}

} // verus!
