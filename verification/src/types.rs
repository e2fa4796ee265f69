//! The ticket record and the small types it is made of.

use crate::error::{Error, Invalid};
use crate::text::to_chars;
use vstd::prelude::*;
use vstd::string::*;

verus! {

/// Where a ticket stands in its life.
#[derive(Debug, Clone, Copy, PartialEq, Eq, Structural)]
pub enum Status {
    Open,
    InProgress,
    Closed,
    Archived,
}

/// What kind of work a ticket is.
#[derive(Debug, Clone, Copy, PartialEq, Eq, Structural)]
pub enum TicketType {
    Feat,
    Fix,
    Chore,
    Docs,
    Refactor,
    Test,
}

/// The code of `c` after case folding: upper-case ASCII letters go to lower case,
/// and so does the Kelvin sign, the one other character whose lower case is an
/// ASCII letter.
pub open spec fn fold_code(c: char) -> int {
    let n = c as u32 as int;
    if 0x41 <= n <= 0x5A {
        n + 32
    } else if n == 0x212A {
        0x6B
    } else {
        n
    }
}

/// `s` spells the lower-case `name`, letter case aside.
pub open spec fn spells(s: Seq<char>, name: Seq<char>) -> bool {
    &&& s.len() == name.len()
    &&& forall|i: int| 0 <= i < s.len() ==> fold_code(#[trigger] s[i]) == name[i] as u32 as int
}

/// The value that the first entry of `table` spelt by `s` stands for.
pub open spec fn lookup<T>(table: Seq<(Seq<char>, T)>, s: Seq<char>) -> Option<T>
    decreases table.len(),
{
    if table.len() == 0 {
        None
    } else if spells(s, table[0].0) {
        Some(table[0].1)
    } else {
        lookup(table.drop_first(), s)
    }
}

/// The names a status goes by.
pub open spec fn status_names() -> Seq<(Seq<char>, Status)> {
    seq![
        ("open"@, Status::Open),
        ("in-progress"@, Status::InProgress),
        ("in_progress"@, Status::InProgress),
        ("inprogress"@, Status::InProgress),
        ("started"@, Status::InProgress),
        ("closed"@, Status::Closed),
        ("done"@, Status::Closed),
        ("archived"@, Status::Archived),
    ]
}

/// The names a ticket type goes by; the last three are kept for old records.
pub open spec fn type_names() -> Seq<(Seq<char>, TicketType)> {
    seq![
        ("feat"@, TicketType::Feat),
        ("feature"@, TicketType::Feat),
        ("fix"@, TicketType::Fix),
        ("bug"@, TicketType::Fix),
        ("chore"@, TicketType::Chore),
        ("docs"@, TicketType::Docs),
        ("refactor"@, TicketType::Refactor),
        ("test"@, TicketType::Test),
        ("task"@, TicketType::Feat),
        ("epic"@, TicketType::Feat),
    ]
}

/// The table as specifications see it.
pub open spec fn table_view<T>(table: Seq<(&'static str, T)>) -> Seq<(Seq<char>, T)> {
    table.map_values(|e: (&'static str, T)| (e.0@, e.1))
}

fn fold(c: char) -> (n: u32)
    ensures
        n == fold_code(c),
{
    let n: u32 = c as u32;
    if 0x41 <= n && n <= 0x5A {
        n + 32
    } else if n == 0x212A {
        0x6B
    } else {
        n
    }
}

fn spells_name(s: &[char], name: &str) -> (b: bool)
    ensures
        b == spells(s@, name@),
{
    let letters = to_chars(name);
    if s.len() != letters.len() {
        return false;
    }
    let mut i: usize = 0;
    while i < s.len()
        invariant
            i <= s.len(),
            letters@ == name@,
            s.len() == letters.len(),
            forall|j: int| 0 <= j < i ==> fold_code(#[trigger] s@[j]) == name@[j] as u32 as int,
        decreases s.len() - i,
    {
        if fold(s[i]) != letters[i] as u32 {
            return false;
        }
        i += 1;
    }
    true
}

fn lookup_name<T: Copy>(table: &Vec<(&'static str, T)>, s: &str) -> (r: Option<T>)
    ensures
        r == lookup(table_view(table@), s@),
{
    let chars = to_chars(s);
    let mut i: usize = 0;
    assert(table_view(table@).skip(0) == table_view(table@));
    while i < table.len()
        invariant
            i <= table.len(),
            chars@ == s@,
            lookup(table_view(table@), s@) == lookup(table_view(table@).skip(i as int), s@),
        decreases table.len() - i,
    {
        let ghost rest = table_view(table@).skip(i as int);
        assert(rest[0] == (table@[i as int].0@, table@[i as int].1));
        assert(rest.drop_first() == table_view(table@).skip(i + 1));
        if spells_name(chars.as_slice(), table[i].0) {
            return Some(table[i].1);
        }
        i += 1;
    }
    None
}

impl Status {
    /// How the status is written.
    pub open spec fn text(self) -> Seq<char> {
        match self {
            Status::Open => "open"@,
            Status::InProgress => "in-progress"@,
            Status::Closed => "closed"@,
            Status::Archived => "archived"@,
        }
    }

    /// Work on the ticket is still to be done: it is open or in progress.
    pub open spec fn is_live(self) -> bool {
        self == Status::Open || self == Status::InProgress
    }

    /// The mark of the status in a list of tickets.
    pub open spec fn mark(self) -> char {
        match self {
            Status::Open => ' ',
            Status::InProgress => '*',
            Status::Closed => 'x',
            Status::Archived => 'a',
        }
    }

    /// The mark of the status in a list of tickets.
    pub fn marker(&self) -> (c: char)
        ensures
            c == self.mark(),
    {
        match self {
            Status::Open => ' ',
            Status::InProgress => '*',
            Status::Closed => 'x',
            Status::Archived => 'a',
        }
    }

    /// How the status is written.
    pub fn as_str(&self) -> (r: &'static str)
        ensures
            r@ == self.text(),
    {
        match self {
            Status::Open => "open",
            Status::InProgress => "in-progress",
            Status::Closed => "closed",
            Status::Archived => "archived",
        }
    }

    /// The status that `s` names, letter case aside.
    pub fn from_str(s: &str) -> (r: Result<Status, Error>)
        ensures
            r == match lookup(status_names(), s@) {
                Some(status) => Ok::<Status, Error>(status),
                None => Err(Error::InvalidInput(Invalid::Status)),
            },
    {
        let table: Vec<(&'static str, Status)> = vec![
            ("open", Status::Open),
            ("in-progress", Status::InProgress),
            ("in_progress", Status::InProgress),
            ("inprogress", Status::InProgress),
            ("started", Status::InProgress),
            ("closed", Status::Closed),
            ("done", Status::Closed),
            ("archived", Status::Archived),
        ];
        assert(table_view(table@) == status_names());
        match lookup_name(&table, s) {
            Some(status) => Ok(status),
            None => Err(Error::InvalidInput(Invalid::Status)),
        }
    }
}

/// A table finds the value of its `k`th entry for the name of that entry,
/// where no entry before it is spelt by the name.
pub proof fn lemma_lookup_at<T>(table: Seq<(Seq<char>, T)>, k: int)
    requires
        0 <= k < table.len(),
        spells(table[k].0, table[k].0),
        forall|j: int| 0 <= j < k ==> !spells(table[k].0, #[trigger] table[j].0),
    ensures
        lookup(table, table[k].0) == Some(table[k].1),
    decreases k,
{
    if k > 0 {
        let rest = table.drop_first();
        assert(rest[k - 1] == table[k]);
        assert forall|j: int| 0 <= j < k - 1 implies !spells(rest[k - 1].0, #[trigger] rest[j].0) by {
            assert(rest[j] == table[j + 1]);
        }
        assert(!spells(table[k].0, table[0].0));
        lemma_lookup_at(rest, k - 1);
    }
}

/// A status is read back from the way it is written.
pub proof fn lemma_status_read_back(status: Status)
    ensures
        lookup(status_names(), status.text()) == Some(status),
{
    reveal_strlit("open");
    reveal_strlit("in-progress");
    reveal_strlit("in_progress");
    reveal_strlit("inprogress");
    reveal_strlit("started");
    reveal_strlit("closed");
    reveal_strlit("done");
    reveal_strlit("archived");
    let table = status_names();
    match status {
        Status::Open => {
            lemma_lookup_at(table, 0);
        },
        Status::InProgress => {
            lemma_lookup_at(table, 1);
        },
        Status::Closed => {
            lemma_lookup_at(table, 5);
        },
        Status::Archived => {
            lemma_lookup_at(table, 7);
        },
    }
}

/// A ticket type is read back from the way it is written.
pub proof fn lemma_type_read_back(kind: TicketType)
    ensures
        lookup(type_names(), kind.text()) == Some(kind),
{
    reveal_strlit("feat");
    reveal_strlit("feature");
    reveal_strlit("fix");
    reveal_strlit("bug");
    reveal_strlit("chore");
    reveal_strlit("docs");
    reveal_strlit("refactor");
    reveal_strlit("test");
    reveal_strlit("task");
    reveal_strlit("epic");
    let table = type_names();
    match kind {
        TicketType::Feat => {
            lemma_lookup_at(table, 0);
        },
        TicketType::Fix => {
            lemma_lookup_at(table, 2);
        },
        TicketType::Chore => {
            lemma_lookup_at(table, 4);
        },
        TicketType::Docs => {
            assert("docs"@[0] != "feat"@[0]);
            lemma_lookup_at(table, 5);
        },
        TicketType::Refactor => {
            lemma_lookup_at(table, 6);
        },
        TicketType::Test => {
            assert("test"@[0] != "feat"@[0]);
            assert("test"@[0] != "docs"@[0]);
            lemma_lookup_at(table, 7);
        },
    }
}

impl Default for Status {
    fn default() -> (r: Status)
        ensures
            r == Status::Open,
    {
        Status::Open
    }
}

impl TicketType {
    /// How the type is written.
    pub open spec fn text(self) -> Seq<char> {
        match self {
            TicketType::Feat => "feat"@,
            TicketType::Fix => "fix"@,
            TicketType::Chore => "chore"@,
            TicketType::Docs => "docs"@,
            TicketType::Refactor => "refactor"@,
            TicketType::Test => "test"@,
        }
    }

    /// How the type is written.
    pub fn as_str(&self) -> (r: &'static str)
        ensures
            r@ == self.text(),
    {
        match self {
            TicketType::Feat => "feat",
            TicketType::Fix => "fix",
            TicketType::Chore => "chore",
            TicketType::Docs => "docs",
            TicketType::Refactor => "refactor",
            TicketType::Test => "test",
        }
    }

    /// The type that `s` names, letter case aside.
    pub fn from_str(s: &str) -> (r: Result<TicketType, Error>)
        ensures
            r == match lookup(type_names(), s@) {
                Some(kind) => Ok::<TicketType, Error>(kind),
                None => Err(Error::InvalidInput(Invalid::Type)),
            },
    {
        let table: Vec<(&'static str, TicketType)> = vec![
            ("feat", TicketType::Feat),
            ("feature", TicketType::Feat),
            ("fix", TicketType::Fix),
            ("bug", TicketType::Fix),
            ("chore", TicketType::Chore),
            ("docs", TicketType::Docs),
            ("refactor", TicketType::Refactor),
            ("test", TicketType::Test),
            ("task", TicketType::Feat),
            ("epic", TicketType::Feat),
        ];
        assert(table_view(table@) == type_names());
        match lookup_name(&table, s) {
            Some(kind) => Ok(kind),
            None => Err(Error::InvalidInput(Invalid::Type)),
        }
    }
}

impl Default for TicketType {
    fn default() -> (r: TicketType)
        ensures
            r == TicketType::Feat,
    {
        TicketType::Feat
    }
}

/// A point in time: seconds since 1970-01-01T00:00:00Z, and nanoseconds past that second.
#[derive(Debug, Clone, Copy, PartialEq, Eq, Structural)]
pub struct Timestamp {
    pub secs: i64,
    pub nanos: u32,
}

/// What chrono prints for the point in time `secs`, `nanos` under the pattern
/// year-month-day hour:minute, where it can represent that point.
pub uninterp spec fn minute_text(secs: int, nanos: int) -> Option<Seq<char>>;

/// `chrono::Utc::now`, taken apart by `DateTime::timestamp` and
/// `DateTime::timestamp_subsec_nanos`. Nothing is claimed of the clock but that
/// chrono can put the two numbers together again, as it promises of every
/// `DateTime`. Chrono gives up on a clock that is set before 1970.
#[verifier::external_body]
fn clock_now() -> (t: Timestamp)
    ensures
        minute_text(t.secs as int, t.nanos as int) is Some,
{
    let now = chrono::Utc::now();
    Timestamp { secs: now.timestamp(), nanos: now.timestamp_subsec_nanos() }
}

/// `chrono::DateTime::from_timestamp`, which gives nothing for a point in time
/// out of chrono's range, then `DateTime::format` with `%Y-%m-%d %H:%M`. The text
/// depends on the two numbers alone.
#[verifier::external_body]
fn format_minute(secs: i64, nanos: u32) -> (r: Option<String>)
    ensures
        match r {
            Some(text) => minute_text(secs as int, nanos as int) == Some(text@),
            None => minute_text(secs as int, nanos as int) is None,
        },
{
    match chrono::DateTime::from_timestamp(secs, nanos) {
        Some(point) => Some(point.format("%Y-%m-%d %H:%M").to_string()),
        None => None,
    }
}

impl Timestamp {
    /// `self` is earlier than `other`.
    pub open spec fn before(self, other: Timestamp) -> bool {
        self.secs < other.secs || (self.secs == other.secs && self.nanos < other.nanos)
    }

    /// Whether `self` is earlier than `other`.
    pub fn is_before(&self, other: &Timestamp) -> (b: bool)
        ensures
            b == self.before(*other),
    {
        self.secs < other.secs || (self.secs == other.secs && self.nanos < other.nanos)
    }

    /// The time on the system clock, which is a time that the calendar reaches.
    pub fn now() -> (t: Timestamp)
        ensures
            t.in_calendar(),
    {
        clock_now()
    }

    /// The calendar reaches the timestamp, so that it can be written out.
    pub open spec fn in_calendar(self) -> bool {
        minute_text(self.secs as int, self.nanos as int) is Some
    }

    /// The timestamp as `YYYY-MM-DD HH:MM` in UTC, if the calendar reaches it.
    pub fn to_minute(&self) -> (r: Option<String>)
        ensures
            match r {
                Some(text) => minute_text(self.secs as int, self.nanos as int) == Some(text@),
                None => minute_text(self.secs as int, self.nanos as int) is None,
            },
    {
        format_minute(self.secs, self.nanos)
    }
}

/// The views of a list of strings.
pub open spec fn names(v: Seq<String>) -> Seq<Seq<char>> {
    v.map_values(|s: String| s@)
}

/// The view of a string that may be absent.
pub open spec fn opt_name(o: Option<String>) -> Option<Seq<char>> {
    match o {
        Some(s) => Some(s@),
        None => None,
    }
}

/// A copy of a list of strings.
pub fn clone_names(v: &Vec<String>) -> (r: Vec<String>)
    ensures
        r@ == v@,
{
    let mut r: Vec<String> = Vec::new();
    let mut i: usize = 0;
    while i < v.len()
        invariant
            i <= v.len(),
            r@ == v@.take(i as int),
        decreases v.len() - i,
    {
        r.push(v[i].clone());
        assert(v@.take(i + 1) == v@.take(i as int).push(v@[i as int]));
        i += 1;
    }
    assert(v@.take(i as int) == v@);
    r
}

/// A copy of a string that may be absent.
pub fn clone_opt_name(o: &Option<String>) -> (r: Option<String>)
    ensures
        r == *o,
{
    match o {
        Some(s) => Some(s.clone()),
        None => None,
    }
}

/// Whether `v` holds a string with the text of `s`.
pub fn has_name(v: &[String], s: &String) -> (b: bool)
    ensures
        b == names(v@).contains(s@),
{
    let mut i: usize = 0;
    while i < v.len()
        invariant
            i <= v.len(),
            forall|j: int| 0 <= j < i ==> names(v@)[j] != s@,
        decreases v.len() - i,
    {
        if v[i] == *s {
            assert(names(v@)[i as int] == s@);
            return true;
        }
        i += 1;
    }
    false
}

/// The header of a ticket record.
#[derive(Debug, PartialEq, Eq)]
pub struct Frontmatter {
    pub id: String,
    pub status: Status,
    pub deps: Vec<String>,
    pub created: Timestamp,
    pub updated: Option<Timestamp>,
    pub closed: Option<Timestamp>,
    pub ticket_type: TicketType,
    pub priority: u8,
    pub assignee: Option<String>,
    pub parent: Option<String>,
    pub tags: Vec<String>,
}

/// A header as specifications see it.
pub struct FrontmatterView {
    pub id: Seq<char>,
    pub status: Status,
    pub deps: Seq<Seq<char>>,
    pub created: Timestamp,
    pub updated: Option<Timestamp>,
    pub closed: Option<Timestamp>,
    pub ticket_type: TicketType,
    pub priority: u8,
    pub assignee: Option<Seq<char>>,
    pub parent: Option<Seq<char>>,
    pub tags: Seq<Seq<char>>,
}

impl View for Frontmatter {
    type V = FrontmatterView;

    open spec fn view(&self) -> FrontmatterView {
        FrontmatterView {
            id: self.id@,
            status: self.status,
            deps: names(self.deps@),
            created: self.created,
            updated: self.updated,
            closed: self.closed,
            ticket_type: self.ticket_type,
            priority: self.priority,
            assignee: opt_name(self.assignee),
            parent: opt_name(self.parent),
            tags: names(self.tags@),
        }
    }
}

impl Clone for Frontmatter {
    fn clone(&self) -> (r: Frontmatter)
        ensures
            r@ == self@,
    {
        Frontmatter {
            id: self.id.clone(),
            status: self.status,
            deps: clone_names(&self.deps),
            created: self.created,
            updated: self.updated,
            closed: self.closed,
            ticket_type: self.ticket_type,
            priority: self.priority,
            assignee: clone_opt_name(&self.assignee),
            parent: clone_opt_name(&self.parent),
            tags: clone_names(&self.tags),
        }
    }
}

/// A ticket: its header, its title and its free text.
#[derive(Debug, PartialEq, Eq)]
pub struct Ticket {
    pub meta: Frontmatter,
    pub title: String,
    pub body: String,
}

/// A ticket as specifications see it.
pub struct TicketView {
    pub meta: FrontmatterView,
    pub title: Seq<char>,
    pub body: Seq<char>,
}

impl View for Ticket {
    type V = TicketView;

    open spec fn view(&self) -> TicketView {
        TicketView { meta: self.meta@, title: self.title@, body: self.body@ }
    }
}

impl Clone for Ticket {
    fn clone(&self) -> (r: Ticket)
        ensures
            r@ == self@,
    {
        Ticket { meta: self.meta.clone(), title: self.title.clone(), body: self.body.clone() }
    }
}

/// The views of a list of tickets.
pub open spec fn views(tickets: Seq<Ticket>) -> Seq<TicketView> {
    tickets.map_values(|t: Ticket| t@)
}

impl TicketView {
    /// The ticket as it is when first made: open, a feature of middle priority,
    /// with nothing else filled in.
    pub open spec fn fresh(id: Seq<char>, title: Seq<char>, created: Timestamp) -> TicketView {
        TicketView {
            meta: FrontmatterView {
                id,
                status: Status::Open,
                deps: Seq::empty(),
                created,
                updated: None,
                closed: None,
                ticket_type: TicketType::Feat,
                priority: 2,
                assignee: None,
                parent: None,
                tags: Seq::empty(),
            },
            title,
            body: Seq::empty(),
        }
    }

    /// Work on the ticket is still to be done.
    pub open spec fn is_open(self) -> bool {
        self.meta.status.is_live()
    }

    /// The ticket waits for no ticket twice, and not for itself.
    pub open spec fn wf(self) -> bool {
        self.meta.deps.no_duplicates() && !self.meta.deps.contains(self.meta.id)
    }

    /// The ticket with `now` as the time of its last change.
    pub open spec fn touched(self, now: Timestamp) -> TicketView {
        TicketView { meta: FrontmatterView { updated: Some(now), ..self.meta }, ..self }
    }
}

/// `i` is the first place in `tickets` where the id is `id`.
pub open spec fn first_with_id(tickets: Seq<TicketView>, id: Seq<char>, i: int) -> bool {
    &&& 0 <= i < tickets.len()
    &&& tickets[i].meta.id == id
    &&& forall|j: int| 0 <= j < i ==> (#[trigger] tickets[j]).meta.id != id
}

/// No ticket in `tickets` has the id `id`.
pub open spec fn no_such_id(tickets: Seq<TicketView>, id: Seq<char>) -> bool {
    forall|j: int| 0 <= j < tickets.len() ==> (#[trigger] tickets[j]).meta.id != id
}

/// The dependency `dep` holds a ticket back: the first ticket of that id is
/// still open. An id that no ticket has holds nothing back.
pub open spec fn blocks(tickets: Seq<TicketView>, dep: Seq<char>) -> bool {
    exists|i: int| first_with_id(tickets, dep, i) && (#[trigger] tickets[i]).is_open()
}

/// One of the dependencies of `t` holds it back.
pub open spec fn blocked_by(t: TicketView, tickets: Seq<TicketView>) -> bool {
    exists|k: int| 0 <= k < t.meta.deps.len() && blocks(tickets, #[trigger] t.meta.deps[k])
}

/// Where the first ticket with the id `id` stands.
pub fn position(tickets: &[Ticket], id: &String) -> (r: Option<usize>)
    ensures
        match r {
            Some(i) => first_with_id(views(tickets@), id@, i as int),
            None => no_such_id(views(tickets@), id@),
        },
{
    let mut i: usize = 0;
    while i < tickets.len()
        invariant
            i <= tickets.len(),
            forall|j: int| 0 <= j < i ==> (#[trigger] views(tickets@)[j]).meta.id != id@,
        decreases tickets.len() - i,
    {
        if tickets[i].meta.id == *id {
            return Some(i);
        }
        i += 1;
    }
    None
}

/// Whether the dependency `dep` holds a ticket back.
pub fn is_blocking(tickets: &[Ticket], dep: &String) -> (b: bool)
    ensures
        b == blocks(views(tickets@), dep@),
{
    match position(tickets, dep) {
        Some(i) => {
            let open = tickets[i].is_open();
            assert(views(tickets@)[i as int] == tickets@[i as int]@);
            open
        },
        None => false,
    }
}

impl Ticket {
    /// A new ticket made now.
    pub fn new(id: String, title: String) -> (r: Ticket)
        ensures
            r@ == TicketView::fresh(id@, title@, r@.meta.created),
    {
        Ticket::new_at(id, title, Timestamp::now())
    }

    /// A new ticket made at `created`.
    pub fn new_at(id: String, title: String, created: Timestamp) -> (r: Ticket)
        ensures
            r@ == TicketView::fresh(id@, title@, created),
    {
        let r = Ticket {
            meta: Frontmatter {
                id,
                status: Status::Open,
                deps: Vec::new(),
                created,
                updated: None,
                closed: None,
                ticket_type: TicketType::Feat,
                priority: 2,
                assignee: None,
                parent: None,
                tags: Vec::new(),
            },
            title,
            body: String::new(),
        };
        assert(r@.meta.deps == Seq::<Seq<char>>::empty());
        assert(r@.meta.tags == Seq::<Seq<char>>::empty());
        r
    }

    /// The ticket's id.
    pub fn id(&self) -> (r: &str)
        ensures
            r@ == self@.meta.id,
    {
        self.meta.id.as_str()
    }

    /// Whether work on the ticket is still to be done.
    pub fn is_open(&self) -> (b: bool)
        ensures
            b == self@.is_open(),
    {
        self.meta.status == Status::Open || self.meta.status == Status::InProgress
    }

    /// Whether one of the ticket's dependencies is still open in `tickets`.
    pub fn is_blocked_by(&self, tickets: &[Ticket]) -> (b: bool)
        ensures
            b == blocked_by(self@, views(tickets@)),
    {
        let mut k: usize = 0;
        while k < self.meta.deps.len()
            invariant
                k <= self.meta.deps.len(),
                forall|j: int| 0 <= j < k ==> !blocks(views(tickets@), #[trigger] self@.meta.deps[j]),
            decreases self.meta.deps.len() - k,
        {
            assert(self@.meta.deps[k as int] == self.meta.deps@[k as int]@);
            if is_blocking(tickets, &self.meta.deps[k]) {
                return true;
            }
            k += 1;
        }
        false
    }

    /// Marks the ticket as changed now.
    pub fn touch(&mut self)
        ensures
            final(self)@ == old(self)@.touched(final(self)@.meta.updated->0),
            final(self)@.meta.updated is Some,
    {
        self.touch_at(Timestamp::now());
    }

    /// Marks the ticket as changed at `now`.
    pub fn touch_at(&mut self, now: Timestamp)
        ensures
            final(self)@ == old(self)@.touched(now),
    {
        self.meta.updated = Some(now);
    }
}

/// A remark with its time and author, to be added to a ticket's text.
#[derive(Debug, PartialEq, Eq)]
pub struct Note {
    pub timestamp: Timestamp,
    pub author: Option<String>,
    pub content: String,
}

/// The line `[<stamp> <author>] <content>`; a note without an author is signed
/// `anonymous`.
pub open spec fn note_line(stamp: Seq<char>, author: Option<Seq<char>>, content: Seq<char>) -> Seq<
    char,
> {
    let signed = match author {
        Some(name) => name,
        None => "anonymous"@,
    };
    seq!['['] + stamp + seq![' '] + signed + seq![']', ' '] + content
}

impl Note {
    /// A note written now.
    pub fn new(content: String, author: Option<String>) -> (r: Note)
        ensures
            r.content@ == content@,
            opt_name(r.author) == opt_name(author),
    {
        Note::new_at(content, author, Timestamp::now())
    }

    /// A note written at `timestamp`.
    pub fn new_at(content: String, author: Option<String>, timestamp: Timestamp) -> (r: Note)
        ensures
            r.content@ == content@,
            opt_name(r.author) == opt_name(author),
            r.timestamp == timestamp,
    {
        Note { timestamp, author, content }
    }

    /// The note as one line, given its time as text.
    pub fn render(&self, stamp: &str) -> (r: String)
        ensures
            r@ == note_line(stamp@, opt_name(self.author), self.content@),
    {
        let mut r = String::new();
        r.push('[');
        r.append(stamp);
        r.push(' ');
        match &self.author {
            Some(name) => {
                r.append(name.as_str());
            },
            None => {
                r.append("anonymous");
            },
        }
        r.push(']');
        r.push(' ');
        r.append(self.content.as_str());
        assert(r@ == note_line(stamp@, opt_name(self.author), self.content@));
        r
    }

    /// The note as one line, or nothing where the calendar does not reach its time.
    pub fn format(&self) -> (r: Option<String>)
        ensures
            match minute_text(self.timestamp.secs as int, self.timestamp.nanos as int) {
                Some(stamp) => r is Some && r->0@ == note_line(
                    stamp,
                    opt_name(self.author),
                    self.content@,
                ),
                None => r is None,
            },
    {
        match self.timestamp.to_minute() {
            Some(stamp) => Some(self.render(stamp.as_str())),
            None => None,
        }
    }
}

} // verus!
