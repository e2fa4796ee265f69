//! The fields of a header as they stand in a document, and the header of a
//! ticket that they make.
//!
//! A document need not name every field: a ticket without a status is open, one
//! without a type is a feature, one without a priority has the middle one. The
//! id and the time of making must be there. Status and type stand in a document
//! by name.

use crate::document::{
    document_of, extract_title, frame_of, is_header, is_title, lemma_document_round_trip,
    text_as_read, title_and_text,
};
use crate::error::{Error, Malformed};
use crate::text::trim;
use crate::types::{
    clone_names, clone_opt_name, lemma_status_read_back, lemma_type_read_back, lookup, names,
    opt_name, status_names, type_names, Frontmatter, FrontmatterView, Status, Ticket,
    TicketType, TicketView, Timestamp,
};
use vstd::prelude::*;
use vstd::string::*;

verus! {

/// The fields of a header, each as it stands in the document or absent.
#[derive(Debug, PartialEq, Eq)]
pub struct HeaderFields {
    pub id: Option<String>,
    pub status: Option<String>,
    pub deps: Vec<String>,
    pub created: Option<Timestamp>,
    pub updated: Option<Timestamp>,
    pub closed: Option<Timestamp>,
    pub ticket_type: Option<String>,
    pub priority: Option<u8>,
    pub assignee: Option<String>,
    pub parent: Option<String>,
    pub tags: Vec<String>,
}

/// The fields of a header as specifications see them.
pub struct FieldsView {
    pub id: Option<Seq<char>>,
    pub status: Option<Seq<char>>,
    pub deps: Seq<Seq<char>>,
    pub created: Option<Timestamp>,
    pub updated: Option<Timestamp>,
    pub closed: Option<Timestamp>,
    pub ticket_type: Option<Seq<char>>,
    pub priority: Option<u8>,
    pub assignee: Option<Seq<char>>,
    pub parent: Option<Seq<char>>,
    pub tags: Seq<Seq<char>>,
}

impl View for HeaderFields {
    type V = FieldsView;

    open spec fn view(&self) -> FieldsView {
        FieldsView {
            id: opt_name(self.id),
            status: opt_name(self.status),
            deps: names(self.deps@),
            created: self.created,
            updated: self.updated,
            closed: self.closed,
            ticket_type: opt_name(self.ticket_type),
            priority: self.priority,
            assignee: opt_name(self.assignee),
            parent: opt_name(self.parent),
            tags: names(self.tags@),
        }
    }
}

/// The priority of a ticket whose document names none.
pub open spec fn middle_priority() -> u8 {
    2
}

/// The status that a document means: the one it names, and `Open` if it
/// names none.
pub open spec fn status_read(name: Option<Seq<char>>) -> Option<Status> {
    match name {
        None => Some(Status::Open),
        Some(text) => lookup(status_names(), text),
    }
}

/// The type that a document means: the one it names, and `Feat` if it names
/// none.
pub open spec fn type_read(name: Option<Seq<char>>) -> Option<TicketType> {
    match name {
        None => Some(TicketType::Feat),
        Some(text) => lookup(type_names(), text),
    }
}

/// The header that the fields make, or what is wrong with them: the id is
/// looked at first, then the time of making, then the status, then the type.
pub open spec fn header_read(fields: FieldsView) -> Result<FrontmatterView, Malformed> {
    if fields.id is None {
        Err(Malformed::MissingId)
    } else if fields.created is None {
        Err(Malformed::MissingCreated)
    } else if status_read(fields.status) is None {
        Err(Malformed::UnknownStatus)
    } else if type_read(fields.ticket_type) is None {
        Err(Malformed::UnknownType)
    } else {
        Ok(
            FrontmatterView {
                id: fields.id->0,
                status: status_read(fields.status)->0,
                deps: fields.deps,
                created: fields.created->0,
                updated: fields.updated,
                closed: fields.closed,
                ticket_type: type_read(fields.ticket_type)->0,
                priority: match fields.priority {
                    Some(p) => p,
                    None => middle_priority(),
                },
                assignee: fields.assignee,
                parent: fields.parent,
                tags: fields.tags,
            },
        )
    }
}

/// The fields that a header is written as: every field that has a value, with
/// status and type by name.
pub open spec fn header_written(meta: FrontmatterView) -> FieldsView {
    FieldsView {
        id: Some(meta.id),
        status: Some(meta.status.text()),
        deps: meta.deps,
        created: Some(meta.created),
        updated: meta.updated,
        closed: meta.closed,
        ticket_type: Some(meta.ticket_type.text()),
        priority: Some(meta.priority),
        assignee: meta.assignee,
        parent: meta.parent,
        tags: meta.tags,
    }
}

/// A header is read back from the fields it is written as.
pub proof fn lemma_header_read_back(meta: FrontmatterView)
    ensures
        header_read(header_written(meta)) == Ok::<FrontmatterView, Malformed>(meta),
{
    lemma_status_read_back(meta.status);
    lemma_type_read_back(meta.ticket_type);
}

impl Frontmatter {
    /// The header that the fields make, or what is wrong with them.
    pub fn from_fields(fields: HeaderFields) -> (r: Result<Frontmatter, Error>)
        ensures
            match header_read(fields@) {
                Ok(meta) => r is Ok && r->Ok_0@ == meta,
                Err(e) => r is Err && r->Err_0 == Error::Parse(e),
            },
    {
        let id = match fields.id {
            Some(id) => id,
            None => {
                return Err(Error::Parse(Malformed::MissingId));
            },
        };
        let created = match fields.created {
            Some(created) => created,
            None => {
                return Err(Error::Parse(Malformed::MissingCreated));
            },
        };
        let status = match &fields.status {
            None => Status::Open,
            Some(name) => match Status::from_str(name.as_str()) {
                Ok(status) => status,
                Err(_) => {
                    return Err(Error::Parse(Malformed::UnknownStatus));
                },
            },
        };
        let ticket_type = match &fields.ticket_type {
            None => TicketType::Feat,
            Some(name) => match TicketType::from_str(name.as_str()) {
                Ok(kind) => kind,
                Err(_) => {
                    return Err(Error::Parse(Malformed::UnknownType));
                },
            },
        };
        let priority = match fields.priority {
            Some(p) => p,
            None => 2,
        };
        Ok(
            Frontmatter {
                id,
                status,
                deps: fields.deps,
                created,
                updated: fields.updated,
                closed: fields.closed,
                ticket_type,
                priority,
                assignee: fields.assignee,
                parent: fields.parent,
                tags: fields.tags,
            },
        )
    }

    /// The fields that the header is written as.
    pub fn to_fields(&self) -> (r: HeaderFields)
        ensures
            r@ == header_written(self@),
    {
        HeaderFields {
            id: Some(self.id.clone()),
            status: Some(self.status.as_str().to_owned()),
            deps: clone_names(&self.deps),
            created: Some(self.created),
            updated: self.updated,
            closed: self.closed,
            ticket_type: Some(self.ticket_type.as_str().to_owned()),
            priority: Some(self.priority),
            assignee: clone_opt_name(&self.assignee),
            parent: clone_opt_name(&self.parent),
            tags: clone_names(&self.tags),
        }
    }
}

/// The ticket that the fields of a header and the text under the header make.
pub open spec fn ticket_read(fields: FieldsView, text: Seq<char>) -> Result<
    TicketView,
    Malformed,
> {
    match header_read(fields) {
        Ok(meta) => Ok(
            TicketView { meta, title: title_and_text(text).0, body: title_and_text(text).1 },
        ),
        Err(e) => Err(e),
    }
}

/// The ticket that the fields of a header and the text under the header make.
pub fn read_ticket(fields: HeaderFields, text: &str) -> (r: Result<Ticket, Error>)
    ensures
        match ticket_read(fields@, text@) {
            Ok(t) => r is Ok && r->Ok_0@ == t,
            Err(e) => r is Err && r->Err_0 == Error::Parse(e),
        },
{
    let meta = Frontmatter::from_fields(fields)?;
    let (title, body) = extract_title(text);
    Ok(Ticket { meta, title, body: body.to_owned() })
}

/// A ticket is read back from its document.
///
/// Let the fields of its header be written as the text `header`, in whatever
/// way that can be framed, and let the document be made of that text, the
/// title and the text of the ticket. Then the document is framed as that
/// header, trimmed, and a text, and the fields and that text make the ticket
/// again, its text without the white space at its end and the line breaks at
/// its start.
pub proof fn lemma_ticket_read_back(t: TicketView, header: Seq<char>)
    requires
        is_header(header),
        is_title(t.title),
    ensures
        ({
            let framed = frame_of(document_of(header, t.title, t.body));
            &&& framed is Ok
            &&& framed->Ok_0.0 == trim(header)
            &&& ticket_read(header_written(t.meta), framed->Ok_0.1) == Ok::<TicketView, Malformed>(
                TicketView { body: text_as_read(t.body), ..t },
            )
        }),
{
    lemma_document_round_trip(header, t.title, t.body);
    lemma_header_read_back(t.meta);
}

} // verus!
