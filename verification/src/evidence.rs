//! Capture relationships observed in a `WordPress` archive, without lint or resume policy.
//!
//! Requests open groups in source order. Responses link to requests already seen, metadata
//! links to an accepted response already seen, and revisits resolve only earlier responses.
//! Forward references remain unlinked; this is the ordering supported by both consumers.
//! Duplicate request IDs select the latest request; the first response of a group wins.
//! Metadata occurrences are retained in order so consumers can choose their own policy.

use crate::session::{CaptureHead, CaptureHeadView, Payload, PayloadView};
use crate::text;
use vstd::hash_map::StringHashMap;
use vstd::prelude::*;
use vstd::string::StringExecFns;

verus! {

/// The response headers that archive checks read, as bytes.
#[derive(Debug, Eq, PartialEq)]
pub struct ResponseHead {
    /// The response's status code.
    pub status: u16,
    /// The first `X-WP-Total` header.
    pub total: Option<Vec<u8>>,
    /// The first `X-WP-TotalPages` header.
    pub total_pages: Option<Vec<u8>>,
    /// The first `Location` header.
    pub location: Option<Vec<u8>>,
    /// The first `cf-mitigated` header.
    pub mitigated: Option<Vec<u8>>,
    /// Every `Link` header, in order.
    pub links: Vec<Vec<u8>>,
}

/// The status and headers of a [`ResponseHead`].
#[verifier::ext_equal]
pub struct HeadView {
    pub status: u16,
    pub total: Option<Seq<u8>>,
    pub total_pages: Option<Seq<u8>>,
    pub location: Option<Seq<u8>>,
    pub mitigated: Option<Seq<u8>>,
    pub links: Seq<Seq<u8>>,
}

/// The bytes of an optional header.
pub open spec fn header_bytes(header: Option<Vec<u8>>) -> Option<Seq<u8>> {
    match header {
        Some(bytes) => Some(bytes@),
        None => None,
    }
}

impl DeepView for ResponseHead {
    type V = HeadView;

    open spec fn deep_view(&self) -> HeadView {
        HeadView {
            status: self.status,
            total: header_bytes(self.total),
            total_pages: header_bytes(self.total_pages),
            location: header_bytes(self.location),
            mitigated: header_bytes(self.mitigated),
            links: self.links@.map_values(|link: Vec<u8>| link@),
        }
    }
}

/// The text of a header, where it is UTF-8.
pub open spec fn header_text(header: Option<Seq<u8>>) -> Option<Seq<char>> {
    match header {
        Some(bytes) => text::decoded(bytes),
        None => None,
    }
}

/// The count that a header denotes, white space around it aside.
pub open spec fn header_count(header: Option<Seq<u8>>) -> Option<usize> {
    match header_text(header) {
        Some(value) => text::parsed_count(text::trimmed(value)),
        None => None,
    }
}

/// The text of a header, where it is UTF-8.
pub fn read_header(header: &Option<Vec<u8>>) -> (value: Option<String>)
    ensures
        value.deep_view() == header_text(header_bytes(*header)),
{
    match header {
        Some(bytes) => text::decode(bytes),
        None => None,
    }
}

/// The count that a header denotes, white space around it aside.
pub fn numeric_header(header: &Option<Vec<u8>>) -> (count: Option<usize>)
    ensures
        count == header_count(header_bytes(*header)),
{
    match read_header(header) {
        Some(value) => text::parse_count(text::trim(value.as_str()).as_str()),
        None => None,
    }
}

/// An HTTP response message, as far as it can be read.
#[derive(Debug, Eq, PartialEq)]
pub struct Message {
    /// The status and headers, unless the message does not begin with any.
    pub head: Option<ResponseHead>,
    /// The status and headers as a session hands them to a driver, unless it would hand over
    /// nothing.
    pub capture: Option<CaptureHead>,
    /// The decoded entity, or why it cannot be decoded.
    pub entity: Result<Payload, String>,
}

/// The parts of a [`Message`].
#[verifier::ext_equal]
pub struct MessageView {
    pub head: Option<HeadView>,
    pub capture: Option<CaptureHeadView>,
    pub entity: Result<PayloadView, Seq<char>>,
}

impl DeepView for Message {
    type V = MessageView;

    open spec fn deep_view(&self) -> MessageView {
        MessageView {
            head: self.head.deep_view(),
            capture: self.capture.deep_view(),
            entity: match self.entity {
                Ok(payload) => Ok(payload.deep_view()),
                Err(error) => Err(error@),
            },
        }
    }
}

/// A request with the response and metadata that are linked to it.
#[derive(Debug, Eq, PartialEq)]
pub struct CaptureGroup {
    /// The URL that was requested.
    pub url: String,
    /// The first response or revisit of the request.
    pub response: Option<StoredResponse>,
    /// The metadata of the response, in order.
    pub metadata: Vec<StoredMetadata>,
}

/// The parts of a [`CaptureGroup`].
#[verifier::ext_equal]
pub struct GroupView {
    pub url: Seq<char>,
    pub response: Option<ResponseView>,
    pub metadata: Seq<MetadataView>,
}

impl DeepView for CaptureGroup {
    type V = GroupView;

    open spec fn deep_view(&self) -> GroupView {
        GroupView {
            url: self.url@,
            response: self.response.deep_view(),
            metadata: self.metadata.deep_view(),
        }
    }
}

/// A response or revisit.
#[derive(Debug, Eq, PartialEq)]
pub struct StoredResponse {
    /// The URL that the response is of.
    pub url: String,
    /// The response message.
    pub message: Message,
    /// Why the record is truncated, if it is.
    pub truncation: Option<String>,
    /// What a revisit revisits; an original response has none.
    pub revisit: Option<StoredRevisit>,
}

/// The parts of a [`StoredResponse`].
#[verifier::ext_equal]
pub struct ResponseView {
    pub url: Seq<char>,
    pub message: MessageView,
    pub truncation: Option<Seq<char>>,
    pub revisit: Option<StoredRevisit>,
}

impl DeepView for StoredResponse {
    type V = ResponseView;

    open spec fn deep_view(&self) -> ResponseView {
        ResponseView {
            url: self.url@,
            message: self.message.deep_view(),
            truncation: self.truncation.deep_view(),
            revisit: self.revisit,
        }
    }
}

impl StoredResponse {
    /// The HTTP head, without the entity.
    pub fn metadata(&self) -> (head: Option<&ResponseHead>)
        ensures
            head.deep_view() == self.deep_view().message.head,
    {
        self.message.head.as_ref()
    }
}

/// What a revisit says of the response that it revisits.
#[derive(Clone, Copy, Debug, Eq, PartialEq, Structural)]
pub struct StoredRevisit {
    /// Why the response was not stored again.
    pub profile: StoredRevisitProfile,
    /// The group of the earlier response, where it is known.
    pub original: Option<usize>,
    /// Whether the payload was identified as JSON.
    pub identified_json: bool,
}

/// Why a response was not stored again.
#[derive(Clone, Copy, Debug, Eq, PartialEq, Structural)]
pub enum StoredRevisitProfile {
    /// Its payload is one stored before.
    IdenticalPayloadDigest,
    /// The server said that it is not modified.
    ServerNotModified,
    /// Another reason.
    Other,
}

/// The metadata of a response.
#[derive(Debug, Eq, PartialEq)]
pub struct StoredMetadata {
    /// The URL that the metadata is of.
    pub url: Option<String>,
    /// The URL that led to the request.
    pub via: Option<String>,
    /// Whether the metadata is a block of named fields.
    pub fields: bool,
}

/// The parts of a [`StoredMetadata`].
#[verifier::ext_equal]
pub struct MetadataView {
    pub url: Option<Seq<char>>,
    pub via: Option<Seq<char>>,
    pub fields: bool,
}

impl DeepView for StoredMetadata {
    type V = MetadataView;

    open spec fn deep_view(&self) -> MetadataView {
        MetadataView { url: self.url.deep_view(), via: self.via.deep_view(), fields: self.fields }
    }
}

/// Relationship problems carry evidence; callers choose severity and presentation.
#[derive(Debug, Eq, PartialEq)]
pub enum Problem {
    /// Two requests have this record ID.
    DuplicateRequestId(String),
    /// The response with this record ID has no request.
    UnlinkedResponse(String),
    /// The capture of this URL has two responses.
    DuplicateResponse(String),
    /// The metadata with this record ID has no response.
    UnlinkedMetadata(String),
    /// The capture of this URL has two metadata records.
    DuplicateMetadata(String),
}

/// A [`Problem`], with its text as a sequence of characters.
#[verifier::ext_equal]
pub enum ProblemView {
    DuplicateRequestId(Seq<char>),
    UnlinkedResponse(Seq<char>),
    DuplicateResponse(Seq<char>),
    UnlinkedMetadata(Seq<char>),
    DuplicateMetadata(Seq<char>),
}

impl DeepView for Problem {
    type V = ProblemView;

    open spec fn deep_view(&self) -> ProblemView {
        match self {
            Problem::DuplicateRequestId(id) => ProblemView::DuplicateRequestId(id@),
            Problem::UnlinkedResponse(id) => ProblemView::UnlinkedResponse(id@),
            Problem::DuplicateResponse(url) => ProblemView::DuplicateResponse(url@),
            Problem::UnlinkedMetadata(id) => ProblemView::UnlinkedMetadata(id@),
            Problem::DuplicateMetadata(url) => ProblemView::DuplicateMetadata(url@),
        }
    }
}

impl ProblemView {
    /// The problem in words.
    pub open spec fn message(self) -> Seq<char> {
        match self {
            ProblemView::DuplicateRequestId(id) => "duplicate request record ID "@ + id,
            ProblemView::UnlinkedResponse(id) => "response or revisit record "@ + id
                + " has no linked request"@,
            ProblemView::DuplicateResponse(url) => "capture of "@ + url
                + " has duplicate responses"@,
            ProblemView::UnlinkedMetadata(id) => "metadata record "@ + id
                + " has no linked response or revisit"@,
            ProblemView::DuplicateMetadata(url) => "capture of "@ + url
                + " has duplicate metadata"@,
        }
    }
}

impl Problem {
    /// The problem in words.
    pub fn to_string(&self) -> (message: String)
        ensures
            message@ == self.deep_view().message(),
    {
        let (before, subject, after) = match self {
            Problem::DuplicateRequestId(id) => {
                return text::joined("duplicate request record ID ", id.as_str());
            },
            Problem::UnlinkedResponse(id) => (
                "response or revisit record ",
                id,
                " has no linked request",
            ),
            Problem::DuplicateResponse(url) => ("capture of ", url, " has duplicate responses"),
            Problem::UnlinkedMetadata(id) => (
                "metadata record ",
                id,
                " has no linked response or revisit",
            ),
            Problem::DuplicateMetadata(url) => ("capture of ", url, " has duplicate metadata"),
        };
        let mut message = text::joined(before, subject.as_str());
        message.append(after);
        message
    }
}

/// An archive record, as far as it says what was captured.
#[derive(Debug, Eq, PartialEq)]
pub enum Record {
    /// An HTTP request.
    Request {
        /// The record's ID.
        id: String,
        /// The URL that was requested.
        url: String,
    },
    /// An HTTP response.
    Response {
        /// The record's ID.
        id: String,
        /// The IDs of the records of the same capture.
        concurrent_to: Vec<String>,
        /// The URL that the response is of.
        url: String,
        /// The response message.
        message: Message,
        /// Why the record is truncated, if it is.
        truncation: Option<String>,
        /// Whether the payload was identified as JSON.
        identified_json: bool,
    },
    /// An HTTP response that stands for one stored before.
    Revisit {
        /// The record's ID.
        id: String,
        /// The IDs of the records of the same capture.
        concurrent_to: Vec<String>,
        /// The URL that the response is of.
        url: String,
        /// The response message.
        message: Message,
        /// Why the record is truncated, if it is.
        truncation: Option<String>,
        /// The ID of the earlier response.
        refers_to: Option<String>,
        /// Why the response was not stored again.
        profile: StoredRevisitProfile,
        /// Whether the payload was identified as JSON.
        identified_json: bool,
    },
    /// Metadata of a response.
    Metadata {
        /// The record's ID.
        id: String,
        /// The IDs of the records of the same capture.
        concurrent_to: Vec<String>,
        /// The URL that the metadata is of.
        url: Option<String>,
        /// The URL that led to the request.
        via: Option<String>,
        /// Whether the metadata is a block of named fields.
        fields: bool,
    },
    /// Any other record.
    Other {
        /// The record's ID.
        id: String,
    },
}

/// The parts of a [`Record`].
#[verifier::ext_equal]
pub enum RecordView {
    Request { id: Seq<char>, url: Seq<char> },
    Response {
        id: Seq<char>,
        concurrent_to: Seq<Seq<char>>,
        url: Seq<char>,
        message: MessageView,
        truncation: Option<Seq<char>>,
        identified_json: bool,
    },
    Revisit {
        id: Seq<char>,
        concurrent_to: Seq<Seq<char>>,
        url: Seq<char>,
        message: MessageView,
        truncation: Option<Seq<char>>,
        refers_to: Option<Seq<char>>,
        profile: StoredRevisitProfile,
        identified_json: bool,
    },
    Metadata {
        id: Seq<char>,
        concurrent_to: Seq<Seq<char>>,
        url: Option<Seq<char>>,
        via: Option<Seq<char>>,
        fields: bool,
    },
    Other { id: Seq<char> },
}

impl DeepView for Record {
    type V = RecordView;

    open spec fn deep_view(&self) -> RecordView {
        match self {
            Record::Request { id, url } => RecordView::Request { id: id@, url: url@ },
            Record::Response { id, concurrent_to, url, message, truncation, identified_json } =>
                RecordView::Response {
                id: id@,
                concurrent_to: concurrent_to.deep_view(),
                url: url@,
                message: message.deep_view(),
                truncation: truncation.deep_view(),
                identified_json: *identified_json,
            },
            Record::Revisit {
                id,
                concurrent_to,
                url,
                message,
                truncation,
                refers_to,
                profile,
                identified_json,
            } => RecordView::Revisit {
                id: id@,
                concurrent_to: concurrent_to.deep_view(),
                url: url@,
                message: message.deep_view(),
                truncation: truncation.deep_view(),
                refers_to: refers_to.deep_view(),
                profile: *profile,
                identified_json: *identified_json,
            },
            Record::Metadata { id, concurrent_to, url, via, fields } => RecordView::Metadata {
                id: id@,
                concurrent_to: concurrent_to.deep_view(),
                url: url.deep_view(),
                via: via.deep_view(),
                fields: *fields,
            },
            Record::Other { id } => RecordView::Other { id: id@ },
        }
    }
}

impl RecordView {
    /// The record's ID.
    pub open spec fn id(self) -> Seq<char> {
        match self {
            RecordView::Request { id, .. } => id,
            RecordView::Response { id, .. } => id,
            RecordView::Revisit { id, .. } => id,
            RecordView::Metadata { id, .. } => id,
            RecordView::Other { id } => id,
        }
    }
}

impl Record {
    /// The record's ID.
    pub fn id(&self) -> (id: &str)
        ensures
            id@ == self.deep_view().id(),
    {
        match self {
            Record::Request { id, .. } => id.as_str(),
            Record::Response { id, .. } => id.as_str(),
            Record::Revisit { id, .. } => id.as_str(),
            Record::Metadata { id, .. } => id.as_str(),
            Record::Other { id } => id.as_str(),
        }
    }
}

fn copied_bytes(bytes: &Vec<u8>) -> (copy: Vec<u8>)
    ensures
        copy@ == bytes@,
{
    let mut copy: Vec<u8> = Vec::new();
    copy.extend_from_slice(bytes.as_slice());
    copy
}

fn copied_header(header: &Option<Vec<u8>>) -> (copy: Option<Vec<u8>>)
    ensures
        header_bytes(copy) == header_bytes(*header),
{
    match header {
        Some(bytes) => Some(copied_bytes(bytes)),
        None => None,
    }
}

impl Clone for ResponseHead {
    fn clone(&self) -> (copy: Self)
        ensures
            copy.deep_view() == self.deep_view(),
    {
        let mut links: Vec<Vec<u8>> = Vec::new();
        let ghost all = self.deep_view().links;
        let mut index: usize = 0;
        while index < self.links.len()
            invariant
                index <= self.links@.len(),
                all == self.links@.map_values(|link: Vec<u8>| link@),
                links@.map_values(|link: Vec<u8>| link@) == all.take(index as int),
            decreases self.links@.len() - index,
        {
            let ghost known = links@;
            let link = copied_bytes(&self.links[index]);
            links.push(link);
            assert(links@.map_values(|link: Vec<u8>| link@) == known.map_values(
                |link: Vec<u8>| link@,
            ).push(link@));
            index += 1;
            assert(all.take(index as int) == all.take(index - 1).push(all[index - 1]));
        }
        assert(all.take(index as int) == all);
        ResponseHead {
            status: self.status,
            total: copied_header(&self.total),
            total_pages: copied_header(&self.total_pages),
            location: copied_header(&self.location),
            mitigated: copied_header(&self.mitigated),
            links,
        }
    }
}

impl Clone for Message {
    fn clone(&self) -> (copy: Self)
        ensures
            copy.deep_view() == self.deep_view(),
    {
        Message {
            head: match &self.head {
                Some(head) => Some(head.clone()),
                None => None,
            },
            capture: match &self.capture {
                Some(capture) => Some(capture.copied()),
                None => None,
            },
            entity: match &self.entity {
                Ok(payload) => Ok(payload.copied()),
                Err(error) => Err(error.clone()),
            },
        }
    }
}

impl Clone for Record {
    fn clone(&self) -> (copy: Self)
        ensures
            copy.deep_view() == self.deep_view(),
    {
        match self {
            Record::Request { id, url } => Record::Request { id: id.clone(), url: url.clone() },
            Record::Response { id, concurrent_to, url, message, truncation, identified_json } =>
                Record::Response {
                id: id.clone(),
                concurrent_to: text::copied_all(concurrent_to),
                url: url.clone(),
                message: message.clone(),
                truncation: text::copied(truncation),
                identified_json: *identified_json,
            },
            Record::Revisit {
                id,
                concurrent_to,
                url,
                message,
                truncation,
                refers_to,
                profile,
                identified_json,
            } => Record::Revisit {
                id: id.clone(),
                concurrent_to: text::copied_all(concurrent_to),
                url: url.clone(),
                message: message.clone(),
                truncation: text::copied(truncation),
                refers_to: text::copied(refers_to),
                profile: *profile,
                identified_json: *identified_json,
            },
            Record::Metadata { id, concurrent_to, url, via, fields } => Record::Metadata {
                id: id.clone(),
                concurrent_to: text::copied_all(concurrent_to),
                url: text::copied(url),
                via: text::copied(via),
                fields: *fields,
            },
            Record::Other { id } => Record::Other { id: id.clone() },
        }
    }
}

/// The captures observed so far, and where each request and accepted response stands.
pub struct Evidence {
    /// One group for each request, in source order.
    pub groups: Vec<CaptureGroup>,
    requests: StringHashMap<usize>,
    responses: StringHashMap<usize>,
}

/// The state of an [`Evidence`].
#[verifier::ext_equal]
pub struct EvidenceView {
    pub groups: Seq<GroupView>,
    pub requests: Map<Seq<char>, usize>,
    pub responses: Map<Seq<char>, usize>,
}

impl DeepView for Evidence {
    type V = EvidenceView;

    closed spec fn deep_view(&self) -> EvidenceView {
        EvidenceView {
            groups: self.groups.deep_view(),
            requests: self.requests@,
            responses: self.responses@,
        }
    }
}

/// What the first of some IDs that is known maps to.
pub open spec fn first_linked(ids: Seq<Seq<char>>, known: Map<Seq<char>, usize>) -> Option<usize>
    decreases ids.len(),
{
    if ids.len() == 0 {
        None
    } else {
        match first_linked(ids.drop_last(), known) {
            Some(index) => Some(index),
            None => if known.contains_key(ids.last()) {
                Some(known[ids.last()])
            } else {
                None
            },
        }
    }
}

impl EvidenceView {
    /// No captures.
    pub open spec fn nothing() -> Self {
        EvidenceView { groups: Seq::empty(), requests: Map::empty(), responses: Map::empty() }
    }

    /// What holds of all evidence: a known request stands at its group, and a known response at a
    /// group that has it; only a group with a response has metadata.
    pub open spec fn is_valid(self) -> bool {
        &&& forall|id: Seq<char>| #[trigger]
            self.requests.contains_key(id) ==> self.requests[id] < self.groups.len()
        &&& forall|id: Seq<char>| #[trigger]
            self.responses.contains_key(id) ==> self.responses[id] < self.groups.len()
                && self.groups[self.responses[id] as int].response is Some
        &&& forall|index: int|
            0 <= index < self.groups.len() ==> (#[trigger] self.groups[index]).response is None
                ==> self.groups[index].metadata.len() == 0
    }

    /// The evidence with a response attached to a request's group, and what is wrong with it. A
    /// group keeps its first response.
    pub open spec fn with_response(
        self,
        id: Seq<char>,
        request: Option<usize>,
        response: ResponseView,
    ) -> (Self, Option<ProblemView>) {
        match request {
            None => (self, Some(ProblemView::UnlinkedResponse(id))),
            Some(index) => {
                let group = self.groups[index as int];
                if group.response is Some {
                    (self, Some(ProblemView::DuplicateResponse(group.url)))
                } else {
                    (
                        EvidenceView {
                            groups: self.groups.update(
                                index as int,
                                GroupView { response: Some(response), ..group },
                            ),
                            responses: self.responses.insert(id, index),
                            ..self
                        },
                        None,
                    )
                }
            },
        }
    }

    /// The evidence after a record, and what is wrong with it.
    pub open spec fn observed(self, record: RecordView) -> (Self, Option<ProblemView>) {
        match record {
            RecordView::Request { id, url } => (
                EvidenceView {
                    groups: self.groups.push(
                        GroupView { url, response: None, metadata: Seq::empty() },
                    ),
                    requests: self.requests.insert(id, self.groups.len() as usize),
                    ..self
                },
                if self.requests.contains_key(id) {
                    Some(ProblemView::DuplicateRequestId(id))
                } else {
                    None
                },
            ),
            RecordView::Response { id, concurrent_to, url, message, truncation, .. } =>
                self.with_response(
                id,
                first_linked(concurrent_to, self.requests),
                ResponseView { url, message, truncation, revisit: None },
            ),
            RecordView::Revisit {
                id,
                concurrent_to,
                url,
                message,
                truncation,
                refers_to,
                profile,
                identified_json,
            } => self.with_response(
                id,
                first_linked(concurrent_to, self.requests),
                ResponseView {
                    url,
                    message,
                    truncation,
                    revisit: Some(
                        StoredRevisit {
                            profile,
                            original: match refers_to {
                                Some(original) if self.responses.contains_key(original) => Some(
                                    self.responses[original],
                                ),
                                _ => None,
                            },
                            identified_json,
                        },
                    ),
                },
            ),
            RecordView::Metadata { id, concurrent_to, url, via, fields } => match first_linked(
                concurrent_to,
                self.responses,
            ) {
                None => (self, Some(ProblemView::UnlinkedMetadata(id))),
                Some(index) => {
                    let group = self.groups[index as int];
                    (
                        EvidenceView {
                            groups: self.groups.update(
                                index as int,
                                GroupView {
                                    metadata: group.metadata.push(
                                        MetadataView { url, via, fields },
                                    ),
                                    ..group
                                },
                            ),
                            ..self
                        },
                        if group.metadata.len() > 0 {
                            Some(ProblemView::DuplicateMetadata(group.url))
                        } else {
                            None
                        },
                    )
                },
            },
            RecordView::Other { .. } => (self, None),
        }
    }

    /// The evidence after some records, in order, and everything that is wrong with them.
    pub open spec fn observed_all(self, records: Seq<RecordView>) -> (Self, Seq<ProblemView>)
        decreases records.len(),
    {
        if records.len() == 0 {
            (self, Seq::empty())
        } else {
            let (earlier, problems) = self.observed_all(records.drop_last());
            let (after, problem) = earlier.observed(records.last());
            (
                after,
                match problem {
                    Some(problem) => problems.push(problem),
                    None => problems,
                },
            )
        }
    }
}

/// A linked record is among those that are known.
pub proof fn lemma_first_linked(ids: Seq<Seq<char>>, known: Map<Seq<char>, usize>)
    ensures
        match first_linked(ids, known) {
            Some(index) => exists|id: Seq<char>| #[trigger]
                ids.contains(id) && known.contains_key(id) && known[id] == index,
            None => forall|at: int|
                0 <= at < ids.len() ==> !known.contains_key(#[trigger] ids[at]),
        },
    decreases ids.len(),
{
    if ids.len() > 0 {
        lemma_first_linked(ids.drop_last(), known);
        match first_linked(ids.drop_last(), known) {
            Some(index) => {
                let id = choose|id: Seq<char>| #[trigger]
                    ids.drop_last().contains(id) && known.contains_key(id) && known[id] == index;
                let at = ids.drop_last().index_of(id);
                assert(ids[at] == id);
                assert(ids.contains(id));
            },
            None => {
                assert(ids[ids.len() - 1] == ids.last());
                assert(ids.contains(ids.last()));
                assert forall|at: int|
                    0 <= at < ids.len() - 1 implies !known.contains_key(#[trigger] ids[at]) by {
                    assert(ids.drop_last()[at] == ids[at]);
                }
            },
        }
    }
}

/// Observing a record keeps evidence valid.
pub proof fn lemma_observing_keeps_evidence_valid(evidence: EvidenceView, record: RecordView)
    requires
        evidence.is_valid(),
        evidence.groups.len() <= usize::MAX,
    ensures
        evidence.observed(record).0.is_valid(),
{
    match record {
        RecordView::Response { concurrent_to, .. } => {
            lemma_first_linked(concurrent_to, evidence.requests);
        },
        RecordView::Revisit { concurrent_to, .. } => {
            lemma_first_linked(concurrent_to, evidence.requests);
        },
        RecordView::Metadata { concurrent_to, .. } => {
            lemma_first_linked(concurrent_to, evidence.responses);
        },
        _ => {},
    }
}

impl Default for Evidence {
    fn default() -> (evidence: Self)
        ensures
            evidence.deep_view() == EvidenceView::nothing(),
            evidence.deep_view().is_valid(),
    {
        let evidence = Evidence {
            groups: Vec::new(),
            requests: StringHashMap::new(),
            responses: StringHashMap::new(),
        };
        assert(evidence.deep_view() =~= EvidenceView::nothing());
        evidence
    }
}

fn linked(ids: &Vec<String>, known: &StringHashMap<usize>) -> (index: Option<usize>)
    ensures
        index == first_linked(ids.deep_view(), known@),
{
    let ghost all = ids.deep_view();
    let mut at: usize = 0;
    while at < ids.len()
        invariant
            at <= ids@.len(),
            all == ids.deep_view(),
            first_linked(all.take(at as int), known@) is None,
        decreases ids@.len() - at,
    {
        assert(all.take(at + 1).drop_last() == all.take(at as int));
        if let Some(index) = known.get(ids[at].as_str()) {
            proof {
                lemma_linked_in_prefix(all, known@, at + 1);
            }
            return Some(*index);
        }
        at += 1;
    }
    assert(all.take(at as int) == all);
    None
}

/// What the first known ID of a beginning maps to, the first known ID of all maps to.
proof fn lemma_linked_in_prefix(ids: Seq<Seq<char>>, known: Map<Seq<char>, usize>, count: int)
    requires
        0 <= count <= ids.len(),
        first_linked(ids.take(count), known) is Some,
    ensures
        first_linked(ids, known) == first_linked(ids.take(count), known),
    decreases ids.len() - count,
{
    if count == ids.len() {
        assert(ids.take(count) == ids);
    } else {
        assert(ids.take(count + 1).drop_last() == ids.take(count));
        lemma_linked_in_prefix(ids, known, count + 1);
    }
}

impl Evidence {
    /// One group for each request, in source order.
    pub fn groups(&self) -> (groups: &Vec<CaptureGroup>)
        ensures
            groups.deep_view() == self.deep_view().groups,
    {
        &self.groups
    }

    /// One group for each request, in source order, without the rest of the evidence.
    pub fn into_groups(self) -> (groups: Vec<CaptureGroup>)
        ensures
            groups.deep_view() == self.deep_view().groups,
    {
        self.groups
    }

    /// Observe a record, and keep a copy of what is needed of it.
    pub fn observe(&mut self, record: &Record) -> (problem: Option<Problem>)
        requires
            old(self).deep_view().is_valid(),
        ensures
            (final(self).deep_view(), problem.deep_view()) == old(self).deep_view().observed(
                record.deep_view(),
            ),
            final(self).deep_view().is_valid(),
    {
        self.observe_with(record.clone())
    }

    /// Observe a record, and keep what is needed of it without copying.
    pub fn observe_owned(&mut self, record: Record) -> (problem: Option<Problem>)
        requires
            old(self).deep_view().is_valid(),
        ensures
            (final(self).deep_view(), problem.deep_view()) == old(self).deep_view().observed(
                record.deep_view(),
            ),
            final(self).deep_view().is_valid(),
    {
        self.observe_with(record)
    }

    fn observe_with(&mut self, record: Record) -> (problem: Option<Problem>)
        requires
            old(self).deep_view().is_valid(),
        ensures
            (final(self).deep_view(), problem.deep_view()) == old(self).deep_view().observed(
                record.deep_view(),
            ),
            final(self).deep_view().is_valid(),
    {
        let ghost start = self.deep_view();
        let ghost observed = record.deep_view();
        proof {
            assert(self.groups.len() <= usize::MAX);
            lemma_observing_keeps_evidence_valid(start, observed);
        }
        match record {
            Record::Request { id, url } => {
                let duplicate = self.requests.contains_key(id.as_str());
                self.requests.insert(id.clone(), self.groups.len());
                let group = CaptureGroup { url, response: None, metadata: Vec::new() };
                let ghost added = group.deep_view();
                assert(added.metadata == Seq::<MetadataView>::empty());
                self.groups.push(group);
                assert(self.groups.deep_view() == start.groups.push(added));
                assert(self.deep_view() =~= start.observed(observed).0);
                if duplicate {
                    Some(Problem::DuplicateRequestId(id))
                } else {
                    None
                }
            },
            Record::Response { id, concurrent_to, url, message, truncation, .. } => {
                let request = linked(&concurrent_to, &self.requests);
                proof {
                    lemma_first_linked(concurrent_to.deep_view(), start.requests);
                }
                self.attach_response(
                    id,
                    request,
                    StoredResponse { url, message, truncation, revisit: None },
                )
            },
            Record::Revisit {
                id,
                concurrent_to,
                url,
                message,
                truncation,
                refers_to,
                profile,
                identified_json,
            } => {
                let request = linked(&concurrent_to, &self.requests);
                proof {
                    lemma_first_linked(concurrent_to.deep_view(), start.requests);
                }
                let original = match &refers_to {
                    Some(original) => match self.responses.get(original.as_str()) {
                        Some(index) => Some(*index),
                        None => None,
                    },
                    None => None,
                };
                let revisit = Some(StoredRevisit { profile, original, identified_json });
                self.attach_response(
                    id,
                    request,
                    StoredResponse { url, message, truncation, revisit },
                )
            },
            Record::Metadata { id, concurrent_to, url, via, fields } => {
                let index = match linked(&concurrent_to, &self.responses) {
                    Some(index) => index,
                    None => {
                        return Some(Problem::UnlinkedMetadata(id));
                    },
                };
                proof {
                    lemma_first_linked(concurrent_to.deep_view(), start.responses);
                }
                let ghost known = start.groups[index as int];
                let metadata = StoredMetadata { url, via, fields };
                let ghost added = metadata.deep_view();
                let duplicate = self.groups[index].metadata.len() > 0;
                let group_url = self.groups[index].url.clone();
                self.groups[index].metadata.push(metadata);
                assert(self.groups@[index as int].deep_view() =~= (GroupView {
                    metadata: known.metadata.push(added),
                    ..known
                }));
                assert(self.groups.deep_view() =~= start.groups.update(
                    index as int,
                    self.groups@[index as int].deep_view(),
                ));
                assert(self.deep_view() =~= start.observed(observed).0);
                if duplicate {
                    Some(Problem::DuplicateMetadata(group_url))
                } else {
                    None
                }
            },
            Record::Other { .. } => None,
        }
    }

    /// Attach a response to its request's group, which keeps its first.
    fn attach_response(&mut self, id: String, request: Option<usize>, response: StoredResponse) -> (
    problem: Option<Problem>)
        requires
            request matches Some(index) ==> index < old(self).deep_view().groups.len(),
        ensures
            (final(self).deep_view(), problem.deep_view()) == old(self).deep_view().with_response(
                id@,
                request,
                response.deep_view(),
            ),
    {
        let ghost start = self.deep_view();
        let ghost added = response.deep_view();
        let index = match request {
            Some(index) => index,
            None => {
                return Some(Problem::UnlinkedResponse(id));
            },
        };
        let ghost known = start.groups[index as int];
        assert(self.groups@[index as int].deep_view() == known);
        if self.groups[index].response.is_some() {
            return Some(Problem::DuplicateResponse(self.groups[index].url.clone()));
        }
        self.responses.insert(id, index);
        self.groups[index].response = Some(response);
        assert(self.groups@[index as int].deep_view() =~= (GroupView {
            response: Some(added),
            ..known
        }));
        assert(self.groups.deep_view() =~= start.groups.update(
            index as int,
            self.groups@[index as int].deep_view(),
        ));
        assert(self.deep_view() =~= start.with_response(id@, request, added).0);
        None
    }
}

/// Whether states are those that evidence goes through as records are observed, each lent to
/// [`Evidence::observe`] or handed over to [`Evidence::observe_owned`].
pub open spec fn is_history(states: Seq<EvidenceView>, records: Seq<RecordView>) -> bool {
    &&& states.len() == records.len() + 1
    &&& states[0] == EvidenceView::nothing()
    &&& forall|index: int|
        0 <= index < records.len() ==> (#[trigger] states[index]).observed(records[index]).0
            == states[index + 1]
}

/// Records that are lent and records that are handed over are observed alike: after equal records,
/// a further one brings the same problem and the same captures, with all that is kept of them.
pub proof fn lent_and_owned_records_are_observed_alike(
    lent: Seq<EvidenceView>,
    owned: Seq<EvidenceView>,
    records: Seq<RecordView>,
    record: RecordView,
)
    requires
        is_history(lent, records),
        is_history(owned, records),
    ensures
        lent.last() == owned.last(),
        lent.last().observed(record) == owned.last().observed(record),
        lent.last().observed(record).0.groups == owned.last().observed(record).0.groups,
    decreases records.len(),
{
    if records.len() > 0 {
        let earlier = records.drop_last();
        let before = records.len() - 1;
        assert forall|index: int| 0 <= index < earlier.len() implies (
        #[trigger] lent.drop_last()[index]).observed(earlier[index]).0 == lent.drop_last()[index
            + 1] by {
            assert(lent[index].observed(records[index]).0 == lent[index + 1]);
        }
        assert forall|index: int| 0 <= index < earlier.len() implies (
        #[trigger] owned.drop_last()[index]).observed(earlier[index]).0 == owned.drop_last()[index
            + 1] by {
            assert(owned[index].observed(records[index]).0 == owned[index + 1]);
        }
        lent_and_owned_records_are_observed_alike(
            lent.drop_last(),
            owned.drop_last(),
            earlier,
            records.last(),
        );
        assert(lent[before].observed(records[before]).0 == lent[before + 1]);
        assert(owned[before].observed(records[before]).0 == owned[before + 1]);
    }
}

/// A record never removes a capture, changes its URL, replaces its response, or drops any of its
/// metadata.
pub proof fn captures_are_only_added_to(evidence: EvidenceView, record: RecordView)
    requires
        evidence.is_valid(),
        evidence.groups.len() <= usize::MAX,
    ensures
        evidence.groups.len() <= evidence.observed(record).0.groups.len(),
        forall|index: int|
            0 <= index < evidence.groups.len() ==> {
                let before = #[trigger] evidence.groups[index];
                let after = evidence.observed(record).0.groups[index];
                &&& after.url == before.url
                &&& before.response is Some ==> after.response == before.response
                &&& before.metadata.is_prefix_of(after.metadata)
            },
{
    lemma_observing_keeps_evidence_valid(evidence, record);
    match record {
        RecordView::Response { concurrent_to, .. } => {
            lemma_first_linked(concurrent_to, evidence.requests);
        },
        RecordView::Revisit { concurrent_to, .. } => {
            lemma_first_linked(concurrent_to, evidence.requests);
        },
        RecordView::Metadata { concurrent_to, .. } => {
            lemma_first_linked(concurrent_to, evidence.responses);
        },
        _ => {},
    }
}

/// A response to a record ID that several requests have belongs to the latest of them.
pub proof fn the_latest_duplicate_request_wins(
    evidence: EvidenceView,
    id: Seq<char>,
    url: Seq<char>,
)
    requires
        evidence.groups.len() <= usize::MAX,
    ensures
        first_linked(
            seq![id],
            evidence.observed(RecordView::Request { id, url }).0.requests,
        ) == Some(evidence.groups.len() as usize),
{
    let after = evidence.observed(RecordView::Request { id, url }).0;
    assert(seq![id].drop_last() == Seq::<Seq<char>>::empty());
    assert(first_linked(seq![id].drop_last(), after.requests) is None);
}

/// Only backward links resolve: a response none of whose requests was seen before it changes
/// nothing, and neither does metadata none of whose responses was accepted before it.
pub proof fn only_backward_links_resolve(evidence: EvidenceView, record: RecordView)
    ensures
        match record {
            RecordView::Response { id, concurrent_to, .. } => (forall|at: int|
                0 <= at < concurrent_to.len() ==> !evidence.requests.contains_key(
                    #[trigger] concurrent_to[at],
                )) ==> evidence.observed(record) == (
                evidence,
                Some(ProblemView::UnlinkedResponse(id)),
            ),
            RecordView::Revisit { id, concurrent_to, .. } => (forall|at: int|
                0 <= at < concurrent_to.len() ==> !evidence.requests.contains_key(
                    #[trigger] concurrent_to[at],
                )) ==> evidence.observed(record) == (
                evidence,
                Some(ProblemView::UnlinkedResponse(id)),
            ),
            RecordView::Metadata { id, concurrent_to, .. } => (forall|at: int|
                0 <= at < concurrent_to.len() ==> !evidence.responses.contains_key(
                    #[trigger] concurrent_to[at],
                )) ==> evidence.observed(record) == (
                evidence,
                Some(ProblemView::UnlinkedMetadata(id)),
            ),
            _ => true,
        },
{
    match record {
        RecordView::Response { concurrent_to, .. } => {
            lemma_unlinked(concurrent_to, evidence.requests);
        },
        RecordView::Revisit { concurrent_to, .. } => {
            lemma_unlinked(concurrent_to, evidence.requests);
        },
        RecordView::Metadata { concurrent_to, .. } => {
            lemma_unlinked(concurrent_to, evidence.responses);
        },
        _ => {},
    }
}

/// IDs none of which is known lead nowhere.
proof fn lemma_unlinked(ids: Seq<Seq<char>>, known: Map<Seq<char>, usize>)
    ensures
        (forall|at: int| 0 <= at < ids.len() ==> !known.contains_key(#[trigger] ids[at]))
            ==> first_linked(ids, known) is None,
    decreases ids.len(),
{
    if ids.len() > 0 && (forall|at: int|
        0 <= at < ids.len() ==> !known.contains_key(#[trigger] ids[at])) {
        assert forall|at: int| 0 <= at < ids.drop_last().len() implies !known.contains_key(
            #[trigger] ids.drop_last()[at],
        ) by {
            assert(ids.drop_last()[at] == ids[at]);
        }
        lemma_unlinked(ids.drop_last(), known);
        assert(!known.contains_key(ids[ids.len() - 1]));
    }
}

/// A request, a response linked to it, and metadata linked to the response make one whole capture.
pub proof fn linked_records_make_a_capture(
    evidence: EvidenceView,
    request: Seq<char>,
    response: Seq<char>,
    metadata: Seq<char>,
    url: Seq<char>,
    answer: ResponseView,
    identified_json: bool,
    described: MetadataView,
)
    requires
        evidence.groups.len() <= usize::MAX,
        answer.revisit is None,
        !evidence.requests.contains_key(request),
    ensures
        ({
            let (requested, first) = evidence.observed(RecordView::Request { id: request, url });
            let (answered, second) = requested.observed(
                RecordView::Response {
                    id: response,
                    concurrent_to: seq![request],
                    url: answer.url,
                    message: answer.message,
                    truncation: answer.truncation,
                    identified_json,
                },
            );
            let (captured, third) = answered.observed(
                RecordView::Metadata {
                    id: metadata,
                    concurrent_to: seq![response],
                    url: described.url,
                    via: described.via,
                    fields: described.fields,
                },
            );
            &&& captured.groups == evidence.groups.push(
                GroupView { url, response: Some(answer), metadata: seq![described] },
            )
            &&& first is None
            &&& second is None
            &&& third is None
        }),
{
    let requested = evidence.observed(RecordView::Request { id: request, url }).0;
    the_latest_duplicate_request_wins(evidence, request, url);
    let index = evidence.groups.len() as usize;
    let answered = requested.with_response(response, Some(index), answer).0;
    assert(seq![response].drop_last() == Seq::<Seq<char>>::empty());
    assert(first_linked(seq![response].drop_last(), answered.responses) is None);
    assert(first_linked(seq![response], answered.responses) == Some(index));
    let group = GroupView { url, response: Some(answer), metadata: seq![described] };
    assert(Seq::<MetadataView>::empty().push(described) =~= seq![described]);
    assert(answered.groups.update(index as int, group) =~= evidence.groups.push(group));
}

/// Whether every revisit whose original is known stands for a response that some group has.
pub open spec fn originals_are_captured(groups: Seq<GroupView>) -> bool {
    forall|index: int|
        0 <= index < groups.len() ==> match (#[trigger] groups[index]).response {
            Some(response) => match response.revisit {
                Some(revisit) => match revisit.original {
                    Some(original) => original < groups.len()
                        && groups[original as int].response is Some,
                    None => true,
                },
                None => true,
            },
            None => true,
        }
}

/// A revisit resolves only to a response that was captured before it.
pub proof fn revisits_resolve_to_captured_responses(evidence: EvidenceView, record: RecordView)
    requires
        evidence.is_valid(),
        evidence.groups.len() <= usize::MAX,
        originals_are_captured(evidence.groups),
    ensures
        originals_are_captured(evidence.observed(record).0.groups),
{
    captures_are_only_added_to(evidence, record);
    match record {
        RecordView::Response { concurrent_to, .. } => {
            lemma_first_linked(concurrent_to, evidence.requests);
        },
        RecordView::Revisit { concurrent_to, .. } => {
            lemma_first_linked(concurrent_to, evidence.requests);
        },
        RecordView::Metadata { concurrent_to, .. } => {
            lemma_first_linked(concurrent_to, evidence.responses);
        },
        _ => {},
    }
}

/// Of several links the first that is known is followed.
pub proof fn the_first_known_link_is_followed(
    ids: Seq<Seq<char>>,
    known: Map<Seq<char>, usize>,
    at: int,
)
    requires
        0 <= at < ids.len(),
        known.contains_key(ids[at]),
        forall|earlier: int| 0 <= earlier < at ==> !known.contains_key(#[trigger] ids[earlier]),
    ensures
        first_linked(ids, known) == Some(known[ids[at]]),
    decreases ids.len(),
{
    let before = ids.drop_last();
    if at < ids.len() - 1 {
        assert(before[at] == ids[at]);
        assert forall|earlier: int| 0 <= earlier < at implies !known.contains_key(
            #[trigger] before[earlier],
        ) by {
            assert(before[earlier] == ids[earlier]);
        }
        the_first_known_link_is_followed(before, known, at);
    } else {
        assert forall|earlier: int| 0 <= earlier < before.len() implies !known.contains_key(
            #[trigger] before[earlier],
        ) by {
            assert(before[earlier] == ids[earlier]);
        }
        lemma_unlinked(before, known);
    }
}

/// A request begins a capture of its URL behind those before it, and is a problem exactly where its
/// identifier was known.
pub proof fn a_request_begins_a_capture(evidence: EvidenceView, id: Seq<char>, url: Seq<char>)
    ensures
        ({
            let (after, problem) = evidence.observed(RecordView::Request { id, url });
            &&& after.groups.len() == evidence.groups.len() + 1
            &&& after.groups.drop_last() == evidence.groups
            &&& after.groups.last() == (GroupView { url, response: None, metadata: Seq::empty() })
            &&& problem == (if evidence.requests.contains_key(id) {
                Some(ProblemView::DuplicateRequestId(id))
            } else {
                None
            })
        }),
{
    assert(evidence.observed(RecordView::Request { id, url }).0.groups.drop_last()
        =~= evidence.groups);
}

/// The records that a record is concurrent to.
pub open spec fn links_of(record: RecordView) -> Seq<Seq<char>> {
    match record {
        RecordView::Response { concurrent_to, .. } => concurrent_to,
        RecordView::Revisit { concurrent_to, .. } => concurrent_to,
        RecordView::Metadata { concurrent_to, .. } => concurrent_to,
        _ => Seq::empty(),
    }
}

/// A response or revisit answers the first of its requests that is known. It is that capture's
/// response where there was none, and changes nothing otherwise.
pub proof fn a_response_answers_its_request(
    evidence: EvidenceView,
    record: RecordView,
    at: int,
    group: usize,
)
    requires
        evidence.is_valid(),
        record is Response || record is Revisit,
        0 <= at < links_of(record).len(),
        evidence.requests.contains_key(links_of(record)[at]),
        evidence.requests[links_of(record)[at]] == group,
        forall|earlier: int|
            0 <= earlier < at ==> !evidence.requests.contains_key(
                #[trigger] links_of(record)[earlier],
            ),
    ensures
        ({
            let (after, problem) = evidence.observed(record);
            let before = evidence.groups[group as int];
            let now = after.groups[group as int];
            let answered = before.response is Some;
            &&& answered ==> after == evidence && problem == Some(
                ProblemView::DuplicateResponse(before.url),
            )
            &&& !answered ==> problem is None && now.url == before.url && now.metadata
                == before.metadata && now.response is Some
            &&& !answered && record is Response ==> now.response->0 == (ResponseView {
                url: record->Response_url,
                message: record->Response_message,
                truncation: record->Response_truncation,
                revisit: None,
            }) && after.responses.contains_key(record->Response_id)
                && after.responses[record->Response_id] == group
            &&& !answered && record is Revisit ==> {
                &&& now.response->0.url == record->Revisit_url
                &&& now.response->0.message == record->Revisit_message
                &&& now.response->0.truncation == record->Revisit_truncation
                &&& now.response->0.revisit is Some
                &&& now.response->0.revisit->0.profile == record->Revisit_profile
                &&& now.response->0.revisit->0.identified_json == record->Revisit_identified_json
                &&& after.responses.contains_key(record->Revisit_id)
                &&& after.responses[record->Revisit_id] == group
            }
            &&& forall|other: int|
                0 <= other < evidence.groups.len() && other != group ==> #[trigger]
                    after.groups[other] == evidence.groups[other]
        }),
{
    the_first_known_link_is_followed(links_of(record), evidence.requests, at);
}

/// A revisit stands for the response that it refers to where that was accepted before it.
pub proof fn a_revisit_refers_to_its_original(evidence: EvidenceView, record: RecordView, group: usize)
    requires
        evidence.is_valid(),
        record is Revisit,
        first_linked(record->Revisit_concurrent_to, evidence.requests) == Some(group),
        group < evidence.groups.len(),
        evidence.groups[group as int].response is None,
    ensures
        ({
            let revisit = evidence.observed(
                record,
            ).0.groups[group as int].response->0.revisit->0;
            &&& revisit.original is Some <==> (record->Revisit_refers_to matches Some(id)
                && evidence.responses.contains_key(id))
            &&& revisit.original matches Some(original) ==> original
                == evidence.responses[record->Revisit_refers_to->0]
        }),
{
}

/// Metadata belongs to the first of its responses that is known, behind the metadata before it; it
/// is a problem exactly where there was any.
pub proof fn metadata_describes_its_response(
    evidence: EvidenceView,
    record: RecordView,
    at: int,
    group: usize,
)
    requires
        evidence.is_valid(),
        record is Metadata,
        0 <= at < record->Metadata_concurrent_to.len(),
        evidence.responses.contains_key(record->Metadata_concurrent_to[at]),
        evidence.responses[record->Metadata_concurrent_to[at]] == group,
        forall|earlier: int|
            0 <= earlier < at ==> !evidence.responses.contains_key(
                #[trigger] record->Metadata_concurrent_to[earlier],
            ),
    ensures
        ({
            let (after, problem) = evidence.observed(record);
            let before = evidence.groups[group as int];
            let now = after.groups[group as int];
            &&& now.url == before.url
            &&& now.response == before.response
            &&& now.metadata == before.metadata.push(
                MetadataView {
                    url: record->Metadata_url,
                    via: record->Metadata_via,
                    fields: record->Metadata_fields,
                },
            )
            &&& problem == (if before.metadata.len() == 0 {
                None
            } else {
                Some(ProblemView::DuplicateMetadata(before.url))
            })
            &&& forall|other: int|
                0 <= other < evidence.groups.len() && other != group ==> #[trigger]
                    after.groups[other] == evidence.groups[other]
        }),
{
    the_first_known_link_is_followed(record->Metadata_concurrent_to, evidence.responses, at);
}

/// Records of other kinds are no evidence.
pub proof fn other_records_are_no_evidence(evidence: EvidenceView, id: Seq<char>)
    ensures
        evidence.observed(RecordView::Other { id }) == (evidence, None::<ProblemView>),
{
}

/// Records are observed one after another: what some bring and then the others is what they bring
/// together, and so are their problems.
pub proof fn records_are_observed_in_turn(
    evidence: EvidenceView,
    first: Seq<RecordView>,
    second: Seq<RecordView>,
)
    ensures
        evidence.observed_all(first + second).0 == evidence.observed_all(first).0.observed_all(
            second,
        ).0,
        evidence.observed_all(first + second).1 == evidence.observed_all(first).1
            + evidence.observed_all(first).0.observed_all(second).1,
        first.len() == 1 ==> evidence.observed_all(first).0 == evidence.observed(first[0]).0
            && evidence.observed_all(first).1 == (match evidence.observed(first[0]).1 {
            Some(problem) => seq![problem],
            None => Seq::empty(),
        }),
    decreases second.len(),
{
    if first.len() == 1 {
        assert(first.drop_last() =~= Seq::empty());
        assert(evidence.observed_all(first.drop_last()) == (
            evidence,
            Seq::<ProblemView>::empty(),
        ));
        if let Some(problem) = evidence.observed(first[0]).1 {
            assert(Seq::<ProblemView>::empty().push(problem) =~= seq![problem]);
        }
    }
    if second.len() == 0 {
        assert(first + second =~= first);
        assert(evidence.observed_all(first).1 + Seq::<ProblemView>::empty()
            =~= evidence.observed_all(first).1);
    } else {
        records_are_observed_in_turn(evidence, first, second.drop_last());
        assert((first + second).drop_last() =~= first + second.drop_last());
        assert((first + second).last() == second.last());
    }
}

} // verus!
