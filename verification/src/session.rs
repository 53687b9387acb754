//! What a capture session asks of a driver, and what it tells the driver of each response.

use crate::endpoint::{EndpointType, EndpointTypeView};
use crate::text;
use vstd::prelude::*;

verus! {

/// A request that a driver makes of its session.
#[derive(Clone, Debug, Eq, PartialEq)]
pub struct Request {
    /// The URL to capture.
    pub url: String,
    /// The URL that led to this one; a seed has none.
    pub via: Option<String>,
}

/// The URL of a [`Request`] and the one that led to it.
#[verifier::ext_equal]
pub struct RequestView {
    pub url: Seq<char>,
    pub via: Option<Seq<char>>,
}

impl DeepView for Request {
    type V = RequestView;

    open spec fn deep_view(&self) -> RequestView {
        RequestView { url: self.url@, via: self.via.deep_view() }
    }
}

impl Request {
    /// A request made for its own sake.
    #[must_use]
    pub fn seed(url: String) -> (request: Self)
        ensures
            request.deep_view() == (RequestView { url: url@, via: None }),
    {
        Request { url, via: None }
    }

    /// A request that follows from the resource at `via`.
    #[must_use]
    pub fn extra(url: String, via: String) -> (request: Self)
        ensures
            request.deep_view() == (RequestView { url: url@, via: Some(via@) }),
    {
        Request { url, via: Some(via) }
    }
}

/// What a driver makes of a capture.
#[derive(Clone, Debug, Eq, PartialEq)]
pub struct Inspection {
    /// A title for the capture.
    pub title: Option<String>,
    /// Why the session cannot go on, if it cannot.
    pub error: Option<String>,
}

/// The title and error of an [`Inspection`].
#[verifier::ext_equal]
pub struct InspectionView {
    pub title: Option<Seq<char>>,
    pub error: Option<Seq<char>>,
}

impl InspectionView {
    /// An inspection that found nothing to say.
    pub open spec fn nothing() -> Self {
        InspectionView { title: None, error: None }
    }

    /// An inspection that ends the session.
    pub open spec fn stopped(error: Seq<char>) -> Self {
        InspectionView { title: None, error: Some(error) }
    }
}

impl DeepView for Inspection {
    type V = InspectionView;

    open spec fn deep_view(&self) -> InspectionView {
        InspectionView { title: self.title.deep_view(), error: self.error.deep_view() }
    }
}

impl Default for Inspection {
    fn default() -> (inspection: Self)
        ensures
            inspection.deep_view() == InspectionView::nothing(),
    {
        Inspection { title: None, error: None }
    }
}

impl Inspection {
    /// An inspection that ends the session.
    #[must_use]
    pub fn error(message: String) -> (inspection: Self)
        ensures
            inspection.deep_view() == InspectionView::stopped(message@),
    {
        Inspection { title: None, error: Some(message) }
    }
}

/// The fields used from one `WordPress` REST API v2 comment.
#[derive(Debug, Eq, PartialEq)]
pub struct Comment {
    /// The comment's identifier.
    pub id: u64,
    /// The comment's GMT date, as `WordPress` writes it.
    pub date_gmt: String,
}

/// The identifier and date of a [`Comment`].
#[verifier::ext_equal]
pub struct CommentView {
    pub id: u64,
    pub date_gmt: Seq<char>,
}

impl DeepView for Comment {
    type V = CommentView;

    open spec fn deep_view(&self) -> CommentView {
        CommentView { id: self.id, date_gmt: self.date_gmt@ }
    }
}

/// A response's decoded entity, and what it reads as in each shape that is looked for in it.
#[derive(Debug, Eq, PartialEq)]
pub struct Payload {
    /// The entity itself.
    pub bytes: Vec<u8>,
    /// Its entries as a registry in response order, or why it is not one.
    pub registry: Result<Vec<EndpointType>, String>,
    /// Its code as an error response, unless it is not one.
    pub error_code: Option<String>,
    /// Its comments as a page of the comments collection, unless it is not one.
    pub comments: Option<Vec<Comment>>,
}

/// The bytes of a [`Payload`], and what they read as.
#[verifier::ext_equal]
pub struct PayloadView {
    pub bytes: Seq<u8>,
    pub registry: Result<Seq<EndpointTypeView>, Seq<char>>,
    pub error_code: Option<Seq<char>>,
    pub comments: Option<Seq<CommentView>>,
}

impl DeepView for Payload {
    type V = PayloadView;

    open spec fn deep_view(&self) -> PayloadView {
        PayloadView {
            bytes: self.bytes@,
            registry: match self.registry {
                Ok(entries) => Ok(entries.deep_view()),
                Err(error) => Err(error@),
            },
            error_code: self.error_code.deep_view(),
            comments: self.comments.deep_view(),
        }
    }
}

/// The response headers that a driver reads, as text.
#[derive(Debug, Eq, PartialEq)]
pub struct CaptureHead {
    /// The response's status code.
    pub status: u16,
    /// The `X-WP-Total` header.
    pub total: Option<String>,
    /// The `X-WP-TotalPages` header.
    pub total_pages: Option<String>,
    /// The `cf-mitigated` header.
    pub mitigated: Option<String>,
}

/// The status and headers of a [`CaptureHead`].
#[verifier::ext_equal]
pub struct CaptureHeadView {
    pub status: u16,
    pub total: Option<Seq<char>>,
    pub total_pages: Option<Seq<char>>,
    pub mitigated: Option<Seq<char>>,
}

impl DeepView for CaptureHead {
    type V = CaptureHeadView;

    open spec fn deep_view(&self) -> CaptureHeadView {
        CaptureHeadView {
            status: self.status,
            total: self.total.deep_view(),
            total_pages: self.total_pages.deep_view(),
            mitigated: self.mitigated.deep_view(),
        }
    }
}

impl CaptureHead {
    /// A copy of the status and headers.
    pub fn copied(&self) -> (copy: Self)
        ensures
            copy.deep_view() == self.deep_view(),
    {
        CaptureHead {
            status: self.status,
            total: text::copied(&self.total),
            total_pages: text::copied(&self.total_pages),
            mitigated: text::copied(&self.mitigated),
        }
    }
}

fn copied_entries(entries: &Vec<EndpointType>) -> (copies: Vec<EndpointType>)
    ensures
        copies.deep_view() == entries.deep_view(),
{
    let mut copies: Vec<EndpointType> = Vec::new();
    let ghost all = entries.deep_view();
    let mut index: usize = 0;
    while index < entries.len()
        invariant
            index <= entries@.len(),
            all == entries.deep_view(),
            copies.deep_view() == all.take(index as int),
        decreases entries@.len() - index,
    {
        let ghost known = copies.deep_view();
        copies.push(entries[index].copied());
        assert(copies.deep_view() == known.push(all[index as int]));
        index += 1;
        assert(all.take(index as int) == known.push(all[index - 1]));
    }
    assert(all.take(index as int) == all);
    copies
}

fn copied_comments(comments: &Vec<Comment>) -> (copies: Vec<Comment>)
    ensures
        copies.deep_view() == comments.deep_view(),
{
    let mut copies: Vec<Comment> = Vec::new();
    let ghost all = comments.deep_view();
    let mut index: usize = 0;
    while index < comments.len()
        invariant
            index <= comments@.len(),
            all == comments.deep_view(),
            copies.deep_view() == all.take(index as int),
        decreases comments@.len() - index,
    {
        let ghost known = copies.deep_view();
        let comment = &comments[index];
        copies.push(Comment { id: comment.id, date_gmt: comment.date_gmt.clone() });
        assert(copies.deep_view() == known.push(all[index as int]));
        index += 1;
        assert(all.take(index as int) == known.push(all[index - 1]));
    }
    assert(all.take(index as int) == all);
    copies
}

impl Payload {
    /// A copy of the payload.
    pub fn copied(&self) -> (copy: Self)
        ensures
            copy.deep_view() == self.deep_view(),
    {
        let mut bytes: Vec<u8> = Vec::new();
        bytes.extend_from_slice(self.bytes.as_slice());
        Payload {
            bytes,
            registry: match &self.registry {
                Ok(entries) => Ok(copied_entries(entries)),
                Err(error) => Err(error.clone()),
            },
            error_code: text::copied(&self.error_code),
            comments: match &self.comments {
                Some(comments) => Some(copied_comments(comments)),
                None => None,
            },
        }
    }
}

/// A captured response, as a session hands it to a driver.
#[derive(Clone, Copy)]
pub struct Capture<'a> {
    /// The URL that the driver requested.
    pub url: &'a str,
    /// The response's status and headers.
    pub head: &'a CaptureHead,
    /// The response's decoded entity.
    pub payload: &'a Payload,
}

/// The parts of a [`Capture`].
#[verifier::ext_equal]
pub struct CaptureView {
    pub url: Seq<char>,
    pub head: CaptureHeadView,
    pub payload: PayloadView,
}

impl<'a> DeepView for Capture<'a> {
    type V = CaptureView;

    open spec fn deep_view(&self) -> CaptureView {
        CaptureView {
            url: self.url@,
            head: self.head.deep_view(),
            payload: self.payload.deep_view(),
        }
    }
}

/// The explanation given when Cloudflare's managed challenge answers a request.
pub const CLOUDFLARE_CHALLENGE: &'static str =
    "Cloudflare requires an interactive browser challenge; browser-derived clearance cookies are required";

/// Error code returned by `WordPress` when a requested collection page no longer exists.
pub const INVALID_PAGE_ERROR_CODE: &'static str = "rest_post_invalid_page_number";

impl CaptureView {
    /// Whether Cloudflare's managed challenge answered the request.
    pub open spec fn is_cloudflare_challenge(self) -> bool {
        self.head.status == 403 && self.head.mitigated == Some("challenge"@)
    }

    /// The page count that the response advertises.
    pub open spec fn advertised_pages(self) -> Option<usize> {
        match self.head.total_pages {
            Some(value) => text::parsed_count(value),
            None => None,
        }
    }

    /// The item count that the response advertises.
    pub open spec fn advertised_items(self) -> Option<usize> {
        match self.head.total {
            Some(value) => text::parsed_count(value),
            None => None,
        }
    }
}

impl PayloadView {
    /// Whether an error response says the requested collection page no longer exists.
    pub open spec fn is_invalid_page_error(self) -> bool {
        self.error_code == Some(INVALID_PAGE_ERROR_CODE@)
    }
}

fn parsed(value: &Option<String>) -> (count: Option<usize>)
    ensures
        count == (match value.deep_view() {
            Some(value) => text::parsed_count(value),
            None => None,
        }),
{
    match value {
        Some(value) => text::parse_count(value.as_str()),
        None => None,
    }
}

impl<'a> Capture<'a> {
    /// Whether Cloudflare's managed challenge answered the request.
    ///
    /// The challenge cannot be answered without a browser, and every further request would meet it
    /// too, so a traversal ends rather than failing page by page.
    pub fn is_cloudflare_challenge(&self) -> (challenged: bool)
        ensures
            challenged == self.deep_view().is_cloudflare_challenge(),
    {
        self.head.status == 403 && match &self.head.mitigated {
            Some(value) => text::same(value.as_str(), "challenge"),
            None => false,
        }
    }

    /// The page count that the response advertises.
    pub fn advertised_pages(&self) -> (pages: Option<usize>)
        ensures
            pages == self.deep_view().advertised_pages(),
    {
        parsed(&self.head.total_pages)
    }

    /// The item count that the response advertises.
    pub fn advertised_items(&self) -> (items: Option<usize>)
        ensures
            items == self.deep_view().advertised_items(),
    {
        parsed(&self.head.total)
    }
}

impl Payload {
    /// Whether an error response says the requested collection page no longer exists.
    pub fn is_invalid_page_error(&self) -> (invalid: bool)
        ensures
            invalid == self.deep_view().is_invalid_page_error(),
    {
        match &self.error_code {
            Some(code) => text::same(code.as_str(), INVALID_PAGE_ERROR_CODE),
            None => false,
        }
    }
}

/// A count header in plain decimal digits advertises its number, and one that is absent advertises
/// nothing.
pub proof fn counts_are_read_from_their_headers(capture: CaptureView, number: usize)
    ensures
        capture.head.total_pages == Some(text::decimal(number as nat))
            ==> capture.advertised_pages() == Some(number),
        capture.head.total == Some(text::decimal(number as nat)) ==> capture.advertised_items()
            == Some(number),
        capture.head.total_pages is None ==> capture.advertised_pages() is None,
        capture.head.total is None ==> capture.advertised_items() is None,
{
    text::lemma_count_text_parses_back(number);
}

/// A response is taken for a challenge exactly where its status is 403 and it says so, and an error
/// for that of a page no longer there exactly where it has that code.
pub proof fn refusals_are_told_apart(capture: CaptureView)
    ensures
        capture.is_cloudflare_challenge() <==> capture.head.status == 403
            && capture.head.mitigated is Some && capture.head.mitigated->0 == "challenge"@,
        capture.payload.is_invalid_page_error() <==> capture.payload.error_code is Some
            && capture.payload.error_code->0 == "rest_post_invalid_page_number"@,
{
}

} // verus!
