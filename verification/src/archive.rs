//! Archiving a site's `WordPress` REST API v2 collections one endpoint at a time.
//!
//! [`ArchiveDriver`] drives a capture session. A run captures the API's root resources, discovers
//! custom collections from the type and taxonomy registries among them, probes every supported
//! [`Endpoint`] and then every custom collection with a bare request, and finally pages each
//! exposed collection in that order. Its [`Checkpoint`] names the page a stopped run is continued
//! from.

use crate::clock;
use crate::clock::{Moment, Timestamp};
use crate::endpoint;
use crate::endpoint::{
    Collection, CollectionView, Endpoint, EndpointType, EndpointTypeView, Registry, ROOT_ENDPOINTS,
};
use crate::session::{
    Capture, CaptureView, Inspection, InspectionView, Request, RequestView, CLOUDFLARE_CHALLENGE,
};
use crate::text;
use crate::web;
use crate::web::{Address, AddressView};
use std::collections::VecDeque;
use vstd::hash_map::StringHashMap;
use vstd::prelude::*;
use vstd::string::StringExecFns;

verus! {

/// The default and maximum number of collection items requested per page.
pub const DEFAULT_PER_PAGE: usize = 100;

/// A `WordPress` installation named by its host and optional path, such as `example.com/blog`.
#[derive(Debug, Eq, PartialEq)]
pub struct Site {
    base: String,
    root: Address,
}

/// The base and root of a [`Site`].
#[verifier::ext_equal]
pub struct SiteView {
    pub base: Seq<char>,
    pub root: AddressView,
}

impl DeepView for Site {
    type V = SiteView;

    closed spec fn deep_view(&self) -> SiteView {
        SiteView { base: self.base@, root: self.root.deep_view() }
    }
}

/// The reason a base does not name a [`Site`].
#[derive(Debug)]
pub enum SiteError {
    /// The base is not a host with an optional path, for the reason that the `url` crate gives.
    Url(String, String),
    /// The base carries a query or fragment, which endpoint paths cannot be appended to.
    QueryOrFragment(String),
}

/// The reason a base does not name a [`Site`], over views.
#[verifier::ext_equal]
pub enum SiteErrorView {
    Url(Seq<char>, Seq<char>),
    QueryOrFragment(Seq<char>),
}

impl DeepView for SiteError {
    type V = SiteErrorView;

    open spec fn deep_view(&self) -> SiteErrorView {
        match self {
            SiteError::Url(base, reason) => SiteErrorView::Url(base@, reason@),
            SiteError::QueryOrFragment(base) => SiteErrorView::QueryOrFragment(base@),
        }
    }
}

impl SiteErrorView {
    /// The base and what is wrong with it, in words.
    pub open spec fn message(self) -> Seq<char> {
        match self {
            SiteErrorView::Url(base, reason) => "site base "@ + text::quoted(base)
                + " is not a host with an optional path: "@ + reason,
            SiteErrorView::QueryOrFragment(base) => "site base "@ + text::quoted(base)
                + " must not have a query or fragment"@,
        }
    }
}

impl SiteError {
    /// The base and what is wrong with it.
    pub fn to_string(&self) -> (message: String)
        ensures
            message@ == self.deep_view().message(),
    {
        let mut message = "site base ".to_owned();
        match self {
            SiteError::Url(base, reason) => {
                message.append(text::quote(base.as_str()).as_str());
                message.append(" is not a host with an optional path: ");
                message.append(reason.as_str());
            },
            SiteError::QueryOrFragment(base) => {
                message.append(text::quote(base.as_str()).as_str());
                message.append(" must not have a query or fragment");
            },
        }
        message
    }
}

/// Whether a base names a site without TLS, and the host and path it names without their trailing
/// slashes.
pub open spec fn located(base: Seq<char>) -> (bool, Seq<char>) {
    match text::stripped_prefix(base, "http://"@) {
        Some(location) => (true, text::trimmed_end(location, '/')),
        None => match text::stripped_prefix(base, "https://"@) {
            Some(location) => (false, text::trimmed_end(location, '/')),
            None => (false, text::trimmed_end(base, '/')),
        },
    }
}

/// The site that a base names, or why it names none.
pub open spec fn parsed_site(base: Seq<char>) -> Result<SiteView, SiteErrorView> {
    let (plain, location) = located(base);
    let root = if plain {
        "http://"@ + location + "/"@
    } else {
        "https://"@ + location + "/"@
    };
    match web::parsed_address(root) {
        Err(reason) => Err(SiteErrorView::Url(base, reason)),
        Ok(root) => if root.query is Some || root.fragment is Some {
            Err(SiteErrorView::QueryOrFragment(base))
        } else {
            Ok(
                SiteView {
                    base: if plain {
                        "http://"@ + location
                    } else {
                        location
                    },
                    root,
                },
            )
        },
    }
}

/// Whether a character needs no escaping in any part of a URI.
pub open spec fn is_unreserved(character: char) -> bool {
    ||| 'a' <= character <= 'z'
    ||| 'A' <= character <= 'Z'
    ||| '0' <= character <= '9'
    ||| character == '-'
    ||| character == '.'
    ||| character == '_'
    ||| character == '~'
}

impl SiteView {
    /// A resource's URL from its path relative to the installation root.
    pub open spec fn url(self, path: Seq<char>) -> Seq<char> {
        self.root.href + path
    }

    /// The bare URL of the collection at `wp-json/wp/v2/{endpoint}`.
    pub open spec fn endpoint_url(self, endpoint: Seq<char>) -> Seq<char> {
        self.url("wp-json/wp/v2/"@ + endpoint)
    }

    /// The URL of one page of an endpoint's collection, in ascending ID order up to `before`.
    pub open spec fn page_url(
        self,
        endpoint: Seq<char>,
        before: Moment,
        page: nat,
        per_page: nat,
    ) -> Seq<char> {
        self.endpoint_url(endpoint) + "?before="@ + clock::whole_second_text(
            before.seconds,
            before.nanos,
        ) + "&orderby=id&order=asc&page="@ + text::decimal(page) + "&per_page="@ + text::decimal(
            per_page,
        )
    }

    /// The base without a scheme.
    pub open spec fn location(self) -> Seq<char> {
        match text::stripped_prefix(self.base, "http://"@) {
            Some(location) => location,
            None => self.base,
        }
    }

    /// The name of a session started at `at`: the base and the epoch second, joined by a hyphen,
    /// with a hyphen for every character of the base that a session identifier does not permit.
    pub open spec fn session_name(self, at: Moment) -> Seq<char> {
        self.location().map_values(
            |character: char|
                if is_unreserved(character) {
                    character
                } else {
                    '-'
                },
        ) + "-"@ + text::signed_decimal(at.seconds)
    }
}

/// The names and values of a page request's query.
pub open spec fn page_pairs(before: Moment, page: nat, per_page: nat) -> Seq<
    (Seq<char>, Seq<char>),
> {
    seq![
        ("before"@, clock::whole_second_text(before.seconds, before.nanos)),
        ("orderby"@, "id"@),
        ("order"@, "asc"@),
        ("page"@, text::decimal(page)),
        ("per_page"@, text::decimal(per_page)),
    ]
}

/// The query of a page request.
pub open spec fn page_query(before: Moment, page: nat, per_page: nat) -> Seq<char> {
    "before="@ + clock::whole_second_text(before.seconds, before.nanos)
        + "&orderby=id&order=asc&page="@ + text::decimal(page) + "&per_page="@ + text::decimal(
        per_page,
    )
}

/// The query of a page request is literal, and holds its names and values.
pub proof fn lemma_page_query(before: Moment, page: nat, per_page: nat)
    requires
        clock::reads_back(before),
    ensures
        web::is_literal_query(page_query(before, page, per_page)),
        web::literal_pairs(page_query(before, page, per_page)) == page_pairs(
            before,
            page,
            per_page,
        ),
{
    let at = clock::whole_second_text(before.seconds, before.nanos);
    let number = text::decimal(page);
    let size = text::decimal(per_page);
    let query = page_query(before, page, per_page);
    reveal_strlit("before=");
    reveal_strlit("&orderby=id&order=asc&page=");
    reveal_strlit("&per_page=");
    reveal_strlit("=");
    reveal_strlit("&");
    reveal_strlit("before");
    reveal_strlit("orderby");
    reveal_strlit("id");
    reveal_strlit("order");
    reveal_strlit("asc");
    reveal_strlit("page");
    reveal_strlit("per_page");
    text::lemma_decimal_reads_back(page);
    text::lemma_decimal_reads_back(per_page);
    assert(web::is_literal_query(query));
    let by_size = "per_page"@ + "="@ + size;
    let by_page = "page"@ + "="@ + number + "&"@ + by_size;
    let by_direction = "order"@ + "="@ + "asc"@ + "&"@ + by_page;
    let by_order = "orderby"@ + "="@ + "id"@ + "&"@ + by_direction;
    assert(query =~= "before"@ + "="@ + at + "&"@ + by_order);
    web::lemma_last_pair("per_page"@, size);
    web::lemma_first_pair("page"@, number, by_size);
    web::lemma_first_pair("order"@, "asc"@, by_page);
    web::lemma_first_pair("orderby"@, "id"@, by_direction);
    web::lemma_first_pair("before"@, at, by_order);
    assert(web::literal_pairs(query) =~= page_pairs(before, page, per_page));
}

/// The address that the URL of a page is read as holds the cutoff, the order, the page, and the
/// page size.
pub proof fn a_page_url_carries_its_query(
    site: SiteView,
    endpoint: Seq<char>,
    before: Moment,
    page: nat,
    per_page: nat,
)
    requires
        web::is_bare(site.root.href),
        web::is_bare(endpoint),
        clock::reads_back(before),
        web::is_read(site.page_url(endpoint, before, page, per_page)),
    ensures
        web::parsed_address(site.page_url(endpoint, before, page, per_page)) matches Ok(
            address,
        ) ==> address.pairs == page_pairs(before, page, per_page) && address.fragment is None,
{
    let front = site.endpoint_url(endpoint);
    let query = page_query(before, page, per_page);
    lemma_page_query(before, page, per_page);
    reveal_strlit("?before=");
    reveal_strlit("before=");
    reveal_strlit("?");
    reveal_strlit("wp-json/wp/v2/");
    assert("?"@ =~= seq!['?']);
    assert("?before="@ =~= seq!['?'] + "before="@);
    assert(web::is_bare(front));
    assert(site.page_url(endpoint, before, page, per_page) =~= front + seq!['?'] + query);
    text::lemma_split_at_first(front, '?', query);
}

/// A session name holds only characters that a session identifier permits.
pub proof fn session_names_are_unreserved(site: SiteView, at: Moment)
    ensures
        forall|index: int|
            0 <= index < site.session_name(at).len() ==> is_unreserved(
                #[trigger] site.session_name(at)[index],
            ),
{
    reveal_strlit("-");
    let number = text::signed_decimal(at.seconds);
    let magnitude = if at.seconds < 0 {
        (-at.seconds) as nat
    } else {
        at.seconds as nat
    };
    text::lemma_decimal_reads_back(magnitude);
    let name = site.session_name(at);
    let start = site.location().len() + 1;
    assert forall|index: int| 0 <= index < name.len() implies is_unreserved(
        #[trigger] name[index],
    ) by {
        if index >= start {
            assert(name[index] == number[index - start]);
            if at.seconds < 0 && index > start {
                assert(number[index - start] == text::decimal(magnitude)[index - start - 1]);
                assert(text::is_digit(text::decimal(magnitude)[index - start - 1]));
            } else if at.seconds >= 0 {
                assert(text::is_digit(text::decimal(magnitude)[index - start]));
            }
        }
    }
}

impl Clone for Site {
    fn clone(&self) -> (copy: Self)
        ensures
            copy.deep_view() == self.deep_view(),
    {
        Site { base: self.base.clone(), root: self.root.copied() }
    }
}

impl Site {
    /// Name a site by a host with an optional path, without a scheme.
    ///
    /// A trailing slash is removed. Requests use HTTPS; a base beginning with `http://` is
    /// accepted for a site without TLS, and is retained in [`base`](Self::base).
    ///
    /// # Errors
    ///
    /// Returns [`SiteError`] when the base is not a host with an optional path.
    pub fn parse(base: &str) -> (site: Result<Self, SiteError>)
        ensures
            match site {
                Ok(site) => parsed_site(base@) == Ok::<SiteView, SiteErrorView>(site.deep_view())
                    && web::is_bare(site.deep_view().root.href),
                Err(error) => parsed_site(base@) == Err::<SiteView, SiteErrorView>(
                    error.deep_view(),
                ),
            },
    {
        let (plain, location) = match text::strip_prefix(base, "http://") {
            Some(location) => (true, text::trim_end(location.as_str(), '/')),
            None => match text::strip_prefix(base, "https://") {
                Some(location) => (false, text::trim_end(location.as_str(), '/')),
                None => (false, text::trim_end(base, '/')),
            },
        };
        let mut address = if plain {
            text::joined("http://", location.as_str())
        } else {
            text::joined("https://", location.as_str())
        };
        address.append("/");
        match web::parse(address.as_str()) {
            Err(reason) => Err(SiteError::Url(base.to_owned(), reason)),
            Ok(root) => {
                if root.query.is_some() || root.fragment.is_some() {
                    return Err(SiteError::QueryOrFragment(base.to_owned()));
                }
                let base = if plain {
                    text::joined("http://", location.as_str())
                } else {
                    location
                };
                Ok(Site { base, root })
            },
        }
    }

    /// Whether the site is another.
    #[must_use]
    pub fn equals(&self, other: &Self) -> (equal: bool)
        ensures
            equal == (self.deep_view() == other.deep_view()),
    {
        text::same(self.base.as_str(), other.base.as_str()) && self.root.equals(&other.root)
    }

    /// The base without its trailing slash, and without a scheme unless it is `http://`.
    #[must_use]
    pub fn base(&self) -> (base: &str)
        ensures
            base@ == self.deep_view().base,
    {
        self.base.as_str()
    }

    /// The installation root, ending in a slash, that API paths are appended to.
    #[must_use]
    pub fn root(&self) -> (root: &Address)
        ensures
            root.deep_view() == self.deep_view().root,
    {
        &self.root
    }

    /// The name of a session started at `at`: the base and the epoch second, joined by a hyphen.
    ///
    /// A session identifier permits only URI-unreserved characters, so every other character of
    /// the base, including the slashes between path segments, becomes a hyphen.
    #[must_use]
    pub fn session_name(&self, at: Timestamp) -> (name: String)
        ensures
            name@ == self.deep_view().session_name(at@),
    {
        let location = match text::strip_prefix(self.base.as_str(), "http://") {
            Some(location) => location,
            None => self.base.clone(),
        };
        let all = text::characters(location.as_str());
        let ghost replaced = location@.map_values(
            |character: char|
                if is_unreserved(character) {
                    character
                } else {
                    '-'
                },
        );
        let mut name = String::new();
        let mut index: usize = 0;
        while index < all.len()
            invariant
                index <= all@.len(),
                all@ == location@,
                replaced == location@.map_values(
                    |character: char|
                        if is_unreserved(character) {
                            character
                        } else {
                            '-'
                        },
                ),
                name@ == replaced.take(index as int),
            decreases all@.len() - index,
        {
            let character = all[index];
            let kept = ('a' <= character && character <= 'z') || ('A' <= character && character
                <= 'Z') || ('0' <= character && character <= '9') || character == '-' || character
                == '.' || character == '_' || character == '~';
            name.push(
                if kept {
                    character
                } else {
                    '-'
                },
            );
            index += 1;
            assert(name@ == replaced.take(index as int));
        }
        assert(replaced.take(index as int) == replaced);
        name.append("-");
        name.append(text::signed_decimal_of(at.seconds()).as_str());
        name
    }

    /// A resource's URL from its path relative to the installation root.
    pub fn url(&self, path: &str) -> (url: String)
        ensures
            url@ == self.deep_view().url(path@),
    {
        text::joined(self.root.href.as_str(), path)
    }

    /// The bare URL of the collection at `wp-json/wp/v2/{endpoint}`.
    pub fn endpoint_url(&self, endpoint: &str) -> (url: String)
        ensures
            url@ == self.deep_view().endpoint_url(endpoint@),
    {
        self.url(text::joined("wp-json/wp/v2/", endpoint).as_str())
    }

    /// The URL of one page of an endpoint's collection, in ascending ID order up to `before`.
    pub fn page_url(&self, endpoint: &str, before: Timestamp, page: usize, per_page: usize) -> (url:
        String)
        ensures
            url@ == self.deep_view().page_url(endpoint@, before@, page as nat, per_page as nat),
    {
        let mut url = self.endpoint_url(endpoint);
        url.append("?before=");
        url.append(before.rendered().as_str());
        url.append("&orderby=id&order=asc&page=");
        url.append(text::count_text(page).as_str());
        url.append("&per_page=");
        url.append(text::count_text(per_page).as_str());
        url
    }
}

impl std::str::FromStr for Site {
    type Err = SiteError;

    fn from_str(base: &str) -> (site: Result<Self, SiteError>)
        ensures
            match site {
                Ok(site) => parsed_site(base@) == Ok::<SiteView, SiteErrorView>(site.deep_view())
                    && web::is_bare(site.deep_view().root.href),
                Err(error) => parsed_site(base@) == Err::<SiteView, SiteErrorView>(
                    error.deep_view(),
                ),
            },
    {
        Site::parse(base)
    }
}

/// The site whose REST API a request is made of, if it is made of any: the path before the first
/// `/wp-json` is the installation's.
pub open spec fn inferred_site(request: Seq<char>) -> Option<Result<SiteView, SiteErrorView>> {
    match web::parsed_address(request) {
        Err(_) => None,
        Ok(address) => match text::found(address.path, "/wp-json"@) {
            None => None,
            Some(marker) => {
                let path = if marker == 0 {
                    "/"@
                } else {
                    address.path.take(marker)
                };
                Some(
                    parsed_site(text::trimmed_end(web::address_at_path(request, path), '/')),
                )
            },
        },
    }
}

/// The site whose REST API a request is made of, if it is made of any.
pub fn site_from_request(request: &str) -> (site: Option<Result<Site, SiteError>>)
    requires
        web::is_settable(request@),
    ensures
        match site {
            None => inferred_site(request@) is None,
            Some(Ok(site)) => inferred_site(request@) == Some(
                Ok::<SiteView, SiteErrorView>(site.deep_view()),
            ),
            Some(Err(error)) => inferred_site(request@) == Some(
                Err::<SiteView, SiteErrorView>(error.deep_view()),
            ),
        },
{
    let address = match web::parse(request) {
        Ok(address) => address,
        Err(_) => {
            return None;
        },
    };
    let all = text::characters(address.path.as_str());
    let marker = match text::find(&all, "/wp-json") {
        Some(marker) => marker,
        None => {
            return None;
        },
    };
    let path = if marker == 0 {
        "/".to_owned()
    } else {
        text::text_between(&all, 0, marker)
    };
    proof {
        reveal_strlit("/");
        reveal_strlit("/wp-json");
        if marker == 0 {
            assert(all@.subrange(0, 8)[0] == '/');
            assert(path@ == all@.subrange(0, 1));
        } else {
            assert(path@ == all@.take(marker as int));
        }
        assert(path@.is_prefix_of(address.path@));
    }
    let href = web::at_path(request, path.as_str());
    Some(Site::parse(text::trim_end(href.as_str(), '/').as_str()))
}

/// Where a stopped run is continued from.
#[derive(Debug, Eq, PartialEq)]
pub enum Checkpoint {
    /// The root resources and endpoint probes that begin an archive are not finished, and are
    /// repeated by a new archive rather than continued.
    Initial,
    /// A run continues an endpoint after the last page captured of it.
    Resume(Resumption),
    /// Every exposed collection completed its paging pass.
    Finished,
}

/// The page a stopped run is continued after.
#[derive(Debug, Eq, PartialEq)]
pub struct Resumption {
    /// The endpoint to continue.
    pub endpoint: Collection,
    /// The last page of that endpoint captured so far, or zero when it is yet to be probed.
    pub last_page: usize,
    /// The most recently observed page count, if one was available.
    pub total_pages: Option<usize>,
}

/// A [`Checkpoint`], over the view of its resumption.
#[verifier::ext_equal]
pub enum CheckpointView {
    Initial,
    Resume(ResumptionView),
    Finished,
}

/// A [`Resumption`], over the view of its endpoint.
#[verifier::ext_equal]
pub struct ResumptionView {
    pub endpoint: CollectionView,
    pub last_page: usize,
    pub total_pages: Option<usize>,
}

impl CheckpointView {
    /// Whether a run can go on after the checkpoint's page.
    pub open spec fn has_room(self) -> bool {
        self matches CheckpointView::Resume(resumption) ==> resumption.last_page < usize::MAX
    }
}

impl DeepView for Resumption {
    type V = ResumptionView;

    open spec fn deep_view(&self) -> ResumptionView {
        ResumptionView {
            endpoint: self.endpoint.deep_view(),
            last_page: self.last_page,
            total_pages: self.total_pages,
        }
    }
}

impl DeepView for Checkpoint {
    type V = CheckpointView;

    open spec fn deep_view(&self) -> CheckpointView {
        match self {
            Checkpoint::Initial => CheckpointView::Initial,
            Checkpoint::Resume(resumption) => CheckpointView::Resume(resumption.deep_view()),
            Checkpoint::Finished => CheckpointView::Finished,
        }
    }
}

impl Clone for Resumption {
    fn clone(&self) -> (copy: Self)
        ensures
            copy.deep_view() == self.deep_view(),
    {
        Resumption {
            endpoint: self.endpoint.clone(),
            last_page: self.last_page,
            total_pages: self.total_pages,
        }
    }
}

impl Clone for Checkpoint {
    fn clone(&self) -> (copy: Self)
        ensures
            copy.deep_view() == self.deep_view(),
    {
        match self {
            Checkpoint::Initial => Checkpoint::Initial,
            Checkpoint::Resume(resumption) => Checkpoint::Resume(resumption.clone()),
            Checkpoint::Finished => Checkpoint::Finished,
        }
    }
}

/// Progress through one exposed collection whose probe or resume checkpoint supplied a page
/// count.
#[derive(Debug, Eq, PartialEq)]
pub struct PaginationProgress {
    /// The collection being paged.
    pub collection: Collection,
    /// Pages completed in the current pass.
    pub page: usize,
    /// Page count derived from the collection probe's item total or carried by a resume checkpoint.
    pub total_pages: usize,
}

/// A [`PaginationProgress`], over the view of its collection.
#[verifier::ext_equal]
pub struct ProgressView {
    pub collection: CollectionView,
    pub page: usize,
    pub total_pages: usize,
}

impl DeepView for PaginationProgress {
    type V = ProgressView;

    open spec fn deep_view(&self) -> ProgressView {
        ProgressView {
            collection: self.collection.deep_view(),
            page: self.page,
            total_pages: self.total_pages,
        }
    }
}

/// The archived result of one collection probe, sufficient to resume without probing it again.
#[derive(Debug, Eq, PartialEq)]
pub struct ProbeResult {
    /// The supported or registry-advertised collection that was probed.
    pub collection: Collection,
    /// The probe's HTTP response status.
    pub status: u16,
    /// Page count derived from `X-WP-Total`, when the probe supplied a valid item count.
    pub total_pages: Option<usize>,
}

/// A [`ProbeResult`], over the view of its collection.
#[verifier::ext_equal]
pub struct ProbeView {
    pub collection: CollectionView,
    pub status: u16,
    pub total_pages: Option<usize>,
}

impl DeepView for ProbeResult {
    type V = ProbeView;

    open spec fn deep_view(&self) -> ProbeView {
        ProbeView {
            collection: self.collection.deep_view(),
            status: self.status,
            total_pages: self.total_pages,
        }
    }
}

impl Clone for ProbeResult {
    fn clone(&self) -> (copy: Self)
        ensures
            copy.deep_view() == self.deep_view(),
    {
        ProbeResult {
            collection: self.collection.clone(),
            status: self.status,
            total_pages: self.total_pages,
        }
    }
}

/// Progress through one exposed collection.
pub struct Series {
    endpoint: Collection,
    /// The last page captured, or zero before the first.
    page: usize,
    /// The greatest page count advertised so far.
    total_pages: Option<usize>,
}

/// A [`Series`], over the view of its endpoint.
#[verifier::ext_equal]
pub struct SeriesView {
    pub endpoint: CollectionView,
    pub page: usize,
    pub total_pages: Option<usize>,
}

impl DeepView for Series {
    type V = SeriesView;

    closed spec fn deep_view(&self) -> SeriesView {
        SeriesView {
            endpoint: self.endpoint.deep_view(),
            page: self.page,
            total_pages: self.total_pages,
        }
    }
}

/// What a collection page's response means for the series.
pub enum PageOutcome {
    /// A further page follows.
    Next,
    /// The page was the collection's last.
    Last,
}

/// The greater of a known page count and an advertised one.
pub open spec fn greatest(known: Option<usize>, advertised: Option<usize>) -> Option<usize> {
    match (known, advertised) {
        (Some(known), Some(advertised)) => Some(
            if known >= advertised {
                known
            } else {
                advertised
            },
        ),
        (Some(known), None) => Some(known),
        (None, advertised) => advertised,
    }
}

impl SeriesView {
    /// Where a run stopped at this point of the series is continued from.
    pub open spec fn checkpoint(self) -> CheckpointView {
        CheckpointView::Resume(
            ResumptionView {
                endpoint: self.endpoint,
                last_page: self.page,
                total_pages: self.total_pages,
            },
        )
    }

    /// Whether the response to the page after the last one captured says that the page no longer
    /// exists.
    pub open spec fn has_vanished(self, capture: CaptureView) -> bool {
        capture.head.status == 400 && self.page >= 1 && capture.payload.is_invalid_page_error()
    }

    /// Why the response to the page after the last one captured ends the session, if it does.
    pub open spec fn refusal(self, capture: CaptureView) -> Option<Seq<char>> {
        if self.has_vanished(capture) {
            None
        } else if capture.head.status != 200 && capture.head.status != 304 {
            Some(
                "unexpected WordPress response status "@ + text::decimal(
                    capture.head.status as nat,
                ) + " on "@ + self.endpoint.name() + " page "@ + text::decimal(
                    (self.page + 1) as nat,
                ),
            )
        } else if greatest(self.total_pages, capture.advertised_pages()) is None {
            Some(
                "missing or invalid X-WP-TotalPages on "@ + self.endpoint.name() + " page "@
                    + text::decimal((self.page + 1) as nat),
            )
        } else {
            None
        }
    }

    /// The series after the response to its next page, and whether that was its last.
    pub open spec fn recorded(self, capture: CaptureView) -> (SeriesView, bool) {
        if self.has_vanished(capture) {
            (self, true)
        } else {
            let total_pages = greatest(self.total_pages, capture.advertised_pages());
            (
                SeriesView { endpoint: self.endpoint, page: (self.page + 1) as usize, total_pages },
                total_pages is Some && self.page + 1 >= total_pages->0,
            )
        }
    }
}

impl Series {
    /// Begin a collection at its first page.
    pub fn new(endpoint: Collection, total_pages: Option<usize>) -> (series: Self)
        ensures
            series.deep_view() == (SeriesView {
                endpoint: endpoint.deep_view(),
                page: 0,
                total_pages,
            }),
    {
        Series { endpoint, page: 0, total_pages }
    }

    /// Continue a collection after `page`.
    pub fn resume(endpoint: Collection, page: usize, total_pages: Option<usize>) -> (series: Self)
        ensures
            series.deep_view() == (SeriesView { endpoint: endpoint.deep_view(), page, total_pages }),
    {
        Series { endpoint, page, total_pages }
    }

    /// Where a run stopped at this point of the series is continued from.
    pub fn checkpoint(&self) -> (checkpoint: Checkpoint)
        ensures
            checkpoint.deep_view() == self.deep_view().checkpoint(),
    {
        Checkpoint::Resume(
            Resumption {
                endpoint: self.endpoint.clone(),
                last_page: self.page,
                total_pages: self.total_pages,
            },
        )
    }

    /// Record the response to the page after the last one captured.
    pub fn record(&mut self, capture: &Capture<'_>) -> (outcome: Result<PageOutcome, String>)
        requires
            old(self).deep_view().page < usize::MAX,
        ensures
            match outcome {
                Err(message) => old(self).deep_view().refusal(capture.deep_view()) == Some(message@)
                    && final(self).deep_view() == old(self).deep_view(),
                Ok(outcome) => old(self).deep_view().refusal(capture.deep_view()) is None && (
                final(self).deep_view(), outcome is Last) == old(self).deep_view().recorded(
                    capture.deep_view(),
                ),
            },
    {
        let page: usize = self.page + 1;
        // A page can disappear between requests when deletions reduce the page count, which some
        // WordPress endpoints report with this posts-controller error code.
        if capture.head.status == 400 && page > 1 && capture.payload.is_invalid_page_error() {
            return Ok(PageOutcome::Last);
        }
        if capture.head.status != 200 && capture.head.status != 304 {
            let mut message = "unexpected WordPress response status ".to_owned();
            message.append(text::decimal_of(capture.head.status as u64).as_str());
            message.append(" on ");
            message.append(self.endpoint.name());
            message.append(" page ");
            message.append(text::count_text(page).as_str());
            return Err(message);
        }
        match capture.advertised_pages() {
            Some(advertised) => {
                self.total_pages = match self.total_pages {
                    Some(known) => if known >= advertised {
                        Some(known)
                    } else {
                        Some(advertised)
                    },
                    None => Some(advertised),
                };
            },
            None => {},
        }
        match self.total_pages {
            None => {
                let mut message = "missing or invalid X-WP-TotalPages on ".to_owned();
                message.append(self.endpoint.name());
                message.append(" page ");
                message.append(text::count_text(page).as_str());
                Err(message)
            },
            Some(total_pages) => {
                self.page = page;
                Ok(
                    if page < total_pages {
                        PageOutcome::Next
                    } else {
                        PageOutcome::Last
                    },
                )
            },
        }
    }
}

/// Whether a probe's status says that the site exposes the collection.
pub open spec fn is_exposed(status: u16) -> bool {
    200 <= status < 300 || status == 304
}

/// Whether a probe's status says that the site exposes the collection.
pub fn probe_succeeded(status: u16) -> (succeeded: bool)
    ensures
        succeeded == is_exposed(status),
{
    (status >= 200 && status < 300) || status == 304
}

/// Archive a site's collections one endpoint at a time through a session.
///
/// An archive begins with the API root resources and a bare probe of every [`Endpoint`], all
/// requested as seeds. The type and taxonomy registries among the roots advertise the site's
/// custom collections, which are appended after the supported endpoints in registry order (types
/// before taxonomies) and probed via the registry that advertised them. A resumed run begins with
/// the page after its checkpoint, requested via the page before it, and probes only the endpoints
/// still to come. A probe answered with success is paged from page one through the greatest
/// `X-WP-TotalPages` value seen, all pages carrying the run's `before` cutoff; any other answer,
/// such as a 404 for a collection the site lacks, skips the endpoint. Exposed collections are
/// paged one at a time after the last probe, a collection's first page requested via its probe
/// and every later page via the page before it. After reaching the end of a collection spanning
/// more than one page, the driver continues until its final advertised page.
///
/// An unexpected page response or unreadable registry ends the session with an error, and a
/// failed capture ends the driver's requests; [`checkpoint`](Self::checkpoint) then names the page
/// to continue from.
pub struct ArchiveDriver {
    site: Site,
    before: Timestamp,
    per_page: usize,
    endpoint_per_page: StringHashMap<usize>,
    /// Whether the run began with the root resources and every probe, which cannot be resumed.
    initial: bool,
    /// Index into [`ROOT_ENDPOINTS`] of the next root resource to request.
    next_root: usize,
    /// The supported endpoints followed by the custom collections, in probing order.
    endpoints: Vec<Collection>,
    /// Index into `endpoints` of the next collection to probe.
    next_probe: usize,
    probed: Vec<(Collection, u16)>,
    /// Exposed collections whose probes or resume checkpoints supplied a page count, in order.
    pagination: Vec<(Collection, usize)>,
    /// Endpoints whose probe succeeded, awaiting paging in order.
    pending: VecDeque<Series>,
    current: Option<Series>,
    /// Page count carried by a page-zero resume until its probe, the run's first, is inspected.
    resume_total_pages: Option<usize>,
    /// Whether a capture failed, after which nothing more is requested.
    stopped: bool,
}

/// The state of an [`ArchiveDriver`].
#[verifier::ext_equal]
pub struct DriverView {
    pub site: SiteView,
    pub before: Moment,
    pub per_page: usize,
    pub endpoint_per_page: Map<Seq<char>, usize>,
    pub initial: bool,
    pub next_root: usize,
    pub endpoints: Seq<CollectionView>,
    pub next_probe: usize,
    pub probed: Seq<(CollectionView, u16)>,
    pub pagination: Seq<(CollectionView, usize)>,
    pub pending: Seq<SeriesView>,
    pub current: Option<SeriesView>,
    pub resume_total_pages: Option<usize>,
    pub stopped: bool,
}

impl DeepView for ArchiveDriver {
    type V = DriverView;

    closed spec fn deep_view(&self) -> DriverView {
        DriverView {
            site: self.site.deep_view(),
            before: self.before@,
            per_page: self.per_page,
            endpoint_per_page: self.endpoint_per_page@,
            initial: self.initial,
            next_root: self.next_root,
            endpoints: self.endpoints.deep_view(),
            next_probe: self.next_probe,
            probed: self.probed.deep_view(),
            pagination: self.pagination.deep_view(),
            pending: self.pending.deep_view(),
            current: self.current.deep_view(),
            resume_total_pages: self.resume_total_pages,
            stopped: self.stopped,
        }
    }
}

/// The supported endpoints as collections, in the order they are probed and paged.
pub open spec fn supported() -> Seq<CollectionView> {
    Seq::new(8, |index: int| CollectionView::Known(Endpoint::ALL@[index]))
}

/// `collections` followed by a custom collection for each of `names` that none before it has.
pub open spec fn with_customs(
    collections: Seq<CollectionView>,
    names: Seq<Seq<char>>,
    registry: Registry,
) -> Seq<CollectionView>
    decreases names.len(),
{
    if names.len() == 0 {
        collections
    } else {
        let earlier = with_customs(collections, names.drop_last(), registry);
        if endpoint::names_of(earlier).contains(names.last()) {
            earlier
        } else {
            earlier.push(CollectionView::Custom { name: names.last(), registry })
        }
    }
}

/// The registry at a root resource's path.
pub open spec fn registry_at(root: Seq<char>) -> Option<Registry> {
    if root == Registry::Types.path_text() {
        Some(Registry::Types)
    } else if root == Registry::Taxonomies.path_text() {
        Some(Registry::Taxonomies)
    } else {
        None
    }
}

/// The pages that so many items fill.
pub open spec fn pages_of(items: nat, per_page: nat) -> nat
    recommends
        per_page > 0,
{
    (items + per_page - 1) as nat / per_page
}

/// The index of a collection's namesake among `endpoints`, where one without any is appended.
pub open spec fn index_among(endpoints: Seq<CollectionView>, endpoint: CollectionView) -> int {
    match text::position(endpoint::names_of(endpoints), endpoint.name()) {
        Some(index) => index,
        None => endpoints.len() as int,
    }
}

/// `endpoints`, with a collection that has no namesake among them appended.
pub open spec fn including(endpoints: Seq<CollectionView>, endpoint: CollectionView) -> Seq<
    CollectionView,
> {
    match text::position(endpoint::names_of(endpoints), endpoint.name()) {
        Some(_) => endpoints,
        None => endpoints.push(endpoint),
    }
}

/// The page counts of the successful probes that supplied one, in order.
pub open spec fn probe_pages(probes: Seq<ProbeView>) -> Seq<(CollectionView, usize)>
    decreases probes.len(),
{
    if probes.len() == 0 {
        Seq::empty()
    } else {
        let earlier = probe_pages(probes.drop_last());
        let probe = probes.last();
        if probe.total_pages is Some && is_exposed(probe.status) {
            earlier.push((probe.collection, probe.total_pages->0))
        } else {
            earlier
        }
    }
}

/// A fresh series for each successful probe, in order.
pub open spec fn probe_series(probes: Seq<ProbeView>) -> Seq<SeriesView>
    decreases probes.len(),
{
    if probes.len() == 0 {
        Seq::empty()
    } else {
        let earlier = probe_series(probes.drop_last());
        let probe = probes.last();
        if is_exposed(probe.status) {
            earlier.push(SeriesView { endpoint: probe.collection, page: 0, total_pages: None })
        } else {
            earlier
        }
    }
}

/// The names of paged collections, in order.
pub open spec fn paged_names(pagination: Seq<(CollectionView, usize)>) -> Seq<Seq<char>> {
    pagination.map_values(|entry: (CollectionView, usize)| entry.0.name())
}

/// `pagination` with a collection's page count replaced where it has one, and appended otherwise.
pub open spec fn with_page_count(
    pagination: Seq<(CollectionView, usize)>,
    endpoint: CollectionView,
    total_pages: usize,
) -> Seq<(CollectionView, usize)> {
    match text::position(paged_names(pagination), endpoint.name()) {
        Some(index) => pagination.update(index, (pagination[index].0, total_pages)),
        None => pagination.push((endpoint, total_pages)),
    }
}

/// The names of series, in order.
pub open spec fn series_names(series: Seq<SeriesView>) -> Seq<Seq<char>> {
    series.map_values(|series: SeriesView| series.endpoint.name())
}

impl DriverView {
    /// What holds of the state of every driver.
    pub open spec fn is_valid(self) -> bool {
        &&& 1 <= self.per_page <= DEFAULT_PER_PAGE
        &&& forall|name: Seq<char>| #[trigger]
            self.endpoint_per_page.contains_key(name) ==> 1 <= self.endpoint_per_page[name]
                <= DEFAULT_PER_PAGE
        &&& self.next_root <= 8
        &&& self.next_probe <= self.endpoints.len()
        &&& self.current matches Some(series) ==> series.page < usize::MAX
        &&& self.current is None && self.next_probe == self.endpoints.len() ==> self.pending.len()
            == 0
        &&& forall|index: int|
            0 <= index < self.pending.len() ==> (#[trigger] self.pending[index]).page == 0
    }

    /// The state in which an archive begins.
    pub open spec fn beginning(site: SiteView, before: Moment) -> Self {
        DriverView {
            site,
            before,
            per_page: DEFAULT_PER_PAGE,
            endpoint_per_page: Map::empty(),
            initial: true,
            next_root: 0,
            endpoints: supported(),
            next_probe: 0,
            probed: Seq::empty(),
            pagination: Seq::empty(),
            pending: Seq::empty(),
            current: None,
            resume_total_pages: None,
            stopped: false,
        }
    }

    /// The state in which an archive is continued from a checkpoint.
    pub open spec fn resumed(
        site: SiteView,
        before: Moment,
        resumption: ResumptionView,
        custom: Seq<CollectionView>,
    ) -> Self {
        let all = supported() + custom;
        let endpoints = including(all, resumption.endpoint);
        let index = index_among(all, resumption.endpoint);
        let start = DriverView {
            initial: false,
            next_root: 8,
            endpoints,
            ..Self::beginning(site, before)
        };
        if resumption.last_page == 0 {
            DriverView {
                next_probe: index as usize,
                resume_total_pages: resumption.total_pages,
                ..start
            }
        } else {
            DriverView {
                next_probe: (index + 1) as usize,
                pagination: match resumption.total_pages {
                    Some(total_pages) => seq![(resumption.endpoint, total_pages)],
                    None => Seq::empty(),
                },
                current: Some(
                    SeriesView {
                        endpoint: resumption.endpoint,
                        page: resumption.last_page,
                        total_pages: resumption.total_pages,
                    },
                ),
                ..start
            }
        }
    }

    /// The state in which an archive is continued from a checkpoint and the probes before it.
    pub open spec fn resumed_with_probes(
        site: SiteView,
        before: Moment,
        resumption: ResumptionView,
        probes: Seq<ProbeView>,
    ) -> Self {
        let all = probes.map_values(|probe: ProbeView| probe.collection);
        let endpoints = including(all, resumption.endpoint);
        let index = index_among(all, resumption.endpoint);
        let later = if index + 1 <= probes.len() {
            probes.skip(index + 1)
        } else {
            Seq::empty()
        };
        DriverView {
            initial: false,
            next_root: 8,
            endpoints,
            next_probe: endpoints.len() as usize,
            pagination: match resumption.total_pages {
                Some(total_pages) => with_page_count(
                    probe_pages(probes),
                    resumption.endpoint,
                    total_pages,
                ),
                None => probe_pages(probes),
            },
            pending: probe_series(later),
            current: Some(
                SeriesView {
                    endpoint: resumption.endpoint,
                    page: resumption.last_page,
                    total_pages: resumption.total_pages,
                },
            ),
            ..Self::beginning(site, before)
        }
    }

    /// The configured page size for a collection.
    pub open spec fn per_page_for(self, name: Seq<char>) -> usize {
        if self.endpoint_per_page.contains_key(name) {
            self.endpoint_per_page[name]
        } else {
            self.per_page
        }
    }

    /// Where a run stopped now would be continued from.
    pub open spec fn checkpoint(self) -> CheckpointView {
        match self.current {
            Some(series) => series.checkpoint(),
            None => if self.initial && self.next_probe < self.endpoints.len() {
                CheckpointView::Initial
            } else if self.pending.len() > 0 {
                self.pending[0].checkpoint()
            } else if self.next_probe < self.endpoints.len() {
                CheckpointView::Resume(
                    ResumptionView {
                        endpoint: self.endpoints[self.next_probe as int],
                        last_page: 0,
                        total_pages: self.resume_total_pages,
                    },
                )
            } else {
                CheckpointView::Finished
            },
        }
    }

    /// Probe results captured by this run, with page counts derived for progress reporting.
    pub open spec fn probe_results(self) -> Seq<ProbeView> {
        self.probed.map_values(
            |probe: (CollectionView, u16)|
                ProbeView {
                    collection: probe.0,
                    status: probe.1,
                    total_pages: match text::position(
                        paged_names(self.pagination),
                        probe.0.name(),
                    ) {
                        Some(index) => Some(self.pagination[index].1),
                        None => None,
                    },
                },
        )
    }

    /// Whether every collection probe for this run has been inspected.
    pub open spec fn probes_finished(self) -> bool {
        self.next_root == 8 && self.next_probe == self.endpoints.len()
    }

    /// The series through which a collection is still paged, if there is one: the current series
    /// or the first pending one that has the name.
    pub open spec fn series_named(self, name: Seq<char>) -> Option<SeriesView> {
        match self.current {
            Some(series) if series.endpoint.name() == name => Some(series),
            _ => match text::position(series_names(self.pending), name) {
                Some(index) => Some(self.pending[index]),
                None => None,
            },
        }
    }

    /// The pages of a collection that are completed: those of its series, limited to its
    /// advertised total, or that total when the collection is no longer paged.
    pub open spec fn completed_pages(self, entry: (CollectionView, usize)) -> usize {
        match self.series_named(entry.0.name()) {
            Some(series) if series.page < entry.1 => series.page,
            _ => entry.1,
        }
    }

    /// Progress for exposed collections whose probes or resume checkpoints supplied a page count.
    pub open spec fn pagination_progress(self) -> Seq<ProgressView> {
        self.pagination.map_values(
            |entry: (CollectionView, usize)|
                ProgressView {
                    collection: entry.0,
                    page: self.completed_pages(entry),
                    total_pages: entry.1,
                },
        )
    }

    /// The URL of a collection's page.
    pub open spec fn page_url(self, name: Seq<char>, page: nat) -> Seq<char> {
        self.site.page_url(name, self.before, page, self.per_page_for(name) as nat)
    }

    /// The request for a series' next page, via the page its position follows from.
    pub open spec fn page_request(self, series: SeriesView) -> RequestView {
        let name = series.endpoint.name();
        RequestView {
            url: self.page_url(name, (series.page + 1) as nat),
            via: Some(
                if series.page == 0 {
                    self.site.endpoint_url(name)
                } else {
                    self.page_url(name, series.page as nat)
                },
            ),
        }
    }

    /// The bare probe of a collection: a seed, or an extra via the advertising registry.
    pub open spec fn probe_request(self, collection: CollectionView) -> RequestView {
        RequestView {
            url: self.site.endpoint_url(collection.name()),
            via: match collection.registry() {
                Some(registry) => Some(self.site.url(registry.path_text())),
                None => None,
            },
        }
    }

    /// The request that the driver makes next.
    pub open spec fn next(self) -> Option<RequestView> {
        if self.stopped {
            None
        } else if self.current is Some {
            Some(self.page_request(self.current->0))
        } else if self.next_root < 8 {
            Some(
                RequestView {
                    url: self.site.url(ROOT_ENDPOINTS@[self.next_root as int]@),
                    via: None,
                },
            )
        } else if self.next_probe < self.endpoints.len() {
            Some(self.probe_request(self.endpoints[self.next_probe as int]))
        } else {
            None
        }
    }

    /// The state after a root resource's response, and what is made of it.
    pub open spec fn inspected_root(self, root: Seq<char>, capture: CaptureView) -> (
        DriverView,
        InspectionView,
    ) {
        let after = DriverView { next_root: (self.next_root + 1) as usize, ..self };
        match registry_at(root) {
            None => (after, InspectionView::nothing()),
            Some(registry) => if !(200 <= capture.head.status < 300) {
                (after, InspectionView::nothing())
            } else {
                match capture.payload.registry {
                    Err(error) => (
                        after,
                        InspectionView::stopped("unreadable "@ + root + " response: "@ + error),
                    ),
                    Ok(entries) => (
                        DriverView {
                            endpoints: with_customs(
                                self.endpoints,
                                endpoint::custom_names(entries),
                                registry,
                            ),
                            ..after
                        },
                        InspectionView::nothing(),
                    ),
                }
            },
        }
    }

    /// The page count that a probe's response supplies for progress.
    pub open spec fn probe_page_count(self, name: Seq<char>, capture: CaptureView) -> Option<usize> {
        match capture.advertised_items() {
            Some(items) => Some(pages_of(items as nat, self.per_page_for(name) as nat) as usize),
            None => self.resume_total_pages,
        }
    }

    /// The state after the response to the next probe.
    pub open spec fn inspected_probe(self, capture: CaptureView) -> DriverView {
        let collection = self.endpoints[self.next_probe as int];
        let exposed = is_exposed(capture.head.status);
        let pending = if exposed {
            self.pending.push(
                SeriesView {
                    endpoint: collection,
                    page: 0,
                    total_pages: self.resume_total_pages,
                },
            )
        } else {
            self.pending
        };
        let last = self.next_probe + 1 == self.endpoints.len();
        DriverView {
            next_probe: (self.next_probe + 1) as usize,
            resume_total_pages: None,
            pagination: match self.probe_page_count(collection.name(), capture) {
                Some(pages) if exposed => self.pagination.push((collection, pages)),
                _ => self.pagination,
            },
            probed: self.probed.push((collection, capture.head.status)),
            pending: if last && pending.len() > 0 {
                pending.drop_first()
            } else {
                pending
            },
            current: if last {
                if pending.len() > 0 {
                    Some(pending[0])
                } else {
                    None
                }
            } else {
                self.current
            },
            ..self
        }
    }

    /// The state in which the next pending series is paged.
    pub open spec fn advanced(self) -> DriverView {
        DriverView {
            current: if self.pending.len() > 0 {
                Some(self.pending[0])
            } else {
                None
            },
            pending: if self.pending.len() > 0 {
                self.pending.drop_first()
            } else {
                self.pending
            },
            ..self
        }
    }

    /// The state after the response to the current series' next page, and what is made of it.
    pub open spec fn inspected_page(self, capture: CaptureView) -> (DriverView, InspectionView) {
        let series = self.current->0;
        match series.refusal(capture) {
            Some(error) => (self, InspectionView::stopped(error)),
            None => {
                let (recorded, last) = series.recorded(capture);
                if last {
                    (self.advanced(), InspectionView::nothing())
                } else {
                    (
                        DriverView { current: Some(recorded), ..self },
                        InspectionView::nothing(),
                    )
                }
            },
        }
    }

    /// Whether a capture answers the current series' next page.
    pub open spec fn awaits_page(self, url: Seq<char>) -> bool {
        self.current matches Some(series) && url == self.page_request(series).url
    }

    /// Whether a capture answers the next root resource.
    pub open spec fn awaits_root(self, url: Seq<char>) -> bool {
        self.next_root < 8 && url == self.site.url(ROOT_ENDPOINTS@[self.next_root as int]@)
    }

    /// Whether a capture answers the next probe.
    pub open spec fn awaits_probe(self, url: Seq<char>) -> bool {
        self.next_probe < self.endpoints.len() && url == self.site.endpoint_url(
            self.endpoints[self.next_probe as int].name(),
        )
    }

    /// The state after a capture, and what is made of it.
    pub open spec fn inspected(self, capture: CaptureView) -> (DriverView, InspectionView) {
        if capture.is_cloudflare_challenge() {
            (self, InspectionView::stopped(CLOUDFLARE_CHALLENGE@))
        } else if self.awaits_page(capture.url) {
            self.inspected_page(capture)
        } else if self.awaits_root(capture.url) {
            self.inspected_root(ROOT_ENDPOINTS@[self.next_root as int]@, capture)
        } else if self.awaits_probe(capture.url) {
            (self.inspected_probe(capture), InspectionView::nothing())
        } else {
            (self, InspectionView::stopped("unexpected capture of "@ + capture.url))
        }
    }

    /// The run's position: the last page captured, the endpoint probed next, or its end.
    pub open spec fn position(self) -> Seq<char> {
        self.site.base + ": "@ + match self.current {
            Some(series) => {
                let page = series.endpoint.name() + " page "@ + text::decimal(series.page as nat);
                match series.total_pages {
                    Some(total_pages) => page + " of "@ + text::decimal(total_pages as nat),
                    None => page,
                }
            },
            None => if self.next_probe < self.endpoints.len() {
                "probing "@ + self.endpoints[self.next_probe as int].name()
            } else {
                "finished"@
            },
        }
    }
}

/// The collections of probe results, copied in order.
pub fn probed_collections(probes: &Vec<ProbeResult>) -> (collections: Vec<Collection>)
    ensures
        collections.deep_view() == probes.deep_view().map_values(
            |probe: ProbeView| probe.collection,
        ),
{
    let mut collections: Vec<Collection> = Vec::new();
    let mut index: usize = 0;
    let ghost all = probes.deep_view().map_values(|probe: ProbeView| probe.collection);
    while index < probes.len()
        invariant
            index <= probes@.len(),
            all == probes.deep_view().map_values(|probe: ProbeView| probe.collection),
            collections.deep_view() == all.take(index as int),
        decreases probes@.len() - index,
    {
        let ghost known = collections.deep_view();
        collections.push(probes[index].collection.clone());
        assert(collections.deep_view() == known.push(all[index as int]));
        index += 1;
        assert(all.take(index as int) == known.push(all[index - 1]));
    }
    assert(all.take(index as int) == all);
    collections
}

/// The page counts of the successful probes that supplied one, in order.
fn pages_from_probes(probes: &Vec<ProbeResult>) -> (pagination: Vec<(Collection, usize)>)
    ensures
        pagination.deep_view() == probe_pages(probes.deep_view()),
{
    let mut pagination: Vec<(Collection, usize)> = Vec::new();
    let mut index: usize = 0;
    while index < probes.len()
        invariant
            index <= probes@.len(),
            pagination.deep_view() == probe_pages(probes.deep_view().take(index as int)),
        decreases probes@.len() - index,
    {
        let probe = &probes[index];
        let ghost known = pagination.deep_view();
        assert(probes.deep_view().take(index + 1).drop_last() == probes.deep_view().take(
            index as int,
        ));
        if let Some(pages) = probe.total_pages {
            if probe_succeeded(probe.status) {
                pagination.push((probe.collection.clone(), pages));
                assert(pagination.deep_view() == known.push((probe.collection.deep_view(), pages)));
            }
        }
        index += 1;
    }
    assert(probes.deep_view().take(index as int) == probes.deep_view());
    pagination
}

/// A fresh series for each successful probe from the index `start` on, in order.
fn series_from_probes(probes: &Vec<ProbeResult>, start: usize) -> (pending: VecDeque<Series>)
    ensures
        pending.deep_view() == probe_series(
            if start <= probes@.len() {
                probes.deep_view().skip(start as int)
            } else {
                Seq::empty()
            },
        ),
{
    let mut pending: VecDeque<Series> = VecDeque::new();
    assert(pending.deep_view() == Seq::<SeriesView>::empty());
    if start > probes.len() {
        return pending;
    }
    let mut index: usize = start;
    let ghost later = probes.deep_view().skip(start as int);
    while index < probes.len()
        invariant
            start <= index <= probes@.len(),
            later == probes.deep_view().skip(start as int),
            pending.deep_view() == probe_series(later.take(index - start)),
        decreases probes@.len() - index,
    {
        let probe = &probes[index];
        let ghost known = pending.deep_view();
        assert(later.take(index - start + 1).drop_last() == later.take(index - start));
        assert(later[index - start] == probe.deep_view());
        if probe_succeeded(probe.status) {
            let series = Series::new(probe.collection.clone(), None);
            let ghost added = series.deep_view();
            pending.push_back(series);
            assert(pending.deep_view() == known.push(added));
        }
        index += 1;
    }
    assert(later.take(index - start) == later);
    pending
}

/// The index of the first entry of `pagination` for the collection named `name`.
fn position_paged(pagination: &Vec<(Collection, usize)>, name: &str) -> (index: Option<usize>)
    ensures
        match index {
            Some(index) => index < pagination@.len() && text::position(
                paged_names(pagination.deep_view()),
                name@,
            ) == Some(index as int),
            None => text::position(paged_names(pagination.deep_view()), name@) is None,
        },
{
    let ghost names = paged_names(pagination.deep_view());
    let mut index: usize = 0;
    while index < pagination.len()
        invariant
            index <= pagination@.len(),
            names == paged_names(pagination.deep_view()),
            text::position(names.take(index as int), name@) is None,
        decreases pagination@.len() - index,
    {
        assert(names.take(index + 1).drop_last() == names.take(index as int));
        if text::same(pagination[index].0.name(), name) {
            proof {
                endpoint::lemma_position_in_prefix(names, name@, index + 1);
            }
            return Some(index);
        }
        index += 1;
    }
    assert(names.take(index as int) == names);
    None
}

/// The index of the first pending series of the collection named `name`.
fn position_pending(pending: &VecDeque<Series>, name: &str) -> (index: Option<usize>)
    ensures
        match index {
            Some(index) => index < pending@.len() && text::position(
                series_names(pending.deep_view()),
                name@,
            ) == Some(index as int),
            None => text::position(series_names(pending.deep_view()), name@) is None,
        },
{
    let ghost names = series_names(pending.deep_view());
    let mut index: usize = 0;
    while index < pending.len()
        invariant
            index <= pending@.len(),
            names == series_names(pending.deep_view()),
            text::position(names.take(index as int), name@) is None,
        decreases pending@.len() - index,
    {
        assert(names.take(index + 1).drop_last() == names.take(index as int));
        if text::same(pending[index].endpoint.name(), name) {
            proof {
                endpoint::lemma_position_in_prefix(names, name@, index + 1);
            }
            return Some(index);
        }
        index += 1;
    }
    assert(names.take(index as int) == names);
    None
}

/// Appends a custom collection unless one before it has the name.
pub fn push_custom(custom: &mut Vec<Collection>, name: &str, registry: Registry)
    ensures
        final(custom).deep_view() == with_customs(
            old(custom).deep_view(),
            seq![name@],
            registry,
        ),
{
    let ghost known = custom.deep_view();
    let ghost one = seq![name@];
    proof {
        assert(one.drop_last() == Seq::<Seq<char>>::empty());
        assert(with_customs(known, one.drop_last(), registry) == known);
        text::lemma_position(endpoint::names_of(known), name@);
    }
    if endpoint::position_named(custom, name).is_none() {
        custom.push(Collection::Custom { name: name.to_owned(), registry });
        assert(custom.deep_view() == known.push(
            CollectionView::Custom { name: name@, registry },
        ));
    }
}

/// Appending custom collections one name after another appends them all.
pub proof fn lemma_with_customs_in_turn(
    collections: Seq<CollectionView>,
    names: Seq<Seq<char>>,
    registry: Registry,
)
    requires
        names.len() > 0,
    ensures
        with_customs(collections, names, registry) == with_customs(
            with_customs(collections, names.drop_last(), registry),
            seq![names.last()],
            registry,
        ),
{
    let one = seq![names.last()];
    let earlier = with_customs(collections, names.drop_last(), registry);
    assert(one.drop_last() == Seq::<Seq<char>>::empty());
    assert(with_customs(earlier, one.drop_last(), registry) == earlier);
}

/// Appends the custom collections that registry entries name.
pub fn push_customs(custom: &mut Vec<Collection>, entries: &Vec<EndpointType>, registry: Registry)
    ensures
        final(custom).deep_view() == with_customs(
            old(custom).deep_view(),
            endpoint::custom_names(entries.deep_view()),
            registry,
        ),
{
    let names = EndpointType::custom_endpoints(entries);
    let ghost all = names.deep_view();
    let ghost start = custom.deep_view();
    let mut index: usize = 0;
    while index < names.len()
        invariant
            index <= names@.len(),
            all == names.deep_view(),
            custom.deep_view() == with_customs(start, all.take(index as int), registry),
        decreases names@.len() - index,
    {
        proof {
            assert(all.take(index + 1).drop_last() == all.take(index as int));
            lemma_with_customs_in_turn(start, all.take(index + 1), registry);
        }
        push_custom(custom, names[index], registry);
        index += 1;
    }
    assert(all.take(index as int) == all);
}

impl ArchiveDriver {
    /// Begin an archive of `site` with the root resources and every probe.
    ///
    /// Every page requested carries `before` as its cutoff, so pass the time the archive started.
    #[must_use]
    pub fn new(site: Site, before: Timestamp) -> (driver: Self)
        ensures
            driver.deep_view() == DriverView::beginning(site.deep_view(), before@),
            driver.deep_view().is_valid(),
    {
        let mut endpoints: Vec<Collection> = Vec::new();
        let mut index: usize = 0;
        while index < 8
            invariant
                index <= 8,
                endpoints.deep_view() == supported().take(index as int),
            decreases 8 - index,
        {
            let ghost known = endpoints.deep_view();
            endpoints.push(Collection::Known(Endpoint::ALL[index]));
            assert(endpoints.deep_view() == known.push(supported()[index as int]));
            index += 1;
            assert(supported().take(index as int) == known.push(supported()[index - 1]));
        }
        assert(supported().take(8) == supported());
        let driver = ArchiveDriver {
            site,
            before,
            per_page: DEFAULT_PER_PAGE,
            endpoint_per_page: StringHashMap::new(),
            initial: true,
            next_root: 0,
            endpoints,
            next_probe: 0,
            probed: Vec::new(),
            pagination: Vec::new(),
            pending: VecDeque::new(),
            current: None,
            resume_total_pages: None,
            stopped: false,
        };
        assert(driver.deep_view() =~= DriverView::beginning(site.deep_view(), before@));
        driver
    }

    /// Request `per_page` items from every paginated collection.
    #[must_use]
    pub fn with_per_page(self, per_page: usize) -> (driver: Self)
        requires
            1 <= per_page <= DEFAULT_PER_PAGE,
            self.deep_view().is_valid(),
        ensures
            driver.deep_view() == (DriverView { per_page, ..self.deep_view() }),
            driver.deep_view().is_valid(),
    {
        let mut driver = self;
        driver.per_page = per_page;
        driver
    }

    /// Request `per_page` items from pages of one named endpoint.
    ///
    /// This value takes precedence over the default configured by
    /// [`with_per_page`](Self::with_per_page).
    #[must_use]
    pub fn with_per_page_for(self, endpoint: String, per_page: usize) -> (driver: Self)
        requires
            1 <= per_page <= DEFAULT_PER_PAGE,
            self.deep_view().is_valid(),
        ensures
            driver.deep_view() == (DriverView {
                endpoint_per_page: self.deep_view().endpoint_per_page.insert(endpoint@, per_page),
                ..self.deep_view()
            }),
            driver.deep_view().is_valid(),
    {
        let mut driver = self;
        driver.endpoint_per_page.insert(endpoint, per_page);
        driver
    }

    /// The configured page size for a collection.
    pub fn per_page_for(&self, collection: &Collection) -> (per_page: usize)
        ensures
            per_page == self.deep_view().per_page_for(collection.deep_view().name()),
    {
        match self.endpoint_per_page.get(collection.name()) {
            Some(per_page) => *per_page,
            None => self.per_page,
        }
    }

    /// Continue an archive of `site` with the same `before` cutoff from a checkpoint.
    ///
    /// `custom` lists the custom collections the earlier run discovered, in its order, since the
    /// registries are not read again. With `last_page` above zero the run begins with the
    /// endpoint's next page and probes the endpoints after it; with zero it begins by probing the
    /// endpoint itself. A custom endpoint absent from `custom` is archived after them.
    #[must_use]
    pub fn resume(
        site: Site,
        before: Timestamp,
        resumption: Resumption,
        custom: Vec<Collection>,
    ) -> (driver: Self)
        ensures
            driver.deep_view() == DriverView::resumed(
                site.deep_view(),
                before@,
                resumption.deep_view(),
                custom.deep_view(),
            ),
            resumption.last_page < usize::MAX ==> driver.deep_view().is_valid(),
    {
        let ghost all = supported() + custom.deep_view();
        let ghost customs = custom.deep_view();
        let ghost resumption_view = resumption.deep_view();
        let Resumption { endpoint, last_page, total_pages } = resumption;
        let mut driver = ArchiveDriver::new(site, before);
        driver.initial = false;
        driver.next_root = 8;
        let mut added = custom;
        driver.endpoints.append(&mut added);
        assert(driver.endpoints.deep_view() == all);
        let index = match endpoint::position_named(&driver.endpoints, endpoint.name()) {
            Some(index) => index,
            None => {
                driver.endpoints.push(endpoint.clone());
                assert(driver.endpoints.deep_view() == all.push(endpoint.deep_view()));
                driver.endpoints.len() - 1
            },
        };
        assert(driver.endpoints.deep_view() == including(all, endpoint.deep_view()));
        assert(index == index_among(all, endpoint.deep_view()));
        assert(index < driver.endpoints.len());
        if last_page == 0 {
            driver.next_probe = index;
            driver.resume_total_pages = total_pages;
        } else {
            driver.next_probe = index + 1;
            if let Some(total_pages) = total_pages {
                driver.pagination.push((endpoint.clone(), total_pages));
                assert(driver.pagination.deep_view() == seq![(endpoint.deep_view(), total_pages)]);
            }
            driver.current = Some(Series::resume(endpoint, last_page, total_pages));
        }
        assert(driver.deep_view() =~= DriverView::resumed(
            site.deep_view(),
            before@,
            resumption_view,
            customs,
        ));
        driver
    }

    /// Continue from a checkpoint using probe results recovered from the initial archive.
    ///
    /// Unlike [`resume`](Self::resume), this constructor does not probe the checkpoint collection
    /// or any collection after it. Successful later probes are restored directly as pending
    /// pagination series.
    #[must_use]
    pub fn resume_with_probes(
        site: Site,
        before: Timestamp,
        resumption: Resumption,
        probes: Vec<ProbeResult>,
    ) -> (driver: Self)
        ensures
            driver.deep_view() == DriverView::resumed_with_probes(
                site.deep_view(),
                before@,
                resumption.deep_view(),
                probes.deep_view(),
            ),
            resumption.last_page < usize::MAX ==> driver.deep_view().is_valid(),
    {
        let ghost resumption_view = resumption.deep_view();
        let Resumption { endpoint, last_page, total_pages } = resumption;
        let mut driver = ArchiveDriver::new(site, before);
        driver.initial = false;
        driver.next_root = 8;
        driver.endpoints = probed_collections(&probes);
        let ghost all = driver.endpoints.deep_view();
        let index = match endpoint::position_named(&driver.endpoints, endpoint.name()) {
            Some(index) => index,
            None => {
                driver.endpoints.push(endpoint.clone());
                assert(driver.endpoints.deep_view() == all.push(endpoint.deep_view()));
                driver.endpoints.len() - 1
            },
        };
        driver.next_probe = driver.endpoints.len();
        driver.pagination = pages_from_probes(&probes);
        let ghost pages = driver.pagination.deep_view();
        if let Some(total_pages) = total_pages {
            match position_paged(&driver.pagination, endpoint.name()) {
                Some(position) => {
                    let collection = driver.pagination[position].0.clone();
                    driver.pagination.set(position, (collection, total_pages));
                },
                None => {
                    driver.pagination.push((endpoint.clone(), total_pages));
                },
            }
            assert(driver.pagination.deep_view() == with_page_count(
                pages,
                endpoint.deep_view(),
                total_pages,
            ));
        }
        driver.pending = series_from_probes(&probes, index + 1);
        driver.current = Some(Series::resume(endpoint, last_page, total_pages));
        proof {
            lemma_probe_series_are_fresh(
                if index + 1 <= probes@.len() {
                    probes.deep_view().skip(index + 1)
                } else {
                    Seq::empty()
                },
            );
        }
        assert(driver.deep_view() =~= DriverView::resumed_with_probes(
            site.deep_view(),
            before@,
            resumption_view,
            probes.deep_view(),
        ));
        driver
    }

    /// Where a run stopped now would be continued from.
    #[must_use]
    pub fn checkpoint(&self) -> (checkpoint: Checkpoint)
        ensures
            checkpoint.deep_view() == self.deep_view().checkpoint(),
    {
        if let Some(series) = &self.current {
            return series.checkpoint();
        }
        if self.initial && self.next_probe < self.endpoints.len() {
            return Checkpoint::Initial;
        }
        // Endpoints already found exposed are paged only after the remaining probes, so a resumed
        // run must probe them again to reach them.

        if self.pending.len() > 0 {
            self.pending[0].checkpoint()
        } else if self.next_probe < self.endpoints.len() {
            Checkpoint::Resume(
                Resumption {
                    endpoint: self.endpoints[self.next_probe].clone(),
                    last_page: 0,
                    total_pages: self.resume_total_pages,
                },
            )
        } else {
            Checkpoint::Finished
        }
    }

    /// The supported endpoints followed by the custom collections discovered so far, in the
    /// order they are probed.
    #[must_use]
    pub fn endpoints(&self) -> (endpoints: &Vec<Collection>)
        ensures
            endpoints.deep_view() == self.deep_view().endpoints,
    {
        &self.endpoints
    }

    /// Every endpoint probed so far with the status of its bare response, in order.
    #[must_use]
    pub fn probed(&self) -> (probed: &Vec<(Collection, u16)>)
        ensures
            probed.deep_view() == self.deep_view().probed,
    {
        &self.probed
    }

    /// Probe results captured by this run, with page counts derived for progress reporting.
    #[must_use]
    pub fn probe_results(&self) -> (results: Vec<ProbeResult>)
        ensures
            results.deep_view() == self.deep_view().probe_results(),
    {
        let mut results: Vec<ProbeResult> = Vec::new();
        let ghost all = self.deep_view().probe_results();
        let mut index: usize = 0;
        while index < self.probed.len()
            invariant
                index <= self.probed@.len(),
                all == self.deep_view().probe_results(),
                results.deep_view() == all.take(index as int),
            decreases self.probed@.len() - index,
        {
            let ghost known = results.deep_view();
            let probe = &self.probed[index];
            let total_pages = match position_paged(&self.pagination, probe.0.name()) {
                Some(position) => Some(self.pagination[position].1),
                None => None,
            };
            let result = ProbeResult {
                collection: probe.0.clone(),
                status: probe.1,
                total_pages,
            };
            assert(probe.deep_view() == self.deep_view().probed[index as int]);
            assert(result.deep_view() == all[index as int]);
            results.push(result);
            assert(results.deep_view() == known.push(all[index as int]));
            index += 1;
            assert(all.take(index as int) == known.push(all[index - 1]));
        }
        assert(all.take(index as int) == all);
        results
    }

    /// Whether every collection probe for this run has been inspected.
    #[must_use]
    pub fn probes_finished(&self) -> (finished: bool)
        ensures
            finished == self.deep_view().probes_finished(),
    {
        self.next_root == 8 && self.next_probe == self.endpoints.len()
    }

    /// The pages of a collection that are completed: those of its series, limited to its
    /// advertised total, or that total when the collection is no longer paged.
    fn completed_pages(&self, entry: &(Collection, usize)) -> (page: usize)
        ensures
            page == self.deep_view().completed_pages(entry.deep_view()),
    {
        let series = match &self.current {
            Some(series) if text::same(series.endpoint.name(), entry.0.name()) => series,
            _ => match position_pending(&self.pending, entry.0.name()) {
                Some(index) => &self.pending[index],
                None => {
                    return entry.1;
                },
            },
        };
        assert(self.deep_view().series_named(entry.deep_view().0.name()) == Some(
            series.deep_view(),
        ));
        if series.page < entry.1 {
            series.page
        } else {
            entry.1
        }
    }

    /// Progress for exposed collections whose probes or resume checkpoints supplied a page count.
    ///
    /// A collection no longer current or pending is reported at its advertised total.
    #[must_use]
    pub fn pagination_progress(&self) -> (progress: Vec<PaginationProgress>)
        ensures
            progress.deep_view() == self.deep_view().pagination_progress(),
    {
        let mut progress: Vec<PaginationProgress> = Vec::new();
        let ghost all = self.deep_view().pagination_progress();
        let mut index: usize = 0;
        while index < self.pagination.len()
            invariant
                index <= self.pagination@.len(),
                all == self.deep_view().pagination_progress(),
                progress.deep_view() == all.take(index as int),
            decreases self.pagination@.len() - index,
        {
            let ghost known = progress.deep_view();
            let entry = &self.pagination[index];
            let item = PaginationProgress {
                collection: entry.0.clone(),
                page: self.completed_pages(entry),
                total_pages: entry.1,
            };
            assert(entry.deep_view() == self.deep_view().pagination[index as int]);
            assert(item.deep_view() == all[index as int]);
            progress.push(item);
            assert(progress.deep_view() == known.push(all[index as int]));
            index += 1;
            assert(all.take(index as int) == known.push(all[index - 1]));
        }
        assert(all.take(index as int) == all);
        progress
    }

    /// The URL of a collection's page.
    fn collection_page_url(&self, collection: &Collection, page: usize) -> (url: String)
        ensures
            url@ == self.deep_view().page_url(collection.deep_view().name(), page as nat),
    {
        self.site.page_url(collection.name(), self.before, page, self.per_page_for(collection))
    }

    /// The request for a series' next page, via the page its position follows from.
    fn page_request(&self, series: &Series) -> (request: Request)
        requires
            series.deep_view().page < usize::MAX,
        ensures
            request.deep_view() == self.deep_view().page_request(series.deep_view()),
    {
        let via = if series.page == 0 {
            self.site.endpoint_url(series.endpoint.name())
        } else {
            self.collection_page_url(&series.endpoint, series.page)
        };
        Request::extra(self.collection_page_url(&series.endpoint, series.page + 1), via)
    }

    /// The bare probe of the next collection: a seed, or an extra via the advertising registry.
    fn probe_request(&self, collection: &Collection) -> (request: Request)
        ensures
            request.deep_view() == self.deep_view().probe_request(collection.deep_view()),
    {
        let url = self.site.endpoint_url(collection.name());
        match collection.registry() {
            None => Request::seed(url),
            Some(registry) => Request::extra(url, self.site.url(registry.path())),
        }
    }

    /// The request that the driver makes next: a page of the current series, otherwise a root
    /// resource, otherwise a probe.
    pub fn next(&self) -> (request: Option<Request>)
        requires
            self.deep_view().is_valid(),
        ensures
            request.deep_view() == self.deep_view().next(),
    {
        if self.stopped {
            return None;
        }
        if let Some(series) = &self.current {
            return Some(self.page_request(series));
        }
        if self.next_root < 8 {
            return Some(Request::seed(self.site.url(ROOT_ENDPOINTS[self.next_root])));
        }
        if self.next_probe < self.endpoints.len() {
            Some(self.probe_request(&self.endpoints[self.next_probe]))
        } else {
            None
        }
    }

    /// Record a root resource and append the custom collections a registry advertises.
    ///
    /// A registry answered conditionally (`304 Not Modified`) arrives without a payload and so
    /// advertises nothing; only a fresh success is read.
    fn inspect_root(&mut self, root: &str, capture: &Capture<'_>) -> (inspection: Inspection)
        requires
            old(self).deep_view().is_valid(),
            old(self).deep_view().next_root < 8,
        ensures
            (final(self).deep_view(), inspection.deep_view())
                == old(self).deep_view().inspected_root(root@, capture.deep_view()),
            final(self).deep_view().is_valid(),
    {
        let ghost start = self.deep_view();
        self.next_root += 1;
        let registry = if text::same(root, Registry::Types.path()) {
            Registry::Types
        } else if text::same(root, Registry::Taxonomies.path()) {
            Registry::Taxonomies
        } else {
            return Inspection::default();
        };
        if capture.head.status < 200 || capture.head.status >= 300 {
            return Inspection::default();
        }
        match &capture.payload.registry {
            Err(error) => {
                let mut message = text::joined("unreadable ", root);
                message.append(" response: ");
                message.append(error.as_str());
                Inspection::error(message)
            },
            Ok(entries) => {
                proof {
                    lemma_with_customs_grows(
                        start.endpoints,
                        endpoint::custom_names(entries.deep_view()),
                        registry,
                    );
                }
                push_customs(&mut self.endpoints, entries, registry);
                Inspection::default()
            },
        }
    }

    /// Record a probe's answer and, after the last probe, begin paging the exposed collections.
    fn inspect_probe(&mut self, endpoint: Collection, capture: &Capture<'_>)
        requires
            old(self).deep_view().is_valid(),
            old(self).deep_view().next_probe < old(self).deep_view().endpoints.len(),
            endpoint.deep_view() == old(self).deep_view().endpoints[old(
                self,
            ).deep_view().next_probe as int],
        ensures
            final(self).deep_view() == old(self).deep_view().inspected_probe(capture.deep_view()),
            final(self).deep_view().is_valid(),
    {
        let ghost start = self.deep_view();
        let ghost collection = endpoint.deep_view();
        assert(self.next_probe < self.endpoints.len());
        self.next_probe += 1;
        // The bare probe's X-WP-TotalPages reflects WordPress's smaller default page size. Derive
        // progress from its item total at our page size instead; only a count carried from an
        // earlier paged response can drive the resumed series itself.
        let total_pages = self.resume_total_pages;
        self.resume_total_pages = None;
        let per_page = self.per_page_for(&endpoint);
        if probe_succeeded(capture.head.status) {
            let advertised = match capture.advertised_items() {
                Some(total) => Some(page_count(total, per_page)),
                None => total_pages,
            };
            if let Some(advertised) = advertised {
                self.pagination.push((endpoint.clone(), advertised));
                assert(self.pagination.deep_view() == start.pagination.push(
                    (collection, advertised),
                ));
            }
            let series = Series::new(endpoint.clone(), total_pages);
            let ghost added = series.deep_view();
            self.pending.push_back(series);
            assert(self.pending.deep_view() == start.pending.push(added));
        }
        self.probed.push((endpoint, capture.head.status));
        assert(self.probed.deep_view() == start.probed.push((collection, capture.head.status)));
        if self.next_probe == self.endpoints.len() {
            self.advance();
        }
        assert(self.deep_view() =~= start.inspected_probe(capture.deep_view()));
    }

    /// Begin paging the next pending series.
    fn advance(&mut self)
        ensures
            final(self).deep_view() == old(self).deep_view().advanced(),
    {
        let ghost start = self.deep_view();
        let ghost pending = self.pending@;
        self.current = self.pending.pop_front();
        assert(pending.len() > 0 ==> self.pending.deep_view() == start.pending.drop_first());
        assert(self.deep_view() =~= start.advanced());
    }

    /// Record a collection page and move the series past it.
    fn inspect_page(&mut self, capture: &Capture<'_>) -> (inspection: Inspection)
        requires
            old(self).deep_view().is_valid(),
            old(self).deep_view().current is Some,
        ensures
            (final(self).deep_view(), inspection.deep_view())
                == old(self).deep_view().inspected_page(capture.deep_view()),
            final(self).deep_view().is_valid(),
    {
        let ghost start = self.deep_view();
        match self.current.take() {
            None => Inspection::default(),
            Some(mut series) => match series.record(capture) {
                Ok(PageOutcome::Next) => {
                    self.current = Some(series);
                    Inspection::default()
                },
                Ok(PageOutcome::Last) => {
                    self.advance();
                    assert(self.deep_view() =~= start.advanced());
                    Inspection::default()
                },
                Err(message) => {
                    self.current = Some(series);
                    assert(self.deep_view() =~= start);
                    Inspection::error(message)
                },
            },
        }
    }

    /// Take a capture into account.
    pub fn inspect(&mut self, capture: &Capture<'_>) -> (inspection: Inspection)
        requires
            old(self).deep_view().is_valid(),
        ensures
            (final(self).deep_view(), inspection.deep_view()) == old(self).deep_view().inspected(
                capture.deep_view(),
            ),
            final(self).deep_view().is_valid(),
    {
        if capture.is_cloudflare_challenge() {
            return Inspection::error(CLOUDFLARE_CHALLENGE.to_owned());
        }
        if let Some(series) = &self.current {
            let url = self.collection_page_url(&series.endpoint, series.page + 1);
            if text::same(capture.url, url.as_str()) {
                return self.inspect_page(capture);
            }
        }
        if self.next_root < 8 {
            let root = ROOT_ENDPOINTS[self.next_root];
            if text::same(capture.url, self.site.url(root).as_str()) {
                return self.inspect_root(root, capture);
            }
        }
        if self.next_probe < self.endpoints.len() {
            let endpoint = self.endpoints[self.next_probe].clone();
            if text::same(capture.url, self.site.endpoint_url(endpoint.name()).as_str()) {
                self.inspect_probe(endpoint, capture);
                return Inspection::default();
            }
        }
        Inspection::error(text::joined("unexpected capture of ", capture.url))
    }

    /// Take a failed capture into account. Every later request depends on the failed one, so the
    /// run stops at its checkpoint.
    pub fn failed(&mut self)
        ensures
            final(self).deep_view() == (DriverView { stopped: true, ..old(self).deep_view() }),
            old(self).deep_view().is_valid() ==> final(self).deep_view().is_valid(),
    {
        self.stopped = true;
    }

    /// The run's position: the last page captured, the endpoint probed next, or its end.
    pub fn to_string(&self) -> (position: String)
        ensures
            position@ == self.deep_view().position(),
    {
        let mut position = text::joined(self.site.base.as_str(), ": ");
        let rest = if let Some(series) = &self.current {
            let mut rest = text::joined(series.endpoint.name(), " page ");
            rest.append(text::count_text(series.page).as_str());
            if let Some(total_pages) = series.total_pages {
                rest.append(" of ");
                rest.append(text::count_text(total_pages).as_str());
            }
            rest
        } else if self.next_probe < self.endpoints.len() {
            text::joined("probing ", self.endpoints[self.next_probe].name())
        } else {
            "finished".to_owned()
        };
        position.append(rest.as_str());
        position
    }
}

/// The pages that so many items fill.
fn page_count(items: usize, per_page: usize) -> (pages: usize)
    requires
        0 < per_page,
    ensures
        pages == pages_of(items as nat, per_page as nat),
{
    proof {
        lemma_pages_of(items as nat, per_page as nat);
    }
    if items % per_page == 0 {
        items / per_page
    } else {
        items / per_page + 1
    }
}

/// So many items fill their whole pages, and one more page with what remains.
pub proof fn lemma_pages_of(items: nat, per_page: nat)
    requires
        0 < per_page,
    ensures
        pages_of(items, per_page) == items / per_page + (if items % per_page == 0 {
            0nat
        } else {
            1nat
        }),
        pages_of(items, per_page) <= items,
{
    let whole = items as int / per_page as int;
    let rest = items as int % per_page as int;
    let size = per_page as int;
    vstd::arithmetic::div_mod::lemma_fundamental_div_mod(items as int, size);
    if rest == 0 {
        assert(items + size - 1 == whole * size + (size - 1)) by (nonlinear_arith)
            requires
                items == size * whole + rest,
                rest == 0,
        ;
        vstd::arithmetic::div_mod::lemma_fundamental_div_mod_converse(
            items + size - 1,
            size,
            whole,
            size - 1,
        );
        assert(whole <= items) by (nonlinear_arith)
            requires
                items == size * whole + rest,
                rest == 0,
                size >= 1,
                whole >= 0,
        ;
    } else {
        assert(items + size - 1 == (whole + 1) * size + (rest - 1)) by (nonlinear_arith)
            requires
                items == size * whole + rest,
        ;
        vstd::arithmetic::div_mod::lemma_fundamental_div_mod_converse(
            items + size - 1,
            size,
            whole + 1,
            rest - 1,
        );
        assert(whole + 1 <= items) by (nonlinear_arith)
            requires
                items == size * whole + rest,
                rest >= 1,
                size >= 1,
                whole >= 0,
        ;
    }
}

/// Every series restored from a probe is yet to be paged.
pub proof fn lemma_probe_series_are_fresh(probes: Seq<ProbeView>)
    ensures
        forall|index: int|
            0 <= index < probe_series(probes).len() ==> (#[trigger] probe_series(
                probes,
            )[index]).page == 0,
    decreases probes.len(),
{
    if probes.len() > 0 {
        lemma_probe_series_are_fresh(probes.drop_last());
    }
}

/// Appending custom collections keeps those before them, and gives no two of those appended the
/// same name as each other or as one before them.
pub proof fn lemma_with_customs_grows(
    collections: Seq<CollectionView>,
    names: Seq<Seq<char>>,
    registry: Registry,
)
    ensures
        collections.is_prefix_of(with_customs(collections, names, registry)),
        endpoint::names_of(collections).no_duplicates() ==> endpoint::names_of(
            with_customs(collections, names, registry),
        ).no_duplicates(),
        forall|index: int|
            0 <= index < names.len() ==> endpoint::names_of(
                with_customs(collections, names, registry),
            ).contains(#[trigger] names[index]),
    decreases names.len(),
{
    if names.len() > 0 {
        let earlier = with_customs(collections, names.drop_last(), registry);
        let all = with_customs(collections, names, registry);
        lemma_with_customs_grows(collections, names.drop_last(), registry);
        let known = endpoint::names_of(earlier);
        let grown = endpoint::names_of(all);
        if !known.contains(names.last()) {
            assert(grown == known.push(names.last()));
        }
        assert forall|index: int| 0 <= index < names.len() implies grown.contains(
            #[trigger] names[index],
        ) by {
            if index < names.len() - 1 {
                assert(names.drop_last()[index] == names[index]);
                assert(known.contains(names[index]));
                let at = known.index_of(names[index]);
                assert(grown[at] == names[index]);
            } else if !known.contains(names.last()) {
                assert(grown[grown.len() - 1] == names.last());
            }
        }
    }
}

/// No two supported endpoints share a name, so an archive begins with distinct collections.
pub proof fn an_archive_begins_with_distinct_collections(site: SiteView, before: Moment)
    ensures
        endpoint::names_of(DriverView::beginning(site, before).endpoints).no_duplicates(),
{
    let names = endpoint::names_of(supported());
    assert forall|first: int, second: int|
        0 <= first < names.len() && 0 <= second < names.len() && first
            != second implies names[first] != names[second] by {
        let earlier = Endpoint::ALL@[first];
        let later = Endpoint::ALL@[second];
        assert(names[first] == earlier.name_text());
        assert(names[second] == later.name_text());
        if names[first] == names[second] {
            endpoint::lemma_names_differ(earlier, later);
        }
    }
}

/// A capture never removes, reorders, or duplicates the collections that an archive probes.
pub proof fn collections_only_grow_and_stay_distinct(driver: DriverView, capture: CaptureView)
    ensures
        driver.endpoints.is_prefix_of(driver.inspected(capture).0.endpoints),
        endpoint::names_of(driver.endpoints).no_duplicates() ==> endpoint::names_of(
            driver.inspected(capture).0.endpoints,
        ).no_duplicates(),
{
    match capture.payload.registry {
        Ok(entries) => {
            lemma_with_customs_grows(
                driver.endpoints,
                endpoint::custom_names(entries),
                Registry::Types,
            );
            lemma_with_customs_grows(
                driver.endpoints,
                endpoint::custom_names(entries),
                Registry::Taxonomies,
            );
        },
        Err(_) => {},
    }
}

/// A driver continued from a checkpoint stops at that checkpoint: the same collection, page, and
/// page count. Before the first page the collection is the one known by the name, which is the
/// checkpoint's where no other has it.
pub proof fn resuming_keeps_the_checkpoint(
    site: SiteView,
    before: Moment,
    resumption: ResumptionView,
    custom: Seq<CollectionView>,
)
    requires
        custom.len() + 8 <= usize::MAX,
    ensures
        match DriverView::resumed(site, before, resumption, custom).checkpoint() {
            CheckpointView::Resume(kept) => {
                &&& kept.endpoint.name() == resumption.endpoint.name()
                &&& kept.last_page == resumption.last_page
                &&& kept.total_pages == resumption.total_pages
                &&& resumption.last_page > 0 || (forall|index: int|
                    0 <= index < (supported() + custom).len() ==> {
                        let known = #[trigger] (supported() + custom)[index];
                        known.name() == resumption.endpoint.name() ==> known == resumption.endpoint
                    }) ==> kept == resumption
            },
            _ => false,
        },
{
    let all = supported() + custom;
    let name = resumption.endpoint.name();
    text::lemma_position(endpoint::names_of(all), name);
    if let Some(index) = text::position(endpoint::names_of(all), name) {
        assert(endpoint::names_of(all)[index] == all[index].name());
    }
}

/// A driver continued from a checkpoint and the archive's probes stops at that checkpoint.
pub proof fn resuming_with_probes_keeps_the_checkpoint(
    site: SiteView,
    before: Moment,
    resumption: ResumptionView,
    probes: Seq<ProbeView>,
)
    ensures
        DriverView::resumed_with_probes(site, before, resumption, probes).checkpoint()
            == CheckpointView::Resume(resumption),
{
}

/// A run continued from the checkpoint of one that was paging a collection makes the request that
/// the stopped run would have made next.
pub proof fn a_resumed_run_makes_the_next_request(
    driver: DriverView,
    custom: Seq<CollectionView>,
    probes: Seq<ProbeView>,
)
    requires
        driver.current is Some,
        !driver.stopped,
    ensures
        driver.checkpoint() matches CheckpointView::Resume(resumption) && {
            let resumed = DriverView::resumed(driver.site, driver.before, resumption, custom);
            let restored = DriverView::resumed_with_probes(
                driver.site,
                driver.before,
                resumption,
                probes,
            );
            let per_page = driver.per_page;
            let endpoint_per_page = driver.endpoint_per_page;
            &&& driver.current->0.page > 0 ==> (DriverView {
                per_page,
                endpoint_per_page,
                ..resumed
            }).next() == driver.next()
            &&& (DriverView { per_page, endpoint_per_page, ..restored }).next() == driver.next()
        },
{
}

/// A failed capture ends the requests and keeps the checkpoint.
pub proof fn a_failure_keeps_the_checkpoint(driver: DriverView)
    ensures
        (DriverView { stopped: true, ..driver }).next() is None,
        (DriverView { stopped: true, ..driver }).checkpoint() == driver.checkpoint(),
{
}

/// A capture that ends the session leaves the checkpoint as it was.
pub proof fn an_error_keeps_the_checkpoint(driver: DriverView, capture: CaptureView)
    requires
        driver.inspected(capture).1.error is Some,
    ensures
        driver.inspected(capture).0.checkpoint() == driver.checkpoint(),
{
}

/// The capture of the request that the driver makes is never unexpected.
pub proof fn requested_captures_are_expected(driver: DriverView)
    requires
        driver.next() is Some,
    ensures
        driver.awaits_page(driver.next()->0.url) || driver.awaits_root(driver.next()->0.url)
            || driver.awaits_probe(driver.next()->0.url),
{
}

/// A page that is not a collection's last is followed by the request for the next page, via it.
pub proof fn pages_follow_each_other(driver: DriverView, capture: CaptureView)
    requires
        driver.is_valid(),
        !driver.stopped,
        driver.current is Some,
        driver.next()->0.url == capture.url,
        !capture.is_cloudflare_challenge(),
        driver.current->0.refusal(capture) is None,
        !driver.current->0.recorded(capture).1,
    ensures
        driver.inspected(capture).0.next() == Some(
            RequestView {
                url: driver.page_url(
                    driver.current->0.endpoint.name(),
                    (driver.current->0.page + 2) as nat,
                ),
                via: Some(capture.url),
            },
        ),
{
}

/// A collection's page count only grows, and it is never below the count that a page advertises.
pub proof fn page_counts_only_grow(series: SeriesView, capture: CaptureView)
    requires
        series.refusal(capture) is None,
        !series.has_vanished(capture),
    ensures
        series.recorded(capture).0.total_pages is Some,
        series.total_pages matches Some(known) ==> known <= series.recorded(
            capture,
        ).0.total_pages->0,
        capture.advertised_pages() matches Some(advertised) ==> advertised <= series.recorded(
            capture,
        ).0.total_pages->0,
{
}

/// A run that requests nothing more, and was not stopped by a failure, is finished.
pub proof fn a_run_without_requests_is_finished(driver: DriverView)
    requires
        driver.is_valid(),
        !driver.stopped,
        driver.next() is None,
    ensures
        driver.checkpoint() == CheckpointView::Finished,
        driver.probes_finished(),
{
}

/// Of a known and an advertised page count, the greatest is no smaller than either and is one of
/// them, and there is none only where there is neither.
pub proof fn the_greatest_count_bounds_both(known: Option<usize>, advertised: Option<usize>)
    ensures
        greatest(known, advertised) is None <==> known is None && advertised is None,
        known matches Some(known) ==> known <= greatest(Some(known), advertised)->0,
        advertised matches Some(advertised) ==> advertised <= greatest(known, Some(advertised))->0,
        greatest(known, advertised) is Some ==> greatest(known, advertised) == known || greatest(
            known,
            advertised,
        ) == advertised,
{
}

/// An answered page is counted, keeps its collection, and is the last exactly when its number is at
/// least every page count known or advertised.
pub proof fn the_last_page_is_the_greatest_count(series: SeriesView, capture: CaptureView)
    requires
        series.page < usize::MAX,
        capture.head.status == 200 || capture.head.status == 304,
        series.total_pages is Some || capture.advertised_pages() is Some,
    ensures
        series.refusal(capture) is None,
        ({
            let (after, last) = series.recorded(capture);
            &&& after.endpoint == series.endpoint
            &&& after.page == series.page + 1
            &&& last <==> {
                &&& series.total_pages matches Some(known) ==> after.page >= known
                &&& capture.advertised_pages() matches Some(advertised) ==> after.page >= advertised
            }
        }),
{
}

/// A page that a later request finds gone ends its collection where it stands; at the first page,
/// and for every other answer than success and an unchanged page, the session ends instead.
pub proof fn only_answers_move_a_series(series: SeriesView, capture: CaptureView)
    ensures
        capture.head.status == 400 && capture.payload.error_code == Some(
            "rest_post_invalid_page_number"@,
        ) && series.page > 0 ==> series.refusal(capture) is None && series.recorded(capture) == (
            series,
            true,
        ),
        capture.head.status != 200 && capture.head.status != 304 && (capture.head.status != 400
            || series.page == 0 || capture.payload.error_code != Some(
            "rest_post_invalid_page_number"@,
        )) ==> series.refusal(capture) is Some,
        (capture.head.status == 200 || capture.head.status == 304) && series.total_pages is None
            && capture.advertised_pages() is None ==> series.refusal(capture) is Some,
{
}

/// A series after the responses to its next pages, in order.
pub open spec fn paged(series: SeriesView, captures: Seq<CaptureView>) -> SeriesView
    decreases captures.len(),
{
    if captures.len() == 0 {
        series
    } else {
        paged(series, captures.drop_last()).recorded(captures.last()).0
    }
}

/// Whether a series takes one of its captures for an answer, and for its end exactly where that is
/// the last of them.
pub open spec fn answers_at(series: SeriesView, captures: Seq<CaptureView>, index: int) -> bool {
    let capture = captures[index];
    let state = paged(series, captures.take(index));
    &&& capture.head.status == 200 || capture.head.status == 304
    &&& state.refusal(capture) is None
    &&& state.recorded(capture).1 == (index == captures.len() - 1)
}

/// Whether captures answer a series' next pages and only the last of them ends it.
pub open spec fn ends_with(series: SeriesView, captures: Seq<CaptureView>) -> bool {
    &&& captures.len() > 0
    &&& forall|index: int|
        0 <= index < captures.len() ==> #[trigger] answers_at(series, captures, index)
}

proof fn lemma_paged(series: SeriesView, captures: Seq<CaptureView>, count: int)
    requires
        ends_with(series, captures),
        0 <= count <= captures.len(),
        series.page + captures.len() <= usize::MAX,
    ensures
        ({
            let state = paged(series, captures.take(count));
            &&& state.page == series.page + count
            &&& state.endpoint == series.endpoint
            &&& series.total_pages matches Some(known) ==> state.total_pages matches Some(total)
                && known <= total
            &&& forall|index: int|
                0 <= index < count ==> (#[trigger] captures[index].advertised_pages() matches Some(
                    advertised,
                ) ==> state.total_pages matches Some(total) && advertised <= total)
        }),
    decreases count,
{
    if count > 0 {
        let before = count - 1;
        lemma_paged(series, captures, before);
        assert(captures.take(count).drop_last() =~= captures.take(before));
        assert(captures.take(count).last() == captures[before]);
        let state = paged(series, captures.take(before));
        assert(answers_at(series, captures, before));
        the_greatest_count_bounds_both(state.total_pages, captures[before].advertised_pages());
    } else {
        assert(captures.take(0) =~= Seq::empty());
    }
}

/// A collection that is finished without a page gone has had every page captured through each page
/// count that was known or advertised, and none after the greatest but its first.
pub proof fn a_finished_collection_has_every_page(series: SeriesView, captures: Seq<CaptureView>)
    requires
        ends_with(series, captures),
        series.page + captures.len() <= usize::MAX,
    ensures
        series.total_pages matches Some(known) ==> known <= series.page + captures.len(),
        forall|index: int|
            0 <= index < captures.len() ==> (#[trigger] captures[index].advertised_pages() matches Some(
                advertised,
            ) ==> advertised <= series.page + captures.len()),
        captures.len() > 1 ==> {
            ||| series.total_pages matches Some(known) && known == series.page + captures.len()
            ||| exists|index: int|
                0 <= index < captures.len() && #[trigger] captures[index].advertised_pages()
                    == Some((series.page + captures.len()) as usize)
        },
{
    let last = captures.len() - 1;
    lemma_paged(series, captures, last);
    let state = paged(series, captures.take(last));
    let capture = captures[last];
    assert(answers_at(series, captures, last));
    the_last_page_is_the_greatest_count(state, capture);
    if captures.len() > 1 {
        lemma_some_count_is_reached(series, captures, last);
    }
}

/// A series that goes on after a page knows of a later one, from the start or from a capture.
proof fn lemma_some_count_is_reached(series: SeriesView, captures: Seq<CaptureView>, count: int)
    requires
        ends_with(series, captures),
        0 < count < captures.len(),
        series.page + captures.len() <= usize::MAX,
    ensures
        ({
            let state = paged(series, captures.take(count));
            state.total_pages matches Some(total) && series.page + count < total && (
            series.total_pages == Some(total) || exists|index: int|
                0 <= index < count && #[trigger] captures[index].advertised_pages() == Some(total))
        }),
    decreases count,
{
    let before = count - 1;
    lemma_paged(series, captures, before);
    lemma_paged(series, captures, count);
    let state = paged(series, captures.take(before));
    let capture = captures[before];
    assert(captures.take(count).drop_last() =~= captures.take(before));
    assert(captures.take(count).last() == capture);
    assert(answers_at(series, captures, before));
    the_last_page_is_the_greatest_count(state, capture);
    the_greatest_count_bounds_both(state.total_pages, capture.advertised_pages());
    if before > 0 {
        lemma_some_count_is_reached(series, captures, before);
    } else {
        assert(captures.take(0) =~= Seq::empty());
    }
}

/// A collection whose page is not its last is paged on: the next request is for the page after it,
/// via it, and a run stopped then is continued after it. One whose page is its last makes way for
/// the next collection.
pub proof fn a_collection_is_paged_through_its_greatest_count(
    driver: DriverView,
    capture: CaptureView,
)
    requires
        driver.is_valid(),
        !driver.stopped,
        driver.current is Some,
        driver.current->0.page < usize::MAX - 1,
        capture.url == driver.next()->0.url,
        capture.head.status == 200 || capture.head.status == 304,
        driver.current->0.total_pages is Some || capture.advertised_pages() is Some,
    ensures
        ({
            let series = driver.current->0;
            let (after, inspection) = driver.inspected(capture);
            let name = series.endpoint.name();
            let more = (series.total_pages matches Some(known) && series.page + 1 < known) || (
            capture.advertised_pages() matches Some(pages) && series.page + 1 < pages);
            &&& inspection.error is None
            &&& more ==> after.next() == Some(
                RequestView {
                    url: driver.page_url(name, (series.page + 2) as nat),
                    via: Some(driver.page_url(name, (series.page + 1) as nat)),
                },
            )
            &&& more ==> (after.checkpoint() matches CheckpointView::Resume(resumption)
                && resumption.endpoint == series.endpoint && resumption.last_page == series.page
                + 1)
            &&& more ==> after.pending == driver.pending
            &&& !more && driver.pending.len() > 0 ==> after.current == Some(driver.pending[0])
                && after.pending == driver.pending.drop_first()
            &&& !more && driver.pending.len() == 0 ==> after.current is None && after.pending.len()
                == 0
            &&& after.endpoints == driver.endpoints && after.next_probe == driver.next_probe
                && after.probed == driver.probed && after.pagination == driver.pagination
        }),
{
    the_last_page_is_the_greatest_count(driver.current->0, capture);
}

/// The series that a driver pages or will page, in order.
pub open spec fn queued(driver: DriverView) -> Seq<SeriesView> {
    match driver.current {
        Some(series) => seq![series] + driver.pending,
        None => driver.pending,
    }
}

/// A probe queues its collection exactly where its status is from 200 to 299 or 304, behind those
/// queued before; either way it is noted with its status, and the next collection is probed.
pub proof fn exposed_collections_are_queued(driver: DriverView, capture: CaptureView)
    requires
        driver.is_valid(),
        !driver.stopped,
        driver.current is None,
        driver.next_root == 8,
        driver.next_probe < driver.endpoints.len() <= usize::MAX,
        capture.url == driver.next()->0.url,
        !capture.is_cloudflare_challenge(),
    ensures
        ({
            let collection = driver.endpoints[driver.next_probe as int];
            let (after, inspection) = driver.inspected(capture);
            let status = capture.head.status;
            let exposed = 200 <= status < 300 || status == 304;
            &&& inspection.error is None
            &&& after.next_probe == driver.next_probe + 1
            &&& after.endpoints == driver.endpoints
            &&& after.probed == driver.probed.push((collection, status))
            &&& exposed ==> queued(after) == queued(driver).push(
                SeriesView {
                    endpoint: collection,
                    page: 0,
                    total_pages: driver.resume_total_pages,
                },
            )
            &&& !exposed ==> queued(after) == queued(driver)
            &&& !exposed ==> after.pagination == driver.pagination
            &&& after.next_probe < after.endpoints.len() ==> after.next() is Some
                && after.next()->0.url == driver.site.endpoint_url(
                driver.endpoints[driver.next_probe + 1].name(),
            )
            &&& after.next_probe == after.endpoints.len() ==> (after.current is None <==> queued(
                after,
            ).len() == 0)
        }),
{
    let collection = driver.endpoints[driver.next_probe as int];
    let after = driver.inspected(capture).0;
    if 200 <= capture.head.status < 300 || capture.head.status == 304 {
        assert(queued(after) =~= queued(driver).push(
            SeriesView { endpoint: collection, page: 0, total_pages: driver.resume_total_pages },
        ));
    } else {
        assert(queued(after) =~= queued(driver));
    }
}

/// The page count derived for an exposed collection is the least number of pages that holds the
/// items its probe advertises.
pub proof fn probed_items_fill_their_pages(items: nat, per_page: nat)
    requires
        per_page > 0,
    ensures
        items <= pages_of(items, per_page) * per_page,
        pages_of(items, per_page) > 0 ==> (pages_of(items, per_page) - 1) * per_page < items,
{
    let pages = pages_of(items, per_page);
    lemma_pages_of(items, per_page);
    let size = per_page as int;
    let whole = items as int / size;
    let rest = items as int % size;
    vstd::arithmetic::div_mod::lemma_fundamental_div_mod(items as int, size);
    if rest == 0 {
        assert(pages == whole);
        assert(items <= pages * per_page) by (nonlinear_arith)
            requires
                items == size * whole + rest,
                rest == 0,
                pages == whole,
                per_page == size,
        ;
        assert(pages > 0 ==> (pages - 1) * per_page < items) by (nonlinear_arith)
            requires
                items == size * whole + rest,
                rest == 0,
                pages == whole,
                per_page == size,
                size > 0,
        ;
    } else {
        assert(pages == whole + 1);
        assert(items <= pages * per_page) by (nonlinear_arith)
            requires
                items == size * whole + rest,
                rest < size,
                pages == whole + 1,
                per_page == size,
        ;
        assert((pages - 1) * per_page < items) by (nonlinear_arith)
            requires
                items == size * whole + rest,
                rest > 0,
                pages == whole + 1,
                per_page == size,
        ;
    }
}

/// The page count of an exposed collection is noted where its probe advertises its items: as many
/// pages of the collection's size as hold them.
pub proof fn exposed_collections_have_their_page_count(
    driver: DriverView,
    capture: CaptureView,
    items: usize,
)
    requires
        driver.is_valid(),
        driver.next_probe < driver.endpoints.len(),
        200 <= capture.head.status < 300 || capture.head.status == 304,
        capture.advertised_items() == Some(items),
    ensures
        ({
            let collection = driver.endpoints[driver.next_probe as int];
            let size = driver.per_page_for(collection.name());
            let after = driver.inspected_probe(capture);
            &&& after.pagination.len() == driver.pagination.len() + 1
            &&& after.pagination.drop_last() == driver.pagination
            &&& after.pagination.last().0 == collection
            &&& items <= after.pagination.last().1 * size
            &&& after.pagination.last().1 > 0 ==> (after.pagination.last().1 - 1) * size < items
        }),
{
    let collection = driver.endpoints[driver.next_probe as int];
    let size = driver.per_page_for(collection.name()) as nat;
    lemma_pages_of(items as nat, size);
    probed_items_fill_their_pages(items as nat, size);
    assert(driver.inspected_probe(capture).pagination.drop_last() =~= driver.pagination);
}

/// A root resource's response leads on to the next, whatever it is. A successful registry adds its
/// custom collections, each under the registry, and other responses add none.
pub proof fn registries_add_their_custom_collections(
    driver: DriverView,
    root: Seq<char>,
    capture: CaptureView,
)
    requires
        driver.next_root < 8,
    ensures
        ({
            let (after, inspection) = driver.inspected_root(root, capture);
            let success = 200 <= capture.head.status < 300;
            let listing = root == "wp-json/wp/v2/types"@ || root == "wp-json/wp/v2/taxonomies"@;
            &&& after.next_root == driver.next_root + 1
            &&& inspection.error is Some <==> listing && success
                && capture.payload.registry is Err
            &&& !listing || !success || capture.payload.registry is Err ==> after.endpoints
                == driver.endpoints
            &&& listing && success && capture.payload.registry is Ok ==> forall|name: Seq<char>|
                #[trigger] endpoint::names_of(after.endpoints).contains(name)
                    <==> endpoint::names_of(driver.endpoints).contains(name)
                    || endpoint::custom_names(capture.payload.registry->Ok_0).contains(name)
        }),
{
    if let Ok(entries) = capture.payload.registry {
        let names = endpoint::custom_names(entries);
        lemma_with_customs_names(driver.endpoints, names, Registry::Types);
        lemma_with_customs_names(driver.endpoints, names, Registry::Taxonomies);
    }
}

/// The names of collections with customs are those of the collections and of the customs, no
/// others.
proof fn lemma_with_customs_names(
    collections: Seq<CollectionView>,
    names: Seq<Seq<char>>,
    registry: Registry,
)
    ensures
        forall|name: Seq<char>| #[trigger]
            endpoint::names_of(with_customs(collections, names, registry)).contains(name)
                <==> endpoint::names_of(collections).contains(name) || names.contains(name),
    decreases names.len(),
{
    if names.len() > 0 {
        let before = names.drop_last();
        lemma_with_customs_names(collections, before, registry);
        let earlier = with_customs(collections, before, registry);
        let all = with_customs(collections, names, registry);
        let known = endpoint::names_of(earlier);
        let grown = endpoint::names_of(all);
        if !known.contains(names.last()) {
            assert(grown =~= known.push(names.last()));
        }
        assert forall|name: Seq<char>| #[trigger] grown.contains(name) <==> endpoint::names_of(
            collections,
        ).contains(name) || names.contains(name) by {
            assert(known.contains(name) <==> endpoint::names_of(collections).contains(name)
                || before.contains(name));
            if known.contains(name) {
                assert(grown[known.index_of(name)] == name);
            }
            if before.contains(name) {
                assert(names[before.index_of(name)] == name);
            }
            if names.contains(name) && !before.contains(name) {
                let at = names.index_of(name);
                if at < before.len() {
                    assert(before[at] == name);
                }
                assert(name == names.last());
                if !known.contains(name) {
                    assert(grown[grown.len() - 1] == name);
                }
            }
            if grown.contains(name) && !known.contains(name) {
                let at = grown.index_of(name);
                if at < known.len() {
                    assert(known[at] == name);
                }
                assert(names[names.len() - 1] == name);
            }
        }
    }
}

/// A collection appended to others is a custom one of its registry, under a name that none before
/// it has.
pub proof fn appended_collections_are_custom(
    collections: Seq<CollectionView>,
    names: Seq<Seq<char>>,
    registry: Registry,
    index: int,
)
    requires
        collections.len() <= index < with_customs(collections, names, registry).len(),
    ensures
        with_customs(collections, names, registry)[index] matches CollectionView::Custom {
            name,
            registry: by,
        } && by == registry && names.contains(name) && !endpoint::names_of(collections).contains(
            name,
        ),
    decreases names.len(),
{
    if names.len() > 0 {
        let before = names.drop_last();
        let earlier = with_customs(collections, before, registry);
        lemma_with_customs_grows(collections, before, registry);
        if index < earlier.len() {
            appended_collections_are_custom(collections, before, registry, index);
            let name = earlier[index]->Custom_name;
            assert(names[before.index_of(name)] == name);
        } else {
            let known = endpoint::names_of(earlier);
            assert(names[names.len() - 1] == names.last());
            if endpoint::names_of(collections).contains(names.last()) {
                let at = endpoint::names_of(collections).index_of(names.last());
                assert(collections[at] == earlier[at]);
                assert(known[at] == names.last());
            }
        }
    }
}

/// An archive begins with every supported endpoint, none probed, and asks for the root resources
/// first.
pub proof fn an_archive_begins_with_every_supported_endpoint(
    site: SiteView,
    before: Moment,
    endpoint: Endpoint,
)
    ensures
        DriverView::beginning(site, before).endpoints.contains(CollectionView::Known(endpoint)),
        DriverView::beginning(site, before).endpoints.len() == 8,
        DriverView::beginning(site, before).next() == Some(
            RequestView { url: site.root.href + "wp-json"@, via: None },
        ),
        DriverView::beginning(site, before).checkpoint() == CheckpointView::Initial,
{
    endpoint::lemma_all_holds(endpoint);
    let index = choose|index: int| 0 <= index < 8 && Endpoint::ALL@[index] == endpoint;
    assert(supported()[index] == CollectionView::Known(endpoint));
}

/// The series restored from an archive's probes are those of the successful ones, in order and from
/// their first page; the page counts are those of the successful ones that have one.
pub proof fn successful_probes_are_restored(probes: Seq<ProbeView>)
    ensures
        probe_series(probes) == probes.filter(
            |probe: ProbeView| 200 <= probe.status < 300 || probe.status == 304,
        ).map_values(
            |probe: ProbeView|
                SeriesView { endpoint: probe.collection, page: 0, total_pages: None },
        ),
        probe_pages(probes) == probes.filter(
            |probe: ProbeView|
                probe.total_pages is Some && (200 <= probe.status < 300 || probe.status == 304),
        ).map_values(|probe: ProbeView| (probe.collection, probe.total_pages->0)),
    decreases probes.len(),
{
    reveal(Seq::filter);
    if probes.len() > 0 {
        successful_probes_are_restored(probes.drop_last());
    }
}

/// A page count is noted for its collection alone: it is the last one noted, no other changes, and
/// none is noted twice.
pub proof fn a_page_count_is_noted_once(
    pagination: Seq<(CollectionView, usize)>,
    endpoint: CollectionView,
    total_pages: usize,
)
    ensures
        ({
            let after = with_page_count(pagination, endpoint, total_pages);
            let known = paged_names(pagination).contains(endpoint.name());
            &&& after.len() == pagination.len() + (if known {
                0int
            } else {
                1int
            })
            &&& exists|index: int|
                0 <= index < after.len() && (#[trigger] after[index]).0.name() == endpoint.name()
                    && after[index].1 == total_pages
            &&& forall|index: int|
                0 <= index < pagination.len() && (#[trigger] pagination[index]).0.name()
                    != endpoint.name() ==> after[index] == pagination[index]
        }),
{
    let names = paged_names(pagination);
    let after = with_page_count(pagination, endpoint, total_pages);
    text::lemma_position(names, endpoint.name());
    match text::position(names, endpoint.name()) {
        Some(index) => {
            assert(names[index] == pagination[index].0.name());
            assert(after[index].1 == total_pages);
        },
        None => {
            assert(after[pagination.len() as int] == (endpoint, total_pages));
        },
    }
}

/// The progress of a collection never exceeds its total, is the page of its series below it, and is
/// the total of a collection that is no longer paged.
pub proof fn progress_is_within_its_total(driver: DriverView, index: int)
    requires
        0 <= index < driver.pagination.len(),
    ensures
        driver.pagination_progress().len() == driver.pagination.len(),
        ({
            let progress = driver.pagination_progress()[index];
            let (collection, total) = driver.pagination[index];
            let name = collection.name();
            &&& progress.collection == collection
            &&& progress.total_pages == total
            &&& progress.page <= total
            &&& driver.current matches Some(series) ==> series.endpoint.name() == name ==> {
                &&& series.page < total ==> progress.page == series.page
                &&& series.page >= total ==> progress.page == total
            }
            &&& (driver.current is None || driver.current->0.endpoint.name() != name)
                && !series_names(driver.pending).contains(name) ==> progress.page == total
            &&& (driver.current is None || driver.current->0.endpoint.name() != name)
                && series_names(driver.pending).contains(name) && driver.is_valid()
                ==> progress.page == 0
        }),
{
    let name = driver.pagination[index].0.name();
    text::lemma_position(series_names(driver.pending), name);
}

/// The probe results are those of the probes, in order, with their statuses; a page count is that
/// noted under the collection's name.
pub proof fn probe_results_are_those_noted(driver: DriverView, index: int)
    requires
        0 <= index < driver.probed.len(),
    ensures
        driver.probe_results().len() == driver.probed.len(),
        ({
            let result = driver.probe_results()[index];
            &&& (result.collection, result.status) == driver.probed[index]
            &&& result.total_pages is Some <==> paged_names(driver.pagination).contains(
                result.collection.name(),
            )
            &&& result.total_pages matches Some(pages) ==> exists|at: int|
                0 <= at < driver.pagination.len() && (#[trigger] driver.pagination[at]).0.name()
                    == result.collection.name() && driver.pagination[at].1 == pages
        }),
{
    let name = driver.probed[index].0.name();
    let names = paged_names(driver.pagination);
    text::lemma_position(names, name);
    if let Some(at) = text::position(names, name) {
        assert(names[at] == driver.pagination[at].0.name());
    }
}

/// The page size of a collection is its own where one is set, and the general one otherwise.
pub proof fn a_page_is_of_its_collections_size(driver: DriverView, name: Seq<char>, page: nat)
    ensures
        driver.endpoint_per_page.contains_key(name) ==> driver.page_url(name, page)
            == driver.site.page_url(
            name,
            driver.before,
            page,
            driver.endpoint_per_page[name] as nat,
        ),
        !driver.endpoint_per_page.contains_key(name) ==> driver.page_url(name, page)
            == driver.site.page_url(name, driver.before, page, driver.per_page as nat),
{
}

/// A session's name keeps the characters of its base that it may, in place, and ends with the
/// second of its start.
pub proof fn a_session_is_named_after_its_site(site: SiteView, at: Moment, index: int)
    requires
        0 <= index < site.location().len(),
    ensures
        site.session_name(at)[index] == (if is_unreserved(site.location()[index]) {
            site.location()[index]
        } else {
            '-'
        }),
        site.session_name(at).skip(site.location().len() as int) == "-"@ + text::signed_decimal(
            at.seconds,
        ),
{
    assert(site.session_name(at).skip(site.location().len() as int) =~= "-"@
        + text::signed_decimal(at.seconds));
}

/// A host names the site that it names with `https://` before it and with slashes after it, and a
/// site without TLS keeps its scheme in its base.
pub proof fn a_base_is_named_alike_with_its_scheme(host: Seq<char>)
    requires
        !"http://"@.is_prefix_of(host),
        !"https://"@.is_prefix_of(host),
        host.len() > 0,
        host.last() != '/',
    ensures
        parsed_site(host) matches Ok(site) ==> site.base == host && site.location() == host
            && parsed_site("https://"@ + host) == Ok::<SiteView, SiteErrorView>(site)
            && web::parsed_address("https://"@ + host + "/"@) == Ok::<AddressView, Seq<char>>(
            site.root,
        ),
        parsed_site("http://"@ + host) matches Ok(site) ==> site.base == "http://"@ + host
            && site.location() == host && web::parsed_address("http://"@ + host + "/"@) == Ok::<
            AddressView,
            Seq<char>,
        >(site.root),
        located(host + seq!['/']) == located(host),
{
    let secure = "https://"@ + host;
    let plain = "http://"@ + host;
    reveal_strlit("http://");
    reveal_strlit("https://");
    assert(secure.skip(8) =~= host);
    assert(plain.skip(7) =~= host);
    assert(!"http://"@.is_prefix_of(secure)) by {
        if "http://"@.is_prefix_of(secure) {
            assert(secure[4] == "http://"@[4]);
        }
    }
    assert("https://"@.is_prefix_of(secure)) by {
        assert(secure.subrange(0, 8) =~= "https://"@);
    }
    assert("http://"@.is_prefix_of(plain)) by {
        assert(plain.subrange(0, 7) =~= "http://"@);
    }
    let slashed = host + seq!['/'];
    assert(slashed.drop_last() =~= host);
    assert(!"http://"@.is_prefix_of(slashed)) by {
        if "http://"@.is_prefix_of(slashed) {
            if host.len() >= 7 {
                assert(host.subrange(0, 7) =~= slashed.subrange(0, 7));
            } else {
                assert(host.last() == slashed[5] == "http://"@[5]);
            }
        }
    }
    assert(!"https://"@.is_prefix_of(slashed)) by {
        if "https://"@.is_prefix_of(slashed) {
            if host.len() >= 8 {
                assert(host.subrange(0, 8) =~= slashed.subrange(0, 8));
            } else {
                assert(host.last() == slashed[6] == "https://"@[6]);
            }
        }
    }
    reveal_with_fuel(text::trimmed_end, 3);
}

/// A run asks first for the pages of the collection under way, then for the root resources in their
/// order, then for the collections that are yet to be probed, and then for nothing.
pub proof fn requests_are_made_in_turn(driver: DriverView)
    requires
        !driver.stopped,
        driver.is_valid(),
    ensures
        driver.current matches Some(series) ==> (driver.next() matches Some(request)
            && request.url == driver.page_url(series.endpoint.name(), (series.page + 1) as nat)
            && request.via == Some(
            if series.page == 0 {
                driver.site.endpoint_url(series.endpoint.name())
            } else {
                driver.page_url(series.endpoint.name(), series.page as nat)
            },
        )),
        driver.current is None && driver.next_root < 8 ==> (driver.next() matches Some(request)
            && request.url == driver.site.root.href + ROOT_ENDPOINTS@[driver.next_root as int]@
            && request.via is None),
        driver.current is None && driver.next_root == 8 && driver.next_probe
            < driver.endpoints.len() ==> (driver.next() matches Some(request) && request.url
            == driver.site.root.href + ("wp-json/wp/v2/"@
            + driver.endpoints[driver.next_probe as int].name())),
        driver.current is None && driver.next_root == 8 && driver.next_probe
            == driver.endpoints.len() ==> driver.next() is None,
{
}

/// A supported collection is probed for its own sake, and a custom one via the registry that
/// advertised it.
pub proof fn custom_collections_are_probed_via_their_registry(
    driver: DriverView,
    endpoint: Endpoint,
    name: Seq<char>,
)
    ensures
        driver.probe_request(CollectionView::Known(endpoint)).via is None,
        driver.probe_request(
            CollectionView::Custom { name, registry: Registry::Types },
        ).via == Some(driver.site.root.href + "wp-json/wp/v2/types"@),
        driver.probe_request(
            CollectionView::Custom { name, registry: Registry::Taxonomies },
        ).via == Some(driver.site.root.href + "wp-json/wp/v2/taxonomies"@),
        driver.probe_request(CollectionView::Custom { name, registry: Registry::Types }).url
            == driver.site.root.href + ("wp-json/wp/v2/"@ + name),
{
}

/// A challenge, and a capture of anything but what is awaited, end the session and change nothing.
pub proof fn only_awaited_captures_are_accepted(driver: DriverView, capture: CaptureView)
    ensures
        capture.head.status == 403 && capture.head.mitigated == Some("challenge"@)
            ==> driver.inspected(capture).0 == driver && driver.inspected(
            capture,
        ).1.error is Some,
        (driver.current matches Some(series) ==> capture.url != driver.page_url(
            series.endpoint.name(),
            (series.page + 1) as nat,
        )) && (driver.next_root < 8 ==> capture.url != driver.site.root.href
            + ROOT_ENDPOINTS@[driver.next_root as int]@) && (driver.next_probe
            < driver.endpoints.len() ==> capture.url != driver.site.root.href + ("wp-json/wp/v2/"@
            + driver.endpoints[driver.next_probe as int].name())) ==> driver.inspected(capture).0
            == driver && driver.inspected(capture).1.error is Some,
{
}

/// A run is continued after the last page of the collection under way; between collections, at the
/// first page of the next. A new archive that is yet to be probed is begun again, and one without
/// anything left is finished.
pub proof fn a_checkpoint_tells_what_is_left(driver: DriverView)
    ensures
        driver.current matches Some(series) ==> driver.checkpoint() == CheckpointView::Resume(
            ResumptionView {
                endpoint: series.endpoint,
                last_page: series.page,
                total_pages: series.total_pages,
            },
        ),
        driver.current is None && driver.initial && driver.next_probe < driver.endpoints.len()
            ==> driver.checkpoint() == CheckpointView::Initial,
        driver.current is None && !driver.initial && driver.pending.len() == 0
            && driver.next_probe < driver.endpoints.len() ==> driver.checkpoint()
            == CheckpointView::Resume(
            ResumptionView {
                endpoint: driver.endpoints[driver.next_probe as int],
                last_page: 0,
                total_pages: driver.resume_total_pages,
            },
        ),
        driver.checkpoint() == CheckpointView::Finished <==> driver.current is None
            && driver.pending.len() == 0 && driver.next_probe >= driver.endpoints.len(),
{
}

/// A run continued in the middle of a collection pages that one, and then probes the collections
/// after it and no others; one continued before its first page probes that one too.
pub proof fn a_resumed_run_goes_on_to_the_later_collections(
    site: SiteView,
    before: Moment,
    resumption: ResumptionView,
    custom: Seq<CollectionView>,
    index: int,
)
    requires
        custom.len() + 8 <= usize::MAX,
        0 <= index < (supported() + custom).len(),
        (supported() + custom)[index].name() == resumption.endpoint.name(),
        forall|earlier: int|
            0 <= earlier < index ==> (#[trigger] (supported() + custom)[earlier]).name()
                != resumption.endpoint.name(),
    ensures
        ({
            let driver = DriverView::resumed(site, before, resumption, custom);
            &&& driver.endpoints == supported() + custom
            &&& driver.next_probe == (if resumption.last_page == 0 {
                index
            } else {
                index + 1
            })
            &&& driver.next_root == 8
            &&& driver.pending.len() == 0
            &&& driver.current is Some <==> resumption.last_page > 0
            &&& !driver.initial && !driver.stopped
        }),
{
    let all = supported() + custom;
    let names = endpoint::names_of(all);
    let name = resumption.endpoint.name();
    text::lemma_position(names, name);
    assert(names[index] == name);
    assert forall|earlier: int| 0 <= earlier < index implies names[earlier] != name by {
        assert(names[earlier] == all[earlier].name());
    }
}

/// A run continued with an archive's probes pages the collection that it stopped in, and then those
/// probed after it with success, from their first pages and in order; nothing is probed again.
pub proof fn a_restored_run_goes_on_to_the_later_collections(
    site: SiteView,
    before: Moment,
    resumption: ResumptionView,
    probes: Seq<ProbeView>,
    index: int,
)
    requires
        probes.len() <= usize::MAX,
        0 <= index < probes.len(),
        probes[index].collection.name() == resumption.endpoint.name(),
        forall|earlier: int|
            0 <= earlier < index ==> (#[trigger] probes[earlier]).collection.name()
                != resumption.endpoint.name(),
    ensures
        ({
            let driver = DriverView::resumed_with_probes(site, before, resumption, probes);
            &&& driver.current == Some(
                SeriesView {
                    endpoint: resumption.endpoint,
                    page: resumption.last_page,
                    total_pages: resumption.total_pages,
                },
            )
            &&& driver.pending == probes.skip(index + 1).filter(
                |probe: ProbeView| 200 <= probe.status < 300 || probe.status == 304,
            ).map_values(
                |probe: ProbeView|
                    SeriesView { endpoint: probe.collection, page: 0, total_pages: None },
            )
            &&& driver.next_probe == driver.endpoints.len()
            &&& driver.next_root == 8
        }),
{
    let all = probes.map_values(|probe: ProbeView| probe.collection);
    let names = endpoint::names_of(all);
    let name = resumption.endpoint.name();
    text::lemma_position(names, name);
    assert(names[index] == name);
    assert forall|earlier: int| 0 <= earlier < index implies names[earlier] != name by {
        assert(names[earlier] == probes[earlier].collection.name());
    }
    successful_probes_are_restored(probes.skip(index + 1));
}

/// The installation whose API a request is made of is the path before the first `/wp-json`.
pub proof fn a_site_is_inferred_from_its_api(request: Seq<char>, marker: int)
    requires
        web::parsed_address(request) is Ok,
        text::occurs_at(web::parsed_address(request)->Ok_0.path, "/wp-json"@, marker),
        forall|earlier: int|
            0 <= earlier < marker ==> !text::occurs_at(
                web::parsed_address(request)->Ok_0.path,
                "/wp-json"@,
                earlier,
            ),
    ensures
        inferred_site(request) == Some(
            parsed_site(
                text::trimmed_end(
                    web::address_at_path(
                        request,
                        if marker == 0 {
                            "/"@
                        } else {
                            web::parsed_address(request)->Ok_0.path.take(marker)
                        },
                    ),
                    '/',
                ),
            ),
        ),
{
    text::lemma_found_from(web::parsed_address(request)->Ok_0.path, "/wp-json"@, 0);
}

/// The page count of a checkpoint stands for the first collection probed after it, and for that one
/// alone: where its probe advertises no items, its pages are that many.
pub proof fn a_checkpoints_page_count_is_used_once(driver: DriverView, capture: CaptureView)
    requires
        driver.next_probe < driver.endpoints.len(),
        capture.advertised_items() is None,
    ensures
        ({
            let collection = driver.endpoints[driver.next_probe as int];
            let after = driver.inspected_probe(capture);
            let exposed = 200 <= capture.head.status < 300 || capture.head.status == 304;
            &&& after.resume_total_pages is None
            &&& exposed && driver.resume_total_pages is Some ==> after.pagination
                == driver.pagination.push((collection, driver.resume_total_pages->0))
            &&& !exposed || driver.resume_total_pages is None ==> after.pagination
                == driver.pagination
        }),
{
}

/// The probes are finished exactly where every root resource was captured and every collection
/// probed.
pub proof fn probes_are_finished_with_the_last(driver: DriverView)
    requires
        driver.is_valid(),
        !driver.stopped,
        driver.current is None,
    ensures
        driver.probes_finished() <==> driver.next() is None,
{
}

} // verus!
