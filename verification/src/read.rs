//! Reading comments captured from the `WordPress` REST API v2 from archives.

use crate::clock;
use crate::clock::{Moment, Timestamp};
use crate::comments;
use crate::comments::CommentDriverView;
use crate::evidence;
use crate::evidence::{HeadView, Message, MessageView, Record, RecordView, ResponseHead};
use crate::json;
use crate::json::{Document, DocumentView};
use crate::query;
use crate::text;
use crate::web;
use vstd::prelude::*;

verus! {

/// The path of the comments collection below a `WordPress` installation.
pub const COMMENTS_PATH: &'static str = "/wp-json/wp/v2/comments";

/// Whether a file that begins with these bytes is gzip-compressed.
pub open spec fn is_gzip_start(start: Seq<u8>) -> bool {
    start.len() >= 2 && start[0] == 0x1f && start[1] == 0x8b
}

/// Whether a file that begins with these bytes is gzip-compressed.
pub fn is_gzip(start: &[u8]) -> (gzip: bool)
    ensures
        gzip == is_gzip_start(start@),
{
    start.len() >= 2 && start[0] == 0x1f && start[1] == 0x8b
}

/// Whether a captured URL targets the comments collection endpoint, with any query string.
pub open spec fn targets_comments(url: Seq<char>) -> bool {
    let path = match text::split_at_first(url, "?"@) {
        Some((path, _)) => path,
        None => url,
    };
    COMMENTS_PATH@.is_suffix_of(text::trimmed_end(path, '/'))
}

/// Whether a captured URL targets the comments collection endpoint, with any query string.
pub fn is_comment_endpoint(url: &str) -> (targets: bool)
    ensures
        targets == targets_comments(url@),
{
    match text::split_once(url, "?") {
        Some((path, _)) => text::ends_with(
            text::trim_end(path.as_str(), '/').as_str(),
            COMMENTS_PATH,
        ),
        None => text::ends_with(text::trim_end(url, '/').as_str(), COMMENTS_PATH),
    }
}

/// The positive `page` query value, which is the first page's where the query has none.
pub open spec fn page_of(url: Seq<char>) -> Option<usize> {
    match web::parsed_address(url) {
        Ok(address) => if query::looked_up(address.pairs, "page"@) is None {
            Some(1)
        } else {
            match query::only_count(address.pairs, "page"@) {
                Some(page) => if page > 0 {
                    Some(page)
                } else {
                    None
                },
                None => None,
            }
        },
        Err(_) => None,
    }
}

/// The positive `page` query value, which is the first page's where the query has none.
pub fn comment_page(url: &str) -> (page: Option<usize>)
    ensures
        page == page_of(url@),
{
    match web::parse(url) {
        Ok(address) => if query::look_up(&address.pairs, "page").is_none() {
            Some(1)
        } else {
            match query::parsed_one(&address.pairs, "page") {
                Some(page) => if page > 0 {
                    Some(page)
                } else {
                    None
                },
                None => None,
            }
        },
        Err(_) => None,
    }
}

/// The comments endpoint that a URL targets, without a query.
pub open spec fn endpoint_of(url: Seq<char>) -> Option<Seq<char>> {
    match web::parsed_address(url) {
        Ok(address) => {
            let path = text::trimmed_end(address.path, '/');
            if COMMENTS_PATH@.is_suffix_of(path) {
                Some(web::address_at_path(url, path))
            } else {
                None
            }
        },
        Err(_) => None,
    }
}

/// The comments endpoint that a URL targets, without a query.
pub fn comment_endpoint(url: &str) -> (endpoint: Option<String>)
    requires
        web::is_settable(url@),
    ensures
        endpoint.deep_view() == endpoint_of(url@),
{
    match web::parse(url) {
        Ok(address) => {
            let path = text::trim_end(address.path.as_str(), '/');
            if !text::ends_with(path.as_str(), COMMENTS_PATH) {
                return None;
            }
            proof {
                text::lemma_trimmed_end_is_a_prefix(address.path@, '/');
            }
            Some(web::at_path(url, path.as_str()))
        },
        Err(_) => None,
    }
}

/// The root of the installation whose comments endpoint a URL targets.
pub open spec fn installation_of(url: Seq<char>) -> Option<Seq<char>> {
    match web::parsed_address(url) {
        Ok(address) => match text::stripped_suffix(
            text::trimmed_end(address.path, '/'),
            COMMENTS_PATH@,
        ) {
            Some(root) => Some(web::address_at_path(url, root + "/"@)),
            None => None,
        },
        Err(_) => None,
    }
}

/// The root of the installation whose comments endpoint a URL targets.
pub fn comment_base_url(url: &str) -> (base_url: Option<String>)
    requires
        web::is_settable(url@),
    ensures
        base_url.deep_view() == installation_of(url@),
{
    match web::parse(url) {
        Ok(address) => {
            let path = text::trim_end(address.path.as_str(), '/');
            match text::strip_suffix(path.as_str(), COMMENTS_PATH) {
                Some(root) => {
                    let root_path = text::joined(root.as_str(), "/");
                    proof {
                        text::lemma_trimmed_end_is_a_prefix(address.path@, '/');
                        reveal_strlit("/");
                        reveal_strlit("/wp-json/wp/v2/comments");
                        assert(path@ == root@ + COMMENTS_PATH@);
                        assert(root_path@ == path@.take(root@.len() as int + 1));
                        assert(root_path@.is_prefix_of(address.path@));
                    }
                    Some(web::at_path(url, root_path.as_str()))
                },
                None => None,
            }
        },
        Err(_) => None,
    }
}

/// The host of an address in lower case, or a text that is no address in lower case.
pub open spec fn domain(url: Seq<char>) -> Seq<char> {
    match web::parsed_address(url) {
        Ok(address) => match address.host {
            Some(host) => text::lower(host),
            None => text::lower(url),
        },
        Err(_) => text::lower(url),
    }
}

/// The host of an address in lower case, or a text that is no address in lower case.
pub fn domain_of(url: &str) -> (domain: String)
    ensures
        domain@ == self::domain(url@),
{
    match web::parse(url) {
        Ok(address) => match &address.host {
            Some(host) => text::lowered(host.as_str()),
            None => text::lowered(url),
        },
        Err(_) => text::lowered(url),
    }
}

/// Whether an address comes before another in the order of domain names, and of the addresses
/// themselves within one domain.
pub open spec fn comes_first(first: Seq<char>, second: Seq<char>) -> bool {
    text::precedes(domain(first), domain(second)) || (domain(first) == domain(second)
        && text::precedes(first, second))
}

/// Whether addresses are in the order of their domain names, none twice.
pub open spec fn are_in_domain_order(urls: Seq<Seq<char>>) -> bool {
    forall|first: int, second: int|
        0 <= first < second < urls.len() ==> #[trigger] comes_first(urls[first], urls[second])
}

proof fn lemma_domain_order(first: Seq<char>, second: Seq<char>, third: Seq<char>)
    ensures
        first == second || comes_first(first, second) || comes_first(second, first),
        !comes_first(first, first),
        comes_first(first, second) && comes_first(second, third) ==> comes_first(first, third),
{
    text::lemma_precedes_is_total(domain(first), domain(second));
    text::lemma_precedes_is_total(first, second);
    text::lemma_precedes_is_irreflexive(domain(first));
    text::lemma_precedes_is_irreflexive(first);
    if comes_first(first, second) && comes_first(second, third) {
        if text::precedes(domain(first), domain(second)) && text::precedes(
            domain(second),
            domain(third),
        ) {
            text::lemma_precedes_is_transitive(domain(first), domain(second), domain(third));
        }
        if text::precedes(first, second) && text::precedes(second, third) {
            text::lemma_precedes_is_transitive(first, second, third);
        }
    }
}

fn is_first(first: &str, second: &str) -> (found: bool)
    ensures
        found == comes_first(first@, second@),
{
    let left = domain_of(first);
    let right = domain_of(second);
    text::comes_before(left.as_str(), right.as_str()) || (text::same(left.as_str(), right.as_str())
        && text::comes_before(first, second))
}

/// Adds an address to those in domain order, unless it is among them.
pub fn insert_in_domain_order(urls: &mut Vec<String>, url: &str)
    requires
        are_in_domain_order(old(urls).deep_view()),
    ensures
        are_in_domain_order(final(urls).deep_view()),
        final(urls).deep_view().to_set() == old(urls).deep_view().to_set().insert(url@),
{
    let ghost all = urls.deep_view();
    let mut index: usize = 0;
    while index < urls.len() && is_first(urls[index].as_str(), url)
        invariant
            index <= urls@.len(),
            all == urls.deep_view(),
            all == old(urls).deep_view(),
            forall|earlier: int| 0 <= earlier < index ==> #[trigger] comes_first(all[earlier], url@),
        decreases urls@.len() - index,
    {
        assert(all[index as int] == urls@[index as int]@);
        index += 1;
    }
    if index < urls.len() {
        assert(all[index as int] == urls@[index as int]@);
        if text::same(urls[index].as_str(), url) {
            assert(all.contains(url@));
            assert(all.to_set() =~= all.to_set().insert(url@));
            return ;
        }
    }
    urls.insert(index, url.to_owned());
    let ghost grown = urls.deep_view();
    proof {
        assert(grown =~= all.insert(index as int, url@));
        assert forall|first: int, second: int|
            0 <= first < second < grown.len() implies #[trigger] comes_first(
            grown[first],
            grown[second],
        ) by {
            if second < index {
                assert(comes_first(all[first], all[second]));
            } else if first > index {
                assert(comes_first(all[first - 1], all[second - 1]));
            } else if second == index {
                assert(comes_first(all[first], url@));
            } else {
                lemma_domain_order(url@, all[index as int], all[second - 1]);
                if index < second - 1 {
                    assert(comes_first(all[index as int], all[second - 1]));
                }
                if first < index {
                    assert(comes_first(all[first], all[second - 1]));
                }
            }
        }
        assert(grown.to_set() =~= all.to_set().insert(url@)) by {
            assert forall|known: Seq<char>| all.contains(known) implies grown.contains(known) by {
                let at = all.index_of(known);
                if at < index {
                    assert(grown[at] == known);
                } else {
                    assert(grown[at + 1] == known);
                }
            }
            assert(grown[index as int] == url@);
            assert forall|known: Seq<char>| grown.contains(known) implies known == url@
                || all.contains(known) by {
                let at = grown.index_of(known);
                if at < index {
                    assert(all[at] == known);
                } else if at > index {
                    assert(all[at - 1] == known);
                }
            }
        }
    }
}

/// The target and HTTP head of a record that satisfies comments page coverage: an HTTP 200 response
/// or revisit of the comments endpoint whose payload was identified as JSON.
pub open spec fn qualifying(record: RecordView) -> Option<(Seq<char>, HeadView)> {
    match record {
        RecordView::Response { url, message, identified_json, .. } => qualifying_message(
            url,
            message,
            identified_json,
        ),
        RecordView::Revisit { url, message, identified_json, .. } => qualifying_message(
            url,
            message,
            identified_json,
        ),
        _ => None,
    }
}

/// The target and head of a message that satisfies comments page coverage.
pub open spec fn qualifying_message(
    url: Seq<char>,
    message: MessageView,
    identified_json: bool,
) -> Option<(Seq<char>, HeadView)> {
    match message.head {
        Some(head) => if targets_comments(url) && identified_json && head.status == 200 {
            Some((url, head))
        } else {
            None
        },
        None => None,
    }
}

/// The target and HTTP head of a record that satisfies comments page coverage.
///
/// Completion planning uses this same predicate, so it cannot choose a paging template from a
/// record the coverage check would reject or overlook an acceptable revisit.
pub fn qualifying_comment_capture<'a>(record: &'a Record) -> (capture: Option<
    (&'a str, &'a ResponseHead),
>)
    ensures
        match capture {
            Some((url, head)) => qualifying(record.deep_view()) == Some((url@, head.deep_view())),
            None => qualifying(record.deep_view()) is None,
        },
{
    let (url, message, identified_json) = match record {
        Record::Response { url, message, identified_json, .. } => (url, message, *identified_json),
        Record::Revisit { url, message, identified_json, .. } => (url, message, *identified_json),
        _ => {
            return None;
        },
    };
    match &message.head {
        Some(head) => if is_comment_endpoint(url.as_str()) && identified_json && head.status
            == 200 {
            Some((url.as_str(), head))
        } else {
            None
        },
        None => None,
    }
}

/// What a qualifying capture says of its comments endpoint.
#[derive(Debug, Eq, PartialEq)]
pub struct Sighting {
    /// The endpoint, without a query.
    pub endpoint: String,
    /// The page that was captured.
    pub page: Option<usize>,
    /// The page count that was advertised.
    pub total: Option<usize>,
}

/// The parts of a [`Sighting`].
#[verifier::ext_equal]
pub struct SightingView {
    pub endpoint: Seq<char>,
    pub page: Option<usize>,
    pub total: Option<usize>,
}

impl DeepView for Sighting {
    type V = SightingView;

    open spec fn deep_view(&self) -> SightingView {
        SightingView { endpoint: self.endpoint@, page: self.page, total: self.total }
    }
}

/// What a record says of a comments endpoint, if it is a qualifying capture of one. A URL whose
/// path is too long to be set names none.
pub open spec fn sighted(record: RecordView) -> Option<SightingView> {
    match qualifying(record) {
        Some((url, head)) => if web::is_settable(url) {
            match endpoint_of(url) {
                Some(endpoint) => Some(
                    SightingView {
                        endpoint,
                        page: page_of(url),
                        total: evidence::header_count(head.total_pages),
                    },
                ),
                None => None,
            }
        } else {
            None
        },
        None => None,
    }
}

/// What the records of an archive say of comments endpoints, in order.
pub open spec fn sightings(records: Seq<RecordView>) -> Seq<SightingView>
    decreases records.len(),
{
    if records.len() == 0 {
        Seq::empty()
    } else {
        match sighted(records.last()) {
            Some(sighting) => sightings(records.drop_last()).push(sighting),
            None => sightings(records.drop_last()),
        }
    }
}

fn see(record: &Record) -> (sighting: Option<Sighting>)
    ensures
        sighting.deep_view() == sighted(record.deep_view()),
{
    match qualifying_comment_capture(record) {
        Some((url, head)) => {
            if !web::can_be_set(url) {
                return None;
            }
            match comment_endpoint(url) {
                Some(endpoint) => Some(
                    Sighting {
                        endpoint,
                        page: comment_page(url),
                        total: evidence::numeric_header(&head.total_pages),
                    },
                ),
                None => None,
            }
        },
        None => None,
    }
}

/// What the records of an archive say of comments endpoints, in order.
pub fn collect_sightings(records: &Vec<Record>) -> (found: Vec<Sighting>)
    ensures
        found.deep_view() == sightings(records.deep_view()),
{
    let ghost all = records.deep_view();
    let mut found: Vec<Sighting> = Vec::new();
    let mut index: usize = 0;
    assert(found.deep_view() =~= Seq::<SightingView>::empty());
    while index < records.len()
        invariant
            index <= records@.len(),
            all == records.deep_view(),
            found.deep_view() == sightings(all.take(index as int)),
        decreases records@.len() - index,
    {
        assert(all.take(index + 1).drop_last() == all.take(index as int));
        assert(all.take(index + 1).last() == records@[index as int].deep_view());
        if let Some(sighting) = see(&records[index]) {
            let ghost known = found.deep_view();
            let ghost added = sighting.deep_view();
            found.push(sighting);
            assert(found.deep_view() =~= known.push(added));
        }
        index += 1;
    }
    assert(all.take(index as int) == all);
    found
}

/// Whether numbers are in ascending order, none twice.
pub open spec fn is_ascending(numbers: Seq<usize>) -> bool {
    forall|first: int, second: int|
        0 <= first < second < numbers.len() ==> (#[trigger] numbers[first]) < (
        #[trigger] numbers[second])
}

/// Whether no number comes before a smaller one.
pub open spec fn is_sorted(numbers: Seq<usize>) -> bool {
    forall|first: int, second: int|
        0 <= first < second < numbers.len() ==> (#[trigger] numbers[first]) <= (
        #[trigger] numbers[second])
}

/// Coverage of the page range advertised by archived `WordPress` comments records.
#[derive(Clone, Debug, Eq, PartialEq)]
pub struct CommentCompleteness {
    /// Greatest valid `X-WP-TotalPages` value on a qualifying record, when any was found.
    pub total_pages: Option<usize>,
    /// Valid advertised totals in encounter order, retaining each transition but not repetitions.
    pub advertised_page_totals: Vec<usize>,
    /// Distinct page numbers with a qualifying response, in ascending order.
    pub captured_pages: Vec<usize>,
}

/// The parts of a [`CommentCompleteness`].
#[verifier::ext_equal]
pub struct CompletenessView {
    pub total_pages: Option<usize>,
    pub advertised_page_totals: Seq<usize>,
    pub captured_pages: Seq<usize>,
}

impl DeepView for CommentCompleteness {
    type V = CompletenessView;

    open spec fn deep_view(&self) -> CompletenessView {
        CompletenessView {
            total_pages: self.total_pages,
            advertised_page_totals: self.advertised_page_totals@,
            captured_pages: self.captured_pages@,
        }
    }
}

/// Whether a page is among those from the first through an advertised total, and not captured.
pub open spec fn is_missing(captured: Seq<usize>, total: usize, page: usize) -> bool {
    1 <= page <= total && !captured.contains(page)
}

/// The pages from the first through `total` that were not captured, in ascending order.
pub open spec fn missing_through(captured: Seq<usize>, total: nat) -> Seq<usize>
    decreases total,
{
    if total == 0 {
        Seq::empty()
    } else {
        let earlier = missing_through(captured, (total - 1) as nat);
        if captured.contains(total as usize) {
            earlier
        } else {
            earlier.push(total as usize)
        }
    }
}

/// The first `limit` of some numbers, or all where there are no more.
pub open spec fn first_of(numbers: Seq<usize>, limit: int) -> Seq<usize> {
    if limit < numbers.len() {
        numbers.take(limit)
    } else {
        numbers
    }
}

proof fn lemma_missing_is_prefix(captured: Seq<usize>, page: nat, total: nat)
    requires
        page <= total,
    ensures
        missing_through(captured, page).is_prefix_of(missing_through(captured, total)),
    decreases total - page,
{
    if page < total {
        lemma_missing_is_prefix(captured, page, (total - 1) as nat);
    }
}

/// The missing pages are exactly those that were not captured, in ascending order.
pub proof fn missing_pages_are_those_not_captured(captured: Seq<usize>, total: usize)
    ensures
        is_ascending(missing_through(captured, total as nat)),
        forall|page: usize| #[trigger]
            missing_through(captured, total as nat).contains(page) <==> is_missing(
                captured,
                total,
                page,
            ),
        missing_through(captured, total as nat).len() <= total,
    decreases total,
{
    let missing = missing_through(captured, total as nat);
    if total > 0 {
        let before = (total - 1) as usize;
        missing_pages_are_those_not_captured(captured, before);
        let earlier = missing_through(captured, before as nat);
        assert forall|page: usize| #[trigger] missing.contains(page) <==> is_missing(
            captured,
            total,
            page,
        ) by {
            assert(earlier.contains(page) <==> is_missing(captured, before, page));
            if !captured.contains(total) {
                assert(missing == earlier.push(total));
                if missing.contains(page) && page != total {
                    let at = missing.index_of(page);
                    assert(earlier[at] == page);
                }
                if earlier.contains(page) {
                    let at = earlier.index_of(page);
                    assert(missing[at] == page);
                }
                assert(missing[missing.len() - 1] == total);
            }
        }
        assert forall|first: int, second: int|
            0 <= first < second < missing.len() implies (#[trigger] missing[first]) < (
        #[trigger] missing[second]) by {
            if second == earlier.len() {
                assert(earlier.contains(earlier[first]));
            }
        }
    }
}

impl CompletenessView {
    /// Whether the captured pages are page numbers in ascending order.
    pub open spec fn is_valid(self) -> bool {
        is_ascending(self.captured_pages) && forall|index: int|
            0 <= index < self.captured_pages.len() ==> (#[trigger] self.captured_pages[index]) >= 1
    }

    /// Whether every page from one through the advertised total was captured.
    pub open spec fn is_complete(self) -> bool {
        match self.total_pages {
            Some(total) => forall|page: usize|
                1 <= page <= total ==> #[trigger] self.captured_pages.contains(page),
            None => false,
        }
    }

    /// Whether two successive advertised totals differ.
    pub open spec fn has_changed(self) -> bool {
        exists|index: int|
            0 < index < self.advertised_page_totals.len() && self.advertised_page_totals[index - 1]
                != #[trigger] self.advertised_page_totals[index]
    }

    /// The pages in the advertised range that were not captured.
    pub open spec fn missing_pages(self) -> Seq<usize> {
        match self.total_pages {
            Some(total) => missing_through(self.captured_pages, total as nat),
            None => Seq::empty(),
        }
    }

    /// How many of the pages that a total allows were captured.
    pub open spec fn captured_through(self, total: usize) -> nat {
        count_through(self.captured_pages, total)
    }
}

/// How many of ascending numbers are no greater than a limit.
pub open spec fn count_through(numbers: Seq<usize>, limit: usize) -> nat
    decreases numbers.len(),
{
    if numbers.len() == 0 {
        0
    } else if numbers.last() <= limit {
        numbers.len()
    } else {
        count_through(numbers.drop_last(), limit)
    }
}

proof fn lemma_count_through(numbers: Seq<usize>, limit: usize)
    requires
        is_ascending(numbers),
    ensures
        count_through(numbers, limit) <= numbers.len(),
        forall|index: int|
            0 <= index < numbers.len() ==> ((#[trigger] numbers[index]) <= limit <==> index
                < count_through(numbers, limit)),
    decreases numbers.len(),
{
    if numbers.len() > 0 && numbers.last() > limit {
        let earlier = numbers.drop_last();
        lemma_count_through(earlier, limit);
        assert forall|index: int| 0 <= index < numbers.len() implies ((#[trigger] numbers[index])
            <= limit <==> index < count_through(numbers, limit)) by {
            if index < earlier.len() {
                assert(earlier[index] == numbers[index]);
            }
        }
    }
}

/// Captured pages and missing pages make up the advertised range.
proof fn lemma_missing_count(captured: Seq<usize>, total: usize)
    requires
        is_ascending(captured),
        forall|index: int| 0 <= index < captured.len() ==> (#[trigger] captured[index]) >= 1,
    ensures
        missing_through(captured, total as nat).len() + count_through(captured, total) == total,
    decreases total,
{
    lemma_count_through(captured, total);
    if total == 0 {
        if count_through(captured, total) > 0 {
            assert(captured[0] <= total);
        }
    } else {
        let before = (total - 1) as usize;
        lemma_missing_count(captured, before);
        lemma_count_through(captured, before);
        let count = count_through(captured, before) as int;
        let larger = count_through(captured, total) as int;
        if captured.contains(total) {
            let at = captured.index_of(total);
            assert(captured[at] == total);
            assert(at < larger);
            assert(!(at < count));
            if count < at {
                assert(captured[count] < captured[at]);
            }
            if at + 1 < larger {
                assert(captured[at] < captured[at + 1]);
                assert(captured[at + 1] <= total);
            }
            assert(larger == count + 1);
        } else {
            if count < larger {
                assert(captured[count] <= total);
                assert(captured[count] == total);
                assert(captured.contains(total));
            }
            if larger < count {
                assert(captured[larger] <= before);
            }
        }
    }
}

/// An archive is complete exactly when a page total was advertised and no page is missing, and
/// otherwise its missing pages are as many as those not captured.
pub proof fn completeness_is_having_no_missing_pages(coverage: CompletenessView)
    requires
        coverage.is_valid(),
    ensures
        coverage.is_complete() <==> (coverage.total_pages is Some
            && coverage.missing_pages().len() == 0),
        coverage.total_pages matches Some(total) ==> coverage.missing_pages().len() == total
            - coverage.captured_through(total),
{
    if let Some(total) = coverage.total_pages {
        lemma_missing_count(coverage.captured_pages, total);
        missing_pages_are_those_not_captured(coverage.captured_pages, total);
        let missing = coverage.missing_pages();
        if missing.len() > 0 {
            assert(missing.contains(missing[0]));
            assert(is_missing(coverage.captured_pages, total, missing[0]));
        } else {
            assert forall|page: usize| 1 <= page <= total implies #[trigger]
                coverage.captured_pages.contains(page) by {
                assert(!missing.contains(page));
                assert(!is_missing(coverage.captured_pages, total, page));
            }
        }
    }
}

fn count_captured(pages: &Vec<usize>, total: usize) -> (count: usize)
    ensures
        count == count_through(pages@, total),
{
    let mut count: usize = pages.len();
    assert(pages@.take(count as int) == pages@);
    while count > 0 && pages[count - 1] > total
        invariant
            count <= pages@.len(),
            count_through(pages@, total) == count_through(pages@.take(count as int), total),
        decreases count,
    {
        assert(pages@.take(count as int).drop_last() == pages@.take(count - 1));
        count -= 1;
    }
    count
}

/// The first index at or after `start` whose number is no smaller than a limit.
fn skip_smaller(numbers: &Vec<usize>, start: usize, limit: usize) -> (next: usize)
    requires
        start <= numbers@.len(),
    ensures
        start <= next <= numbers@.len(),
        forall|index: int| start <= index < next ==> (#[trigger] numbers@[index]) < limit,
        next < numbers@.len() ==> numbers@[next as int] >= limit,
{
    let mut next: usize = start;
    while next < numbers.len() && numbers[next] < limit
        invariant
            start <= next <= numbers@.len(),
            forall|index: int| start <= index < next ==> (#[trigger] numbers@[index]) < limit,
        decreases numbers@.len() - next,
    {
        next += 1;
    }
    next
}

impl CommentCompleteness {
    /// No coverage at all.
    pub fn none() -> (coverage: Self)
        ensures
            coverage.deep_view() == (CompletenessView {
                total_pages: None,
                advertised_page_totals: Seq::empty(),
                captured_pages: Seq::empty(),
            }),
    {
        CommentCompleteness {
            total_pages: None,
            advertised_page_totals: Vec::new(),
            captured_pages: Vec::new(),
        }
    }

    /// Whether every page from one through [`total_pages`](Self::total_pages) was captured.
    ///
    /// An archive with no valid `X-WP-TotalPages` value is incomplete. A reported total of zero
    /// describes an empty range and is complete because the response carrying it was captured.
    #[must_use]
    pub fn is_complete(&self) -> (complete: bool)
        requires
            self.deep_view().is_valid(),
        ensures
            complete == self.deep_view().is_complete(),
    {
        proof {
            completeness_is_having_no_missing_pages(self.deep_view());
        }
        match self.missing_page_count() {
            Some(count) => count == 0,
            None => false,
        }
    }

    /// Whether `X-WP-TotalPages` changed between qualifying responses.
    #[must_use]
    pub fn advertised_total_changed(&self) -> (changed: bool)
        ensures
            changed == self.deep_view().has_changed(),
    {
        let mut index: usize = 1;
        while index < self.advertised_page_totals.len()
            invariant
                1 <= index,
                forall|earlier: int|
                    0 < earlier < index && earlier < self.advertised_page_totals@.len()
                        ==> self.advertised_page_totals@[earlier - 1]
                        == #[trigger] self.advertised_page_totals@[earlier],
            decreases self.advertised_page_totals@.len() - index,
        {
            if self.advertised_page_totals[index - 1] != self.advertised_page_totals[index] {
                assert(self.deep_view().advertised_page_totals[index - 1]
                    != self.deep_view().advertised_page_totals[index as int]);
                return true;
            }
            index += 1;
        }
        false
    }

    /// Page numbers in the advertised range for which no qualifying response was found, in
    /// ascending order.
    pub fn missing_pages(&self) -> (missing: Vec<usize>)
        requires
            is_sorted(self.captured_pages@),
        ensures
            missing@ == self.deep_view().missing_pages(),
    {
        let mut missing: Vec<usize> = Vec::new();
        let total: usize = match self.total_pages {
            Some(total) => total,
            None => {
                return missing;
            },
        };
        let captured = &self.captured_pages;
        let mut page: usize = 0;
        let mut next: usize = 0;
        while page < total
            invariant
                page <= total,
                next <= captured@.len(),
                is_sorted(captured@),
                forall|index: int| 0 <= index < next ==> (#[trigger] captured@[index]) <= page,
                missing@ == missing_through(captured@, page as nat),
            decreases total - page,
        {
            page += 1;
            next = skip_smaller(captured, next, page);
            if next < captured.len() && captured[next] == page {
                assert(captured@[next as int] == page);
                next += 1;
            } else {
                assert(!captured@.contains(page)) by {
                    if captured@.contains(page) {
                        let at = captured@.index_of(page);
                        assert(captured@[at] == page);
                        if next < at {
                            assert(captured@[next as int] <= captured@[at]);
                        }
                    }
                }
                missing.push(page);
            }
        }
        missing
    }

    /// The first `limit` of the [`missing_pages`](Self::missing_pages).
    pub fn first_missing_pages(&self, limit: usize) -> (missing: Vec<usize>)
        requires
            is_sorted(self.captured_pages@),
        ensures
            missing@ == first_of(self.deep_view().missing_pages(), limit as int),
    {
        let mut missing: Vec<usize> = Vec::new();
        let total: usize = match self.total_pages {
            Some(total) => total,
            None => {
                assert(first_of(Seq::<usize>::empty(), limit as int) =~= Seq::empty());
                return missing;
            },
        };
        let captured = &self.captured_pages;
        let mut page: usize = 0;
        let mut next: usize = 0;
        while page < total && missing.len() < limit
            invariant
                page <= total,
                next <= captured@.len(),
                is_sorted(captured@),
                forall|index: int| 0 <= index < next ==> (#[trigger] captured@[index]) <= page,
                missing@ == missing_through(captured@, page as nat),
                missing@.len() <= limit,
            decreases total - page,
        {
            page += 1;
            next = skip_smaller(captured, next, page);
            if next < captured.len() && captured[next] == page {
                assert(captured@[next as int] == page);
                next += 1;
            } else {
                assert(!captured@.contains(page)) by {
                    if captured@.contains(page) {
                        let at = captured@.index_of(page);
                        assert(captured@[at] == page);
                        if next < at {
                            assert(captured@[next as int] <= captured@[at]);
                        }
                    }
                }
                missing.push(page);
            }
        }
        proof {
            lemma_missing_is_prefix(captured@, page as nat, total as nat);
            let all = missing_through(captured@, total as nat);
            assert(missing@ == all.take(missing@.len() as int));
            assert(missing@ =~= first_of(all, limit as int));
        }
        missing
    }

    /// Number of pages in the advertised range without a qualifying response.
    #[must_use]
    pub fn missing_page_count(&self) -> (count: Option<usize>)
        requires
            self.deep_view().is_valid(),
        ensures
            match count {
                Some(count) => self.total_pages is Some && count
                    == self.deep_view().missing_pages().len(),
                None => self.total_pages is None,
            },
    {
        match self.total_pages {
            Some(total) => {
                proof {
                    lemma_missing_count(self.captured_pages@, total);
                }
                Some(total - count_captured(&self.captured_pages, total))
            },
            None => None,
        }
    }
}

/// Page coverage for one archived `WordPress` comments endpoint.
#[derive(Clone, Debug, Eq, PartialEq)]
pub struct CommentCollectionCompleteness {
    /// Comments endpoint shared by the records in [`coverage`](Self::coverage), without a query.
    pub endpoint: String,
    /// Coverage computed only from records targeting [`endpoint`](Self::endpoint).
    pub coverage: CommentCompleteness,
}

/// The parts of a [`CommentCollectionCompleteness`].
#[verifier::ext_equal]
pub struct CoverageView {
    pub endpoint: Seq<char>,
    pub coverage: CompletenessView,
}

impl DeepView for CommentCollectionCompleteness {
    type V = CoverageView;

    open spec fn deep_view(&self) -> CoverageView {
        CoverageView { endpoint: self.endpoint@, coverage: self.coverage.deep_view() }
    }
}

/// The page totals that captures of an endpoint advertised, in order.
pub open spec fn totals(seen: Seq<SightingView>, endpoint: Seq<char>) -> Seq<usize>
    decreases seen.len(),
{
    if seen.len() == 0 {
        Seq::empty()
    } else {
        let earlier = totals(seen.drop_last(), endpoint);
        match seen.last().total {
            Some(total) => if seen.last().endpoint == endpoint {
                earlier.push(total)
            } else {
                earlier
            },
            None => earlier,
        }
    }
}

/// Whether a page of an endpoint was captured.
pub open spec fn is_captured(seen: Seq<SightingView>, endpoint: Seq<char>, page: usize) -> bool {
    exists|index: int|
        0 <= index < seen.len() && (#[trigger] seen[index]).endpoint == endpoint
            && seen[index].page == Some(page)
}

/// The greatest of some numbers.
pub open spec fn greatest(numbers: Seq<usize>) -> Option<usize>
    decreases numbers.len(),
{
    if numbers.len() == 0 {
        None
    } else {
        match greatest(numbers.drop_last()) {
            Some(number) => if number < numbers.last() {
                Some(numbers.last())
            } else {
                Some(number)
            },
            None => Some(numbers.last()),
        }
    }
}

/// Numbers without those that repeat the one before.
pub open spec fn transitions(numbers: Seq<usize>) -> Seq<usize>
    decreases numbers.len(),
{
    if numbers.len() == 0 {
        Seq::empty()
    } else {
        let earlier = transitions(numbers.drop_last());
        if earlier.len() > 0 && earlier.last() == numbers.last() {
            earlier
        } else {
            earlier.push(numbers.last())
        }
    }
}

/// Whether a coverage is that of one endpoint among what was seen.
pub open spec fn is_coverage_of(
    coverage: CompletenessView,
    seen: Seq<SightingView>,
    endpoint: Seq<char>,
) -> bool {
    &&& coverage.total_pages == greatest(totals(seen, endpoint))
    &&& coverage.advertised_page_totals == transitions(totals(seen, endpoint))
    &&& is_ascending(coverage.captured_pages)
    &&& forall|page: usize| #[trigger]
        coverage.captured_pages.contains(page) <==> is_captured(seen, endpoint, page)
}

/// The endpoints that were seen.
pub open spec fn endpoints(seen: Seq<SightingView>) -> Set<Seq<char>> {
    seen.map_values(|sighting: SightingView| sighting.endpoint).to_set()
}

/// Whether coverages are those of all endpoints that were seen, in the order of domain names.
pub open spec fn are_coverages_of(coverages: Seq<CoverageView>, seen: Seq<SightingView>) -> bool {
    let named = coverages.map_values(|coverage: CoverageView| coverage.endpoint);
    &&& are_in_domain_order(named)
    &&& named.to_set() == endpoints(seen)
    &&& forall|index: int|
        0 <= index < coverages.len() ==> is_coverage_of(
            (#[trigger] coverages[index]).coverage,
            seen,
            coverages[index].endpoint,
        )
}

/// Adds a number to ascending ones, unless it is among them.
fn insert_ascending(numbers: &mut Vec<usize>, number: usize)
    requires
        is_ascending(old(numbers)@),
    ensures
        is_ascending(final(numbers)@),
        forall|other: usize| #[trigger]
            final(numbers)@.contains(other) <==> other == number || old(numbers)@.contains(other),
{
    let ghost all = numbers@;
    let mut index: usize = numbers.len();
    while index > 0 && numbers[index - 1] > number
        invariant
            index <= numbers@.len(),
            all == numbers@,
            all == old(numbers)@,
            forall|later: int|
                index <= later < numbers@.len() ==> (#[trigger] numbers@[later]) > number,
        decreases index,
    {
        index -= 1;
    }
    if index > 0 && numbers[index - 1] == number {
        assert(numbers@[index - 1] == number);
        return ;
    }
    numbers.insert(index, number);
    proof {
        let grown = numbers@;
        assert(grown == all.insert(index as int, number));
        assert forall|other: usize| #[trigger]
            grown.contains(other) <==> other == number || all.contains(other) by {
            if all.contains(other) {
                let at = all.index_of(other);
                if at < index {
                    assert(grown[at] == other);
                } else {
                    assert(grown[at + 1] == other);
                }
            }
            assert(grown[index as int] == number);
            if grown.contains(other) {
                let at = grown.index_of(other);
                if at < index {
                    assert(all[at] == other);
                } else if at > index {
                    assert(all[at - 1] == other);
                }
            }
        }
        assert forall|first: int, second: int|
            0 <= first < second < grown.len() implies (#[trigger] grown[first]) < (
        #[trigger] grown[second]) by {
            if first < index && index <= second {
                assert(all[first] <= all[index - 1]);
                assert(all[index - 1] < number);
            }
        }
    }
}

/// The coverage of one endpoint among what was seen.
fn cover(seen: &Vec<Sighting>, endpoint: &str) -> (coverage: CommentCompleteness)
    ensures
        is_coverage_of(coverage.deep_view(), seen.deep_view(), endpoint@),
{
    let ghost all = seen.deep_view();
    let mut total_pages: Option<usize> = None;
    let mut advertised: Vec<usize> = Vec::new();
    let mut captured: Vec<usize> = Vec::new();
    let mut index: usize = 0;
    while index < seen.len()
        invariant
            index <= seen@.len(),
            all == seen.deep_view(),
            total_pages == greatest(totals(all.take(index as int), endpoint@)),
            advertised@ == transitions(totals(all.take(index as int), endpoint@)),
            is_ascending(captured@),
            forall|page: usize| #[trigger]
                captured@.contains(page) <==> is_captured(all.take(index as int), endpoint@, page),
        decreases seen@.len() - index,
    {
        let ghost earlier = all.take(index as int);
        let ghost later = all.take(index + 1);
        let ghost known = captured@;
        let sighting = &seen[index];
        assert(later.drop_last() == earlier);
        assert(later.last() == sighting.deep_view());
        if text::same(sighting.endpoint.as_str(), endpoint) {
            if let Some(page) = sighting.page {
                insert_ascending(&mut captured, page);
            }
            if let Some(total) = sighting.total {
                let ghost numbers = totals(earlier, endpoint@);
                assert(totals(later, endpoint@).drop_last() == numbers);
                if advertised.len() == 0 || advertised[advertised.len() - 1] != total {
                    advertised.push(total);
                }
                total_pages = match total_pages {
                    Some(previous) => if previous < total {
                        Some(total)
                    } else {
                        Some(previous)
                    },
                    None => Some(total),
                };
            }
        }
        assert forall|page: usize| #[trigger]
            captured@.contains(page) <==> is_captured(later, endpoint@, page) by {
            assert(known.contains(page) <==> is_captured(earlier, endpoint@, page));
            if is_captured(earlier, endpoint@, page) {
                let at = choose|at: int|
                    0 <= at < earlier.len() && (#[trigger] earlier[at]).endpoint == endpoint@
                        && earlier[at].page == Some(page);
                assert(later[at] == earlier[at]);
            }
            if is_captured(later, endpoint@, page) {
                let at = choose|at: int|
                    0 <= at < later.len() && (#[trigger] later[at]).endpoint == endpoint@
                        && later[at].page == Some(page);
                if at < earlier.len() {
                    assert(earlier[at] == later[at]);
                }
            }
            if later.last().endpoint == endpoint@ && later.last().page == Some(page) {
                assert(later[later.len() - 1].endpoint == endpoint@);
            }
        }
        index += 1;
    }
    assert(all.take(index as int) == all);
    CommentCompleteness {
        total_pages,
        advertised_page_totals: advertised,
        captured_pages: captured,
    }
}

/// The endpoints that were seen, in the order of domain names.
fn order_endpoints(seen: &Vec<Sighting>) -> (ordered: Vec<String>)
    ensures
        are_in_domain_order(ordered.deep_view()),
        ordered.deep_view().to_set() == endpoints(seen.deep_view()),
{
    let ghost all = seen.deep_view();
    let ghost named = all.map_values(|sighting: SightingView| sighting.endpoint);
    let mut ordered: Vec<String> = Vec::new();
    let mut index: usize = 0;
    assert(ordered.deep_view().to_set() =~= named.take(0).to_set());
    while index < seen.len()
        invariant
            index <= seen@.len(),
            all == seen.deep_view(),
            named == all.map_values(|sighting: SightingView| sighting.endpoint),
            are_in_domain_order(ordered.deep_view()),
            ordered.deep_view().to_set() == named.take(index as int).to_set(),
        decreases seen@.len() - index,
    {
        assert(named[index as int] == seen@[index as int].endpoint@);
        insert_in_domain_order(&mut ordered, seen[index].endpoint.as_str());
        index += 1;
        proof {
            let earlier = named.take(index - 1);
            let later = named.take(index as int);
            assert(later == earlier.push(named[index - 1]));
            lemma_pushed_set(earlier, named[index - 1]);
        }
    }
    assert(named.take(index as int) == named);
    ordered
}

pub proof fn lemma_pushed_set(texts: Seq<Seq<char>>, added: Seq<char>)
    ensures
        texts.push(added).to_set() == texts.to_set().insert(added),
{
    let grown = texts.push(added);
    assert forall|known: Seq<char>| grown.contains(known) <==> texts.contains(known) || known
        == added by {
        if texts.contains(known) {
            assert(grown[texts.index_of(known)] == known);
        }
        assert(grown[texts.len() as int] == added);
        if grown.contains(known) && known != added {
            assert(texts[grown.index_of(known)] == known);
        }
    }
    assert(grown.to_set() =~= texts.to_set().insert(added));
}

/// The coverages of all endpoints that were seen, in the order of domain names.
pub fn cover_endpoints(seen: &Vec<Sighting>) -> (coverages: Vec<CommentCollectionCompleteness>)
    ensures
        are_coverages_of(coverages.deep_view(), seen.deep_view()),
{
    let ghost all = seen.deep_view();
    let ordered = order_endpoints(seen);
    let mut coverages: Vec<CommentCollectionCompleteness> = Vec::new();
    let mut index: usize = 0;
    let ghost names = |coverage: CoverageView| coverage.endpoint;
    assert(coverages.deep_view().map_values(names) =~= ordered.deep_view().take(0));
    while index < ordered.len()
        invariant
            index <= ordered@.len(),
            all == seen.deep_view(),
            names == (|coverage: CoverageView| coverage.endpoint),
            coverages.deep_view().map_values(names) == ordered.deep_view().take(index as int),
            forall|at: int|
                0 <= at < coverages@.len() ==> is_coverage_of(
                    (#[trigger] coverages.deep_view()[at]).coverage,
                    all,
                    coverages.deep_view()[at].endpoint,
                ),
        decreases ordered@.len() - index,
    {
        let ghost known = coverages.deep_view();
        let coverage = CommentCollectionCompleteness {
            endpoint: ordered[index].clone(),
            coverage: cover(seen, ordered[index].as_str()),
        };
        let ghost added = coverage.deep_view();
        coverages.push(coverage);
        assert(coverages.deep_view() =~= known.push(added));
        index += 1;
        assert(ordered.deep_view().take(index as int) =~= ordered.deep_view().take(index - 1).push(
            ordered.deep_view()[index - 1],
        ));
        assert(coverages.deep_view().map_values(names) =~= known.map_values(names).push(
            added.endpoint,
        ));
    }
    assert(ordered.deep_view().take(index as int) =~= ordered.deep_view());
    coverages
}

/// Check page coverage independently for every comments endpoint in an archive.
///
/// Collections are returned in domain-name order. Records for one site can never supply page
/// coverage or advertised totals for another, which makes this suitable for archives written by a
/// directory-based `update-comments` run. An archive without a qualifying capture returns an empty
/// vector.
pub fn check_comment_collections(records: &Vec<Record>) -> (coverages: Vec<
    CommentCollectionCompleteness,
>)
    ensures
        are_coverages_of(coverages.deep_view(), sightings(records.deep_view())),
        forall|index: int|
            0 <= index < coverages@.len() ==> (
            #[trigger] coverages.deep_view()[index]).coverage.is_valid(),
{
    let coverages = cover_endpoints(&collect_sightings(records));
    proof {
        lemma_coverages_are_valid(records.deep_view(), coverages.deep_view());
    }
    coverages
}

/// What is seen of one endpoint bears on that endpoint's coverage alone.
pub proof fn one_endpoint_never_covers_another(
    coverage: CompletenessView,
    seen: Seq<SightingView>,
    other: SightingView,
    endpoint: Seq<char>,
)
    requires
        other.endpoint != endpoint,
    ensures
        is_coverage_of(coverage, seen.push(other), endpoint) <==> is_coverage_of(
            coverage,
            seen,
            endpoint,
        ),
{
    let grown = seen.push(other);
    assert(grown.drop_last() == seen);
    assert forall|page: usize| is_captured(grown, endpoint, page) <==> #[trigger] is_captured(
        seen,
        endpoint,
        page,
    ) by {
        if is_captured(seen, endpoint, page) {
            let at = choose|at: int|
                0 <= at < seen.len() && (#[trigger] seen[at]).endpoint == endpoint && seen[at].page
                    == Some(page);
            assert(grown[at] == seen[at]);
        }
        if is_captured(grown, endpoint, page) {
            let at = choose|at: int|
                0 <= at < grown.len() && (#[trigger] grown[at]).endpoint == endpoint
                    && grown[at].page == Some(page);
            assert(seen[at] == grown[at]);
        }
    }
    assert forall|page: usize| is_captured(seen, endpoint, page) <==> #[trigger] is_captured(
        grown,
        endpoint,
        page,
    ) by {
        assert(is_captured(grown, endpoint, page) <==> is_captured(seen, endpoint, page));
    }
}

/// The captured pages of an archive's coverages are page numbers.
proof fn lemma_coverages_are_valid(records: Seq<RecordView>, coverages: Seq<CoverageView>)
    requires
        are_coverages_of(coverages, sightings(records)),
    ensures
        forall|index: int|
            0 <= index < coverages.len() ==> (#[trigger] coverages[index]).coverage.is_valid(),
{
    assert forall|index: int| 0 <= index < coverages.len() implies (
    #[trigger] coverages[index]).coverage.is_valid() by {
        let captured = coverages[index].coverage.captured_pages;
        assert forall|at: int| 0 <= at < captured.len() implies (#[trigger] captured[at]) >= 1 by {
            assert(captured.contains(captured[at]));
            let endpoint = coverages[index].endpoint;
            assert(is_captured(sightings(records), endpoint, captured[at]));
            let place = choose|place: int|
                0 <= place < sightings(records).len() && (
                #[trigger] sightings(records)[place]).endpoint == endpoint && sightings(
                    records,
                )[place].page == Some(captured[at]);
            lemma_sighted_pages(records, place);
        }
    }
}

proof fn lemma_sighted_pages(records: Seq<RecordView>, index: int)
    requires
        0 <= index < sightings(records).len(),
    ensures
        sightings(records)[index].page matches Some(page) ==> page >= 1,
    decreases records.len(),
{
    if records.len() > 0 {
        let earlier = sightings(records.drop_last());
        if index < earlier.len() {
            lemma_sighted_pages(records.drop_last(), index);
        }
    }
}

/// An error produced while reading archived `WordPress` comments.
#[derive(Debug, Eq, PartialEq)]
pub enum Error {
    /// A successful comments response does not contain a valid HTTP message.
    InvalidResponse {
        /// The captured comments URL.
        url: String,
    },
    /// A successful comments response's HTTP entity body could not be extracted.
    Payload {
        /// The captured comments URL.
        url: String,
        /// The payload extraction failure.
        source: String,
    },
    /// A successful comments response is not a JSON array.
    Json {
        /// The captured comments URL.
        url: String,
        /// The JSON parsing failure.
        source: String,
    },
    /// A value in a comments response is not an object with an unsigned integer `id`.
    MissingId {
        /// The captured comments URL.
        url: String,
    },
    /// No archived capture identifies the `WordPress` installation to update.
    MissingUpdateUrl,
    /// No comment datetime or request `before` cutoff can anchor an update.
    MissingUpdateDatetime,
    /// A caller requiring one collection was given an archive containing several.
    MultipleCommentCollections(usize),
}

/// An [`Error`], over views.
#[verifier::ext_equal]
pub enum ErrorView {
    InvalidResponse(Seq<char>),
    Payload { url: Seq<char>, source: Seq<char> },
    Json { url: Seq<char>, source: Seq<char> },
    MissingId(Seq<char>),
    MissingUpdateUrl,
    MissingUpdateDatetime,
    MultipleCommentCollections(usize),
}

impl DeepView for Error {
    type V = ErrorView;

    open spec fn deep_view(&self) -> ErrorView {
        match self {
            Error::InvalidResponse { url } => ErrorView::InvalidResponse(url@),
            Error::Payload { url, source } => ErrorView::Payload { url: url@, source: source@ },
            Error::Json { url, source } => ErrorView::Json { url: url@, source: source@ },
            Error::MissingId { url } => ErrorView::MissingId(url@),
            Error::MissingUpdateUrl => ErrorView::MissingUpdateUrl,
            Error::MissingUpdateDatetime => ErrorView::MissingUpdateDatetime,
            Error::MultipleCommentCollections(count) => ErrorView::MultipleCommentCollections(
                *count,
            ),
        }
    }
}

impl ErrorView {
    /// The error in words.
    pub open spec fn message(self) -> Seq<char> {
        match self {
            ErrorView::InvalidResponse(url) => "invalid HTTP response for "@ + url,
            ErrorView::Payload { url, .. } => "invalid HTTP response payload for "@ + url,
            ErrorView::Json { url, .. } => "invalid WordPress comments JSON for "@ + url,
            ErrorView::MissingId(url) => "WordPress comment in "@ + url
                + " has no unsigned integer id"@,
            ErrorView::MissingUpdateUrl => "comments WARC has no WordPress comments capture URL"@,
            ErrorView::MissingUpdateDatetime =>
                "comments WARC has no valid comment datetime or before cutoff"@,
            ErrorView::MultipleCommentCollections(count) => "comments WARC contains "@
                + text::decimal(count as nat)
                + " WordPress comments endpoints; exactly one is required"@,
        }
    }
}

impl Error {
    /// Whether the error is about a response, rather than about the archive as a whole. Such an
    /// error is reported before a later record that cannot be read.
    pub fn is_about_a_response(&self) -> (about: bool)
        ensures
            about == (self is InvalidResponse || self is Payload || self is Json
                || self is MissingId),
    {
        match self {
            Error::InvalidResponse { .. } | Error::Payload { .. } | Error::Json { .. }
            | Error::MissingId { .. } => true,
            _ => false,
        }
    }

    /// The error in words.
    pub fn to_string(&self) -> (message: String)
        ensures
            message@ == self.deep_view().message(),
    {
        match self {
            Error::InvalidResponse { url } => text::joined(
                "invalid HTTP response for ",
                url.as_str(),
            ),
            Error::Payload { url, .. } => text::joined(
                "invalid HTTP response payload for ",
                url.as_str(),
            ),
            Error::Json { url, .. } => text::joined(
                "invalid WordPress comments JSON for ",
                url.as_str(),
            ),
            Error::MissingId { url } => text::joined(
                text::joined("WordPress comment in ", url.as_str()).as_str(),
                " has no unsigned integer id",
            ),
            Error::MissingUpdateUrl => "comments WARC has no WordPress comments capture URL".to_owned(),
            Error::MissingUpdateDatetime => {
                "comments WARC has no valid comment datetime or before cutoff".to_owned()
            },
            Error::MultipleCommentCollections(count) => text::joined(
                text::joined("comments WARC contains ", text::count_text(*count).as_str()).as_str(),
                " WordPress comments endpoints; exactly one is required",
            ),
        }
    }
}

/// Check coverage of the page range advertised by a comments archive.
///
/// A page is captured when a record targets the `WordPress` REST API v2 comments endpoint, holds an
/// HTTP 200 response, and has that page number in its target URI (or omits `page`, which means page
/// one). Both `response` and `revisit` records must additionally have
/// `WARC-Identified-Payload-Type` set to `application/json`. The greatest valid
/// `X-WP-TotalPages` value on a qualifying record determines the required range. Every transition
/// in that value is retained so callers can warn about pagination changes. Duplicate captures
/// satisfy the page only once. An archive without a valid advertised total is incomplete. This
/// single-collection convenience function rejects an archive containing several endpoints; use
/// [`check_comment_collections`] for a multi-site archive.
///
/// # Errors
///
/// Returns [`Error::MultipleCommentCollections`] when several endpoints were captured.
pub fn check_comment_completeness(records: &Vec<Record>) -> (coverage: Result<
    CommentCompleteness,
    Error,
>)
    ensures
        match coverage {
            Ok(coverage) => {
                let seen = sightings(records.deep_view());
                &&& coverage.deep_view().is_valid()
                &&& seen.len() == 0 ==> coverage.deep_view() == (CompletenessView {
                    total_pages: None,
                    advertised_page_totals: Seq::empty(),
                    captured_pages: Seq::empty(),
                })
                &&& seen.len() > 0 ==> endpoints(seen) == set![seen[0].endpoint] && is_coverage_of(
                    coverage.deep_view(),
                    seen,
                    seen[0].endpoint,
                )
            },
            Err(error) => endpoints(sightings(records.deep_view())).len() > 1 && error.deep_view()
                == ErrorView::MultipleCommentCollections(
                endpoints(sightings(records.deep_view())).len() as usize,
            ),
        },
{
    let mut collections = check_comment_collections(records);
    let ghost seen = sightings(records.deep_view());
    let ghost names = |coverage: CoverageView| coverage.endpoint;
    let ghost named = collections.deep_view().map_values(names);
    proof {
        lemma_ordered_set(named);
        assert forall|index: int| 0 <= index < seen.len() implies endpoints(seen).contains(
            (#[trigger] seen[index]).endpoint,
        ) by {
            assert(seen.map_values(|sighting: SightingView| sighting.endpoint)[index]
                == seen[index].endpoint);
        }
    }
    match collections.len() {
        0 => {
            proof {
                assert(named =~= Seq::empty());
                if seen.len() > 0 {
                    assert(endpoints(seen).contains(seen[0].endpoint));
                }
            }
            Ok(CommentCompleteness::none())
        },
        1 => {
            proof {
                assert(named.to_set().contains(named[0]));
                assert(collections.deep_view()[0] == collections@[0].deep_view());
                if seen.len() == 0 {
                    assert(!endpoints(seen).contains(named[0]));
                }
                assert(named.to_set().contains(seen[0].endpoint));
                assert(endpoints(seen) =~= set![seen[0].endpoint]);
            }
            Ok(collections.remove(0).coverage)
        },
        count => Err(Error::MultipleCommentCollections(count)),
    }
}

/// Addresses in domain order are as many as they are different.
proof fn lemma_ordered_set(urls: Seq<Seq<char>>)
    requires
        are_in_domain_order(urls),
    ensures
        urls.no_duplicates(),
        urls.to_set().len() == urls.len(),
{
    assert forall|first: int, second: int|
        0 <= first < urls.len() && 0 <= second < urls.len() && first != second implies urls[first]
        != urls[second] by {
        lemma_domain_order(urls[first], urls[first], urls[first]);
        if first < second {
            assert(comes_first(urls[first], urls[second]));
        } else {
            assert(comes_first(urls[second], urls[first]));
        }
    }
    urls.unique_seq_to_set();
}

/// Whether every value of a comments response is an object with an unsigned integer `id`.
pub open spec fn all_have_ids(documents: Seq<DocumentView>) -> bool {
    forall|index: int| 0 <= index < documents.len() ==> (#[trigger] documents[index]).id is Some
}

/// The comments of a response, or what is wrong with it. An unsuccessful response has none.
pub open spec fn batch(url: Seq<char>, message: MessageView) -> Result<
    Seq<DocumentView>,
    ErrorView,
> {
    match message.head {
        None => Err(ErrorView::InvalidResponse(url)),
        Some(head) => if !(200 <= head.status < 300) {
            Ok(Seq::empty())
        } else {
            match message.entity {
                Err(source) => Err(ErrorView::Payload { url, source }),
                Ok(payload) => match json::json_documents(payload.bytes) {
                    Err(source) => Err(ErrorView::Json { url, source }),
                    Ok(documents) => if all_have_ids(documents) {
                        Ok(documents)
                    } else {
                        Err(ErrorView::MissingId(url))
                    },
                },
            }
        },
    }
}

fn check_ids(documents: &Vec<Document>) -> (found: bool)
    ensures
        found == all_have_ids(documents.deep_view()),
{
    let ghost all = documents.deep_view();
    let mut index: usize = 0;
    while index < documents.len()
        invariant
            index <= documents@.len(),
            all == documents.deep_view(),
            forall|earlier: int| 0 <= earlier < index ==> (#[trigger] all[earlier]).id is Some,
        decreases documents@.len() - index,
    {
        assert(all[index as int] == documents@[index as int].deep_view());
        if documents[index].id.is_none() {
            return false;
        }
        index += 1;
    }
    true
}

/// The comments of a response, or what is wrong with it. An unsuccessful response has none.
fn read_batch(url: &str, message: &Message) -> (documents: Result<Vec<Document>, Error>)
    ensures
        match documents {
            Ok(documents) => batch(url@, message.deep_view()) == Ok::<Seq<DocumentView>, ErrorView>(
                documents.deep_view(),
            ) && all_have_ids(documents.deep_view()),
            Err(error) => batch(url@, message.deep_view()) == Err::<Seq<DocumentView>, ErrorView>(
                error.deep_view(),
            ),
        },
{
    let head = match &message.head {
        Some(head) => head,
        None => {
            return Err(Error::InvalidResponse { url: url.to_owned() });
        },
    };
    if head.status < 200 || head.status >= 300 {
        let none: Vec<Document> = Vec::new();
        assert(none.deep_view() =~= Seq::<DocumentView>::empty());
        return Ok(none);
    }
    let payload = match &message.entity {
        Ok(payload) => payload,
        Err(source) => {
            return Err(Error::Payload { url: url.to_owned(), source: source.clone() });
        },
    };
    match json::documents(&payload.bytes) {
        Ok(documents) => if check_ids(&documents) {
            Ok(documents)
        } else {
            Err(Error::MissingId { url: url.to_owned() })
        },
        Err(source) => Err(Error::Json { url: url.to_owned(), source }),
    }
}

/// The site and instant from which a subsequent comments capture should overlap.
#[derive(Clone, Debug, Eq, PartialEq)]
pub struct CommentUpdateAnchor {
    /// Base URL of the archived `WordPress` installation.
    pub base_url: String,
    /// Latest valid comment datetime, or the archived request cutoff when no comment has one.
    pub datetime: Timestamp,
    /// Whether [`datetime`](Self::datetime) came from a comment rather than a request cutoff.
    pub from_comment: bool,
}

/// The parts of a [`CommentUpdateAnchor`].
#[verifier::ext_equal]
pub struct AnchorView {
    pub base_url: Seq<char>,
    pub datetime: Moment,
    pub from_comment: bool,
}

impl DeepView for CommentUpdateAnchor {
    type V = AnchorView;

    open spec fn deep_view(&self) -> AnchorView {
        AnchorView {
            base_url: self.base_url@,
            datetime: self.datetime@,
            from_comment: self.from_comment,
        }
    }
}

/// What a capture of comments contributes to its site's next update.
#[derive(Debug)]
pub struct Contribution {
    /// The site's base URL.
    pub base_url: String,
    /// The cutoff of the request.
    pub before: Option<Timestamp>,
    /// The datetimes of the comments.
    pub dates: Vec<Timestamp>,
}

/// The parts of a [`Contribution`].
#[verifier::ext_equal]
pub struct ContributionView {
    pub base_url: Seq<char>,
    pub before: Option<Moment>,
    pub dates: Seq<Moment>,
}

impl DeepView for Contribution {
    type V = ContributionView;

    open spec fn deep_view(&self) -> ContributionView {
        ContributionView {
            base_url: self.base_url@,
            before: self.before.deep_view(),
            dates: self.dates.deep_view(),
        }
    }
}

/// The datetime of a request's only `before` value.
pub open spec fn request_cutoff(url: Seq<char>) -> Option<Moment> {
    match web::parsed_address(url) {
        Ok(address) => match query::only_value(address.pairs, "before"@) {
            Some(before) => clock::parsed_date(before),
            None => None,
        },
        Err(_) => None,
    }
}

/// The URL that a page of comments is requested by is recognized as the page's, with the window's
/// end to the second, where it is an address.
pub proof fn requested_comment_pages_are_recognized(driver: CommentDriverView, page: usize)
    requires
        driver.is_valid(),
        clock::reads_back(driver.before),
        driver.after matches Some(after) ==> clock::reads_back(after),
        page > 0,
        web::parsed_address(driver.page_url(page as nat)) is Ok,
        web::is_read(driver.page_url(page as nat)),
    ensures
        page_of(driver.page_url(page as nat)) == Some(page),
        request_cutoff(driver.page_url(page as nat)) == Some(
            Moment { seconds: driver.before.seconds, nanos: 0 },
        ),
{
    comments::a_comment_page_url_carries_its_query(driver, page as nat);
    text::lemma_count_text_parses_back(page);
    let pairs = comments::paging_pairs(driver.after, driver.before, page as nat);
    reveal_strlit("after");
    reveal_strlit("before");
    reveal_strlit("orderby");
    reveal_strlit("order");
    reveal_strlit("page");
    reveal_strlit("per_page");
    assert("after"@[0] == 'a' && "before"@[0] == 'b' && "orderby"@.len() == 7 && "order"@[0] == 'o'
        && "page"@.len() == 4 && "per_page"@.len() == 8);
    reveal_with_fuel(query::occurrences, 7);
    reveal_with_fuel(query::looked_up, 7);
    let count = pairs.len() as int;
    assert(pairs.drop_last() =~= pairs.take(count - 1));
    assert(pairs.take(count - 1).drop_last() =~= pairs.take(count - 2));
    assert(pairs.take(count - 2).drop_last() =~= pairs.take(count - 3));
    assert(pairs.take(count - 3).drop_last() =~= pairs.take(count - 4));
    assert(pairs.take(count - 4).drop_last() =~= pairs.take(count - 5));
    match driver.after {
        Some(_) => {
            assert(pairs.take(1).drop_last() =~= Seq::empty());
        },
        None => {
            assert(pairs.take(0) =~= Seq::empty());
        },
    }
}

/// The datetime of a request's only `before` value.
pub fn query_datetime(url: &str) -> (datetime: Option<Timestamp>)
    ensures
        datetime.deep_view() == request_cutoff(url@),
        web::is_read(url@),
{
    match web::parse(url) {
        Ok(address) => match query::one(&address.pairs, "before") {
            Some(before) => clock::parse_date(before.as_str()),
            None => None,
        },
        Err(_) => None,
    }
}

/// The valid datetimes of comments, in order.
pub open spec fn comment_dates(documents: Seq<DocumentView>) -> Seq<Moment>
    decreases documents.len(),
{
    if documents.len() == 0 {
        Seq::empty()
    } else {
        let earlier = comment_dates(documents.drop_last());
        match documents.last().date_gmt {
            Some(date) => match clock::parsed_date(date) {
                Some(moment) => earlier.push(moment),
                None => earlier,
            },
            None => earlier,
        }
    }
}

fn read_dates(documents: &Vec<Document>) -> (dates: Vec<Timestamp>)
    ensures
        dates.deep_view() == comment_dates(documents.deep_view()),
{
    let ghost all = documents.deep_view();
    let mut dates: Vec<Timestamp> = Vec::new();
    let mut index: usize = 0;
    assert(dates.deep_view() =~= Seq::<Moment>::empty());
    while index < documents.len()
        invariant
            index <= documents@.len(),
            all == documents.deep_view(),
            dates.deep_view() == comment_dates(all.take(index as int)),
        decreases documents@.len() - index,
    {
        assert(all.take(index + 1).drop_last() == all.take(index as int));
        assert(all.take(index + 1).last() == documents@[index as int].deep_view());
        if let Some(date) = &documents[index].date_gmt {
            if let Some(timestamp) = clock::parse_date(date.as_str()) {
                let ghost known = dates.deep_view();
                dates.push(timestamp);
                assert(dates.deep_view() =~= known.push(timestamp@));
            }
        }
        index += 1;
    }
    assert(all.take(index as int) == all);
    dates
}

/// What a record contributes to its site's next update: nothing, unless it is a response or revisit
/// of the comments endpoint. A revisit holds no comments of its own, and a URL whose path is too
/// long to be set names no site.
pub open spec fn contributed(record: RecordView) -> Result<Option<ContributionView>, ErrorView> {
    match record {
        RecordView::Response { url, message, .. } => match installation_of(url) {
            Some(base_url) => if targets_comments(url) && web::is_settable(url) {
                match batch(url, message) {
                    Ok(documents) => Ok(
                        Some(
                            ContributionView {
                                base_url,
                                before: request_cutoff(url),
                                dates: comment_dates(documents),
                            },
                        ),
                    ),
                    Err(error) => Err(error),
                }
            } else {
                Ok(None)
            },
            None => Ok(None),
        },
        RecordView::Revisit { url, .. } => match installation_of(url) {
            Some(base_url) => if targets_comments(url) && web::is_settable(url) {
                Ok(
                    Some(
                        ContributionView {
                            base_url,
                            before: request_cutoff(url),
                            dates: Seq::empty(),
                        },
                    ),
                )
            } else {
                Ok(None)
            },
            None => Ok(None),
        },
        _ => Ok(None),
    }
}

/// What the records of an archive contribute to their sites' next updates, or the first error.
pub open spec fn contributions(records: Seq<RecordView>) -> Result<Seq<ContributionView>, ErrorView>
    decreases records.len(),
{
    if records.len() == 0 {
        Ok(Seq::empty())
    } else {
        match contributions(records.drop_last()) {
            Err(error) => Err(error),
            Ok(earlier) => match contributed(records.last()) {
                Err(error) => Err(error),
                Ok(Some(contribution)) => Ok(earlier.push(contribution)),
                Ok(None) => Ok(earlier),
            },
        }
    }
}

fn contribute(record: &Record) -> (contribution: Result<Option<Contribution>, Error>)
    ensures
        match contribution {
            Ok(contribution) => contributed(record.deep_view()) == Ok::<
                Option<ContributionView>,
                ErrorView,
            >(contribution.deep_view()),
            Err(error) => contributed(record.deep_view()) == Err::<
                Option<ContributionView>,
                ErrorView,
            >(error.deep_view()),
        },
{
    let (url, message) = match record {
        Record::Response { url, message, .. } => (url, Some(message)),
        Record::Revisit { url, .. } => (url, None),
        _ => {
            return Ok(None);
        },
    };
    if !is_comment_endpoint(url.as_str()) || !web::can_be_set(url.as_str()) {
        return Ok(None);
    }
    let base_url = match comment_base_url(url.as_str()) {
        Some(base_url) => base_url,
        None => {
            return Ok(None);
        },
    };
    let before = query_datetime(url.as_str());
    let dates = match message {
        Some(message) => match read_batch(url.as_str(), message) {
            Ok(documents) => read_dates(&documents),
            Err(error) => {
                return Err(error);
            },
        },
        None => Vec::new(),
    };
    assert(message is None ==> dates.deep_view() =~= Seq::<Moment>::empty());
    Ok(Some(Contribution { base_url, before, dates }))
}

proof fn lemma_first_error_stays(records: Seq<RecordView>, count: int)
    requires
        0 <= count <= records.len(),
        contributions(records.take(count)) is Err,
    ensures
        contributions(records) == contributions(records.take(count)),
    decreases records.len(),
{
    if count == records.len() {
        assert(records.take(count) == records);
    } else {
        assert(records.drop_last().take(count) == records.take(count));
        lemma_first_error_stays(records.drop_last(), count);
    }
}

/// What the records of an archive contribute to their sites' next updates, or the first error.
fn collect_contributions(records: &Vec<Record>) -> (found: Result<Vec<Contribution>, Error>)
    ensures
        match found {
            Ok(found) => contributions(records.deep_view()) == Ok::<
                Seq<ContributionView>,
                ErrorView,
            >(found.deep_view()),
            Err(error) => contributions(records.deep_view()) == Err::<
                Seq<ContributionView>,
                ErrorView,
            >(error.deep_view()),
        },
{
    let ghost all = records.deep_view();
    let mut found: Vec<Contribution> = Vec::new();
    let mut index: usize = 0;
    assert(found.deep_view() =~= Seq::<ContributionView>::empty());
    while index < records.len()
        invariant
            index <= records@.len(),
            all == records.deep_view(),
            contributions(all.take(index as int)) == Ok::<Seq<ContributionView>, ErrorView>(
                found.deep_view(),
            ),
        decreases records@.len() - index,
    {
        assert(all.take(index + 1).drop_last() == all.take(index as int));
        assert(all.take(index + 1).last() == records@[index as int].deep_view());
        match contribute(&records[index]) {
            Err(error) => {
                proof {
                    lemma_first_error_stays(all, index + 1);
                }
                return Err(error);
            },
            Ok(Some(contribution)) => {
                let ghost known = found.deep_view();
                let ghost added = contribution.deep_view();
                found.push(contribution);
                assert(found.deep_view() =~= known.push(added));
            },
            Ok(None) => {},
        }
        index += 1;
    }
    assert(all.take(index as int) == all);
    Ok(found)
}

/// The latest of some points in time.
pub open spec fn latest(moments: Seq<Moment>) -> Option<Moment>
    decreases moments.len(),
{
    if moments.len() == 0 {
        None
    } else {
        match latest(moments.drop_last()) {
            Some(moment) => if moment.precedes(moments.last()) {
                Some(moments.last())
            } else {
                Some(moment)
            },
            None => Some(moments.last()),
        }
    }
}

/// The latest of some points in time is one of them, and precedes none.
pub proof fn the_latest_precedes_none(moments: Seq<Moment>)
    ensures
        match latest(moments) {
            Some(moment) => moments.contains(moment) && forall|index: int|
                0 <= index < moments.len() ==> !moment.precedes(#[trigger] moments[index]),
            None => moments.len() == 0,
        },
    decreases moments.len(),
{
    if moments.len() > 0 {
        let earlier = moments.drop_last();
        the_latest_precedes_none(earlier);
        assert(moments[moments.len() - 1] == moments.last());
        if let Some(moment) = latest(earlier) {
            let at = earlier.index_of(moment);
            assert(moments[at] == moment);
            assert forall|index: int| 0 <= index < moments.len() implies !latest(
                moments,
            )->0.precedes(#[trigger] moments[index]) by {
                if index < earlier.len() {
                    assert(earlier[index] == moments[index]);
                }
            }
        }
    }
}

/// The comment datetimes of one site, in order.
pub open spec fn site_dates(found: Seq<ContributionView>, base_url: Seq<char>) -> Seq<Moment>
    decreases found.len(),
{
    if found.len() == 0 {
        Seq::empty()
    } else if found.last().base_url == base_url {
        site_dates(found.drop_last(), base_url) + found.last().dates
    } else {
        site_dates(found.drop_last(), base_url)
    }
}

/// The request cutoffs of one site, in order.
pub open spec fn site_cutoffs(found: Seq<ContributionView>, base_url: Seq<char>) -> Seq<Moment>
    decreases found.len(),
{
    if found.len() == 0 {
        Seq::empty()
    } else {
        let earlier = site_cutoffs(found.drop_last(), base_url);
        match found.last().before {
            Some(before) => if found.last().base_url == base_url {
                earlier.push(before)
            } else {
                earlier
            },
            None => earlier,
        }
    }
}

/// The anchor of one site: its latest comment datetime, or else its latest request cutoff.
pub open spec fn anchored(found: Seq<ContributionView>, base_url: Seq<char>) -> Option<AnchorView> {
    match latest(site_dates(found, base_url)) {
        Some(datetime) => Some(AnchorView { base_url, datetime, from_comment: true }),
        None => match latest(site_cutoffs(found, base_url)) {
            Some(datetime) => Some(AnchorView { base_url, datetime, from_comment: false }),
            None => None,
        },
    }
}

/// The sites that an archive captured comments of.
pub open spec fn sites(found: Seq<ContributionView>) -> Set<Seq<char>> {
    found.map_values(|contribution: ContributionView| contribution.base_url).to_set()
}

/// Whether anchors are those of all sites, in the order of domain names.
pub open spec fn are_anchors_of(anchors: Seq<AnchorView>, found: Seq<ContributionView>) -> bool {
    let named = anchors.map_values(|anchor: AnchorView| anchor.base_url);
    &&& are_in_domain_order(named)
    &&& named.to_set() == sites(found)
    &&& forall|index: int|
        0 <= index < anchors.len() ==> anchored(found, (#[trigger] anchors[index]).base_url)
            == Some(anchors[index])
}

fn later(moment: Option<Timestamp>, other: Timestamp) -> (latest: Option<Timestamp>)
    ensures
        latest.deep_view() == (match moment.deep_view() {
            Some(known) => if known.precedes(other@) {
                Some(other@)
            } else {
                Some(known)
            },
            None => Some(other@),
        }),
{
    match moment {
        Some(known) => if known.precedes(&other) {
            Some(other)
        } else {
            Some(known)
        },
        None => Some(other),
    }
}

/// The latest of a known point in time and some others.
fn latest_of(known: Option<Timestamp>, moments: &Vec<Timestamp>, Ghost(earlier): Ghost<
    Seq<Moment>,
>) -> (found: Option<Timestamp>)
    requires
        known.deep_view() == latest(earlier),
    ensures
        found.deep_view() == latest(earlier + moments.deep_view()),
{
    let ghost all = moments.deep_view();
    let mut found = known;
    let mut index: usize = 0;
    assert(earlier + all.take(0) =~= earlier);
    while index < moments.len()
        invariant
            index <= moments@.len(),
            all == moments.deep_view(),
            found.deep_view() == latest(earlier + all.take(index as int)),
        decreases moments@.len() - index,
    {
        let ghost longer = earlier + all.take(index + 1);
        assert(longer.drop_last() =~= earlier + all.take(index as int));
        assert(longer.last() == moments@[index as int]@);
        found = later(found, moments[index]);
        index += 1;
    }
    assert(all.take(index as int) =~= all);
    found
}

/// The anchor of one site.
fn anchor(found: &Vec<Contribution>, base_url: &str) -> (anchor: Option<CommentUpdateAnchor>)
    ensures
        anchor.deep_view() == anchored(found.deep_view(), base_url@),
{
    let ghost all = found.deep_view();
    let mut latest_comment: Option<Timestamp> = None;
    let mut before: Option<Timestamp> = None;
    let mut index: usize = 0;
    while index < found.len()
        invariant
            index <= found@.len(),
            all == found.deep_view(),
            latest_comment.deep_view() == latest(site_dates(all.take(index as int), base_url@)),
            before.deep_view() == latest(site_cutoffs(all.take(index as int), base_url@)),
        decreases found@.len() - index,
    {
        let ghost earlier = all.take(index as int);
        assert(all.take(index + 1).drop_last() == earlier);
        let contribution = &found[index];
        assert(all.take(index + 1).last() == contribution.deep_view());
        if text::same(contribution.base_url.as_str(), base_url) {
            if let Some(cutoff) = contribution.before {
                proof {
                    let cutoffs = site_cutoffs(earlier, base_url@);
                    assert(cutoffs.push(cutoff@).drop_last() == cutoffs);
                }
                before = later(before, cutoff);
            }
            latest_comment = latest_of(
                latest_comment,
                &contribution.dates,
                Ghost(site_dates(earlier, base_url@)),
            );
        }
        index += 1;
    }
    assert(all.take(index as int) == all);
    match latest_comment {
        Some(datetime) => Some(
            CommentUpdateAnchor { base_url: base_url.to_owned(), datetime, from_comment: true },
        ),
        None => match before {
            Some(datetime) => Some(
                CommentUpdateAnchor {
                    base_url: base_url.to_owned(),
                    datetime,
                    from_comment: false,
                },
            ),
            None => None,
        },
    }
}

/// The sites that an archive captured comments of, in the order of domain names.
fn order_sites(found: &Vec<Contribution>) -> (ordered: Vec<String>)
    ensures
        are_in_domain_order(ordered.deep_view()),
        ordered.deep_view().to_set() == sites(found.deep_view()),
{
    let ghost all = found.deep_view();
    let ghost named = all.map_values(|contribution: ContributionView| contribution.base_url);
    let mut ordered: Vec<String> = Vec::new();
    let mut index: usize = 0;
    assert(ordered.deep_view().to_set() =~= named.take(0).to_set());
    while index < found.len()
        invariant
            index <= found@.len(),
            all == found.deep_view(),
            named == all.map_values(|contribution: ContributionView| contribution.base_url),
            are_in_domain_order(ordered.deep_view()),
            ordered.deep_view().to_set() == named.take(index as int).to_set(),
        decreases found@.len() - index,
    {
        assert(named[index as int] == found@[index as int].base_url@);
        insert_in_domain_order(&mut ordered, found[index].base_url.as_str());
        index += 1;
        proof {
            let earlier = named.take(index - 1);
            let longer = named.take(index as int);
            assert(longer == earlier.push(named[index - 1]));
            lemma_pushed_set(earlier, named[index - 1]);
        }
    }
    assert(named.take(index as int) == named);
    ordered
}

/// The anchors of all sites in the order of domain names, or `None` where a site has none.
pub fn anchor_sites(found: &Vec<Contribution>) -> (anchors: Option<Vec<CommentUpdateAnchor>>)
    ensures
        match anchors {
            Some(anchors) => are_anchors_of(anchors.deep_view(), found.deep_view()),
            None => exists|base_url: Seq<char>|
                sites(found.deep_view()).contains(base_url) && #[trigger] anchored(
                    found.deep_view(),
                    base_url,
                ) is None,
        },
{
    let ghost all = found.deep_view();
    let ordered = order_sites(found);
    let mut anchors: Vec<CommentUpdateAnchor> = Vec::new();
    let mut index: usize = 0;
    let ghost names = |anchor: AnchorView| anchor.base_url;
    assert(anchors.deep_view().map_values(names) =~= ordered.deep_view().take(0));
    while index < ordered.len()
        invariant
            index <= ordered@.len(),
            all == found.deep_view(),
            ordered.deep_view().to_set() == sites(all),
            names == (|anchor: AnchorView| anchor.base_url),
            anchors.deep_view().map_values(names) == ordered.deep_view().take(index as int),
            forall|at: int|
                0 <= at < anchors@.len() ==> anchored(
                    all,
                    (#[trigger] anchors.deep_view()[at]).base_url,
                ) == Some(anchors.deep_view()[at]),
        decreases ordered@.len() - index,
    {
        let ghost known = anchors.deep_view();
        assert(ordered.deep_view()[index as int] == ordered@[index as int]@);
        match anchor(found, ordered[index].as_str()) {
            Some(added) => {
                let ghost added_view = added.deep_view();
                anchors.push(added);
                assert(anchors.deep_view() =~= known.push(added_view));
                assert(anchors.deep_view().map_values(names) =~= known.map_values(names).push(
                    added_view.base_url,
                ));
            },
            None => {
                assert(ordered.deep_view().contains(ordered.deep_view()[index as int]));
                assert(sites(all).contains(ordered.deep_view()[index as int]));
                return None;
            },
        }
        index += 1;
        assert(ordered.deep_view().take(index as int) =~= ordered.deep_view().take(index - 1).push(
            ordered.deep_view()[index - 1],
        ));
    }
    assert(ordered.deep_view().take(index as int) =~= ordered.deep_view());
    Some(anchors)
}

/// Find the latest incremental-update anchor independently for every site in an archive.
///
/// For each site, the greatest valid `date_gmt` among its archived comments is preferred. Only
/// when that site has no comment datetime is the greatest valid `before` value on one of its
/// archived comments response or revisit URLs used. Anchors are returned in domain-name order.
///
/// # Errors
///
/// Returns the first response that cannot be read, [`Error::MissingUpdateUrl`] for an archive
/// without a comments capture, and [`Error::MissingUpdateDatetime`] for a site that has neither a
/// comment datetime nor a cutoff.
pub fn find_comment_update_anchors(records: &Vec<Record>) -> (anchors: Result<
    Vec<CommentUpdateAnchor>,
    Error,
>)
    ensures
        match contributions(records.deep_view()) {
            Err(problem) => anchors matches Err(error) && error.deep_view() == problem,
            Ok(found) => if found.len() == 0 {
                anchors matches Err(error) && error.deep_view() == ErrorView::MissingUpdateUrl
            } else {
                match anchors {
                    Ok(anchors) => are_anchors_of(anchors.deep_view(), found),
                    Err(error) => error.deep_view() == ErrorView::MissingUpdateDatetime
                        && exists|base_url: Seq<char>|
                        sites(found).contains(base_url) && #[trigger] anchored(found, base_url) is None,
                }
            },
        },
{
    let found = match collect_contributions(records) {
        Ok(found) => found,
        Err(error) => {
            return Err(error);
        },
    };
    if found.len() == 0 {
        return Err(Error::MissingUpdateUrl);
    }
    match anchor_sites(&found) {
        Some(anchors) => Ok(anchors),
        None => Err(Error::MissingUpdateDatetime),
    }
}

/// Find the one site and latest datetime that anchor an incremental comments update.
///
/// This single-collection convenience function rejects an archive containing several sites; use
/// [`find_comment_update_anchors`] for a multi-site archive.
///
/// # Errors
///
/// Returns the errors of [`find_comment_update_anchors`], and
/// [`Error::MultipleCommentCollections`] for several sites.
pub fn find_comment_update_anchor(records: &Vec<Record>) -> (anchor: Result<
    CommentUpdateAnchor,
    Error,
>)
    ensures
        match contributions(records.deep_view()) {
            Err(problem) => anchor matches Err(error) && error.deep_view() == problem,
            Ok(found) => if found.len() == 0 {
                anchor matches Err(error) && error.deep_view() == ErrorView::MissingUpdateUrl
            } else {
                match anchor {
                    Ok(anchor) => sites(found) == set![found[0].base_url] && anchored(
                        found,
                        found[0].base_url,
                    ) == Some(anchor.deep_view()),
                    Err(error) => if exists|base_url: Seq<char>|
                        sites(found).contains(base_url) && #[trigger] anchored(
                            found,
                            base_url,
                        ) is None {
                        error.deep_view() == ErrorView::MissingUpdateDatetime
                    } else {
                        sites(found).len() > 1 && error.deep_view()
                            == ErrorView::MultipleCommentCollections(sites(found).len() as usize)
                    },
                }
            },
        },
{
    let mut anchors = match find_comment_update_anchors(records) {
        Ok(anchors) => anchors,
        Err(error) => {
            return Err(error);
        },
    };
    proof {
        let found = contributions(records.deep_view())->Ok_0;
        let named = anchors.deep_view().map_values(|anchor: AnchorView| anchor.base_url);
        lemma_ordered_set(named);
        let bases = found.map_values(|contribution: ContributionView| contribution.base_url);
        assert(bases[0] == found[0].base_url);
        assert(sites(found).contains(found[0].base_url));
        assert(named.contains(found[0].base_url));
        assert forall|base_url: Seq<char>| sites(found).contains(base_url) implies #[trigger] anchored(
            found,
            base_url,
        ) is Some by {
            assert(named.contains(base_url));
            let at = named.index_of(base_url);
            assert(anchors.deep_view()[at].base_url == base_url);
        }
        if named.len() == 1 {
            assert(named[0] == found[0].base_url);
            assert(anchors.deep_view()[0] == anchors@[0].deep_view());
            assert(sites(found) =~= set![found[0].base_url]);
        }
    }
    match anchors.len() {
        0 => Err(Error::MissingUpdateUrl),
        1 => Ok(anchors.remove(0)),
        count => Err(Error::MultipleCommentCollections(count)),
    }
}

/// An archived comment.
#[derive(Debug, Eq, PartialEq)]
pub struct ArchivedComment {
    /// The `WordPress` comment ID.
    pub id: u64,
    /// The complete JSON object.
    pub json: String,
}

/// The parts of an [`ArchivedComment`].
#[verifier::ext_equal]
pub struct ArchivedView {
    pub id: u64,
    pub json: Seq<char>,
}

impl DeepView for ArchivedComment {
    type V = ArchivedView;

    open spec fn deep_view(&self) -> ArchivedView {
        ArchivedView { id: self.id, json: self.json@ }
    }
}

/// Comments read from an archive and any conflicting duplicate captures.
#[derive(Debug, Eq, PartialEq)]
pub struct CommentReadResult {
    /// One complete JSON object per comment, sorted by numeric comment ID.
    ///
    /// When more than one object has the same ID, the first object encountered in the archive is
    /// retained here. Unequal later objects are reported in [`warnings`](Self::warnings).
    pub comments: Vec<ArchivedComment>,
    /// Pairs of objects with the same comment ID but different content.
    pub warnings: Vec<CommentConflict>,
}

/// Two archived JSON objects that disagree about one comment.
#[derive(Debug, Eq, PartialEq)]
pub struct CommentConflict {
    /// The shared `WordPress` comment ID.
    pub id: u64,
    /// The object encountered earlier in the archive.
    pub first: String,
    /// The object encountered later in the archive.
    pub second: String,
}

/// The parts of a [`CommentConflict`].
#[verifier::ext_equal]
pub struct ConflictView {
    pub id: u64,
    pub first: Seq<char>,
    pub second: Seq<char>,
}

impl DeepView for CommentConflict {
    type V = ConflictView;

    open spec fn deep_view(&self) -> ConflictView {
        ConflictView { id: self.id, first: self.first@, second: self.second@ }
    }
}

/// An object archived under a comment ID: its text, and the place in a response's body where it
/// stands.
#[verifier::ext_equal]
pub struct ObjectView {
    pub id: u64,
    pub json: Seq<char>,
    pub body: Seq<u8>,
    pub place: int,
}

impl ObjectView {
    /// Whether the object stands where it is said to.
    pub open spec fn is_placed(self) -> bool {
        json::has_value(self.body, self.place)
    }

    /// Whether two objects are equal: they have one text, or are equal values. The texts of equal
    /// values differ where one has a negative zero for the other's zero.
    pub open spec fn equals(self, other: Self) -> bool {
        self.json == other.json || json::are_equal_values(
            self.body,
            self.place,
            other.body,
            other.place,
        )
    }
}

/// The body of a response, where it can be read.
pub open spec fn body_of(message: MessageView) -> Seq<u8> {
    match message.entity {
        Ok(payload) => payload.bytes,
        Err(_) => Seq::empty(),
    }
}

/// The objects that a record holds: those of a response of the comments endpoint.
pub open spec fn record_comments(record: RecordView) -> Result<Seq<ObjectView>, ErrorView> {
    match record {
        RecordView::Response { url, message, .. } => if targets_comments(url) {
            match batch(url, message) {
                Ok(documents) => Ok(identified(documents, body_of(message))),
                Err(error) => Err(error),
            }
        } else {
            Ok(Seq::empty())
        },
        _ => Ok(Seq::empty()),
    }
}

/// Values of a body that have IDs, as objects.
pub open spec fn identified(documents: Seq<DocumentView>, body: Seq<u8>) -> Seq<ObjectView> {
    Seq::new(
        documents.len(),
        |place: int|
            ObjectView { id: documents[place].id->0, json: documents[place].json, body, place },
    )
}

/// The comments that the records of an archive hold, in order, or the first error.
pub open spec fn archived_comments(records: Seq<RecordView>) -> Result<Seq<ObjectView>, ErrorView>
    decreases records.len(),
{
    if records.len() == 0 {
        Ok(Seq::empty())
    } else {
        match archived_comments(records.drop_last()) {
            Err(error) => Err(error),
            Ok(earlier) => match record_comments(records.last()) {
                Err(error) => Err(error),
                Ok(comments) => Ok(earlier + comments),
            },
        }
    }
}

/// Whether objects stand where they are said to.
pub open spec fn are_placed(objects: Seq<ObjectView>) -> bool {
    forall|index: int| 0 <= index < objects.len() ==> (#[trigger] objects[index]).is_placed()
}

/// Whether an object equals one of some versions.
pub open spec fn is_known(known: Seq<ObjectView>, object: ObjectView) -> bool {
    exists|index: int| 0 <= index < known.len() && (#[trigger] known[index]).equals(object)
}

/// The different objects that are held under one ID, in order.
pub open spec fn versions(comments: Seq<ObjectView>, id: u64) -> Seq<ObjectView>
    decreases comments.len(),
{
    if comments.len() == 0 {
        Seq::empty()
    } else {
        let earlier = versions(comments.drop_last(), id);
        if comments.last().id == id && !is_known(earlier, comments.last()) {
            earlier.push(comments.last())
        } else {
            earlier
        }
    }
}

/// The conflicts of an object with the versions before it.
pub open spec fn conflicts_with(earlier: Seq<ObjectView>, comment: ObjectView) -> Seq<
    ConflictView,
> {
    earlier.map_values(
        |version: ObjectView|
            ConflictView { id: comment.id, first: version.json, second: comment.json },
    )
}

/// The conflicts among objects: each that is new to its ID, with the versions before it.
pub open spec fn conflicts(comments: Seq<ObjectView>) -> Seq<ConflictView>
    decreases comments.len(),
{
    if comments.len() == 0 {
        Seq::empty()
    } else {
        let earlier = comments.drop_last();
        let known = versions(earlier, comments.last().id);
        if is_known(known, comments.last()) {
            conflicts(earlier)
        } else {
            conflicts(earlier) + conflicts_with(known, comments.last())
        }
    }
}

/// Whether `kept` holds the first object of every ID of `comments`, in the order of the IDs.
pub open spec fn are_first_versions(kept: Seq<ArchivedView>, comments: Seq<ObjectView>) -> bool {
    &&& forall|first: int, second: int|
        0 <= first < second < kept.len() ==> (#[trigger] kept[first]).id < (
        #[trigger] kept[second]).id
    &&& forall|index: int|
        0 <= index < kept.len() ==> {
            let known = versions(comments, (#[trigger] kept[index]).id);
            known.len() > 0 && known[0].json == kept[index].json
        }
    &&& forall|index: int|
        0 <= index < comments.len() ==> exists|at: int|
            0 <= at < kept.len() && (#[trigger] kept[at]).id == (#[trigger] comments[index]).id
}

/// The versions of an ID are different objects archived under it, and every object archived under
/// it equals one of them.
pub proof fn versions_are_the_different_objects(comments: Seq<ObjectView>, id: u64)
    ensures
        ({
            let known = versions(comments, id);
            &&& forall|first: int, second: int|
                0 <= first < second < known.len() ==> !(#[trigger] known[first]).equals(
                    #[trigger] known[second],
                )
            &&& forall|index: int|
                0 <= index < known.len() ==> (#[trigger] known[index]).id == id
                    && comments.contains(known[index])
            &&& forall|index: int|
                0 <= index < comments.len() && (#[trigger] comments[index]).id == id ==> is_known(
                    known,
                    comments[index],
                )
        }),
    decreases comments.len(),
{
    if comments.len() > 0 {
        let earlier = comments.drop_last();
        let last = comments.last();
        let known = versions(earlier, id);
        let all = versions(comments, id);
        versions_are_the_different_objects(earlier, id);
        assert(known.is_prefix_of(all));
        assert forall|index: int| 0 <= index < all.len() implies (#[trigger] all[index]).id == id
            && comments.contains(all[index]) by {
            if index < known.len() {
                assert(all[index] == known[index]);
                let at = earlier.index_of(known[index]);
                assert(comments[at] == known[index]);
            } else {
                assert(comments[comments.len() - 1] == all[index]);
            }
        }
        assert forall|first: int, second: int| 0 <= first < second < all.len() implies !(
        #[trigger] all[first]).equals(#[trigger] all[second]) by {
            assert(all[first] == known[first]);
            if second < known.len() {
                assert(all[second] == known[second]);
            }
        }
        assert forall|index: int|
            0 <= index < comments.len() && (#[trigger] comments[index]).id == id implies is_known(
            all,
            comments[index],
        ) by {
            if index < earlier.len() {
                assert(earlier[index] == comments[index]);
                let at = choose|at: int|
                    0 <= at < known.len() && (#[trigger] known[at]).equals(comments[index]);
                assert(all[at] == known[at]);
            } else if is_known(known, last) {
                let at = choose|at: int|
                    0 <= at < known.len() && (#[trigger] known[at]).equals(last);
                assert(all[at] == known[at]);
            } else {
                assert(all[all.len() - 1] == last);
                assert(last.equals(last));
            }
        }
    }
}

/// Every pair of unequal objects archived under one ID is reported, the one encountered first as
/// the first.
pub proof fn every_disagreement_is_reported(
    comments: Seq<ObjectView>,
    id: u64,
    first: int,
    second: int,
)
    requires
        0 <= first < second < versions(comments, id).len(),
    ensures
        conflicts(comments).contains(
            ConflictView {
                id,
                first: versions(comments, id)[first].json,
                second: versions(comments, id)[second].json,
            },
        ),
    decreases comments.len(),
{
    let earlier = comments.drop_last();
    let last = comments.last();
    let known = versions(earlier, id);
    let sought = ConflictView {
        id,
        first: versions(comments, id)[first].json,
        second: versions(comments, id)[second].json,
    };
    let before = conflicts(earlier);
    let all = conflicts(comments);
    if second < known.len() {
        every_disagreement_is_reported(earlier, id, first, second);
        assert(all[before.index_of(sought)] == sought);
    } else {
        let added = conflicts_with(known, last);
        assert(added[first] == sought);
        assert(all == before + added);
        assert(all[before.len() + first] == sought);
    }
}

/// Whether a conflict is one between two objects.
pub open spec fn is_between(conflict: ConflictView, first: ObjectView, second: ObjectView) -> bool {
    &&& first.id == conflict.id
    &&& second.id == conflict.id
    &&& first.json == conflict.first
    &&& second.json == conflict.second
}

/// Every reported conflict is one between unequal objects archived under its ID, the first before
/// the second.
pub proof fn every_conflict_is_a_disagreement(comments: Seq<ObjectView>, index: int)
    requires
        0 <= index < conflicts(comments).len(),
    ensures
        exists|first: int, second: int|
            0 <= first < second < comments.len() && #[trigger] is_between(
                conflicts(comments)[index],
                comments[first],
                comments[second],
            ) && !comments[first].equals(comments[second]),
    decreases comments.len(),
{
    let earlier = comments.drop_last();
    let last = comments.last();
    let before = conflicts(earlier);
    let conflict = conflicts(comments)[index];
    if index < before.len() {
        every_conflict_is_a_disagreement(earlier, index);
        let (first, second) = choose|first: int, second: int|
            0 <= first < second < earlier.len() && #[trigger] is_between(
                before[index],
                earlier[first],
                earlier[second],
            ) && !earlier[first].equals(earlier[second]);
        assert(comments[first] == earlier[first]);
        assert(comments[second] == earlier[second]);
        assert(is_between(conflict, comments[first], comments[second]));
    } else {
        let known = versions(earlier, last.id);
        versions_are_the_different_objects(earlier, last.id);
        let added = conflicts_with(known, last);
        let place = index - before.len();
        assert(conflict == added[place]);
        let first = earlier.index_of(known[place]);
        assert(comments[first] == known[place]);
        assert(is_between(conflict, comments[first], comments[comments.len() - 1]));
    }
}

/// An object of a response's body.
struct Object<'a> {
    id: u64,
    json: String,
    body: &'a Vec<u8>,
    place: usize,
}

impl DeepView for Object<'_> {
    type V = ObjectView;

    closed spec fn deep_view(&self) -> ObjectView {
        ObjectView { id: self.id, json: self.json@, body: self.body@, place: self.place as int }
    }
}

impl Object<'_> {
    fn equals(&self, other: &Self) -> (equal: bool)
        requires
            self.deep_view().is_placed(),
            other.deep_view().is_placed(),
        ensures
            equal == self.deep_view().equals(other.deep_view()),
    {
        text::same(self.json.as_str(), other.json.as_str()) || json::equal_values(
            self.body,
            self.place,
            other.body,
            other.place,
        )
    }
}

/// The different objects of one comment ID.
struct Versions<'a> {
    id: u64,
    objects: Vec<Object<'a>>,
}

/// Comments grouped by ID while archive records are being traversed.
struct CommentCollector<'a> {
    by_id: Vec<Versions<'a>>,
    warnings: Vec<CommentConflict>,
}

impl<'a> CommentCollector<'a> {
    spec fn is_ordered(self) -> bool {
        forall|first: int, second: int|
            0 <= first < second < self.by_id@.len() ==> (#[trigger] self.by_id@[first]).id < (
            #[trigger] self.by_id@[second]).id
    }

    spec fn holds(self, comments: Seq<ObjectView>) -> bool {
        &&& self.is_ordered()
        &&& are_placed(comments)
        &&& self.warnings.deep_view() == conflicts(comments)
        &&& forall|index: int|
            0 <= index < self.by_id@.len() ==> (#[trigger] self.by_id@[index]).objects.deep_view()
                == versions(comments, self.by_id@[index].id)
                && self.by_id@[index].objects@.len() > 0
        &&& are_covered(comments, self.by_id@)
    }

    fn new() -> (collector: Self)
        ensures
            collector.holds(Seq::empty()),
    {
        let collector = CommentCollector { by_id: Vec::new(), warnings: Vec::new() };
        assert(collector.warnings.deep_view() =~= Seq::<ConflictView>::empty());
        collector
    }

    /// Where the versions of an ID are, or where they would be.
    fn place(&self, id: u64) -> (place: usize)
        requires
            self.is_ordered(),
        ensures
            place <= self.by_id@.len(),
            forall|index: int| 0 <= index < place ==> (#[trigger] self.by_id@[index]).id < id,
            forall|index: int|
                place <= index < self.by_id@.len() ==> (#[trigger] self.by_id@[index]).id >= id,
    {
        let mut low: usize = 0;
        let mut high: usize = self.by_id.len();
        while low < high
            invariant
                low <= high <= self.by_id@.len(),
                self.is_ordered(),
                forall|index: int| 0 <= index < low ==> (#[trigger] self.by_id@[index]).id < id,
                forall|index: int|
                    high <= index < self.by_id@.len() ==> (#[trigger] self.by_id@[index]).id >= id,
            decreases high - low,
        {
            let middle: usize = low + (high - low) / 2;
            if self.by_id[middle].id < id {
                assert forall|index: int| 0 <= index <= middle implies (
                #[trigger] self.by_id@[index]).id < id by {
                    if index < middle {
                        assert(self.by_id@[index].id < self.by_id@[middle as int].id);
                    }
                }
                low = middle + 1;
            } else {
                assert forall|index: int| middle <= index < self.by_id@.len() implies (
                #[trigger] self.by_id@[index]).id >= id by {
                    if middle < index {
                        assert(self.by_id@[middle as int].id < self.by_id@[index].id);
                    }
                }
                high = middle;
            }
        }
        low
    }

    /// Adds a comment, checking it against earlier objects with its ID.
    fn add_comment(&mut self, object: Object<'a>, Ghost(comments): Ghost<Seq<ObjectView>>)
        requires
            old(self).holds(comments),
            object.deep_view().is_placed(),
        ensures
            final(self).holds(comments.push(object.deep_view())),
    {
        let id = object.id;
        let ghost added = object.deep_view();
        let ghost all = comments.push(added);
        let ghost before = self.by_id@;
        let ghost known = versions(comments, id);
        let place = self.place(id);
        proof {
            assert(all.drop_last() == comments);
            assert(all.last() == added);
        }
        if place < self.by_id.len() && self.by_id[place].id == id {
            proof {
                versions_are_the_different_objects(comments, id);
                assert forall|at: int| 0 <= at < known.len() implies (
                #[trigger] known[at]).is_placed() by {
                    assert(comments[comments.index_of(known[at])] == known[at]);
                }
            }
            let conflicts = match disagreements(&self.by_id[place].objects, &object) {
                Some(conflicts) => conflicts,
                None => {
                    proof {
                        assert(before[place as int].id == id);
                        assert forall|at: int| 0 <= at < before.len() implies has_entry(
                            (#[trigger] before[at]).id,
                            before,
                        ) by {}
                        lemma_covered(comments, added, before, before);
                    }
                    return ;
                },
            };
            append_conflicts(&mut self.warnings, conflicts);
            self.by_id[place].objects.push(object);
            proof {
                let entry = self.by_id@[place as int];
                assert(entry.objects.deep_view() =~= known.push(added));
                let after = before.update(place as int, entry);
                assert(self.by_id@ =~= after);
                assert(after[place as int].id == id);
                assert forall|at: int| 0 <= at < before.len() implies has_entry(
                    (#[trigger] before[at]).id,
                    after,
                ) by {
                    assert(after[at].id == before[at].id);
                }
                lemma_covered(comments, added, before, after);
            }
        } else {
            let mut objects: Vec<Object<'a>> = Vec::new();
            objects.push(object);
            proof {
                assert(objects.deep_view() =~= seq![added]);
                lemma_no_versions(comments, id);
                assert(known.len() == 0) by {
                    if known.len() > 0 {
                        let at = choose|at: int|
                            0 <= at < comments.len() && (#[trigger] comments[at]).id == id;
                        assert(has_entry(comments[at].id, before));
                    }
                }
                assert(conflicts_with(known, added) =~= Seq::<ConflictView>::empty());
                assert(known.push(added) =~= seq![added]);
            }
            self.by_id.insert(place, Versions { id, objects });
            proof {
                let after = before.insert(place as int, Versions { id, objects });
                assert(self.by_id@ =~= after);
                assert(after[place as int].id == id);
                assert forall|at: int| 0 <= at < before.len() implies has_entry(
                    (#[trigger] before[at]).id,
                    after,
                ) by {
                    if at < place {
                        assert(after[at].id == before[at].id);
                    } else {
                        assert(after[at + 1].id == before[at].id);
                    }
                }
                lemma_covered(comments, added, before, after);
            }
        }
    }

    /// Adds a response batch, checking every new object against earlier objects with its ID.
    fn extend(
        &mut self,
        batch: &Vec<Document>,
        body: &'a Vec<u8>,
        Ghost(comments): Ghost<Seq<ObjectView>>,
    )
        requires
            old(self).holds(comments),
            all_have_ids(batch.deep_view()),
            are_placed(identified(batch.deep_view(), body@)),
        ensures
            final(self).holds(comments + identified(batch.deep_view(), body@)),
    {
        let ghost all = batch.deep_view();
        let ghost added = identified(all, body@);
        let mut index: usize = 0;
        assert(comments + added.take(0) =~= comments);
        while index < batch.len()
            invariant
                index <= batch@.len(),
                all == batch.deep_view(),
                added == identified(all, body@),
                all_have_ids(all),
                are_placed(added),
                self.holds(comments + added.take(index as int)),
            decreases batch@.len() - index,
        {
            assert(all[index as int] == batch@[index as int].deep_view());
            assert(all[index as int].id is Some);
            let ghost known = comments + added.take(index as int);
            if let Some(id) = batch[index].id {
                assert(added[index as int].is_placed());
                let object = Object { id, json: batch[index].json.clone(), body, place: index };
                assert(object.deep_view() == added[index as int]);
                self.add_comment(object, Ghost(known));
            }
            index += 1;
            assert(comments + added.take(index as int) =~= known.push(added[index - 1]));
        }
        assert(added.take(index as int) =~= added);
    }

    /// Keep the first object for every ID, in the order of the IDs.
    fn finish(self, Ghost(comments): Ghost<Seq<ObjectView>>) -> (result: CommentReadResult)
        requires
            self.holds(comments),
        ensures
            are_first_versions(result.comments.deep_view(), comments),
            result.warnings.deep_view() == conflicts(comments),
    {
        let mut kept: Vec<ArchivedComment> = Vec::new();
        let mut index: usize = 0;
        while index < self.by_id.len()
            invariant
                index <= self.by_id@.len(),
                self.holds(comments),
                kept@.len() == index,
                forall|at: int|
                    0 <= at < index ==> (#[trigger] kept.deep_view()[at]) == (ArchivedView {
                        id: self.by_id@[at].id,
                        json: self.by_id@[at].objects.deep_view()[0].json,
                    }),
            decreases self.by_id@.len() - index,
        {
            let entry = &self.by_id[index];
            let ghost known = kept.deep_view();
            let comment = ArchivedComment { id: entry.id, json: entry.objects[0].json.clone() };
            let ghost added = comment.deep_view();
            kept.push(comment);
            assert(kept.deep_view() =~= known.push(added));
            index += 1;
        }
        proof {
            let views = kept.deep_view();
            assert forall|first: int, second: int| 0 <= first < second < views.len() implies (
            #[trigger] views[first]).id < (#[trigger] views[second]).id by {
                assert(self.by_id@[first].id < self.by_id@[second].id);
            }
            assert forall|at: int| 0 <= at < views.len() implies {
                let known = versions(comments, (#[trigger] views[at]).id);
                known.len() > 0 && known[0].json == views[at].json
            } by {
                assert(self.by_id@[at].objects.deep_view() == versions(comments, views[at].id));
            }
            assert forall|index: int| 0 <= index < comments.len() implies exists|at: int|
                0 <= at < views.len() && (#[trigger] views[at]).id == (#[trigger] comments[index]).id by {
                assert(has_entry(comments[index].id, self.by_id@));
                let at = choose|at: int|
                    0 <= at < self.by_id@.len() && (#[trigger] self.by_id@[at]).id
                        == comments[index].id;
                assert(views[at].id == comments[index].id);
            }
        }
        CommentReadResult { comments: kept, warnings: self.warnings }
    }
}

/// Whether every comment's ID has an entry.
spec fn are_covered(comments: Seq<ObjectView>, entries: Seq<Versions>) -> bool {
    forall|index: int|
        0 <= index < comments.len() ==> #[trigger] has_entry(comments[index].id, entries)
}

spec fn has_entry(id: u64, entries: Seq<Versions>) -> bool {
    exists|at: int| 0 <= at < entries.len() && (#[trigger] entries[at]).id == id
}

/// Entries that hold those of an earlier list, and one for a further comment, cover all comments.
proof fn lemma_covered(
    comments: Seq<ObjectView>,
    added: ObjectView,
    before: Seq<Versions>,
    after: Seq<Versions>,
)
    requires
        are_covered(comments, before),
        has_entry(added.id, after),
        forall|at: int| 0 <= at < before.len() ==> has_entry((#[trigger] before[at]).id, after),
    ensures
        are_covered(comments.push(added), after),
{
    let all = comments.push(added);
    assert forall|index: int| 0 <= index < all.len() implies #[trigger] has_entry(
        all[index].id,
        after,
    ) by {
        if index < comments.len() {
            assert(has_entry(comments[index].id, before));
            let at = choose|at: int|
                0 <= at < before.len() && (#[trigger] before[at]).id == comments[index].id;
            assert(has_entry(before[at].id, after));
        }
    }
}

proof fn lemma_no_versions(comments: Seq<ObjectView>, id: u64)
    ensures
        versions(comments, id).len() > 0 ==> exists|index: int|
            0 <= index < comments.len() && (#[trigger] comments[index]).id == id,
    decreases comments.len(),
{
    if comments.len() > 0 {
        let earlier = comments.drop_last();
        lemma_no_versions(earlier, id);
        if comments.last().id == id {
            assert(comments[comments.len() - 1].id == id);
        } else if versions(earlier, id).len() > 0 {
            let index = choose|index: int|
                0 <= index < earlier.len() && (#[trigger] earlier[index]).id == id;
            assert(comments[index].id == id);
        }
    }
}

/// The conflicts of an object with the versions before it, or `None` where it equals one of them.
fn disagreements(versions: &Vec<Object<'_>>, object: &Object<'_>) -> (conflicts: Option<
    Vec<CommentConflict>,
>)
    requires
        are_placed(versions.deep_view()),
        object.deep_view().is_placed(),
    ensures
        match conflicts {
            Some(conflicts) => !is_known(versions.deep_view(), object.deep_view())
                && conflicts.deep_view() == conflicts_with(
                versions.deep_view(),
                object.deep_view(),
            ),
            None => is_known(versions.deep_view(), object.deep_view()),
        },
{
    let ghost known = versions.deep_view();
    let ghost added = object.deep_view();
    let mut found: Vec<CommentConflict> = Vec::new();
    let mut index: usize = 0;
    assert(found.deep_view() =~= conflicts_with(known.take(0), added));
    while index < versions.len()
        invariant
            index <= versions@.len(),
            known == versions.deep_view(),
            are_placed(known),
            added == object.deep_view(),
            added.is_placed(),
            found.deep_view() == conflicts_with(known.take(index as int), added),
            forall|earlier: int|
                0 <= earlier < index ==> !(#[trigger] known[earlier]).equals(added),
        decreases versions@.len() - index,
    {
        assert(known[index as int] == versions@[index as int].deep_view());
        if versions[index].equals(object) {
            return None;
        }
        let ghost conflicts = found.deep_view();
        let conflict = CommentConflict {
            id: object.id,
            first: versions[index].json.clone(),
            second: object.json.clone(),
        };
        let ghost reported = conflict.deep_view();
        found.push(conflict);
        assert(found.deep_view() =~= conflicts.push(reported));
        index += 1;
        assert(conflicts_with(known.take(index as int), added) =~= conflicts_with(
            known.take(index - 1),
            added,
        ).push(reported));
    }
    assert(known.take(index as int) == known);
    Some(found)
}

fn append_conflicts(warnings: &mut Vec<CommentConflict>, conflicts: Vec<CommentConflict>)
    ensures
        final(warnings).deep_view() == old(warnings).deep_view() + conflicts.deep_view(),
{
    let mut conflicts = conflicts;
    let ghost before = warnings.deep_view();
    let ghost added = conflicts.deep_view();
    warnings.append(&mut conflicts);
    assert(warnings.deep_view() =~= before + added);
}

proof fn lemma_first_read_error_stays(records: Seq<RecordView>, count: int)
    requires
        0 <= count <= records.len(),
        archived_comments(records.take(count)) is Err,
    ensures
        archived_comments(records) == archived_comments(records.take(count)),
    decreases records.len(),
{
    if count == records.len() {
        assert(records.take(count) == records);
    } else {
        assert(records.drop_last().take(count) == records.take(count));
        lemma_first_read_error_stays(records.drop_last(), count);
    }
}

/// The comments of a record, and the body that they stand in.
fn read_record<'a>(record: &'a Record) -> (comments: Result<
    Option<(Vec<Document>, &'a Vec<u8>)>,
    Error,
>)
    ensures
        match comments {
            Ok(Some((documents, body))) => record_comments(record.deep_view()) == Ok::<
                Seq<ObjectView>,
                ErrorView,
            >(identified(documents.deep_view(), body@)) && all_have_ids(documents.deep_view())
                && are_placed(identified(documents.deep_view(), body@)),
            Ok(None) => record_comments(record.deep_view()) == Ok::<Seq<ObjectView>, ErrorView>(
                Seq::empty(),
            ),
            Err(error) => record_comments(record.deep_view()) == Err::<Seq<ObjectView>, ErrorView>(
                error.deep_view(),
            ),
        },
{
    if let Record::Response { url, message, .. } = record {
        if is_comment_endpoint(url.as_str()) {
            let documents = read_batch(url.as_str(), message)?;
            return match &message.entity {
                Ok(payload) => Ok(Some((documents, &payload.bytes))),
                Err(_) => {
                    assert(identified(documents.deep_view(), body_of(message.deep_view()))
                        =~= Seq::empty());
                    Ok(None)
                },
            };
        }
    }
    Ok(None)
}

/// Read all comments captured in an archive.
///
/// Successful HTTP responses whose target path ends in `/wp-json/wp/v2/comments` are parsed as
/// comment batches. Redirect responses and captures of other endpoints are ignored. The returned
/// comments are sorted by numeric ID and deduplicated, retaining the first archived object for each
/// ID. Every pair of unequal objects sharing an ID is part of the warnings.
///
/// # Errors
///
/// Returns what is wrong with the first successful comments response that cannot be read.
pub fn read_comments(records: &Vec<Record>) -> (result: Result<CommentReadResult, Error>)
    ensures
        match archived_comments(records.deep_view()) {
            Err(problem) => result matches Err(error) && error.deep_view() == problem,
            Ok(comments) => result matches Ok(result) && are_first_versions(
                result.comments.deep_view(),
                comments,
            ) && result.warnings.deep_view() == conflicts(comments),
        },
{
    let ghost all = records.deep_view();
    let mut collector = CommentCollector::new();
    let ghost mut comments: Seq<ObjectView> = Seq::empty();
    let mut index: usize = 0;
    while index < records.len()
        invariant
            index <= records@.len(),
            all == records.deep_view(),
            collector.holds(comments),
            archived_comments(all.take(index as int)) == Ok::<Seq<ObjectView>, ErrorView>(
                comments,
            ),
        decreases records@.len() - index,
    {
        assert(all.take(index + 1).drop_last() == all.take(index as int));
        assert(all.take(index + 1).last() == records@[index as int].deep_view());
        match read_record(&records[index]) {
            Err(error) => {
                proof {
                    lemma_first_read_error_stays(all, index + 1);
                }
                return Err(error);
            },
            Ok(Some((documents, body))) => {
                collector.extend(&documents, body, Ghost(comments));
                proof {
                    comments = comments + identified(documents.deep_view(), body@);
                }
            },
            Ok(None) => {
                assert(comments + Seq::<ObjectView>::empty() =~= comments);
            },
        }
        index += 1;
    }
    assert(all.take(index as int) == all);
    Ok(collector.finish(Ghost(comments)))
}

/// The datetimes of comments are those of every comment that has a valid one, in order.
pub proof fn every_valid_datetime_is_kept(documents: Seq<DocumentView>)
    ensures
        comment_dates(documents) == documents.filter(
            |document: DocumentView|
                document.date_gmt is Some && clock::parsed_date(document.date_gmt->0) is Some,
        ).map_values(|document: DocumentView| clock::parsed_date(document.date_gmt->0)->0),
        forall|index: int|
            0 <= index < documents.len() && (#[trigger] documents[index]).date_gmt is Some
                && clock::parsed_date(documents[index].date_gmt->0) is Some ==> comment_dates(
                documents,
            ).contains(clock::parsed_date(documents[index].date_gmt->0)->0),
    decreases documents.len(),
{
    reveal(Seq::filter);
    if documents.len() > 0 {
        let earlier = documents.drop_last();
        every_valid_datetime_is_kept(earlier);
        let dates = comment_dates(documents);
        assert forall|index: int|
            0 <= index < documents.len() && (#[trigger] documents[index]).date_gmt is Some
                && clock::parsed_date(
                documents[index].date_gmt->0,
            ) is Some implies dates.contains(
            clock::parsed_date(documents[index].date_gmt->0)->0,
        ) by {
            let moment = clock::parsed_date(documents[index].date_gmt->0)->0;
            if index < earlier.len() {
                assert(earlier[index] == documents[index]);
                let at = comment_dates(earlier).index_of(moment);
                assert(dates[at] == moment);
            } else {
                assert(dates[dates.len() - 1] == moment);
            }
        }
    }
}

/// The datetimes of a site are those of its contributions, no others.
pub proof fn site_datetimes_are_those_contributed(
    found: Seq<ContributionView>,
    base_url: Seq<char>,
    moment: Moment,
)
    ensures
        site_dates(found, base_url).contains(moment) <==> exists|index: int|
            0 <= index < found.len() && (#[trigger] found[index]).base_url == base_url
                && found[index].dates.contains(moment),
        site_cutoffs(found, base_url).contains(moment) <==> exists|index: int|
            0 <= index < found.len() && (#[trigger] found[index]).base_url == base_url
                && found[index].before == Some(moment),
    decreases found.len(),
{
    if found.len() > 0 {
        let earlier = found.drop_last();
        let last = found.len() - 1;
        site_datetimes_are_those_contributed(earlier, base_url, moment);
        lemma_one_more_contribution(found, base_url, moment);
        if exists|index: int|
            0 <= index < earlier.len() && (#[trigger] earlier[index]).base_url == base_url
                && earlier[index].dates.contains(moment) {
            let index = choose|index: int|
                0 <= index < earlier.len() && (#[trigger] earlier[index]).base_url == base_url
                    && earlier[index].dates.contains(moment);
            assert(found[index] == earlier[index]);
        }
        if exists|index: int|
            0 <= index < found.len() && (#[trigger] found[index]).base_url == base_url
                && found[index].dates.contains(moment) {
            let index = choose|index: int|
                0 <= index < found.len() && (#[trigger] found[index]).base_url == base_url
                    && found[index].dates.contains(moment);
            if index < last {
                assert(earlier[index] == found[index]);
            }
        }
        if exists|index: int|
            0 <= index < earlier.len() && (#[trigger] earlier[index]).base_url == base_url
                && earlier[index].before == Some(moment) {
            let index = choose|index: int|
                0 <= index < earlier.len() && (#[trigger] earlier[index]).base_url == base_url
                    && earlier[index].before == Some(moment);
            assert(found[index] == earlier[index]);
        }
        if exists|index: int|
            0 <= index < found.len() && (#[trigger] found[index]).base_url == base_url
                && found[index].before == Some(moment) {
            let index = choose|index: int|
                0 <= index < found.len() && (#[trigger] found[index]).base_url == base_url
                    && found[index].before == Some(moment);
            if index < last {
                assert(earlier[index] == found[index]);
            }
        }
        assert(found[last] == found.last());
    }
}

proof fn lemma_one_more_contribution(
    found: Seq<ContributionView>,
    base_url: Seq<char>,
    moment: Moment,
)
    requires
        found.len() > 0,
    ensures
        site_dates(found, base_url).contains(moment) <==> site_dates(
            found.drop_last(),
            base_url,
        ).contains(moment) || (found.last().base_url == base_url && found.last().dates.contains(
            moment,
        )),
        site_cutoffs(found, base_url).contains(moment) <==> site_cutoffs(
            found.drop_last(),
            base_url,
        ).contains(moment) || (found.last().base_url == base_url && found.last().before == Some(
            moment,
        )),
{
    let before = site_dates(found.drop_last(), base_url);
    let after = site_dates(found, base_url);
    if found.last().base_url == base_url {
        let dates = found.last().dates;
        if before.contains(moment) {
            assert(after[before.index_of(moment)] == moment);
        }
        if dates.contains(moment) {
            assert(after[before.len() + dates.index_of(moment)] == moment);
        }
        if after.contains(moment) {
            let at = after.index_of(moment);
            if at < before.len() {
                assert(before[at] == moment);
            } else {
                assert(dates[at - before.len()] == moment);
            }
        }
    }
    let earlier = site_cutoffs(found.drop_last(), base_url);
    let cutoffs = site_cutoffs(found, base_url);
    if found.last().base_url == base_url && found.last().before is Some {
        if earlier.contains(moment) {
            assert(cutoffs[earlier.index_of(moment)] == moment);
        }
        assert(cutoffs[cutoffs.len() - 1] == found.last().before->0);
        if cutoffs.contains(moment) {
            let at = cutoffs.index_of(moment);
            if at < earlier.len() {
                assert(earlier[at] == moment);
            }
        }
    }
}

/// The contributions of an archive are those of its records in order, where none is an error; an
/// error is that of the first record that has one.
pub proof fn contributions_are_those_of_the_records(records: Seq<RecordView>)
    ensures
        match contributions(records) {
            Ok(found) => {
                &&& forall|index: int|
                    0 <= index < records.len() ==> contributed(#[trigger] records[index]) is Ok
                &&& found == records.filter(
                    |record: RecordView| contributed(record) matches Ok(Some(_)),
                ).map_values(|record: RecordView| contributed(record)->Ok_0->0)
                &&& forall|index: int|
                    0 <= index < records.len() ==> (contributed(
                        #[trigger] records[index],
                    ) matches Ok(Some(contribution)) ==> found.contains(contribution))
            },
            Err(error) => exists|index: int|
                0 <= index < records.len() && contributed(#[trigger] records[index]) == Err::<
                    Option<ContributionView>,
                    ErrorView,
                >(error) && forall|earlier: int|
                    0 <= earlier < index ==> contributed(#[trigger] records[earlier]) is Ok,
        },
    decreases records.len(),
{
    reveal(Seq::filter);
    if records.len() > 0 {
        let before = records.drop_last();
        let last = records.len() - 1;
        contributions_are_those_of_the_records(before);
        match contributions(before) {
            Err(error) => {
                let index = choose|index: int|
                    0 <= index < before.len() && contributed(#[trigger] before[index]) == Err::<
                        Option<ContributionView>,
                        ErrorView,
                    >(error) && forall|earlier: int|
                        0 <= earlier < index ==> contributed(#[trigger] before[earlier]) is Ok;
                assert(records[index] == before[index]);
                assert forall|earlier: int| 0 <= earlier < index implies contributed(
                    #[trigger] records[earlier],
                ) is Ok by {
                    assert(records[earlier] == before[earlier]);
                }
            },
            Ok(known) => {
                assert forall|earlier: int| 0 <= earlier < last implies contributed(
                    #[trigger] records[earlier],
                ) is Ok by {
                    assert(records[earlier] == before[earlier]);
                }
                assert(records[last] == records.last());
                if let Ok(found) = contributions(records) {
                    assert forall|index: int| 0 <= index < records.len() implies (contributed(
                        #[trigger] records[index],
                    ) matches Ok(Some(contribution)) ==> found.contains(contribution)) by {
                        if let Ok(Some(contribution)) = contributed(records[index]) {
                            if index < last {
                                assert(records[index] == before[index]);
                                let at = known.index_of(contribution);
                                assert(found[at] == contribution);
                            } else {
                                assert(found[found.len() - 1] == contribution);
                            }
                        }
                    }
                }
            },
        }
    }
}

/// Whether a record is a successful response of a site's comments endpoint that holds a comment at
/// a place, whose datetime is valid.
pub open spec fn holds_datetime(
    record: RecordView,
    base_url: Seq<char>,
    place: int,
    moment: Moment,
) -> bool {
    &&& record is Response
    &&& targets_comments(record->Response_url)
    &&& web::is_settable(record->Response_url)
    &&& installation_of(record->Response_url) == Some(base_url)
    &&& record->Response_message.head is Some
    &&& 200 <= record->Response_message.head->0.status < 300
    &&& record->Response_message.entity is Ok
    &&& json::json_documents(record->Response_message.entity->Ok_0.bytes) is Ok
    &&& ({
        let documents = json::json_documents(record->Response_message.entity->Ok_0.bytes)->Ok_0;
        &&& 0 <= place < documents.len()
        &&& documents[place].date_gmt is Some
        &&& clock::parsed_date(documents[place].date_gmt->0) == Some(moment)
    })
}

/// The anchor of a site whose archive holds a comment with a valid datetime is taken from a comment,
/// and precedes no such datetime.
pub proof fn an_anchor_precedes_no_archived_comment(
    records: Seq<RecordView>,
    index: int,
    base_url: Seq<char>,
    place: int,
    moment: Moment,
)
    requires
        contributions(records) is Ok,
        0 <= index < records.len(),
        holds_datetime(records[index], base_url, place, moment),
    ensures
        anchored(contributions(records)->Ok_0, base_url) matches Some(anchor) && {
            &&& anchor.base_url == base_url
            &&& anchor.from_comment
            &&& !anchor.datetime.precedes(moment)
        },
{
    let found = contributions(records)->Ok_0;
    contributions_are_those_of_the_records(records);
    let record = records[index];
    assert(contributed(record) is Ok);
    let documents = json::json_documents(record->Response_message.entity->Ok_0.bytes)->Ok_0;
    every_valid_datetime_is_kept(documents);
    let contribution = contributed(record)->Ok_0->0;
    assert(contribution.dates.contains(moment));
    let at = found.index_of(contribution);
    assert(found[at] == contribution);
    site_datetimes_are_those_contributed(found, base_url, moment);
    let dates = site_dates(found, base_url);
    the_latest_precedes_none(dates);
    assert(dates[dates.index_of(moment)] == moment);
}

/// An anchor is taken from the comments of its site where they have a datetime and otherwise from
/// its requests, and is one of theirs that precedes no other of them.
pub proof fn an_anchor_is_the_latest_of_its_site(
    found: Seq<ContributionView>,
    base_url: Seq<char>,
    index: int,
    moment: Moment,
)
    requires
        0 <= index < found.len(),
        found[index].base_url == base_url,
    ensures
        found[index].dates.contains(moment) ==> (anchored(
            found,
            base_url,
        ) matches Some(anchor) && anchor.from_comment && !anchor.datetime.precedes(moment)),
        found[index].before == Some(moment) ==> (anchored(
            found,
            base_url,
        ) matches Some(anchor) && (anchor.from_comment || !anchor.datetime.precedes(moment))),
        anchored(found, base_url) matches Some(anchor) ==> exists|source: int|
            0 <= source < found.len() && (#[trigger] found[source]).base_url == base_url && if anchor.from_comment {
                found[source].dates.contains(anchor.datetime)
            } else {
                found[source].before == Some(anchor.datetime)
            },
{
    let dates = site_dates(found, base_url);
    let cutoffs = site_cutoffs(found, base_url);
    site_datetimes_are_those_contributed(found, base_url, moment);
    the_latest_precedes_none(dates);
    the_latest_precedes_none(cutoffs);
    if found[index].dates.contains(moment) {
        assert(dates[dates.index_of(moment)] == moment);
    }
    if found[index].before == Some(moment) {
        assert(cutoffs[cutoffs.index_of(moment)] == moment);
    }
    if let Some(anchor) = anchored(found, base_url) {
        site_datetimes_are_those_contributed(found, base_url, anchor.datetime);
        let source = choose|source: int|
            0 <= source < found.len() && (#[trigger] found[source]).base_url == base_url && if anchor.from_comment {
                found[source].dates.contains(anchor.datetime)
            } else {
                found[source].before == Some(anchor.datetime)
            };
        assert(found[source].base_url == base_url);
    }
}

/// A record satisfies the coverage of a comments endpoint exactly where it is a response or a
/// revisit of it with the status 200 and a payload identified as JSON; it is of the page that its
/// URL asks for, and of the page total that it advertises.
pub proof fn sightings_are_successful_captures(record: RecordView)
    ensures
        ({
            let (url, message, identified) = match record {
                RecordView::Response { url, message, identified_json, .. } => (
                    url,
                    Some(message),
                    identified_json,
                ),
                RecordView::Revisit { url, message, identified_json, .. } => (
                    url,
                    Some(message),
                    identified_json,
                ),
                _ => (Seq::empty(), None, false),
            };
            &&& sighted(record) is Some <==> {
                &&& message is Some
                &&& message->0.head is Some
                &&& message->0.head->0.status == 200
                &&& identified
                &&& targets_comments(url)
                &&& web::is_settable(url)
                &&& endpoint_of(url) is Some
            }
            &&& sighted(record) matches Some(sighting) ==> {
                &&& Some(sighting.endpoint) == endpoint_of(url)
                &&& sighting.page == page_of(url)
                &&& sighting.total == evidence::header_count(message->0.head->0.total_pages)
            }
        }),
{
}

/// What an archive's records say of comments endpoints is what each of them says, in order.
pub proof fn every_sighting_is_kept(records: Seq<RecordView>)
    ensures
        sightings(records) == records.filter(
            |record: RecordView| sighted(record) is Some,
        ).map_values(|record: RecordView| sighted(record)->0),
    decreases records.len(),
{
    reveal(Seq::filter);
    if records.len() > 0 {
        every_sighting_is_kept(records.drop_last());
    }
}

/// A page of an endpoint counts as captured exactly where a record captures it.
pub proof fn captured_pages_have_records(
    records: Seq<RecordView>,
    endpoint: Seq<char>,
    page: usize,
)
    ensures
        is_captured(sightings(records), endpoint, page) <==> exists|index: int|
            0 <= index < records.len() && (sighted(#[trigger] records[index]) matches Some(
                sighting,
            ) && sighting.endpoint == endpoint && sighting.page == Some(page)),
    decreases records.len(),
{
    if records.len() > 0 {
        let before = records.drop_last();
        let last = records.len() - 1;
        captured_pages_have_records(before, endpoint, page);
        let earlier = sightings(before);
        let seen = sightings(records);
        assert(records[last] == records.last());
        if is_captured(earlier, endpoint, page) {
            let index = choose|index: int|
                0 <= index < before.len() && (sighted(#[trigger] before[index]) matches Some(
                    sighting,
                ) && sighting.endpoint == endpoint && sighting.page == Some(page));
            assert(records[index] == before[index]);
            let at = choose|at: int|
                0 <= at < earlier.len() && (#[trigger] earlier[at]).endpoint == endpoint
                    && earlier[at].page == Some(page);
            assert(seen[at] == earlier[at]);
        }
        if sighted(records.last()) is Some {
            assert(seen[seen.len() - 1] == sighted(records.last())->0);
        }
        if is_captured(seen, endpoint, page) && !is_captured(earlier, endpoint, page) {
            let at = choose|at: int|
                0 <= at < seen.len() && (#[trigger] seen[at]).endpoint == endpoint && seen[at].page
                    == Some(page);
            if at < earlier.len() {
                assert(earlier[at] == seen[at]);
            }
        }
        if exists|index: int|
            0 <= index < records.len() && (sighted(#[trigger] records[index]) matches Some(
                sighting,
            ) && sighting.endpoint == endpoint && sighting.page == Some(page)) {
            let index = choose|index: int|
                0 <= index < records.len() && (sighted(#[trigger] records[index]) matches Some(
                    sighting,
                ) && sighting.endpoint == endpoint && sighting.page == Some(page));
            if index < last {
                assert(before[index] == records[index]);
            }
        }
    }
}

/// The page totals of an endpoint are those that its captures advertised, in order.
pub proof fn every_advertised_total_is_kept(seen: Seq<SightingView>, endpoint: Seq<char>)
    ensures
        totals(seen, endpoint) == seen.filter(
            |sighting: SightingView| sighting.endpoint == endpoint && sighting.total is Some,
        ).map_values(|sighting: SightingView| sighting.total->0),
    decreases seen.len(),
{
    reveal(Seq::filter);
    if seen.len() > 0 {
        every_advertised_total_is_kept(seen.drop_last(), endpoint);
    }
}

/// The greatest of some numbers is one of them and is exceeded by none.
pub proof fn the_greatest_is_exceeded_by_none(numbers: Seq<usize>)
    ensures
        greatest(numbers) is None <==> numbers.len() == 0,
        greatest(numbers) matches Some(number) ==> numbers.contains(number) && forall|index: int|
            0 <= index < numbers.len() ==> #[trigger] numbers[index] <= number,
    decreases numbers.len(),
{
    if numbers.len() > 0 {
        let earlier = numbers.drop_last();
        the_greatest_is_exceeded_by_none(earlier);
        assert(numbers[numbers.len() - 1] == numbers.last());
        if let Some(number) = greatest(earlier) {
            assert(numbers[earlier.index_of(number)] == number);
            assert forall|index: int| 0 <= index < numbers.len() implies #[trigger] numbers[index]
                <= greatest(numbers)->0 by {
                if index < earlier.len() {
                    assert(earlier[index] == numbers[index]);
                }
            }
        }
    }
}

/// The transitions of some numbers begin and end as they do, hold the same numbers, and no number
/// next to itself; there is one alone exactly where the numbers are all the same.
pub proof fn transitions_never_repeat(numbers: Seq<usize>)
    ensures
        transitions(numbers).len() == 0 <==> numbers.len() == 0,
        numbers.len() > 0 ==> transitions(numbers)[0] == numbers[0] && transitions(numbers).last()
            == numbers.last(),
        forall|index: int|
            0 < index < transitions(numbers).len() ==> transitions(numbers)[index - 1]
                != #[trigger] transitions(numbers)[index],
        forall|number: usize| #[trigger]
            transitions(numbers).contains(number) <==> numbers.contains(number),
        numbers.len() > 0 ==> (transitions(numbers).len() == 1 <==> forall|index: int|
            0 <= index < numbers.len() ==> #[trigger] numbers[index] == numbers[0]),
        transitions(numbers).len() <= numbers.len(),
    decreases numbers.len(),
{
    if numbers.len() > 0 {
        let earlier = numbers.drop_last();
        let last = numbers.len() - 1;
        transitions_never_repeat(earlier);
        let known = transitions(earlier);
        let found = transitions(numbers);
        assert(numbers[last] == numbers.last());
        assert forall|number: usize| #[trigger] found.contains(number) <==> numbers.contains(
            number,
        ) by {
            assert(known.contains(number) <==> earlier.contains(number));
            if earlier.contains(number) {
                assert(numbers[earlier.index_of(number)] == number);
                assert(found[known.index_of(number)] == number);
            }
            if number == numbers.last() {
                assert(found[found.len() - 1] == number);
            }
            if numbers.contains(number) {
                let at = numbers.index_of(number);
                if at < last {
                    assert(earlier[at] == number);
                }
            }
            if found.contains(number) {
                let at = found.index_of(number);
                if at < known.len() {
                    assert(known[at] == number);
                }
            }
        }
        if earlier.len() > 0 {
            assert(earlier[0] == numbers[0]);
            if found.len() == 1 {
                assert forall|index: int| 0 <= index < numbers.len() implies #[trigger]
                    numbers[index] == numbers[0] by {
                    if index < last {
                        assert(earlier[index] == numbers[index]);
                    }
                }
            }
            if forall|index: int|
                0 <= index < numbers.len() ==> #[trigger] numbers[index] == numbers[0] {
                assert forall|index: int| 0 <= index < earlier.len() implies #[trigger]
                    earlier[index] == earlier[0] by {
                    assert(numbers[index] == earlier[index]);
                }
                assert(numbers[last - 1] == numbers[0]);
            }
        }
    }
}

/// The comments of an archive are those of its records, each in its place, where none is an error.
pub proof fn every_archived_comment_is_read(records: Seq<RecordView>, index: int, place: int)
    requires
        archived_comments(records) is Ok,
        0 <= index < records.len(),
    ensures
        record_comments(records[index]) is Ok,
        0 <= place < record_comments(records[index])->Ok_0.len() ==> archived_comments(
            records,
        )->Ok_0.contains(record_comments(records[index])->Ok_0[place]),
    decreases records.len(),
{
    let before = records.drop_last();
    let earlier = archived_comments(before)->Ok_0;
    let comments = archived_comments(records)->Ok_0;
    let last = record_comments(records.last())->Ok_0;
    if index < records.len() - 1 {
        every_archived_comment_is_read(before, index, place);
        assert(before[index] == records[index]);
        let held = record_comments(records[index])->Ok_0;
        if 0 <= place < held.len() {
            let at = earlier.index_of(held[place]);
            assert(comments[at] == held[place]);
        }
    } else if 0 <= place < last.len() {
        assert(comments[earlier.len() + place] == last[place]);
    }
}

/// A successful response of the comments endpoint that can be read holds every value of its body,
/// under its identifier and with its text.
pub proof fn a_response_holds_every_value(record: RecordView, place: int)
    requires
        record is Response,
        targets_comments(record->Response_url),
        record->Response_message.head is Some,
        200 <= record->Response_message.head->0.status < 300,
        record_comments(record) is Ok,
    ensures
        record->Response_message.entity is Ok,
        json::json_documents(record->Response_message.entity->Ok_0.bytes) is Ok,
        ({
            let documents = json::json_documents(
                record->Response_message.entity->Ok_0.bytes,
            )->Ok_0;
            let comments = record_comments(record)->Ok_0;
            &&& comments.len() == documents.len()
            &&& 0 <= place < documents.len() ==> documents[place].id == Some(comments[place].id)
                && documents[place].json == comments[place].json && comments[place].place == place
        }),
{
    let documents = json::json_documents(record->Response_message.entity->Ok_0.bytes)->Ok_0;
    if 0 <= place < documents.len() {
        assert(documents[place].id is Some);
    }
}

/// The object retained for an identifier is the first that was archived under it.
pub proof fn the_first_object_is_retained(comments: Seq<ObjectView>, index: int)
    requires
        0 <= index < comments.len(),
        forall|earlier: int|
            0 <= earlier < index ==> (#[trigger] comments[earlier]).id != comments[index].id,
    ensures
        versions(comments, comments[index].id).len() > 0,
        versions(comments, comments[index].id)[0] == comments[index],
    decreases comments.len(),
{
    let before = comments.drop_last();
    let id = comments[index].id;
    if index < comments.len() - 1 {
        assert(before[index] == comments[index]);
        assert forall|earlier: int| 0 <= earlier < index implies (#[trigger] before[earlier]).id
            != before[index].id by {
            assert(comments[earlier] == before[earlier]);
        }
        the_first_object_is_retained(before, index);
    } else {
        versions_are_the_different_objects(before, id);
        let known = versions(before, id);
        if known.len() > 0 {
            assert(known[0].id == id && before.contains(known[0]));
            let at = before.index_of(known[0]);
            assert(comments[at] == before[at]);
        }
    }
}

/// The URLs of an installation's comments endpoint target it, with any query and trailing slash.
pub proof fn comment_urls_target_the_endpoint(root: Seq<char>, query: Seq<char>)
    requires
        !root.contains('?'),
    ensures
        targets_comments(root + "/wp-json/wp/v2/comments"@),
        targets_comments(root + "/wp-json/wp/v2/comments"@ + seq!['/']),
        targets_comments(root + "/wp-json/wp/v2/comments"@ + seq!['?'] + query),
{
    reveal_strlit("/wp-json/wp/v2/comments");
    reveal_strlit("?");
    assert("?"@ =~= seq!['?']);
    let path = root + "/wp-json/wp/v2/comments"@;
    assert(path.last() == 's');
    assert(!path.contains('?')) by {
        if path.contains('?') {
            let at = path.index_of('?');
            if at < root.len() {
                assert(root[at] == '?');
            } else {
                assert("/wp-json/wp/v2/comments"@[at - root.len()] == '?');
            }
        }
    }
    assert(path.skip(root.len() as int) =~= "/wp-json/wp/v2/comments"@);
    text::lemma_no_split(path, '?');
    text::lemma_split_at_first(path, '?', query);
    let slashed = path + seq!['/'];
    assert(!slashed.contains('?')) by {
        if slashed.contains('?') {
            let at = slashed.index_of('?');
            if at < path.len() {
                assert(path[at] == '?');
            }
        }
    }
    text::lemma_no_split(slashed, '?');
    assert(slashed.drop_last() =~= path);
    reveal_with_fuel(text::trimmed_end, 3);
}

/// A file is taken for compressed exactly where it begins with the two bytes of the format.
pub proof fn compressed_files_begin_alike(start: Seq<u8>)
    ensures
        is_gzip_start(start) <==> seq![0x1fu8, 0x8bu8].is_prefix_of(start),
{
    let magic = seq![0x1fu8, 0x8bu8];
    if is_gzip_start(start) {
        assert(start.subrange(0, 2) =~= magic);
    }
    if magic.is_prefix_of(start) {
        assert(start[0] == magic[0] && start[1] == magic[1]);
    }
}

/// A response or revisit of a site's comments endpoint contributes the cutoff of its request to that
/// site, and a revisit no datetimes; other records contribute nothing.
pub proof fn captures_contribute_to_their_site(record: RecordView)
    ensures
        ({
            let (url, held) = match record {
                RecordView::Response { url, .. } => (url, true),
                RecordView::Revisit { url, .. } => (url, true),
                _ => (Seq::empty(), false),
            };
            let of_site = held && targets_comments(url) && web::is_settable(url)
                && installation_of(url) is Some;
            &&& !of_site ==> contributed(record) == Ok::<Option<ContributionView>, ErrorView>(None)
            &&& of_site && contributed(record) is Ok ==> (contributed(record)->Ok_0 matches Some(
                contribution,
            ) && Some(contribution.base_url) == installation_of(url) && contribution.before
                == request_cutoff(url) && (record is Revisit ==> contribution.dates.len() == 0))
            &&& record is Revisit ==> contributed(record) is Ok
            &&& record is Response && of_site ==> (contributed(record) is Ok <==> batch(
                url,
                record->Response_message,
            ) is Ok)
        }),
{
}

/// An unsuccessful response holds no comments. A successful one holds the values of its body, and is
/// an error where that cannot be read or a value has no identifier.
pub proof fn responses_hold_their_values(url: Seq<char>, message: MessageView)
    ensures
        message.head is None ==> batch(url, message) is Err,
        message.head matches Some(head) ==> {
            let success = 200 <= head.status < 300;
            let documents = json::json_documents(message.entity->Ok_0.bytes);
            let readable = message.entity is Ok && documents is Ok && forall|index: int|
                0 <= index < documents->Ok_0.len() ==> (
                #[trigger] documents->Ok_0[index]).id is Some;
            &&& !success ==> batch(url, message) == Ok::<Seq<DocumentView>, ErrorView>(
                Seq::empty(),
            )
            &&& success && readable ==> batch(url, message) == Ok::<Seq<DocumentView>, ErrorView>(
                documents->Ok_0,
            )
            &&& success && !readable ==> batch(url, message) is Err
        },
{
}

/// Addresses are ordered by their hosts in lower case, and within one host by their texts.
pub proof fn addresses_are_ordered_by_host(first: Seq<char>, second: Seq<char>)
    requires
        web::parsed_address(first) is Ok,
        web::parsed_address(second) is Ok,
        web::parsed_address(first)->Ok_0.host is Some,
        web::parsed_address(second)->Ok_0.host is Some,
    ensures
        ({
            let left = text::lower(web::parsed_address(first)->Ok_0.host->0);
            let right = text::lower(web::parsed_address(second)->Ok_0.host->0);
            &&& domain(first) == left
            &&& left != right ==> (comes_first(first, second) <==> text::precedes(left, right))
            &&& left == right ==> (comes_first(first, second) <==> text::precedes(first, second))
        }),
{
    text::lemma_precedes_is_irreflexive(domain(first));
}

/// A URL of a comments endpoint below an installation's path, with or without slashes at its end, is
/// of the endpoint at that path and of the installation above it.
pub proof fn an_endpoint_lies_below_its_installation(url: Seq<char>, root: Seq<char>)
    requires
        web::parsed_address(url) is Ok,
        web::parsed_address(url)->Ok_0.path == root + "/wp-json/wp/v2/comments"@ || web::parsed_address(
            url,
        )->Ok_0.path == root + "/wp-json/wp/v2/comments"@ + seq!['/'],
    ensures
        endpoint_of(url) == Some(
            web::address_at_path(url, root + "/wp-json/wp/v2/comments"@),
        ),
        installation_of(url) == Some(web::address_at_path(url, root + "/"@)),
{
    reveal_strlit("/wp-json/wp/v2/comments");
    let path = root + "/wp-json/wp/v2/comments"@;
    let slashed = path + seq!['/'];
    assert(path.last() == 's');
    assert(slashed.drop_last() =~= path);
    reveal_with_fuel(text::trimmed_end, 3);
    assert(text::trimmed_end(web::parsed_address(url)->Ok_0.path, '/') == path);
    assert(path.skip(root.len() as int) =~= "/wp-json/wp/v2/comments"@);
    assert(path.take(root.len() as int) =~= root);
}

} // verus!
