//! Capturing a bounded window of a site's comments.

use crate::archive;
use crate::clock;
use crate::clock::{Day, Moment, Timestamp};
use crate::session::{
    Capture, CaptureView, Comment, CommentView, Inspection, InspectionView, Request, RequestView,
    CLOUDFLARE_CHALLENGE,
};
use crate::text;
use crate::web;
use std::collections::HashSet;
use vstd::prelude::*;
use vstd::string::StringExecFns;

verus! {

/// The maximum number of items `WordPress` permits one collection request to return.
pub const PER_PAGE: usize = 100;

/// The REST API v2 comments collection, relative to the `WordPress` installation root.
pub const COMMENTS_ENDPOINT: &'static str = "wp-json/wp/v2/comments";

/// The reason a text does not name a `WordPress` installation.
#[derive(Debug)]
pub enum AddressError {
    /// The text is not a URL, or no path can be resolved against it, for the reason that the `url`
    /// crate gives.
    Invalid(String),
}

/// The reason a text does not name a `WordPress` installation, over views.
#[verifier::ext_equal]
pub enum AddressErrorView {
    Invalid(Seq<char>),
}

impl DeepView for AddressError {
    type V = AddressErrorView;

    open spec fn deep_view(&self) -> AddressErrorView {
        match self {
            AddressError::Invalid(reason) => AddressErrorView::Invalid(reason@),
        }
    }
}

/// The URL and host of the comments collection of the installation at `base_url`, whose path,
/// query, and fragment are replaced by the path of its directory.
pub open spec fn comments_address(base_url: Seq<char>) -> Result<
    (Seq<char>, Option<Seq<char>>),
    AddressErrorView,
> {
    match web::parsed_address(base_url) {
        Err(reason) => Err(AddressErrorView::Invalid(reason)),
        Ok(base) => {
            let root = web::address_at_path(base_url, text::trimmed_end(base.path, '/') + "/"@);
            match web::resolved_address(root, COMMENTS_ENDPOINT@) {
                Err(reason) => Err(AddressErrorView::Invalid(reason)),
                Ok(href) => match web::parsed_address(href) {
                    Err(reason) => Err(AddressErrorView::Invalid(reason)),
                    Ok(endpoint) => Ok((href, endpoint.host)),
                },
            }
        },
    }
}

/// Whether the path of the comments collection can be set below a base, where that is an address.
pub open spec fn is_short_base(base_url: Seq<char>) -> bool {
    web::parsed_address(base_url) matches Ok(base) ==> base.is_short(3)
}

/// Whether an endpoint ends with the path of the comments collection, where the base that it is
/// below is an address with a path of segments; against an opaque one no path is resolved.
pub open spec fn is_below(endpoint: Seq<char>, base_url: Seq<char>) -> bool {
    web::parsed_address(base_url) matches Ok(base) && base.is_hierarchical() ==> (
    "/"@ + COMMENTS_ENDPOINT@).is_suffix_of(endpoint)
}

/// The minimum and maximum of some numbers, or `None` when there are none.
pub open spec fn number_bounds(items: Seq<u64>) -> Option<(u64, u64)>
    decreases items.len(),
{
    if items.len() == 0 {
        None
    } else {
        match number_bounds(items.drop_last()) {
            None => Some((items.last(), items.last())),
            Some((least, greatest)) => Some(
                (
                    if items.last() < least {
                        items.last()
                    } else {
                        least
                    },
                    if greatest < items.last() {
                        items.last()
                    } else {
                        greatest
                    },
                ),
            ),
        }
    }
}

/// The bounds of some numbers are among them, and every other lies between.
pub proof fn bounds_are_the_minimum_and_maximum(items: Seq<u64>)
    ensures
        number_bounds(items) is None <==> items.len() == 0,
        number_bounds(items) matches Some((least, greatest)) ==> items.contains(least)
            && items.contains(greatest) && forall|index: int|
            0 <= index < items.len() ==> least <= #[trigger] items[index] <= greatest,
    decreases items.len(),
{
    if items.len() > 0 {
        let earlier = items.drop_last();
        bounds_are_the_minimum_and_maximum(earlier);
        assert(items[items.len() - 1] == items.last());
        if let Some((least, greatest)) = number_bounds(earlier) {
            let low = earlier.index_of(least);
            let high = earlier.index_of(greatest);
            assert(items[low] == least);
            assert(items[high] == greatest);
            let (low, high) = number_bounds(items)->0;
            assert forall|index: int| 0 <= index < items.len() implies low <= #[trigger] items[index]
                <= high by {
                if index < items.len() - 1 {
                    assert(earlier[index] == items[index]);
                }
            }
        }
    }
}

/// The minimum and maximum of `items` in one pass, or `None` when there are none.
pub fn bounds(items: &Vec<u64>) -> (bounds: Option<(u64, u64)>)
    ensures
        bounds == number_bounds(items@),
{
    let mut bounds: Option<(u64, u64)> = None;
    let mut index: usize = 0;
    while index < items.len()
        invariant
            index <= items@.len(),
            bounds == number_bounds(items@.take(index as int)),
        decreases items@.len() - index,
    {
        let item = items[index];
        assert(items@.take(index + 1).drop_last() == items@.take(index as int));
        bounds = match bounds {
            None => Some((item, item)),
            Some((least, greatest)) => Some(
                (
                    if item < least {
                        item
                    } else {
                        least
                    },
                    if greatest < item {
                        item
                    } else {
                        greatest
                    },
                ),
            ),
        };
        index += 1;
    }
    assert(items@.take(index as int) == items@);
    bounds
}

/// The earliest and latest of some points in time, or `None` when there are none.
pub open spec fn moment_bounds(items: Seq<Moment>) -> Option<(Moment, Moment)>
    decreases items.len(),
{
    if items.len() == 0 {
        None
    } else {
        match moment_bounds(items.drop_last()) {
            None => Some((items.last(), items.last())),
            Some((earliest, latest)) => Some(
                (
                    if items.last().precedes(earliest) {
                        items.last()
                    } else {
                        earliest
                    },
                    if latest.precedes(items.last()) {
                        items.last()
                    } else {
                        latest
                    },
                ),
            ),
        }
    }
}

/// The earliest and latest of `items` in one pass, or `None` when there are none.
pub fn time_bounds(items: &Vec<Timestamp>) -> (bounds: Option<(Timestamp, Timestamp)>)
    ensures
        bounds.deep_view() == moment_bounds(items.deep_view()),
{
    let mut bounds: Option<(Timestamp, Timestamp)> = None;
    let mut index: usize = 0;
    while index < items.len()
        invariant
            index <= items@.len(),
            bounds.deep_view() == moment_bounds(items.deep_view().take(index as int)),
        decreases items@.len() - index,
    {
        let item = items[index];
        assert(items.deep_view().take(index + 1).drop_last() == items.deep_view().take(
            index as int,
        ));
        bounds = match bounds {
            None => Some((item, item)),
            Some((earliest, latest)) => Some(
                (
                    if item.precedes(&earliest) {
                        item
                    } else {
                        earliest
                    },
                    if latest.precedes(&item) {
                        item
                    } else {
                        latest
                    },
                ),
            ),
        };
        index += 1;
    }
    assert(items.deep_view().take(index as int) == items.deep_view());
    bounds
}

/// The query requesting one page of a collection in ascending ID order within a time window.
pub open spec fn paging_query_text(after: Option<Moment>, before: Moment, page: nat) -> Seq<char> {
    (match after {
        Some(after) => "after="@ + clock::whole_second_text(after.seconds, after.nanos) + "&"@,
        None => ""@,
    }) + "before="@ + clock::whole_second_text(before.seconds, before.nanos)
        + "&orderby=id&order=asc&page="@ + text::decimal(page) + "&per_page="@ + text::decimal(
        PER_PAGE as nat,
    )
}

/// The names and values of the query requesting one page of a collection within a time window.
pub open spec fn paging_pairs(after: Option<Moment>, before: Moment, page: nat) -> Seq<
    (Seq<char>, Seq<char>),
> {
    (match after {
        Some(after) => seq![("after"@, clock::whole_second_text(after.seconds, after.nanos))],
        None => Seq::empty(),
    }) + archive::page_pairs(before, page, PER_PAGE as nat)
}

/// The query requesting one page of a collection in ascending ID order within a time window.
pub fn paging_query(after: Option<Timestamp>, before: Timestamp, page: usize) -> (query: String)
    ensures
        query@ == paging_query_text(after.deep_view(), before@, page as nat),
        query@.len() <= 150,
        web::is_plain_query(query@),
{
    proof {
        text::lemma_count_length(page);
        text::lemma_count_length(PER_PAGE);
        text::lemma_decimal_reads_back(page as nat);
        text::lemma_decimal_reads_back(PER_PAGE as nat);
        reveal_strlit("");
        reveal_strlit("after=");
        reveal_strlit("&");
        reveal_strlit("before=");
        reveal_strlit("&orderby=id&order=asc&page=");
        reveal_strlit("&per_page=");
        assert(web::is_plain_query("after="@));
        assert(web::is_plain_query("&orderby=id&order=asc&page="@));
    }
    let mut query = match after {
        Some(after) => {
            let mut query = text::joined("after=", format_timestamp(after).as_str());
            query.append("&");
            query
        },
        None => "".to_owned(),
    };
    assert(web::is_plain_query(query@));
    query.append("before=");
    query.append(format_timestamp(before).as_str());
    assert(web::is_plain_query(query@));
    query.append("&orderby=id&order=asc&page=");
    query.append(text::count_text(page).as_str());
    assert(web::is_plain_query(query@));
    query.append("&per_page=");
    query.append(text::count_text(PER_PAGE).as_str());
    query
}

/// Render a `WordPress` REST API timestamp at whole-second UTC precision.
pub fn format_timestamp(timestamp: Timestamp) -> (text: String)
    ensures
        text@ == clock::whole_second_text(timestamp@.seconds, timestamp@.nanos),
        clock::is_notation(text@),
        text@.len() <= 23,
        timestamp@.has_plain_year() && timestamp@.nanos < 1_000_000_000 ==> clock::reads_back(
            timestamp@,
        ),
{
    timestamp.rendered()
}

impl Comment {
    /// Parse the `WordPress` GMT timestamp, which is normally returned without a zone suffix.
    pub fn date(&self) -> (date: Option<Timestamp>)
        ensures
            date.deep_view() == self.deep_view().date(),
    {
        clock::parse_date(self.date_gmt.as_str())
    }
}

impl CommentView {
    /// The point in time of the comment, where its date denotes one.
    pub open spec fn date(self) -> Option<Moment> {
        clock::parsed_date(self.date_gmt)
    }
}

/// How a sweep relates to the ones before it.
#[derive(Clone, Copy, Debug, Eq, PartialEq)]
pub enum SweepPhase {
    /// The first sweep.
    Primary,
    /// A repeat of the first sweep's pages, whose page one is requested via page `after`.
    Validation {
        /// The total that the first sweep settled on.
        previous_total: Option<usize>,
        /// The page that ended the first sweep.
        after: usize,
    },
}

/// One walk over the pages of the window.
#[derive(Clone, Copy, Debug, Eq, PartialEq)]
pub struct Sweep {
    /// How the sweep relates to the ones before it.
    pub phase: SweepPhase,
    /// The page that is requested next.
    pub page: usize,
    /// The comment count last advertised in this sweep.
    pub total: Option<usize>,
    /// Whether every count advertised in this sweep agreed with the one before it.
    pub headers_consistent: bool,
    /// The page count last advertised.
    pub total_pages: Option<usize>,
}

impl Sweep {
    /// The total that the sweep has settled on so far, or otherwise the one before it had.
    pub open spec fn settled_total(self) -> Option<usize> {
        match (self.total, self.phase) {
            (Some(total), _) => Some(total),
            (None, SweepPhase::Validation { previous_total, .. }) => previous_total,
            (None, SweepPhase::Primary) => None,
        }
    }

    /// The validation sweep that repeats this one's pages.
    pub open spec fn repeated(self) -> Sweep {
        Sweep {
            phase: SweepPhase::Validation {
                previous_total: self.settled_total(),
                after: self.page,
            },
            page: 1,
            total: None,
            headers_consistent: true,
            total_pages: self.total_pages,
        }
    }

    /// The first sweep at its start.
    pub open spec fn start() -> Sweep {
        Sweep {
            phase: SweepPhase::Primary,
            page: 1,
            total: None,
            headers_consistent: true,
            total_pages: None,
        }
    }

    /// The sweep after a page that advertises these counts.
    pub open spec fn advertised(self, total: usize, total_pages: Option<usize>) -> Sweep {
        let total_kept = match self.settled_total() {
            Some(known) => known == total,
            None => true,
        };
        let pages_kept = match (self.total_pages, total_pages) {
            (Some(known), Some(current)) => known == current,
            _ => true,
        };
        Sweep {
            total: Some(total),
            total_pages,
            headers_consistent: self.headers_consistent && total_kept && pages_kept,
            ..self
        }
    }

    /// The sweep's number, counted from one.
    pub open spec fn ordinal(self) -> nat {
        match self.phase {
            SweepPhase::Primary => 1,
            SweepPhase::Validation { .. } => 2,
        }
    }

    /// Begin the first sweep at page one.
    pub fn first() -> (sweep: Self)
        ensures
            sweep == Sweep::start(),
    {
        Sweep {
            phase: SweepPhase::Primary,
            page: 1,
            total: None,
            headers_consistent: true,
            total_pages: None,
        }
    }

    /// Begin a validation sweep, which re-traverses the same pages this sweep covered.
    pub fn validation(&self) -> (sweep: Self)
        ensures
            sweep == self.repeated(),
    {
        Sweep {
            phase: SweepPhase::Validation {
                previous_total: self.effective_total(),
                after: self.page,
            },
            page: 1,
            total: None,
            headers_consistent: true,
            total_pages: self.total_pages,
        }
    }

    /// The total that the sweep has settled on so far, or otherwise the one before it had.
    pub fn effective_total(&self) -> (total: Option<usize>)
        ensures
            total == self.settled_total(),
    {
        match (self.total, self.phase) {
            (Some(total), _) => Some(total),
            (None, SweepPhase::Validation { previous_total, .. }) => previous_total,
            (None, SweepPhase::Primary) => None,
        }
    }

    /// Whether this is the first sweep.
    pub fn is_primary(&self) -> (primary: bool)
        ensures
            primary == (self.phase is Primary),
    {
        matches!(self.phase, SweepPhase::Primary)
    }

    /// The sweep's number, counted from one.
    pub fn number(&self) -> (number: usize)
        ensures
            number == self.ordinal(),
    {
        match self.phase {
            SweepPhase::Primary => 1,
            SweepPhase::Validation { .. } => 2,
        }
    }
}

/// How far the sweeps have come.
#[derive(Clone, Copy, Debug, Eq, PartialEq)]
pub enum Traversal {
    /// The sweep is under way.
    Active(Sweep),
    /// The sweep ended with a consistent snapshot.
    Complete(Sweep),
    /// A capture failed, so the sweep it was part of cannot be finished.
    Failed(Sweep),
}

impl Traversal {
    /// The latest sweep.
    pub open spec fn latest(self) -> Sweep {
        match self {
            Traversal::Active(sweep) => sweep,
            Traversal::Complete(sweep) => sweep,
            Traversal::Failed(sweep) => sweep,
        }
    }

    /// The traversal ended, unless it already was.
    pub open spec fn ended(self, complete: bool) -> Traversal {
        match self {
            Traversal::Active(sweep) => if complete {
                Traversal::Complete(sweep)
            } else {
                Traversal::Failed(sweep)
            },
            _ => self,
        }
    }

    /// The latest sweep.
    pub fn sweep(&self) -> (sweep: &Sweep)
        ensures
            *sweep == self.latest(),
    {
        match self {
            Traversal::Active(sweep) => sweep,
            Traversal::Complete(sweep) => sweep,
            Traversal::Failed(sweep) => sweep,
        }
    }

    /// The sweep that is under way, to be changed.
    pub fn active_sweep_mut(&mut self) -> (sweep: Option<&mut Sweep>)
        ensures
            match sweep {
                Some(sweep) => *old(self) == Traversal::Active(*sweep) && *final(self)
                    == Traversal::Active(*final(sweep)),
                None => !(*old(self) is Active) && *final(self) == *old(self),
            },
    {
        match self {
            Traversal::Active(sweep) => Some(sweep),
            _ => None,
        }
    }

    /// Whether the sweeps ended with a consistent snapshot.
    pub fn is_complete(&self) -> (complete: bool)
        ensures
            complete == (self is Complete),
    {
        matches!(self, Traversal::Complete(_))
    }

    /// End an active traversal, as complete or as failed.
    pub fn end(&mut self, complete: bool)
        ensures
            *final(self) == old(self).ended(complete),
    {
        if let Traversal::Active(sweep) = *self {
            *self = if complete {
                Traversal::Complete(sweep)
            } else {
                Traversal::Failed(sweep)
            };
        }
    }
}

/// The comments seen so far: their identifiers, and the first and last days of those with a date.
#[verifier::ext_equal]
pub struct Seen {
    pub ids: Set<u64>,
    pub first_date: Option<int>,
    pub last_date: Option<int>,
}

impl Seen {
    /// The days widened to hold one more.
    pub open spec fn on(self, day: int) -> Seen {
        Seen {
            first_date: match self.first_date {
                Some(first) if first <= day => Some(first),
                _ => Some(day),
            },
            last_date: match self.last_date {
                Some(last) if last >= day => Some(last),
                _ => Some(day),
            },
            ..self
        }
    }

    /// What has been seen after one more comment. The date of a repeated comment is not looked at.
    pub open spec fn with(self, comment: CommentView) -> Seen {
        if self.ids.contains(comment.id) {
            self
        } else {
            let seen = Seen { ids: self.ids.insert(comment.id), ..self };
            match comment.date() {
                Some(date) => seen.on(date.day()),
                None => seen,
            }
        }
    }

    /// What has been seen after more comments, in order.
    pub open spec fn with_all(self, comments: Seq<CommentView>) -> Seen
        decreases comments.len(),
    {
        if comments.len() == 0 {
            self
        } else {
            self.with_all(comments.drop_last()).with(comments.last())
        }
    }
}

/// The dates of comments that have one, in order.
pub open spec fn dates_of(comments: Seq<CommentView>) -> Seq<Moment>
    decreases comments.len(),
{
    if comments.len() == 0 {
        Seq::empty()
    } else {
        match comments.last().date() {
            Some(date) => dates_of(comments.drop_last()).push(date),
            None => dates_of(comments.drop_last()),
        }
    }
}

/// The identifiers of comments, in order.
pub open spec fn ids_of(comments: Seq<CommentView>) -> Seq<u64> {
    comments.map_values(|comment: CommentView| comment.id)
}

/// A batch's title: the bounds of its identifiers and of the days of its dates.
pub open spec fn batch_title(site_name: Seq<char>, comments: Seq<CommentView>) -> Option<Seq<char>> {
    match (number_bounds(ids_of(comments)), moment_bounds(dates_of(comments))) {
        (Some((first_id, last_id)), Some((first_date, last_date))) => Some(
            site_name + " comments "@ + text::decimal(first_id as nat) + "-"@ + text::decimal(
                last_id as nat,
            ) + " ("@ + clock::day_text(first_date.day()) + " to "@ + clock::day_text(
                last_date.day(),
            ) + ")"@,
        ),
        _ => None,
    }
}

/// Drive a session through the `WordPress` REST API v2 comments endpoint.
///
/// The driver takes a window of comment creation times when it is constructed. Its first request
/// is a seed for page one of the comments in ascending ID order within that window, also given by
/// [`first_comment_url`](Self::first_comment_url). It walks every page advertised by
/// `X-WP-TotalPages` and normally finishes after one sweep when the pagination headers are stable
/// and the number of visible comments does not exceed `X-WP-Total`. `WordPress` applies
/// per-comment read checks after its pagination query, so the reported total can legitimately
/// exceed the number of comments returned. A second sweep runs when the consistency checks fail,
/// or when explicitly requested with [`second_sweep`](Self::second_sweep). The fixed cutoff
/// prevents ordinary additions after construction from moving the snapshot. Already captured IDs
/// remain retained even if they are deleted during collection.
///
/// Every page after the first is requested via the preceding page, and a validation sweep repeats
/// pages already read, its page one requested via the page that ended the first sweep. A repeated
/// page the server answers with `304 Not Modified` adds no IDs, and the sweep continues by the
/// page count last advertised. Malformed JSON or an unexpected HTTP response makes the session
/// incomplete instead of silently ending pagination, and a failed capture ends the driver's
/// requests.
pub struct CommentDriver {
    endpoint: String,
    site_name: String,
    after: Option<Timestamp>,
    before: Timestamp,
    seen_ids: HashSet<u64>,
    first_date: Option<Day>,
    last_date: Option<Day>,
    traversal: Traversal,
    force_second_sweep: bool,
}

/// The state of a [`CommentDriver`].
#[verifier::ext_equal]
pub struct CommentDriverView {
    pub endpoint: Seq<char>,
    pub site_name: Seq<char>,
    pub after: Option<Moment>,
    pub before: Moment,
    pub seen: Seen,
    pub traversal: Traversal,
    pub force_second_sweep: bool,
}

impl DeepView for CommentDriver {
    type V = CommentDriverView;

    closed spec fn deep_view(&self) -> CommentDriverView {
        CommentDriverView {
            endpoint: self.endpoint@,
            site_name: self.site_name@,
            after: self.after.deep_view(),
            before: self.before@,
            seen: Seen {
                ids: self.seen_ids@,
                first_date: self.first_date.deep_view(),
                last_date: self.last_date.deep_view(),
            },
            traversal: self.traversal,
            force_second_sweep: self.force_second_sweep,
        }
    }
}

impl CommentDriverView {
    /// What holds of the state of every driver.
    pub open spec fn is_valid(self) -> bool {
        &&& match web::parsed_address(self.endpoint) {
            Ok(address) => address.query is None && address.fragment is None && web::is_bare(
                address.href,
            ),
            Err(_) => false,
        }
        &&& self.traversal.latest().page >= 1
        &&& self.seen.ids.finite()
        &&& self.traversal is Complete ==> self.is_consistent()
    }

    /// Whether a query can be added to the collection's address.
    pub open spec fn can_request(self) -> bool {
        web::parsed_address(self.endpoint) matches Ok(address) ==> address.href.len() <= u32::MAX
    }

    /// The state in which the comments of the collection at `endpoint` are captured from the
    /// start.
    pub open spec fn beginning(
        endpoint: Seq<char>,
        host: Option<Seq<char>>,
        after: Option<Moment>,
        before: Moment,
    ) -> Self {
        CommentDriverView {
            endpoint,
            site_name: match host {
                Some(host) => host,
                None => endpoint,
            },
            after,
            before,
            seen: Seen { ids: Set::empty(), first_date: None, last_date: None },
            traversal: Traversal::Active(Sweep::start()),
            force_second_sweep: false,
        }
    }

    /// The URL of one page.
    pub open spec fn page_url(self, page: nat) -> Seq<char> {
        web::parsed_address(self.endpoint)->Ok_0.href + "?"@ + paging_query_text(
            self.after,
            self.before,
            page,
        )
    }

    /// The request that the driver makes next.
    pub open spec fn next(self) -> Option<RequestView> {
        match self.traversal {
            Traversal::Active(sweep) => Some(
                RequestView {
                    url: self.page_url(sweep.page as nat),
                    via: match sweep.phase {
                        SweepPhase::Primary if sweep.page == 1 => None,
                        SweepPhase::Validation { after, .. } if sweep.page == 1 => Some(
                            self.page_url(after as nat),
                        ),
                        _ => Some(self.page_url((sweep.page - 1) as nat)),
                    },
                },
            ),
            _ => None,
        }
    }

    /// Whether the latest sweep's counts agreed with each other and cover the comments seen.
    pub open spec fn is_consistent(self) -> bool {
        let sweep = self.traversal.latest();
        sweep.headers_consistent && match sweep.settled_total() {
            Some(total) => self.seen.ids.len() <= total,
            None => false,
        }
    }

    /// The latest sweep's number, its total, and how many comments were seen.
    pub open spec fn inconsistency(self) -> Seq<char> {
        let sweep = self.traversal.latest();
        "WordPress reported "@ + (match sweep.settled_total() {
            Some(total) => text::decimal(total as nat),
            None => "no total"@,
        }) + " comments after sweep "@ + text::decimal(sweep.ordinal()) + ", but "@
            + text::decimal(self.seen.ids.len()) + " distinct IDs were captured"@ + (
        if sweep.headers_consistent {
            ""@
        } else {
            " and pagination headers changed during validation"@
        })
    }

    /// The state after a sweep's last page, and what is made of it: a validation sweep, the end,
    /// or an error.
    pub open spec fn finished_sweep(self) -> (Self, InspectionView) {
        let sweep = self.traversal.latest();
        if sweep.phase is Primary && (self.force_second_sweep || !self.is_consistent()) {
            (
                CommentDriverView { traversal: Traversal::Active(sweep.repeated()), ..self },
                InspectionView::nothing(),
            )
        } else if !self.is_consistent() {
            (self, InspectionView::stopped(self.inconsistency()))
        } else {
            (
                CommentDriverView { traversal: self.traversal.ended(true), ..self },
                InspectionView::nothing(),
            )
        }
    }

    /// Progress through the current snapshot once its total is reported.
    pub open spec fn progress(self) -> Option<CommentProgressView> {
        match self.traversal.latest().settled_total() {
            Some(total) => Some(
                CommentProgressView {
                    downloaded: self.seen.ids.len(),
                    total: total as nat,
                    first_date: self.seen.first_date,
                    last_date: self.seen.last_date,
                    complete: self.traversal is Complete,
                },
            ),
            None => None,
        }
    }

    /// The state with another sweep under way.
    pub open spec fn sweeping(self, sweep: Sweep) -> Self {
        CommentDriverView { traversal: Traversal::Active(sweep), ..self }
    }

    /// Why a response to the page of the sweep under way ends the session, if it does.
    pub open spec fn refusal(self, capture: CaptureView) -> Option<Seq<char>> {
        let page = text::decimal(self.traversal.latest().page as nat);
        if capture.is_cloudflare_challenge() {
            Some(CLOUDFLARE_CHALLENGE@)
        } else if self.has_vanished(capture) {
            None
        } else if capture.head.status == 304 {
            None
        } else if capture.head.status != 200 {
            Some(
                "unexpected WordPress comments response status "@ + text::decimal(
                    capture.head.status as nat,
                ) + " on page "@ + page,
            )
        } else if capture.payload.comments is None {
            Some("invalid WordPress comments response on page "@ + page)
        } else if capture.advertised_items() is None {
            Some("missing or invalid X-WP-Total on WordPress comments page "@ + page)
        } else {
            None
        }
    }

    /// Whether a response says that the page of the sweep under way no longer exists.
    pub open spec fn has_vanished(self, capture: CaptureView) -> bool {
        capture.head.status == 400 && self.traversal.latest().page > 1
            && capture.payload.is_invalid_page_error()
    }

    /// The comments that an accepted response adds: none when the page is unchanged.
    pub open spec fn batch(capture: CaptureView) -> Seq<CommentView> {
        if capture.head.status == 304 {
            Seq::empty()
        } else {
            capture.payload.comments->0
        }
    }

    /// The sweep after an accepted response's counts: the same when the page is unchanged.
    pub open spec fn counted(self, capture: CaptureView) -> Sweep {
        let sweep = self.traversal.latest();
        if capture.head.status == 304 {
            sweep
        } else {
            sweep.advertised(capture.advertised_items()->0, capture.advertised_pages())
        }
    }

    /// The state after an accepted response to a page, and what is made of it.
    pub open spec fn turned(self, capture: CaptureView) -> (Self, InspectionView) {
        let comments = Self::batch(capture);
        let sweep = self.counted(capture);
        let seen = CommentDriverView {
            seen: self.seen.with_all(comments),
            ..self.sweeping(sweep)
        };
        let has_next = match sweep.total_pages {
            Some(total) => sweep.page < total,
            None => comments.len() == PER_PAGE,
        };
        let (after, inspection) = if has_next {
            (
                seen.sweeping(Sweep { page: (sweep.page + 1) as usize, ..sweep }),
                InspectionView::nothing(),
            )
        } else {
            seen.finished_sweep()
        };
        (
            after,
            InspectionView { title: batch_title(self.site_name, comments), ..inspection },
        )
    }

    /// The state after a capture, and what is made of it.
    pub open spec fn inspected(self, capture: CaptureView) -> (Self, InspectionView) {
        match self.traversal {
            Traversal::Active(sweep) => match self.refusal(capture) {
                Some(error) => (self, InspectionView::stopped(error)),
                None => if self.has_vanished(capture) {
                    self.sweeping(Sweep { headers_consistent: false, ..sweep }).finished_sweep()
                } else {
                    self.turned(capture)
                },
            },
            _ => (self, InspectionView::nothing()),
        }
    }
}

impl CommentDriver {
    /// Create a comment driver restricted to a fixed update window.
    ///
    /// Every comments request carries `after` and `before` at whole-second UTC precision. The
    /// caller is responsible for choosing an `after` instant earlier than `before`. A base URL
    /// ending in a path is treated as the `WordPress` installation root, so
    /// `https://example.com/blog` targets `https://example.com/blog/wp-json/...`.
    ///
    /// # Errors
    ///
    /// Returns [`AddressError`] when `base_url` is not a URL.
    pub fn for_window(base_url: &str, after: Timestamp, before: Timestamp) -> (driver: Result<
        Self,
        AddressError,
    >)
        requires
            is_short_base(base_url@),
        ensures
            match driver {
                Ok(driver) => comments_address(base_url@) matches Ok((endpoint, host))
                    && driver.deep_view() == CommentDriverView::beginning(
                    endpoint,
                    host,
                    Some(after@),
                    before@,
                ) && driver.deep_view().is_valid() && is_below(endpoint, base_url@),
                Err(error) => comments_address(base_url@) matches Err(reason) && reason
                    == error.deep_view(),
            },
    {
        let mut driver = CommentDriver::with_before(base_url, before)?;
        driver.after = Some(after);
        Ok(driver)
    }

    /// Whether a driver can be made for a base: the path of the comments collection can be set below
    /// it, where it is an address.
    pub fn accepts(base_url: &str) -> (accepted: bool)
        ensures
            accepted == is_short_base(base_url@),
    {
        match web::parse(base_url) {
            Ok(base) => base.is_short(3),
            Err(_) => true,
        }
    }

    /// Whether a query can be added to the collection's address, as every request needs.
    pub fn can_request(&self) -> (able: bool)
        ensures
            able == self.deep_view().can_request(),
    {
        match web::parse(self.endpoint.as_str()) {
            Ok(address) => address.href.as_str().unicode_len() <= u32::MAX as usize,
            Err(_) => true,
        }
    }

    /// The first comments URL: page one in ascending comment-ID order within the window.
    #[must_use]
    pub fn first_comment_url(&self) -> (url: String)
        requires
            self.deep_view().is_valid(),
            self.deep_view().can_request(),
        ensures
            url@ == self.deep_view().page_url(1),
    {
        self.comment_url(1)
    }

    /// Construct a driver with an explicit snapshot cutoff.
    ///
    /// # Errors
    ///
    /// Returns [`AddressError`] when `base_url` is not a URL.
    pub fn with_before(base_url: &str, before: Timestamp) -> (driver: Result<Self, AddressError>)
        requires
            is_short_base(base_url@),
        ensures
            match driver {
                Ok(driver) => comments_address(base_url@) matches Ok((endpoint, host))
                    && driver.deep_view() == CommentDriverView::beginning(
                    endpoint,
                    host,
                    None,
                    before@,
                ) && driver.deep_view().is_valid() && is_below(endpoint, base_url@),
                Err(error) => comments_address(base_url@) matches Err(reason) && reason
                    == error.deep_view(),
            },
    {
        let base = match web::parse(base_url) {
            Ok(base) => base,
            Err(error) => {
                return Err(AddressError::Invalid(error));
            },
        };
        let mut path = text::trim_end(base.path.as_str(), '/');
        let ghost trimmed = path@;
        path.append("/");
        proof {
            text::lemma_trimmed_end_is_a_prefix(base.path@, '/');
            reveal_strlit("/");
            assert(path@.drop_last() == trimmed);
            reveal_strlit("wp-json/wp/v2/comments");
            assert(web::is_plain_path(COMMENTS_ENDPOINT@));
        }
        let root = web::at_path(base_url, path.as_str());
        let href = match web::resolve(root.as_str(), COMMENTS_ENDPOINT) {
            Ok(href) => href,
            Err(error) => {
                return Err(AddressError::Invalid(error));
            },
        };
        proof {
            reveal_strlit("?");
            assert("?"@ =~= seq!['?']);
            text::lemma_no_split(href@, '?');
        }
        let address = match web::parse(href.as_str()) {
            Ok(address) => address,
            Err(error) => {
                return Err(AddressError::Invalid(error));
            },
        };
        let site_name = match &address.host {
            Some(host) => host.clone(),
            None => href.clone(),
        };
        Ok(
            CommentDriver {
                endpoint: href,
                site_name,
                after: None,
                before,
                seen_ids: HashSet::new(),
                first_date: None,
                last_date: None,
                traversal: Traversal::Active(Sweep::first()),
                force_second_sweep: false,
            },
        )
    }

    /// Request a validation sweep even when the first sweep's total is consistent.
    #[must_use]
    pub fn second_sweep(self, enabled: bool) -> (driver: Self)
        ensures
            driver.deep_view() == (CommentDriverView {
                force_second_sweep: enabled,
                ..self.deep_view()
            }),
            self.deep_view().is_valid() ==> driver.deep_view().is_valid(),
    {
        let mut driver = self;
        driver.force_second_sweep = enabled;
        driver
    }

    /// Return progress through the current snapshot once `WordPress` has reported its total.
    #[must_use]
    pub fn progress(&self) -> (progress: Option<CommentProgress>)
        ensures
            progress.deep_view() == self.deep_view().progress(),
    {
        match self.traversal.sweep().effective_total() {
            None => None,
            Some(total) => Some(
                CommentProgress {
                    downloaded: self.seen_ids.len(),
                    total,
                    first_date: self.first_date,
                    last_date: self.last_date,
                    complete: self.traversal.is_complete(),
                },
            ),
        }
    }

    /// Whether the driver can count the page after the one it is at.
    pub fn has_room(&self) -> (room: bool)
        ensures
            room == (self.deep_view().traversal.latest().page < usize::MAX),
    {
        self.traversal.sweep().page < usize::MAX
    }

    /// Build one page URL, retaining the window on every request.
    pub fn comment_url(&self, page: usize) -> (url: String)
        requires
            self.deep_view().is_valid(),
            self.deep_view().can_request(),
        ensures
            url@ == self.deep_view().page_url(page as nat),
    {
        let query = paging_query(self.after, self.before, page);
        web::with_query(self.endpoint.as_str(), query.as_str())
    }

    /// Finish a sweep, optionally scheduling one validation sweep.
    fn finish_sweep(&mut self) -> (inspection: Inspection)
        requires
            old(self).deep_view().is_valid(),
            old(self).deep_view().traversal is Active,
        ensures
            (final(self).deep_view(), inspection.deep_view())
                == old(self).deep_view().finished_sweep(),
            final(self).deep_view().is_valid(),
    {
        let sweep = *self.traversal.sweep();
        let total = sweep.effective_total();
        let plausible = match total {
            Some(total) => self.seen_ids.len() <= total,
            None => false,
        };
        let consistent = sweep.headers_consistent && plausible;
        if sweep.is_primary() && (self.force_second_sweep || !consistent) {
            self.traversal = Traversal::Active(sweep.validation());
            return Inspection::default();
        }
        if !consistent {
            let mut message = "WordPress reported ".to_owned();
            match total {
                Some(total) => message.append(text::count_text(total).as_str()),
                None => message.append("no total"),
            }
            message.append(" comments after sweep ");
            message.append(text::count_text(sweep.number()).as_str());
            message.append(", but ");
            message.append(text::count_text(self.seen_ids.len()).as_str());
            message.append(" distinct IDs were captured");
            message.append(
                if sweep.headers_consistent {
                    ""
                } else {
                    " and pagination headers changed during validation"
                },
            );
            return Inspection::error(message);
        }
        self.traversal.end(true);
        Inspection::default()
    }

    /// Title a parsed comment batch by its ID and GMT date ranges.
    fn title(&self, comments: &Vec<Comment>) -> (title: Option<String>)
        ensures
            title.deep_view() == batch_title(self.deep_view().site_name, comments.deep_view()),
    {
        let mut ids: Vec<u64> = Vec::new();
        let mut dates: Vec<Timestamp> = Vec::new();
        let ghost all = comments.deep_view();
        let mut index: usize = 0;
        while index < comments.len()
            invariant
                index <= comments@.len(),
                all == comments.deep_view(),
                ids@ == ids_of(all.take(index as int)),
                dates.deep_view() == dates_of(all.take(index as int)),
            decreases comments@.len() - index,
        {
            let comment = &comments[index];
            let ghost known = dates.deep_view();
            assert(all.take(index + 1).drop_last() == all.take(index as int));
            ids.push(comment.id);
            assert(ids@ == ids_of(all.take(index + 1)));
            if let Some(date) = comment.date() {
                dates.push(date);
                assert(dates.deep_view() == known.push(date@));
            }
            index += 1;
        }
        assert(all.take(index as int) == all);
        let (first_id, last_id) = bounds(&ids)?;
        let (first_date, last_date) = time_bounds(&dates)?;
        let mut title = text::joined(self.site_name.as_str(), " comments ");
        title.append(text::decimal_of(first_id).as_str());
        title.append("-");
        title.append(text::decimal_of(last_id).as_str());
        title.append(" (");
        title.append(first_date.day().rendered().as_str());
        title.append(" to ");
        title.append(last_date.day().rendered().as_str());
        title.append(")");
        Some(title)
    }

    /// Take one comment into account.
    fn see(&mut self, comment: &Comment)
        ensures
            final(self).deep_view() == (CommentDriverView {
                seen: old(self).deep_view().seen.with(comment.deep_view()),
                ..old(self).deep_view()
            }),
    {
        broadcast use vstd::std_specs::hash::group_hash_axioms;

        let ghost start = self.deep_view();
        if self.seen_ids.insert(comment.id) {
            if let Some(date) = comment.date() {
                let day = date.day();
                self.first_date = match self.first_date {
                    Some(first) if !day.precedes(&first) => Some(first),
                    _ => Some(day),
                };
                self.last_date = match self.last_date {
                    Some(last) if !last.precedes(&day) => Some(last),
                    _ => Some(day),
                };
            }
        }
        assert(self.deep_view() =~= (CommentDriverView {
            seen: start.seen.with(comment.deep_view()),
            ..start
        }));
    }

    /// Take a batch of comments into account.
    fn see_all(&mut self, comments: &Vec<Comment>)
        requires
            old(self).deep_view().is_valid(),
            old(self).deep_view().traversal is Active,
        ensures
            final(self).deep_view() == (CommentDriverView {
                seen: old(self).deep_view().seen.with_all(comments.deep_view()),
                ..old(self).deep_view()
            }),
            final(self).deep_view().is_valid(),
    {
        let ghost start = self.deep_view();
        let ghost all = comments.deep_view();
        let mut index: usize = 0;
        assert(self.deep_view() =~= (CommentDriverView {
            seen: start.seen.with_all(all.take(0)),
            ..start
        }));
        while index < comments.len()
            invariant
                index <= comments@.len(),
                all == comments.deep_view(),
                self.deep_view() == (CommentDriverView {
                    seen: start.seen.with_all(all.take(index as int)),
                    ..start
                }),
            decreases comments@.len() - index,
        {
            assert(all.take(index + 1).drop_last() == all.take(index as int));
            self.see(&comments[index]);
            index += 1;
        }
        assert(all.take(index as int) == all);
        proof {
            lemma_seen_only_grows(start.seen, all);
        }
    }

    /// The request that the driver makes next: the page of the sweep under way.
    pub fn next(&self) -> (request: Option<Request>)
        requires
            self.deep_view().is_valid(),
            self.deep_view().can_request(),
        ensures
            request.deep_view() == self.deep_view().next(),
    {
        match &self.traversal {
            Traversal::Active(sweep) => {
                let url = self.comment_url(sweep.page);
                Some(
                    match sweep.phase {
                        SweepPhase::Primary if sweep.page == 1 => Request::seed(url),
                        SweepPhase::Validation { after, .. } if sweep.page == 1 => Request::extra(
                            url,
                            self.comment_url(after),
                        ),
                        _ => Request::extra(url, self.comment_url(sweep.page - 1)),
                    },
                )
            },
            _ => None,
        }
    }

    /// Take a capture into account.
    pub fn inspect(&mut self, capture: &Capture<'_>) -> (inspection: Inspection)
        requires
            old(self).deep_view().is_valid(),
            old(self).deep_view().traversal.latest().page < usize::MAX,
        ensures
            (final(self).deep_view(), inspection.deep_view()) == old(self).deep_view().inspected(
                capture.deep_view(),
            ),
            final(self).deep_view().is_valid(),
    {
        let ghost start = self.deep_view();
        let mut sweep = match self.traversal {
            Traversal::Active(sweep) => sweep,
            _ => {
                return Inspection::default();
            },
        };
        let page = sweep.page;
        if capture.is_cloudflare_challenge() {
            return Inspection::error(CLOUDFLARE_CHALLENGE.to_owned());
        }
        // A page can disappear between requests when deletions reduce the page count. Some
        // WordPress endpoints report that condition with this posts-controller error code; only
        // that specific 400 ends the sweep, while unrelated client errors fail the traversal.

        if capture.head.status == 400 && page > 1 && capture.payload.is_invalid_page_error() {
            sweep.headers_consistent = false;
            self.traversal = Traversal::Active(sweep);
            return self.finish_sweep();
        }
        if capture.head.status != 200 && capture.head.status != 304 {
            let mut message = "unexpected WordPress comments response status ".to_owned();
            message.append(text::decimal_of(capture.head.status as u64).as_str());
            message.append(" on page ");
            message.append(text::count_text(page).as_str());
            return Inspection::error(message);
        }
        // A revalidated repeated page carries no batch and no fresh page count: the page is
        // unchanged since it was last read, so the sweep continues by the count last advertised.

        let unchanged: Vec<Comment> = Vec::new();
        assert(unchanged.deep_view() == Seq::<CommentView>::empty());
        let comments = if capture.head.status == 304 {
            &unchanged
        } else {
            let comments = match &capture.payload.comments {
                Some(comments) => comments,
                None => {
                    return Inspection::error(
                        text::joined(
                            "invalid WordPress comments response on page ",
                            text::count_text(page).as_str(),
                        ),
                    );
                },
            };
            let total = match capture.advertised_items() {
                Some(total) => total,
                None => {
                    return Inspection::error(
                        text::joined(
                            "missing or invalid X-WP-Total on WordPress comments page ",
                            text::count_text(page).as_str(),
                        ),
                    );
                },
            };
            let total_pages = capture.advertised_pages();
            if let Some(known) = sweep.effective_total() {
                if known != total {
                    sweep.headers_consistent = false;
                }
            }
            if let (Some(known), Some(current)) = (sweep.total_pages, total_pages) {
                if known != current {
                    sweep.headers_consistent = false;
                }
            }
            sweep.total = Some(total);
            sweep.total_pages = total_pages;
            comments
        };
        assert(sweep == start.counted(capture.deep_view()));
        self.traversal = Traversal::Active(sweep);
        let title = self.title(comments);
        self.see_all(comments);
        let has_next = match sweep.total_pages {
            Some(total) => page < total,
            None => comments.len() == PER_PAGE,
        };
        let mut inspection = if has_next {
            sweep.page = page + 1;
            self.traversal = Traversal::Active(sweep);
            Inspection::default()
        } else {
            self.finish_sweep()
        };
        inspection.title = title;
        inspection
    }

    /// Take a failed capture into account, which ends the requests.
    pub fn failed(&mut self)
        ensures
            final(self).deep_view() == (CommentDriverView {
                traversal: old(self).deep_view().traversal.ended(false),
                ..old(self).deep_view()
            }),
            old(self).deep_view().is_valid() ==> final(self).deep_view().is_valid(),
    {
        self.traversal.end(false);
    }
}

/// The identifiers seen only grow, and stay finite.
pub proof fn lemma_seen_only_grows(seen: Seen, comments: Seq<CommentView>)
    ensures
        seen.ids.subset_of(seen.with_all(comments).ids),
        seen.ids.finite() ==> seen.with_all(comments).ids.finite(),
        forall|index: int|
            0 <= index < comments.len() ==> seen.with_all(comments).ids.contains(
                (#[trigger] comments[index]).id,
            ),
    decreases comments.len(),
{
    if comments.len() > 0 {
        lemma_seen_only_grows(seen, comments.drop_last());
        assert forall|index: int| 0 <= index < comments.len() implies seen.with_all(
            comments,
        ).ids.contains((#[trigger] comments[index]).id) by {
            if index < comments.len() - 1 {
                assert(comments.drop_last()[index] == comments[index]);
            }
        }
    }
}

/// Aggregate progress through a `WordPress` comment snapshot.
#[derive(Clone, Copy, Debug, Eq, PartialEq)]
pub struct CommentProgress {
    /// Number of distinct comment IDs downloaded so far.
    pub downloaded: usize,
    /// Total comments reported by `WordPress` for the snapshot.
    pub total: usize,
    /// Earliest valid GMT date among downloaded comments.
    pub first_date: Option<Day>,
    /// Latest valid GMT date among downloaded comments.
    pub last_date: Option<Day>,
    /// Whether the driver completed a stable traversal of the snapshot.
    pub complete: bool,
}

/// The parts of a [`CommentProgress`].
pub struct CommentProgressView {
    pub downloaded: nat,
    pub total: nat,
    pub first_date: Option<int>,
    pub last_date: Option<int>,
    pub complete: bool,
}

impl DeepView for CommentProgress {
    type V = CommentProgressView;

    open spec fn deep_view(&self) -> CommentProgressView {
        CommentProgressView {
            downloaded: self.downloaded as nat,
            total: self.total as nat,
            first_date: self.first_date.deep_view(),
            last_date: self.last_date.deep_view(),
            complete: self.complete,
        }
    }
}

impl CommentProgressView {
    /// Number included in `X-WP-Total` but omitted from the completed public response pages.
    pub open spec fn shortfall(self) -> Option<nat> {
        if self.complete && self.downloaded < self.total {
            Some((self.total - self.downloaded) as nat)
        } else {
            None
        }
    }

    /// The first and last dates, where both are known.
    pub open spec fn dates(self) -> Option<Seq<char>> {
        match (self.first_date, self.last_date) {
            (Some(first), Some(last)) => Some(
                clock::day_text(first) + " to "@ + clock::day_text(last),
            ),
            _ => None,
        }
    }

    /// How many comments were downloaded of how many, and their dates.
    pub open spec fn summary(self) -> Seq<char> {
        let downloaded = text::decimal(self.downloaded);
        let total = text::decimal(self.total);
        if self.shortfall() is Some {
            let counts = "Downloaded "@ + downloaded + " visible comments"@
                + " (WordPress reported "@ + total + " before visibility filtering"@;
            match self.dates() {
                Some(dates) => counts + "; "@ + dates + ")"@,
                None => counts + ")"@,
            }
        } else {
            let counts = "Downloaded "@ + downloaded + " of "@ + total + " comments"@;
            match self.dates() {
                Some(dates) => counts + " ("@ + dates + ")"@,
                None => counts,
            }
        }
    }
}

impl CommentProgress {
    /// Number included in `X-WP-Total` but omitted from the completed public response pages.
    ///
    /// `WordPress` performs per-comment visibility checks after querying and paginating, so this
    /// difference ordinarily represents comments attached to posts the requester cannot read.
    #[must_use]
    pub fn visibility_shortfall(self) -> (shortfall: Option<usize>)
        ensures
            match shortfall {
                Some(shortfall) => self.deep_view().shortfall() == Some(shortfall as nat),
                None => self.deep_view().shortfall() is None,
            },
    {
        if self.complete && self.downloaded < self.total {
            Some(self.total - self.downloaded)
        } else {
            None
        }
    }

    /// How many comments were downloaded of how many, and their dates.
    pub fn to_string(&self) -> (summary: String)
        ensures
            summary@ == self.deep_view().summary(),
    {
        let mut dates: Option<String> = None;
        if let (Some(first), Some(last)) = (self.first_date, self.last_date) {
            let mut range = text::joined(first.rendered().as_str(), " to ");
            range.append(last.rendered().as_str());
            dates = Some(range);
        }
        assert(dates.deep_view() == self.deep_view().dates());
        let mut summary = text::joined("Downloaded ", text::count_text(self.downloaded).as_str());
        if self.visibility_shortfall().is_some() {
            summary.append(" visible comments");
            summary.append(" (WordPress reported ");
            summary.append(text::count_text(self.total).as_str());
            summary.append(" before visibility filtering");
            if let Some(dates) = dates {
                summary.append("; ");
                summary.append(dates.as_str());
            }
            summary.append(")");
        } else {
            summary.append(" of ");
            summary.append(text::count_text(self.total).as_str());
            summary.append(" comments");
            if let Some(dates) = dates {
                summary.append(" (");
                summary.append(dates.as_str());
                summary.append(")");
            }
        }
        summary
    }
}

/// Comments once seen stay seen, whatever is captured later.
pub proof fn seen_comments_are_retained(driver: CommentDriverView, capture: CaptureView)
    ensures
        driver.seen.ids.subset_of(driver.inspected(capture).0.seen.ids),
{
    lemma_seen_only_grows(driver.seen, CommentDriverView::batch(capture));
}

/// A traversal completes only with a consistent snapshot: the counts agreed during its last sweep,
/// and no more comments were seen than were reported.
pub proof fn a_complete_traversal_is_consistent(driver: CommentDriverView, capture: CaptureView)
    requires
        driver.traversal is Active,
        driver.inspected(capture).0.traversal is Complete,
    ensures
        driver.inspected(capture).0.is_consistent(),
        driver.inspected(capture).1.error is None,
{
}

/// A driver sweeps the pages at most twice: a validation sweep is never followed by another.
pub proof fn there_are_at_most_two_sweeps(driver: CommentDriverView, capture: CaptureView)
    requires
        driver.traversal.latest().phase is Validation,
    ensures
        driver.inspected(capture).0.traversal.latest().phase
            == driver.traversal.latest().phase,
{
}

/// A requested second sweep runs however the first one ends, and repeats its pages via the last.
pub proof fn a_requested_second_sweep_is_made(driver: CommentDriverView)
    requires
        driver.force_second_sweep,
        driver.traversal matches Traversal::Active(sweep) && sweep.phase is Primary,
    ensures
        driver.finished_sweep().0.next() == Some(
            RequestView {
                url: driver.page_url(1),
                via: Some(driver.page_url(driver.traversal.latest().page as nat)),
            },
        ),
{
}

/// Every page after the first is requested via the page before it.
pub proof fn comment_pages_follow_each_other(driver: CommentDriverView, capture: CaptureView)
    requires
        driver.is_valid(),
        driver.traversal is Active,
        driver.traversal.latest().page < usize::MAX,
        driver.inspected(capture).0.traversal matches Traversal::Active(sweep) && sweep.page
            == driver.traversal.latest().page + 1,
    ensures
        driver.inspected(capture).0.next() == Some(
            RequestView {
                url: driver.page_url((driver.traversal.latest().page + 1) as nat),
                via: Some(driver.next()->0.url),
            },
        ),
{
}

/// Every page of a window has a URL of its own.
pub proof fn different_comment_pages_have_different_urls(
    driver: CommentDriverView,
    first: nat,
    second: nat,
)
    requires
        first != second,
    ensures
        driver.page_url(first) != driver.page_url(second),
{
    let front = web::parsed_address(driver.endpoint)->Ok_0.href + "?"@ + ((match driver.after {
        Some(after) => "after="@ + clock::whole_second_text(after.seconds, after.nanos) + "&"@,
        None => ""@,
    }) + "before="@ + clock::whole_second_text(driver.before.seconds, driver.before.nanos)
        + "&orderby=id&order=asc&page="@);
    let back = "&per_page="@ + text::decimal(PER_PAGE as nat);
    let left = front + text::decimal(first) + back;
    let right = front + text::decimal(second) + back;
    assert(driver.page_url(first) =~= left);
    assert(driver.page_url(second) =~= right);
    if left == right {
        let start = front.len() as int;
        assert(left.subrange(start, left.len() - back.len()) =~= text::decimal(first));
        assert(right.subrange(start, right.len() - back.len()) =~= text::decimal(second));
        text::lemma_decimal_is_injective(first, second);
    }
}

/// The address that the URL of a page is read as holds the window, the order, the page, and the
/// page size.
pub proof fn a_comment_page_url_carries_its_query(driver: CommentDriverView, page: nat)
    requires
        driver.is_valid(),
        clock::reads_back(driver.before),
        driver.after matches Some(after) ==> clock::reads_back(after),
        web::is_read(driver.page_url(page)),
    ensures
        web::parsed_address(driver.page_url(page)) matches Ok(address) ==> address.pairs
            == paging_pairs(driver.after, driver.before, page) && address.fragment is None,
{
    let front = web::parsed_address(driver.endpoint)->Ok_0.href;
    let query = paging_query_text(driver.after, driver.before, page);
    let inner = archive::page_query(driver.before, page, PER_PAGE as nat);
    archive::lemma_page_query(driver.before, page, PER_PAGE as nat);
    reveal_strlit("?");
    assert("?"@ =~= seq!['?']);
    text::lemma_split_at_first(front, '?', query);
    match driver.after {
        Some(after) => {
            lemma_since_query(after, inner);
            assert(query =~= "after="@ + clock::whole_second_text(after.seconds, after.nanos)
                + "&"@ + inner);
        },
        None => {
            reveal_strlit("");
            assert(query =~= inner);
        },
    }
    assert(web::literal_pairs(query) =~= paging_pairs(driver.after, driver.before, page));
}

/// A window's start before a literal query makes a literal query with one more pair.
proof fn lemma_since_query(after: Moment, inner: Seq<char>)
    requires
        clock::reads_back(after),
        web::is_literal_query(inner),
    ensures
        ({
            let since = clock::whole_second_text(after.seconds, after.nanos);
            let query = "after="@ + since + "&"@ + inner;
            &&& web::is_literal_query(query)
            &&& web::literal_pairs(query) == seq![("after"@, since)] + web::literal_pairs(inner)
        }),
{
    let since = clock::whole_second_text(after.seconds, after.nanos);
    reveal_strlit("after=");
    reveal_strlit("after");
    reveal_strlit("=");
    reveal_strlit("&");
    assert("after="@ =~= "after"@ + "="@);
    assert(web::is_literal_query("after="@ + since + "&"@));
    web::lemma_joined_queries("after="@ + since + "&"@, inner);
    web::lemma_first_pair("after"@, since, inner);
    assert("after="@ + since + "&"@ + inner =~= "after"@ + "="@ + since + "&"@ + inner);
}

/// A failed capture ends the requests, unless they had already ended.
pub proof fn a_failed_capture_ends_the_requests(driver: CommentDriverView)
    ensures
        (CommentDriverView {
            traversal: driver.traversal.ended(false),
            ..driver
        }).next() is None,
{
}

/// A response that ends the session changes nothing but what the page before it was counted for.
pub proof fn a_refused_page_changes_nothing(driver: CommentDriverView, capture: CaptureView)
    requires
        driver.traversal is Active,
        driver.refusal(capture) is Some,
    ensures
        driver.inspected(capture).0 == driver,
{
}

/// Whether a response answers a page of comments: with the comments and their number, or by saying
/// that they have not changed.
pub open spec fn is_answer(capture: CaptureView) -> bool {
    ||| capture.head.status == 304
    ||| capture.head.status == 200 && capture.payload.comments is Some
        && capture.advertised_items() is Some
}

/// Whether a response says of a page after the first that it is no longer there.
pub open spec fn is_withdrawn(page: usize, capture: CaptureView) -> bool {
    capture.head.status == 400 && page > 1 && capture.payload.error_code == Some(
        "rest_post_invalid_page_number"@,
    )
}

/// A response ends the session, and changes nothing, where it neither answers the page nor says
/// that it is no longer there.
pub proof fn only_answers_are_accepted(driver: CommentDriverView, capture: CaptureView)
    requires
        driver.traversal is Active,
    ensures
        driver.refusal(capture) is None <==> is_answer(capture) || is_withdrawn(
            driver.traversal->Active_0.page,
            capture,
        ),
        driver.refusal(capture) is Some ==> driver.inspected(capture).0 == driver
            && driver.inspected(capture).1.error is Some,
{
}

/// A page before the last that is advertised, or a full page where no page count is, is followed by
/// the request for the next page of the same sweep.
pub proof fn a_sweep_goes_on_to_its_page_count(driver: CommentDriverView, capture: CaptureView)
    requires
        driver.traversal is Active,
        driver.traversal->Active_0.page < usize::MAX,
        is_answer(capture),
        ({
            let sweep = driver.traversal->Active_0;
            let pages = if capture.head.status == 304 {
                sweep.total_pages
            } else {
                capture.advertised_pages()
            };
            match pages {
                Some(pages) => sweep.page < pages,
                None => capture.head.status == 200 && capture.payload.comments->0.len() == 100,
            }
        }),
    ensures
        ({
            let sweep = driver.traversal->Active_0;
            let (after, inspection) = driver.inspected(capture);
            &&& inspection.error is None
            &&& after.traversal matches Traversal::Active(next) && next.phase == sweep.phase
                && next.page == sweep.page + 1
            &&& after.next() matches Some(request) && request.url == driver.page_url(
                (sweep.page + 1) as nat,
            ) && (sweep.page >= 1 ==> request.via == Some(driver.page_url(sweep.page as nat)))
        }),
{
}

/// The last page of a sweep completes the traversal where the counts of the sweep agree and cover
/// the comments seen, unless another sweep is requested; it is otherwise followed by the first page
/// of the second sweep, or in that sweep by an error.
pub proof fn a_sweep_ends_at_its_page_count(
    driver: CommentDriverView,
    capture: CaptureView,
    items: usize,
    pages: usize,
)
    requires
        driver.traversal is Active,
        capture.head.status == 200,
        capture.payload.comments is Some,
        capture.advertised_items() == Some(items),
        capture.advertised_pages() == Some(pages),
        pages <= driver.traversal->Active_0.page,
    ensures
        ({
            let sweep = driver.traversal->Active_0;
            let (after, inspection) = driver.inspected(capture);
            let agreed = {
                &&& sweep.headers_consistent
                &&& sweep.total matches Some(known) ==> known == items
                &&& sweep.total is None ==> (sweep.phase matches SweepPhase::Validation {
                    previous_total: Some(known),
                    ..
                } ==> known == items)
                &&& sweep.total_pages matches Some(known) ==> known == pages
                &&& after.seen.ids.len() <= items
            };
            let first = sweep.phase is Primary;
            &&& agreed && !(first && driver.force_second_sweep) <==> after.traversal is Complete
            &&& first && !(after.traversal is Complete) ==> inspection.error is None
                && after.next() == Some(
                RequestView {
                    url: driver.page_url(1),
                    via: Some(driver.page_url(sweep.page as nat)),
                },
            ) && after.traversal->Active_0.phase == (SweepPhase::Validation {
                previous_total: Some(items),
                after: sweep.page,
            })
            &&& !first ==> (inspection.error is Some <==> !agreed)
            &&& after.traversal is Complete ==> inspection.error is None && after.next() is None
        }),
{
}

/// A page that is no longer there ends its sweep, but never the traversal: the first sweep is
/// followed by the second, and the second ends the session.
pub proof fn a_withdrawn_page_completes_nothing(driver: CommentDriverView, capture: CaptureView)
    requires
        driver.traversal is Active,
        is_withdrawn(driver.traversal->Active_0.page, capture),
    ensures
        ({
            let sweep = driver.traversal->Active_0;
            let (after, inspection) = driver.inspected(capture);
            &&& after.traversal is Active
            &&& after.seen == driver.seen
            &&& sweep.phase is Validation <==> inspection.error is Some
            &&& sweep.phase is Primary ==> after.next() == Some(
                RequestView {
                    url: driver.page_url(1),
                    via: Some(driver.page_url(sweep.page as nat)),
                },
            )
        }),
{
}

/// A driver after some captures, in order.
pub open spec fn swept(driver: CommentDriverView, captures: Seq<CaptureView>) -> CommentDriverView
    decreases captures.len(),
{
    if captures.len() == 0 {
        driver
    } else {
        swept(driver, captures.drop_last()).inspected(captures.last()).0
    }
}

/// Whether a capture answers a page of the sweep in which the driver starts, without an error.
pub open spec fn turns_at(
    driver: CommentDriverView,
    captures: Seq<CaptureView>,
    index: int,
) -> bool {
    let state = swept(driver, captures.take(index));
    &&& is_answer(captures[index])
    &&& state.inspected(captures[index]).1.error is None
    &&& state.traversal is Active
    &&& state.traversal->Active_0.phase == driver.traversal->Active_0.phase
}

/// Whether captures answer pages of the sweep in which the driver starts, one after another.
pub open spec fn turns(driver: CommentDriverView, captures: Seq<CaptureView>) -> bool {
    &&& driver.traversal is Active
    &&& forall|index: int|
        0 <= index < captures.len() ==> #[trigger] turns_at(driver, captures, index)
}

proof fn lemma_pages_turned(driver: CommentDriverView, captures: Seq<CaptureView>, count: int)
    requires
        turns(driver, captures),
        0 <= count < captures.len(),
        driver.traversal->Active_0.page + captures.len() <= usize::MAX,
    ensures
        ({
            let state = swept(driver, captures.take(count));
            &&& state.traversal is Active
            &&& state.traversal->Active_0.phase == driver.traversal->Active_0.phase
            &&& state.traversal->Active_0.page == driver.traversal->Active_0.page + count
            &&& state.endpoint == driver.endpoint
            &&& state.after == driver.after
            &&& state.before == driver.before
        }),
    decreases count,
{
    assert(turns_at(driver, captures, count));
    if count > 0 {
        let before = count - 1;
        lemma_pages_turned(driver, captures, before);
        assert(turns_at(driver, captures, before));
        assert(captures.take(count).drop_last() =~= captures.take(before));
        assert(captures.take(count).last() == captures[before]);
        let state = swept(driver, captures.take(before));
        only_answers_are_accepted(state, captures[before]);
        lemma_a_turn_within_a_sweep(state, captures[before]);
    } else {
        assert(captures.take(0) =~= Seq::empty());
    }
}

/// An answer after which the same sweep is under way turned its page.
proof fn lemma_a_turn_within_a_sweep(driver: CommentDriverView, capture: CaptureView)
    requires
        driver.traversal is Active,
        driver.traversal->Active_0.page < usize::MAX,
        is_answer(capture),
        driver.inspected(capture).1.error is None,
        driver.inspected(capture).0.traversal is Active,
        driver.inspected(capture).0.traversal->Active_0.phase
            == driver.traversal->Active_0.phase,
    ensures
        driver.inspected(capture).0.traversal->Active_0.page == driver.traversal->Active_0.page + 1,
        driver.inspected(capture).0.endpoint == driver.endpoint,
        driver.inspected(capture).0.after == driver.after,
        driver.inspected(capture).0.before == driver.before,
{
}

/// Captures that answer the pages of one sweep and complete the traversal answered every page from
/// the one at which they began through the page count last advertised, each by its own request.
pub proof fn a_complete_traversal_turned_every_page(
    driver: CommentDriverView,
    captures: Seq<CaptureView>,
)
    requires
        turns(driver, captures),
        captures.len() > 0,
        driver.traversal->Active_0.page + captures.len() <= usize::MAX,
        swept(driver, captures).traversal is Complete,
    ensures
        forall|index: int|
            0 <= index < captures.len() ==> {
                &&& (#[trigger] swept(driver, captures.take(index))).next() is Some
                &&& swept(driver, captures.take(index)).next()->0.url == driver.page_url(
                    (driver.traversal->Active_0.page + index) as nat,
                )
            },
        captures.last().head.status == 200 ==> (captures.last().advertised_pages() matches Some(
            pages,
        ) ==> pages <= driver.traversal->Active_0.page + captures.len() - 1),
        captures.last().head.status == 304 ==> (swept(
            driver,
            captures.drop_last(),
        ).traversal->Active_0.total_pages matches Some(pages) ==> pages
            <= driver.traversal->Active_0.page + captures.len() - 1),
{
    assert forall|index: int| 0 <= index < captures.len() implies {
        &&& (#[trigger] swept(driver, captures.take(index))).next() is Some
        &&& swept(driver, captures.take(index)).next()->0.url == driver.page_url(
            (driver.traversal->Active_0.page + index) as nat,
        )
    } by {
        lemma_pages_turned(driver, captures, index);
    }
    let last = captures.len() - 1;
    lemma_pages_turned(driver, captures, last);
    assert(turns_at(driver, captures, last));
    assert(captures.drop_last() =~= captures.take(last));
    lemma_completed_at_the_last_page(swept(driver, captures.take(last)), captures.last());
}

/// An answer that completes the traversal is to a page no less than the page count it knows.
proof fn lemma_completed_at_the_last_page(driver: CommentDriverView, capture: CaptureView)
    requires
        driver.traversal is Active,
        driver.traversal->Active_0.page < usize::MAX,
        is_answer(capture),
        driver.inspected(capture).0.traversal is Complete,
    ensures
        capture.head.status == 200 ==> (capture.advertised_pages() matches Some(pages) ==> pages
            <= driver.traversal->Active_0.page),
        capture.head.status == 304 ==> (
        driver.traversal->Active_0.total_pages matches Some(pages) ==> pages
            <= driver.traversal->Active_0.page),
{
}

/// The comments seen after a page are those before it and those of the page, no others; their days
/// widen the days before them just as far as the comments that are new.
pub proof fn what_is_seen_is_what_was_returned(seen: Seen, comments: Seq<CommentView>)
    ensures
        ({
            let after = seen.with_all(comments);
            &&& forall|id: u64| #[trigger]
                after.ids.contains(id) <==> seen.ids.contains(id) || exists|index: int|
                    0 <= index < comments.len() && (#[trigger] comments[index]).id == id
            &&& seen.first_date matches Some(first) ==> after.first_date matches Some(now) && now
                <= first
            &&& seen.last_date matches Some(last) ==> after.last_date matches Some(now) && last
                <= now
            &&& after.first_date matches Some(first) ==> seen.first_date == Some(first) || exists|
                index: int,
            |
                0 <= index < comments.len() && ((#[trigger] comments[index]).date() matches Some(
                    date,
                ) && date.day() == first)
            &&& after.last_date matches Some(last) ==> seen.last_date == Some(last) || exists|
                index: int,
            |
                0 <= index < comments.len() && ((#[trigger] comments[index]).date() matches Some(
                    date,
                ) && date.day() == last)
        }),
    decreases comments.len(),
{
    if comments.len() > 0 {
        let earlier = comments.drop_last();
        let last = comments.len() - 1;
        what_is_seen_is_what_was_returned(seen, earlier);
        let before = seen.with_all(earlier);
        let after = seen.with_all(comments);
        assert(comments[last] == comments.last());
        assert forall|id: u64| #[trigger]
            after.ids.contains(id) <==> seen.ids.contains(id) || exists|index: int|
                0 <= index < comments.len() && (#[trigger] comments[index]).id == id by {
            assert(after.ids.contains(id) <==> before.ids.contains(id) || comments[last].id == id);
            if before.ids.contains(id) && !seen.ids.contains(id) {
                let index = choose|index: int|
                    0 <= index < earlier.len() && (#[trigger] earlier[index]).id == id;
                assert(comments[index].id == id);
            }
            if exists|index: int| 0 <= index < comments.len() && (#[trigger] comments[index]).id
                == id {
                let index = choose|index: int|
                    0 <= index < comments.len() && (#[trigger] comments[index]).id == id;
                if index < last {
                    assert(earlier[index].id == id);
                }
            }
        }
        if before.first_date is Some && before.first_date != seen.first_date {
            let index = choose|index: int|
                0 <= index < earlier.len() && ((#[trigger] earlier[index]).date() matches Some(
                    date,
                ) && date.day() == before.first_date->0);
            assert(comments[index] == earlier[index]);
        }
        if before.last_date is Some && before.last_date != seen.last_date {
            let index = choose|index: int|
                0 <= index < earlier.len() && ((#[trigger] earlier[index]).date() matches Some(
                    date,
                ) && date.day() == before.last_date->0);
            assert(comments[index] == earlier[index]);
        }
    }
}

/// The days seen hold that of every comment whose identifier is new, at the first place where it
/// stands.
pub proof fn days_of_new_comments_are_seen(seen: Seen, comments: Seq<CommentView>, index: int)
    requires
        0 <= index < comments.len(),
        comments[index].date() is Some,
        !seen.ids.contains(comments[index].id),
        forall|earlier: int|
            0 <= earlier < index ==> (#[trigger] comments[earlier]).id != comments[index].id,
    ensures
        ({
            let day = comments[index].date()->0.day();
            let after = seen.with_all(comments);
            &&& after.first_date matches Some(first) && first <= day
            &&& after.last_date matches Some(last) && day <= last
        }),
    decreases comments.len(),
{
    let earlier = comments.drop_last();
    if index < comments.len() - 1 {
        assert(earlier[index] == comments[index]);
        assert forall|before: int| 0 <= before < index implies (#[trigger] earlier[before]).id
            != earlier[index].id by {
            assert(comments[before] == earlier[before]);
        }
        days_of_new_comments_are_seen(seen, earlier, index);
    } else {
        what_is_seen_is_what_was_returned(seen, earlier);
        if seen.with_all(earlier).ids.contains(comments[index].id) {
            let before = choose|before: int|
                0 <= before < earlier.len() && (#[trigger] earlier[before]).id
                    == comments[index].id;
            assert(comments[before].id == comments[index].id);
        }
    }
}

/// An answer adds its comments to what was seen, and an unchanged page none.
pub proof fn an_answer_adds_its_comments(driver: CommentDriverView, capture: CaptureView)
    requires
        driver.traversal is Active,
        is_answer(capture),
    ensures
        capture.head.status == 200 ==> driver.inspected(capture).0.seen == driver.seen.with_all(
            capture.payload.comments->0,
        ),
        capture.head.status == 304 ==> driver.inspected(capture).0.seen == driver.seen,
{
}

/// The dates of comments are those of every comment that has one, in order.
pub proof fn every_date_of_a_comment_is_kept(comments: Seq<CommentView>)
    ensures
        dates_of(comments) == comments.filter(
            |comment: CommentView| comment.date() is Some,
        ).map_values(|comment: CommentView| comment.date()->0),
    decreases comments.len(),
{
    reveal(Seq::filter);
    if comments.len() > 0 {
        every_date_of_a_comment_is_kept(comments.drop_last());
    }
}

/// The bounds of points in time are among them, and none precedes the first or is preceded by the
/// last.
pub proof fn time_bounds_hold_every_moment(items: Seq<Moment>)
    ensures
        moment_bounds(items) is None <==> items.len() == 0,
        moment_bounds(items) matches Some((earliest, latest)) ==> items.contains(earliest)
            && items.contains(latest) && forall|index: int|
            0 <= index < items.len() ==> !(#[trigger] items[index]).precedes(earliest)
                && !latest.precedes(items[index]),
    decreases items.len(),
{
    if items.len() > 0 {
        let earlier = items.drop_last();
        time_bounds_hold_every_moment(earlier);
        assert(items[items.len() - 1] == items.last());
        if let Some((first, last)) = moment_bounds(earlier) {
            assert(items[earlier.index_of(first)] == first);
            assert(items[earlier.index_of(last)] == last);
            let (low, high) = moment_bounds(items)->0;
            assert forall|index: int| 0 <= index < items.len() implies !(
            #[trigger] items[index]).precedes(low) && !high.precedes(items[index]) by {
                if index < items.len() - 1 {
                    assert(earlier[index] == items[index]);
                }
            }
        }
    }
}

/// Progress is known once a total is, and tells what was seen of it; the comments that a complete
/// traversal did not see make up the difference.
pub proof fn progress_counts_what_was_seen(driver: CommentDriverView)
    ensures
        ({
            let sweep = driver.traversal.latest();
            let total = match sweep.total {
                Some(total) => Some(total),
                None => match sweep.phase {
                    SweepPhase::Primary => None,
                    SweepPhase::Validation { previous_total, .. } => previous_total,
                },
            };
            &&& driver.progress() is None <==> total is None
            &&& driver.progress() matches Some(progress) ==> {
                &&& progress.total == total->0
                &&& progress.downloaded == driver.seen.ids.len()
                &&& progress.first_date == driver.seen.first_date
                &&& progress.last_date == driver.seen.last_date
                &&& progress.complete <==> driver.traversal is Complete
                &&& progress.shortfall() matches Some(missing) ==> progress.complete && missing > 0
                    && progress.downloaded + missing == progress.total
                &&& progress.complete && progress.shortfall() is None ==> progress.total
                    <= progress.downloaded
            }
        }),
{
}

/// A driver begins with the first page of its window, for its own sake, and has seen nothing.
pub proof fn a_window_begins_at_its_first_page(
    endpoint: Seq<char>,
    host: Option<Seq<char>>,
    after: Option<Moment>,
    before: Moment,
)
    ensures
        ({
            let driver = CommentDriverView::beginning(endpoint, host, after, before);
            &&& driver.next() == Some(RequestView { url: driver.page_url(1), via: None })
            &&& driver.seen.ids.len() == 0
            &&& driver.progress() is None
            &&& driver.after == after
            &&& driver.before == before
            &&& !driver.force_second_sweep
        }),
{
}

/// The counts of a page are those of the sweep from then on, and a sweep whose counts once differed
/// from those known before does not agree any more; an unchanged page changes neither.
pub proof fn disagreeing_counts_are_remembered(driver: CommentDriverView, capture: CaptureView)
    requires
        driver.traversal is Active,
        driver.traversal->Active_0.page < usize::MAX,
        is_answer(capture),
        driver.inspected(capture).0.traversal is Active,
        driver.inspected(capture).0.traversal->Active_0.phase
            == driver.traversal->Active_0.phase,
        driver.inspected(capture).1.error is None,
    ensures
        ({
            let sweep = driver.traversal->Active_0;
            let next = driver.inspected(capture).0.traversal->Active_0;
            let known = match (sweep.total, sweep.phase) {
                (Some(total), _) => Some(total),
                (None, SweepPhase::Validation { previous_total, .. }) => previous_total,
                (None, SweepPhase::Primary) => None,
            };
            let items = capture.advertised_items();
            let pages = capture.advertised_pages();
            &&& capture.head.status == 304 ==> next.total == sweep.total && next.total_pages
                == sweep.total_pages && next.headers_consistent == sweep.headers_consistent
            &&& capture.head.status == 200 ==> next.total == items && next.total_pages == pages
            &&& capture.head.status == 200 ==> (next.headers_consistent
                <==> sweep.headers_consistent && (known is Some ==> known == items) && (
            sweep.total_pages is Some && pages is Some ==> sweep.total_pages == pages))
        }),
{
}

/// An answer after which no page is left ends its sweep: the traversal is complete, or the second
/// sweep begins with the first page, or the session ends.
pub proof fn a_sweep_without_more_pages_ends(driver: CommentDriverView, capture: CaptureView)
    requires
        driver.traversal is Active,
        is_answer(capture),
        ({
            let sweep = driver.traversal->Active_0;
            let pages = if capture.head.status == 304 {
                sweep.total_pages
            } else {
                capture.advertised_pages()
            };
            match pages {
                Some(pages) => pages <= sweep.page,
                None => capture.head.status == 304 || capture.payload.comments->0.len() != 100,
            }
        }),
    ensures
        ({
            let sweep = driver.traversal->Active_0;
            let (after, inspection) = driver.inspected(capture);
            ||| after.traversal is Complete && inspection.error is None
            ||| sweep.phase is Primary && inspection.error is None && after.next() == Some(
                RequestView {
                    url: driver.page_url(1),
                    via: Some(driver.page_url(sweep.page as nat)),
                },
            )
            ||| sweep.phase is Validation && inspection.error is Some
        }),
{
}

/// A batch has a title exactly where one of its comments has a date.
pub proof fn dated_batches_have_a_title(site_name: Seq<char>, comments: Seq<CommentView>)
    ensures
        batch_title(site_name, comments) is Some <==> exists|index: int|
            0 <= index < comments.len() && (#[trigger] comments[index]).date() is Some,
{
    bounds_are_the_minimum_and_maximum(ids_of(comments));
    time_bounds_hold_every_moment(dates_of(comments));
    lemma_some_date(comments);
}

proof fn lemma_some_date(comments: Seq<CommentView>)
    ensures
        dates_of(comments).len() > 0 <==> exists|index: int|
            0 <= index < comments.len() && (#[trigger] comments[index]).date() is Some,
    decreases comments.len(),
{
    if comments.len() > 0 {
        let before = comments.drop_last();
        lemma_some_date(before);
        assert(comments[comments.len() - 1] == comments.last());
        if dates_of(before).len() > 0 {
            let index = choose|index: int|
                0 <= index < before.len() && (#[trigger] before[index]).date() is Some;
            assert(comments[index] == before[index]);
        }
        if exists|index: int|
            0 <= index < comments.len() && (#[trigger] comments[index]).date() is Some {
            let index = choose|index: int|
                0 <= index < comments.len() && (#[trigger] comments[index]).date() is Some;
            if index < before.len() {
                assert(before[index] == comments[index]);
            }
        }
    }
}

/// The second sweep is held to the counts that the first one ended with, and begins without counts
/// of its own.
pub proof fn a_second_sweep_is_held_to_the_first(driver: CommentDriverView, capture: CaptureView)
    requires
        driver.traversal is Active,
        driver.traversal->Active_0.phase is Primary,
        is_answer(capture) || is_withdrawn(driver.traversal->Active_0.page, capture),
        driver.inspected(capture).0.traversal is Active,
        driver.inspected(capture).0.traversal->Active_0.phase is Validation,
    ensures
        ({
            let sweep = driver.traversal->Active_0;
            let second = driver.inspected(capture).0.traversal->Active_0;
            let answered = capture.head.status == 200;
            &&& second.page == 1
            &&& second.total is None
            &&& second.headers_consistent
            &&& second.total_pages == (if answered {
                capture.advertised_pages()
            } else {
                sweep.total_pages
            })
            &&& second.phase == (SweepPhase::Validation {
                previous_total: if answered {
                    capture.advertised_items()
                } else {
                    sweep.total
                },
                after: sweep.page,
            })
        }),
{
}

/// Comments that were all seen before change nothing, whatever their dates.
pub proof fn repeated_comments_change_nothing(seen: Seen, comments: Seq<CommentView>)
    requires
        forall|index: int|
            0 <= index < comments.len() ==> seen.ids.contains((#[trigger] comments[index]).id),
    ensures
        seen.with_all(comments) == seen,
    decreases comments.len(),
{
    if comments.len() > 0 {
        let before = comments.drop_last();
        assert forall|index: int| 0 <= index < before.len() implies seen.ids.contains(
            (#[trigger] before[index]).id,
        ) by {
            assert(before[index] == comments[index]);
        }
        repeated_comments_change_nothing(seen, before);
        assert(seen.ids.contains(comments[comments.len() - 1].id));
    }
}

/// A batch is titled by its least and greatest identifiers and by the days of its earliest and latest
/// dates.
pub proof fn a_batch_is_titled_by_its_bounds(
    site_name: Seq<char>,
    comments: Seq<CommentView>,
    low: int,
    high: int,
    early: Moment,
    late: Moment,
)
    requires
        0 <= low < comments.len(),
        0 <= high < comments.len(),
        forall|index: int|
            0 <= index < comments.len() ==> comments[low].id <= (#[trigger] comments[index]).id
                <= comments[high].id,
        dates_of(comments).contains(early),
        dates_of(comments).contains(late),
        forall|index: int|
            0 <= index < dates_of(comments).len() ==> !(#[trigger] dates_of(
                comments,
            )[index]).precedes(early) && !late.precedes(dates_of(comments)[index]),
    ensures
        batch_title(site_name, comments) == Some(
            site_name + " comments "@ + text::decimal(comments[low].id as nat) + "-"@
                + text::decimal(comments[high].id as nat) + " ("@ + clock::day_text(early.day())
                + " to "@ + clock::day_text(late.day()) + ")"@,
        ),
{
    let ids = ids_of(comments);
    let dates = dates_of(comments);
    bounds_are_the_minimum_and_maximum(ids);
    time_bounds_hold_every_moment(dates);
    let (least, greatest) = number_bounds(ids)->0;
    assert(ids[low] == comments[low].id);
    assert(ids[high] == comments[high].id);
    assert(comments[ids.index_of(least)].id == least);
    assert(comments[ids.index_of(greatest)].id == greatest);
    let (earliest, latest) = moment_bounds(dates)->0;
    assert(dates[dates.index_of(early)] == early);
    assert(dates[dates.index_of(late)] == late);
    assert(dates[dates.index_of(earliest)] == earliest);
    assert(dates[dates.index_of(latest)] == latest);
}

} // verus!
