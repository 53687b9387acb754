//! Updating comment archives: which archive anchors each site's update, and the run that captures
//! every site's comments in turn.

use crate::clock;
use crate::clock::{Moment, Timestamp};
use crate::comments;
use crate::comments::{
    AddressError, AddressErrorView, CommentDriver, CommentDriverView, CommentProgress,
    CommentProgressView,
};
use crate::notice;
use crate::notice::{Level, Notice, NoticeView, Outcome};
use crate::read;
use crate::read::{AnchorView, CommentUpdateAnchor};
use crate::run;
use crate::run::{SessionSummary, SummaryView};
use crate::segment;
use crate::session::{Capture, CaptureView, Inspection, InspectionView, Request, RequestView};
use crate::text;
use vstd::prelude::*;

verus! {

/// An archive from which a site's update starts.
#[derive(Debug)]
pub struct CommentUpdateInput {
    /// The archive's path.
    pub path: String,
    /// The site and instant that it anchors.
    pub anchor: CommentUpdateAnchor,
}

/// The parts of a [`CommentUpdateInput`].
#[verifier::ext_equal]
pub struct UpdateView {
    pub path: Seq<char>,
    pub anchor: AnchorView,
}

impl DeepView for CommentUpdateInput {
    type V = UpdateView;

    open spec fn deep_view(&self) -> UpdateView {
        UpdateView { path: self.path@, anchor: self.anchor.deep_view() }
    }
}

/// Whether an anchor is to be preferred to another: an actual comment datetime to a URL cutoff,
/// then the greater datetime.
pub open spec fn supersedes(candidate: AnchorView, current: AnchorView) -> bool {
    (candidate.from_comment && !current.from_comment) || (candidate.from_comment
        == current.from_comment && current.datetime.precedes(candidate.datetime))
}

/// Prefer actual comment datetimes over URL cutoffs, then retain the greatest datetime.
pub fn update_anchor_is_newer(
    candidate: &CommentUpdateAnchor,
    current: &CommentUpdateAnchor,
) -> (newer: bool)
    ensures
        newer == supersedes(candidate.deep_view(), current.deep_view()),
{
    (candidate.from_comment && !current.from_comment) || (candidate.from_comment
        == current.from_comment && current.datetime.precedes(&candidate.datetime))
}

/// The first of the candidates for a site that none supersedes.
pub open spec fn chosen(candidates: Seq<UpdateView>, base_url: Seq<char>) -> Option<UpdateView>
    decreases candidates.len(),
{
    if candidates.len() == 0 {
        None
    } else {
        let last = candidates.last();
        match chosen(candidates.drop_last(), base_url) {
            Some(current) => if last.anchor.base_url == base_url && supersedes(
                last.anchor,
                current.anchor,
            ) {
                Some(last)
            } else {
                Some(current)
            },
            None => if last.anchor.base_url == base_url {
                Some(last)
            } else {
                None
            },
        }
    }
}

/// The candidate chosen for a site is one of the site's, and none of the site's supersedes it.
pub proof fn the_chosen_update_is_not_superseded(
    candidates: Seq<UpdateView>,
    base_url: Seq<char>,
)
    ensures
        match chosen(candidates, base_url) {
            Some(update) => update.anchor.base_url == base_url && candidates.contains(update)
                && forall|index: int|
                0 <= index < candidates.len() && (#[trigger] candidates[index]).anchor.base_url
                    == base_url ==> !supersedes(candidates[index].anchor, update.anchor),
            None => forall|index: int|
                0 <= index < candidates.len() ==> (#[trigger] candidates[index]).anchor.base_url
                    != base_url,
        },
    decreases candidates.len(),
{
    if candidates.len() > 0 {
        let earlier = candidates.drop_last();
        the_chosen_update_is_not_superseded(earlier, base_url);
        assert(candidates[candidates.len() - 1] == candidates.last());
        match chosen(candidates, base_url) {
            Some(update) => {
                if update != candidates.last() {
                    assert(candidates[earlier.index_of(update)] == update);
                }
                assert forall|index: int|
                    0 <= index < candidates.len() && (
                    #[trigger] candidates[index]).anchor.base_url
                        == base_url implies !supersedes(candidates[index].anchor, update.anchor) by {
                    if index < earlier.len() {
                        assert(earlier[index] == candidates[index]);
                    }
                }
            },
            None => {
                assert forall|index: int| 0 <= index < candidates.len() implies (
                #[trigger] candidates[index]).anchor.base_url != base_url by {
                    if index < earlier.len() {
                        assert(earlier[index] == candidates[index]);
                    }
                }
            },
        }
    }
}

/// The sites of the candidates.
pub open spec fn sites(candidates: Seq<UpdateView>) -> Set<Seq<char>> {
    candidates.map_values(|update: UpdateView| update.anchor.base_url).to_set()
}

/// Whether updates are those chosen for all sites, in the order of domain names.
pub open spec fn are_updates_of(updates: Seq<UpdateView>, candidates: Seq<UpdateView>) -> bool {
    let named = updates.map_values(|update: UpdateView| update.anchor.base_url);
    &&& read::are_in_domain_order(named)
    &&& named.to_set() == sites(candidates)
    &&& forall|index: int|
        0 <= index < updates.len() ==> chosen(
            candidates,
            (#[trigger] updates[index]).anchor.base_url,
        ) == Some(updates[index])
}

fn copied_update(update: &CommentUpdateInput) -> (copy: CommentUpdateInput)
    ensures
        copy.deep_view() == update.deep_view(),
{
    CommentUpdateInput {
        path: update.path.clone(),
        anchor: CommentUpdateAnchor {
            base_url: update.anchor.base_url.clone(),
            datetime: update.anchor.datetime,
            from_comment: update.anchor.from_comment,
        },
    }
}

/// The index of the candidate that is chosen for a site.
fn choose_update(candidates: &Vec<CommentUpdateInput>, base_url: &str) -> (found: Option<usize>)
    ensures
        match found {
            Some(index) => index < candidates@.len() && chosen(
                candidates.deep_view(),
                base_url@,
            ) == Some(candidates.deep_view()[index as int]),
            None => chosen(candidates.deep_view(), base_url@) is None,
        },
{
    let ghost all = candidates.deep_view();
    let mut found: Option<usize> = None;
    let mut index: usize = 0;
    while index < candidates.len()
        invariant
            index <= candidates@.len(),
            all == candidates.deep_view(),
            match found {
                Some(at) => at < index && chosen(all.take(index as int), base_url@) == Some(
                    all[at as int],
                ),
                None => chosen(all.take(index as int), base_url@) is None,
            },
        decreases candidates@.len() - index,
    {
        assert(all.take(index + 1).drop_last() == all.take(index as int));
        assert(all.take(index + 1).last() == candidates@[index as int].deep_view());
        let candidate = &candidates[index].anchor;
        if text::same(candidate.base_url.as_str(), base_url) {
            let newer = match found {
                Some(at) => {
                    assert(all[at as int] == candidates@[at as int].deep_view());
                    update_anchor_is_newer(candidate, &candidates[at].anchor)
                },
                None => true,
            };
            if newer {
                found = Some(index);
            }
        }
        index += 1;
    }
    assert(all.take(index as int) == all);
    found
}

/// The sites of the candidates, in the order of domain names.
fn order_sites(candidates: &Vec<CommentUpdateInput>) -> (ordered: Vec<String>)
    ensures
        read::are_in_domain_order(ordered.deep_view()),
        ordered.deep_view().to_set() == sites(candidates.deep_view()),
{
    let ghost all = candidates.deep_view();
    let ghost named = all.map_values(|update: UpdateView| update.anchor.base_url);
    let mut ordered: Vec<String> = Vec::new();
    let mut index: usize = 0;
    assert(ordered.deep_view().to_set() =~= named.take(0).to_set());
    while index < candidates.len()
        invariant
            index <= candidates@.len(),
            all == candidates.deep_view(),
            named == all.map_values(|update: UpdateView| update.anchor.base_url),
            read::are_in_domain_order(ordered.deep_view()),
            ordered.deep_view().to_set() == named.take(index as int).to_set(),
        decreases candidates@.len() - index,
    {
        assert(named[index as int] == candidates@[index as int].anchor.base_url@);
        read::insert_in_domain_order(&mut ordered, candidates[index].anchor.base_url.as_str());
        index += 1;
        proof {
            let earlier = named.take(index - 1);
            assert(named.take(index as int) == earlier.push(named[index - 1]));
            read::lemma_pushed_set(earlier, named[index - 1]);
        }
    }
    assert(named.take(index as int) == named);
    ordered
}

/// The archives from which the sites' updates start: of each site the one whose anchor none
/// supersedes, and of equal ones the first, in the order of domain names.
pub fn choose_updates(candidates: &Vec<CommentUpdateInput>) -> (updates: Vec<CommentUpdateInput>)
    ensures
        are_updates_of(updates.deep_view(), candidates.deep_view()),
{
    let ghost all = candidates.deep_view();
    let ordered = order_sites(candidates);
    let mut updates: Vec<CommentUpdateInput> = Vec::new();
    let mut index: usize = 0;
    let ghost names = |update: UpdateView| update.anchor.base_url;
    assert(updates.deep_view().map_values(names) =~= ordered.deep_view().take(0));
    while index < ordered.len()
        invariant
            index <= ordered@.len(),
            all == candidates.deep_view(),
            ordered.deep_view().to_set() == sites(all),
            names == (|update: UpdateView| update.anchor.base_url),
            updates.deep_view().map_values(names) == ordered.deep_view().take(index as int),
            forall|at: int|
                0 <= at < updates@.len() ==> chosen(
                    all,
                    (#[trigger] updates.deep_view()[at]).anchor.base_url,
                ) == Some(updates.deep_view()[at]),
        decreases ordered@.len() - index,
    {
        let ghost known = updates.deep_view();
        let ghost base_url = ordered.deep_view()[index as int];
        assert(base_url == ordered@[index as int]@);
        proof {
            the_chosen_update_is_not_superseded(all, base_url);
            assert(ordered.deep_view().contains(base_url));
            assert(sites(all).contains(base_url));
            let bases = all.map_values(|update: UpdateView| update.anchor.base_url);
            let at = bases.index_of(base_url);
            assert(all[at].anchor.base_url == base_url);
        }
        if let Some(at) = choose_update(candidates, ordered[index].as_str()) {
            assert(all[at as int] == candidates@[at as int].deep_view());
            let update = copied_update(&candidates[at]);
            let ghost added = update.deep_view();
            updates.push(update);
            assert(updates.deep_view() =~= known.push(added));
            assert(updates.deep_view().map_values(names) =~= known.map_values(names).push(
                added.anchor.base_url,
            ));
        }
        index += 1;
        assert(ordered.deep_view().take(index as int) =~= ordered.deep_view().take(index - 1).push(
            ordered.deep_view()[index - 1],
        ));
    }
    assert(ordered.deep_view().take(index as int) =~= ordered.deep_view());
    updates
}

/// A span of time.
#[derive(Clone, Copy, Debug, Eq, PartialEq, Structural)]
pub struct Span {
    /// Whole seconds.
    pub seconds: u64,
    /// Nanoseconds past the second.
    pub nanos: u32,
}

/// The ways in which an update fails to be planned.
#[derive(Debug)]
pub enum Error {
    /// The directory holds no archive.
    NoUpdateWarcs(String),
    /// The overlap, or the time so long before an anchor, cannot be represented.
    OverlapOutOfRange(Span),
    /// The window starts no earlier than it ends.
    InvalidUpdateWindow {
        /// Where the window starts.
        after: Timestamp,
        /// Where the window ends.
        before: Timestamp,
    },
    /// A base URL does not name an installation.
    Url(AddressError),
    /// The URL of a page below a base URL is too long for the `url` crate to count.
    TooLong(String),
}

/// The parts of an [`Error`].
pub enum ErrorView {
    NoUpdateWarcs(Seq<char>),
    OverlapOutOfRange(Span),
    InvalidUpdateWindow { after: Moment, before: Moment },
    Url(AddressErrorView),
    TooLong(Seq<char>),
}

impl DeepView for Error {
    type V = ErrorView;

    open spec fn deep_view(&self) -> ErrorView {
        match self {
            Error::NoUpdateWarcs(input) => ErrorView::NoUpdateWarcs(input@),
            Error::OverlapOutOfRange(overlap) => ErrorView::OverlapOutOfRange(*overlap),
            Error::InvalidUpdateWindow { after, before } => ErrorView::InvalidUpdateWindow {
                after: after@,
                before: before@,
            },
            Error::Url(reason) => ErrorView::Url(reason.deep_view()),
            Error::TooLong(base_url) => ErrorView::TooLong(base_url@),
        }
    }
}

/// The archives from which updates start, in order, where `names` are the files in the directory
/// `input`.
///
/// # Errors
///
/// Returns [`Error::NoUpdateWarcs`] where there are none.
pub fn update_archives(names: &Vec<String>, input: &str) -> (archives: Result<Vec<String>, Error>)
    ensures
        match archives {
            Ok(archives) => archives@.len() > 0 && segment::are_sorted(archives.deep_view())
                && archives.deep_view().to_multiset() == segment::selected(
                names.deep_view(),
                ""@,
            ).to_multiset(),
            Err(error) => segment::selected(names.deep_view(), ""@).len() == 0
                && error.deep_view() == ErrorView::NoUpdateWarcs(input@),
        },
{
    match segment::session_warcs(names, "") {
        Some(archives) => Ok(archives),
        None => Err(Error::NoUpdateWarcs(input.to_owned())),
    }
}

/// A site whose comments a run captures.
pub struct CommentRun {
    /// Names the site in progress messages and scopes the cookie to its host.
    pub site_url: String,
    /// Drives the capture.
    pub driver: CommentDriver,
}

/// The parts of a [`CommentRun`].
pub struct CommentRunView {
    pub site_url: Seq<char>,
    pub driver: CommentDriverView,
}

impl DeepView for CommentRun {
    type V = CommentRunView;

    open spec fn deep_view(&self) -> CommentRunView {
        CommentRunView { site_url: self.site_url@, driver: self.driver.deep_view() }
    }
}

/// Where the window of an update starts: the overlap before its anchor.
pub open spec fn window_start(anchor: AnchorView, overlap: Span, before: Moment) -> Result<
    Moment,
    ErrorView,
> {
    match clock::time_before(
        anchor.datetime.seconds,
        anchor.datetime.nanos,
        overlap.seconds as int,
        overlap.nanos as int,
    ) {
        None => Err(ErrorView::OverlapOutOfRange(overlap)),
        Some(after) => if after.precedes(before) {
            Ok(after)
        } else {
            Err(ErrorView::InvalidUpdateWindow { after, before })
        },
    }
}

/// The run that updates one site.
pub open spec fn planned_run(update: UpdateView, overlap: Span, before: Moment) -> Result<
    CommentRunView,
    ErrorView,
> {
    match window_start(update.anchor, overlap, before) {
        Err(error) => Err(error),
        Ok(after) => if !comments::is_short_base(update.anchor.base_url) {
            Err(ErrorView::TooLong(update.anchor.base_url))
        } else {
            match comments::comments_address(update.anchor.base_url) {
                Err(reason) => Err(ErrorView::Url(reason)),
                Ok((endpoint, host)) => {
                    let driver = CommentDriverView::beginning(endpoint, host, Some(after), before);
                    if driver.can_request() {
                        Ok(CommentRunView { site_url: update.anchor.base_url, driver })
                    } else {
                        Err(ErrorView::TooLong(update.anchor.base_url))
                    }
                },
            }
        },
    }
}

/// Whether a run's driver can make its requests.
pub open spec fn is_runnable(run: CommentRunView) -> bool {
    run.driver.is_valid() && run.driver.can_request()
}

/// The runs that update sites, in order, or the first error.
pub open spec fn planned_runs(updates: Seq<UpdateView>, overlap: Span, before: Moment) -> Result<
    Seq<CommentRunView>,
    ErrorView,
>
    decreases updates.len(),
{
    if updates.len() == 0 {
        Ok(Seq::empty())
    } else {
        match planned_runs(updates.drop_last(), overlap, before) {
            Err(error) => Err(error),
            Ok(earlier) => match planned_run(updates.last(), overlap, before) {
                Err(error) => Err(error),
                Ok(planned) => Ok(earlier.push(planned)),
            },
        }
    }
}

/// The runs that update sites with an overlap, or why there are none.
pub open spec fn planned_update(updates: Seq<UpdateView>, overlap: Span, before: Moment) -> Result<
    Seq<CommentRunView>,
    ErrorView,
> {
    if !clock::is_span(overlap.seconds as int, overlap.nanos as int) {
        Err(ErrorView::OverlapOutOfRange(overlap))
    } else {
        planned_runs(updates, overlap, before)
    }
}

/// Where the window of an update starts: the overlap before its anchor. The window of an anchor at
/// an ordinary second starts exactly as long before it as the overlap says.
///
/// # Errors
///
/// Returns [`Error::OverlapOutOfRange`] where that cannot be represented, and
/// [`Error::InvalidUpdateWindow`] where it is no earlier than `before`.
pub fn update_window(anchor: &CommentUpdateAnchor, overlap: Span, before: Timestamp) -> (after:
    Result<Timestamp, Error>)
    requires
        clock::is_span(overlap.seconds as int, overlap.nanos as int),
    ensures
        match after {
            Ok(after) => window_start(anchor.deep_view(), overlap, before@) == Ok::<
                Moment,
                ErrorView,
            >(after@) && after@.precedes(before@),
            Err(error) => window_start(anchor.deep_view(), overlap, before@) == Err::<
                Moment,
                ErrorView,
            >(error.deep_view()),
        },
        anchor.datetime@.nanos < 1_000_000_000 ==> (after matches Ok(after) ==> after@
            == clock::moved_back(
            anchor.datetime@.seconds,
            anchor.datetime@.nanos,
            overlap.seconds as int,
            overlap.nanos as int,
        )),
{
    let after = match anchor.datetime.earlier(overlap.seconds as i64, overlap.nanos) {
        Some(after) => after,
        None => {
            return Err(Error::OverlapOutOfRange(overlap));
        },
    };
    if after.precedes(&before) {
        Ok(after)
    } else {
        Err(Error::InvalidUpdateWindow { after, before })
    }
}

fn plan_run(update: &CommentUpdateInput, overlap: Span, before: Timestamp) -> (planned: Result<
    CommentRun,
    Error,
>)
    requires
        clock::is_span(overlap.seconds as int, overlap.nanos as int),
    ensures
        match planned {
            Ok(planned) => planned_run(update.deep_view(), overlap, before@) == Ok::<
                CommentRunView,
                ErrorView,
            >(planned.deep_view()) && is_runnable(planned.deep_view()),
            Err(error) => planned_run(update.deep_view(), overlap, before@) == Err::<
                CommentRunView,
                ErrorView,
            >(error.deep_view()),
        },
{
    let after = match update_window(&update.anchor, overlap, before) {
        Ok(after) => after,
        Err(error) => {
            return Err(error);
        },
    };
    if !CommentDriver::accepts(update.anchor.base_url.as_str()) {
        return Err(Error::TooLong(update.anchor.base_url.clone()));
    }
    match CommentDriver::for_window(update.anchor.base_url.as_str(), after, before) {
        Ok(driver) => if driver.can_request() {
            Ok(CommentRun { site_url: update.anchor.base_url.clone(), driver })
        } else {
            Err(Error::TooLong(update.anchor.base_url.clone()))
        },
        Err(reason) => Err(Error::Url(reason)),
    }
}

proof fn lemma_first_error_stays(
    updates: Seq<UpdateView>,
    overlap: Span,
    before: Moment,
    count: int,
)
    requires
        0 <= count <= updates.len(),
        planned_runs(updates.take(count), overlap, before) is Err,
    ensures
        planned_runs(updates, overlap, before) == planned_runs(
            updates.take(count),
            overlap,
            before,
        ),
    decreases updates.len(),
{
    if count == updates.len() {
        assert(updates.take(count) == updates);
    } else {
        assert(updates.drop_last().take(count) == updates.take(count));
        lemma_first_error_stays(updates.drop_last(), overlap, before, count);
    }
}

/// Plan the runs that capture the comments of sites newer than an overlap before their anchors.
///
/// # Errors
///
/// Returns [`Error`] for an overlap that cannot be subtracted, for a window that starts no earlier
/// than it ends, and for a base URL that does not name an installation or is too long.
pub fn plan_update(updates: &Vec<CommentUpdateInput>, overlap: Span, before: Timestamp) -> (runs:
    Result<Vec<CommentRun>, Error>)
    requires
        overlap.nanos < 1_000_000_000,
    ensures
        match runs {
            Ok(runs) => planned_update(updates.deep_view(), overlap, before@) == Ok::<
                Seq<CommentRunView>,
                ErrorView,
            >(runs.deep_view()) && forall|index: int|
                0 <= index < runs@.len() ==> is_runnable(#[trigger] runs.deep_view()[index]),
            Err(error) => planned_update(updates.deep_view(), overlap, before@) == Err::<
                Seq<CommentRunView>,
                ErrorView,
            >(error.deep_view()),
        },
{
    if overlap.seconds > 9_223_372_036_854_775 || (overlap.seconds == 9_223_372_036_854_775
        && overlap.nanos > 807_000_000) {
        return Err(Error::OverlapOutOfRange(overlap));
    }
    let ghost all = updates.deep_view();
    let mut runs: Vec<CommentRun> = Vec::new();
    let mut index: usize = 0;
    assert(runs.deep_view() =~= Seq::<CommentRunView>::empty());
    while index < updates.len()
        invariant
            index <= updates@.len(),
            all == updates.deep_view(),
            clock::is_span(overlap.seconds as int, overlap.nanos as int),
            planned_runs(all.take(index as int), overlap, before@) == Ok::<
                Seq<CommentRunView>,
                ErrorView,
            >(runs.deep_view()),
            forall|at: int|
                0 <= at < runs@.len() ==> is_runnable(#[trigger] runs.deep_view()[at]),
        decreases updates@.len() - index,
    {
        assert(all.take(index + 1).drop_last() == all.take(index as int));
        assert(all.take(index + 1).last() == updates@[index as int].deep_view());
        match plan_run(&updates[index], overlap, before) {
            Ok(planned) => {
                let ghost known = runs.deep_view();
                let ghost added = planned.deep_view();
                runs.push(planned);
                assert(runs.deep_view() =~= known.push(added));
            },
            Err(error) => {
                proof {
                    lemma_first_error_stays(all, overlap, before@, index + 1);
                }
                return Err(error);
            },
        }
        index += 1;
    }
    assert(all.take(index as int) == all);
    Ok(runs)
}

/// Each site's comment traversal in turn, and the progress of all.
pub struct CommentRuns {
    site_urls: Vec<String>,
    drivers: Vec<CommentDriver>,
    snapshots: Vec<Option<CommentProgress>>,
    active: Option<usize>,
    latest: Option<usize>,
}

/// The parts of a [`CommentRuns`].
#[verifier::ext_equal]
pub struct RunsView {
    pub site_urls: Seq<Seq<char>>,
    pub drivers: Seq<CommentDriverView>,
    /// The progress of each site after its latest capture.
    pub snapshots: Seq<Option<CommentProgressView>>,
    /// The site whose request is outstanding.
    pub active: Option<int>,
    /// The site of the latest capture.
    pub latest: Option<int>,
}

/// An optional index, as a number.
pub open spec fn numbered(index: Option<usize>) -> Option<int> {
    match index {
        Some(index) => Some(index as int),
        None => None,
    }
}

impl DeepView for CommentRuns {
    type V = RunsView;

    closed spec fn deep_view(&self) -> RunsView {
        RunsView {
            site_urls: self.site_urls.deep_view(),
            drivers: self.drivers.deep_view(),
            snapshots: self.snapshots.deep_view(),
            active: numbered(self.active),
            latest: numbered(self.latest),
        }
    }
}

/// The first of some drivers that has a request to make.
pub open spec fn next_driver(drivers: Seq<CommentDriverView>, from: int) -> Option<int>
    decreases drivers.len() - from,
{
    if from >= drivers.len() {
        None
    } else if drivers[from].next() is Some {
        Some(from)
    } else {
        next_driver(drivers, from + 1)
    }
}

/// The next driver is the first that has a request.
proof fn lemma_next_driver(drivers: Seq<CommentDriverView>, from: int)
    requires
        0 <= from,
    ensures
        match next_driver(drivers, from) {
            Some(index) => from <= index < drivers.len() && drivers[index].next() is Some
                && forall|earlier: int|
                from <= earlier < index ==> (#[trigger] drivers[earlier]).next() is None,
            None => forall|index: int|
                from <= index < drivers.len() ==> (#[trigger] drivers[index]).next() is None,
        },
    decreases drivers.len() - from,
{
    if from < drivers.len() && drivers[from].next() is None {
        lemma_next_driver(drivers, from + 1);
    }
}

impl RunsView {
    /// What holds of the state of every run.
    pub open spec fn is_valid(self) -> bool {
        &&& self.drivers.len() == self.site_urls.len()
        &&& self.snapshots.len() == self.site_urls.len()
        &&& forall|index: int|
            0 <= index < self.drivers.len() ==> (#[trigger] self.drivers[index]).is_valid()
                && self.drivers[index].can_request()
        &&& self.active matches Some(index) ==> 0 <= index < self.drivers.len()
        &&& self.latest matches Some(index) ==> 0 <= index < self.drivers.len()
    }

    /// The state in which runs begin.
    pub open spec fn beginning(runs: Seq<CommentRunView>, second_sweep: bool) -> Self {
        RunsView {
            site_urls: runs.map_values(|run: CommentRunView| run.site_url),
            drivers: runs.map_values(
                |run: CommentRunView|
                    CommentDriverView { force_second_sweep: second_sweep, ..run.driver },
            ),
            snapshots: runs.map_values(|run: CommentRunView| None::<CommentProgressView>),
            active: None,
            latest: None,
        }
    }

    /// The next request, of the first site that has one to make, and the state awaiting its
    /// capture.
    pub open spec fn next(self) -> (Self, Option<RequestView>) {
        match next_driver(self.drivers, 0) {
            Some(index) => (
                RunsView { active: Some(index), ..self },
                self.drivers[index].next(),
            ),
            None => (self, None),
        }
    }

    /// The state after a capture, which is of the site whose request is outstanding.
    pub open spec fn inspected(self, capture: CaptureView) -> (Self, InspectionView) {
        match self.active {
            None => (
                self,
                InspectionView::stopped(
                    "captured an unrequested WordPress comments URL: "@ + capture.url,
                ),
            ),
            Some(index) => {
                let (driver, inspection) = self.drivers[index].inspected(capture);
                (
                    RunsView {
                        drivers: self.drivers.update(index, driver),
                        snapshots: self.snapshots.update(index, driver.progress()),
                        active: None,
                        latest: Some(index),
                        ..self
                    },
                    inspection,
                )
            },
        }
    }

    /// The state after a failed capture.
    pub open spec fn after_failure(self) -> Self {
        match self.active {
            None => self,
            Some(index) => {
                let driver = self.drivers[index];
                RunsView {
                    drivers: self.drivers.update(
                        index,
                        CommentDriverView { traversal: driver.traversal.ended(false), ..driver },
                    ),
                    active: None,
                    ..self
                }
            },
        }
    }

    /// The progress of the site of the latest capture, in words.
    pub open spec fn latest_message(self) -> Option<Seq<char>> {
        match self.latest {
            Some(index) => match self.snapshots[index] {
                Some(snapshot) => Some(
                    self.site_urls[index] + ": "@ + snapshot.summary(),
                ),
                None => None,
            },
            None => None,
        }
    }
}

/// A site's comments are requested only when every site before it has nothing left to request.
pub proof fn sites_are_captured_in_turn(runs: RunsView)
    requires
        runs.is_valid(),
    ensures
        match runs.next() {
            (awaiting, Some(request)) => awaiting.active matches Some(index) && 0 <= index
                < runs.drivers.len() && runs.drivers[index].next() == Some(request)
                && forall|earlier: int|
                0 <= earlier < index ==> (#[trigger] runs.drivers[earlier]).next() is None,
            (_, None) => forall|index: int|
                0 <= index < runs.drivers.len() ==> (#[trigger] runs.drivers[index]).next() is None,
        },
{
    lemma_next_driver(runs.drivers, 0);
}

/// A capture bears on its own site alone.
pub proof fn a_capture_leaves_other_sites_alone(
    runs: RunsView,
    capture: CaptureView,
    other: int,
)
    requires
        runs.is_valid(),
        0 <= other < runs.drivers.len(),
        runs.active matches Some(index) && index != other,
    ensures
        runs.inspected(capture).0.drivers[other] == runs.drivers[other],
        runs.inspected(capture).0.snapshots[other] == runs.snapshots[other],
{
}

impl CommentRuns {
    /// Capture the comments of sites one after another, each in a second sweep where that is asked
    /// for.
    pub fn new(runs: Vec<CommentRun>, second_sweep: bool) -> (state: Self)
        requires
            forall|index: int|
                0 <= index < runs@.len() ==> is_runnable(#[trigger] runs.deep_view()[index]),
        ensures
            state.deep_view() == RunsView::beginning(runs.deep_view(), second_sweep),
            state.deep_view().is_valid(),
    {
        let ghost all = runs.deep_view();
        let ghost beginning = RunsView::beginning(all, second_sweep);
        let mut runs = runs;
        let mut site_urls: Vec<String> = Vec::new();
        let mut drivers: Vec<CommentDriver> = Vec::new();
        let mut snapshots: Vec<Option<CommentProgress>> = Vec::new();
        assert(site_urls.deep_view() =~= beginning.site_urls.take(0));
        assert(drivers.deep_view() =~= beginning.drivers.take(0));
        assert(snapshots.deep_view() =~= beginning.snapshots.take(0));
        while runs.len() > 0
            invariant
                runs@.len() <= all.len(),
                forall|at: int|
                    0 <= at < runs@.len() ==> (#[trigger] runs@[at]).deep_view() == all[all.len()
                        - runs@.len() + at],
                forall|at: int| 0 <= at < all.len() ==> is_runnable(#[trigger] all[at]),
                beginning == RunsView::beginning(all, second_sweep),
                site_urls.deep_view() == beginning.site_urls.take(all.len() - runs@.len()),
                drivers.deep_view() == beginning.drivers.take(all.len() - runs@.len()),
                snapshots.deep_view() == beginning.snapshots.take(all.len() - runs@.len()),
                forall|at: int|
                    0 <= at < drivers@.len() ==> (#[trigger] drivers.deep_view()[at]).is_valid()
                        && drivers.deep_view()[at].can_request(),
            decreases runs@.len(),
        {
            let ghost done = all.len() - runs@.len();
            let ghost known = (site_urls.deep_view(), drivers.deep_view(), snapshots.deep_view());
            let CommentRun { site_url, driver } = runs.remove(0);
            let driver = driver.second_sweep(second_sweep);
            let ghost url = site_url@;
            let ghost driven = driver.deep_view();
            assert(is_runnable(all[done]));
            site_urls.push(site_url);
            drivers.push(driver);
            snapshots.push(None);
            assert(site_urls.deep_view() =~= known.0.push(url));
            assert(drivers.deep_view() =~= known.1.push(driven));
            assert(snapshots.deep_view() =~= known.2.push(None));
            assert(beginning.site_urls.take(done + 1) =~= known.0.push(url));
            assert(beginning.drivers.take(done + 1) =~= known.1.push(driven));
            assert(beginning.snapshots.take(done + 1) =~= known.2.push(None));
        }
        assert(beginning.site_urls.take(all.len() as int) =~= beginning.site_urls);
        assert(beginning.drivers.take(all.len() as int) =~= beginning.drivers);
        assert(beginning.snapshots.take(all.len() as int) =~= beginning.snapshots);
        CommentRuns { site_urls, drivers, snapshots, active: None, latest: None }
    }

    /// The sites, in order.
    pub fn site_urls(&self) -> (site_urls: &Vec<String>)
        ensures
            site_urls.deep_view() == self.deep_view().site_urls,
    {
        &self.site_urls
    }

    /// The next request, of the first site that has one to make.
    pub fn next(&mut self) -> (request: Option<Request>)
        requires
            old(self).deep_view().is_valid(),
        ensures
            (final(self).deep_view(), request.deep_view()) == old(self).deep_view().next(),
            final(self).deep_view().is_valid(),
    {
        let ghost start = self.deep_view();
        let mut index: usize = 0;
        while index < self.drivers.len()
            invariant
                index <= self.drivers@.len(),
                self.deep_view() == start,
                start == old(self).deep_view(),
                start.is_valid(),
                next_driver(start.drivers, 0) == next_driver(start.drivers, index as int),
            decreases self.drivers@.len() - index,
        {
            assert(start.drivers[index as int] == self.drivers@[index as int].deep_view());
            if let Some(request) = self.drivers[index].next() {
                self.active = Some(index);
                assert(self.deep_view() =~= start.next().0);
                return Some(request);
            }
            index += 1;
        }
        None
    }

    /// Whether the site whose request is outstanding can count one page more.
    pub fn has_room(&self) -> (room: bool)
        requires
            self.deep_view().is_valid(),
        ensures
            room == (self.deep_view().active matches Some(index)
                ==> self.deep_view().drivers[index].traversal.latest().page < usize::MAX),
    {
        match self.active {
            Some(index) => {
                assert(self.deep_view().drivers[index as int]
                    == self.drivers@[index as int].deep_view());
                self.drivers[index].has_room()
            },
            None => true,
        }
    }

    /// Take a capture into account, which is of the site whose request is outstanding.
    pub fn inspect(&mut self, capture: &Capture<'_>) -> (inspection: Inspection)
        requires
            old(self).deep_view().is_valid(),
            old(self).deep_view().active matches Some(index) ==> old(
                self,
            ).deep_view().drivers[index].traversal.latest().page < usize::MAX,
        ensures
            (final(self).deep_view(), inspection.deep_view()) == old(self).deep_view().inspected(
                capture.deep_view(),
            ),
            final(self).deep_view().is_valid(),
    {
        let ghost start = self.deep_view();
        let index = match self.active {
            Some(index) => index,
            None => {
                return Inspection::error(
                    text::joined(
                        "captured an unrequested WordPress comments URL: ",
                        capture.url,
                    ),
                );
            },
        };
        assert(start.drivers[index as int] == self.drivers@[index as int].deep_view());
        let ghost before = self.drivers@;
        let inspection = self.drivers[index].inspect(capture);
        let progress = self.drivers[index].progress();
        self.snapshots.set(index, progress);
        self.active = None;
        self.latest = Some(index);
        proof {
            let driver = start.drivers[index as int].inspected(capture.deep_view()).0;
            assert(self.drivers.deep_view() =~= start.drivers.update(index as int, driver));
            assert(self.snapshots.deep_view() =~= start.snapshots.update(
                index as int,
                driver.progress(),
            ));
            assert(self.deep_view() =~= start.inspected(capture.deep_view()).0);
        }
        inspection
    }

    /// Take a failed capture into account.
    pub fn failed(&mut self)
        requires
            old(self).deep_view().is_valid(),
        ensures
            final(self).deep_view() == old(self).deep_view().after_failure(),
            final(self).deep_view().is_valid(),
    {
        let ghost start = self.deep_view();
        if let Some(index) = self.active {
            assert(start.drivers[index as int] == self.drivers@[index as int].deep_view());
            self.drivers[index].failed();
            self.active = None;
            proof {
                let driver = start.drivers[index as int];
                let ended = CommentDriverView {
                    traversal: driver.traversal.ended(false),
                    ..driver
                };
                assert(self.drivers.deep_view() =~= start.drivers.update(index as int, ended));
                assert(self.deep_view() =~= start.after_failure());
            }
        }
    }

    /// The progress of the site of the latest capture, in words.
    pub fn latest_message(&self) -> (message: Option<String>)
        requires
            self.deep_view().is_valid(),
        ensures
            message.deep_view() == self.deep_view().latest_message(),
    {
        match self.latest {
            Some(index) => {
                assert(self.deep_view().snapshots[index as int]
                    == self.snapshots@[index as int].deep_view());
                assert(self.deep_view().site_urls[index as int]
                    == self.site_urls@[index as int]@);
                match &self.snapshots[index] {
                    Some(snapshot) => {
                        let mut message = text::joined(self.site_urls[index].as_str(), ": ");
                        message.append(snapshot.to_string().as_str());
                        Some(message)
                    },
                    None => None,
                }
            },
            None => None,
        }
    }
}

/// What is reported of one site's comments.
pub open spec fn site_notices(
    site_url: Seq<char>,
    snapshot: Option<CommentProgressView>,
    output: Seq<char>,
    quiet: bool,
) -> Seq<NoticeView> {
    match snapshot {
        Some(snapshot) => (match snapshot.shortfall() {
            Some(shortfall) => seq![
                notice::warned(
                    "WordPress counted "@ + text::decimal(snapshot.total) + " comments for "@
                        + site_url + " before visibility filtering but returned "@ + text::decimal(
                        snapshot.downloaded,
                    ) + " visible comments ("@ + text::decimal(shortfall) + " omitted)"@,
                ),
            ],
            None => Seq::empty(),
        }) + (if quiet {
            Seq::empty()
        } else {
            seq![notice::printed(site_url + ": "@ + snapshot.summary() + " to "@ + output)]
        }),
        None => if quiet {
            Seq::empty()
        } else {
            seq![
                notice::printed("Downloaded no comments from "@ + site_url + " to "@ + output),
            ]
        },
    }
}

/// What is reported of the first `count` sites' comments.
pub open spec fn sites_notices(runs: RunsView, output: Seq<char>, quiet: bool, count: int) -> Seq<
    NoticeView,
>
    decreases count,
{
    if count <= 0 {
        Seq::empty()
    } else {
        sites_notices(runs, output, quiet, count - 1) + site_notices(
            runs.site_urls[count - 1],
            runs.snapshots[count - 1],
            output,
            quiet,
        )
    }
}

/// What is reported of a finished comments session.
pub open spec fn run_notices(
    summary: SummaryView,
    runs: RunsView,
    output: Seq<char>,
    quiet: bool,
) -> Seq<NoticeView> {
    run::failure_notices(summary.failures) + run::ending_notices(summary.fatal_error) + (
    if summary.cancelled {
        seq![notice::warned("The session was interrupted"@)]
    } else {
        Seq::empty()
    }) + sites_notices(runs, output, quiet, runs.site_urls.len() as int) + (if summary.complete {
        Seq::empty()
    } else {
        seq![notice::warned("a partial archive was published at "@ + output)]
    })
}

fn notify_site(
    notices: &mut Vec<Notice>,
    site_url: &str,
    snapshot: &Option<CommentProgress>,
    output: &str,
    quiet: bool,
)
    ensures
        final(notices).deep_view() == old(notices).deep_view() + site_notices(
            site_url@,
            snapshot.deep_view(),
            output@,
            quiet,
        ),
{
    let ghost start = notices.deep_view();
    match snapshot {
        Some(snapshot) => {
            if let Some(shortfall) = snapshot.visibility_shortfall() {
                let mut message = text::joined(
                    "WordPress counted ",
                    text::count_text(snapshot.total).as_str(),
                );
                message.append(" comments for ");
                message.append(site_url);
                message.append(" before visibility filtering but returned ");
                message.append(text::count_text(snapshot.downloaded).as_str());
                message.append(" visible comments (");
                message.append(text::count_text(shortfall).as_str());
                message.append(" omitted)");
                notice::notify(notices, Level::Warning, message);
            }
            if !quiet {
                let mut message = text::joined(site_url, ": ");
                message.append(snapshot.to_string().as_str());
                message.append(" to ");
                message.append(output);
                notice::notify(notices, Level::Printed, message);
            }
        },
        None => if !quiet {
            let mut message = text::joined("Downloaded no comments from ", site_url);
            message.append(" to ");
            message.append(output);
            notice::notify(notices, Level::Printed, message);
        },
    }
    assert(notices.deep_view() =~= start + site_notices(
        site_url@,
        snapshot.deep_view(),
        output@,
        quiet,
    ));
}

/// Report a finished session's failures and per-site progress.
pub fn report_comment_run(
    summary: &SessionSummary,
    runs: &CommentRuns,
    output: &str,
    quiet: bool,
) -> (report: (Vec<Notice>, Outcome))
    requires
        runs.deep_view().is_valid(),
    ensures
        report.0.deep_view() == run_notices(
            summary.deep_view(),
            runs.deep_view(),
            output@,
            quiet,
        ),
        report.1 == Outcome::of(!summary.complete),
{
    let mut notices: Vec<Notice> = Vec::new();
    assert(notices.deep_view() =~= Seq::<NoticeView>::empty());
    run::notify_failures(&mut notices, &summary.failures);
    run::notify_ending(&mut notices, &summary.fatal_error);
    if summary.cancelled {
        notice::notify(
            &mut notices,
            Level::Warning,
            "The session was interrupted".to_owned(),
        );
    }
    let ghost start = notices.deep_view();
    let ghost view = runs.deep_view();
    let mut index: usize = 0;
    assert(notices.deep_view() =~= start + sites_notices(view, output@, quiet, 0));
    while index < runs.site_urls.len()
        invariant
            index <= runs.site_urls@.len(),
            view == runs.deep_view(),
            view.is_valid(),
            notices.deep_view() == start + sites_notices(view, output@, quiet, index as int),
        decreases runs.site_urls@.len() - index,
    {
        assert(view.site_urls[index as int] == runs.site_urls@[index as int]@);
        assert(view.snapshots[index as int] == runs.snapshots@[index as int].deep_view());
        notify_site(
            &mut notices,
            runs.site_urls[index].as_str(),
            &runs.snapshots[index],
            output,
            quiet,
        );
        index += 1;
        assert(notices.deep_view() =~= start + sites_notices(view, output@, quiet, index as int));
    }
    if !summary.complete {
        notice::notify(
            &mut notices,
            Level::Warning,
            text::joined("a partial archive was published at ", output),
        );
    }
    assert(notices.deep_view() =~= run_notices(summary.deep_view(), view, output@, quiet));
    (notices, Outcome::from_reported_problems(!summary.complete))
}

/// An anchor from a comment supersedes every one from a cutoff, and of two of a kind the later one
/// supersedes the earlier.
pub proof fn comments_supersede_cutoffs(first: AnchorView, second: AnchorView)
    ensures
        first.from_comment && !second.from_comment ==> supersedes(first, second) && !supersedes(
            second,
            first,
        ),
        first.from_comment == second.from_comment ==> (supersedes(first, second)
            <==> second.datetime.precedes(first.datetime)),
        !supersedes(first, first),
{
}

/// The update chosen for a site is from a comment where any candidate of the site is, no candidate
/// of the same kind is later, and of candidates that are alike it is the first.
pub proof fn the_chosen_update_is_the_latest(
    candidates: Seq<UpdateView>,
    base_url: Seq<char>,
    index: int,
)
    requires
        0 <= index < candidates.len(),
        candidates[index].anchor.base_url == base_url,
    ensures
        chosen(candidates, base_url) matches Some(update) && {
            let candidate = candidates[index];
            &&& update.anchor.base_url == base_url
            &&& candidate.anchor.from_comment ==> update.anchor.from_comment
            &&& candidate.anchor.from_comment == update.anchor.from_comment
                ==> !update.anchor.datetime.precedes(candidate.anchor.datetime)
            &&& candidate.anchor.from_comment == update.anchor.from_comment
                && candidate.anchor.datetime == update.anchor.datetime ==> exists|earlier: int|
                0 <= earlier <= index && #[trigger] candidates[earlier] == update
        },
{
    the_chosen_update_is_not_superseded(candidates, base_url);
    lemma_the_first_is_chosen(candidates, base_url, index);
}

proof fn lemma_the_first_is_chosen(
    candidates: Seq<UpdateView>,
    base_url: Seq<char>,
    index: int,
)
    requires
        0 <= index < candidates.len(),
        candidates[index].anchor.base_url == base_url,
    ensures
        chosen(candidates, base_url) matches Some(update) && (!supersedes(
            update.anchor,
            candidates[index].anchor,
        ) ==> exists|earlier: int|
            0 <= earlier <= index && #[trigger] candidates[earlier] == update),
    decreases candidates.len(),
{
    let before = candidates.drop_last();
    the_chosen_update_is_not_superseded(candidates, base_url);
    the_chosen_update_is_not_superseded(before, base_url);
    let update = chosen(candidates, base_url)->0;
    if index < candidates.len() - 1 {
        assert(before[index] == candidates[index]);
        lemma_the_first_is_chosen(before, base_url, index);
        let known = chosen(before, base_url)->0;
        if !supersedes(update.anchor, candidates[index].anchor) {
            if update == known {
                let earlier = choose|earlier: int|
                    0 <= earlier <= index && #[trigger] before[earlier] == known;
                assert(candidates[earlier] == update);
            } else {
                assert(supersedes(update.anchor, known.anchor));
                assert(!supersedes(candidates[index].anchor, known.anchor));
                lemma_superseding(update.anchor, known.anchor, candidates[index].anchor);
            }
        }
    } else {
        if update != candidates[index] {
            let earlier = before.index_of(update);
            assert(candidates[earlier] == update);
        }
    }
}

proof fn lemma_superseding(first: AnchorView, second: AnchorView, third: AnchorView)
    requires
        supersedes(first, second),
        !supersedes(third, second),
    ensures
        supersedes(first, third),
{
}

/// A planned update has a run for each site, in order, or the first error there is.
pub proof fn every_update_is_run(updates: Seq<UpdateView>, overlap: Span, before: Moment)
    ensures
        match planned_runs(updates, overlap, before) {
            Ok(runs) => runs.len() == updates.len() && forall|index: int|
                0 <= index < updates.len() ==> planned_run(
                    #[trigger] updates[index],
                    overlap,
                    before,
                ) == Ok::<CommentRunView, ErrorView>(runs[index]),
            Err(error) => exists|index: int|
                0 <= index < updates.len() && planned_run(
                    #[trigger] updates[index],
                    overlap,
                    before,
                ) == Err::<CommentRunView, ErrorView>(error) && forall|earlier: int|
                    0 <= earlier < index ==> planned_run(
                        #[trigger] updates[earlier],
                        overlap,
                        before,
                    ) is Ok,
        },
    decreases updates.len(),
{
    if updates.len() > 0 {
        let earlier = updates.drop_last();
        let last = updates.len() - 1;
        every_update_is_run(earlier, overlap, before);
        assert(updates[last] == updates.last());
        match planned_runs(earlier, overlap, before) {
            Err(error) => {
                let index = choose|index: int|
                    0 <= index < earlier.len() && planned_run(
                        #[trigger] earlier[index],
                        overlap,
                        before,
                    ) == Err::<CommentRunView, ErrorView>(error) && forall|first: int|
                        0 <= first < index ==> planned_run(
                            #[trigger] earlier[first],
                            overlap,
                            before,
                        ) is Ok;
                assert(updates[index] == earlier[index]);
                assert forall|first: int| 0 <= first < index implies planned_run(
                    #[trigger] updates[first],
                    overlap,
                    before,
                ) is Ok by {
                    assert(updates[first] == earlier[first]);
                }
            },
            Ok(known) => {
                assert forall|first: int| 0 <= first < last implies planned_run(
                    #[trigger] updates[first],
                    overlap,
                    before,
                ) == Ok::<CommentRunView, ErrorView>(known[first]) by {
                    assert(updates[first] == earlier[first]);
                }
            },
        }
    }
}

/// The run of a site begins at the first page of a window that ends where the update does and starts
/// the overlap before the site's anchor, which is earlier.
pub proof fn a_run_captures_its_window(update: UpdateView, overlap: Span, before: Moment)
    requires
        planned_run(update, overlap, before) is Ok,
    ensures
        ({
            let run = planned_run(update, overlap, before)->Ok_0;
            let start = clock::time_before(
                update.anchor.datetime.seconds,
                update.anchor.datetime.nanos,
                overlap.seconds as int,
                overlap.nanos as int,
            );
            &&& run.site_url == update.anchor.base_url
            &&& run.driver.before == before
            &&& start is Some
            &&& run.driver.after == start
            &&& start->0.precedes(before)
            &&& run.driver.next() matches Some(request) && request.url == run.driver.page_url(1)
                && request.via is None
            &&& run.driver.seen.ids.len() == 0
        }),
{
}

/// A window that would start no earlier than it ends is refused, and so is one whose start cannot be
/// told.
pub proof fn a_window_starts_before_it_ends(anchor: AnchorView, overlap: Span, before: Moment)
    ensures
        ({
            let start = clock::time_before(
                anchor.datetime.seconds,
                anchor.datetime.nanos,
                overlap.seconds as int,
                overlap.nanos as int,
            );
            window_start(anchor, overlap, before) is Ok <==> start is Some && start->0.precedes(
                before,
            )
        }),
{
}

/// A capture is of the site whose request is outstanding: it drives that site on, whose progress is
/// then the latest. A failed capture ends that site's requests; neither touches another site.
pub proof fn a_capture_is_of_the_outstanding_request(
    runs: RunsView,
    capture: CaptureView,
    index: int,
    other: int,
)
    requires
        runs.is_valid(),
        runs.active == Some(index),
        0 <= other < runs.drivers.len(),
        other != index,
    ensures
        ({
            let (after, inspection) = runs.inspected(capture);
            let failed = runs.after_failure();
            let driver = runs.drivers[index];
            &&& after.drivers.len() == runs.drivers.len()
            &&& after.drivers[index] == driver.inspected(capture).0
            &&& inspection == driver.inspected(capture).1
            &&& after.snapshots[index] == driver.inspected(capture).0.progress()
            &&& after.latest == Some(index)
            &&& after.active is None
            &&& failed.active is None
            &&& failed.drivers[index].next() is None
            &&& failed.drivers[index].seen == driver.seen
            &&& failed.drivers[other] == runs.drivers[other]
            &&& failed.snapshots == runs.snapshots
        }),
{
}

/// Runs begin with the drivers of their sites, in order, each to sweep twice where that is asked
/// for, and with no progress.
pub proof fn runs_begin_with_their_sites(runs: Seq<CommentRunView>, second_sweep: bool, index: int)
    requires
        0 <= index < runs.len(),
    ensures
        ({
            let beginning = RunsView::beginning(runs, second_sweep);
            &&& beginning.drivers.len() == runs.len()
            &&& beginning.site_urls[index] == runs[index].site_url
            &&& beginning.drivers[index].force_second_sweep == second_sweep
            &&& beginning.drivers[index].next() == runs[index].driver.next()
            &&& beginning.drivers[index].seen == runs[index].driver.seen
            &&& beginning.snapshots[index] is None
            &&& beginning.active is None
        }),
{
}

/// A site is warned of exactly where comments were counted that were not returned, and is told of
/// unless that is to be quiet.
pub proof fn a_shortfall_is_warned_of(
    site_url: Seq<char>,
    snapshot: Option<CommentProgressView>,
    output: Seq<char>,
    quiet: bool,
)
    ensures
        ({
            let notices = site_notices(site_url, snapshot, output, quiet);
            let short = snapshot matches Some(progress) && progress.complete && progress.downloaded
                < progress.total;
            &&& notices.len() == (if short {
                1int
            } else {
                0int
            }) + (if quiet {
                0int
            } else {
                1int
            })
            &&& short ==> notices[0].level == notice::Level::Warning
            &&& !quiet ==> notices.last().level == notice::Level::Printed
        }),
{
}

/// A partial archive is always told of, and a session that is complete, without failures and quiet
/// is silent but for its shortfalls.
pub proof fn an_incomplete_session_is_told_of(
    summary: SummaryView,
    runs: RunsView,
    output: Seq<char>,
    quiet: bool,
)
    ensures
        ({
            let notices = run_notices(summary, runs, output, quiet);
            &&& !summary.complete ==> notices.len() > 0 && notices.last() == notice::warned(
                "a partial archive was published at "@ + output,
            )
            &&& summary.complete && summary.failures.len() == 0 && summary.fatal_error is None
                && !summary.cancelled ==> notices == sites_notices(
                runs,
                output,
                quiet,
                runs.site_urls.len() as int,
            )
            &&& notices.len() >= summary.failures.len() + sites_notices(
                runs,
                output,
                quiet,
                runs.site_urls.len() as int,
            ).len()
        }),
{
    let notices = run_notices(summary, runs, output, quiet);
    let sites = sites_notices(runs, output, quiet, runs.site_urls.len() as int);
    if summary.complete && summary.failures.len() == 0 && summary.fatal_error is None
        && !summary.cancelled {
        assert(notices =~= sites);
    }
}

} // verus!
