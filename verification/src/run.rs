//! Runs of an archive: their durable progress, how they end, and how they are continued.

use crate::archive;
use crate::archive::{
    ArchiveDriver, Checkpoint, CheckpointView, DriverView, ProbeResult, ProbeView, Resumption, ResumptionView,
    Site, SiteView,
};
use crate::clock;
use crate::clock::{Moment, Timestamp};
use crate::endpoint;
use crate::endpoint::{Collection, CollectionView};
use crate::notice;
use crate::notice::{Level, Notice, NoticeView, Outcome};
use crate::options;
use crate::options::{PerPageOptions, PerPageView};
use crate::query;
use crate::resume;
use crate::resume::{InfoView, ResumeInfo};
use crate::segment;
use crate::session::{Capture, CaptureView, Inspection, InspectionView, Request, RequestView};
use crate::text;
use crate::web;
use vstd::prelude::*;
use vstd::string::StringExecFns;

verus! {

/// Driver progress paired with the latest checkpoint known to have reached the archive.
pub struct ArchiveRunState {
    driver: ArchiveDriver,
    durable: Checkpoint,
    pending: Option<(String, Checkpoint)>,
    transitions: Vec<(String, Checkpoint)>,
}

/// The parts of an [`ArchiveRunState`].
#[verifier::ext_equal]
pub struct RunView {
    pub driver: DriverView,
    /// The latest checkpoint whose captures are all written.
    pub durable: CheckpointView,
    /// The checkpoint that is reached once the capture of a URL is written.
    pub pending: Option<(Seq<char>, CheckpointView)>,
    /// The URL of each capture with the checkpoint before it, in order.
    pub transitions: Seq<(Seq<char>, CheckpointView)>,
}

impl DeepView for ArchiveRunState {
    type V = RunView;

    closed spec fn deep_view(&self) -> RunView {
        RunView {
            driver: self.driver.deep_view(),
            durable: self.durable.deep_view(),
            pending: self.pending.deep_view(),
            transitions: self.transitions.deep_view(),
        }
    }
}

/// The checkpoint before the first capture of one of some URLs.
pub open spec fn first_transition(
    transitions: Seq<(Seq<char>, CheckpointView)>,
    urls: Seq<Seq<char>>,
) -> Option<CheckpointView>
    decreases transitions.len(),
{
    if transitions.len() == 0 {
        None
    } else if urls.contains(transitions[0].0) {
        Some(transitions[0].1)
    } else {
        first_transition(transitions.drop_first(), urls)
    }
}

impl RunView {
    /// The state in which a run begins.
    pub open spec fn beginning(driver: DriverView) -> Self {
        RunView {
            driver,
            durable: driver.checkpoint(),
            pending: None,
            transitions: Seq::empty(),
        }
    }

    /// The state after a capture: the driver's progress awaits that the capture is written.
    pub open spec fn inspected(self, capture: CaptureView) -> (Self, InspectionView) {
        let (driver, inspection) = self.driver.inspected(capture);
        (
            RunView {
                driver,
                durable: self.durable,
                pending: Some((capture.url, driver.checkpoint())),
                transitions: self.transitions.push((capture.url, self.driver.checkpoint())),
            },
            inspection,
        )
    }

    /// The state after a capture is written.
    pub open spec fn written(self, url: Seq<char>) -> Self {
        match self.pending {
            Some((pending, checkpoint)) => if pending == url {
                RunView { durable: checkpoint, pending: None, ..self }
            } else {
                self
            },
            None => self,
        }
    }

    /// The checkpoint to report: the one before the first capture that is unexpectedly partial, or
    /// else the durable one.
    pub open spec fn checkpoint_for(self, partial_urls: Seq<Seq<char>>) -> CheckpointView {
        match first_transition(self.transitions, partial_urls) {
            Some(checkpoint) => checkpoint,
            None => self.durable,
        }
    }
}

/// Inspecting a capture does not make its progress durable; writing that capture does, and writing
/// another does not.
pub proof fn progress_is_durable_once_written(
    run: RunView,
    capture: CaptureView,
    other: Seq<char>,
)
    ensures
        run.inspected(capture).0.durable == run.durable,
        run.inspected(capture).0.written(capture.url).durable == run.inspected(
            capture,
        ).0.driver.checkpoint(),
        other != capture.url ==> run.inspected(capture).0.written(other).durable == run.durable,
{
}

/// Where no capture is partial, the durable checkpoint is reported; where one is, the checkpoint
/// before it.
pub proof fn a_partial_capture_rolls_progress_back(
    run: RunView,
    capture: CaptureView,
    partial_urls: Seq<Seq<char>>,
)
    ensures
        run.checkpoint_for(Seq::empty()) == run.durable,
        first_transition(run.transitions, partial_urls) is None && partial_urls.contains(
            capture.url,
        ) ==> run.inspected(capture).0.written(capture.url).checkpoint_for(partial_urls)
            == run.driver.checkpoint(),
{
    lemma_no_transition(run.transitions);
    lemma_first_transition_of_push(
        run.transitions,
        (capture.url, run.driver.checkpoint()),
        partial_urls,
    );
}

proof fn lemma_no_transition(transitions: Seq<(Seq<char>, CheckpointView)>)
    ensures
        first_transition(transitions, Seq::empty()) is None,
    decreases transitions.len(),
{
    if transitions.len() > 0 {
        lemma_no_transition(transitions.drop_first());
    }
}

proof fn lemma_first_transition_of_push(
    transitions: Seq<(Seq<char>, CheckpointView)>,
    added: (Seq<char>, CheckpointView),
    urls: Seq<Seq<char>>,
)
    ensures
        first_transition(transitions.push(added), urls) == (match first_transition(
            transitions,
            urls,
        ) {
            Some(checkpoint) => Some(checkpoint),
            None => if urls.contains(added.0) {
                Some(added.1)
            } else {
                None
            },
        }),
    decreases transitions.len(),
{
    let grown = transitions.push(added);
    if transitions.len() > 0 {
        assert(grown.drop_first() == transitions.drop_first().push(added));
        lemma_first_transition_of_push(transitions.drop_first(), added, urls);
    } else {
        assert(first_transition(grown.drop_first(), urls) is None);
    }
}

fn is_among(value: &str, values: &Vec<String>) -> (found: bool)
    ensures
        found == values.deep_view().contains(value@),
{
    let mut index: usize = 0;
    while index < values.len()
        invariant
            index <= values@.len(),
            forall|earlier: int|
                0 <= earlier < index ==> (#[trigger] values.deep_view()[earlier]) != value@,
        decreases values@.len() - index,
    {
        assert(values.deep_view()[index as int] == values@[index as int]@);
        if text::same(values[index].as_str(), value) {
            return true;
        }
        index += 1;
    }
    false
}

impl ArchiveRunState {
    /// A run that begins with a driver's state.
    pub fn new(driver: ArchiveDriver) -> (run: Self)
        ensures
            run.deep_view() == RunView::beginning(driver.deep_view()),
    {
        let durable = driver.checkpoint();
        let run = ArchiveRunState { driver, durable, pending: None, transitions: Vec::new() };
        assert(run.deep_view() =~= RunView::beginning(driver.deep_view()));
        run
    }

    /// The run's driver.
    pub fn driver(&self) -> (driver: &ArchiveDriver)
        ensures
            driver.deep_view() == self.deep_view().driver,
    {
        &self.driver
    }

    /// The latest checkpoint whose captures are all written.
    pub fn durable(&self) -> (checkpoint: &Checkpoint)
        ensures
            checkpoint.deep_view() == self.deep_view().durable,
    {
        &self.durable
    }

    /// The request that the run makes next.
    pub fn next(&self) -> (request: Option<Request>)
        requires
            self.deep_view().driver.is_valid(),
        ensures
            request.deep_view() == self.deep_view().driver.next(),
    {
        self.driver.next()
    }

    /// Take a capture into account.
    pub fn inspect(&mut self, capture: &Capture<'_>) -> (inspection: Inspection)
        requires
            old(self).deep_view().driver.is_valid(),
        ensures
            (final(self).deep_view(), inspection.deep_view()) == old(self).deep_view().inspected(
                capture.deep_view(),
            ),
            final(self).deep_view().driver.is_valid(),
    {
        let ghost start = self.deep_view();
        let before = self.driver.checkpoint();
        let inspection = self.driver.inspect(capture);
        let after = self.driver.checkpoint();
        let transition = (capture.url.to_owned(), before);
        let ghost added = transition.deep_view();
        self.transitions.push(transition);
        self.pending = Some((capture.url.to_owned(), after));
        assert(self.transitions.deep_view() =~= start.transitions.push(added));
        assert(self.deep_view() =~= start.inspected(capture.deep_view()).0);
        inspection
    }

    /// Take a failed capture into account.
    pub fn failed(&mut self)
        ensures
            final(self).deep_view() == (RunView {
                driver: DriverView { stopped: true, ..old(self).deep_view().driver },
                ..old(self).deep_view()
            }),
            old(self).deep_view().driver.is_valid() ==> final(self).deep_view().driver.is_valid(),
    {
        self.driver.failed();
    }

    /// Take into account that a capture is written.
    pub fn written(&mut self, url: &str)
        ensures
            final(self).deep_view() == old(self).deep_view().written(url@),
    {
        let ghost start = self.deep_view();
        let is_pending = match &self.pending {
            Some((pending, _)) => text::same(pending.as_str(), url),
            None => false,
        };
        if is_pending {
            if let Some((_, checkpoint)) = self.pending.take() {
                self.durable = checkpoint;
            }
            assert(self.deep_view() =~= start.written(url@));
        }
    }

    /// Roll back before the first unexpectedly partial response; otherwise use durable progress.
    pub fn checkpoint_for_summary(&self, partial_urls: &Vec<String>) -> (checkpoint: Checkpoint)
        ensures
            checkpoint.deep_view() == self.deep_view().checkpoint_for(partial_urls.deep_view()),
    {
        let ghost all = self.transitions.deep_view();
        let ghost urls = partial_urls.deep_view();
        let mut index: usize = 0;
        assert(all.skip(0) == all);
        while index < self.transitions.len()
            invariant
                index <= self.transitions@.len(),
                all == self.transitions.deep_view(),
                urls == partial_urls.deep_view(),
                first_transition(all, urls) == first_transition(all.skip(index as int), urls),
            decreases self.transitions@.len() - index,
        {
            let ghost rest = all.skip(index as int);
            assert(rest.drop_first() == all.skip(index + 1));
            assert(rest[0] == self.transitions@[index as int].deep_view());
            if is_among(self.transitions[index].0.as_str(), partial_urls) {
                return self.transitions[index].1.clone();
            }
            index += 1;
        }
        self.durable.clone()
    }
}

/// What a session reports while it captures a URL.
#[derive(Clone, Copy, Debug, Eq, PartialEq, Structural)]
pub enum CaptureEvent {
    /// A request starts.
    Started,
    /// A request is made again.
    Retrying,
    /// A request failed.
    Failed,
    /// A response was captured, and is yet to be inspected and written.
    Captured,
    /// A capture is written.
    Written,
}

/// Whether a session that was interrupted ends with an event.
///
/// Once a response has been captured, inspection and recording finish first, so that the reported
/// checkpoint is durable.
pub fn is_cancelled(event: CaptureEvent, interrupted: bool) -> (cancelled: bool)
    ensures
        cancelled == (interrupted && event != CaptureEvent::Captured),
{
    match event {
        CaptureEvent::Captured => false,
        _ => interrupted,
    }
}

/// A capture of a finished session.
#[derive(Debug, Eq, PartialEq)]
pub struct SessionCapture {
    /// The URL that was captured.
    pub url: String,
    /// Whether the capture is unexpectedly truncated.
    pub partial: bool,
}

/// The parts of a [`SessionCapture`].
#[verifier::ext_equal]
pub struct SessionCaptureView {
    pub url: Seq<char>,
    pub partial: bool,
}

impl DeepView for SessionCapture {
    type V = SessionCaptureView;

    open spec fn deep_view(&self) -> SessionCaptureView {
        SessionCaptureView { url: self.url@, partial: self.partial }
    }
}

/// What a finished session reports.
#[derive(Debug, Eq, PartialEq)]
pub struct SessionSummary {
    /// The captures of seeds and of the requests that followed from them, in that order.
    pub captures: Vec<SessionCapture>,
    /// The URLs that could not be captured, each with the reason.
    pub failures: Vec<(String, String)>,
    /// Why the session ended early, if it did.
    pub fatal_error: Option<String>,
    /// Whether the session was cancelled.
    pub cancelled: bool,
    /// How many captures are unexpectedly truncated.
    pub partial_captures: usize,
    /// Whether everything requested was captured.
    pub complete: bool,
}

/// The parts of a [`SessionSummary`].
#[verifier::ext_equal]
pub struct SummaryView {
    pub captures: Seq<SessionCaptureView>,
    pub failures: Seq<(Seq<char>, Seq<char>)>,
    pub fatal_error: Option<Seq<char>>,
    pub cancelled: bool,
    pub partial_captures: usize,
    pub complete: bool,
}

impl DeepView for SessionSummary {
    type V = SummaryView;

    open spec fn deep_view(&self) -> SummaryView {
        SummaryView {
            captures: self.captures.deep_view(),
            failures: self.failures.deep_view(),
            fatal_error: self.fatal_error.deep_view(),
            cancelled: self.cancelled,
            partial_captures: self.partial_captures,
            complete: self.complete,
        }
    }
}

/// The URLs of the captures that are unexpectedly truncated, in order.
pub open spec fn partial_urls(captures: Seq<SessionCaptureView>) -> Seq<Seq<char>>
    decreases captures.len(),
{
    if captures.len() == 0 {
        Seq::empty()
    } else if captures.last().partial {
        partial_urls(captures.drop_last()).push(captures.last().url)
    } else {
        partial_urls(captures.drop_last())
    }
}

/// Whether a capture is of a page within a cutoff.
pub open spec fn is_paginated(url: Seq<char>) -> bool {
    web::parsed_address(url) matches Ok(address) && query::looked_up(address.pairs, "page"@) is Some
        && query::looked_up(address.pairs, "before"@) is Some
}

/// The URL that an archive requests a page by is a page's within a cutoff, where it is an address.
pub proof fn requested_pages_are_paginated(
    site: SiteView,
    endpoint: Seq<char>,
    before: Moment,
    page: nat,
    per_page: nat,
)
    requires
        web::is_bare(site.root.href),
        web::is_bare(endpoint),
        clock::reads_back(before),
        web::parsed_address(site.page_url(endpoint, before, page, per_page)) is Ok,
        web::is_read(site.page_url(endpoint, before, page, per_page)),
    ensures
        is_paginated(site.page_url(endpoint, before, page, per_page)),
{
    archive::a_page_url_carries_its_query(site, endpoint, before, page, per_page);
    let pairs = archive::page_pairs(before, page, per_page);
    assert(pairs[0].0 == "before"@);
    assert(pairs[3].0 == "page"@);
    query::lemma_looked_up(pairs, "before"@);
    query::lemma_looked_up(pairs, "page"@);
}

/// Whether any capture is of a page within a cutoff.
pub open spec fn has_pagination(captures: Seq<SessionCaptureView>) -> bool {
    exists|index: int| 0 <= index < captures.len() && is_paginated((#[trigger] captures[index]).url)
}

/// The messages about URLs that could not be captured.
pub open spec fn failure_notices(failures: Seq<(Seq<char>, Seq<char>)>) -> Seq<NoticeView> {
    failures.map_values(
        |failure: (Seq<char>, Seq<char>)|
            notice::warned("Failed to capture "@ + failure.0 + ": "@ + failure.1),
    )
}

/// The messages about a session that ended early.
pub open spec fn ending_notices(fatal_error: Option<Seq<char>>) -> Seq<NoticeView> {
    match fatal_error {
        Some(error) => seq![notice::warned("The session ended early: "@ + error)],
        None => Seq::empty(),
    }
}

/// The message about an endpoint that a site did not answer for as expected.
pub open spec fn probe_notice(base: Seq<char>, probed: (CollectionView, u16)) -> Option<NoticeView> {
    let (collection, status) = probed;
    if status == 404 {
        Some(
            NoticeView {
                level: Level::Info,
                message: base + " does not expose "@ + collection.name(),
            },
        )
    } else if !(200 <= status < 300) && status != 304 {
        Some(
            notice::warned(
                base + " answered the "@ + collection.name() + " probe with status "@
                    + text::decimal(status as nat) + "; the endpoint was skipped"@,
            ),
        )
    } else {
        None
    }
}

/// The messages about endpoints that a site did not answer for as expected, in order.
pub open spec fn probe_notices(base: Seq<char>, probed: Seq<(CollectionView, u16)>) -> Seq<
    NoticeView,
>
    decreases probed.len(),
{
    if probed.len() == 0 {
        Seq::empty()
    } else {
        let earlier = probe_notices(base, probed.drop_last());
        match probe_notice(base, probed.last()) {
            Some(added) => earlier.push(added),
            None => earlier,
        }
    }
}

/// The messages about a finished archive session.
pub open spec fn archive_notices(
    summary: SummaryView,
    probed: Seq<(CollectionView, u16)>,
    base: Seq<char>,
) -> Seq<NoticeView> {
    failure_notices(summary.failures) + ending_notices(summary.fatal_error) + (if summary.cancelled {
        seq![
            notice::warned(
                "the session was cancelled before all requested captures were completed"@,
            ),
        ]
    } else {
        Seq::empty()
    }) + (if summary.partial_captures > 0 {
        seq![
            notice::warned(
                text::decimal(summary.partial_captures as nat)
                    + " capture(s) were unexpectedly truncated"@,
            ),
        ]
    } else {
        Seq::empty()
    }) + probe_notices(base, probed)
}

impl SessionSummary {
    /// The URLs of the captures that are unexpectedly truncated, in order.
    pub fn partial_urls(&self) -> (urls: Vec<String>)
        ensures
            urls.deep_view() == partial_urls(self.deep_view().captures),
    {
        let ghost all = self.captures.deep_view();
        let mut urls: Vec<String> = Vec::new();
        let mut index: usize = 0;
        assert(urls.deep_view() =~= Seq::<Seq<char>>::empty());
        while index < self.captures.len()
            invariant
                index <= self.captures@.len(),
                all == self.captures.deep_view(),
                urls.deep_view() == partial_urls(all.take(index as int)),
            decreases self.captures@.len() - index,
        {
            assert(all.take(index + 1).drop_last() == all.take(index as int));
            assert(all.take(index + 1).last() == self.captures@[index as int].deep_view());
            if self.captures[index].partial {
                let ghost known = urls.deep_view();
                let url = self.captures[index].url.clone();
                urls.push(url);
                assert(urls.deep_view() =~= known.push(url@));
            }
            index += 1;
        }
        assert(all.take(index as int) == all);
        urls
    }

    /// Whether any capture is of a page within a cutoff.
    pub fn has_pagination(&self) -> (found: bool)
        ensures
            found == has_pagination(self.deep_view().captures),
    {
        let ghost all = self.captures.deep_view();
        let mut index: usize = 0;
        while index < self.captures.len()
            invariant
                index <= self.captures@.len(),
                all == self.captures.deep_view(),
                forall|earlier: int|
                    0 <= earlier < index ==> !is_paginated((#[trigger] all[earlier]).url),
            decreases self.captures@.len() - index,
        {
            assert(all[index as int] == self.captures@[index as int].deep_view());
            if let Ok(address) = web::parse(self.captures[index].url.as_str()) {
                if query::look_up(&address.pairs, "page").is_some() && query::look_up(
                    &address.pairs,
                    "before",
                ).is_some() {
                    assert(is_paginated(all[index as int].url));
                    return true;
                }
            }
            index += 1;
        }
        false
    }
}

/// Adds the messages about URLs that could not be captured.
pub fn notify_failures(notices: &mut Vec<Notice>, failures: &Vec<(String, String)>)
    ensures
        final(notices).deep_view() == old(notices).deep_view() + failure_notices(
            failures.deep_view(),
        ),
{
    let ghost all = failures.deep_view();
    let ghost start = notices.deep_view();
    let mut index: usize = 0;
    assert(notices.deep_view() =~= start + failure_notices(all.take(0)));
    while index < failures.len()
        invariant
            index <= failures@.len(),
            all == failures.deep_view(),
            start == old(notices).deep_view(),
            notices.deep_view() == start + failure_notices(all.take(index as int)),
        decreases failures@.len() - index,
    {
        assert(all[index as int] == failures@[index as int].deep_view());
        let mut message = text::joined("Failed to capture ", failures[index].0.as_str());
        message.append(": ");
        message.append(failures[index].1.as_str());
        let ghost known = notices.deep_view();
        notice::notify(notices, Level::Warning, message);
        index += 1;
        assert(notices.deep_view() =~= start + failure_notices(all.take(index as int)));
    }
    assert(all.take(index as int) == all);
}

/// Adds the messages about a session that ended early.
pub fn notify_ending(notices: &mut Vec<Notice>, fatal_error: &Option<String>)
    ensures
        final(notices).deep_view() == old(notices).deep_view() + ending_notices(
            fatal_error.deep_view(),
        ),
{
    let ghost start = notices.deep_view();
    if let Some(error) = fatal_error {
        notice::notify(
            notices,
            Level::Warning,
            text::joined("The session ended early: ", error.as_str()),
        );
    }
    assert(notices.deep_view() =~= start + ending_notices(fatal_error.deep_view()));
}

fn notify_probes(notices: &mut Vec<Notice>, probed: &Vec<(Collection, u16)>, base: &str)
    ensures
        final(notices).deep_view() == old(notices).deep_view() + probe_notices(
            base@,
            probed.deep_view(),
        ),
{
    let ghost all = probed.deep_view();
    let ghost start = notices.deep_view();
    let mut index: usize = 0;
    assert(notices.deep_view() =~= start + probe_notices(base@, all.take(0)));
    while index < probed.len()
        invariant
            index <= probed@.len(),
            all == probed.deep_view(),
            start == old(notices).deep_view(),
            notices.deep_view() == start + probe_notices(base@, all.take(index as int)),
        decreases probed@.len() - index,
    {
        assert(all.take(index + 1).drop_last() == all.take(index as int));
        assert(all.take(index + 1).last() == probed@[index as int].deep_view());
        let name = probed[index].0.name();
        let status = probed[index].1;
        if status == 404 {
            let mut message = text::joined(base, " does not expose ");
            message.append(name);
            notice::notify(notices, Level::Info, message);
        } else if !(200 <= status && status < 300) && status != 304 {
            let mut message = text::joined(base, " answered the ");
            message.append(name);
            message.append(" probe with status ");
            message.append(text::decimal_of(status as u64).as_str());
            message.append("; the endpoint was skipped");
            notice::notify(notices, Level::Warning, message);
        }
        index += 1;
        assert(notices.deep_view() =~= start + probe_notices(base@, all.take(index as int)));
    }
    assert(all.take(index as int) == all);
}

/// The messages about a finished archive session.
pub fn report_archive_problems(
    summary: &SessionSummary,
    driver: &ArchiveDriver,
    base: &str,
) -> (notices: Vec<Notice>)
    ensures
        notices.deep_view() == archive_notices(
            summary.deep_view(),
            driver.deep_view().probed,
            base@,
        ),
{
    let mut notices: Vec<Notice> = Vec::new();
    assert(notices.deep_view() =~= Seq::<NoticeView>::empty());
    notify_failures(&mut notices, &summary.failures);
    notify_ending(&mut notices, &summary.fatal_error);
    if summary.cancelled {
        notice::notify(
            &mut notices,
            Level::Warning,
            "the session was cancelled before all requested captures were completed".to_owned(),
        );
    }
    if summary.partial_captures > 0 {
        notice::notify(
            &mut notices,
            Level::Warning,
            text::joined(
                text::count_text(summary.partial_captures).as_str(),
                " capture(s) were unexpectedly truncated",
            ),
        );
    }
    notify_probes(&mut notices, driver.probed(), base);
    assert(notices.deep_view() =~= archive_notices(
        summary.deep_view(),
        driver.deep_view().probed,
        base@,
    ));
    notices
}

/// The ways in which an archive session fails to be run or continued.
#[derive(Debug)]
pub enum Error {
    /// The directory holds no archive whose name begins with the session name.
    NoSessionWarcs {
        /// The directory.
        output: String,
        /// The session name.
        session_name: String,
    },
    /// The first segment does not contain every endpoint probe.
    MissingSessionProbes(String),
    /// A segment belongs to another site than the session's.
    SessionSiteMismatch {
        /// The segment.
        path: String,
        /// The base of the session's site.
        expected: String,
        /// The base of the segment's site.
        actual: String,
    },
    /// A segment uses another cutoff than the session's.
    SessionCutoffMismatch {
        /// The segment.
        path: String,
        /// The session's cutoff.
        expected: Timestamp,
        /// The segment's cutoff.
        actual: Timestamp,
    },
    /// A segment's name does not name its session.
    SessionName(String),
    /// The session stopped before its initial requests were finished.
    InitialRequestsIncomplete(String),
    /// The archive stopped before its initial requests finished.
    InitialArchiveCannotResume(String),
    /// No paginated request records the cutoff.
    MissingResumeCutoff(String),
    /// The initial probes do not include the endpoint to continue.
    UnknownEndpoint(String),
}

/// The parts of an [`Error`].
#[verifier::ext_equal]
pub enum ErrorView {
    NoSessionWarcs { output: Seq<char>, session_name: Seq<char> },
    MissingSessionProbes(Seq<char>),
    SessionSiteMismatch { path: Seq<char>, expected: Seq<char>, actual: Seq<char> },
    SessionCutoffMismatch { path: Seq<char>, expected: Moment, actual: Moment },
    SessionName(Seq<char>),
    InitialRequestsIncomplete(Seq<char>),
    InitialArchiveCannotResume(Seq<char>),
    MissingResumeCutoff(Seq<char>),
    UnknownEndpoint(Seq<char>),
}

impl DeepView for Error {
    type V = ErrorView;

    open spec fn deep_view(&self) -> ErrorView {
        match self {
            Error::NoSessionWarcs { output, session_name } => ErrorView::NoSessionWarcs {
                output: output@,
                session_name: session_name@,
            },
            Error::MissingSessionProbes(path) => ErrorView::MissingSessionProbes(path@),
            Error::SessionSiteMismatch { path, expected, actual } =>
                ErrorView::SessionSiteMismatch {
                path: path@,
                expected: expected@,
                actual: actual@,
            },
            Error::SessionCutoffMismatch { path, expected, actual } =>
                ErrorView::SessionCutoffMismatch {
                path: path@,
                expected: expected@,
                actual: actual@,
            },
            Error::SessionName(path) => ErrorView::SessionName(path@),
            Error::InitialRequestsIncomplete(path) => ErrorView::InitialRequestsIncomplete(path@),
            Error::InitialArchiveCannotResume(path) => ErrorView::InitialArchiveCannotResume(path@),
            Error::MissingResumeCutoff(path) => ErrorView::MissingResumeCutoff(path@),
            Error::UnknownEndpoint(name) => ErrorView::UnknownEndpoint(name@),
        }
    }
}

impl ErrorView {
    /// The error in words.
    pub open spec fn message(self) -> Seq<char> {
        match self {
            ErrorView::NoSessionWarcs { output, session_name } => output
                + " contains no direct .warc or .warc.gz files beginning with session name "@
                + text::quoted(session_name),
            ErrorView::MissingSessionProbes(path) => "the first archive segment "@ + path
                + " does not contain every endpoint probe"@,
            ErrorView::SessionSiteMismatch { path, expected, actual } => "archive segment "@ + path
                + " belongs to site "@ + text::quoted(actual) + ", not the session's site "@
                + text::quoted(expected),
            ErrorView::SessionCutoffMismatch { path, expected, actual } => "archive segment "@
                + path + " uses cutoff "@ + clock::display_text(actual.seconds, actual.nanos)
                + ", not the session's cutoff "@ + clock::display_text(
                expected.seconds,
                expected.nanos,
            ),
            ErrorView::SessionName(path) => "cannot derive an archive session name from "@ + path,
            ErrorView::InitialRequestsIncomplete(path) =>
                "the session stopped before its initial requests were finished, so a new archive must start over; a partial archive was published at "@
                + path,
            ErrorView::InitialArchiveCannotResume(path) => "the archive in "@ + path
                + " stopped before its initial requests finished and cannot be resumed; start a new archive instead"@,
            ErrorView::MissingResumeCutoff(path) =>
                "cannot recover the original before cutoff from "@ + path
                + "; no paginated request was recorded"@,
            ErrorView::UnknownEndpoint(name) =>
                "the archive session's initial probes do not include endpoint "@ + text::quoted(
                name,
            ),
        }
    }
}

impl Error {
    /// The error in words.
    pub fn to_string(&self) -> (message: String)
        ensures
            message@ == self.deep_view().message(),
    {
        match self {
            Error::NoSessionWarcs { output, session_name } => {
                let mut message = text::joined(
                    output.as_str(),
                    " contains no direct .warc or .warc.gz files beginning with session name ",
                );
                message.append(text::quote(session_name.as_str()).as_str());
                message
            },
            Error::MissingSessionProbes(path) => {
                let mut message = text::joined("the first archive segment ", path.as_str());
                message.append(" does not contain every endpoint probe");
                message
            },
            Error::SessionSiteMismatch { path, expected, actual } => {
                let mut message = text::joined("archive segment ", path.as_str());
                message.append(" belongs to site ");
                message.append(text::quote(actual.as_str()).as_str());
                message.append(", not the session's site ");
                message.append(text::quote(expected.as_str()).as_str());
                message
            },
            Error::SessionCutoffMismatch { path, expected, actual } => {
                let mut message = text::joined("archive segment ", path.as_str());
                message.append(" uses cutoff ");
                message.append(actual.to_string().as_str());
                message.append(", not the session's cutoff ");
                message.append(expected.to_string().as_str());
                message
            },
            Error::SessionName(path) => text::joined(
                "cannot derive an archive session name from ",
                path.as_str(),
            ),
            Error::InitialRequestsIncomplete(path) => text::joined(
                "the session stopped before its initial requests were finished, so a new archive must start over; a partial archive was published at ",
                path.as_str(),
            ),
            Error::InitialArchiveCannotResume(path) => {
                let mut message = text::joined("the archive in ", path.as_str());
                message.append(
                    " stopped before its initial requests finished and cannot be resumed; start a new archive instead",
                );
                message
            },
            Error::MissingResumeCutoff(path) => {
                let mut message = text::joined(
                    "cannot recover the original before cutoff from ",
                    path.as_str(),
                );
                message.append("; no paginated request was recorded");
                message
            },
            Error::UnknownEndpoint(name) => text::joined(
                "the archive session's initial probes do not include endpoint ",
                text::quote(name.as_str()).as_str(),
            ),
        }
    }
}

/// The archive files of a session, in continuation order.
///
/// # Errors
///
/// Returns [`Error::NoSessionWarcs`] where `names`, the files in the directory `output`, hold none.
pub fn session_segments(names: &Vec<String>, output: &str, session_name: &str) -> (segments: Result<
    Vec<String>,
    Error,
>)
    ensures
        match segments {
            Ok(segments) => segments@.len() > 0 && segment::are_sorted(segments.deep_view())
                && segments.deep_view().to_multiset() == segment::selected(
                names.deep_view(),
                session_name@,
            ).to_multiset(),
            Err(error) => segment::selected(names.deep_view(), session_name@).len() == 0
                && error.deep_view() == (ErrorView::NoSessionWarcs {
                output: output@,
                session_name: session_name@,
            }),
        },
{
    match segment::session_warcs(names, session_name) {
        Some(segments) => Ok(segments),
        None => Err(
            Error::NoSessionWarcs {
                output: output.to_owned(),
                session_name: session_name.to_owned(),
            },
        ),
    }
}

/// The segments of an archive session, read in order.
pub struct SessionHistory {
    path: String,
    first: ResumeInfo,
    before: Timestamp,
    latest: Checkpoint,
}

/// The parts of a [`SessionHistory`].
#[verifier::ext_equal]
pub struct HistoryView {
    /// The first segment.
    pub path: Seq<char>,
    /// What the first segment tells of the session.
    pub first: InfoView,
    /// The session's cutoff.
    pub before: Moment,
    /// The checkpoint after the latest segment.
    pub latest: CheckpointView,
}

impl DeepView for SessionHistory {
    type V = HistoryView;

    closed spec fn deep_view(&self) -> HistoryView {
        HistoryView {
            path: self.path@,
            first: self.first.deep_view(),
            before: self.before@,
            latest: self.latest.deep_view(),
        }
    }
}

/// Whether every endpoint was probed, in order.
pub open spec fn has_all_probes(info: InfoView) -> bool {
    endpoint::names_of(info.endpoints) == endpoint::names_of(
        info.probes.map_values(|probe: ProbeView| probe.collection),
    )
}

impl HistoryView {
    /// What the first segment of a session begins.
    pub open spec fn begun(path: Seq<char>, info: InfoView, before: Option<Moment>) -> Result<
        Self,
        ErrorView,
    > {
        if !has_all_probes(info) {
            Err(ErrorView::MissingSessionProbes(path))
        } else {
            match (info.before, before) {
                (Some(before), _) => Ok(
                    HistoryView { path, first: info, before, latest: info.checkpoint },
                ),
                (None, Some(before)) => Ok(
                    HistoryView { path, first: info, before, latest: info.checkpoint },
                ),
                (None, None) => Err(ErrorView::MissingResumeCutoff(path)),
            }
        }
    }

    /// What a further segment adds.
    pub open spec fn extended(self, path: Seq<char>, info: InfoView) -> Result<Self, ErrorView> {
        if info.site != self.first.site {
            Err(
                ErrorView::SessionSiteMismatch {
                    path,
                    expected: self.first.site.base,
                    actual: info.site.base,
                },
            )
        } else if info.before matches Some(actual) && actual != self.before {
            Err(
                ErrorView::SessionCutoffMismatch {
                    path,
                    expected: self.before,
                    actual: info.before->0,
                },
            )
        } else {
            Ok(HistoryView { latest: info.checkpoint, ..self })
        }
    }

    /// The checkpoint to continue from, its endpoint as it was probed first; `None` where the
    /// archive is complete.
    pub open spec fn resumption(self) -> Result<Option<ResumptionView>, ErrorView> {
        match self.latest {
            CheckpointView::Finished => Ok(None),
            CheckpointView::Initial => Err(ErrorView::InitialArchiveCannotResume(self.path)),
            CheckpointView::Resume(resumption) => match endpoint::first_named(
                self.first.probes.map_values(|probe: ProbeView| probe.collection),
                resumption.endpoint.name(),
            ) {
                Some(endpoint) => Ok(Some(ResumptionView { endpoint, ..resumption })),
                None => Err(ErrorView::UnknownEndpoint(resumption.endpoint.name())),
            },
        }
    }

    /// The driver that continues a session from a checkpoint.
    pub open spec fn continued(
        self,
        resumption: ResumptionView,
        per_page: Seq<PerPageView>,
    ) -> DriverView {
        options::configured(
            DriverView::resumed_with_probes(
                self.first.site,
                self.before,
                resumption,
                self.first.probes,
            ),
            per_page,
        )
    }
}

/// The driver that continues a session stands at the checkpoint after its latest segment, with the
/// endpoint of the same name that was probed first.
pub proof fn a_continued_session_keeps_its_checkpoint(
    history: HistoryView,
    per_page: Seq<PerPageView>,
)
    requires
        history.resumption() matches Ok(Some(_)),
    ensures
        history.resumption() matches Ok(Some(resumption)) && (history.latest
            matches CheckpointView::Resume(latest) && resumption.endpoint.name()
            == latest.endpoint.name() && resumption.last_page == latest.last_page
            && resumption.total_pages == latest.total_pages && history.continued(
            resumption,
            per_page,
        ).checkpoint() == CheckpointView::Resume(resumption)),
{
    let latest = history.latest->Resume_0;
    let collections = history.first.probes.map_values(|probe: ProbeView| probe.collection);
    text::lemma_position(endpoint::names_of(collections), latest.endpoint.name());
}

/// A segment of another site or with another cutoff is refused, and one that is accepted leaves the
/// session's site, cutoff, and probes as the first segment has them.
pub proof fn later_segments_keep_the_session(history: HistoryView, path: Seq<char>, info: InfoView)
    ensures
        match history.extended(path, info) {
            Ok(extended) => info.site == history.first.site && (info.before is None || info.before
                == Some(history.before)) && extended.first == history.first && extended.before
                == history.before && extended.latest == info.checkpoint,
            Err(_) => info.site != history.first.site || (info.before is Some && info.before
                != Some(history.before)),
        },
{
}

fn check_probes(info: &ResumeInfo) -> (complete: bool)
    ensures
        complete == has_all_probes(info.deep_view()),
{
    let ghost endpoints = endpoint::names_of(info.endpoints.deep_view());
    let ghost probes = endpoint::names_of(
        info.probes.deep_view().map_values(|probe: ProbeView| probe.collection),
    );
    if info.probes.len() != info.endpoints.len() {
        return false;
    }
    let mut index: usize = 0;
    while index < info.endpoints.len()
        invariant
            index <= info.endpoints@.len(),
            endpoints.len() == info.endpoints@.len(),
            probes.len() == endpoints.len(),
            info.probes@.len() == info.endpoints@.len(),
            endpoints == endpoint::names_of(info.endpoints.deep_view()),
            probes == endpoint::names_of(
                info.probes.deep_view().map_values(|probe: ProbeView| probe.collection),
            ),
            endpoints.take(index as int) == probes.take(index as int),
        decreases info.endpoints@.len() - index,
    {
        let ghost before = endpoints.take(index as int);
        assert(endpoints[index as int] == info.endpoints@[index as int].deep_view().name());
        assert(probes[index as int] == info.probes@[index as int].collection.deep_view().name());
        if !text::same(info.endpoints[index].name(), info.probes[index].collection.name()) {
            return false;
        }
        index += 1;
        assert(endpoints.take(index as int) =~= before.push(endpoints[index - 1]));
        assert(probes.take(index as int) =~= before.push(probes[index - 1]));
    }
    assert(endpoints.take(index as int) =~= endpoints);
    assert(probes.take(index as int) =~= probes);
    true
}

impl SessionHistory {
    /// Begin with a session's first segment, and the cutoff to use where it records none.
    ///
    /// # Errors
    ///
    /// Returns [`Error::MissingSessionProbes`] or [`Error::MissingResumeCutoff`] when the segment
    /// does not tell enough of the session.
    pub fn begin(path: &str, info: ResumeInfo, before: Option<Timestamp>) -> (history: Result<
        Self,
        Error,
    >)
        requires
            info.deep_view().checkpoint.has_room(),
        ensures
            match history {
                Ok(history) => HistoryView::begun(
                    path@,
                    info.deep_view(),
                    before.deep_view(),
                ) == Ok::<HistoryView, ErrorView>(history.deep_view())
                    && history.deep_view().latest.has_room(),
                Err(error) => HistoryView::begun(path@, info.deep_view(), before.deep_view())
                    == Err::<HistoryView, ErrorView>(error.deep_view()),
            },
    {
        if !check_probes(&info) {
            return Err(Error::MissingSessionProbes(path.to_owned()));
        }
        let before = match (info.before, before) {
            (Some(before), _) => before,
            (None, Some(before)) => before,
            (None, None) => {
                return Err(Error::MissingResumeCutoff(path.to_owned()));
            },
        };
        let latest = info.checkpoint.clone();
        Ok(SessionHistory { path: path.to_owned(), first: info, before, latest })
    }

    /// The session's site.
    pub fn site(&self) -> (site: &Site)
        ensures
            site.deep_view() == self.deep_view().first.site,
    {
        &self.first.site
    }

    /// The session's cutoff.
    pub fn before(&self) -> (before: Timestamp)
        ensures
            before@ == self.deep_view().before,
    {
        self.before
    }

    /// The probes with which later segments are inspected.
    pub fn probes(&self) -> (probes: &Vec<ProbeResult>)
        ensures
            probes.deep_view() == self.deep_view().first.probes,
    {
        &self.first.probes
    }

    /// Go on with the session's next segment.
    ///
    /// # Errors
    ///
    /// Returns [`Error::SessionSiteMismatch`] or [`Error::SessionCutoffMismatch`] for a segment of
    /// another session.
    pub fn extend(&mut self, path: &str, info: ResumeInfo) -> (extended: Result<(), Error>)
        requires
            info.deep_view().checkpoint.has_room(),
        ensures
            match extended {
                Ok(_) => old(self).deep_view().extended(path@, info.deep_view()) == Ok::<
                    HistoryView,
                    ErrorView,
                >(final(self).deep_view()) && final(self).deep_view().latest.has_room(),
                Err(error) => old(self).deep_view().extended(path@, info.deep_view()) == Err::<
                    HistoryView,
                    ErrorView,
                >(error.deep_view()) && final(self).deep_view() == old(self).deep_view(),
            },
    {
        if !info.site.equals(&self.first.site) {
            return Err(
                Error::SessionSiteMismatch {
                    path: path.to_owned(),
                    expected: self.first.site.base().to_owned(),
                    actual: info.site.base().to_owned(),
                },
            );
        }
        if let Some(actual) = info.before {
            if !actual.equals(&self.before) {
                return Err(
                    Error::SessionCutoffMismatch {
                        path: path.to_owned(),
                        expected: self.before,
                        actual,
                    },
                );
            }
        }
        self.latest = info.checkpoint;
        Ok(())
    }

    /// The driver that continues the session, or `None` where its archive is complete.
    ///
    /// # Errors
    ///
    /// Returns [`Error::InitialArchiveCannotResume`] for an archive that stopped during its initial
    /// requests, and [`Error::UnknownEndpoint`] for one that stopped at an endpoint that was not
    /// probed.
    pub fn continuation(&self, per_page: &PerPageOptions) -> (driver: Result<
        Option<ArchiveDriver>,
        Error,
    >)
        requires
            self.deep_view().latest.has_room(),
            options::are_page_sizes(per_page.deep_view()),
        ensures
            match driver {
                Ok(Some(driver)) => self.deep_view().resumption() matches Ok(Some(resumption))
                    && driver.deep_view() == self.deep_view().continued(
                    resumption,
                    per_page.deep_view(),
                ) && driver.deep_view().is_valid(),
                Ok(None) => self.deep_view().resumption() == Ok::<
                    Option<ResumptionView>,
                    ErrorView,
                >(None),
                Err(error) => self.deep_view().resumption() == Err::<
                    Option<ResumptionView>,
                    ErrorView,
                >(error.deep_view()),
            },
    {
        let resumption = match &self.latest {
            Checkpoint::Finished => {
                return Ok(None);
            },
            Checkpoint::Initial => {
                return Err(Error::InitialArchiveCannotResume(self.path.clone()));
            },
            Checkpoint::Resume(resumption) => resumption,
        };
        let collections = archive::probed_collections(&self.first.probes);
        let endpoint = match endpoint::position_named(&collections, resumption.endpoint.name()) {
            Some(index) => collections[index].clone(),
            None => {
                return Err(Error::UnknownEndpoint(resumption.endpoint.name().to_owned()));
            },
        };
        let driver = ArchiveDriver::resume_with_probes(
            self.first.site.clone(),
            self.before,
            Resumption {
                endpoint,
                last_page: resumption.last_page,
                total_pages: resumption.total_pages,
            },
            resume::copied_probes(&self.first.probes),
        );
        Ok(Some(per_page.configure(driver)))
    }
}

/// Where a run is written and how it is continued.
#[derive(Debug)]
pub struct RunPlace {
    /// The base of the run's site.
    pub base: String,
    /// The directory of the session's segments.
    pub output: String,
    /// The segment that the run writes.
    pub warc: String,
    /// The name that the session's segments share.
    pub session_name: String,
    /// The configuration file, if one was given.
    pub config: Option<String>,
    /// The revisit database, if one was given.
    pub revisit_index: Option<String>,
    /// The session's cutoff.
    pub before: Timestamp,
    /// The page sizes that were given.
    pub per_page: PerPageOptions,
}

/// The parts of a [`RunPlace`].
#[verifier::ext_equal]
pub struct PlaceView {
    pub base: Seq<char>,
    pub output: Seq<char>,
    pub warc: Seq<char>,
    pub session_name: Seq<char>,
    pub config: Option<Seq<char>>,
    pub revisit_index: Option<Seq<char>>,
    pub before: Moment,
    pub per_page: Seq<PerPageView>,
}

impl DeepView for RunPlace {
    type V = PlaceView;

    open spec fn deep_view(&self) -> PlaceView {
        PlaceView {
            base: self.base@,
            output: self.output@,
            warc: self.warc@,
            session_name: self.session_name@,
            config: self.config.deep_view(),
            revisit_index: self.revisit_index.deep_view(),
            before: self.before@,
            per_page: self.per_page.deep_view(),
        }
    }
}

/// What is reported of a run that ends at a checkpoint, and its outcome. A run that stops during
/// the initial requests is an error, since there is nothing to continue.
pub open spec fn concluded(
    checkpoint: CheckpointView,
    summary: SummaryView,
    place: PlaceView,
    quiet: bool,
) -> Result<(Seq<NoticeView>, Outcome), ErrorView> {
    match checkpoint {
        CheckpointView::Finished => if summary.complete {
            Ok(
                (
                    if quiet {
                        Seq::empty()
                    } else {
                        seq![
                            notice::printed(
                                "Archived "@ + text::decimal(summary.captures.len())
                                    + " captures from "@ + place.base + " to "@ + place.warc,
                            ),
                        ]
                    },
                    Outcome::Success,
                ),
            )
        } else {
            Ok(
                (
                    seq![
                        notice::warned(
                            "the archive session reported problems after its final driver checkpoint; start a new archive to guarantee completeness"@,
                        ),
                    ],
                    Outcome::ReportedProblems,
                ),
            )
        },
        CheckpointView::Resume(_) => Ok(
            (
                seq![
                    notice::warned("a partial archive was published at "@ + place.warc),
                    notice::printed(
                        "Continue the archive with: "@ + options::continuation(
                            place.output,
                            place.session_name,
                            place.config,
                            place.revisit_index,
                            if has_pagination(summary.captures) {
                                None
                            } else {
                                Some(place.before)
                            },
                            place.per_page,
                        ),
                    ),
                ],
                Outcome::ReportedProblems,
            ),
        ),
        CheckpointView::Initial => Err(ErrorView::InitialRequestsIncomplete(place.warc)),
    }
}

/// Report how a run ended.
///
/// # Errors
///
/// Returns [`Error::InitialRequestsIncomplete`] for a run that stopped during the initial requests.
pub fn conclude(
    checkpoint: &Checkpoint,
    summary: &SessionSummary,
    place: &RunPlace,
    quiet: bool,
) -> (conclusion: Result<(Vec<Notice>, Outcome), Error>)
    ensures
        match conclusion {
            Ok((notices, outcome)) => concluded(
                checkpoint.deep_view(),
                summary.deep_view(),
                place.deep_view(),
                quiet,
            ) == Ok::<(Seq<NoticeView>, Outcome), ErrorView>((notices.deep_view(), outcome)),
            Err(error) => concluded(
                checkpoint.deep_view(),
                summary.deep_view(),
                place.deep_view(),
                quiet,
            ) == Err::<(Seq<NoticeView>, Outcome), ErrorView>(error.deep_view()),
        },
{
    let mut notices: Vec<Notice> = Vec::new();
    assert(notices.deep_view() =~= Seq::<NoticeView>::empty());
    match checkpoint {
        Checkpoint::Finished => if summary.complete {
            if !quiet {
                let mut message = text::joined(
                    "Archived ",
                    text::count_text(summary.captures.len()).as_str(),
                );
                message.append(" captures from ");
                message.append(place.base.as_str());
                message.append(" to ");
                message.append(place.warc.as_str());
                notice::notify(&mut notices, Level::Printed, message);
            }
            assert(notices.deep_view() =~= concluded(
                checkpoint.deep_view(),
                summary.deep_view(),
                place.deep_view(),
                quiet,
            )->Ok_0.0);
            Ok((notices, Outcome::Success))
        } else {
            notice::notify(
                &mut notices,
                Level::Warning,
                "the archive session reported problems after its final driver checkpoint; start a new archive to guarantee completeness".to_owned(),
            );
            assert(notices.deep_view() =~= concluded(
                checkpoint.deep_view(),
                summary.deep_view(),
                place.deep_view(),
                quiet,
            )->Ok_0.0);
            Ok((notices, Outcome::ReportedProblems))
        },
        Checkpoint::Resume(_) => {
            notice::notify(
                &mut notices,
                Level::Warning,
                text::joined("a partial archive was published at ", place.warc.as_str()),
            );
            let before = if summary.has_pagination() {
                None
            } else {
                Some(place.before)
            };
            let command = options::resume_command(
                place.output.as_str(),
                place.session_name.as_str(),
                optional(&place.config),
                optional(&place.revisit_index),
                before,
                &place.per_page,
            );
            notice::notify(
                &mut notices,
                Level::Printed,
                text::joined("Continue the archive with: ", command.as_str()),
            );
            assert(notices.deep_view() =~= concluded(
                checkpoint.deep_view(),
                summary.deep_view(),
                place.deep_view(),
                quiet,
            )->Ok_0.0);
            Ok((notices, Outcome::ReportedProblems))
        },
        Checkpoint::Initial => Err(Error::InitialRequestsIncomplete(place.warc.clone())),
    }
}

fn optional(value: &Option<String>) -> (borrowed: Option<&str>)
    ensures
        borrowed.deep_view() == value.deep_view(),
{
    match value {
        Some(value) => Some(value.as_str()),
        None => None,
    }
}

/// What is reported of an archive that was inspected for its continuation, and the outcome.
pub open spec fn resume_report(
    warc: Seq<char>,
    parent: Seq<char>,
    info: InfoView,
    quiet: bool,
) -> Result<(Seq<NoticeView>, Outcome), ErrorView> {
    match info.checkpoint {
        CheckpointView::Finished => Ok(
            (
                if quiet {
                    Seq::empty()
                } else {
                    seq![notice::printed(warc + " is complete"@)]
                },
                Outcome::of(info.warnings.len() > 0),
            ),
        ),
        CheckpointView::Resume(_) => if info.before is None {
            Err(ErrorView::MissingResumeCutoff(warc))
        } else {
            match segment::session_of_path(warc) {
                None => Err(ErrorView::SessionName(warc)),
                Some(session) => Ok(
                    (
                        seq![
                            notice::printed(
                                options::continuation(
                                    if parent.len() == 0 {
                                        "."@
                                    } else {
                                        parent
                                    },
                                    session,
                                    None,
                                    None,
                                    None,
                                    Seq::empty(),
                                ),
                            ),
                        ],
                        Outcome::ReportedProblems,
                    ),
                ),
            }
        },
        CheckpointView::Initial => Err(ErrorView::InitialArchiveCannotResume(warc)),
    }
}

/// Report the command that continues the archive at a path, below a directory.
///
/// # Errors
///
/// Returns [`Error`] for an archive that cannot be continued.
pub fn report_resume_info(
    warc: &str,
    parent: &str,
    info: &ResumeInfo,
    quiet: bool,
) -> (report: Result<(Vec<Notice>, Outcome), Error>)
    ensures
        match report {
            Ok((notices, outcome)) => resume_report(
                warc@,
                parent@,
                info.deep_view(),
                quiet,
            ) == Ok::<(Seq<NoticeView>, Outcome), ErrorView>((notices.deep_view(), outcome)),
            Err(error) => resume_report(warc@, parent@, info.deep_view(), quiet) == Err::<
                (Seq<NoticeView>, Outcome),
                ErrorView,
            >(error.deep_view()),
        },
{
    let mut notices: Vec<Notice> = Vec::new();
    assert(notices.deep_view() =~= Seq::<NoticeView>::empty());
    match &info.checkpoint {
        Checkpoint::Finished => {
            if !quiet {
                notice::notify(&mut notices, Level::Printed, text::joined(warc, " is complete"));
            }
            assert(notices.deep_view() =~= resume_report(
                warc@,
                parent@,
                info.deep_view(),
                quiet,
            )->Ok_0.0);
            Ok((notices, Outcome::from_reported_problems(info.warnings.len() > 0)))
        },
        Checkpoint::Resume(_) => {
            if info.before.is_none() {
                return Err(Error::MissingResumeCutoff(warc.to_owned()));
            }
            let session = match segment::session_name_from_warc(warc) {
                Some(session) => session,
                None => {
                    return Err(Error::SessionName(warc.to_owned()));
                },
            };
            let directory = if parent.unicode_len() == 0 {
                "."
            } else {
                parent
            };
            let command = options::resume_command(
                directory,
                session.as_str(),
                None,
                None,
                None,
                &PerPageOptions::none(),
            );
            notice::notify(&mut notices, Level::Printed, command);
            assert(notices.deep_view() =~= resume_report(
                warc@,
                parent@,
                info.deep_view(),
                quiet,
            )->Ok_0.0);
            Ok((notices, Outcome::ReportedProblems))
        },
        Checkpoint::Initial => Err(Error::InitialArchiveCannotResume(warc.to_owned())),
    }
}

/// The checkpoint reported where some captures are partial is the one before the first of them.
pub proof fn progress_rolls_back_to_the_first_partial_capture(
    run: RunView,
    partial_urls: Seq<Seq<char>>,
    index: int,
)
    ensures
        0 <= index < run.transitions.len() && partial_urls.contains(run.transitions[index].0) && (
        forall|earlier: int|
            0 <= earlier < index ==> !partial_urls.contains((#[trigger] run.transitions[earlier]).0))
            ==> run.checkpoint_for(partial_urls) == run.transitions[index].1,
        (forall|at: int|
            0 <= at < run.transitions.len() ==> !partial_urls.contains(
                (#[trigger] run.transitions[at]).0,
            )) ==> run.checkpoint_for(partial_urls) == run.durable,
{
    if 0 <= index < run.transitions.len() && partial_urls.contains(run.transitions[index].0) && (
    forall|earlier: int|
        0 <= earlier < index ==> !partial_urls.contains((#[trigger] run.transitions[earlier]).0)) {
        lemma_first_partial(run.transitions, partial_urls, index);
    }
    if forall|at: int|
        0 <= at < run.transitions.len() ==> !partial_urls.contains(
            (#[trigger] run.transitions[at]).0,
        ) {
        lemma_first_partial(run.transitions, partial_urls, run.transitions.len() as int);
    }
}

proof fn lemma_first_partial(
    transitions: Seq<(Seq<char>, CheckpointView)>,
    urls: Seq<Seq<char>>,
    index: int,
)
    requires
        0 <= index <= transitions.len(),
        index < transitions.len() ==> urls.contains(transitions[index].0),
        forall|earlier: int|
            0 <= earlier < index ==> !urls.contains((#[trigger] transitions[earlier]).0),
    ensures
        first_transition(transitions, urls) == (if index < transitions.len() {
            Some(transitions[index].1)
        } else {
            None
        }),
    decreases transitions.len(),
{
    if index > 0 {
        let rest = transitions.drop_first();
        assert(!urls.contains(transitions[0].0));
        assert forall|earlier: int| 0 <= earlier < index - 1 implies !urls.contains(
            (#[trigger] rest[earlier]).0,
        ) by {
            assert(rest[earlier] == transitions[earlier + 1]);
        }
        if index < transitions.len() {
            assert(rest[index - 1] == transitions[index]);
        }
        lemma_first_partial(rest, urls, index - 1);
    }
}

/// A run notes each capture with the checkpoint before it, in order, and begins at its driver's.
pub proof fn captures_are_noted_with_the_checkpoint_before(
    driver: DriverView,
    run: RunView,
    capture: CaptureView,
)
    ensures
        RunView::beginning(driver).durable == driver.checkpoint(),
        RunView::beginning(driver).transitions.len() == 0,
        run.inspected(capture).0.transitions == run.transitions.push(
            (capture.url, run.driver.checkpoint()),
        ),
        run.inspected(capture).0.driver == run.driver.inspected(capture).0,
        run.inspected(capture).1 == run.driver.inspected(capture).1,
{
}

/// The partial URLs are those of the captures that are unexpectedly truncated, in order.
pub proof fn partial_urls_are_those_of_partial_captures(captures: Seq<SessionCaptureView>)
    ensures
        partial_urls(captures) == captures.filter(
            |capture: SessionCaptureView| capture.partial,
        ).map_values(|capture: SessionCaptureView| capture.url),
    decreases captures.len(),
{
    reveal(Seq::filter);
    if captures.len() > 0 {
        partial_urls_are_those_of_partial_captures(captures.drop_last());
    }
}

/// A site is reported for each endpoint that it did not answer for with success or an unchanged
/// collection, in order: as information where the endpoint is not exposed, and otherwise as a
/// warning.
pub proof fn unanswered_probes_are_reported(
    base: Seq<char>,
    probed: Seq<(CollectionView, u16)>,
    probe: (CollectionView, u16),
)
    ensures
        probe_notice(base, probe) is None <==> 200 <= probe.1 < 300 || probe.1 == 304,
        probe.1 == 404 ==> probe_notice(base, probe)->0.level == Level::Info,
        probe_notice(base, probe) is Some && probe.1 != 404 ==> probe_notice(base, probe)->0.level
            == Level::Warning,
        probe_notices(base, probed) == probed.filter(
            |each: (CollectionView, u16)| !(200 <= each.1 < 300 || each.1 == 304),
        ).map_values(|each: (CollectionView, u16)| probe_notice(base, each)->0),
    decreases probed.len(),
{
    reveal(Seq::filter);
    if probed.len() > 0 {
        unanswered_probes_are_reported(base, probed.drop_last(), probe);
    }
}

/// Nothing is reported of a session exactly where every URL was captured whole, it ran to its end,
/// and every probe was answered.
pub proof fn a_flawless_session_is_silent(
    summary: SummaryView,
    probed: Seq<(CollectionView, u16)>,
    base: Seq<char>,
)
    ensures
        archive_notices(summary, probed, base).len() == 0 <==> {
            &&& summary.failures.len() == 0
            &&& summary.fatal_error is None
            &&& !summary.cancelled
            &&& summary.partial_captures == 0
            &&& probe_notices(base, probed).len() == 0
        },
        archive_notices(summary, probed, base).len() >= summary.failures.len(),
{
}

/// A run succeeds exactly where it is finished and everything was captured, and is an error exactly
/// where it ended during the initial requests; a success is told of unless it is to be quiet, and
/// anything else always.
pub proof fn a_run_succeeds_where_it_is_finished_and_complete(
    checkpoint: CheckpointView,
    summary: SummaryView,
    place: PlaceView,
    quiet: bool,
)
    ensures
        concluded(checkpoint, summary, place, quiet) is Err <==> checkpoint
            == CheckpointView::Initial,
        concluded(checkpoint, summary, place, quiet) matches Ok((notices, outcome)) ==> {
            &&& outcome == Outcome::Success <==> checkpoint == CheckpointView::Finished
                && summary.complete
            &&& outcome == Outcome::Success && quiet ==> notices.len() == 0
            &&& outcome == Outcome::Success && !quiet ==> notices.len() == 1 && notices[0].level
                == Level::Printed
            &&& outcome == Outcome::ReportedProblems ==> notices.len() > 0 && notices[0].level
                == Level::Warning
            &&& checkpoint is Resume ==> notices.len() == 2 && notices[1].level == Level::Printed
        },
{
}

/// An archive is reported to be complete exactly where it is finished, with problems exactly where
/// it has warnings; one to be continued is given its command where its cutoff and session are known.
pub proof fn an_archive_is_reported_as_its_checkpoint(
    warc: Seq<char>,
    parent: Seq<char>,
    info: InfoView,
    quiet: bool,
)
    ensures
        info.checkpoint == CheckpointView::Finished ==> (resume_report(
            warc,
            parent,
            info,
            quiet,
        ) matches Ok((notices, outcome)) && (outcome == Outcome::Success <==> info.warnings.len()
            == 0) && notices.len() == (if quiet {
            0nat
        } else {
            1nat
        })),
        info.checkpoint is Resume ==> (resume_report(warc, parent, info, quiet) is Ok
            <==> info.before is Some && segment::session_of_path(warc) is Some),
        info.checkpoint is Resume ==> (resume_report(warc, parent, info, quiet) matches Ok(
            (notices, outcome),
        ) ==> outcome == Outcome::ReportedProblems && notices.len() == 1),
        info.checkpoint == CheckpointView::Initial ==> resume_report(
            warc,
            parent,
            info,
            quiet,
        ) is Err,
{
}

/// A session begins exactly where its first segment holds every probe and a cutoff is known: the
/// segment's, or otherwise the one given.
pub proof fn a_session_begins_with_its_probes_and_cutoff(
    path: Seq<char>,
    info: InfoView,
    before: Option<Moment>,
)
    ensures
        HistoryView::begun(path, info, before) is Ok <==> has_all_probes(info) && (
        info.before is Some || before is Some),
        HistoryView::begun(path, info, before) matches Ok(history) ==> {
            &&& history.first == info
            &&& history.latest == info.checkpoint
            &&& info.before is Some ==> history.before == info.before->0
            &&& info.before is None ==> Some(history.before) == before
        },
        has_all_probes(info) ==> info.endpoints.len() == info.probes.len() && forall|index: int|
            0 <= index < info.endpoints.len() ==> (#[trigger] info.endpoints[index]).name()
                == info.probes[index].collection.name(),
{
    if has_all_probes(info) {
        let collections = info.probes.map_values(|probe: ProbeView| probe.collection);
        let names = endpoint::names_of(info.endpoints);
        let probed = endpoint::names_of(collections);
        assert(names.len() == probed.len());
        assert forall|index: int| 0 <= index < info.endpoints.len() implies (
        #[trigger] info.endpoints[index]).name() == info.probes[index].collection.name() by {
            assert(names[index] == info.endpoints[index].name());
            assert(probed[index] == info.probes[index].collection.name());
        }
    }
}

/// A session is continued from its latest segment's checkpoint: not at all where that is finished,
/// and with an error where it is initial or its endpoint was not probed.
pub proof fn a_session_is_continued_from_its_latest_checkpoint(history: HistoryView)
    ensures
        history.latest == CheckpointView::Finished <==> history.resumption() == Ok::<
            Option<ResumptionView>,
            ErrorView,
        >(None),
        history.latest == CheckpointView::Initial ==> history.resumption() is Err,
        history.latest matches CheckpointView::Resume(resumption) ==> (history.resumption() is Ok
            <==> endpoint::names_of(
            history.first.probes.map_values(|probe: ProbeView| probe.collection),
        ).contains(resumption.endpoint.name())),
{
    if let CheckpointView::Resume(resumption) = history.latest {
        text::lemma_position(
            endpoint::names_of(
                history.first.probes.map_values(|probe: ProbeView| probe.collection),
            ),
            resumption.endpoint.name(),
        );
    }
}

} // verus!
