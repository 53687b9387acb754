use wordpress_archive::archive::{ArchiveDriver, Checkpoint, Resumption, Site};
use wordpress_archive::clock::{parse_rfc3339, Timestamp};
use wordpress_archive::endpoint::{
    Collection, Endpoint, EndpointType, EndpointTypeLink, EndpointTypeLinks, Registry,
};
use wordpress_archive::evidence::{Message, Record, ResponseHead};
use wordpress_archive::lint::{report, Finding, Severity, WordPressRules};
use wordpress_archive::notice::{Level, Outcome};
use wordpress_archive::options::{parse_per_page, PerPageOptions};
use wordpress_archive::resume::{
    inspect_archive, inspect_archive_with_config, inspect_archive_with_restored_probes, ResumeInfo,
};
use wordpress_archive::run::{
    conclude, is_cancelled, report_archive_problems, report_resume_info, session_segments,
    ArchiveRunState, CaptureEvent, Error, RunPlace, SessionCapture, SessionHistory, SessionSummary,
};
use wordpress_archive::session::{Capture, CaptureHead, Payload, Request};

const BEFORE: &str = "2026-08-20T00:00:00Z";
const ROOT: &str = "http://127.0.0.1:8080/";

fn before() -> Timestamp {
    parse_rfc3339(BEFORE).expect("a test timestamp")
}

fn site() -> Site {
    Site::parse("http://127.0.0.1:8080").expect("a site")
}

fn resumption(
    endpoint: impl Into<Collection>,
    last_page: usize,
    total_pages: Option<usize>,
) -> Resumption {
    Resumption {
        endpoint: endpoint.into(),
        last_page,
        total_pages,
    }
}

fn custom(name: &str, registry: Registry) -> Collection {
    Collection::Custom {
        name: name.to_owned(),
        registry,
    }
}

fn page_url(endpoint: &str, page: usize) -> String {
    format!(
        "{ROOT}wp-json/wp/v2/{endpoint}?before={BEFORE}&orderby=id&order=asc&page={page}\
         &per_page=100"
    )
}

fn payload(body: &str, registry: Result<Vec<EndpointType>, String>) -> Payload {
    Payload {
        bytes: body.as_bytes().to_vec(),
        registry,
        error_code: None,
        comments: None,
    }
}

/// A registry response with one `wp/v2` entry whose collection is at `rest_base`.
fn registry(rest_base: &str) -> Payload {
    payload(
        "{}",
        Ok(vec![EndpointType {
            name: String::new(),
            description: String::new(),
            hierarchical: false,
            slug: rest_base.to_owned(),
            rest_base: rest_base.to_owned(),
            rest_namespace: Some("wp/v2".to_owned()),
            taxonomies: None,
            types: None,
            links: EndpointTypeLinks {
                wp_items: vec![EndpointTypeLink {
                    href: "https://example.com/x".to_owned(),
                }],
            },
        }]),
    )
}

fn head(status: u16, total: Option<&str>, total_pages: Option<&str>) -> CaptureHead {
    CaptureHead {
        status,
        total: total.map(str::to_owned),
        total_pages: total_pages.map(str::to_owned),
        mitigated: None,
    }
}

/// The answer of a site exposing two pages of `pages`, one of `comments`, and one of the custom
/// `videos` type its type registry advertises.
///
/// The taxonomy registry advertises `series`, which is not exposed; every other probe is
/// answered with 404.
fn answer(url: &str) -> (CaptureHead, Payload) {
    let target = url.strip_prefix(ROOT).expect("a request to the site");
    let (path, query) = target.split_once('?').unwrap_or((target, ""));
    let array = || payload("[]", Err("not a registry".to_owned()));
    let object = || payload("{}", Ok(Vec::new()));
    match path.strip_prefix("wp-json/wp/v2/") {
        Some("types") => (head(200, None, None), registry("videos")),
        Some("taxonomies") => (head(200, None, None), registry("series")),
        Some("pages") if query.is_empty() => (head(200, Some("101"), Some("2")), array()),
        Some("comments" | "videos") if query.is_empty() => {
            (head(200, Some("3"), Some("1")), array())
        }
        Some("pages") => (head(200, None, Some("2")), array()),
        Some("comments" | "videos") => (head(200, None, Some("1")), array()),
        Some("block-types" | "block-patterns/categories" | "block-patterns/patterns"
            | "menu-locations") => (head(200, None, None), object()),
        Some(_) => (head(404, None, None), object()),
        None => (head(200, None, None), object()),
    }
}

/// The pagination links that the page at a URL carries.
fn links(url: &str, head: &CaptureHead) -> Vec<Vec<u8>> {
    let Some((front, back)) = url.split_once("&page=") else {
        return Vec::new();
    };
    let (number, rest) = back.split_once('&').expect("a page size");
    let number: usize = number.parse().expect("a page");
    let total: usize = head
        .total_pages
        .as_deref()
        .expect("a page count")
        .parse()
        .expect("a page count");
    let mut links = Vec::new();
    if number > 1 {
        links.push(format!("<{front}&page={}&{rest}>; rel=\"prev\"", number - 1).into_bytes());
    }
    if number < total {
        links.push(format!("<{front}&page={}&{rest}>; rel=\"next\"", number + 1).into_bytes());
    }
    links
}

/// A session's records, and the requests that it made.
struct Archived {
    records: Vec<Record>,
    requests: Vec<Request>,
}

/// Run a session against the site, of no more than `limit` captures.
fn serve(state: &mut ArchiveRunState, limit: usize) -> Archived {
    let mut records = Vec::new();
    let mut requests = Vec::new();
    while let Some(request) = state.next() {
        if requests.len() == limit {
            break;
        }
        let number = requests.len();
        let (head, payload) = answer(&request.url);
        state.inspect(&Capture {
            url: &request.url,
            head: &head,
            payload: &payload,
        });
        state.written(&request.url);
        records.push(Record::Request {
            id: format!("urn:test:{number}-request"),
            url: request.url.clone(),
        });
        records.push(Record::Response {
            id: format!("urn:test:{number}-response"),
            concurrent_to: vec![format!("urn:test:{number}-request")],
            url: request.url.clone(),
            message: Message {
                head: Some(ResponseHead {
                    status: head.status,
                    total: head.total.clone().map(String::into_bytes),
                    total_pages: head.total_pages.clone().map(String::into_bytes),
                    location: None,
                    mitigated: None,
                    links: links(&request.url, &head),
                }),
                capture: Some(head),
                entity: Ok(payload),
            },
            truncation: None,
            identified_json: true,
        });
        records.push(Record::Metadata {
            id: format!("urn:test:{number}-metadata"),
            concurrent_to: vec![format!("urn:test:{number}-response")],
            url: Some(request.url.clone()),
            via: request.via.clone(),
            fields: true,
        });
        requests.push(request);
    }
    Archived { records, requests }
}

fn serve_driver(driver: ArchiveDriver, limit: usize) -> (ArchiveRunState, Archived) {
    let mut state = ArchiveRunState::new(driver);
    let archived = serve(&mut state, limit);
    (state, archived)
}

fn summary(requests: &[Request], complete: bool) -> SessionSummary {
    SessionSummary {
        captures: requests
            .iter()
            .map(|request| SessionCapture {
                url: request.url.clone(),
                partial: false,
            })
            .collect(),
        failures: Vec::new(),
        fatal_error: None,
        cancelled: false,
        partial_captures: 0,
        complete,
    }
}

fn place() -> RunPlace {
    RunPlace {
        base: site().base().to_owned(),
        output: "archives".to_owned(),
        warc: "archives/site-archive.warc".to_owned(),
        session_name: "site-archive".to_owned(),
        config: None,
        revisit_index: None,
        before: before(),
        per_page: PerPageOptions::none(),
    }
}

fn vias(archived: &Archived) -> Vec<(String, Option<String>)> {
    archived
        .requests
        .iter()
        .map(|request| (request.url.clone(), request.via.clone()))
        .collect()
}

#[test]
fn archive_progress_becomes_durable_only_after_the_written_event() {
    let driver = ArchiveDriver::resume(
        Site::parse("example.com").expect("a site"),
        before(),
        resumption(Endpoint::Comments, 1, Some(2)),
        Vec::new(),
    );
    let mut state = ArchiveRunState::new(driver);
    let url = format!(
        "https://example.com/wp-json/wp/v2/comments?before={BEFORE}&orderby=id&order=asc\
         &page=2&per_page=100"
    );

    let inspection = state.inspect(&Capture {
        url: &url,
        head: &head(200, None, Some("2")),
        payload: &payload("[]", Err("not a registry".to_owned())),
    });

    assert_eq!(
        *state.durable(),
        Checkpoint::Resume(resumption(Endpoint::Comments, 1, Some(2)))
    );
    assert_eq!(inspection.error, None);
    assert_eq!(
        state.next(),
        Some(Request::seed(
            "https://example.com/wp-json/wp/v2/users".to_owned()
        ))
    );

    state.written(&url);

    assert_eq!(
        *state.durable(),
        Checkpoint::Resume(resumption(Endpoint::Users, 0, None))
    );
}

#[test]
fn resumed_archive_progress_starts_at_its_checkpoint() {
    let mut driver = ArchiveDriver::resume(
        Site::parse("example.com").expect("a site"),
        before(),
        resumption(Endpoint::Comments, 7, Some(8)),
        Vec::new(),
    );

    let progress = driver.pagination_progress();
    let comments = progress
        .iter()
        .find(|progress| progress.collection.name() == "comments")
        .expect("the resumed collection has progress");
    assert_eq!(comments.page, 7);
    assert_eq!(comments.total_pages, 8);

    let url = format!(
        "https://example.com/wp-json/wp/v2/comments?before={BEFORE}&orderby=id&order=asc\
         &page=8&per_page=100"
    );
    let _ = driver.inspect(&Capture {
        url: &url,
        head: &head(200, None, Some("8")),
        payload: &payload("[]", Err("not a registry".to_owned())),
    });

    // A collection that is no longer paged has no progress of its own: it is finished.
    assert!(driver
        .pagination_progress()
        .iter()
        .all(|progress| progress.collection.name() != "comments" || progress.page == 8));
}

#[test]
fn an_archive_pages_each_exposed_collection_after_the_probes() {
    let (state, archived) = serve_driver(ArchiveDriver::new(site(), before()), 22);
    assert_eq!(
        conclude(
            state.durable(),
            &summary(&archived.requests, true),
            &place(),
            true
        )
        .expect("a finished run")
        .1,
        Outcome::Success
    );
    let mut expected = vec![
        "wp-json".to_owned(),
        "wp-json/wp/v2".to_owned(),
        "wp-json/wp/v2/types".to_owned(),
        "wp-json/wp/v2/taxonomies".to_owned(),
        "wp-json/wp/v2/block-types".to_owned(),
        "wp-json/wp/v2/block-patterns/categories".to_owned(),
        "wp-json/wp/v2/block-patterns/patterns".to_owned(),
        "wp-json/wp/v2/menu-locations".to_owned(),
    ];
    expected.extend(
        Endpoint::ALL
            .iter()
            .map(|endpoint| format!("wp-json/wp/v2/{}", endpoint.name())),
    );
    // The custom collections are probed after the supported endpoints, in registry order.
    expected.extend(["wp-json/wp/v2/videos", "wp-json/wp/v2/series"].map(str::to_owned));
    let mut expected: Vec<String> = expected
        .iter()
        .map(|path| format!("{ROOT}{path}"))
        .collect();
    expected.extend(
        [("pages", 1), ("pages", 2), ("comments", 1), ("videos", 1)]
            .map(|(endpoint, number)| page_url(endpoint, number)),
    );
    assert_eq!(
        archived
            .requests
            .iter()
            .map(|request| request.url.clone())
            .collect::<Vec<_>>(),
        expected
    );

    let vias = vias(&archived);
    let seeds = vias.iter().filter(|(_, via)| via.is_none()).count();
    assert_eq!(seeds, 16);
    assert_eq!(
        vias[16..],
        [
            (
                format!("{ROOT}wp-json/wp/v2/videos"),
                Some(format!("{ROOT}wp-json/wp/v2/types"))
            ),
            (
                format!("{ROOT}wp-json/wp/v2/series"),
                Some(format!("{ROOT}wp-json/wp/v2/taxonomies"))
            ),
            (
                page_url("pages", 1),
                Some(format!("{ROOT}wp-json/wp/v2/pages"))
            ),
            (page_url("pages", 2), Some(page_url("pages", 1))),
            (
                page_url("comments", 1),
                Some(format!("{ROOT}wp-json/wp/v2/comments"))
            ),
            (
                page_url("videos", 1),
                Some(format!("{ROOT}wp-json/wp/v2/videos"))
            ),
        ]
    );

    let mut rules = WordPressRules::new();
    let mut findings: Vec<Finding> = Vec::new();
    for (index, record) in archived.records.iter().enumerate() {
        findings.extend(rules.check(index, record));
    }
    findings.extend(rules.finish());
    let lint = report(findings, archived.records.len(), rules).expect("a WordPress archive");
    assert_eq!(
        (lint.roots, lint.known_probes, lint.custom_probes),
        (8, 8, 2)
    );
    assert_eq!(lint.error_count(), 0, "{:?}", lint.findings);
    assert!(lint
        .findings
        .iter()
        .all(|finding| finding.severity == Severity::Warning));
    assert_eq!(
        lint.pagination
            .iter()
            .map(|summary| (
                summary.endpoint.rsplit('/').next(),
                summary.pages,
                summary.items
            ))
            .collect::<Vec<_>>(),
        [
            (Some("pages"), Some(2), Some(101)),
            (Some("comments"), Some(1), Some(3)),
            (Some("videos"), Some(1), Some(3)),
        ]
    );

    let resume = inspect_archive(archived.records).expect("an archive");
    assert_eq!(resume.checkpoint, Checkpoint::Finished);
    assert!(resume.warnings.is_empty());
    assert_eq!(resume.before, Some(before()));
    assert_eq!(
        resume.endpoints[8..],
        [
            custom("videos", Registry::Types),
            custom("series", Registry::Taxonomies),
        ]
    );
}

#[test]
fn a_resumed_archive_continues_the_endpoint_via_its_last_page() {
    let (state, archived) = serve_driver(
        ArchiveDriver::resume(
            site(),
            before(),
            resumption(Endpoint::Comments, 1, Some(2)),
            vec![custom("videos", Registry::Types)],
        ),
        7,
    );

    assert_eq!(*state.durable(), Checkpoint::Finished);
    let at = |endpoint: &str| format!("{ROOT}wp-json/wp/v2/{endpoint}");
    assert_eq!(
        vias(&archived),
        [
            (page_url("comments", 2), Some(page_url("comments", 1))),
            (at("users"), None),
            (at("categories"), None),
            (at("tags"), None),
            (at("navigation"), None),
            (at("videos"), Some(at("types"))),
            (page_url("videos", 1), Some(at("videos"))),
        ]
    );
    let resume = inspect_archive(archived.records).expect("an archive");
    assert_eq!(resume.checkpoint, Checkpoint::Finished);
    assert!(resume.warnings.is_empty());
    assert_eq!(resume.before, Some(before()));
    assert!(resume.endpoints.contains(&custom("videos", Registry::Types)));
}

#[test]
fn a_limited_archive_reports_problems_at_its_checkpoint() {
    let (state, archived) = serve_driver(ArchiveDriver::new(site(), before()), 19);
    let (notices, outcome) = conclude(
        state.durable(),
        &summary(&archived.requests, false),
        &place(),
        true,
    )
    .expect("a run to continue");
    assert_eq!(outcome, Outcome::ReportedProblems);
    assert_eq!(
        notices.last().map(|notice| notice.message.as_str()),
        Some(
            "Continue the archive with: archivindex-wordpress-scraper resume-archive \
             --output archives --session-name site-archive"
        )
    );
    assert_eq!(archived.requests.len(), 19);

    let resume = inspect_archive(archived.records).expect("an archive");
    assert_eq!(
        resume.checkpoint,
        Checkpoint::Resume(resumption(Endpoint::Pages, 1, Some(2)))
    );
    assert_eq!(resume.before, Some(before()));
    assert!(resume.warnings.is_empty());
    assert!(resume.endpoints.contains(&custom("videos", Registry::Types)));
    assert!(resume
        .endpoints
        .contains(&custom("series", Registry::Taxonomies)));

    let (notices, outcome) =
        report_resume_info("archives/site-limited.warc", "archives", &resume, true)
            .expect("an archive to continue");
    assert_eq!(outcome, Outcome::ReportedProblems);
    assert_eq!(notices.len(), 1);
    assert_eq!(notices[0].level, Level::Printed);
    assert_eq!(
        notices[0].message,
        "archivindex-wordpress-scraper resume-archive --output archives \
         --session-name site-limited"
    );
}

#[test]
fn resumed_progress_uses_endpoint_specific_page_sizes() {
    let per_page = PerPageOptions {
        values: vec![parse_per_page("videos:1").expect("a page-size setting")],
    };
    let driver = per_page.configure(ArchiveDriver::new(site(), before()));
    let archive = || {
        let driver = per_page.configure(ArchiveDriver::new(site(), before()));
        serve_driver(driver, 18).1
    };
    let (state, archived) = serve_driver(driver, 18);
    assert_eq!(archived.requests.len(), 18);
    let (notices, outcome) = conclude(
        state.durable(),
        &summary(&archived.requests, false),
        &place(),
        true,
    )
    .expect("a run to continue");
    assert_eq!(outcome, Outcome::ReportedProblems);
    // Nothing was paged, so that the cutoff is to be given again.
    assert_eq!(
        notices.last().map(|notice| notice.message.as_str()),
        Some(
            "Continue the archive with: archivindex-wordpress-scraper resume-archive \
             --output archives --session-name site-archive --before 2026-08-20T00:00:00Z"
        )
    );

    let default = inspect_archive(archived.records).expect("an archive");
    let configured =
        inspect_archive_with_config(archive().records, &per_page).expect("an archive");
    let video_pages = |info: &ResumeInfo| {
        info.probes
            .iter()
            .find(|probe| probe.collection.name() == "videos")
            .and_then(|probe| probe.total_pages)
    };

    assert_eq!(video_pages(&default), Some(1));
    assert_eq!(video_pages(&configured), Some(3));
}

#[test]
fn resume_archive_reads_prior_segments_and_does_not_reprobe() {
    let (_, initial) = serve_driver(ArchiveDriver::new(site(), before()), 18);
    let segments = session_segments(
        &vec![
            "site-chain-100.warc.gz".to_owned(),
            "unrelated.warc".to_owned(),
        ],
        "archives",
        "site-chain",
    )
    .expect("segments");
    assert_eq!(segments, ["site-chain-100.warc.gz"]);

    let info = inspect_archive(initial.records).expect("an archive");
    let history = SessionHistory::begin("archives/site-chain-100.warc.gz", info, Some(before()))
        .expect("a session");
    assert!(history.site().equals(&site()));
    assert_eq!(history.before(), before());
    assert_eq!(history.probes().len(), 10);
    let driver = history
        .continuation(&PerPageOptions::none())
        .expect("a continuation")
        .expect("something to continue");
    let (state, continued) = serve_driver(driver, 22);

    assert_eq!(*state.durable(), Checkpoint::Finished);
    assert_eq!(continued.requests.len(), 4);
    assert_eq!(
        continued
            .requests
            .iter()
            .map(|request| request.url.clone())
            .collect::<Vec<_>>(),
        [
            page_url("pages", 1),
            page_url("pages", 2),
            page_url("comments", 1),
            page_url("videos", 1),
        ]
    );

    let info = inspect_archive_with_restored_probes(
        continued.records,
        history.probes(),
        Some(history.before()),
    )
    .expect("a segment");
    let mut history = history;
    history
        .extend("archives/site-chain-200.warc", info)
        .expect("a segment of the session");
    assert!(history
        .continuation(&PerPageOptions::none())
        .expect("no error")
        .is_none());
}

#[test]
fn resume_info_warns_and_rolls_back_an_incomplete_capture() {
    let (_, archived) = serve_driver(ArchiveDriver::new(site(), before()), 19);
    let mut damaged = archived.records;
    let last_request = damaged
        .iter()
        .rposition(|record| matches!(record, Record::Request { .. }))
        .expect("a request record");
    damaged.truncate(last_request + 1);

    let resume = inspect_archive(damaged).expect("an archive");
    assert_eq!(
        resume.checkpoint,
        Checkpoint::Resume(resumption(Endpoint::Pages, 0, None))
    );
    assert_eq!(resume.before, Some(before()));
    assert!(resume.warnings.iter().any(|warning| {
        warning.contains("missing response or revisit and metadata") && warning.contains("pages")
    }));
    assert!(resume.endpoints.contains(&custom("videos", Registry::Types)));
    assert!(resume
        .endpoints
        .contains(&custom("series", Registry::Taxonomies)));
}

#[test]
fn a_failure_during_the_initial_requests_is_fatal() {
    let mut state = ArchiveRunState::new(ArchiveDriver::new(site(), before()));
    state.failed();
    assert_eq!(state.next(), None);
    let checkpoint = state.checkpoint_for_summary(&Vec::new());

    let result = conclude(&checkpoint, &summary(&[], false), &place(), true);

    assert!(matches!(
        result,
        Err(Error::InitialRequestsIncomplete(output)) if output == "archives/site-archive.warc"
    ));
}

#[test]
fn a_partial_capture_takes_the_checkpoint_back() {
    let (state, archived) = serve_driver(ArchiveDriver::new(site(), before()), 20);
    assert_eq!(
        *state.durable(),
        Checkpoint::Resume(resumption(Endpoint::Comments, 0, None))
    );
    let partial = archived.requests[19].url.clone();
    assert_eq!(partial, page_url("pages", 2));
    assert_eq!(
        state.checkpoint_for_summary(&vec![partial]),
        Checkpoint::Resume(resumption(Endpoint::Pages, 1, Some(2)))
    );
    assert_eq!(
        state.checkpoint_for_summary(&vec!["https://example.com/".to_owned()]),
        *state.durable()
    );
}

#[test]
fn a_finished_run_says_how_much_it_archived() {
    let mut ended = summary(&[], true);
    ended.captures.push(SessionCapture {
        url: page_url("pages", 1),
        partial: false,
    });
    let (notices, outcome) =
        conclude(&Checkpoint::Finished, &ended, &place(), false).expect("a finished run");
    assert_eq!(outcome, Outcome::Success);
    assert_eq!(
        notices[0].message,
        "Archived 1 captures from http://127.0.0.1:8080 to archives/site-archive.warc"
    );
    ended.complete = false;
    let (notices, outcome) =
        conclude(&Checkpoint::Finished, &ended, &place(), false).expect("a finished run");
    assert_eq!(outcome, Outcome::ReportedProblems);
    assert_eq!(notices[0].level, Level::Warning);
}

#[test]
fn problems_of_a_run_are_reported() {
    let mut ended = summary(&[], false);
    ended
        .failures
        .push(("https://example.com/a".to_owned(), "refused".to_owned()));
    ended.fatal_error = Some("out of space".to_owned());
    ended.cancelled = true;
    let driver = ArchiveDriver::new(site(), before());
    let notices = report_archive_problems(&ended, &driver, "http://127.0.0.1:8080");
    assert!(notices
        .iter()
        .any(|notice| notice.message.contains("https://example.com/a")
            && notice.message.contains("refused")));
    assert!(notices
        .iter()
        .any(|notice| notice.message.contains("out of space")));
}

#[test]
fn a_captured_response_is_recorded_before_an_interrupt_is_honored() {
    assert!(!is_cancelled(CaptureEvent::Captured, true));
    for event in [
        CaptureEvent::Started,
        CaptureEvent::Retrying,
        CaptureEvent::Failed,
        CaptureEvent::Written,
    ] {
        assert!(is_cancelled(event, true));
        assert!(!is_cancelled(event, false));
    }
}

#[test]
fn a_session_that_cannot_be_continued_says_why() {
    let missing = session_segments(&Vec::new(), "archives", "site-chain").expect_err("no segments");
    assert!(matches!(missing, Error::NoSessionWarcs { .. }));
    assert!(missing.to_string().contains("site-chain"));

    let (_, short) = serve_driver(ArchiveDriver::new(site(), before()), 5);
    let info = inspect_archive(short.records).expect("an archive");
    assert_eq!(info.checkpoint, Checkpoint::Initial);
    assert!(matches!(
        report_resume_info("archives/site-1.warc", "archives", &info, true),
        Err(Error::InitialArchiveCannotResume(warc)) if warc == "archives/site-1.warc"
    ));
    assert!(matches!(
        SessionHistory::begin("archives/site-1.warc", info, Some(before())),
        Err(Error::MissingSessionProbes(path)) if path == "archives/site-1.warc"
    ));

    let probed = || serve_driver(ArchiveDriver::new(site(), before()), 18).1.records;
    let info = inspect_archive(probed()).expect("an archive");
    assert!(matches!(
        report_resume_info("archives/site-1.warc", "archives", &info, true),
        Err(Error::MissingResumeCutoff(_))
    ));
    assert!(matches!(
        SessionHistory::begin("archives/site-1.warc", info, None),
        Err(Error::MissingResumeCutoff(_))
    ));

    let paged = serve_driver(ArchiveDriver::new(site(), before()), 19).1.records;
    let info = inspect_archive(paged).expect("an archive");
    assert!(matches!(
        report_resume_info("archives/site", "archives", &info, true),
        Err(Error::SessionName(_))
    ));

    let mut history = SessionHistory::begin("archives/site-1.warc", info, None).expect("a session");
    let mut elsewhere = inspect_archive(probed()).expect("an archive");
    elsewhere.site = Site::parse("example.org").expect("a site");
    assert!(matches!(
        history.extend("archives/site-2.warc", elsewhere),
        Err(Error::SessionSiteMismatch { .. })
    ));
    let mut later = inspect_archive(probed()).expect("an archive");
    later.before = Timestamp::new(0, 0);
    assert!(matches!(
        history.extend("archives/site-2.warc", later),
        Err(Error::SessionCutoffMismatch { .. })
    ));
}
