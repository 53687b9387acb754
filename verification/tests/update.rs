use wordpress_archive::clock::{parse_rfc3339, Timestamp};
use wordpress_archive::comments::CommentDriver;
use wordpress_archive::evidence::{Message, Record, ResponseHead};
use wordpress_archive::notice::{Level, Outcome};
use wordpress_archive::read::{
    check_comment_collections, find_comment_update_anchors, CommentUpdateAnchor,
};
use wordpress_archive::report::report_check;
use wordpress_archive::run::SessionSummary;
use wordpress_archive::session::{Capture, CaptureHead, Comment, Payload};
use wordpress_archive::update::{
    choose_updates, plan_update, report_comment_run, update_anchor_is_newer, update_archives,
    update_window, CommentRun, CommentRuns, CommentUpdateInput, Error, Span,
};

fn timestamp(value: &str) -> Timestamp {
    parse_rfc3339(value).expect("a test timestamp")
}

/// A JSON response of the comments collection.
fn response(url: &str, total_pages: Option<&str>, body: &str) -> Record {
    Record::Response {
        id: "urn:test:response".to_owned(),
        concurrent_to: Vec::new(),
        url: url.to_owned(),
        message: Message {
            head: Some(ResponseHead {
                status: 200,
                total: None,
                total_pages: total_pages.map(|total| total.as_bytes().to_vec()),
                location: None,
                mitigated: None,
                links: Vec::new(),
            }),
            capture: None,
            entity: Ok(Payload {
                bytes: body.as_bytes().to_vec(),
                registry: Err("not a registry".to_owned()),
                error_code: None,
                comments: None,
            }),
        },
        truncation: None,
        identified_json: true,
    }
}

/// Read the anchors of an archive at `path` whose captures are of these sites, cutoffs, and bodies.
fn anchored(path: &str, batches: &[(&str, &str, &str)]) -> Vec<CommentUpdateInput> {
    let records = batches
        .iter()
        .map(|(base_url, before, body)| {
            let url = format!("{base_url}wp-json/wp/v2/comments?before={before}&page=1");
            response(&url, None, body)
        })
        .collect();
    find_comment_update_anchors(&records)
        .expect("anchors")
        .into_iter()
        .map(|anchor| CommentUpdateInput {
            path: path.to_owned(),
            anchor,
        })
        .collect()
}

fn anchored_at(path: &str, base_url: &str, comment_datetime: &str) -> Vec<CommentUpdateInput> {
    let body = format!(r#"[{{"id":1,"date_gmt":"{comment_datetime}"}}]"#);
    anchored(path, &[(base_url, "2026-08-20T00:00:00Z", &body)])
}

fn names(names: &[&str]) -> Vec<String> {
    names.iter().map(|name| (*name).to_owned()).collect()
}

fn anchor(base_url: &str, datetime: &str) -> CommentUpdateAnchor {
    CommentUpdateAnchor {
        base_url: base_url.to_owned(),
        datetime: timestamp(datetime),
        from_comment: true,
    }
}

#[test]
fn update_directory_reads_only_direct_warcs_in_domain_order() {
    let archives = update_archives(
        &names(&["zeta.warc.gz", "alpha.warc", "ignored.data"]),
        "updates",
    )
    .expect("archives");
    assert_eq!(archives, ["alpha.warc", "zeta.warc.gz"]);
    let mut candidates = Vec::new();
    for archive in &archives {
        candidates.extend(if archive == "alpha.warc" {
            anchored_at(
                archive,
                "https://alpha.example/blog/",
                "2026-08-19T00:00:00",
            )
        } else {
            anchored_at(archive, "https://zeta.example/", "2026-08-18T00:00:00")
        });
    }

    let updates = choose_updates(&candidates);

    assert_eq!(
        updates
            .iter()
            .map(|update| update.anchor.base_url.as_str())
            .collect::<Vec<_>>(),
        ["https://alpha.example/blog/", "https://zeta.example/"]
    );
    assert_eq!(
        updates
            .iter()
            .map(|update| update.path.as_str())
            .collect::<Vec<_>>(),
        ["alpha.warc", "zeta.warc.gz"]
    );
}

#[test]
fn update_directory_merges_prior_multi_site_updates_by_site() {
    let mut candidates = anchored_at(
        "alpha-history.warc",
        "https://alpha.example/",
        "2026-08-18T00:00:00",
    );
    // A later empty run must not displace the latest actual comment for this site.
    candidates.extend(anchored(
        "empty-update.warc",
        &[("https://alpha.example/", "2026-08-25T00:00:00Z", "[]")],
    ));
    candidates.extend(anchored(
        "first-update.warc",
        &[
            (
                "https://beta.example/",
                "2026-08-22T00:00:00Z",
                r#"[{"id":1,"date_gmt":"2026-08-21T00:00:00"}]"#,
            ),
            (
                "https://alpha.example/",
                "2026-08-22T00:00:00Z",
                r#"[{"id":2,"date_gmt":"2026-08-20T00:00:00"}]"#,
            ),
        ],
    ));
    candidates.extend(anchored_at(
        "zeta-history.warc",
        "https://zeta.example/",
        "2026-08-17T00:00:00",
    ));

    let updates = choose_updates(&candidates);

    assert_eq!(
        updates
            .iter()
            .map(|update| update.anchor.base_url.as_str())
            .collect::<Vec<_>>(),
        [
            "https://alpha.example/",
            "https://beta.example/",
            "https://zeta.example/"
        ]
    );
    assert_eq!(
        updates[0].anchor.datetime.rendered_in_full(),
        "2026-08-20T00:00:00+00:00"
    );
    assert!(updates[0].anchor.from_comment);
    assert_eq!(updates[0].path, "first-update.warc");
}

#[test]
fn update_directory_requires_a_direct_warc() {
    assert!(matches!(
        update_archives(&Vec::new(), "updates"),
        Err(Error::NoUpdateWarcs(path)) if path == "updates"
    ));
}

/// What a site with two pages of one comment each answers.
fn answer(url: &str) -> (CaptureHead, Payload) {
    let page = url
        .split_once("&page=")
        .and_then(|(_, back)| back.split_once('&'))
        .expect("a page parameter")
        .0;
    (
        CaptureHead {
            status: 200,
            total: Some("2".to_owned()),
            total_pages: Some("2".to_owned()),
            mitigated: None,
        },
        Payload {
            bytes: b"[]".to_vec(),
            registry: Err("not a registry".to_owned()),
            error_code: None,
            comments: Some(vec![Comment {
                id: page.parse().expect("a page"),
                date_gmt: format!("2026-08-20T00:00:0{page}"),
            }]),
        },
    )
}

#[test]
fn multi_domain_update_starts_each_via_chain_at_its_own_first_page() {
    let base_urls = ["http://127.0.0.1:8080/", "http://127.0.0.1:8081/"];
    let before = timestamp("2026-08-21T00:00:00Z");
    let after = timestamp("2026-08-19T00:00:00Z");
    let runs = base_urls
        .iter()
        .map(|base_url| CommentRun {
            site_url: (*base_url).to_owned(),
            driver: CommentDriver::for_window(base_url, after, before).expect("a driver"),
        })
        .collect();
    let mut runs = CommentRuns::new(runs, false);
    assert_eq!(runs.site_urls(), &base_urls);

    let mut metadata = Vec::new();
    let mut records = Vec::new();
    while let Some(request) = runs.next() {
        assert!(runs.has_room());
        let (head, payload) = answer(&request.url);
        let inspection = runs.inspect(&Capture {
            url: &request.url,
            head: &head,
            payload: &payload,
        });
        assert_eq!(inspection.error, None);
        records.push(response(&request.url, Some("2"), "[]"));
        metadata.push((request.url, request.via));
    }
    let summary = SessionSummary {
        captures: Vec::new(),
        failures: Vec::new(),
        fatal_error: None,
        cancelled: false,
        partial_captures: 0,
        complete: true,
    };
    let (_, outcome) = report_comment_run(&summary, &runs, "updates.warc", true);
    assert_eq!(outcome, Outcome::Success);
    assert!(runs.latest_message().is_some());

    assert_eq!(metadata.len(), 4);
    for base_url in base_urls {
        let driver = CommentDriver::for_window(base_url, after, before).expect("a driver");
        let first = driver.first_comment_url();
        let second = first.replace("&page=1&", "&page=2&");
        assert!(metadata.contains(&(first.clone(), None)));
        assert!(metadata.contains(&(second, Some(first))));
    }
    let collections = check_comment_collections(&records);
    assert_eq!(collections.len(), 2);
    assert!(collections.iter().all(|collection| {
        collection.coverage.total_pages == Some(2)
            && collection.coverage.captured_pages == [1, 2]
            && collection.coverage.is_complete()
    }));
    assert_eq!(
        report_check("updates.warc", &collections, true).1,
        Outcome::Success
    );
}

#[test]
fn comments_outrank_cutoffs_and_later_comments_earlier_ones() {
    let comment = anchor("https://example.com/", "2026-08-18T00:00:00Z");
    let later = anchor("https://example.com/", "2026-08-19T00:00:00Z");
    let mut cutoff = anchor("https://example.com/", "2026-08-25T00:00:00Z");
    cutoff.from_comment = false;
    assert!(update_anchor_is_newer(&later, &comment));
    assert!(!update_anchor_is_newer(&comment, &later));
    assert!(!update_anchor_is_newer(&comment, &comment));
    assert!(!update_anchor_is_newer(&cutoff, &comment));
    assert!(update_anchor_is_newer(&comment, &cutoff));
}

#[test]
fn a_window_starts_the_overlap_before_its_anchor() {
    let anchored = anchor("https://example.com/", "2026-08-20T00:00:00.25Z");
    let before = timestamp("2026-08-21T00:00:00Z");
    let after = |seconds: u64, nanos: u32| {
        update_window(&anchored, Span { seconds, nanos }, before)
            .expect("a window")
            .rendered_in_full()
    };
    assert_eq!(after(86_400, 0), "2026-08-19T00:00:00.250+00:00");
    assert_eq!(after(0, 500_000_000), "2026-08-19T23:59:59.750+00:00");
    assert!(matches!(
        update_window(
            &anchored,
            Span {
                seconds: 0,
                nanos: 0
            },
            timestamp("2026-08-20T00:00:00Z")
        ),
        Err(Error::InvalidUpdateWindow { .. })
    ));
    assert!(matches!(
        update_window(
            &anchored,
            Span {
                seconds: 9_000_000_000_000_000,
                nanos: 0
            },
            before
        ),
        Err(Error::OverlapOutOfRange(_))
    ));
}

#[test]
fn an_update_is_planned_for_every_site_or_for_none() {
    let before = timestamp("2026-08-21T00:00:00Z");
    let day = Span {
        seconds: 86_400,
        nanos: 0,
    };
    let update = |base_url: &str| CommentUpdateInput {
        path: "history.warc".to_owned(),
        anchor: anchor(base_url, "2026-08-20T00:00:00Z"),
    };
    let runs = plan_update(
        &vec![update("https://a.example/"), update("https://b.example/")],
        day,
        before,
    )
    .unwrap_or_else(|_| unreachable!());
    assert_eq!(runs.len(), 2);
    assert_eq!(runs[1].site_url, "https://b.example/");
    assert!(runs[1]
        .driver
        .first_comment_url()
        .contains("after=2026-08-19T00:00:00Z&before=2026-08-21T00:00:00Z"));
    assert!(matches!(
        plan_update(&vec![update("nothing")], day, before),
        Err(Error::Url(_))
    ));
    assert!(matches!(
        plan_update(
            &Vec::new(),
            Span {
                seconds: u64::MAX,
                nanos: 0
            },
            before
        ),
        Err(Error::OverlapOutOfRange(_))
    ));
}

#[test]
fn an_unrequested_capture_is_refused() {
    let mut runs = CommentRuns::new(Vec::new(), false);
    assert!(runs.next().is_none());
    let (head, payload) = answer("https://example.com/?a=1&page=1&b=2");
    let inspection = runs.inspect(&Capture {
        url: "https://example.com/",
        head: &head,
        payload: &payload,
    });
    assert_eq!(
        inspection.error.as_deref(),
        Some("captured an unrequested WordPress comments URL: https://example.com/")
    );
}

#[test]
fn failures_of_a_run_are_reported() {
    let summary = SessionSummary {
        captures: Vec::new(),
        failures: vec![("https://example.com/a".to_owned(), "refused".to_owned())],
        fatal_error: Some("out of space".to_owned()),
        cancelled: false,
        partial_captures: 0,
        complete: false,
    };
    let runs = CommentRuns::new(Vec::new(), false);
    let (notices, outcome) = report_comment_run(&summary, &runs, "updates.warc", true);
    assert_eq!(outcome, Outcome::ReportedProblems);
    assert!(notices
        .iter()
        .any(|notice| notice.level != Level::Printed && notice.message.contains("refused")));
    assert!(notices
        .iter()
        .any(|notice| notice.message.contains("out of space")));
}
