use std::collections::HashSet;

use wordpress_archive::archive::Site;
use wordpress_archive::endpoint::{Endpoint, ROOT_ENDPOINTS};
use wordpress_archive::evidence::{
    CaptureGroup, Message, Record, ResponseHead, StoredMetadata, StoredResponse, StoredRevisit,
    StoredRevisitProfile,
};
use wordpress_archive::lint::{
    analyse, display_optional, expected_initial, initial_capture_candidates, is_server_challenge,
    lint_series, page_query, page_uri_match, parse_links, report, Analysis, Error, Finding,
    PageCapture, PageUriMatch, Probe, Severity, WordPressRules, ATTEST_LINK_WARNING,
};
use wordpress_archive::session::{CaptureHead, Payload};

const BEFORE: &str = "2026-08-20T00:00:00Z";

fn payload(body: &str) -> Payload {
    Payload {
        bytes: body.as_bytes().to_vec(),
        registry: if body == "{}" {
            Ok(Vec::new())
        } else {
            Err("not a registry".to_owned())
        },
        error_code: None,
        comments: None,
    }
}

/// A response message as an archive stores it.
fn message(text: &str) -> Message {
    let (head, body) = text.split_once("\r\n\r\n").expect("a response head");
    let values = |name: &str| {
        head.lines()
            .filter_map(|line| line.split_once(':'))
            .filter(|(found, _)| found.eq_ignore_ascii_case(name))
            .map(|(_, value)| value.trim().to_owned())
            .collect::<Vec<_>>()
    };
    let first = |name: &str| values(name).into_iter().next();
    let status = head[9..12].parse().expect("a status");
    Message {
        head: Some(ResponseHead {
            status,
            total: first("x-wp-total").map(String::into_bytes),
            total_pages: first("x-wp-totalpages").map(String::into_bytes),
            location: first("location").map(String::into_bytes),
            mitigated: first("cf-mitigated").map(String::into_bytes),
            links: values("link").into_iter().map(String::into_bytes).collect(),
        }),
        capture: Some(CaptureHead {
            status,
            total: first("x-wp-total"),
            total_pages: first("x-wp-totalpages"),
            mitigated: first("cf-mitigated"),
        }),
        entity: Ok(payload(body)),
    }
}

fn endpoint() -> String {
    "https://example.com/wp-json/wp/v2/posts".to_owned()
}

fn page(number: usize) -> String {
    format!(
        "{}?before={BEFORE}&orderby=id&order=asc&page={number}&per_page=100",
        endpoint()
    )
}

/// The response to a page request, whose links to its neighbours end in `suffix`.
fn page_response(number: usize, total: usize, suffix: &str) -> String {
    let links = [
        (number > 1).then(|| format!("<{}{suffix}>; rel=\"prev\"", page(number - 1))),
        (number < total).then(|| format!("<{}{suffix}>; rel=\"next\"", page(number + 1))),
    ]
    .into_iter()
    .flatten()
    .collect::<Vec<_>>()
    .join(", ");
    let link = (!links.is_empty()).then(|| format!("Link: {links}\r\n"));
    format!(
        "HTTP/1.1 200 OK\r\nContent-Type: application/json\r\n\
         X-WP-TotalPages: {total}\r\n{}Content-Length: 2\r\n\r\n[]",
        link.as_deref().unwrap_or("")
    )
}

fn capture(number: usize, via: &str, total: usize) -> CaptureGroup {
    let url = page(number);
    CaptureGroup {
        url: url.clone(),
        response: Some(StoredResponse {
            url: url.clone(),
            message: message(&page_response(number, total, "")),
            truncation: None,
            revisit: None,
        }),
        metadata: vec![StoredMetadata {
            url: Some(url),
            via: Some(via.to_owned()),
            fields: true,
        }],
    }
}

fn root_capture(status: u16, body: &str) -> CaptureGroup {
    let url = "https://example.com/wp-json".to_owned();
    let response = format!(
        "HTTP/1.1 {status} Test\r\nContent-Length: {}\r\n\r\n{body}",
        body.len()
    );
    CaptureGroup {
        url: url.clone(),
        response: Some(StoredResponse {
            url,
            message: message(&response),
            truncation: None,
            revisit: None,
        }),
        metadata: Vec::new(),
    }
}

fn revisit(number: usize, via: &str, total: usize, original: usize) -> CaptureGroup {
    let mut group = capture(number, via, total);
    let response = group.response.as_mut().expect("a stored response");
    response.message.entity = Ok(payload(""));
    response.truncation = Some("length".to_owned());
    response.revisit = Some(StoredRevisit {
        profile: StoredRevisitProfile::IdenticalPayloadDigest,
        original: Some(original),
        identified_json: true,
    });
    group
}

fn failed_capture(number: usize, via: &str, status: u16) -> CaptureGroup {
    let mut group = capture(number, via, 3);
    let response = group.response.as_mut().expect("a stored response");
    response.message = message(&format!(
        "HTTP/1.1 {status} Test\r\nContent-Length: 0\r\n\r\n"
    ));
    group
}

fn truncated_capture(number: usize, via: &str) -> CaptureGroup {
    let mut group = capture(number, via, 3);
    group
        .response
        .as_mut()
        .expect("a stored response")
        .truncation = Some("time".to_owned());
    group
}

fn pages(groups: &[CaptureGroup]) -> Vec<PageCapture> {
    groups
        .iter()
        .enumerate()
        .map(|(group, capture)| {
            let (page, valid_query, _) = page_query(&capture.url);
            PageCapture {
                group,
                page,
                valid_query,
            }
        })
        .collect()
}

fn probe() -> Probe {
    Probe {
        collection: Endpoint::Posts.into(),
        url: endpoint(),
        status: Some(200),
        items: Some(101),
    }
}

#[test]
fn lint_initial_capture_order_uses_the_supported_endpoint_order() {
    let site = Site::parse("example.com").expect("a site");
    let initial = expected_initial(&site, &Vec::new());
    let endpoints = initial[ROOT_ENDPOINTS.len()..]
        .iter()
        .map(|(_, collection)| {
            collection
                .as_ref()
                .expect("an endpoint follows the roots")
                .name()
        })
        .collect::<Vec<_>>();

    assert_eq!(
        endpoints,
        [
            "pages",
            "posts",
            "media",
            "comments",
            "users",
            "categories",
            "tags",
            "navigation",
        ]
    );
}

#[test]
fn lint_simply_browser_challenges_do_not_count_as_initial_captures() {
    let challenge = root_capture(454, r"<script sc-challenge>fetch('/.sc-verify/')</script>");
    assert!(is_server_challenge(&challenge));

    let groups = vec![challenge, root_capture(200, "{}")];
    assert_eq!(
        initial_capture_candidates(&groups, "https://example.com/wp-json"),
        [1]
    );
}

#[test]
fn lint_ordinary_error_responses_still_count_as_initial_captures() {
    let groups = vec![
        root_capture(454, "ordinary server error"),
        root_capture(200, "{}"),
    ];
    assert_eq!(
        initial_capture_candidates(&groups, "https://example.com/wp-json"),
        [0, 1]
    );
}

#[test]
fn lint_paging_query_requires_the_archive_shape() {
    assert_eq!(
        page_query(&page(2)),
        (Some(2), true, Some(BEFORE.to_owned()))
    );
    assert!(!page_query(&format!("{}?page=2", endpoint())).1);
    assert!(!page_query(&page(0)).1);
    assert!(!page_query(&format!("{}&extra=yes", page(2))).1);
}

#[test]
fn lint_link_targets_are_compared_by_query_values() {
    let encoded = page(2).replace(BEFORE, "2026-08-20T00%3A00%3A00Z");
    assert_eq!(page_uri_match(&encoded, &page(1), 2), PageUriMatch::Exact);
    assert_eq!(
        page_uri_match(&format!("{encoded}&attest=true"), &page(1), 2),
        PageUriMatch::Attested
    );
    assert_eq!(
        page_uri_match(&format!("{encoded}&attest=false"), &page(1), 2),
        PageUriMatch::Different
    );
    assert_eq!(
        page_uri_match(&format!("{encoded}&other=true"), &page(1), 2),
        PageUriMatch::Different
    );
    assert_eq!(
        page_uri_match(&page(3), &page(1), 2),
        PageUriMatch::Different
    );
}

#[test]
fn lint_attested_pagination_links_produce_one_site_warning() {
    let probe = probe();
    let mut groups = vec![capture(1, &probe.url, 3)];
    let via = groups[0].url.clone();
    groups.push(capture(2, &via, 3));
    let via = groups[1].url.clone();
    groups.push(capture(3, &via, 3));
    for (index, group) in groups.iter_mut().enumerate() {
        let response = group.response.as_mut().expect("a response");
        response.message = message(&page_response(index + 1, 3, "&attest=true"));
    }
    let captures = pages(&groups);
    let mut report = Analysis::default();

    assert_eq!(
        lint_series(&groups, &probe, &captures, &mut HashSet::new(), &mut report),
        Some(3)
    );
    assert_eq!(report.findings.len(), 1, "{:?}", report.findings);
    assert_eq!(report.findings[0].severity, Severity::Warning);
    assert_eq!(report.findings[0].message, ATTEST_LINK_WARNING);
}

#[test]
fn lint_a_multi_page_series_requires_one_complete_pagination_pass() {
    let probe = probe();
    let mut groups = vec![capture(1, &probe.url, 2)];
    groups.push(capture(2, &groups[0].url, 2));
    let captures = pages(&groups);
    let mut report = Analysis::default();

    assert_eq!(
        lint_series(&groups, &probe, &captures, &mut HashSet::new(), &mut report,),
        Some(2)
    );
    assert!(report.findings.is_empty(), "{:?}", report.findings);

    let mut repeated_groups = vec![capture(1, &probe.url, 2)];
    repeated_groups.push(capture(2, &repeated_groups[0].url, 2));
    repeated_groups.push(revisit(1, &repeated_groups[1].url, 2, 0));
    repeated_groups.push(revisit(2, &repeated_groups[2].url, 2, 1));
    let repeated_captures = pages(&repeated_groups);
    let mut legacy = Analysis::default();
    lint_series(
        &repeated_groups,
        &probe,
        &repeated_captures,
        &mut HashSet::new(),
        &mut legacy,
    );
    assert!(legacy.findings.is_empty(), "{:?}", legacy.findings);
}

#[test]
fn failed_page_attempts_do_not_consume_pagination_positions() {
    let probe = probe();
    let mut groups = vec![capture(1, &probe.url, 3)];
    let page_one = groups[0].url.clone();
    groups.push(failed_capture(2, &page_one, 503));
    groups.push(capture(2, &page_one, 3));
    let page_two = groups[2].url.clone();
    groups.push(truncated_capture(3, &page_two));
    groups.push(capture(3, &page_two, 3));
    let captures = pages(&groups);
    let mut report = Analysis::default();

    assert_eq!(
        lint_series(&groups, &probe, &captures, &mut HashSet::new(), &mut report,),
        Some(3)
    );
    assert!(report.findings.is_empty(), "{:?}", report.findings);
}

#[test]
fn lint_an_empty_collection_still_has_page_one() {
    let mut probe = probe();
    probe.items = Some(0);
    let groups = vec![capture(1, &probe.url, 0)];
    let captures = pages(&groups);
    let mut report = Analysis::default();

    assert_eq!(
        lint_series(&groups, &probe, &captures, &mut HashSet::new(), &mut report,),
        Some(0)
    );
    assert!(report.findings.is_empty(), "{:?}", report.findings);

    let mut groups = groups;
    groups.push(capture(1, &groups[0].url, 0));
    let captures = pages(&groups);
    let mut repeated = Analysis::default();
    lint_series(
        &groups,
        &probe,
        &captures,
        &mut HashSet::new(),
        &mut repeated,
    );
    assert!(repeated.findings.iter().any(|finding| {
        finding.message == "posts pagination series has an unnecessary second pass"
    }));
}

#[test]
fn a_page_without_its_predecessor_is_reported() {
    let probe = probe();
    let groups = vec![capture(1, &probe.url, 3), capture(3, &page(1), 3)];
    let captures = pages(&groups);
    let mut found = Analysis::default();
    lint_series(&groups, &probe, &captures, &mut HashSet::new(), &mut found);
    assert!(!found.findings.is_empty());
    assert!(found
        .findings
        .iter()
        .all(|finding| finding.severity == Severity::Error || finding.severity == Severity::Warning));
}

#[test]
fn links_are_read_with_their_relations() {
    assert_eq!(
        parse_links("<https://a.example/?x=1>; rel=\"next last\", <https://b.example/>; rel=prev"),
        [
            (
                "https://a.example/?x=1".to_owned(),
                vec!["next".to_owned(), "last".to_owned()]
            ),
            ("https://b.example/".to_owned(), vec!["prev".to_owned()]),
        ]
    );
    assert_eq!(parse_links("nothing"), []);
    assert_eq!(display_optional(Some("x\"y")), "\"x\\\"y\"");
}

#[test]
fn an_archive_of_something_else_cannot_be_analysed() {
    assert!(matches!(
        analyse(&Vec::new()),
        Err(Error::NoWordPressRequests)
    ));
    let rules = WordPressRules::new();
    assert!(report(Vec::new(), 0, rules).is_ok());
    let mut rules = WordPressRules::new();
    assert!(rules.finish().is_empty());
    assert!(matches!(
        report(Vec::new(), 0, rules),
        Err(Error::NoWordPressRequests)
    ));
}

#[test]
fn records_with_core_findings_do_not_pass_the_core_rules() {
    let request = Record::Request {
        id: "urn:test:request".to_owned(),
        url: "https://example.com/wp-json".to_owned(),
    };
    let core = |record: usize| Finding {
        severity: Severity::Error,
        rule: "digest".to_owned(),
        message: "a digest differs".to_owned(),
        record: Some(record),
        core: true,
    };
    let mut rules = WordPressRules::new();
    assert!(rules.check(0, &request).is_none());
    let duplicate = rules.check(1, &request).expect("a finding");
    assert_eq!(duplicate.record, Some(1));
    assert!(!duplicate.core);
    let mut findings = vec![core(0), core(0), duplicate];
    findings.extend(rules.finish());
    let report = report(findings, 2, rules).expect("a WordPress archive");
    assert_eq!(report.core_lints_passed, 1);
    assert_eq!(report.roots, 1);
    assert!(!report.is_clean());
    assert!(report.error_count() > 0);
    assert_eq!(
        report.error_count() + report.warning_count(),
        report.findings.len()
    );
}
