use wordpress_archive::endpoint::{Collection, Registry};
use wordpress_archive::evidence::{
    Evidence, Message, Problem, Record, ResponseHead, StoredRevisitProfile,
};
use wordpress_archive::lint::{report, Finding, LintReport, WordPressRules};
use wordpress_archive::resume::inspect_archive;
use wordpress_archive::session::{CaptureHead, Payload};

const URL: &str = "https://example.com/wp-json";
const RESPONSE: &str =
    "HTTP/1.1 200 OK\r\nContent-Type: application/json\r\nContent-Length: 2\r\n\r\n{}";

/// An object that is no registry of anything.
fn payload(body: &str) -> Payload {
    Payload {
        bytes: body.as_bytes().to_vec(),
        registry: Ok(Vec::new()),
        error_code: None,
        comments: None,
    }
}

/// A response message as an archive stores it.
fn message(text: &str) -> Message {
    let (head, body) = text.split_once("\r\n\r\n").expect("a response head");
    let values = |name: &str| {
        head.lines()
            .filter_map(|line| line.split_once(':'))
            .filter(|(found, _)| found.eq_ignore_ascii_case(name))
            .map(|(_, value)| value.trim().to_owned())
            .collect::<Vec<_>>()
    };
    let first = |name: &str| values(name).into_iter().next();
    let status = head[9..12].parse().expect("a status");
    Message {
        head: Some(ResponseHead {
            status,
            total: first("x-wp-total").map(String::into_bytes),
            total_pages: first("x-wp-totalpages").map(String::into_bytes),
            location: first("location").map(String::into_bytes),
            mitigated: first("cf-mitigated").map(String::into_bytes),
            links: values("link").into_iter().map(String::into_bytes).collect(),
        }),
        capture: Some(CaptureHead {
            status,
            total: first("x-wp-total"),
            total_pages: first("x-wp-totalpages"),
            mitigated: first("cf-mitigated"),
        }),
        entity: Ok(payload(body)),
    }
}

fn name(id: &str) -> String {
    format!("urn:test:{id}")
}

fn request(id: &str) -> Record {
    request_of(URL, id)
}

fn request_of(url: &str, id: &str) -> Record {
    Record::Request {
        id: name(id),
        url: url.to_owned(),
    }
}

fn response(id: &str, request: &str, truncation: Option<&str>) -> Record {
    response_of(URL, id, request, truncation)
}

fn response_of(url: &str, id: &str, request: &str, truncation: Option<&str>) -> Record {
    Record::Response {
        id: name(id),
        concurrent_to: vec![name(request)],
        url: url.to_owned(),
        message: message(RESPONSE),
        truncation: truncation.map(str::to_owned),
        identified_json: false,
    }
}

fn metadata(id: &str, response: &str, via: &str) -> Record {
    metadata_of(URL, id, response, Some(via), true)
}

fn metadata_of(url: &str, id: &str, response: &str, via: Option<&str>, fields: bool) -> Record {
    Record::Metadata {
        id: name(id),
        concurrent_to: vec![name(response)],
        url: Some(url.to_owned()),
        via: via.map(str::to_owned),
        fields,
    }
}

fn observe_both(archive: fn() -> Vec<Record>) -> (Evidence, Vec<Problem>) {
    let mut borrowed = Evidence::default();
    let mut owned = Evidence::default();
    let mut problems = Vec::new();
    for record in archive() {
        let problem = borrowed.observe(&record);
        assert_eq!(problem, owned.observe_owned(record));
        problems.extend(problem);
    }
    assert_eq!(borrowed.groups, owned.groups);
    (owned, problems)
}

/// Run the rules over every record, as a pass over a file does.
fn lint(records: &[Record]) -> LintReport {
    let mut rules = WordPressRules::new();
    let mut findings: Vec<Finding> = Vec::new();
    for (index, record) in records.iter().enumerate() {
        findings.extend(rules.check(index, record));
    }
    findings.extend(rules.finish());
    report(findings, records.len(), rules).expect("a WordPress archive")
}

#[test]
fn preserves_metadata_occurrences_and_first_response() {
    let (evidence, problems) = observe_both(|| {
        vec![
            request("request"),
            response("response", "request", Some("time")),
            metadata("first", "response", "https://example.com/first"),
            metadata("last", "response", "https://example.com/last"),
            response("duplicate", "request", None),
            metadata("unlinked", "duplicate", URL),
            Record::Other {
                id: name("unrelated"),
            },
        ]
    });
    assert_eq!(evidence.groups.len(), 1);
    assert_eq!(
        problems,
        [
            Problem::DuplicateMetadata(URL.to_owned()),
            Problem::DuplicateResponse(URL.to_owned()),
            Problem::UnlinkedMetadata("urn:test:unlinked".to_owned()),
        ]
    );
    let group = &evidence.groups[0];
    assert_eq!(group.metadata.len(), 2);
    assert_eq!(
        group.metadata[0].via.as_deref(),
        Some("https://example.com/first")
    );
    assert_eq!(
        group.metadata[1].via.as_deref(),
        Some("https://example.com/last")
    );
    let response = group.response.as_ref().unwrap();
    assert_eq!(response.truncation.as_deref(), Some("time"));
    assert_eq!(response.metadata().unwrap().status, 200);
    assert_eq!(response.message, message(RESPONSE));
}

#[test]
fn only_backward_links_resolve_and_latest_duplicate_request_wins() {
    let (evidence, problems) = observe_both(|| {
        vec![
            response("early", "request", None),
            metadata("early-metadata", "response", URL),
            request("request"),
            request("request"),
            response("response", "request", None),
        ]
    });
    assert_eq!(
        problems,
        [
            Problem::UnlinkedResponse("urn:test:early".to_owned()),
            Problem::UnlinkedMetadata("urn:test:early-metadata".to_owned()),
            Problem::DuplicateRequestId("urn:test:request".to_owned()),
        ]
    );
    assert!(evidence.groups[0].response.is_none());
    assert!(evidence.groups[1].response.is_some());
}

#[test]
fn revisits_retain_profile_original_and_identified_payload_evidence() {
    fn revisit(id: &str, request: &str, original: &str) -> Record {
        Record::Revisit {
            id: name(id),
            concurrent_to: vec![name(request)],
            url: URL.to_owned(),
            message: Message {
                head: None,
                capture: None,
                entity: Ok(payload("")),
            },
            truncation: None,
            refers_to: Some(name(original)),
            profile: StoredRevisitProfile::IdenticalPayloadDigest,
            identified_json: true,
        }
    }
    let (evidence, problems) = observe_both(|| {
        vec![
            request("original-request"),
            response("original", "original-request", None),
            request("revisit-request"),
            revisit("revisit", "revisit-request", "original"),
            request("unresolved-request"),
            revisit("unresolved", "unresolved-request", "absent"),
        ]
    });
    assert!(problems.is_empty());
    for (index, original) in [(1, Some(0)), (2, None)] {
        let revisit = evidence.groups[index]
            .response
            .as_ref()
            .unwrap()
            .revisit
            .as_ref()
            .unwrap();
        assert_eq!(
            revisit.profile,
            StoredRevisitProfile::IdenticalPayloadDigest
        );
        assert_eq!(revisit.original, original);
        assert!(revisit.identified_json);
    }
}

#[test]
fn resume_and_lint_report_the_same_relationship_problem() {
    let custom = "https://example.com/wp-json/wp/v2/widgets";
    let archive = || {
        vec![
            request("request"),
            response("response", "request", None),
            metadata_of(URL, "first", "response", None, true),
            metadata("last", "response", "https://example.com/last"),
            request_of(custom, "custom-request"),
            response_of(custom, "custom-response", "custom-request", None),
            metadata_of(
                custom,
                "custom-first",
                "custom-response",
                Some("https://example.com/wp-json/wp/v2/types"),
                true,
            ),
            metadata_of(
                custom,
                "custom-last",
                "custom-response",
                Some("https://example.com/wp-json/wp/v2/taxonomies"),
                true,
            ),
            metadata_of(custom, "custom-raw", "custom-response", None, false),
        ]
    };
    let resume = inspect_archive(archive()).expect("a resumable archive");
    let lint = lint(&archive());
    // Resume uses the last typed metadata via (ignoring a later raw block),
    // while lint uses the first metadata for the root's no-via requirement.
    assert!(resume.endpoints.contains(&Collection::Custom {
        name: "widgets".to_owned(),
        registry: Registry::Taxonomies,
    }));
    assert!(!lint
        .findings
        .iter()
        .any(|finding| finding.rule == "wrong_via"));

    assert!(resume
        .warnings
        .iter()
        .any(|warning| warning == &format!("capture of {URL} has duplicate metadata")));
    assert!(lint
        .findings
        .iter()
        .any(|finding| finding.rule == "duplicate_capture_metadata"));
}

#[test]
fn problems_say_which_record_they_are_about() {
    assert_eq!(
        Problem::DuplicateMetadata(URL.to_owned()).to_string(),
        format!("capture of {URL} has duplicate metadata")
    );
}
