use wordpress_archive::evidence::{Message, Record, ResponseHead, StoredRevisitProfile};
use wordpress_archive::read::{
    check_comment_collections, check_comment_completeness, comment_base_url, comment_endpoint,
    comment_page, find_comment_update_anchor, find_comment_update_anchors, is_comment_endpoint,
    is_gzip, query_datetime, read_comments, ArchivedComment, CommentCompleteness, CommentConflict,
    Error,
};
use wordpress_archive::session::{CaptureHead, Payload};

/// A response message with JSON in its entity.
fn message(status: &str, total_pages: Option<&str>, body: &str) -> Message {
    let status = status[..3].parse().expect("a status");
    Message {
        head: Some(ResponseHead {
            status,
            total: None,
            total_pages: total_pages.map(|total| total.as_bytes().to_vec()),
            location: None,
            mitigated: None,
            links: Vec::new(),
        }),
        capture: Some(CaptureHead {
            status,
            total: None,
            total_pages: total_pages.map(str::to_owned),
            mitigated: None,
        }),
        entity: Ok(Payload {
            bytes: body.as_bytes().to_vec(),
            registry: Err("not a registry".to_owned()),
            error_code: None,
            comments: None,
        }),
    }
}

fn response(url: &str, message: Message, identified_json: bool) -> Record {
    Record::Response {
        id: "urn:test:response".to_owned(),
        concurrent_to: Vec::new(),
        url: url.to_owned(),
        message,
        truncation: None,
        identified_json,
    }
}

fn revisit(
    url: &str,
    message: Message,
    profile: StoredRevisitProfile,
    identified_json: bool,
) -> Record {
    Record::Revisit {
        id: "urn:test:revisit".to_owned(),
        concurrent_to: Vec::new(),
        url: url.to_owned(),
        message,
        truncation: Some("length".to_owned()),
        refers_to: None,
        profile,
        identified_json,
    }
}

/// Response records with JSON in their entities.
fn fixture(responses: &[(&str, &str, &str)]) -> Vec<Record> {
    responses
        .iter()
        .map(|(url, status, body)| response(url, message(status, None, body), false))
        .collect()
}

/// Response records with configurable inferred types and advertised page counts.
fn coverage_fixture(responses: &[(&str, &str, Option<&str>, Option<&str>)]) -> Vec<Record> {
    responses
        .iter()
        .map(|(url, status, inferred_type, total_pages)| {
            response(
                url,
                message(status, *total_pages, "[]"),
                *inferred_type == Some("application/json"),
            )
        })
        .collect()
}

fn comment(id: u64, json: &str) -> ArchivedComment {
    let value: serde_json::Value = serde_json::from_str(json).expect("a comment");
    ArchivedComment {
        id,
        json: value.to_string(),
    }
}

fn conflict(id: u64, first: &str, second: &str) -> CommentConflict {
    CommentConflict {
        id,
        first: comment(id, first).json,
        second: comment(id, second).json,
    }
}

#[test]
fn complete_archive_covers_every_advertised_page() {
    let records = coverage_fixture(&[
        (
            "https://example.com/wp-json/wp/v2/comments?before=x",
            "200 OK",
            Some("application/json"),
            Some("3"),
        ),
        (
            "https://example.com/wp-json/wp/v2/comments?page=3",
            "200 OK",
            Some("application/json"),
            Some("2"),
        ),
        (
            "https://example.com/wp-json/wp/v2/comments?page=2",
            "200 OK",
            Some("application/json"),
            Some("3"),
        ),
    ]);

    let coverage = check_comment_completeness(&records).expect("one collection");

    assert_eq!(coverage.total_pages, Some(3));
    assert_eq!(coverage.advertised_page_totals, [3, 2, 3]);
    assert_eq!(coverage.captured_pages, [1, 2, 3]);
    assert_eq!(coverage.missing_pages(), Vec::<usize>::new());
    assert_eq!(coverage.missing_page_count(), Some(0));
    assert!(coverage.is_complete());
    assert!(coverage.advertised_total_changed());
}

#[test]
fn multi_site_archive_checks_each_endpoint_independently() {
    let records = coverage_fixture(&[
        (
            "https://zeta.example/wp-json/wp/v2/comments?page=1",
            "200 OK",
            Some("application/json"),
            Some("3"),
        ),
        (
            "https://alpha.example/blog/wp-json/wp/v2/comments?page=1",
            "200 OK",
            Some("application/json"),
            Some("2"),
        ),
        (
            "https://zeta.example/wp-json/wp/v2/comments?page=3",
            "200 OK",
            Some("application/json"),
            Some("3"),
        ),
        (
            "https://alpha.example/blog/wp-json/wp/v2/comments?page=2",
            "200 OK",
            Some("application/json"),
            Some("2"),
        ),
    ]);

    let collections = check_comment_collections(&records);

    assert_eq!(collections.len(), 2);
    assert_eq!(
        collections[0].endpoint,
        "https://alpha.example/blog/wp-json/wp/v2/comments"
    );
    assert_eq!(collections[0].coverage.total_pages, Some(2));
    assert_eq!(collections[0].coverage.captured_pages, [1, 2]);
    assert!(collections[0].coverage.is_complete());
    assert!(!collections[0].coverage.advertised_total_changed());
    assert_eq!(
        collections[1].endpoint,
        "https://zeta.example/wp-json/wp/v2/comments"
    );
    assert_eq!(collections[1].coverage.total_pages, Some(3));
    assert_eq!(collections[1].coverage.captured_pages, [1, 3]);
    assert_eq!(collections[1].coverage.missing_pages(), [2]);
    assert!(!collections[1].coverage.is_complete());
    assert!(!collections[1].coverage.advertised_total_changed());
    assert!(matches!(
        check_comment_completeness(&records),
        Err(Error::MultipleCommentCollections(2))
    ));
}

#[test]
fn only_200_json_inferred_comment_responses_cover_pages() {
    let records = coverage_fixture(&[
        (
            "https://example.com/wp-json/wp/v2/comments?page=1",
            "200 OK",
            Some("application/json"),
            Some("3"),
        ),
        (
            "https://example.com/wp-json/wp/v2/comments?page=2",
            "200 OK",
            Some("text/plain"),
            Some("3"),
        ),
        (
            "https://example.com/wp-json/wp/v2/comments?page=3",
            "204 No Content",
            Some("application/json"),
            Some("3"),
        ),
        (
            "https://example.com/wp-json/wp/v2/posts?page=2",
            "200 OK",
            Some("application/json"),
            Some("3"),
        ),
    ]);

    let coverage = check_comment_completeness(&records).expect("one collection");

    assert_eq!(coverage.total_pages, Some(3));
    assert_eq!(coverage.advertised_page_totals, [3]);
    assert_eq!(coverage.captured_pages, [1]);
    assert_eq!(coverage.missing_pages(), [2, 3]);
    assert_eq!(coverage.missing_page_count(), Some(2));
    assert!(!coverage.is_complete());
    assert!(!coverage.advertised_total_changed());
}

#[test]
fn only_an_inferred_json_200_revisit_covers_a_page() {
    let mut records = coverage_fixture(&[(
        "https://example.com/wp-json/wp/v2/comments?page=1&per_page=100",
        "200 OK",
        Some("application/json"),
        Some("2"),
    )]);
    records.push(revisit(
        "https://example.com/wp-json/wp/v2/comments?page=2&per_page=100",
        message("200 OK", Some("2"), ""),
        StoredRevisitProfile::IdenticalPayloadDigest,
        true,
    ));
    records.push(revisit(
        "https://example.com/wp-json/wp/v2/comments?page=3&per_page=100",
        message("200 OK", Some("3"), ""),
        StoredRevisitProfile::IdenticalPayloadDigest,
        false,
    ));
    records.push(revisit(
        "https://example.com/wp-json/wp/v2/comments?page=4&per_page=100",
        message("304 Not Modified", Some("4"), ""),
        StoredRevisitProfile::ServerNotModified,
        true,
    ));

    let coverage = check_comment_completeness(&records).expect("one collection");

    assert_eq!(coverage.total_pages, Some(2));
    assert_eq!(coverage.captured_pages, [1, 2]);
    assert!(coverage.is_complete());
}

#[test]
fn archive_without_an_advertised_page_count_is_incomplete() {
    let records = coverage_fixture(&[(
        "https://example.com/wp-json/wp/v2/comments?page=1",
        "200 OK",
        Some("application/json"),
        None,
    )]);

    let coverage = check_comment_completeness(&records).expect("one collection");

    assert_eq!(coverage.total_pages, None);
    assert!(coverage.advertised_page_totals.is_empty());
    assert_eq!(coverage.captured_pages, [1]);
    assert_eq!(coverage.missing_page_count(), None);
    assert!(!coverage.is_complete());
    assert!(!coverage.advertised_total_changed());
}

#[test]
fn comments_are_sorted_deduplicated_and_conflicts_are_reported() {
    let records = fixture(&[
        (
            "https://example.com/wp-json/wp/v2/comments?order=asc",
            "200 OK",
            r#"[{"id":2,"content":"two"},{"id":1,"content":"old"}]"#,
        ),
        (
            "https://example.com/wp-json/wp/v2/comments?after=x",
            "200 OK",
            r#"[{"id":1,"content":"old"},{"id":1,"content":"new"},{"id":1,"content":"newest"},{"id":3}]"#,
        ),
    ]);

    let result = read_comments(&records).expect("comments");

    assert_eq!(
        result.comments,
        [
            comment(1, r#"{"id": 1, "content": "old"}"#),
            comment(2, r#"{"id": 2, "content": "two"}"#),
            comment(3, r#"{"id": 3}"#),
        ]
    );
    assert_eq!(
        result.warnings,
        [
            conflict(
                1,
                r#"{"id": 1, "content": "old"}"#,
                r#"{"id": 1, "content": "new"}"#,
            ),
            conflict(
                1,
                r#"{"id": 1, "content": "old"}"#,
                r#"{"id": 1, "content": "newest"}"#,
            ),
            conflict(
                1,
                r#"{"id": 1, "content": "new"}"#,
                r#"{"id": 1, "content": "newest"}"#,
            ),
        ]
    );
}

#[test]
fn update_anchor_uses_the_latest_comment_datetime_and_installation_root() {
    let records = fixture(&[
        (
            "https://example.com/blog/wp-json/wp/v2/comments?before=2026-08-20T00:00:00Z&page=1",
            "200 OK",
            r#"[{"id":1,"date_gmt":"2026-08-18T12:00:00"}]"#,
        ),
        (
            "https://example.com/blog/wp-json/wp/v2/comments?before=2026-08-20T00:00:00Z&page=2",
            "200 OK",
            r#"[{"id":2,"date_gmt":"2026-08-19T13:14:15Z"}]"#,
        ),
    ]);

    let anchor = find_comment_update_anchor(&records).expect("an anchor");

    assert_eq!(anchor.base_url, "https://example.com/blog/");
    assert_eq!(
        anchor.datetime.rendered_in_full(),
        "2026-08-19T13:14:15+00:00"
    );
    assert!(anchor.from_comment);
}

#[test]
fn empty_archive_uses_the_request_before_cutoff_as_its_update_anchor() {
    let records = fixture(&[
        (
            "https://example.com/wp-json/wp/v2/comments?before=2026-08-19T23:59:58Z&page=1",
            "200 OK",
            "[]",
        ),
        (
            "https://example.com/wp-json/wp/v2/comments?before=2026-08-20T00:00:00Z&page=2",
            "200 OK",
            "[]",
        ),
    ]);

    let anchor = find_comment_update_anchor(&records).expect("an anchor");

    assert_eq!(anchor.base_url, "https://example.com/");
    assert_eq!(
        anchor.datetime.rendered_in_full(),
        "2026-08-20T00:00:00+00:00"
    );
    assert!(!anchor.from_comment);
}

#[test]
fn update_anchors_keep_comments_and_cutoffs_separate_by_site() {
    let records = fixture(&[
        (
            "https://zeta.example/wp-json/wp/v2/comments?before=2026-08-24T00:00:00Z&page=1",
            "200 OK",
            r#"[{"id":1,"date_gmt":"2026-08-21T00:00:00"}]"#,
        ),
        (
            "https://alpha.example/blog/wp-json/wp/v2/comments?before=2026-08-23T00:00:00Z&page=1",
            "200 OK",
            "[]",
        ),
        (
            "https://zeta.example/wp-json/wp/v2/comments?before=2026-08-25T00:00:00Z&page=2",
            "200 OK",
            r#"[{"id":2,"date_gmt":"2026-08-22T00:00:00"}]"#,
        ),
    ]);

    let anchors = find_comment_update_anchors(&records).expect("anchors");

    assert_eq!(anchors.len(), 2);
    assert_eq!(anchors[0].base_url, "https://alpha.example/blog/");
    assert_eq!(
        anchors[0].datetime.rendered_in_full(),
        "2026-08-23T00:00:00+00:00"
    );
    assert!(!anchors[0].from_comment);
    assert_eq!(anchors[1].base_url, "https://zeta.example/");
    assert_eq!(
        anchors[1].datetime.rendered_in_full(),
        "2026-08-22T00:00:00+00:00"
    );
    assert!(anchors[1].from_comment);
    assert!(matches!(
        find_comment_update_anchor(&records),
        Err(Error::MultipleCommentCollections(2))
    ));
}

#[test]
fn compression_is_detected_from_content_not_the_extension() {
    assert!(is_gzip(&[0x1f, 0x8b]));
    assert!(is_gzip(&[0x1f, 0x8b, 0x08]));
    assert!(!is_gzip(b"WARC/1.1"));
    assert!(!is_gzip(&[0x1f]));
    assert!(!is_gzip(&[]));

    let records = fixture(&[(
        "https://example.com/wp-json/wp/v2/comments",
        "200 OK",
        r#"[{"id":1}]"#,
    )]);
    assert_eq!(
        read_comments(&records).expect("comments").comments,
        [comment(1, r#"{"id": 1}"#)]
    );
}

#[test]
fn unrelated_redirect_and_failed_responses_are_ignored() {
    let records = fixture(&[
        (
            "https://example.com/wp-json/wp/v2/comments",
            "301 Moved Permanently",
            "",
        ),
        (
            "https://example.com/wp-json/wp/v2/posts",
            "200 OK",
            r#"[{"id":10}]"#,
        ),
        (
            "https://example.com/wp-json/wp/v2/comments",
            "500 Server Error",
            r#"{"code":"error"}"#,
        ),
        (
            "https://example.com/wp-json/wp/v2/comments",
            "200 OK",
            r#"[{"id":11}]"#,
        ),
    ]);

    let result = read_comments(&records).expect("comments");

    assert_eq!(result.comments, [comment(11, r#"{"id": 11}"#)]);
    assert_eq!(result.warnings, []);
}

#[test]
fn comment_urls_are_told_apart_from_others() {
    assert!(is_comment_endpoint(
        "https://example.com/wp-json/wp/v2/comments/?page=1"
    ));
    assert!(!is_comment_endpoint(
        "https://example.com/wp-json/wp/v2/comments/5"
    ));
    assert_eq!(
        comment_page("https://example.com/wp-json/wp/v2/comments?page=7"),
        Some(7)
    );
    assert_eq!(
        comment_page("https://example.com/wp-json/wp/v2/comments"),
        Some(1)
    );
    assert_eq!(
        comment_page("https://example.com/wp-json/wp/v2/comments?page=0"),
        None
    );
    assert_eq!(
        comment_page("https://example.com/wp-json/wp/v2/comments?page=x"),
        None
    );
    assert_eq!(
        comment_endpoint("https://example.com/a/wp-json/wp/v2/comments/?page=1#top").as_deref(),
        Some("https://example.com/a/wp-json/wp/v2/comments")
    );
    assert_eq!(
        comment_base_url("https://example.com/a/wp-json/wp/v2/comments?page=1").as_deref(),
        Some("https://example.com/a/")
    );
    assert_eq!(
        query_datetime("https://example.com/?before=2026-08-20T02:00:00%2B02:00")
            .map(|datetime| datetime.rendered()),
        Some("2026-08-20T00:00:00Z".to_owned())
    );
    assert!(query_datetime("https://example.com/?before=yesterday").is_none());
}

#[test]
fn responses_that_cannot_be_read_are_errors() {
    let url = "https://example.com/wp-json/wp/v2/comments?before=2026-08-20T00:00:00Z";
    let with = |message: Message| vec![response(url, message, true)];

    let mut headless = message("200 OK", None, "[]");
    headless.head = None;
    assert!(matches!(
        read_comments(&with(headless)),
        Err(Error::InvalidResponse { url: found }) if found == url
    ));
    let mut undecoded = message("200 OK", None, "[]");
    undecoded.entity = Err("a bad chunk".to_owned());
    assert!(matches!(
        read_comments(&with(undecoded)),
        Err(Error::Payload { url: found, .. }) if found == url
    ));
    assert!(matches!(
        read_comments(&with(message("200 OK", None, "{}"))),
        Err(Error::Json { url: found, .. }) if found == url
    ));
    assert!(matches!(
        read_comments(&with(message("200 OK", None, "[{}]"))),
        Err(Error::MissingId { url: found, .. }) if found == url
    ));
    assert!(matches!(
        find_comment_update_anchor(&Vec::new()),
        Err(Error::MissingUpdateUrl)
    ));
    let undated = vec![response(
        "https://example.com/wp-json/wp/v2/comments",
        message("200 OK", None, "[]"),
        true,
    )];
    assert!(matches!(
        find_comment_update_anchor(&undated),
        Err(Error::MissingUpdateDatetime)
    ));
}

#[test]
fn missing_pages_are_listed_up_to_a_limit() {
    let coverage = CommentCompleteness {
        total_pages: Some(5),
        advertised_page_totals: vec![5],
        captured_pages: vec![2, 4],
    };
    assert_eq!(coverage.missing_pages(), [1, 3, 5]);
    assert_eq!(coverage.first_missing_pages(2), [1, 3]);
    assert_eq!(coverage.missing_page_count(), Some(3));
    assert!(CommentCompleteness::none().missing_pages().is_empty());
}

#[test]
fn zeros_of_either_sign_are_one_object() {
    let url = "https://example.com/wp-json/wp/v2/comments";
    let zero = r#"[{"id":7,"score":0.0}]"#;
    let negative = r#"[{"id":8},{"id":7,"score":-0.0}]"#;
    let quoted = r#"[{"id":7,"score":"-0.0"}]"#;
    let result = read_comments(&fixture(&[
        (url, "200 OK", zero),
        (url, "200 OK", negative),
        (url, "200 OK", quoted),
    ]))
    .expect("comments");

    assert_eq!(
        result.comments,
        [
            ArchivedComment {
                id: 7,
                json: r#"{"id":7,"score":0.0}"#.to_owned(),
            },
            ArchivedComment {
                id: 8,
                json: r#"{"id":8}"#.to_owned(),
            },
        ]
    );
    assert_eq!(
        result.warnings,
        [CommentConflict {
            id: 7,
            first: r#"{"id":7,"score":0.0}"#.to_owned(),
            second: r#"{"id":7,"score":"-0.0"}"#.to_owned(),
        }]
    );
}

#[test]
fn json_errors_keep_their_words() {
    let url = "https://example.com/wp-json/wp/v2/comments";
    let Err(Error::Json { url: found, source }) = read_comments(&fixture(&[(url, "200 OK", "[1,")]))
    else {
        panic!("an unreadable body");
    };

    assert_eq!(found, url);
    assert_eq!(source, "EOF while parsing a value at line 1 column 3");
}

#[test]
fn missing_pages_need_only_sorted_captures() {
    let coverage = CommentCompleteness {
        total_pages: Some(4),
        advertised_page_totals: vec![4],
        captured_pages: vec![0, 2, 2, 9],
    };
    assert_eq!(coverage.missing_pages(), [1, 3, 4]);
    assert_eq!(coverage.first_missing_pages(1), [1]);
}

#[test]
fn errors_about_responses_are_told_apart() {
    let url = "https://example.com/wp-json/wp/v2/comments".to_owned();

    assert!(Error::InvalidResponse { url: url.clone() }.is_about_a_response());
    assert!(Error::MissingId { url }.is_about_a_response());
    assert!(!Error::MissingUpdateUrl.is_about_a_response());
    assert!(!Error::MultipleCommentCollections(2).is_about_a_response());
}
