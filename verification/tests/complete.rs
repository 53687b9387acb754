use std::collections::BTreeMap;

use wordpress_archive::complete::{
    completion_via, completion_via_urls, find_paging_url, is_compressed, is_copied, partial_path,
    plan_completion, retarget, set_content_length, warcinfo_id, CommentCompletionSummary,
    CompletionPlan, Error, FirstRecord, Header, PagingUrl, RequestDelay,
};
use wordpress_archive::evidence::{Message, Record, ResponseHead};
use wordpress_archive::read;
use wordpress_archive::session::{CaptureHead, Payload};

/// A JSON response of the comments collection.
fn response(url: &str, total_pages: Option<&str>, body: &str) -> Record {
    Record::Response {
        id: "urn:test:response".to_owned(),
        concurrent_to: Vec::new(),
        url: url.to_owned(),
        message: Message {
            head: Some(ResponseHead {
                status: 200,
                total: None,
                total_pages: total_pages.map(|total| total.as_bytes().to_vec()),
                location: None,
                mitigated: None,
                links: Vec::new(),
            }),
            capture: Some(CaptureHead {
                status: 200,
                total: None,
                total_pages: total_pages.map(str::to_owned),
                mitigated: None,
            }),
            entity: Ok(Payload {
                bytes: body.as_bytes().to_vec(),
                registry: Err("not a registry".to_owned()),
                error_code: None,
                comments: None,
            }),
        },
        truncation: None,
        identified_json: true,
    }
}

fn header(name: &str, value: &str) -> Header {
    Header {
        name: name.to_owned(),
        value: value.as_bytes().to_vec(),
    }
}

fn first_record(record_type: &str, record_id: Option<&str>) -> Option<FirstRecord> {
    Some(FirstRecord {
        record_type: Some(record_type.as_bytes().to_vec()),
        record_id: record_id.map(|id| id.as_bytes().to_vec()),
    })
}

#[test]
fn explicit_page_replacement_preserves_every_surrounding_byte() {
    let url = "https://example.com/wp-json/wp/v2/comments?before=2026-08-20T00%3A00%3A00Z&orderby=id&page=003&per_page=100#part";
    let paging = PagingUrl::explicit(url).expect("an explicit page parameter");

    assert_eq!(
        paging.url(12),
        "https://example.com/wp-json/wp/v2/comments?before=2026-08-20T00%3A00%3A00Z&orderby=id&page=12&per_page=100#part"
    );
}

#[test]
fn page_one_without_a_parameter_gets_one_without_reencoding() {
    let paging = PagingUrl::from_implicit_first_page(
        "https://example.com/wp-json/wp/v2/comments?before=a%2Fb&order=asc#part",
    );

    assert_eq!(
        paging.url(2),
        "https://example.com/wp-json/wp/v2/comments?before=a%2Fb&order=asc&page=2#part"
    );
}

#[test]
fn a_url_without_a_query_gets_one() {
    let paging = PagingUrl::from_implicit_first_page("https://example.com/comments");
    assert_eq!(paging.url(2), "https://example.com/comments?page=2");

    let paging = PagingUrl::from_implicit_first_page("https://example.com/comments?");
    assert_eq!(paging.url(2), "https://example.com/comments?page=2");
}

#[test]
fn a_page_parameter_is_a_whole_name_in_the_query() {
    assert!(PagingUrl::explicit("https://example.com/comments?per_page=100").is_none());
    assert!(PagingUrl::explicit("https://example.com/comments#page=2").is_none());
    assert!(PagingUrl::explicit("https://example.com/page=2").is_none());
}

#[test]
fn completion_vias_skip_page_one_and_name_each_predecessor() {
    let paging = PagingUrl::explicit("https://example.com/comments?page=3")
        .expect("an explicit page parameter");

    assert_eq!(
        completion_via_urls(&paging, &vec![1, 2, 4])
            .into_iter()
            .collect::<BTreeMap<_, _>>(),
        BTreeMap::from([
            (
                "https://example.com/comments?page=2".to_owned(),
                "https://example.com/comments?page=1".to_owned(),
            ),
            (
                "https://example.com/comments?page=4".to_owned(),
                "https://example.com/comments?page=3".to_owned(),
            ),
        ])
    );
}

#[test]
fn completion_partial_is_staged_beside_the_output() {
    let output = std::path::Path::new("archive/comments.warc.gz");
    let partial = partial_path("archive/comments.warc.gz");
    let partial = std::path::Path::new(&partial);

    assert_eq!(
        partial,
        std::path::Path::new("archive/comments.warc.gz.partial")
    );
    assert_eq!(partial.parent(), output.parent());
}

#[test]
fn completion_compression_follows_the_output_filename() {
    for (name, expected_gzip) in [("output.warc", false), ("output.warc.gz", true)] {
        assert_eq!(is_compressed(name), expected_gzip, "{name}");
    }
}

#[test]
fn completion_waits_between_request_starts() {
    let mut delay = RequestDelay::new();

    assert!(!delay.before(true));
    assert!(delay.before(true));
    assert!(!delay.before(false));
    assert!(delay.before(true));
}

#[test]
fn an_event_before_the_first_request_is_not_waited_after() {
    let mut delay = RequestDelay::new();

    assert!(!delay.before(false));
    assert!(!delay.before(true));
}

#[test]
fn output_replaces_generated_warcinfo_with_the_source_record() {
    let source = first_record(" warcinfo", Some(" <urn:uuid:source> "));
    let source_id = warcinfo_id(&source).expect("the source's warcinfo");
    assert_eq!(source_id, b"<urn:uuid:source>");

    assert!(!is_copied(&Some(b" warcinfo".to_vec())));
    assert!(!is_copied(&Some(b"WARCINFO".to_vec())));
    assert!(is_copied(&Some(b" response".to_vec())));
    assert!(is_copied(&None));

    let mut headers = vec![
        header("WARC-Type", " response"),
        header("warc-warcinfo-id", " <urn:uuid:generated>"),
        header("WARC-Warcinfo-ID", " <urn:uuid:generated>"),
    ];
    retarget(&mut headers, &source_id);
    let ids: Vec<&Header> = headers
        .iter()
        .filter(|header| header.name.eq_ignore_ascii_case("WARC-Warcinfo-ID"))
        .collect();
    assert_eq!(ids.len(), 2);
    assert!(ids.iter().all(|id| id.value == b" <urn:uuid:source>"));
    assert!(headers.contains(&header("WARC-Type", " response")));

    let via_urls = vec![(
        "https://example.com/page=2".to_owned(),
        "https://example.com/page=1".to_owned(),
    )];
    assert_eq!(
        completion_via(
            &Some(b" metadata".to_vec()),
            &Some(b" https://example.com/page=2".to_vec()),
            &via_urls,
        ),
        Some("https://example.com/page=1")
    );
    assert_eq!(
        completion_via(
            &Some(b" response".to_vec()),
            &Some(b" https://example.com/page=2".to_vec()),
            &via_urls,
        ),
        None
    );
    assert_eq!(
        completion_via(
            &Some(b" metadata".to_vec()),
            &Some(b" https://example.com/page=1".to_vec()),
            &via_urls,
        ),
        None
    );
}

#[test]
fn a_rewritten_block_has_its_length() {
    let mut headers = vec![
        header("Content-Length", " 2"),
        header("content-length", " 3"),
        header("WARC-Type", " metadata"),
    ];
    set_content_length(&mut headers, 41);
    let lengths: Vec<&Header> = headers
        .iter()
        .filter(|header| header.name.eq_ignore_ascii_case("Content-Length"))
        .collect();
    assert_eq!(lengths.len(), 2);
    assert!(lengths.iter().all(|length| length.value == b" 41"));
    assert!(headers.contains(&header("WARC-Type", " metadata")));
}

#[test]
fn completion_reuses_the_exact_url_and_original_warcinfo() {
    let page = |page: usize| {
        format!(
            "http://127.0.0.1:8080/wp-json/wp/v2/comments?\
             before=a%2Fb&orderby=id&page={page}&per_page=100"
        )
    };
    let records = vec![
        response(&page(1), Some("3"), "[]"),
        response(&page(3), Some("3"), "[]"),
    ];
    let plan = plan_completion(
        &records,
        &first_record("warcinfo", Some("<urn:uuid:original>")),
    )
    .expect("a plan");

    assert_eq!(plan.warcinfo_id, b"<urn:uuid:original>");
    assert_eq!(plan.missing_pages, [2]);
    assert_eq!(plan.requested_urls, [page(2)]);
    assert_eq!(plan.via_urls, [(page(2), page(1))]);

    let summary = CommentCompletionSummary::new(plan, Some(true), &vec![2]);
    assert_eq!(summary.missing_pages, [2]);
    assert_eq!(summary.requested_urls, [page(2)]);
    assert!(summary.uncaptured_pages.is_empty());
    assert!(summary.is_complete());
}

#[test]
fn a_complete_archive_asks_for_nothing() {
    let url = "https://example.com/wp-json/wp/v2/comments?page=1";
    let plan = plan_completion(
        &vec![response(url, Some("1"), "[]")],
        &first_record("warcinfo", Some("<urn:uuid:original>")),
    )
    .expect("a plan");
    assert!(plan.missing_pages.is_empty());
    assert!(plan.requested_urls.is_empty());
    assert!(CommentCompletionSummary::new(plan, None, &Vec::new()).is_complete());
}

#[test]
fn a_page_that_was_not_captured_leaves_the_archive_incomplete() {
    let plan = || CompletionPlan {
        warcinfo_id: Vec::new(),
        missing_pages: vec![2, 3],
        requested_urls: vec!["two".to_owned(), "three".to_owned()],
        via_urls: Vec::new(),
    };
    let summary = CommentCompletionSummary::new(plan(), Some(true), &vec![3]);
    assert_eq!(summary.uncaptured_pages, [2]);
    assert!(!summary.is_complete());
    assert!(!CommentCompletionSummary::new(plan(), Some(false), &vec![2, 3]).is_complete());
}

#[test]
fn completion_errors_say_what_is_missing() {
    let url = "https://example.com/wp-json/wp/v2/comments?page=1";
    let incomplete = || vec![response(url, Some("2"), "[]")];
    let warcinfo = || first_record("warcinfo", Some("<urn:uuid:original>"));

    assert_eq!(warcinfo_id(&None), Err(Error::MissingWarcinfo));
    assert_eq!(
        warcinfo_id(&first_record("response", Some("<urn:uuid:original>"))),
        Err(Error::MissingWarcinfo)
    );
    assert_eq!(
        warcinfo_id(&first_record("warcinfo", None)),
        Err(Error::MissingWarcinfoId)
    );
    assert!(matches!(
        plan_completion(&incomplete(), &None),
        Err(Error::MissingWarcinfo)
    ));
    assert!(matches!(
        plan_completion(&vec![response(url, None, "[]")], &warcinfo()),
        Err(Error::MissingPageTotal)
    ));
    let other = "https://other.example/wp-json/wp/v2/comments?page=1";
    assert!(matches!(
        plan_completion(
            &vec![response(url, Some("2"), "[]"), response(other, Some("2"), "[]")],
            &warcinfo()
        ),
        Err(Error::ReadComments(read::Error::MultipleCommentCollections(2)))
    ));
    assert!(matches!(plan_completion(&incomplete(), &warcinfo()), Ok(_)));
}

#[test]
fn the_paging_url_is_found_among_the_comments() {
    let explicit = "https://example.com/wp-json/wp/v2/comments?page=7&order=asc";
    let implicit = "https://example.com/wp-json/wp/v2/comments?order=asc";
    let found = find_paging_url(&vec![response(explicit, None, "[]")]).expect("a paging URL");
    assert_eq!(
        found.url(2),
        "https://example.com/wp-json/wp/v2/comments?page=2&order=asc"
    );
    let found = find_paging_url(&vec![response(implicit, None, "[]")]).expect("a paging URL");
    assert_eq!(
        found.url(2),
        "https://example.com/wp-json/wp/v2/comments?order=asc&page=2"
    );
    assert!(find_paging_url(&vec![response("https://example.com/feed", None, "[]")]).is_none());
}

#[test]
fn pages_of_an_explicit_url_are_paged_alike() {
    let url = "https://example.com/wp-json/wp/v2/comments?order=asc&page=007&per_page=100#top";
    let paging = PagingUrl::explicit(url).expect("a paged URL");
    let twelfth = paging.url(12);

    assert_eq!(
        twelfth,
        "https://example.com/wp-json/wp/v2/comments?order=asc&page=12&per_page=100#top"
    );

    let again = PagingUrl::explicit(&twelfth).expect("a paged URL");

    assert_eq!(again.url(3), paging.url(3));
}
