use wordpress_archive::archive::{
    ArchiveDriver, Checkpoint, PaginationProgress, ProbeResult, Resumption, Site, SiteError,
};
use wordpress_archive::clock::{parse_rfc3339, Timestamp};
use wordpress_archive::endpoint::{
    Collection, Endpoint, EndpointType, EndpointTypeLink, EndpointTypeLinks, Registry,
    ROOT_ENDPOINTS,
};
use wordpress_archive::session::{Capture, CaptureHead, Inspection, Payload, Request};

const BEFORE: &str = "2026-08-20T00:00:00Z";
const OK: &str = "HTTP/1.1 200 OK\r\n\r\n";
const NOT_FOUND: &str = "HTTP/1.1 404 Not Found\r\n\r\n";
const FORBIDDEN: &str = "HTTP/1.1 403 Forbidden\r\n\r\n";
const ONE_PAGE: &str = "HTTP/1.1 200 OK\r\nX-WP-Total: 3\r\nX-WP-TotalPages: 1\r\n\r\n";
const TWO_PAGES: &str = "HTTP/1.1 200 OK\r\nX-WP-Total: 101\r\nX-WP-TotalPages: 2\r\n\r\n";
const THREE_PAGES: &str = "HTTP/1.1 200 OK\r\nX-WP-Total: 201\r\nX-WP-TotalPages: 3\r\n\r\n";
const EIGHT_PAGES: &str = "HTTP/1.1 200 OK\r\nX-WP-TotalPages: 8\r\n\r\n";
const NO_PAGES: &str = "HTTP/1.1 200 OK\r\nX-WP-Total: 0\r\nX-WP-TotalPages: 0\r\n\r\n";
const BAD_REQUEST: &str = "HTTP/1.1 400 Bad Request\r\n\r\n";
const NOT_MODIFIED: &str = "HTTP/1.1 304 Not Modified\r\n\r\n";
const TYPES_URL: &str = "https://example.com/blog/wp-json/wp/v2/types";
const TAXONOMIES_URL: &str = "https://example.com/blog/wp-json/wp/v2/taxonomies";

fn before() -> Timestamp {
    parse_rfc3339(BEFORE).expect("a test timestamp")
}

fn site() -> Site {
    Site::parse("example.com/blog").expect("a site")
}

fn endpoint_url(endpoint: &str) -> String {
    format!("https://example.com/blog/wp-json/wp/v2/{endpoint}")
}

fn page_url(endpoint: &str, page: usize) -> String {
    format!(
        "{}?before={BEFORE}&orderby=id&order=asc&page={page}&per_page=100",
        endpoint_url(endpoint)
    )
}

/// The request for `page` of an endpoint, via the page before it or `via` for page one.
fn page_request(endpoint: &str, page: usize, via: &str) -> Request {
    let via = if page > 1 {
        page_url(endpoint, page - 1)
    } else {
        via.to_owned()
    };

    Request::extra(page_url(endpoint, page), via)
}

fn seed(url: &str) -> Request {
    Request::seed(url.to_owned())
}

fn extra(url: &str, via: &str) -> Request {
    Request::extra(url.to_owned(), via.to_owned())
}

fn custom(name: &str, registry: Registry) -> Collection {
    Collection::Custom {
        name: name.to_owned(),
        registry,
    }
}

fn resumption(
    endpoint: impl Into<Collection>,
    last_page: usize,
    total_pages: Option<usize>,
) -> Resumption {
    Resumption {
        endpoint: endpoint.into(),
        last_page,
        total_pages,
    }
}

fn resume(
    endpoint: impl Into<Collection>,
    last_page: usize,
    total_pages: Option<usize>,
) -> Checkpoint {
    Checkpoint::Resume(resumption(endpoint, last_page, total_pages))
}

fn probe(
    collection: impl Into<Collection>,
    status: u16,
    total_pages: Option<usize>,
) -> ProbeResult {
    ProbeResult {
        collection: collection.into(),
        status,
        total_pages,
    }
}

/// The status and headers of a response message.
fn head(response: &str) -> CaptureHead {
    let header = |name: &str| {
        response.lines().find_map(|line| {
            let (found, value) = line.split_once(':')?;
            found
                .eq_ignore_ascii_case(name)
                .then_some(value.trim().to_owned())
        })
    };
    CaptureHead {
        status: response[9..12].parse().expect("a status"),
        total: header("x-wp-total"),
        total_pages: header("x-wp-totalpages"),
        mitigated: header("cf-mitigated"),
    }
}

/// The payload `{}`.
fn empty() -> Payload {
    Payload {
        bytes: b"{}".to_vec(),
        registry: Ok(Vec::new()),
        error_code: None,
        comments: None,
    }
}

/// A registry response listing `entries` as `wp/v2` types or taxonomies.
fn registry(entries: &[&str]) -> Payload {
    Payload {
        bytes: Vec::new(),
        registry: Ok(entries
            .iter()
            .map(|entry| EndpointType {
                name: String::new(),
                description: String::new(),
                hierarchical: false,
                slug: (*entry).to_owned(),
                rest_base: (*entry).to_owned(),
                rest_namespace: Some("wp/v2".to_owned()),
                taxonomies: None,
                types: None,
                links: EndpointTypeLinks {
                    wp_items: vec![EndpointTypeLink {
                        href: "https://example.com/x".to_owned(),
                    }],
                },
            })
            .collect()),
        error_code: None,
        comments: None,
    }
}

fn inspect(driver: &mut ArchiveDriver, url: &str, response: &str) -> Inspection {
    inspect_payload(driver, url, &empty(), response)
}

fn inspect_payload(
    driver: &mut ArchiveDriver,
    url: &str,
    payload: &Payload,
    response: &str,
) -> Inspection {
    driver.inspect(&Capture {
        url,
        head: &head(response),
        payload,
    })
}

/// Request and answer every root resource, checking that each is requested as a seed.
fn capture_roots(driver: &mut ArchiveDriver) {
    capture_roots_with(driver, &empty(), &empty());
}

/// Like [`capture_roots`], answering the type and taxonomy registries with `types` and
/// `taxonomies`.
fn capture_roots_with(driver: &mut ArchiveDriver, types: &Payload, taxonomies: &Payload) {
    for root in ROOT_ENDPOINTS {
        let url = format!("https://example.com/blog/{root}");
        let other = empty();
        let payload = match url.as_str() {
            TYPES_URL => types,
            TAXONOMIES_URL => taxonomies,
            _ => &other,
        };
        assert_eq!(driver.next(), Some(seed(&url)));
        assert_eq!(
            inspect_payload(driver, &url, payload, OK),
            Inspection::default()
        );
    }
}

/// Answer every supported endpoint's probe with `responses` in endpoint order, checking that
/// each is a seed.
fn probe_all(driver: &mut ArchiveDriver, responses: [&str; 8]) {
    for (endpoint, response) in Endpoint::ALL.into_iter().zip(responses) {
        let url = endpoint_url(endpoint.name());
        assert_eq!(driver.next(), Some(seed(&url)));
        assert_eq!(inspect(driver, &url, response), Inspection::default());
    }
}

#[test]
fn a_site_is_a_host_with_an_optional_path() {
    let site = Site::parse("thefederalist.com/en/").expect("a site");
    assert_eq!(site.base(), "thefederalist.com/en");
    assert_eq!(site.root().href, "https://thefederalist.com/en/");
    assert_eq!(
        site.session_name(before()),
        "thefederalist.com-en-1787184000"
    );

    let bare = Site::parse("thefederalist.com").expect("a site");
    assert_eq!(bare.root().href, "https://thefederalist.com/");
    assert_eq!(bare.session_name(before()), "thefederalist.com-1787184000");

    let insecure = Site::parse("http://127.0.0.1:8080/").expect("a site");
    assert_eq!(insecure.base(), "http://127.0.0.1:8080");
    assert_eq!(insecure.root().href, "http://127.0.0.1:8080/");
    assert_eq!(insecure.session_name(before()), "127.0.0.1-8080-1787184000");

    assert_eq!(
        Site::parse("https://example.com/").expect("a site"),
        Site::parse("example.com").expect("a site")
    );
    assert!(Site::parse("").is_err());
    assert!(Site::parse("example.com/?page=1").is_err());
    assert!(Site::parse("example.com/#top").is_err());
}

#[test]
fn an_archive_requests_the_roots_and_every_probe_as_seeds() {
    let mut driver = ArchiveDriver::new(site(), before());

    assert_eq!(
        driver.next(),
        Some(seed("https://example.com/blog/wp-json"))
    );
    assert_eq!(driver.checkpoint(), Checkpoint::Initial);
    assert_eq!(driver.to_string(), "example.com/blog: probing pages");

    // Each request is repeated until its capture is inspected.
    assert_eq!(driver.next(), driver.next());
    capture_roots(&mut driver);
    assert_eq!(driver.checkpoint(), Checkpoint::Initial);
    assert_eq!(driver.next(), Some(seed(&endpoint_url("pages"))));
    probe_all(&mut driver, [NOT_FOUND; 8]);
    assert_eq!(driver.next(), None);
    assert_eq!(*driver.endpoints(), Endpoint::ALL.map(Collection::Known));
}

#[test]
fn an_archive_uses_its_configured_page_size() {
    let mut driver = ArchiveDriver::new(site(), before()).with_per_page(20);
    capture_roots(&mut driver);
    probe_all(
        &mut driver,
        [
            OK, NOT_FOUND, NOT_FOUND, NOT_FOUND, NOT_FOUND, NOT_FOUND, NOT_FOUND, NOT_FOUND,
        ],
    );

    let request = driver.next().expect("the first collection page");
    assert!(request.url.ends_with("&page=1&per_page=20"));
}

#[test]
fn an_endpoint_page_size_overrides_the_default() {
    let mut driver = ArchiveDriver::new(site(), before())
        .with_per_page(20)
        .with_per_page_for("media".to_owned(), 2);
    capture_roots(&mut driver);
    probe_all(
        &mut driver,
        [
            OK, NOT_FOUND, OK, NOT_FOUND, NOT_FOUND, NOT_FOUND, NOT_FOUND, NOT_FOUND,
        ],
    );

    let pages = driver.next().expect("the pages collection page");
    assert!(pages.url.ends_with("&page=1&per_page=20"));
    inspect(&mut driver, &pages.url, ONE_PAGE);

    let media = driver.next().expect("the media collection page");
    assert!(media.url.ends_with("&page=1&per_page=2"));
}

#[test]
fn a_custom_endpoint_can_have_its_own_page_size() {
    let mut driver =
        ArchiveDriver::new(site(), before()).with_per_page_for("plugin-items".to_owned(), 5);
    capture_roots_with(&mut driver, &registry(&["plugin-items"]), &empty());
    probe_all(&mut driver, [NOT_FOUND; 8]);

    let probe = endpoint_url("plugin-items");
    assert_eq!(driver.next(), Some(extra(&probe, TYPES_URL)));
    let _ = inspect(&mut driver, &probe, ONE_PAGE);

    let request = driver.next().expect("the custom collection page");
    assert!(request.url.ends_with("&page=1&per_page=5"));
}

#[test]
fn exposed_collections_are_paged_in_order_after_the_last_probe() {
    let mut driver = ArchiveDriver::new(site(), before());
    capture_roots(&mut driver);

    probe_all(
        &mut driver,
        [
            OK, NOT_FOUND, NOT_FOUND, OK, NOT_FOUND, OK, FORBIDDEN, NOT_FOUND,
        ],
    );

    let pages_probe = endpoint_url("pages");
    assert_eq!(driver.next(), Some(page_request("pages", 1, &pages_probe)));
    assert_eq!(
        *driver.probed(),
        [
            (Endpoint::Pages.into(), 200),
            (Endpoint::Posts.into(), 404),
            (Endpoint::Media.into(), 404),
            (Endpoint::Comments.into(), 200),
            (Endpoint::Users.into(), 404),
            (Endpoint::Categories.into(), 200),
            (Endpoint::Tags.into(), 403),
            (Endpoint::Navigation.into(), 404),
        ]
    );
    assert_eq!(driver.checkpoint(), resume(Endpoint::Pages, 0, None));

    // Pages are captured without titles.
    let first = inspect(&mut driver, &page_url("pages", 1), TWO_PAGES);
    assert_eq!(first, Inspection::default());
    assert_eq!(driver.next(), Some(page_request("pages", 2, "")));
    assert_eq!(driver.to_string(), "example.com/blog: pages page 1 of 2");

    // The greatest advertised page count decides where the collection ends.
    let _ = inspect(&mut driver, &page_url("pages", 2), THREE_PAGES);
    assert_eq!(driver.next(), Some(page_request("pages", 3, "")));
    let third = inspect(&mut driver, &page_url("pages", 3), TWO_PAGES);
    assert_eq!(third, Inspection::default());

    for (endpoint, response) in [("comments", NO_PAGES), ("categories", ONE_PAGE)] {
        assert_eq!(
            driver.next(),
            Some(page_request(endpoint, 1, &endpoint_url(endpoint)))
        );
        let only = inspect(&mut driver, &page_url(endpoint, 1), response);
        assert_eq!(only, Inspection::default());
    }
    assert_eq!(driver.next(), None);
    assert_eq!(driver.checkpoint(), Checkpoint::Finished);
    assert_eq!(driver.to_string(), "example.com/blog: finished");
}

#[test]
fn pagination_progress_uses_probe_totals_and_tracks_each_collection() {
    let mut driver = ArchiveDriver::new(site(), before());
    capture_roots(&mut driver);
    probe_all(
        &mut driver,
        [
            TWO_PAGES, NOT_FOUND, NOT_FOUND, ONE_PAGE, NOT_FOUND, NOT_FOUND, NOT_FOUND, NOT_FOUND,
        ],
    );

    assert!(driver.probes_finished());
    assert_eq!(
        driver.pagination_progress(),
        [
            PaginationProgress {
                collection: Endpoint::Pages.into(),
                page: 0,
                total_pages: 2,
            },
            PaginationProgress {
                collection: Endpoint::Comments.into(),
                page: 0,
                total_pages: 1,
            },
        ]
    );

    let _ = inspect(&mut driver, &page_url("pages", 1), TWO_PAGES);
    assert_eq!(driver.pagination_progress()[0].page, 1);
    let _ = inspect(&mut driver, &page_url("pages", 2), TWO_PAGES);
    assert_eq!(
        driver.pagination_progress()[0],
        PaginationProgress {
            collection: Endpoint::Pages.into(),
            page: 2,
            total_pages: 2,
        }
    );
    assert_eq!(driver.pagination_progress()[1].page, 0);
}

#[test]
fn a_resumed_series_reports_its_checkpoint_as_pagination_progress() {
    let driver = ArchiveDriver::resume(
        site(),
        before(),
        resumption(Endpoint::Comments, 7, Some(8)),
        Vec::new(),
    );

    assert_eq!(
        driver.pagination_progress(),
        [PaginationProgress {
            collection: Endpoint::Comments.into(),
            page: 7,
            total_pages: 8,
        }]
    );
}

#[test]
fn registries_advertise_custom_endpoints_probed_via_them() {
    let mut driver = ArchiveDriver::new(site(), before());
    // Supported entries are skipped; enumerated exclusions are temporarily kept, and repeats
    // retain their first registry.
    capture_roots_with(
        &mut driver,
        &registry(&["posts", "videos", "templates", "product"]),
        &registry(&["categories", "videos", "series"]),
    );
    let videos = custom("videos", Registry::Types);
    let product = custom("product", Registry::Types);
    let series = custom("series", Registry::Taxonomies);
    assert_eq!(
        driver.endpoints()[8..],
        [
            videos.clone(),
            custom("templates", Registry::Types),
            product,
            series
        ]
    );

    probe_all(&mut driver, [NOT_FOUND; 8]);
    assert_eq!(driver.to_string(), "example.com/blog: probing videos");
    let videos_probe = endpoint_url("videos");
    assert_eq!(driver.next(), Some(extra(&videos_probe, TYPES_URL)));
    assert_eq!(driver.checkpoint(), Checkpoint::Initial);
    let _ = inspect(&mut driver, &videos_probe, OK);
    assert_eq!(
        driver.next(),
        Some(extra(&endpoint_url("templates"), TYPES_URL))
    );
    let _ = inspect(&mut driver, &endpoint_url("templates"), NOT_FOUND);
    assert_eq!(
        driver.next(),
        Some(extra(&endpoint_url("product"), TYPES_URL))
    );
    let _ = inspect(&mut driver, &endpoint_url("product"), NOT_FOUND);
    assert_eq!(
        driver.next(),
        Some(extra(&endpoint_url("series"), TAXONOMIES_URL))
    );
    let _ = inspect(&mut driver, &endpoint_url("series"), FORBIDDEN);

    assert_eq!(
        driver.next(),
        Some(page_request("videos", 1, &videos_probe))
    );
    assert_eq!(driver.checkpoint(), resume(videos, 0, None));
    assert_eq!(driver.probed()[8], (custom("videos", Registry::Types), 200));
}

#[test]
fn an_unreadable_registry_stops_the_run() {
    let mut driver = ArchiveDriver::new(site(), before());
    for root in &ROOT_ENDPOINTS[..2] {
        let url = format!("https://example.com/blog/{root}");
        let _ = inspect(&mut driver, &url, OK);
    }

    let array = Payload {
        bytes: b"[]".to_vec(),
        registry: Err("invalid type: sequence, expected a map".to_owned()),
        error_code: None,
        comments: Some(Vec::new()),
    };
    let unreadable = inspect_payload(&mut driver, TYPES_URL, &array, OK);

    assert!(unreadable
        .error
        .is_some_and(|error| error.starts_with("unreadable wp-json/wp/v2/types response")));
    assert_eq!(driver.checkpoint(), Checkpoint::Initial);
}

#[test]
fn a_conditional_registry_response_advertises_nothing() {
    let mut driver = ArchiveDriver::new(site(), before());
    for root in &ROOT_ENDPOINTS[..2] {
        let url = format!("https://example.com/blog/{root}");
        let _ = inspect(&mut driver, &url, OK);
    }

    let nothing = Payload {
        bytes: Vec::new(),
        registry: Err("EOF while parsing a value".to_owned()),
        error_code: None,
        comments: None,
    };
    let unchanged = inspect_payload(&mut driver, TYPES_URL, &nothing, NOT_MODIFIED);

    assert_eq!(unchanged, Inspection::default());
    assert_eq!(driver.endpoints().len(), Endpoint::ALL.len());
}

#[test]
fn no_exposed_collection_finishes_an_archive() {
    let mut driver = ArchiveDriver::new(site(), before());
    capture_roots(&mut driver);

    probe_all(&mut driver, [NOT_FOUND; 8]);

    assert_eq!(driver.next(), None);
    assert_eq!(driver.checkpoint(), Checkpoint::Finished);
}

#[test]
fn a_resumed_run_continues_the_endpoint_and_probes_the_rest() {
    let mut driver = ArchiveDriver::resume(
        site(),
        before(),
        resumption(Endpoint::Comments, 7, Some(8)),
        Vec::new(),
    );

    assert_eq!(driver.next(), Some(page_request("comments", 8, "")));
    assert_eq!(driver.checkpoint(), resume(Endpoint::Comments, 7, Some(8)));

    let _ = inspect(&mut driver, &page_url("comments", 8), EIGHT_PAGES);

    // An endpoint found exposed is paged only after the remaining probes, so a run stopped
    // during those probes resumes by probing it again.
    let users_probe = endpoint_url("users");
    assert_eq!(driver.next(), Some(seed(&users_probe)));
    let _ = inspect(&mut driver, &users_probe, OK);
    assert_eq!(driver.checkpoint(), resume(Endpoint::Users, 0, None));
    for endpoint in [Endpoint::Categories, Endpoint::Tags, Endpoint::Navigation] {
        let probe = endpoint_url(endpoint.name());
        assert_eq!(driver.next(), Some(seed(&probe)));
        let _ = inspect(&mut driver, &probe, NOT_FOUND);
    }
    assert_eq!(driver.next(), Some(page_request("users", 1, &users_probe)));
}

#[test]
fn a_resumed_run_at_page_zero_probes_the_endpoint_itself() {
    let driver = ArchiveDriver::resume(
        site(),
        before(),
        resumption(Endpoint::Media, 0, None),
        Vec::new(),
    );

    assert_eq!(driver.next(), Some(seed(&endpoint_url("media"))));
    assert_eq!(driver.checkpoint(), resume(Endpoint::Media, 0, None));
}

#[test]
fn a_resumed_run_probes_the_listed_custom_endpoints_after_the_supported_ones() {
    let videos = custom("videos", Registry::Types);
    let series = custom("series", Registry::Taxonomies);
    let mut driver = ArchiveDriver::resume(
        site(),
        before(),
        resumption(Endpoint::Navigation, 0, None),
        vec![videos.clone(), series.clone()],
    );

    assert_eq!(driver.next(), Some(seed(&endpoint_url("navigation"))));
    let _ = inspect(&mut driver, &endpoint_url("navigation"), NOT_FOUND);
    assert_eq!(
        driver.next(),
        Some(extra(&endpoint_url("videos"), TYPES_URL))
    );
    assert_eq!(driver.checkpoint(), resume(videos, 0, None));
    let _ = inspect(&mut driver, &endpoint_url("videos"), NOT_FOUND);
    assert_eq!(
        driver.next(),
        Some(extra(&endpoint_url("series"), TAXONOMIES_URL))
    );
    let _ = inspect(&mut driver, &endpoint_url("series"), OK);
    assert_eq!(
        driver.next(),
        Some(page_request("series", 1, &endpoint_url("series")))
    );
    assert_eq!(driver.checkpoint(), resume(series, 0, None));
}

#[test]
fn a_resumed_custom_endpoint_continues_from_its_page() {
    let videos = custom("videos", Registry::Types);
    let driver = ArchiveDriver::resume(
        site(),
        before(),
        resumption(videos.clone(), 1, Some(2)),
        vec![videos.clone()],
    );

    assert_eq!(driver.next(), Some(page_request("videos", 2, "")));
    assert_eq!(driver.checkpoint(), resume(videos.clone(), 1, Some(2)));
    assert_eq!(driver.to_string(), "example.com/blog: videos page 1 of 2");

    // An endpoint missing from the list is archived after the listed ones.
    let unlisted = ArchiveDriver::resume(
        site(),
        before(),
        resumption(videos.clone(), 0, None),
        vec![custom("series", Registry::Taxonomies)],
    );
    assert_eq!(unlisted.endpoints()[9], videos);
    assert_eq!(unlisted.checkpoint(), resume(videos, 0, None));
}

#[test]
fn a_carried_page_count_makes_not_modified_responses_resumable() {
    let mut driver = ArchiveDriver::resume(
        site(),
        before(),
        resumption(Endpoint::Media, 0, Some(2)),
        Vec::new(),
    );
    let media_probe = endpoint_url("media");

    let _ = inspect(&mut driver, &media_probe, NOT_MODIFIED);
    assert_eq!(driver.checkpoint(), resume(Endpoint::Media, 0, Some(2)));
    for endpoint in [
        Endpoint::Comments,
        Endpoint::Users,
        Endpoint::Categories,
        Endpoint::Tags,
        Endpoint::Navigation,
    ] {
        let probe = endpoint_url(endpoint.name());
        assert_eq!(driver.next(), Some(seed(&probe)));
        let _ = inspect(&mut driver, &probe, NOT_FOUND);
    }
    assert_eq!(driver.next(), Some(page_request("media", 1, &media_probe)));

    let _ = inspect(&mut driver, &page_url("media", 1), NOT_MODIFIED);
    assert_eq!(driver.next(), Some(page_request("media", 2, "")));
    assert_eq!(driver.checkpoint(), resume(Endpoint::Media, 1, Some(2)));
}

#[test]
fn a_vanished_page_ends_the_collection() {
    let mut driver = ArchiveDriver::resume(
        site(),
        before(),
        resumption(Endpoint::Posts, 4, None),
        Vec::new(),
    );

    let invalid_page_error = Payload {
        bytes: br#"{"code": "rest_post_invalid_page_number", "message": "", "data": {"status": 400}}"#
            .to_vec(),
        registry: Err("invalid type: string".to_owned()),
        error_code: Some("rest_post_invalid_page_number".to_owned()),
        comments: None,
    };
    let gone = inspect_payload(
        &mut driver,
        &page_url("posts", 5),
        &invalid_page_error,
        BAD_REQUEST,
    );

    assert_eq!(gone, Inspection::default());
    assert_eq!(driver.next(), Some(seed(&endpoint_url("media"))));
}

#[test]
fn unexpected_page_responses_stop_the_run_at_the_last_good_page() {
    let mut driver = ArchiveDriver::resume(
        site(),
        before(),
        resumption(Endpoint::Posts, 4, None),
        Vec::new(),
    );
    let checkpoint = resume(Endpoint::Posts, 4, None);

    let forbidden = inspect(&mut driver, &page_url("posts", 5), FORBIDDEN);
    assert_eq!(
        forbidden.error.as_deref(),
        Some("unexpected WordPress response status 403 on posts page 5")
    );
    assert_eq!(driver.checkpoint(), checkpoint);

    let untotalled = inspect(&mut driver, &page_url("posts", 5), OK);
    assert_eq!(
        untotalled.error.as_deref(),
        Some("missing or invalid X-WP-TotalPages on posts page 5")
    );
    assert_eq!(driver.checkpoint(), checkpoint);

    let unexpected = inspect(&mut driver, &page_url("posts", 6), TWO_PAGES);
    assert!(unexpected.error.is_some());

    let challenge = inspect(
        &mut driver,
        &page_url("posts", 5),
        "HTTP/1.1 403 Forbidden\r\ncf-mitigated: challenge\r\n\r\n",
    );
    assert!(challenge
        .error
        .is_some_and(|error| error.contains("interactive browser challenge")));
}

#[test]
fn a_failed_capture_ends_the_requests_at_the_checkpoint() {
    let mut driver = ArchiveDriver::resume(
        site(),
        before(),
        resumption(Endpoint::Posts, 4, None),
        Vec::new(),
    );

    driver.failed();

    assert_eq!(driver.next(), None);
    assert_eq!(driver.checkpoint(), resume(Endpoint::Posts, 4, None));
}

#[test]
fn site_errors_name_the_base() {
    let invalid = Site::parse("").expect_err("an empty base");
    assert!(matches!(&invalid, SiteError::Url(base, _) if base.is_empty()));
    assert_eq!(
        invalid.to_string(),
        "site base \"\" is not a host with an optional path: empty host"
    );
    let query = Site::parse("example.com/?page=1").expect_err("a base with a query");
    assert!(matches!(&query, SiteError::QueryOrFragment(base) if base == "example.com/?page=1"));
    assert_ne!(query.to_string(), "example.com/?page=1");
    assert!(query.to_string().contains("example.com/?page=1"));
}

#[test]
fn a_site_differs_from_another_installation_on_its_host() {
    assert!(site().equals(&Site::parse("https://example.com/blog/").expect("a site")));
    assert!(!site().equals(&Site::parse("example.com").expect("a site")));
    assert!(!site().equals(&Site::parse("http://example.com/blog").expect("a site")));
}

#[test]
fn restored_probes_are_paged_without_being_probed_again() {
    let mut driver = ArchiveDriver::resume_with_probes(
        site(),
        before(),
        resumption(Endpoint::Pages, 1, Some(2)),
        vec![
            probe(Endpoint::Pages, 200, Some(2)),
            probe(Endpoint::Posts, 404, None),
            probe(Endpoint::Media, 200, Some(1)),
        ],
    );

    assert_eq!(driver.checkpoint(), resume(Endpoint::Pages, 1, Some(2)));
    assert_eq!(driver.next(), Some(page_request("pages", 2, "")));
    let _ = inspect(&mut driver, &page_url("pages", 2), TWO_PAGES);
    assert_eq!(
        driver.next(),
        Some(page_request("media", 1, &endpoint_url("media")))
    );
    let _ = inspect(&mut driver, &page_url("media", 1), ONE_PAGE);
    assert_eq!(driver.next(), None);
    assert_eq!(driver.checkpoint(), Checkpoint::Finished);
}

#[test]
fn a_page_count_never_shrinks() {
    let mut driver = ArchiveDriver::resume(
        site(),
        before(),
        resumption(Endpoint::Comments, 1, Some(3)),
        Vec::new(),
    );
    let _ = inspect(&mut driver, &page_url("comments", 2), TWO_PAGES);
    assert_eq!(driver.checkpoint(), resume(Endpoint::Comments, 2, Some(3)));
    assert_eq!(driver.next(), Some(page_request("comments", 3, "")));
}
