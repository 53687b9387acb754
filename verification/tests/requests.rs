use wordpress_archive::archive::Site;
use wordpress_archive::clock::{parse_rfc3339, Timestamp};
use wordpress_archive::comments::{CommentDriver, Sweep, Traversal};
use wordpress_archive::lint::page_query;
use wordpress_archive::read::{comment_page, query_datetime};
use wordpress_archive::resume::cutoff;

const BEFORE: &str = "2026-08-20T00:00:00Z";
const AFTER: &str = "2026-08-01T12:30:00Z";

fn timestamp(text: &str) -> Timestamp {
    parse_rfc3339(text).expect("a test timestamp")
}

#[test]
fn archive_page_requests_are_recognized() {
    let site = Site::parse("example.com/blog").expect("a site");
    let url = site.page_url("posts", timestamp(BEFORE), 3, 50);

    assert_eq!(
        page_query(&url),
        (Some(3), true, Some(BEFORE.to_owned()))
    );
    assert!(cutoff(&url).is_some_and(|before| before.equals(&timestamp(BEFORE))));
}

#[test]
fn archive_page_requests_carry_whole_seconds() {
    let site = Site::parse("example.com").expect("a site");
    let before = timestamp("2026-08-20T00:00:00.75Z");
    let url = site.page_url("pages", before, 1, 100);

    assert!(cutoff(&url).is_some_and(|before| before.equals(&timestamp(BEFORE))));
    assert_eq!(page_query(&url), (Some(1), true, Some(BEFORE.to_owned())));
}

#[test]
fn bare_probe_requests_carry_no_cutoff() {
    let site = Site::parse("example.com").expect("a site");

    assert!(cutoff(&site.endpoint_url("posts")).is_none());
    assert_eq!(page_query(&site.endpoint_url("posts")), (None, false, None));
}

#[test]
fn encoded_queries_are_decoded() {
    let url = "https://example.com/wp-json/wp/v2/posts?before=2026-08-20T00%3A00%3A00Z";

    assert!(cutoff(url).is_some_and(|before| before.equals(&timestamp(BEFORE))));
}

#[test]
fn comment_page_requests_are_recognized() {
    let driver = CommentDriver::for_window(
        "https://example.com/",
        timestamp(AFTER),
        timestamp(BEFORE),
    )
    .expect("a driver");
    let url = driver.comment_url(4);

    assert_eq!(comment_page(&url), Some(4));
    assert!(query_datetime(&url).is_some_and(|before| before.equals(&timestamp(BEFORE))));
}

#[test]
fn only_an_active_sweep_can_be_changed() {
    let mut active = Traversal::Active(Sweep::first());
    active.active_sweep_mut().expect("an active sweep").page = 7;

    assert_eq!(active.sweep().page, 7);

    active.end(true);

    assert!(active.is_complete());
    assert!(active.active_sweep_mut().is_none());
}
