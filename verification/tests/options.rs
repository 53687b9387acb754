use wordpress_archive::archive::{ArchiveDriver, Site};
use wordpress_archive::clock::{parse_rfc3339, Timestamp};
use wordpress_archive::endpoint::{Collection, Endpoint};
use wordpress_archive::options::{
    parse_per_page, resume_command, shell_word, PerPageOptions, PerPageValue,
};

const BEFORE: &str = "2026-08-20T00:00:00Z";

fn before() -> Timestamp {
    parse_rfc3339(BEFORE).expect("a test timestamp")
}

fn settings(values: &[&str]) -> PerPageOptions {
    PerPageOptions {
        values: values
            .iter()
            .map(|value| parse_per_page(value).expect("a page-size setting"))
            .collect(),
    }
}

#[test]
fn a_session_is_printed_as_a_minimal_resume_command() {
    assert_eq!(
        resume_command(
            "archives",
            "example.com",
            None,
            None,
            None,
            &PerPageOptions::none(),
        ),
        "archivindex-wordpress-scraper resume-archive --output archives --session-name example.com"
    );

    let configured = settings(&["20", "media:2", "plugin-items:5"]);
    assert!(
        resume_command("archives", "example.com", None, None, None, &configured)
            .ends_with(" --per-page 20 --per-page media:2 --per-page plugin-items:5")
    );

    assert_eq!(
        resume_command(
            "archive output/it's here",
            "site's run",
            Some("capture files/site's.toml"),
            Some("state files/site.sqlite3"),
            Some(before()),
            &PerPageOptions::none(),
        ),
        "archivindex-wordpress-scraper resume-archive --output 'archive output/it'\"'\"'s here' \
         --session-name 'site'\"'\"'s run' --config 'capture files/site'\"'\"'s.toml' \
         --revisit-index 'state files/site.sqlite3' --before 2026-08-20T00:00:00Z"
    );
}

#[test]
fn page_sizes_are_read_for_all_endpoints_or_for_one() {
    assert_eq!(
        parse_per_page("20"),
        Ok(PerPageValue {
            endpoint: None,
            value: 20
        })
    );
    assert_eq!(
        parse_per_page("media:2"),
        Ok(PerPageValue {
            endpoint: Some("media".to_owned()),
            value: 2
        })
    );
    assert_eq!(
        parse_per_page(":2"),
        Err("endpoint name must be non-empty and contain no whitespace".to_owned())
    );
    assert_eq!(
        parse_per_page("a b:2"),
        Err("endpoint name must be non-empty and contain no whitespace".to_owned())
    );
    assert_eq!(
        parse_per_page("many"),
        Err("page size must be an integer from 1 through 100".to_owned())
    );
    assert_eq!(
        parse_per_page("0"),
        Err("page size must be from 1 through 100".to_owned())
    );
    assert_eq!(
        parse_per_page("media:101"),
        Err("page size must be from 1 through 100".to_owned())
    );
}

#[test]
fn later_page_sizes_take_precedence() {
    let options = settings(&["20", "posts:5", "media:2", "30", "media:3"]);
    assert_eq!(options.default_value(), 30);
    assert_eq!(
        options.endpoint_values(),
        [("media".to_owned(), 3), ("posts".to_owned(), 5)]
    );
    assert_eq!(PerPageOptions::none().default_value(), 100);

    let driver = options.configure(ArchiveDriver::new(
        Site::parse("example.com").expect("a site"),
        before(),
    ));
    assert_eq!(
        driver.per_page_for(&Collection::Known(Endpoint::Media)),
        3
    );
    assert_eq!(
        driver.per_page_for(&Collection::Known(Endpoint::Pages)),
        30
    );
}

#[test]
fn words_are_quoted_where_a_shell_would_read_them_otherwise() {
    assert_eq!(shell_word("plain-word_1./:"), "plain-word_1./:");
    assert_eq!(shell_word("two words"), "'two words'");
    assert_eq!(shell_word(""), "''");
    assert_eq!(shell_word("it's"), "'it'\"'\"'s'");
}
