use wordpress_archive::archive::Site;
use wordpress_archive::complete::is_compressed;
use wordpress_archive::segment::{
    default_session_prefix, domain_inputs, file_name, find_latest_timestamp, has_warc_gzip_extension,
    is_timestamp_suffix, is_warc_file_name, next_segment_name, session_name_from_warc,
    session_warcs,
};

fn names(names: &[&str]) -> Vec<String> {
    names.iter().map(|name| (*name).to_owned()).collect()
}

#[test]
fn resume_info_derives_default_and_explicit_session_names() {
    assert_eq!(
        session_name_from_warc("archives/example.com-1788032113.warc").as_deref(),
        Some("example.com")
    );
    assert_eq!(
        session_name_from_warc("archives/example.com-1788032113~1788032999.warc.gz").as_deref(),
        Some("example.com")
    );
    assert_eq!(
        session_name_from_warc("archives/editorial~nightly.warc").as_deref(),
        Some("editorial~nightly")
    );
    assert_eq!(
        session_name_from_warc("archives/editorial~nightly~1788032999.warc",).as_deref(),
        Some("editorial~nightly")
    );
    assert_eq!(
        session_name_from_warc("archives/editorial-nightly-1788032999.warc").as_deref(),
        Some("editorial-nightly")
    );
    assert_eq!(
        session_name_from_warc("archives/campaign-2026.warc").as_deref(),
        Some("campaign-2026")
    );
}

#[test]
fn every_archive_segment_name_has_a_numeric_timestamp() {
    let name = next_segment_name(&Vec::new(), "editorial-nightly", 1_788_032_999);
    let timestamp = name
        .strip_prefix("editorial-nightly-")
        .expect("the session prefix");
    assert!(!timestamp.is_empty());
    assert!(timestamp.bytes().all(|byte| byte.is_ascii_digit()));
}

#[test]
fn archive_site_timestamps_an_explicit_session_name() {
    let segment = format!(
        "{}.warc",
        next_segment_name(&Vec::new(), "editorial-nightly", 1_788_032_999)
    );
    let files = session_warcs(&vec![segment], "editorial-nightly").expect("segments");
    assert_eq!(files.len(), 1);
    let timestamp = files[0]
        .strip_prefix("editorial-nightly-")
        .and_then(|name| name.strip_suffix(".warc"))
        .expect("a timestamped WARC filename");
    assert!(is_timestamp_suffix(timestamp));
}

#[test]
fn output_filename_controls_capture_compression() {
    assert!(is_compressed("comments.warc.gz"));
    assert!(!is_compressed("comments.warc"));
    assert!(is_compressed("comments.warc.GZ"));
}

#[test]
fn compression_goes_by_the_file_that_a_path_names() {
    assert!(!is_compressed("archives.gz/comments.warc"));
    assert!(is_compressed("archives/comments.gz/"));
    assert!(!is_compressed("archives/.gz"));
    assert!(!is_compressed(".."));
    assert!(has_warc_gzip_extension("comments.warc.GZ"));
    assert!(!has_warc_gzip_extension("comments.gz"));
    assert_eq!(file_name("a/b/./c.warc/").as_deref(), Some("c.warc"));
    assert_eq!(file_name("a/.."), None);
    assert_eq!(file_name("/"), None);
    assert_eq!(file_name("."), None);
    assert_eq!(file_name(""), None);
}

#[test]
fn combine_joins_plain_and_gzip_resume_segments_in_filename_order() {
    assert_eq!(
        domain_inputs(
            &names(&[
                "example.com-200.warc.gz",
                "example.com-100.warc",
                "other.example-150.warc",
            ]),
            "example.com"
        ),
        ["example.com-100.warc", "example.com-200.warc.gz"]
    );
}

#[test]
fn a_segment_is_named_after_every_earlier_one() {
    let earlier = names(&["run-100.warc", "run-300.warc.gz", "other-900.warc"]);
    assert_eq!(find_latest_timestamp(&earlier, "run"), Some(300));
    assert_eq!(next_segment_name(&earlier, "run", 200), "run-301");
    assert_eq!(next_segment_name(&earlier, "run", 300), "run-301");
    assert_eq!(next_segment_name(&earlier, "run", 301), "run-301");
    assert_eq!(next_segment_name(&earlier, "run", 400), "run-400");
    assert_eq!(find_latest_timestamp(&Vec::new(), "run"), None);
}

#[test]
fn a_segment_name_gives_back_its_session() {
    let name = next_segment_name(&Vec::new(), "site's run", 1_788_032_999);
    assert_eq!(
        session_name_from_warc(&format!("{name}.warc")).as_deref(),
        Some("site's run")
    );
}

#[test]
fn only_warcs_of_a_session_are_its_segments() {
    assert!(is_warc_file_name("a.warc"));
    assert!(is_warc_file_name("a.warc.gz"));
    assert!(!is_warc_file_name("a.data"));
    assert!(!is_warc_file_name("a.warc.zip"));
    assert_eq!(
        session_warcs(&names(&["run.data", "other-1.warc"]), "run"),
        None
    );
}

#[test]
fn a_site_names_its_sessions_after_its_address() {
    let site = Site::parse("https://example.com").expect("a site");
    assert_eq!(default_session_prefix(&site), "example.com");
    let site = Site::parse("https://example.com/blog").expect("a site");
    assert_eq!(default_session_prefix(&site), "example.com-blog");
}

#[test]
fn a_timestamp_suffix_is_long_and_numeric() {
    assert!(is_timestamp_suffix("1788032999"));
    assert!(!is_timestamp_suffix("2026"));
    assert!(!is_timestamp_suffix("178803299x"));
}
