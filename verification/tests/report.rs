use wordpress_archive::clock::parse_rfc3339;
use wordpress_archive::combine::{
    check_output, combined_inputs, describe_combination, CombineSummary, Error,
};
use wordpress_archive::complete::CommentCompletionSummary;
use wordpress_archive::lint::{Finding, LintReport, Severity};
use wordpress_archive::notice::{list_numbers, Level, Notice, Outcome};
use wordpress_archive::read::{
    CommentCollectionCompleteness, CommentCompleteness, CommentConflict, CommentReadResult,
    CommentUpdateAnchor,
};
use wordpress_archive::report::{
    describe_update, page_total_change_warning, report_check, report_completion, report_conflicts,
    report_lint,
};
use wordpress_archive::update::CommentUpdateInput;

fn coverage(total_pages: Option<usize>, captured_pages: &[usize]) -> CommentCompleteness {
    CommentCompleteness {
        total_pages,
        advertised_page_totals: total_pages.into_iter().collect(),
        captured_pages: captured_pages.to_vec(),
    }
}

fn collection(coverage: CommentCompleteness) -> CommentCollectionCompleteness {
    CommentCollectionCompleteness {
        endpoint: "https://example.com/wp-json/wp/v2/comments".to_owned(),
        coverage,
    }
}

fn notice(level: Level, message: &str) -> Notice {
    Notice {
        level,
        message: message.to_owned(),
    }
}

#[test]
fn changed_page_totals_report_successive_differences() {
    let coverage = CommentCompleteness {
        total_pages: Some(4),
        advertised_page_totals: vec![2, 4, 3],
        captured_pages: vec![1, 2, 3],
    };

    assert_eq!(
        page_total_change_warning(&coverage).as_deref(),
        Some(
            "X-WP-TotalPages changed over the WARC session (2 -> 4 -> 3); successive \
             differences: +2, -1"
        )
    );
}

#[test]
fn an_archive_without_comments_is_incomplete() {
    assert_eq!(
        report_check("a.warc", &Vec::new(), false),
        (
            vec![
                notice(
                    Level::Warning,
                    "a.warc has no qualifying WordPress comments capture"
                ),
                notice(Level::Printed, "a.warc is incomplete"),
            ],
            Outcome::ReportedProblems
        )
    );
}

#[test]
fn each_collection_is_reported_complete_or_not() {
    let endpoint = "https://example.com/wp-json/wp/v2/comments";
    let collections = vec![
        collection(coverage(Some(2), &[1, 2])),
        collection(coverage(None, &[1])),
        collection(coverage(Some(30), &[2])),
    ];
    let (notices, outcome) = report_check("a.warc", &collections, false);
    assert_eq!(outcome, Outcome::ReportedProblems);
    assert_eq!(
        notices,
        [
            notice(
                Level::Printed,
                &format!(
                    "a.warc is complete for {endpoint}: all 2 advertised comment pages were \
                     captured"
                )
            ),
            notice(
                Level::Warning,
                &format!(
                    "a.warc has no qualifying record with a valid X-WP-TotalPages header for \
                     {endpoint}"
                )
            ),
            notice(
                Level::Printed,
                &format!("a.warc is incomplete for {endpoint}")
            ),
            notice(
                Level::Warning,
                &format!(
                    "a.warc is missing qualifying records for 29 of 30 advertised pages for \
                     {endpoint}: 1, 3, 4, 5, 6, 7, 8, 9, 10, 11, 12, 13, 14, 15, 16, 17, 18, 19, \
                     20, 21 (and 9 more)"
                )
            ),
            notice(
                Level::Printed,
                &format!("a.warc is incomplete for {endpoint}")
            ),
        ]
    );
    assert_eq!(
        report_check(
            "a.warc",
            &vec![collection(coverage(Some(1), &[1]))],
            true
        ),
        (Vec::new(), Outcome::Success)
    );
}

#[test]
fn a_completion_says_how_many_pages_it_captured() {
    let summary = CommentCompletionSummary {
        missing_pages: vec![2, 3],
        requested_urls: vec!["two".to_owned(), "three".to_owned()],
        archive: Some(true),
        uncaptured_pages: vec![3],
    };
    let (notices, outcome) = report_completion(&summary, &None, "a.warc", "b.warc", false);
    assert_eq!(outcome, Outcome::ReportedProblems);
    assert!(notices.contains(&notice(
        Level::Printed,
        "Captured 1 of 2 missing comment pages to b.warc"
    )));

    let nothing = CommentCompletionSummary {
        missing_pages: Vec::new(),
        requested_urls: Vec::new(),
        archive: None,
        uncaptured_pages: Vec::new(),
    };
    assert_eq!(
        report_completion(&nothing, &None, "a.warc", "b.warc", false),
        (
            vec![notice(
                Level::Printed,
                "a.warc was already complete; wrote its warcinfo record to b.warc"
            )],
            Outcome::Success
        )
    );
}

#[test]
fn lint_findings_are_logged_by_severity() {
    let finding = |severity: Severity, message: &str| Finding {
        severity,
        rule: "rule".to_owned(),
        message: message.to_owned(),
        record: None,
        core: false,
    };
    let report = LintReport {
        findings: vec![
            finding(Severity::Error, "wrong"),
            finding(Severity::Warning, "odd"),
        ],
        core_lints_passed: 3,
        pagination: Vec::new(),
        roots: 1,
        known_probes: 0,
        custom_probes: 0,
    };
    let (notices, outcome) = report_lint("a.warc", &report, true);
    assert_eq!(outcome, Outcome::ReportedProblems);
    assert!(notices
        .iter()
        .any(|notice| notice.level == Level::Error && notice.message.contains("wrong")));
    assert!(notices
        .iter()
        .any(|notice| notice.level == Level::Warning && notice.message.contains("odd")));
}

#[test]
fn conflicts_are_reported_as_problems() {
    let result = CommentReadResult {
        comments: Vec::new(),
        warnings: vec![CommentConflict {
            id: 7,
            first: "{\"id\":7}".to_owned(),
            second: "{\"id\":7,\"a\":1}".to_owned(),
        }],
    };
    assert_eq!(
        report_conflicts(&result),
        (
            vec![notice(
                Level::Warning,
                "Conflicting objects for WordPress comment 7: {\"id\":7} != {\"id\":7,\"a\":1}"
            )],
            Outcome::ReportedProblems
        )
    );
}

#[test]
fn combinations_need_a_compressed_output_and_inputs() {
    assert_eq!(check_output("out/example.com.warc.gz"), Ok(()));
    assert_eq!(check_output("example.com.WARC.GZ"), Ok(()));
    let error = check_output("out.warc.gz/example.com.warc").expect_err("a plain output");
    assert_eq!(
        error.to_string(),
        "combined output out.warc.gz/example.com.warc must end in .warc.gz"
    );
    let names = vec![
        "example.com-2.warc.gz".to_owned(),
        "example.com-1.warc".to_owned(),
        "example.com.warc".to_owned(),
    ];
    assert_eq!(
        combined_inputs(&names, "archives", "example.com"),
        Ok(vec![
            "example.com-1.warc".to_owned(),
            "example.com-2.warc.gz".to_owned()
        ])
    );
    let error = combined_inputs(&names, "archives", "other.example").expect_err("no inputs");
    assert!(matches!(error, Error::NoInputs { .. }));
    assert_eq!(
        error.to_string(),
        "combine input directory archives contains no direct WARC files for domain \
         \"other.example\""
    );
    assert_eq!(
        describe_combination(
            &CombineSummary {
                files: 2,
                records: 31
            },
            "example.com",
            "out.warc.gz"
        ),
        "Combined 31 records from 2 files for example.com into out.warc.gz"
    );
}

#[test]
fn an_update_says_what_its_window_is() {
    let at = |text: &str| parse_rfc3339(text).expect("a timestamp");
    let update = CommentUpdateInput {
        path: "history.warc".to_owned(),
        anchor: CommentUpdateAnchor {
            base_url: "https://example.com/".to_owned(),
            datetime: at("2026-08-20T00:00:00Z"),
            from_comment: false,
        },
    };
    assert_eq!(
        describe_update(
            &update,
            at("2026-08-19T00:00:00Z"),
            at("2026-08-21T00:00:00Z")
        ),
        "updating https://example.com/ comments from history.warc after \
         2026-08-19T00:00:00+00:00 and before 2026-08-21T00:00:00+00:00 (anchor from archived \
         before cutoff)"
    );
}

#[test]
fn numbers_are_listed_with_a_separator() {
    assert_eq!(list_numbers(&vec![1, 20, 3], ", "), "1, 20, 3");
    assert_eq!(list_numbers(&Vec::new(), ", "), "");
}
