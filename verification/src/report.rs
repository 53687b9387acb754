//! What is reported of archives that were checked, linted, read, completed, or combined.

use crate::clock;
use crate::clock::{Moment, Timestamp};
use crate::complete::CommentCompletionSummary;
use crate::lint;
use crate::lint::{Finding, FindingView, LintReport, PaginationSummary, ReportView, Severity};
use crate::notice;
use crate::notice::{Level, Notice, NoticeView, Outcome};
use crate::read;
use crate::read::{
    CommentCollectionCompleteness, CommentCompleteness, CommentConflict, CommentReadResult,
    CompletenessView, ConflictView, CoverageView,
};
use crate::run;
use crate::run::{SessionSummary, SummaryView};
use crate::text;
use crate::update::{CommentUpdateInput, UpdateView};
use vstd::prelude::*;

verus! {

/// The signed difference between two totals.
pub open spec fn difference(before: usize, after: usize) -> Seq<char> {
    if after >= before {
        "+"@ + text::decimal((after - before) as nat)
    } else {
        "-"@ + text::decimal((before - after) as nat)
    }
}

/// The signed differences between successive totals.
pub open spec fn differences(totals: Seq<usize>) -> Seq<Seq<char>> {
    Seq::new(
        if totals.len() == 0 {
            0
        } else {
            (totals.len() - 1) as nat
        },
        |index: int| difference(totals[index], totals[index + 1]),
    )
}

/// The warning about advertised totals that changed.
pub open spec fn change_warning(totals: Seq<usize>) -> Seq<char> {
    "X-WP-TotalPages changed over the WARC session ("@ + notice::listed(totals, " -> "@)
        + "); successive differences: "@ + text::join(differences(totals), ", "@)
}

fn list_differences(totals: &Vec<usize>) -> (list: Vec<String>)
    ensures
        list.deep_view() == differences(totals@),
{
    let mut list: Vec<String> = Vec::new();
    let mut index: usize = 1;
    assert(list.deep_view() =~= differences(totals@).take(0));
    if totals.len() == 0 {
        assert(list.deep_view() =~= differences(totals@));
        return list;
    }
    while index < totals.len()
        invariant
            1 <= index <= totals@.len(),
            list.deep_view() == differences(totals@).take(index - 1),
        decreases totals@.len() - index,
    {
        let ghost known = list.deep_view();
        let before = totals[index - 1];
        let after = totals[index];
        let signed = if after >= before {
            text::joined("+", text::count_text(after - before).as_str())
        } else {
            text::joined("-", text::count_text(before - after).as_str())
        };
        list.push(signed);
        assert(list.deep_view() =~= known.push(signed@));
        index += 1;
        assert(differences(totals@).take(index - 1) =~= known.push(signed@));
    }
    assert(differences(totals@).take(index - 1) =~= differences(totals@));
    list
}

/// Describe the signed difference at every transition between advertised totals.
pub fn page_total_change_warning(coverage: &CommentCompleteness) -> (warning: Option<String>)
    ensures
        match warning {
            Some(warning) => coverage.deep_view().has_changed() && warning@ == change_warning(
                coverage.advertised_page_totals@,
            ),
            None => !coverage.deep_view().has_changed(),
        },
{
    if !coverage.advertised_total_changed() {
        return None;
    }
    let mut warning = text::joined(
        "X-WP-TotalPages changed over the WARC session (",
        notice::list_numbers(&coverage.advertised_page_totals, " -> ").as_str(),
    );
    warning.append("); successive differences: ");
    let differences = list_differences(&coverage.advertised_page_totals);
    warning.append(text::join_with(&differences, ", ").as_str());
    Some(warning)
}

/// What a check says of an endpoint whose pages are not all captured.
pub open spec fn shortage(warc: Seq<char>, collection: CoverageView) -> Seq<char> {
    let coverage = collection.coverage;
    match coverage.total_pages {
        None => warc + " has no qualifying record with a valid X-WP-TotalPages header for "@
            + collection.endpoint,
        Some(total) => {
            let missing = coverage.missing_pages();
            let shown = read::first_of(missing, 20);
            warc + " is missing qualifying records for "@ + text::decimal(missing.len()) + " of "@
                + text::decimal(total as nat) + " advertised pages for "@ + collection.endpoint
                + ": "@ + notice::listed(shown, ", "@) + (if missing.len() > shown.len() {
                " (and "@ + text::decimal((missing.len() - shown.len()) as nat) + " more)"@
            } else {
                Seq::empty()
            })
        },
    }
}

/// What a check says of one endpoint.
pub open spec fn endpoint_notices(warc: Seq<char>, collection: CoverageView, quiet: bool) -> Seq<
    NoticeView,
> {
    let coverage = collection.coverage;
    (if coverage.has_changed() {
        seq![
            notice::warned(
                collection.endpoint + ": "@ + change_warning(coverage.advertised_page_totals),
            ),
        ]
    } else {
        Seq::empty()
    }) + (if coverage.is_complete() {
        if quiet {
            Seq::empty()
        } else {
            seq![
                notice::printed(
                    warc + " is complete for "@ + collection.endpoint + ": all "@ + text::decimal(
                        coverage.total_pages->0 as nat,
                    ) + " advertised comment pages were captured"@,
                ),
            ]
        }
    } else {
        seq![notice::warned(shortage(warc, collection))] + (if quiet {
            Seq::empty()
        } else {
            seq![notice::printed(warc + " is incomplete for "@ + collection.endpoint)]
        })
    })
}

/// What a check says of all endpoints, in order.
pub open spec fn endpoints_notices(
    warc: Seq<char>,
    collections: Seq<CoverageView>,
    quiet: bool,
) -> Seq<NoticeView>
    decreases collections.len(),
{
    if collections.len() == 0 {
        Seq::empty()
    } else {
        endpoints_notices(warc, collections.drop_last(), quiet) + endpoint_notices(
            warc,
            collections.last(),
            quiet,
        )
    }
}

/// What a check says of an archive.
pub open spec fn check_notices(warc: Seq<char>, collections: Seq<CoverageView>, quiet: bool) -> Seq<
    NoticeView,
> {
    if collections.len() == 0 {
        seq![notice::warned(warc + " has no qualifying WordPress comments capture"@)] + (if quiet {
            Seq::empty()
        } else {
            seq![notice::printed(warc + " is incomplete"@)]
        })
    } else {
        endpoints_notices(warc, collections, quiet)
    }
}

/// Whether a check reports problems: an archive without a capture, or with an endpoint whose pages
/// are not all captured or whose advertised total changed.
pub open spec fn has_problems(collections: Seq<CoverageView>) -> bool {
    collections.len() == 0 || exists|index: int|
        0 <= index < collections.len() && (!(
        #[trigger] collections[index]).coverage.is_complete()
            || collections[index].coverage.has_changed())
}

fn describe_shortage(warc: &str, collection: &CommentCollectionCompleteness) -> (message: String)
    requires
        collection.coverage.deep_view().is_valid(),
    ensures
        message@ == shortage(warc@, collection.deep_view()),
{
    let coverage = &collection.coverage;
    let total = match coverage.total_pages {
        Some(total) => total,
        None => {
            let mut message = text::joined(
                warc,
                " has no qualifying record with a valid X-WP-TotalPages header for ",
            );
            message.append(collection.endpoint.as_str());
            return message;
        },
    };
    let count: usize = match coverage.missing_page_count() {
        Some(count) => count,
        None => 0,
    };
    let shown = coverage.first_missing_pages(20);
    let mut message = text::joined(warc, " is missing qualifying records for ");
    message.append(text::count_text(count).as_str());
    message.append(" of ");
    message.append(text::count_text(total).as_str());
    message.append(" advertised pages for ");
    message.append(collection.endpoint.as_str());
    message.append(": ");
    message.append(notice::list_numbers(&shown, ", ").as_str());
    if count > shown.len() {
        let mut suffix = text::joined(" (and ", text::count_text(count - shown.len()).as_str());
        suffix.append(" more)");
        message.append(suffix.as_str());
    }
    assert(message@ =~= shortage(warc@, collection.deep_view()));
    message
}

fn notify_endpoint(
    notices: &mut Vec<Notice>,
    warc: &str,
    collection: &CommentCollectionCompleteness,
    quiet: bool,
) -> (problems: bool)
    requires
        collection.coverage.deep_view().is_valid(),
    ensures
        final(notices).deep_view() == old(notices).deep_view() + endpoint_notices(
            warc@,
            collection.deep_view(),
            quiet,
        ),
        problems == (!collection.coverage.deep_view().is_complete()
            || collection.coverage.deep_view().has_changed()),
{
    let ghost start = notices.deep_view();
    let coverage = &collection.coverage;
    let complete = coverage.is_complete();
    let mut changed: bool = false;
    if let Some(warning) = page_total_change_warning(coverage) {
        changed = true;
        let mut message = text::joined(collection.endpoint.as_str(), ": ");
        message.append(warning.as_str());
        notice::notify(notices, Level::Warning, message);
    }
    if complete {
        if !quiet {
            let total: usize = match coverage.total_pages {
                Some(total) => total,
                None => 0,
            };
            let mut message = text::joined(warc, " is complete for ");
            message.append(collection.endpoint.as_str());
            message.append(": all ");
            message.append(text::count_text(total).as_str());
            message.append(" advertised comment pages were captured");
            notice::notify(notices, Level::Printed, message);
        }
    } else {
        notice::notify(notices, Level::Warning, describe_shortage(warc, collection));
        if !quiet {
            let mut message = text::joined(warc, " is incomplete for ");
            message.append(collection.endpoint.as_str());
            notice::notify(notices, Level::Printed, message);
        }
    }
    assert(notices.deep_view() =~= start + endpoint_notices(warc@, collection.deep_view(), quiet));
    !complete || changed
}

/// Report whether every page advertised in a comments archive has a qualifying capture.
pub fn report_check(
    warc: &str,
    collections: &Vec<CommentCollectionCompleteness>,
    quiet: bool,
) -> (report: (Vec<Notice>, Outcome))
    requires
        forall|index: int|
            0 <= index < collections@.len() ==> (
            #[trigger] collections.deep_view()[index]).coverage.is_valid(),
    ensures
        report.0.deep_view() == check_notices(warc@, collections.deep_view(), quiet),
        report.1 == Outcome::of(has_problems(collections.deep_view())),
{
    let ghost all = collections.deep_view();
    let mut notices: Vec<Notice> = Vec::new();
    assert(notices.deep_view() =~= Seq::<NoticeView>::empty());
    if collections.len() == 0 {
        notice::notify(
            &mut notices,
            Level::Warning,
            text::joined(warc, " has no qualifying WordPress comments capture"),
        );
        if !quiet {
            notice::notify(&mut notices, Level::Printed, text::joined(warc, " is incomplete"));
        }
        assert(notices.deep_view() =~= check_notices(warc@, all, quiet));
        return (notices, Outcome::ReportedProblems);
    }
    let mut problems: bool = false;
    let mut index: usize = 0;
    while index < collections.len()
        invariant
            index <= collections@.len(),
            all == collections.deep_view(),
            forall|at: int|
                0 <= at < collections@.len() ==> (
                #[trigger] collections.deep_view()[at]).coverage.is_valid(),
            notices.deep_view() == endpoints_notices(warc@, all.take(index as int), quiet),
            problems == exists|at: int|
                0 <= at < index && (!(#[trigger] all[at]).coverage.is_complete()
                    || all[at].coverage.has_changed()),
        decreases collections@.len() - index,
    {
        assert(all.take(index + 1).drop_last() == all.take(index as int));
        assert(all.take(index + 1).last() == collections@[index as int].deep_view());
        assert(all[index as int] == collections.deep_view()[index as int]);
        if notify_endpoint(&mut notices, warc, &collections[index], quiet) {
            problems = true;
        }
        index += 1;
    }
    assert(all.take(index as int) == all);
    (notices, Outcome::from_reported_problems(problems))
}

/// A check finds no problems exactly when comments were captured and every endpoint's pages are all
/// captured under a total that stayed the same.
pub proof fn a_sound_archive_has_no_problems(collections: Seq<CoverageView>)
    ensures
        Outcome::of(has_problems(collections)) == Outcome::Success <==> (collections.len() > 0
            && forall|index: int|
            0 <= index < collections.len() ==> (#[trigger] collections[index]).coverage.is_complete()
                && !collections[index].coverage.has_changed()),
{
}

/// What is reported of a finished completion.
pub open spec fn completion_notices(
    archive: Option<SummaryView>,
    missing: nat,
    uncaptured: Seq<usize>,
    input: Seq<char>,
    output: Seq<char>,
    quiet: bool,
) -> Seq<NoticeView> {
    (match archive {
        Some(archive) => run::failure_notices(archive.failures) + (if archive.cancelled {
            seq![
                notice::warned(
                    "comment completion was cancelled before every request was made"@,
                ),
            ]
        } else {
            Seq::empty()
        }) + (if archive.partial_captures > 0 {
            seq![
                notice::warned(
                    text::decimal(archive.partial_captures as nat)
                        + " comment page captures were unexpectedly truncated"@,
                ),
            ]
        } else {
            Seq::empty()
        }),
        None => Seq::empty(),
    }) + (if uncaptured.len() > 0 {
        seq![
            notice::warned(
                "no qualifying response was captured for comment pages "@ + notice::listed(
                    uncaptured,
                    ", "@,
                ),
            ),
        ]
    } else {
        Seq::empty()
    }) + (if quiet {
        Seq::empty()
    } else if missing == 0 {
        seq![
            notice::printed(
                input + " was already complete; wrote its warcinfo record to "@ + output,
            ),
        ]
    } else {
        seq![
            notice::printed(
                "Captured "@ + text::decimal((missing - uncaptured.len()) as nat) + " of "@
                    + text::decimal(missing) + " missing comment pages to "@ + output,
            ),
        ]
    })
}

/// Report what came of completing a comments archive.
pub fn report_completion(
    summary: &CommentCompletionSummary,
    archive: &Option<SessionSummary>,
    input: &str,
    output: &str,
    quiet: bool,
) -> (report: (Vec<Notice>, Outcome))
    requires
        summary.uncaptured_pages@.len() <= summary.missing_pages@.len(),
    ensures
        report.0.deep_view() == completion_notices(
            archive.deep_view(),
            summary.missing_pages@.len(),
            summary.uncaptured_pages@,
            input@,
            output@,
            quiet,
        ),
        report.1 == Outcome::of(
            !(summary.uncaptured_pages@.len() == 0 && summary.archive != Some(false)),
        ),
{
    let mut notices: Vec<Notice> = Vec::new();
    assert(notices.deep_view() =~= Seq::<NoticeView>::empty());
    if let Some(archive) = archive {
        run::notify_failures(&mut notices, &archive.failures);
        if archive.cancelled {
            notice::notify(
                &mut notices,
                Level::Warning,
                "comment completion was cancelled before every request was made".to_owned(),
            );
        }
        if archive.partial_captures > 0 {
            notice::notify(
                &mut notices,
                Level::Warning,
                text::joined(
                    text::count_text(archive.partial_captures).as_str(),
                    " comment page captures were unexpectedly truncated",
                ),
            );
        }
    }
    if summary.uncaptured_pages.len() > 0 {
        notice::notify(
            &mut notices,
            Level::Warning,
            text::joined(
                "no qualifying response was captured for comment pages ",
                notice::list_numbers(&summary.uncaptured_pages, ", ").as_str(),
            ),
        );
    }
    if !quiet {
        if summary.missing_pages.len() == 0 {
            let mut message = text::joined(
                input,
                " was already complete; wrote its warcinfo record to ",
            );
            message.append(output);
            notice::notify(&mut notices, Level::Printed, message);
        } else {
            let missing: usize = summary.missing_pages.len();
            let mut message = text::joined(
                "Captured ",
                text::count_text(missing - summary.uncaptured_pages.len()).as_str(),
            );
            message.append(" of ");
            message.append(text::count_text(missing).as_str());
            message.append(" missing comment pages to ");
            message.append(output);
            notice::notify(&mut notices, Level::Printed, message);
        }
    }
    assert(notices.deep_view() =~= completion_notices(
        archive.deep_view(),
        summary.missing_pages@.len(),
        summary.uncaptured_pages@,
        input@,
        output@,
        quiet,
    ));
    (notices, Outcome::from_reported_problems(!summary.is_complete()))
}

/// The message about a finding.
pub open spec fn finding_notice(finding: FindingView) -> NoticeView {
    NoticeView {
        level: match finding.severity {
            Severity::Error => Level::Error,
            Severity::Warning => Level::Warning,
        },
        message: finding.message,
    }
}

/// A count, or that it is not known.
pub open spec fn known_count(count: Option<usize>) -> Seq<char> {
    match count {
        Some(count) => text::decimal(count as nat),
        None => "unknown"@,
    }
}

/// The line about one paginated endpoint.
pub open spec fn pagination_notice(pagination: lint::SummaryView) -> NoticeView {
    notice::printed(
        pagination.endpoint + ": "@ + known_count(pagination.pages) + " pages, "@ + known_count(
            pagination.items,
        ) + " items"@,
    )
}

/// The line about a linted archive.
pub open spec fn lint_line(warc: Seq<char>, report: ReportView) -> Seq<char> {
    warc + ": "@ + text::decimal(report.roots as nat) + " roots, "@ + text::decimal(
        report.known_probes as nat,
    ) + " known probes, "@ + text::decimal(report.custom_probes as nat) + " custom probes, "@
        + text::decimal(report.pagination.len()) + " paginated endpoints; "@ + text::decimal(
        lint::count_of(report.findings, Severity::Error),
    ) + " errors, "@ + text::decimal(lint::count_of(report.findings, Severity::Warning))
        + " warnings"@
}

/// What is reported of a linted archive.
pub open spec fn lint_notices(warc: Seq<char>, report: ReportView, quiet: bool) -> Seq<NoticeView> {
    report.findings.map_values(|finding: FindingView| finding_notice(finding)) + (if quiet {
        Seq::empty()
    } else {
        report.pagination.map_values(
            |pagination: lint::SummaryView| pagination_notice(pagination),
        ).push(notice::printed(lint_line(warc, report)))
    })
}

fn describe_count(count: Option<usize>) -> (described: String)
    ensures
        described@ == known_count(count),
{
    match count {
        Some(count) => text::count_text(count),
        None => "unknown".to_owned(),
    }
}

fn notify_findings(notices: &mut Vec<Notice>, findings: &Vec<Finding>)
    ensures
        final(notices).deep_view() == old(notices).deep_view()
            + findings.deep_view().map_values(|finding: FindingView| finding_notice(finding)),
{
    let ghost start = notices.deep_view();
    let ghost all = findings.deep_view().map_values(
        |finding: FindingView| finding_notice(finding),
    );
    let mut index: usize = 0;
    assert(notices.deep_view() =~= start + all.take(0));
    while index < findings.len()
        invariant
            index <= findings@.len(),
            start == old(notices).deep_view(),
            all == findings.deep_view().map_values(
                |finding: FindingView| finding_notice(finding),
            ),
            notices.deep_view() == start + all.take(index as int),
        decreases findings@.len() - index,
    {
        let level = match findings[index].severity {
            Severity::Error => Level::Error,
            Severity::Warning => Level::Warning,
        };
        notice::notify(notices, level, findings[index].message.clone());
        index += 1;
        assert(notices.deep_view() =~= start + all.take(index as int));
    }
    assert(all.take(index as int) =~= all);
}

fn notify_pagination(notices: &mut Vec<Notice>, pagination: &Vec<PaginationSummary>)
    ensures
        final(notices).deep_view() == old(notices).deep_view()
            + pagination.deep_view().map_values(
            |pagination: lint::SummaryView| pagination_notice(pagination),
        ),
{
    let ghost start = notices.deep_view();
    let ghost all = pagination.deep_view().map_values(
        |pagination: lint::SummaryView| pagination_notice(pagination),
    );
    let mut index: usize = 0;
    assert(notices.deep_view() =~= start + all.take(0));
    while index < pagination.len()
        invariant
            index <= pagination@.len(),
            start == old(notices).deep_view(),
            all == pagination.deep_view().map_values(
                |pagination: lint::SummaryView| pagination_notice(pagination),
            ),
            notices.deep_view() == start + all.take(index as int),
        decreases pagination@.len() - index,
    {
        let summary = &pagination[index];
        let mut message = text::joined(summary.endpoint.as_str(), ": ");
        message.append(describe_count(summary.pages).as_str());
        message.append(" pages, ");
        message.append(describe_count(summary.items).as_str());
        message.append(" items");
        notice::notify(notices, Level::Printed, message);
        index += 1;
        assert(notices.deep_view() =~= start + all.take(index as int));
    }
    assert(all.take(index as int) =~= all);
}

/// Report what linting an archive found.
pub fn report_lint(warc: &str, report: &LintReport, quiet: bool) -> (reported: (
    Vec<Notice>,
    Outcome,
))
    ensures
        reported.0.deep_view() == lint_notices(warc@, report.deep_view(), quiet),
        reported.1 == Outcome::of(report.deep_view().findings.len() > 0),
{
    let mut notices: Vec<Notice> = Vec::new();
    assert(notices.deep_view() =~= Seq::<NoticeView>::empty());
    notify_findings(&mut notices, &report.findings);
    if !quiet {
        notify_pagination(&mut notices, &report.pagination);
        let mut message = text::joined(warc, ": ");
        message.append(text::count_text(report.roots).as_str());
        message.append(" roots, ");
        message.append(text::count_text(report.known_probes).as_str());
        message.append(" known probes, ");
        message.append(text::count_text(report.custom_probes).as_str());
        message.append(" custom probes, ");
        message.append(text::count_text(report.pagination.len()).as_str());
        message.append(" paginated endpoints; ");
        message.append(text::count_text(report.error_count()).as_str());
        message.append(" errors, ");
        message.append(text::count_text(report.warning_count()).as_str());
        message.append(" warnings");
        notice::notify(&mut notices, Level::Printed, message);
    }
    assert(notices.deep_view() =~= lint_notices(warc@, report.deep_view(), quiet));
    (notices, Outcome::from_reported_problems(!report.is_clean()))
}

/// The message about two archived objects that disagree about a comment.
pub open spec fn conflict_notice(conflict: ConflictView) -> NoticeView {
    notice::warned(
        "Conflicting objects for WordPress comment "@ + text::decimal(conflict.id as nat) + ": "@
            + conflict.first + " != "@ + conflict.second,
    )
}

/// Report the conflicts among comments that were read.
pub fn report_conflicts(result: &CommentReadResult) -> (report: (Vec<Notice>, Outcome))
    ensures
        report.0.deep_view() == result.warnings.deep_view().map_values(
            |conflict: ConflictView| conflict_notice(conflict),
        ),
        report.1 == Outcome::of(result.warnings@.len() > 0),
{
    let conflicts = &result.warnings;
    let ghost all = conflicts.deep_view().map_values(
        |conflict: ConflictView| conflict_notice(conflict),
    );
    let mut notices: Vec<Notice> = Vec::new();
    let mut index: usize = 0;
    assert(notices.deep_view() =~= all.take(0));
    while index < conflicts.len()
        invariant
            index <= conflicts@.len(),
            all == conflicts.deep_view().map_values(
                |conflict: ConflictView| conflict_notice(conflict),
            ),
            notices.deep_view() == all.take(index as int),
        decreases conflicts@.len() - index,
    {
        let conflict = &conflicts[index];
        let mut message = text::joined(
            "Conflicting objects for WordPress comment ",
            text::decimal_of(conflict.id).as_str(),
        );
        message.append(": ");
        message.append(conflict.first.as_str());
        message.append(" != ");
        message.append(conflict.second.as_str());
        notice::notify(&mut notices, Level::Warning, message);
        index += 1;
        assert(notices.deep_view() =~= all.take(index as int));
    }
    assert(all.take(index as int) =~= all);
    (notices, Outcome::from_reported_problems(conflicts.len() > 0))
}

/// What is reported of a site that is updated.
pub open spec fn update_line(update: UpdateView, after: Moment, before: Moment) -> Seq<char> {
    "updating "@ + update.anchor.base_url + " comments from "@ + update.path + " after "@
        + clock::full_text(after.seconds, after.nanos) + " and before "@ + clock::full_text(
        before.seconds,
        before.nanos,
    ) + " (anchor from "@ + (if update.anchor.from_comment {
        "latest comment"@
    } else {
        "archived before cutoff"@
    }) + ")"@
}

/// What is reported of a site that is updated.
pub fn describe_update(update: &CommentUpdateInput, after: Timestamp, before: Timestamp) -> (message:
    String)
    ensures
        message@ == update_line(update.deep_view(), after@, before@),
{
    let mut message = text::joined("updating ", update.anchor.base_url.as_str());
    message.append(" comments from ");
    message.append(update.path.as_str());
    message.append(" after ");
    message.append(after.rendered_in_full().as_str());
    message.append(" and before ");
    message.append(before.rendered_in_full().as_str());
    message.append(" (anchor from ");
    message.append(
        if update.anchor.from_comment {
            "latest comment"
        } else {
            "archived before cutoff"
        },
    );
    message.append(")");
    message
}

/// A difference is signed: added to the total before it, it gives the total after it.
pub proof fn differences_lead_from_total_to_total(totals: Seq<usize>, index: int)
    requires
        0 < index < totals.len(),
    ensures
        differences(totals).len() == totals.len() - 1,
        totals[index] >= totals[index - 1] ==> differences(totals)[index - 1] == "+"@
            + text::decimal((totals[index] - totals[index - 1]) as nat),
        totals[index] < totals[index - 1] ==> differences(totals)[index - 1] == "-"@
            + text::decimal((totals[index - 1] - totals[index]) as nat),
{
}

/// An endpoint is warned of exactly where its pages are not all captured or its advertised total
/// changed, once for each; a quiet check says nothing else.
pub proof fn an_unsound_endpoint_is_warned_of(
    warc: Seq<char>,
    collection: CoverageView,
    quiet: bool,
)
    ensures
        ({
            let notices = endpoint_notices(warc, collection, quiet);
            let coverage = collection.coverage;
            let warnings = (if coverage.has_changed() {
                1int
            } else {
                0int
            }) + (if coverage.is_complete() {
                0int
            } else {
                1int
            });
            &&& notices.len() == warnings + (if quiet {
                0int
            } else {
                1int
            })
            &&& forall|index: int|
                0 <= index < warnings ==> (#[trigger] notices[index]).level == Level::Warning
            &&& !quiet ==> notices.last().level == Level::Printed
        }),
{
}

/// A check of an archive warns of something exactly where it finds problems.
pub proof fn problems_are_warned_of(warc: Seq<char>, collections: Seq<CoverageView>)
    ensures
        has_problems(collections) <==> check_notices(warc, collections, true).len() > 0,
{
    lemma_problems_of_endpoints(warc, collections);
}

proof fn lemma_problems_of_endpoints(warc: Seq<char>, collections: Seq<CoverageView>)
    ensures
        endpoints_notices(warc, collections, true).len() > 0 <==> exists|index: int|
            0 <= index < collections.len() && (!(
            #[trigger] collections[index]).coverage.is_complete()
                || collections[index].coverage.has_changed()),
    decreases collections.len(),
{
    if collections.len() > 0 {
        let earlier = collections.drop_last();
        let last = collections.len() - 1;
        lemma_problems_of_endpoints(warc, earlier);
        an_unsound_endpoint_is_warned_of(warc, collections.last(), true);
        assert(collections[last] == collections.last());
        if endpoints_notices(warc, earlier, true).len() > 0 {
            let index = choose|index: int|
                0 <= index < earlier.len() && (!(#[trigger] earlier[index]).coverage.is_complete()
                    || earlier[index].coverage.has_changed());
            assert(collections[index] == earlier[index]);
        }
        if exists|index: int|
            0 <= index < collections.len() && (!(
            #[trigger] collections[index]).coverage.is_complete()
                || collections[index].coverage.has_changed()) {
            let index = choose|index: int|
                0 <= index < collections.len() && (!(
                #[trigger] collections[index]).coverage.is_complete()
                    || collections[index].coverage.has_changed());
            if index < last {
                assert(earlier[index] == collections[index]);
            }
        }
    }
}

/// Every finding is told of with its words, as an error or a warning as grave as it is, in order; a
/// quiet report tells of nothing else.
pub proof fn every_finding_is_told_of(warc: Seq<char>, report: ReportView, quiet: bool, index: int)
    requires
        0 <= index < report.findings.len(),
    ensures
        ({
            let notices = lint_notices(warc, report, quiet);
            &&& notices[index].message == report.findings[index].message
            &&& notices[index].level == Level::Error <==> report.findings[index].severity
                == Severity::Error
            &&& notices[index].level == Level::Warning <==> report.findings[index].severity
                == Severity::Warning
            &&& quiet ==> notices.len() == report.findings.len()
            &&& !quiet ==> notices.len() == report.findings.len() + report.pagination.len() + 1
        }),
{
}

/// A completion warns of every failed capture, of a cancellation, of truncated captures and of pages
/// left uncaptured, and of nothing else.
pub proof fn an_unfinished_completion_is_warned_of(
    archive: Option<SummaryView>,
    missing: nat,
    uncaptured: Seq<usize>,
    input: Seq<char>,
    output: Seq<char>,
)
    ensures
        ({
            let notices = completion_notices(archive, missing, uncaptured, input, output, true);
            let told = completion_notices(archive, missing, uncaptured, input, output, false);
            let flawless = archive matches Some(archive) ==> archive.failures.len() == 0
                && !archive.cancelled && archive.partial_captures == 0;
            &&& notices.len() == 0 <==> flawless && uncaptured.len() == 0
            &&& told.len() == notices.len() + 1
            &&& told.last().level == Level::Printed
            &&& archive matches Some(archive) ==> notices.len() >= archive.failures.len()
        }),
{
}

} // verus!
