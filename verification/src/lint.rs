//! Structural validation of collection archives produced by
//! [`ArchiveDriver`](crate::archive::ArchiveDriver).

use crate::archive;
use crate::bytes;
use crate::archive::{Site, SiteError, SiteErrorView, SiteView};
use crate::clock;
use crate::endpoint;
use crate::endpoint::{Collection, CollectionView, Endpoint, Registry, ROOT_ENDPOINTS};
use crate::evidence;
use crate::evidence::{
    CaptureGroup, Evidence, EvidenceView, GroupView, HeadView, Problem, ProblemView, Record,
    RecordView, ResponseHead, ResponseView, StoredResponse, StoredRevisit, StoredRevisitProfile,
};
use crate::json;
use crate::query;
use crate::text;
use crate::web;
use crate::web::{Address, AddressView};
use std::collections::HashSet;
use vstd::prelude::*;
use vstd::string::StringExecFns;

verus! {

/// How grave a finding is.
#[derive(Clone, Copy, Debug, Eq, PartialEq, Structural)]
pub enum Severity {
    /// The archive is wrong.
    Error,
    /// The archive is odd.
    Warning,
}

/// Something that a rule finds in an archive.
#[derive(Debug, Eq, PartialEq)]
pub struct Finding {
    /// How grave the finding is.
    pub severity: Severity,
    /// The rule's name.
    pub rule: String,
    /// What was found, in words.
    pub message: String,
    /// The index of the record that the finding is about; one about the whole file has none.
    pub record: Option<usize>,
    /// Whether the rule is one of those that hold of any archive.
    pub core: bool,
}

/// A [`Finding`], with its texts as sequences of characters.
#[verifier::ext_equal]
pub struct FindingView {
    pub severity: Severity,
    pub rule: Seq<char>,
    pub message: Seq<char>,
    pub record: Option<usize>,
    pub core: bool,
}

impl DeepView for Finding {
    type V = FindingView;

    open spec fn deep_view(&self) -> FindingView {
        FindingView {
            severity: self.severity,
            rule: self.rule@,
            message: self.message@,
            record: self.record,
            core: self.core,
        }
    }
}

/// An error about the whole file.
pub open spec fn fault(rule: Seq<char>, message: Seq<char>) -> FindingView {
    FindingView { severity: Severity::Error, rule, message, record: None, core: false }
}

/// A warning about the whole file.
pub open spec fn caution(rule: Seq<char>, message: Seq<char>) -> FindingView {
    FindingView { severity: Severity::Warning, rule, message, record: None, core: false }
}

/// A finding on its own where it is called for, and none otherwise.
pub open spec fn where_called_for(called_for: bool, finding: FindingView) -> Seq<FindingView> {
    if called_for {
        seq![finding]
    } else {
        Seq::empty()
    }
}

/// Counts advertised for one successfully probed and paginated endpoint.
#[derive(Debug, Eq, PartialEq)]
pub struct PaginationSummary {
    /// Bare collection endpoint URI.
    pub endpoint: String,
    /// Greatest page count advertised during pagination.
    pub pages: Option<usize>,
    /// Item count advertised by the endpoint probe.
    pub items: Option<usize>,
}

/// A [`PaginationSummary`], with its endpoint as a sequence of characters.
#[verifier::ext_equal]
pub struct SummaryView {
    pub endpoint: Seq<char>,
    pub pages: Option<usize>,
    pub items: Option<usize>,
}

impl DeepView for PaginationSummary {
    type V = SummaryView;

    open spec fn deep_view(&self) -> SummaryView {
        SummaryView { endpoint: self.endpoint@, pages: self.pages, items: self.items }
    }
}

/// What the whole-file analysis gathers: its findings, and the summary the report carries.
///
/// The findings are held until the pass settles the end of the file, since the analysis reads
/// captures the whole file has to have been read to relate.
#[derive(Debug)]
pub struct Analysis {
    /// What the rules find, in order.
    pub findings: Vec<Finding>,
    /// The paginated endpoints, in probe order.
    pub pagination: Vec<PaginationSummary>,
    /// Number of required root captures found.
    pub roots: usize,
    /// Number of required known endpoint probes found.
    pub known_probes: usize,
    /// Number of registry-advertised custom endpoint probes found.
    pub custom_probes: usize,
}

/// The parts of an [`Analysis`].
#[verifier::ext_equal]
pub struct AnalysisView {
    pub findings: Seq<FindingView>,
    pub pagination: Seq<SummaryView>,
    pub roots: usize,
    pub known_probes: usize,
    pub custom_probes: usize,
}

impl DeepView for Analysis {
    type V = AnalysisView;

    open spec fn deep_view(&self) -> AnalysisView {
        AnalysisView {
            findings: self.findings.deep_view(),
            pagination: self.pagination.deep_view(),
            roots: self.roots,
            known_probes: self.known_probes,
            custom_probes: self.custom_probes,
        }
    }
}

impl AnalysisView {
    /// An analysis that has found nothing yet.
    pub open spec fn nothing() -> Self {
        AnalysisView {
            findings: Seq::empty(),
            pagination: Seq::empty(),
            roots: 0,
            known_probes: 0,
            custom_probes: 0,
        }
    }

    /// The analysis with more findings.
    pub open spec fn with(self, findings: Seq<FindingView>) -> Self {
        AnalysisView { findings: self.findings + findings, ..self }
    }
}

impl Default for Analysis {
    fn default() -> (analysis: Self)
        ensures
            analysis.deep_view() == AnalysisView::nothing(),
    {
        let analysis = Analysis {
            findings: Vec::new(),
            pagination: Vec::new(),
            roots: 0,
            known_probes: 0,
            custom_probes: 0,
        };
        assert(analysis.deep_view() =~= AnalysisView::nothing());
        analysis
    }
}

/// Report an error about the whole file.
fn error(report: &mut Analysis, rule: &str, message: String)
    ensures
        final(report).deep_view() == old(report).deep_view().with(seq![fault(rule@, message@)]),
{
    let ghost known = report.deep_view();
    let ghost found = fault(rule@, message@);
    let finding = Finding {
        severity: Severity::Error,
        rule: rule.to_owned(),
        message,
        record: None,
        core: false,
    };
    assert(finding.deep_view() == found);
    report.findings.push(finding);
    assert(report.findings.deep_view() == known.findings + seq![found]);
    assert(report.deep_view() =~= known.with(seq![found]));
}

/// Report a warning about the whole file.
fn warning(report: &mut Analysis, rule: &str, message: String)
    ensures
        final(report).deep_view() == old(report).deep_view().with(seq![caution(rule@, message@)]),
{
    let ghost known = report.deep_view();
    let ghost found = caution(rule@, message@);
    let finding = Finding {
        severity: Severity::Warning,
        rule: rule.to_owned(),
        message,
        record: None,
        core: false,
    };
    assert(finding.deep_view() == found);
    report.findings.push(finding);
    assert(report.findings.deep_view() == known.findings + seq![found]);
    assert(report.deep_view() =~= known.with(seq![found]));
}

/// Whether a warning with these words is among the findings.
pub open spec fn has_warning(findings: Seq<FindingView>, message: Seq<char>) -> bool {
    exists|index: int|
        0 <= index < findings.len() && (#[trigger] findings[index]).severity == Severity::Warning
            && findings[index].message == message
}

/// The warning, unless one with its words is among the findings.
pub open spec fn caution_once(
    findings: Seq<FindingView>,
    rule: Seq<char>,
    message: Seq<char>,
) -> Seq<FindingView> {
    where_called_for(!has_warning(findings, message), caution(rule, message))
}

/// Report a warning about the whole file, unless one with its words was reported before.
fn warning_once(report: &mut Analysis, rule: &str, message: &str)
    ensures
        final(report).deep_view() == old(report).deep_view().with(
            caution_once(old(report).deep_view().findings, rule@, message@),
        ),
{
    let ghost known = report.deep_view();
    let mut index: usize = 0;
    while index < report.findings.len()
        invariant
            index <= report.findings@.len(),
            report.deep_view() == known,
            forall|earlier: int|
                0 <= earlier < index ==> !((#[trigger] known.findings[earlier]).severity
                    == Severity::Warning && known.findings[earlier].message == message@),
        decreases report.findings@.len() - index,
    {
        let finding = &report.findings[index];
        assert(known.findings[index as int] == finding.deep_view());
        if finding.severity == Severity::Warning && text::same(finding.message.as_str(), message) {
            assert(known.findings + Seq::<FindingView>::empty() == known.findings);
            return;
        }
        index += 1;
    }
    warning(report, rule, message.to_owned());
}

/// How an HTTP pagination link identifies the expected page.
#[derive(Clone, Copy, Debug, Eq, PartialEq, Structural)]
pub enum PageUriMatch {
    /// The URL is another.
    Different,
    /// The URL is the page's.
    Exact,
    /// The URL differs only by an additional `attest=true` query parameter.
    Attested,
}

/// The warning given when pagination links carry an additional query parameter.
pub const ATTEST_LINK_WARNING: &'static str =
    "pagination Link targets add attest=true; treating it as an advisory query parameter";

/// Whether two queries give every name but those of one the same last value.
pub open spec fn agree_but_on(
    first: Seq<(Seq<char>, Seq<char>)>,
    second: Seq<(Seq<char>, Seq<char>)>,
    excepted: Option<Seq<char>>,
) -> bool {
    forall|name: Seq<char>|
        Some(name) != excepted ==> #[trigger] query::looked_up(first, name) == query::looked_up(second, name)
}

/// Whether every name that `first` holds, but one excepted, has the same last value in `second`.
fn is_matched(
    first: &Vec<(String, String)>,
    second: &Vec<(String, String)>,
    excepted: Option<&str>,
) -> (matched: bool)
    ensures
        matched == forall|index: int|
            0 <= index < first@.len() ==> {
                let name = (#[trigger] first.deep_view()[index]).0;
                Some(name) != excepted.deep_view() ==> query::looked_up(first.deep_view(), name)
                    == query::looked_up(second.deep_view(), name)
            },
{
    let ghost pairs = first.deep_view();
    let mut index: usize = 0;
    while index < first.len()
        invariant
            index <= first@.len(),
            pairs == first.deep_view(),
            forall|earlier: int|
                0 <= earlier < index ==> {
                    let name = (#[trigger] pairs[earlier]).0;
                    Some(name) != excepted.deep_view() ==> query::looked_up(pairs, name) == query::looked_up(
                        second.deep_view(),
                        name,
                    )
                },
        decreases first@.len() - index,
    {
        let name = first[index].0.as_str();
        assert(pairs[index as int] == first@[index as int].deep_view());
        assert(pairs[index as int].0 == name@);
        let is_excepted = match excepted {
            Some(excepted) => text::same(name, excepted),
            None => false,
        };
        if !is_excepted {
            let equal = match (query::look_up(first, name), query::look_up(second, name)) {
                (Some(left), Some(right)) => text::same(left.as_str(), right.as_str()),
                (None, None) => true,
                _ => false,
            };
            if !equal {
                return false;
            }
        }
        index += 1;
    }
    true
}

/// Whether two queries give every name but one excepted the same last value.
fn agree(
    first: &Vec<(String, String)>,
    second: &Vec<(String, String)>,
    excepted: Option<&str>,
) -> (same: bool)
    ensures
        same == agree_but_on(first.deep_view(), second.deep_view(), excepted.deep_view()),
{
    let ghost left = first.deep_view();
    let ghost right = second.deep_view();
    let forward = is_matched(first, second, excepted);
    let backward = is_matched(second, first, excepted);
    proof {
        if forward && backward {
            assert forall|name: Seq<char>|
                Some(name) != excepted.deep_view() implies #[trigger] query::looked_up(left, name)
                == query::looked_up(right, name) by {
                query::lemma_looked_up(left, name);
                query::lemma_looked_up(right, name);
                if query::looked_up(left, name) is Some {
                    let index = choose|index: int|
                        0 <= index < left.len() && (#[trigger] left[index]).0 == name;
                    assert(left[index].0 == name);
                } else if query::looked_up(right, name) is Some {
                    let index = choose|index: int|
                        0 <= index < right.len() && (#[trigger] right[index]).0 == name;
                    assert(right[index].0 == name);
                }
            }
        }
    }
    forward && backward
}

/// Whether two addresses have the same scheme, host, port, and path.
pub open spec fn same_resource(first: AddressView, second: AddressView) -> bool {
    &&& first.scheme == second.scheme
    &&& first.host == second.host
    &&& first.port == second.port
    &&& first.path == second.path
}

/// How `candidate` identifies the page `expected_page` of the collection that `current` is a page
/// of. Queries are compared by the last value of each name.
pub open spec fn page_match(
    candidate: Seq<char>,
    current: Seq<char>,
    expected_page: nat,
) -> PageUriMatch {
    match (web::parsed_address(candidate), web::parsed_address(current)) {
        (Ok(candidate), Ok(current)) => if !same_resource(candidate, current) {
            PageUriMatch::Different
        } else {
            let expected = current.pairs.push(("page"@, text::decimal(expected_page)));
            if agree_but_on(candidate.pairs, expected, None) {
                PageUriMatch::Exact
            } else if query::looked_up(expected, "attest"@) is None && query::looked_up(
                candidate.pairs,
                "attest"@,
            ) == Some("true"@) && agree_but_on(candidate.pairs, expected, Some("attest"@)) {
                PageUriMatch::Attested
            } else {
                PageUriMatch::Different
            }
        },
        _ => PageUriMatch::Different,
    }
}

/// How `candidate` identifies the page `expected_page` of the collection that `current` is a page
/// of. Queries are compared by the last value of each name.
pub fn page_uri_match(candidate: &str, current: &str, expected_page: usize) -> (matched:
    PageUriMatch)
    ensures
        matched == page_match(candidate@, current@, expected_page as nat),
{
    let (candidate, current) = match (web::parse(candidate), web::parse(current)) {
        (Ok(candidate), Ok(current)) => (candidate, current),
        _ => {
            return PageUriMatch::Different;
        },
    };
    let same_port = match (candidate.port, current.port) {
        (Some(left), Some(right)) => left == right,
        (None, None) => true,
        _ => false,
    };
    if !text::same(candidate.scheme.as_str(), current.scheme.as_str()) || !text::same_optional(
        &candidate.host,
        &current.host,
    ) || !same_port || !text::same(candidate.path.as_str(), current.path.as_str()) {
        return PageUriMatch::Different;
    }
    let mut expected = web::copied_pairs(&current.pairs);
    let page = ("page".to_owned(), text::count_text(expected_page));
    let ghost added = page.deep_view();
    expected.push(page);
    assert(expected.deep_view() == current.pairs.deep_view().push(added));
    if agree(&candidate.pairs, &expected, None) {
        return PageUriMatch::Exact;
    }
    let attested = match query::look_up(&candidate.pairs, "attest") {
        Some(value) => text::same(value.as_str(), "true"),
        None => false,
    };
    if query::look_up(&expected, "attest").is_none() && attested && agree(
        &candidate.pairs,
        &expected,
        Some("attest"),
    ) {
        PageUriMatch::Attested
    } else {
        PageUriMatch::Different
    }
}

/// Whether an address has the query of one page of a collection as an archive requests it: the
/// cutoff, the order, the page, and the page size, each once and nothing else.
pub open spec fn has_page_shape(address: AddressView) -> bool {
    let pairs = address.pairs;
    &&& query::distinct_names(pairs) == 5
    &&& query::only_count(pairs, "page"@) matches Some(page) && page > 0
    &&& query::only_value(pairs, "before"@) matches Some(before) && clock::parsed_rfc3339(before) is Some
    &&& query::only_value(pairs, "orderby"@) == Some("id"@)
    &&& query::only_value(pairs, "order"@) == Some("asc"@)
    &&& query::only_count(pairs, "per_page"@) matches Some(per_page) && 1 <= per_page <= 100
    &&& address.fragment is None
}

/// The page, whether the query has an archive's shape, and the cutoff of a page URL.
pub open spec fn queried(url: Seq<char>) -> (Option<usize>, bool, Option<Seq<char>>) {
    match web::parsed_address(url) {
        Err(_) => (None, false, None),
        Ok(address) => (
            query::only_count(address.pairs, "page"@),
            has_page_shape(address),
            query::only_value(address.pairs, "before"@),
        ),
    }
}

/// The URL that an archive requests a page by is recognized as the page's, with an archive's query
/// and cutoff, where it is an address.
pub proof fn requested_pages_are_recognized(
    site: SiteView,
    endpoint: Seq<char>,
    before: clock::Moment,
    page: usize,
    per_page: usize,
)
    requires
        web::is_bare(site.root.href),
        web::is_bare(endpoint),
        clock::reads_back(before),
        page > 0,
        1 <= per_page <= 100,
        web::parsed_address(
            site.page_url(endpoint, before, page as nat, per_page as nat),
        ) is Ok,
        web::is_read(site.page_url(endpoint, before, page as nat, per_page as nat)),
    ensures
        queried(site.page_url(endpoint, before, page as nat, per_page as nat)) == (
            Some(page),
            true,
            Some(clock::whole_second_text(before.seconds, before.nanos)),
        ),
{
    archive::a_page_url_carries_its_query(site, endpoint, before, page as nat, per_page as nat);
    let pairs = archive::page_pairs(before, page as nat, per_page as nat);
    text::lemma_count_text_parses_back(page);
    text::lemma_count_text_parses_back(per_page);
    reveal_strlit("before");
    reveal_strlit("orderby");
    reveal_strlit("order");
    reveal_strlit("page");
    reveal_strlit("per_page");
    reveal_with_fuel(query::occurrences, 6);
    reveal_with_fuel(query::looked_up, 6);
    reveal_with_fuel(query::distinct_names, 6);
    let names = seq!["before"@, "orderby"@, "order"@, "page"@, "per_page"@];
    assert(names[0].len() == 6 && names[1].len() == 7 && names[2].len() == 5 && names[3].len() == 4
        && names[4].len() == 8);
    assert(pairs.drop_last() =~= pairs.take(4));
    assert(pairs.take(4).drop_last() =~= pairs.take(3));
    assert(pairs.take(3).drop_last() =~= pairs.take(2));
    assert(pairs.take(2).drop_last() =~= pairs.take(1));
    assert(pairs.take(1).drop_last() =~= pairs.take(0));
}

/// The page, whether the query has an archive's shape, and the cutoff of a page URL.
pub fn page_query(url: &str) -> (query: (Option<usize>, bool, Option<String>))
    ensures
        (query.0, query.1, query.2.deep_view()) == queried(url@),
        web::is_read(url@),
{
    let address = match web::parse(url) {
        Ok(address) => address,
        Err(_) => {
            return (None, false, None);
        },
    };
    let pairs = &address.pairs;
    let page = query::parsed_one(pairs, "page");
    let before = match query::one(pairs, "before") {
        Some(before) => Some(before.clone()),
        None => None,
    };
    let has_page = match page {
        Some(page) => page > 0,
        None => false,
    };
    let has_cutoff = match &before {
        Some(before) => clock::parse_rfc3339(before.as_str()).is_some(),
        None => false,
    };
    let has_size = match query::parsed_one(pairs, "per_page") {
        Some(per_page) => 1 <= per_page && per_page <= 100,
        None => false,
    };
    let valid = query::count_names(pairs) == 5 && has_page && has_cutoff && query::has_one(
        pairs,
        "orderby",
        "id",
    ) && query::has_one(pairs, "order", "asc") && has_size && address.fragment.is_none();
    (page, valid, before)
}

/// Whether a character is ASCII white space.
pub open spec fn is_ascii_white(character: char) -> bool {
    character == ' ' || character == '\t' || character == '\n' || character == '\u{c}' || character
        == '\r'
}

/// The runs of characters between ASCII white space, where the last run is still open.
pub open spec fn words_and_rest(text: Seq<char>) -> (Seq<Seq<char>>, Seq<char>)
    decreases text.len(),
{
    if text.len() == 0 {
        (Seq::empty(), Seq::empty())
    } else {
        let (words, rest) = words_and_rest(text.drop_last());
        if !is_ascii_white(text.last()) {
            (words, rest.push(text.last()))
        } else if rest.len() > 0 {
            (words.push(rest), Seq::empty())
        } else {
            (words, rest)
        }
    }
}

/// The words of a text between ASCII white space.
pub open spec fn words(text: Seq<char>) -> Seq<Seq<char>> {
    let (words, rest) = words_and_rest(text);
    if rest.len() > 0 {
        words.push(rest)
    } else {
        words
    }
}

fn split_words(value: &str) -> (found: Vec<String>)
    ensures
        found.deep_view() == words(value@),
{
    let all = text::characters(value);
    let mut found: Vec<String> = Vec::new();
    let mut rest = String::new();
    let mut length: usize = 0;
    let mut index: usize = 0;
    assert(found.deep_view() == Seq::<Seq<char>>::empty());
    while index < all.len()
        invariant
            index <= all@.len(),
            all@ == value@,
            length == rest@.len(),
            length <= index,
            (found.deep_view(), rest@) == words_and_rest(all@.take(index as int)),
        decreases all@.len() - index,
    {
        assert(all@.take(index + 1).drop_last() == all@.take(index as int));
        let ghost known = found.deep_view();
        let ghost word = rest@;
        let character = all[index];
        let white = character == ' ' || character == '\t' || character == '\n' || character
            == '\u{c}' || character == '\r';
        if !white {
            rest.push(character);
            length += 1;
        } else if length > 0 {
            found.push(rest);
            assert(found.deep_view() == known.push(word));
            rest = String::new();
            length = 0;
            assert(rest@ == Seq::<char>::empty());
        }
        index += 1;
    }
    assert(all@.take(index as int) == all@);
    if length > 0 {
        let ghost known = found.deep_view();
        let ghost word = rest@;
        found.push(rest);
        assert(found.deep_view() == known.push(word));
    }
    found
}

/// A text without the repetitions of `character` at its start.
pub open spec fn trimmed_start_of(text: Seq<char>, character: char) -> Seq<char>
    decreases text.len(),
{
    if text.len() > 0 && text[0] == character {
        trimmed_start_of(text.drop_first(), character)
    } else {
        text
    }
}

/// A text without the quotation marks at its start and its end.
pub open spec fn unquoted(text: Seq<char>) -> Seq<char> {
    text::trimmed_end(trimmed_start_of(text, '"'), '"')
}

fn unquote(value: &str) -> (inner: String)
    ensures
        inner@ == unquoted(value@),
{
    let all = text::characters(value);
    let mut start: usize = 0;
    assert(all@.subrange(0, all@.len() as int) == value@);
    while start < all.len() && all[start] == '"'
        invariant
            start <= all@.len(),
            trimmed_start_of(value@, '"') == trimmed_start_of(
                all@.subrange(start as int, all@.len() as int),
                '"',
            ),
        decreases all@.len() - start,
    {
        assert(all@.subrange(start as int, all@.len() as int).drop_first() == all@.subrange(
            start + 1,
            all@.len() as int,
        ));
        start += 1;
    }
    text::trim_end(text::text_between(&all, start, all.len()).as_str(), '"')
}

/// The relation types that a link's parameters give: those of the first parameter named `rel`.
pub open spec fn relations_among(parameters: Seq<Seq<char>>) -> Seq<Seq<char>>
    decreases parameters.len(),
{
    if parameters.len() == 0 {
        Seq::empty()
    } else {
        match text::split_at_first(text::trimmed(parameters[0]), "="@) {
            Some((name, value)) if text::lower(name) == text::lower("rel"@) => words(
                unquoted(value),
            ),
            _ => relations_among(parameters.drop_first()),
        }
    }
}

fn relations(parameters: &Vec<String>) -> (relations: Vec<String>)
    ensures
        relations.deep_view() == relations_among(parameters.deep_view()),
{
    let ghost all = parameters.deep_view();
    let mut index: usize = 0;
    assert(all.skip(0) == all);
    while index < parameters.len()
        invariant
            index <= parameters@.len(),
            all == parameters.deep_view(),
            relations_among(all) == relations_among(all.skip(index as int)),
        decreases parameters@.len() - index,
    {
        assert(all.skip(index as int).drop_first() == all.skip(index + 1));
        assert(all.skip(index as int)[0] == parameters@[index as int]@);
        if let Some((name, value)) = text::split_once(
            text::trim(parameters[index].as_str()).as_str(),
            "=",
        ) {
            if text::same_ignoring_case(name.as_str(), "rel") {
                return split_words(unquote(value.as_str()).as_str());
            }
        }
        index += 1;
    }
    let none: Vec<String> = Vec::new();
    assert(none.deep_view() == Seq::<Seq<char>>::empty());
    none
}

/// Whether a character is one of ASCII's.
pub open spec fn is_ascii(character: char) -> bool {
    character <= '\u{7f}'
}

fn is_ascii_character(character: char) -> (ascii: bool)
    ensures
        ascii == is_ascii(character),
{
    character <= '\u{7f}'
}

/// The target and relation types of one link, unless it has no target. A link's target stands
/// behind one ASCII character and before the first `>`.
pub open spec fn link_in(part: Seq<char>) -> Option<(Seq<char>, Seq<Seq<char>>)> {
    let part = text::trimmed(part);
    match text::found(part, ">"@) {
        Some(end) if end >= 1 && is_ascii(part[0]) => Some(
            (
                part.subrange(1, end),
                relations_among(text::split(part.skip(end + 1), ';')),
            ),
        ),
        _ => None,
    }
}

/// The links of some parts that have a target, in order.
pub open spec fn links_in(parts: Seq<Seq<char>>) -> Seq<(Seq<char>, Seq<Seq<char>>)>
    decreases parts.len(),
{
    if parts.len() == 0 {
        Seq::empty()
    } else {
        match link_in(parts.last()) {
            Some(link) => links_in(parts.drop_last()).push(link),
            None => links_in(parts.drop_last()),
        }
    }
}

fn parse_link(part: &str) -> (link: Option<(String, Vec<String>)>)
    ensures
        link.deep_view() == link_in(part@),
{
    let part = text::trim(part);
    let all = text::characters(part.as_str());
    proof {
        reveal_strlit(">");
    }
    match text::find(&all, ">") {
        Some(end) => {
            assert(end + 1 <= all.len());
            if end >= 1 && is_ascii_character(all[0]) {
                let target = text::text_between(&all, 1, end);
                let rest = text::text_between(&all, end + 1, all.len());
                assert(rest@ == part@.skip(end + 1));
                let relations = relations(&text::split_on(rest.as_str(), ';'));
                Some((target, relations))
            } else {
                None
            }
        },
        None => None,
    }
}

/// The links of a `Link` header that have a target, with their relation types, in order.
pub fn parse_links(value: &str) -> (links: Vec<(String, Vec<String>)>)
    ensures
        links.deep_view() == links_in(text::split(value@, ',')),
{
    let parts = text::split_on(value, ',');
    let ghost all = parts.deep_view();
    let mut links: Vec<(String, Vec<String>)> = Vec::new();
    let mut index: usize = 0;
    assert(links.deep_view() == Seq::<(Seq<char>, Seq<Seq<char>>)>::empty());
    while index < parts.len()
        invariant
            index <= parts@.len(),
            all == parts.deep_view(),
            links.deep_view() == links_in(all.take(index as int)),
        decreases parts@.len() - index,
    {
        let ghost known = links.deep_view();
        assert(all.take(index + 1).drop_last() == all.take(index as int));
        if let Some(link) = parse_link(parts[index].as_str()) {
            let ghost added = link.deep_view();
            links.push(link);
            assert(links.deep_view() == known.push(added));
        }
        index += 1;
    }
    assert(all.take(index as int) == all);
    links
}

/// The links of some `Link` headers, in order; a header that is not UTF-8 has none.
pub open spec fn header_links(headers: Seq<Seq<u8>>) -> Seq<(Seq<char>, Seq<Seq<char>>)>
    decreases headers.len(),
{
    if headers.len() == 0 {
        Seq::empty()
    } else {
        header_links(headers.drop_last()) + match text::decoded(headers.last()) {
            Some(value) => links_in(text::split(value, ',')),
            None => Seq::empty(),
        }
    }
}

fn all_links(head: &ResponseHead) -> (links: Vec<(String, Vec<String>)>)
    ensures
        links.deep_view() == header_links(head.deep_view().links),
{
    let ghost all = head.deep_view().links;
    let mut links: Vec<(String, Vec<String>)> = Vec::new();
    let mut index: usize = 0;
    assert(links.deep_view() == Seq::<(Seq<char>, Seq<Seq<char>>)>::empty());
    while index < head.links.len()
        invariant
            index <= head.links@.len(),
            all == head.deep_view().links,
            links.deep_view() == header_links(all.take(index as int)),
        decreases head.links@.len() - index,
    {
        let ghost known = links.deep_view();
        assert(all.take(index + 1).drop_last() == all.take(index as int));
        assert(all.take(index + 1).last() == head.links@[index as int]@);
        match text::decode(&head.links[index]) {
            Some(value) => {
                let mut more = parse_links(value.as_str());
                let ghost added = more.deep_view();
                links.append(&mut more);
                assert(links.deep_view() == known + added);
            },
            None => {
                assert(known + Seq::<(Seq<char>, Seq<Seq<char>>)>::empty() == known);
            },
        }
        index += 1;
    }
    assert(all.take(index as int) == all);
    links
}

/// How the first link with a relation that identifies the expected page does so.
pub open spec fn linked_match(
    links: Seq<(Seq<char>, Seq<Seq<char>>)>,
    relation: Seq<char>,
    current: Seq<char>,
    expected_page: nat,
) -> PageUriMatch
    decreases links.len(),
{
    if links.len() == 0 {
        PageUriMatch::Different
    } else {
        let matched = if links[0].1.contains(relation) {
            page_match(links[0].0, current, expected_page)
        } else {
            PageUriMatch::Different
        };
        if matched != PageUriMatch::Different {
            matched
        } else {
            linked_match(links.drop_first(), relation, current, expected_page)
        }
    }
}

fn is_among(value: &str, values: &Vec<String>) -> (found: bool)
    ensures
        found == values.deep_view().contains(value@),
{
    let mut index: usize = 0;
    while index < values.len()
        invariant
            index <= values@.len(),
            forall|earlier: int|
                0 <= earlier < index ==> #[trigger] values.deep_view()[earlier] != value@,
        decreases values@.len() - index,
    {
        if text::same(values[index].as_str(), value) {
            assert(values.deep_view()[index as int] == value@);
            return true;
        }
        index += 1;
    }
    false
}

fn find_link(
    links: &Vec<(String, Vec<String>)>,
    relation: &str,
    current: &str,
    expected_page: usize,
) -> (matched: PageUriMatch)
    ensures
        matched == linked_match(links.deep_view(), relation@, current@, expected_page as nat),
{
    let ghost all = links.deep_view();
    let mut index: usize = 0;
    assert(all.skip(0) == all);
    while index < links.len()
        invariant
            index <= links@.len(),
            all == links.deep_view(),
            linked_match(all, relation@, current@, expected_page as nat) == linked_match(
                all.skip(index as int),
                relation@,
                current@,
                expected_page as nat,
            ),
        decreases links@.len() - index,
    {
        assert(all.skip(index as int).drop_first() == all.skip(index + 1));
        let link = &links[index];
        assert(all.skip(index as int)[0] == link.deep_view());
        if is_among(relation, &link.1) {
            let matched = page_uri_match(link.0.as_str(), current, expected_page);
            if matched != PageUriMatch::Different {
                return matched;
            }
        }
        index += 1;
    }
    PageUriMatch::Different
}

/// A page's name in findings: the endpoint, the pass, and the page.
pub open spec fn page_label(name: Seq<char>, pass: Seq<char>, page: nat) -> Seq<char> {
    name + " "@ + pass + " page "@ + text::decimal(page)
}

fn label_page(name: &str, pass: &str, page: usize) -> (label: String)
    ensures
        label@ == page_label(name@, pass@, page as nat),
{
    let mut label = text::joined(name, " ");
    label.append(pass);
    label.append(" page ");
    label.append(text::count_text(page).as_str());
    label
}

/// What is found of a page's link with one relation, after `findings`.
pub open spec fn relation_findings(
    findings: Seq<FindingView>,
    links: Seq<(Seq<char>, Seq<Seq<char>>)>,
    url: Seq<char>,
    relation: Seq<char>,
    label: Seq<char>,
    expected_page: nat,
) -> Seq<FindingView> {
    match linked_match(links, relation, url, expected_page) {
        PageUriMatch::Exact => Seq::empty(),
        PageUriMatch::Attested => caution_once(
            findings,
            "attested_pagination_link"@,
            ATTEST_LINK_WARNING@,
        ),
        PageUriMatch::Different => seq![
            caution(
                "missing_pagination_link"@,
                label + " has no expected "@ + relation + " Link to page "@ + text::decimal(
                    expected_page,
                ),
            ),
        ],
    }
}

/// What is found of the links of a page among so many, after `findings`: every page but the first
/// links to the one before it, and every page but the last to the one after it.
#[verifier::opaque]
pub open spec fn link_findings(
    findings: Seq<FindingView>,
    head: HeadView,
    url: Seq<char>,
    page: nat,
    total: Option<usize>,
    label: Seq<char>,
) -> Seq<FindingView> {
    match total {
        None => Seq::empty(),
        Some(total) => {
            let links = header_links(head.links);
            let backward = if page > 1 {
                relation_findings(findings, links, url, "prev"@, label, (page - 1) as nat)
            } else {
                Seq::empty()
            };
            let forward = if page < total {
                relation_findings(findings + backward, links, url, "next"@, label, page + 1)
            } else {
                Seq::empty()
            };
            backward + forward
        },
    }
}

fn check_relation(
    links: &Vec<(String, Vec<String>)>,
    url: &str,
    relation: &str,
    label: &str,
    expected_page: usize,
    report: &mut Analysis,
)
    ensures
        final(report).deep_view() == old(report).deep_view().with(
            relation_findings(
                old(report).deep_view().findings,
                links.deep_view(),
                url@,
                relation@,
                label@,
                expected_page as nat,
            ),
        ),
{
    let ghost known = report.deep_view();
    match find_link(links, relation, url, expected_page) {
        PageUriMatch::Exact => {
            assert(known.with(Seq::empty()) =~= known);
        },
        PageUriMatch::Attested => {
            warning_once(report, "attested_pagination_link", ATTEST_LINK_WARNING);
        },
        PageUriMatch::Different => {
            let mut message = text::joined(label, " has no expected ");
            message.append(relation);
            message.append(" Link to page ");
            message.append(text::count_text(expected_page).as_str());
            warning(report, "missing_pagination_link", message);
        },
    }
}

fn check_header_links(
    url: &str,
    head: &ResponseHead,
    page: usize,
    total: Option<usize>,
    label: &str,
    report: &mut Analysis,
)
    ensures
        final(report).deep_view() == old(report).deep_view().with(
            link_findings(
                old(report).deep_view().findings,
                head.deep_view(),
                url@,
                page as nat,
                total,
                label@,
            ),
        ),
{
    proof {
        reveal(link_findings);
    }
    let ghost known = report.deep_view();
    let ghost mut backward = Seq::<FindingView>::empty();
    assert(known.with(backward) =~= known);
    let total = match total {
        Some(total) => total,
        None => {
            return ;
        },
    };
    let links = all_links(head);
    if page > 1 {
        proof {
            backward = relation_findings(
                known.findings,
                links.deep_view(),
                url@,
                "prev"@,
                label@,
                (page - 1) as nat,
            );
        }
        check_relation(&links, url, "prev", label, page - 1, report);
    }
    let ghost middle = report.deep_view();
    assert(middle == known.with(backward));
    if page < total {
        check_relation(&links, url, "next", label, page + 1, report);
        assert(report.deep_view() =~= known.with(
            backward + relation_findings(
                known.findings + backward,
                links.deep_view(),
                url@,
                "next"@,
                label@,
                (page + 1) as nat,
            ),
        ));
    } else {
        assert(backward + Seq::<FindingView>::empty() =~= backward);
    }
}

/// A text in quotes, or words for the lack of one.
pub open spec fn displayed(value: Option<Seq<char>>) -> Seq<char> {
    match value {
        Some(value) => text::quoted(value),
        None => "no value"@,
    }
}

/// A text in quotes, or words for the lack of one.
pub fn display_optional(value: Option<&str>) -> (displayed: String)
    ensures
        displayed@ == self::displayed(value.deep_view()),
{
    match value {
        Some(value) => text::quote(value),
        None => "no value".to_owned(),
    }
}

/// Whether a status is a success, or says that nothing changed since one.
pub fn is_success(status: u16) -> (success: bool)
    ensures
        success == archive::is_exposed(status),
{
    archive::probe_succeeded(status)
}

/// Whether a revisit is cut off behind its head because the rest is stored elsewhere.
pub open spec fn is_intentional(response: ResponseView, reason: Seq<char>) -> bool {
    text::lower(reason) == text::lower("length"@) && match response.revisit {
        Some(revisit) => revisit.profile == StoredRevisitProfile::IdenticalPayloadDigest
            || revisit.profile == StoredRevisitProfile::ServerNotModified,
        None => false,
    }
}

/// Whether a revisit is cut off behind its head because the rest is stored elsewhere.
pub fn intentional_revisit_truncation(response: &StoredResponse, reason: &str) -> (intentional: bool)
    ensures
        intentional == is_intentional(response.deep_view(), reason@),
{
    text::same_ignoring_case(reason, "length") && match &response.revisit {
        Some(revisit) => revisit.profile == StoredRevisitProfile::IdenticalPayloadDigest
            || revisit.profile == StoredRevisitProfile::ServerNotModified,
        None => false,
    }
}

/// Whether a response is cut off before its end, other than a revisit behind its head.
pub open spec fn is_cut_off(response: ResponseView) -> bool {
    match response.truncation {
        Some(reason) => !is_intentional(response, reason),
        None => false,
    }
}

fn is_truncated(response: &StoredResponse) -> (truncated: bool)
    ensures
        truncated == is_cut_off(response.deep_view()),
{
    match &response.truncation {
        Some(reason) => !intentional_revisit_truncation(response, reason.as_str()),
        None => false,
    }
}

/// The HTTP head of a group's response.
pub open spec fn head_of(group: GroupView) -> Option<HeadView> {
    match group.response {
        Some(response) => response.message.head,
        None => None,
    }
}

/// The HTTP head of a group's response.
pub fn response_metadata(group: &CaptureGroup) -> (head: Option<&ResponseHead>)
    ensures
        head.deep_view() == head_of(group.deep_view()),
{
    match &group.response {
        Some(response) => response.metadata(),
        None => None,
    }
}

/// Whether a group's response is a challenge that only a browser can answer.
pub open spec fn is_challenge(group: GroupView) -> bool {
    match group.response {
        None => false,
        Some(response) => match response.message.head {
            None => false,
            Some(head) => if head.status == 403 && (head.mitigated matches Some(value) && bytes::spells(
                value,
                "challenge"@,
            )) {
                true
            } else {
                head.status == 454 && match response.message.entity {
                    Ok(entity) => bytes::holds_bytes(
                        entity.bytes,
                        vstd::utf8::encode_utf8("sc-challenge"@),
                    ) && bytes::holds_bytes(entity.bytes, vstd::utf8::encode_utf8("/.sc-verify/"@)),
                    Err(_) => false,
                }
            },
        },
    }
}

/// Whether a group's response is a challenge that only a browser can answer.
pub fn is_server_challenge(group: &CaptureGroup) -> (challenged: bool)
    ensures
        challenged == is_challenge(group.deep_view()),
{
    let response = match &group.response {
        Some(response) => response,
        None => {
            return false;
        },
    };
    let head = match response.metadata() {
        Some(head) => head,
        None => {
            return false;
        },
    };
    let mitigated = match &head.mitigated {
        Some(value) => bytes::is_spelled(value, "challenge"),
        None => false,
    };
    if head.status == 403 && mitigated {
        return true;
    }
    if head.status != 454 {
        return false;
    }
    match &response.message.entity {
        Ok(entity) => bytes::contains_text(&entity.bytes, "sc-challenge") && bytes::contains_text(
            &entity.bytes,
            "/.sc-verify/",
        ),
        Err(_) => false,
    }
}

/// What the payload of a capture is known to be.
pub enum ResolvedPayload<'a> {
    /// The payload of an original response.
    Block(&'a StoredResponse),
    /// A payload that is stored nowhere, but was identified as JSON.
    IdentifiedJson,
    /// Nothing is known of the payload.
    Missing,
}

/// A [`ResolvedPayload`], over the view of its response.
#[verifier::ext_equal]
pub enum ResolvedView {
    Block(ResponseView),
    IdentifiedJson,
    Missing,
}

impl<'a> DeepView for ResolvedPayload<'a> {
    type V = ResolvedView;

    open spec fn deep_view(&self) -> ResolvedView {
        match self {
            ResolvedPayload::Block(response) => ResolvedView::Block(response.deep_view()),
            ResolvedPayload::IdentifiedJson => ResolvedView::IdentifiedJson,
            ResolvedPayload::Missing => ResolvedView::Missing,
        }
    }
}

/// The payload that a capture's response stands for, through at most so many revisits.
pub open spec fn resolved_within(groups: Seq<GroupView>, index: int, steps: nat) -> ResolvedView
    decreases steps,
{
    if steps == 0 || !(0 <= index < groups.len()) {
        ResolvedView::Missing
    } else {
        match groups[index].response {
            None => ResolvedView::Missing,
            Some(response) => match response.revisit {
                None => ResolvedView::Block(response),
                Some(revisit) => match revisit.original {
                    Some(original) => resolved_within(
                        groups,
                        original as int,
                        (steps - 1) as nat,
                    ),
                    None => if revisit.identified_json {
                        ResolvedView::IdentifiedJson
                    } else {
                        ResolvedView::Missing
                    },
                },
            },
        }
    }
}

/// The payload that a capture's response stands for, through any number of revisits. Revisits of
/// each other, which are more than there are captures, stand for nothing.
pub open spec fn resolved(groups: Seq<GroupView>, index: int) -> ResolvedView {
    resolved_within(groups, index, groups.len())
}

/// The payload that a capture's response stands for, through any number of revisits.
pub fn resolved_payload<'a>(groups: &'a Vec<CaptureGroup>, group: usize) -> (payload:
    ResolvedPayload<'a>)
    ensures
        payload.deep_view() == resolved(groups.deep_view(), group as int),
{
    let ghost all = groups.deep_view();
    let mut index: usize = group;
    let mut steps: usize = groups.len();
    while steps > 0
        invariant
            all == groups.deep_view(),
            resolved(all, group as int) == resolved_within(all, index as int, steps as nat),
        decreases steps,
    {
        if index >= groups.len() {
            return ResolvedPayload::Missing;
        }
        assert(all[index as int] == groups@[index as int].deep_view());
        let response = match &groups[index].response {
            Some(response) => response,
            None => {
                return ResolvedPayload::Missing;
            },
        };
        let revisit = match &response.revisit {
            Some(revisit) => revisit,
            None => {
                return ResolvedPayload::Block(response);
            },
        };
        match revisit.original {
            Some(original) => {
                index = original;
            },
            None => {
                return if revisit.identified_json {
                    ResolvedPayload::IdentifiedJson
                } else {
                    ResolvedPayload::Missing
                };
            },
        }
        steps -= 1;
    }
    ResolvedPayload::Missing
}

/// Whether the payload that a capture's response stands for is a JSON array.
pub open spec fn holds_array(groups: Seq<GroupView>, index: int) -> bool {
    match resolved(groups, index) {
        ResolvedView::Block(response) => match response.message.entity {
            Ok(entity) => json::is_json_array(entity.bytes),
            Err(_) => false,
        },
        ResolvedView::IdentifiedJson => true,
        ResolvedView::Missing => false,
    }
}

fn has_array(groups: &Vec<CaptureGroup>, index: usize) -> (array: bool)
    ensures
        array == holds_array(groups.deep_view(), index as int),
{
    match resolved_payload(groups, index) {
        ResolvedPayload::Block(response) => match &response.message.entity {
            Ok(entity) => json::is_array(&entity.bytes),
            Err(_) => false,
        },
        ResolvedPayload::IdentifiedJson => true,
        ResolvedPayload::Missing => false,
    }
}

/// What is found of the records that make up one capture.
#[verifier::opaque]
pub open spec fn shape_findings(group: GroupView) -> Seq<FindingView> {
    match group.response {
        None => seq![
            fault(
                "missing_capture_response"@,
                "capture of "@ + group.url + " is missing a response or revisit"@,
            ),
        ],
        Some(response) => where_called_for(
            response.url != group.url,
            fault(
                "capture_uri_mismatch"@,
                "capture request URI "@ + group.url + " does not match response URI "@
                    + response.url,
            ),
        ) + where_called_for(
            is_cut_off(response),
            fault(
                "truncated_capture_response"@,
                "capture of "@ + group.url + " has a response truncated because of "@
                    + response.truncation->0,
            ),
        ) + where_called_for(
            response.message.head is None,
            fault(
                "invalid_http_response"@,
                "capture of "@ + group.url + " has an invalid HTTP response"@,
            ),
        ) + if group.metadata.len() == 0 {
            seq![
                fault(
                    "missing_capture_metadata"@,
                    "capture of "@ + group.url + " is missing metadata"@,
                ),
            ]
        } else {
            let metadata = group.metadata[0];
            where_called_for(
                metadata.url != Some(response.url),
                fault(
                    "metadata_uri_mismatch"@,
                    "capture response URI "@ + response.url + " does not match metadata URI "@ + (
                    match metadata.url {
                        Some(url) => url,
                        None => "<missing>"@,
                    }),
                ),
            ) + where_called_for(
                !metadata.fields,
                fault(
                    "metadata_not_warc_fields"@,
                    "capture of "@ + group.url + " metadata is not application/warc-fields"@,
                ),
            )
        },
    }
}

/// What is found of the records of a capture that was not looked at before.
pub open spec fn new_shape_findings(
    groups: Seq<GroupView>,
    index: usize,
    checked: Set<usize>,
) -> Seq<FindingView> {
    if checked.contains(index) {
        Seq::empty()
    } else {
        shape_findings(groups[index as int])
    }
}

fn sentence(before: &str, subject: &str, after: &str) -> (sentence: String)
    ensures
        sentence@ == before@ + subject@ + after@,
{
    let mut sentence = text::joined(before, subject);
    sentence.append(after);
    sentence
}

fn check_response_shape(group: &CaptureGroup, response: &StoredResponse, report: &mut Analysis)
    requires
        group.deep_view().response == Some(response.deep_view()),
    ensures
        final(report).deep_view() == old(report).deep_view().with(
            shape_findings(group.deep_view()),
        ),
{
    proof {
        reveal(shape_findings);
    }
    let ghost known = report.deep_view();
    let ghost mut found = Seq::<FindingView>::empty();
    assert(known.with(found) =~= known);
    if !text::same(response.url.as_str(), group.url.as_str()) {
        let mut message = text::joined("capture request URI ", group.url.as_str());
        message.append(" does not match response URI ");
        message.append(response.url.as_str());
        proof {
            found = found + seq![fault("capture_uri_mismatch"@, message@)];
        }
        error(report, "capture_uri_mismatch", message);
        assert(report.deep_view() =~= known.with(found));
    }
    if is_truncated(response) {
        if let Some(reason) = &response.truncation {
            let mut message = text::joined("capture of ", group.url.as_str());
            message.append(" has a response truncated because of ");
            message.append(reason.as_str());
            proof {
                found = found + seq![fault("truncated_capture_response"@, message@)];
            }
            error(report, "truncated_capture_response", message);
            assert(report.deep_view() =~= known.with(found));
        }
    }
    if response.metadata().is_none() {
        let message = sentence("capture of ", group.url.as_str(), " has an invalid HTTP response");
        proof {
            found = found + seq![fault("invalid_http_response"@, message@)];
        }
        error(report, "invalid_http_response", message);
        assert(report.deep_view() =~= known.with(found));
    }
    if group.metadata.len() == 0 {
        let message = sentence("capture of ", group.url.as_str(), " is missing metadata");
        proof {
            found = found + seq![fault("missing_capture_metadata"@, message@)];
        }
        error(report, "missing_capture_metadata", message);
        assert(report.deep_view() =~= known.with(found));
        assert(found =~= shape_findings(group.deep_view()));
        return ;
    }
    let metadata = &group.metadata[0];
    assert(group.deep_view().metadata[0] == metadata.deep_view());
    let matches = match &metadata.url {
        Some(url) => text::same(url.as_str(), response.url.as_str()),
        None => false,
    };
    if !matches {
        let mut message = text::joined("capture response URI ", response.url.as_str());
        message.append(" does not match metadata URI ");
        match &metadata.url {
            Some(url) => message.append(url.as_str()),
            None => message.append("<missing>"),
        }
        proof {
            found = found + seq![fault("metadata_uri_mismatch"@, message@)];
        }
        error(report, "metadata_uri_mismatch", message);
        assert(report.deep_view() =~= known.with(found));
    }
    if !metadata.fields {
        let message = sentence(
            "capture of ",
            group.url.as_str(),
            " metadata is not application/warc-fields",
        );
        proof {
            found = found + seq![fault("metadata_not_warc_fields"@, message@)];
        }
        error(report, "metadata_not_warc_fields", message);
        assert(report.deep_view() =~= known.with(found));
    }
    assert(found =~= shape_findings(group.deep_view()));
}

fn check_capture_shape(
    groups: &Vec<CaptureGroup>,
    index: usize,
    checked: &mut HashSet<usize>,
    report: &mut Analysis,
)
    requires
        index < groups@.len(),
    ensures
        final(report).deep_view() == old(report).deep_view().with(
            new_shape_findings(groups.deep_view(), index, old(checked)@),
        ),
        final(checked)@ == old(checked)@.insert(index),
{
    proof {
        reveal(shape_findings);
    }
    broadcast use vstd::std_specs::hash::group_hash_axioms;

    let ghost known = report.deep_view();
    assert(known.with(Seq::empty()) =~= known);
    if !checked.insert(index) {
        assert(checked@ == old(checked)@.insert(index));
        return ;
    }
    let group = &groups[index];
    assert(groups.deep_view()[index as int] == group.deep_view());
    match &group.response {
        None => {
            error(
                report,
                "missing_capture_response",
                sentence(
                    "capture of ",
                    group.url.as_str(),
                    " is missing a response or revisit",
                ),
            );
        },
        Some(response) => {
            check_response_shape(group, response, report);
        },
    }
}

/// The URL that led to a capture, as its first metadata has it.
pub open spec fn via_of(group: GroupView) -> Option<Seq<char>> {
    if group.metadata.len() > 0 {
        group.metadata[0].via
    } else {
        None
    }
}

/// What is found of the URL that led to a capture.
pub open spec fn via_findings(
    group: GroupView,
    expected: Option<Seq<char>>,
    label: Seq<char>,
) -> Seq<FindingView> {
    where_called_for(
        via_of(group) != expected,
        fault(
            "wrong_via"@,
            label + " has via "@ + displayed(via_of(group)) + ", expected "@ + displayed(expected),
        ),
    )
}

fn check_via(group: &CaptureGroup, expected: Option<&str>, label: &str, report: &mut Analysis)
    ensures
        final(report).deep_view() == old(report).deep_view().with(
            via_findings(group.deep_view(), expected.deep_view(), label@),
        ),
{
    let ghost known = report.deep_view();
    assert(known.with(Seq::empty()) =~= known);
    let actual: Option<&str> = if group.metadata.len() > 0 {
        assert(group.deep_view().metadata[0] == group.metadata@[0].deep_view());
        match &group.metadata[0].via {
            Some(via) => Some(via.as_str()),
            None => None,
        }
    } else {
        None
    };
    assert(actual.deep_view() == via_of(group.deep_view()));
    let same = match (actual, expected) {
        (Some(actual), Some(expected)) => text::same(actual, expected),
        (None, None) => true,
        _ => false,
    };
    if !same {
        let mut message = text::joined(label, " has via ");
        message.append(display_optional(actual).as_str());
        message.append(", expected ");
        message.append(display_optional(expected).as_str());
        error(report, "wrong_via", message);
    }
}

/// A capture of one page of a collection.
#[derive(Clone, Copy, Debug, Eq, PartialEq)]
pub struct PageCapture {
    /// The index of the capture's group.
    pub group: usize,
    /// The page that its URL asks for.
    pub page: Option<usize>,
    /// Whether its URL has the shape of an archive's page URLs.
    pub valid_query: bool,
}

/// The probe of a collection, and what its response advertises.
#[derive(Debug)]
pub struct Probe {
    /// The collection that was probed.
    pub collection: Collection,
    /// The bare URL of the collection.
    pub url: String,
    /// The response's status.
    pub status: Option<u16>,
    /// The item count that the response advertises.
    pub items: Option<usize>,
}

/// The parts of a [`Probe`].
#[verifier::ext_equal]
pub struct ProbeView {
    pub collection: CollectionView,
    pub url: Seq<char>,
    pub status: Option<u16>,
    pub items: Option<usize>,
}

impl DeepView for Probe {
    type V = ProbeView;

    open spec fn deep_view(&self) -> ProbeView {
        ProbeView {
            collection: self.collection.deep_view(),
            url: self.url@,
            status: self.status,
            items: self.items,
        }
    }
}

impl ProbeView {
    /// Whether the probe was answered with success.
    pub open spec fn succeeded(self) -> bool {
        self.status matches Some(status) && archive::is_exposed(status)
    }
}

impl Probe {
    fn succeeded(&self) -> (succeeded: bool)
        ensures
            succeeded == self.deep_view().succeeded(),
    {
        match self.status {
            Some(status) => is_success(status),
            None => false,
        }
    }
}

/// What is found of a page's URL and position, before its response is looked at.
#[verifier::opaque]
pub open spec fn position_findings(
    group: GroupView,
    capture: PageCapture,
    page: nat,
    expected_via: Seq<char>,
    name: Seq<char>,
    pass: Seq<char>,
) -> Seq<FindingView> {
    where_called_for(
        !capture.valid_query,
        fault(
            "malformed_pagination_uri"@,
            name + " "@ + pass + " pagination URI has the wrong shape: "@ + group.url,
        ),
    ) + where_called_for(
        !(capture.page matches Some(number) && number == page),
        fault(
            "pagination_page_out_of_order"@,
            name + " "@ + pass + " pagination capture "@ + text::decimal(page) + " is page "@ + (
            match capture.page {
                Some(number) => text::decimal(number as nat),
                None => "?"@,
            }) + ", expected page "@ + text::decimal(page),
        ),
    ) + via_findings(group, Some(expected_via), page_label(name, pass, page))
}

/// What is found of a page's response, but for its links.
#[verifier::opaque]
pub open spec fn answer_findings(head: HeadView, array: bool, label: Seq<char>) -> Seq<FindingView> {
    where_called_for(
        head.status != 200 && head.status != 304,
        fault(
            "unexpected_page_status"@,
            label + " has unexpected HTTP status "@ + text::decimal(head.status as nat),
        ),
    ) + where_called_for(
        evidence::header_count(head.total_pages) is None,
        fault("missing_total_pages"@, label + " has missing or invalid X-WP-TotalPages"@),
    ) + where_called_for(
        head.status == 200 && !array,
        fault("page_not_json_array"@, label + " response is not a JSON array"@),
    )
}

/// What is found of one page of a collection, after `findings`.
pub open spec fn page_findings(
    findings: Seq<FindingView>,
    checked: Set<usize>,
    groups: Seq<GroupView>,
    capture: PageCapture,
    page: nat,
    expected_via: Seq<char>,
    name: Seq<char>,
    pass: Seq<char>,
) -> Seq<FindingView> {
    let group = groups[capture.group as int];
    let label = page_label(name, pass, page);
    let asked = new_shape_findings(groups, capture.group, checked) + position_findings(
        group,
        capture,
        page,
        expected_via,
        name,
        pass,
    );
    match head_of(group) {
        None => asked,
        Some(head) => {
            let answered = asked + answer_findings(
                head,
                holds_array(groups, capture.group as int),
                label,
            );
            answered + link_findings(
                findings + answered,
                head,
                group.url,
                page,
                evidence::header_count(head.total_pages),
                label,
            )
        },
    }
}

fn check_position(
    group: &CaptureGroup,
    capture: &PageCapture,
    page: usize,
    expected_via: &str,
    name: &str,
    pass: &str,
    report: &mut Analysis,
)
    ensures
        final(report).deep_view() == old(report).deep_view().with(
            position_findings(
                group.deep_view(),
                *capture,
                page as nat,
                expected_via@,
                name@,
                pass@,
            ),
        ),
{
    proof {
        reveal(position_findings);
    }
    let ghost known = report.deep_view();
    let ghost mut found = Seq::<FindingView>::empty();
    assert(known.with(found) =~= known);
    if !capture.valid_query {
        let mut message = text::joined(name, " ");
        message.append(pass);
        message.append(" pagination URI has the wrong shape: ");
        message.append(group.url.as_str());
        proof {
            found = found + seq![fault("malformed_pagination_uri"@, message@)];
        }
        error(report, "malformed_pagination_uri", message);
        assert(report.deep_view() =~= known.with(found));
    }
    let in_order = match capture.page {
        Some(number) => number == page,
        None => false,
    };
    if !in_order {
        let mut message = text::joined(name, " ");
        message.append(pass);
        message.append(" pagination capture ");
        message.append(text::count_text(page).as_str());
        message.append(" is page ");
        match capture.page {
            Some(number) => message.append(text::count_text(number).as_str()),
            None => message.append("?"),
        }
        message.append(", expected page ");
        message.append(text::count_text(page).as_str());
        proof {
            found = found + seq![fault("pagination_page_out_of_order"@, message@)];
        }
        error(report, "pagination_page_out_of_order", message);
        assert(report.deep_view() =~= known.with(found));
    }
    let ghost via = via_findings(
        group.deep_view(),
        Some(expected_via@),
        page_label(name@, pass@, page as nat),
    );
    check_via(group, Some(expected_via), label_page(name, pass, page).as_str(), report);
    assert(report.deep_view() =~= known.with(found + via));
    assert(found + via =~= position_findings(
        group.deep_view(),
        *capture,
        page as nat,
        expected_via@,
        name@,
        pass@,
    ));
}

fn check_answer(head: &ResponseHead, array: bool, label: &str, report: &mut Analysis) -> (total:
    Option<usize>)
    ensures
        final(report).deep_view() == old(report).deep_view().with(
            answer_findings(head.deep_view(), array, label@),
        ),
        total == evidence::header_count(head.deep_view().total_pages),
{
    proof {
        reveal(answer_findings);
    }
    let ghost known = report.deep_view();
    let ghost mut found = Seq::<FindingView>::empty();
    assert(known.with(found) =~= known);
    if head.status != 200 && head.status != 304 {
        let mut message = text::joined(label, " has unexpected HTTP status ");
        message.append(text::decimal_of(head.status as u64).as_str());
        proof {
            found = found + seq![fault("unexpected_page_status"@, message@)];
        }
        error(report, "unexpected_page_status", message);
        assert(report.deep_view() =~= known.with(found));
    }
    let total = evidence::numeric_header(&head.total_pages);
    if total.is_none() {
        let message = text::joined(label, " has missing or invalid X-WP-TotalPages");
        proof {
            found = found + seq![fault("missing_total_pages"@, message@)];
        }
        error(report, "missing_total_pages", message);
        assert(report.deep_view() =~= known.with(found));
    }
    if head.status == 200 && !array {
        let message = text::joined(label, " response is not a JSON array");
        proof {
            found = found + seq![fault("page_not_json_array"@, message@)];
        }
        error(report, "page_not_json_array", message);
        assert(report.deep_view() =~= known.with(found));
    }
    assert(found =~= answer_findings(head.deep_view(), array, label@));
    total
}

fn lint_page_capture(
    groups: &Vec<CaptureGroup>,
    capture: &PageCapture,
    page: usize,
    expected_via: &str,
    name: &str,
    pass: &str,
    checked: &mut HashSet<usize>,
    report: &mut Analysis,
)
    requires
        capture.group < groups@.len(),
    ensures
        final(report).deep_view() == old(report).deep_view().with(
            page_findings(
                old(report).deep_view().findings,
                old(checked)@,
                groups.deep_view(),
                *capture,
                page as nat,
                expected_via@,
                name@,
                pass@,
            ),
        ),
        final(checked)@ == old(checked)@.insert(capture.group),
{
    let ghost known = report.deep_view();
    let group = &groups[capture.group];
    let ghost view = group.deep_view();
    assert(groups.deep_view()[capture.group as int] == view);
    let ghost shape = new_shape_findings(groups.deep_view(), capture.group, checked@);
    check_capture_shape(groups, capture.group, checked, report);
    let ghost asked = shape + position_findings(
        view,
        *capture,
        page as nat,
        expected_via@,
        name@,
        pass@,
    );
    check_position(group, capture, page, expected_via, name, pass, report);
    assert(report.deep_view() =~= known.with(asked));
    let head = match response_metadata(group) {
        Some(head) => head,
        None => {
            return ;
        },
    };
    let label = label_page(name, pass, page);
    let array = has_array(groups, capture.group);
    let ghost answered = asked + answer_findings(head.deep_view(), array, label@);
    let total = check_answer(head, array, label.as_str(), report);
    assert(report.deep_view() =~= known.with(answered));
    check_header_links(group.url.as_str(), head, page, total, label.as_str(), report);
    assert(report.deep_view() =~= known.with(
        answered + link_findings(
            known.findings + answered,
            head.deep_view(),
            view.url,
            page as nat,
            total,
            label@,
        ),
    ));
}

/// The URL that is expected to have led to a page: that of the page before it, or `first_via`.
pub open spec fn expected_via(
    groups: Seq<GroupView>,
    captures: Seq<PageCapture>,
    position: int,
    first_via: Seq<char>,
) -> Seq<char> {
    if position == 0 {
        first_via
    } else {
        groups[captures[position - 1].group as int].url
    }
}

/// The captures looked at after some pages.
pub open spec fn checked_after(checked: Set<usize>, captures: Seq<PageCapture>) -> Set<usize>
    decreases captures.len(),
{
    if captures.len() == 0 {
        checked
    } else {
        checked_after(checked, captures.drop_last()).insert(captures.last().group)
    }
}

/// What is found of the pages of a pass, in order, after `findings`.
pub open spec fn pages_findings(
    findings: Seq<FindingView>,
    checked: Set<usize>,
    groups: Seq<GroupView>,
    captures: Seq<PageCapture>,
    first_via: Seq<char>,
    name: Seq<char>,
    pass: Seq<char>,
) -> Seq<FindingView>
    decreases captures.len(),
{
    if captures.len() == 0 {
        Seq::empty()
    } else {
        let earlier = pages_findings(
            findings,
            checked,
            groups,
            captures.drop_last(),
            first_via,
            name,
            pass,
        );
        earlier + page_findings(
            findings + earlier,
            checked_after(checked, captures.drop_last()),
            groups,
            captures.last(),
            captures.len(),
            expected_via(groups, captures, captures.len() - 1, first_via),
            name,
            pass,
        )
    }
}

/// The number of pages that a pass over so many advertised pages has: an empty collection still
/// has its first.
pub open spec fn at_least_one(total: usize) -> usize {
    if total == 0 {
        1
    } else {
        total
    }
}

/// What is found of a pass over a collection's pages, after `findings`.
pub open spec fn pass_findings(
    findings: Seq<FindingView>,
    checked: Set<usize>,
    groups: Seq<GroupView>,
    captures: Seq<PageCapture>,
    first_via: Seq<char>,
    total: Option<usize>,
    name: Seq<char>,
    pass: Seq<char>,
) -> Seq<FindingView> {
    pages_findings(findings, checked, groups, captures, first_via, name, pass) + match total {
        Some(total) => where_called_for(
            captures.len() != at_least_one(total),
            fault(
                "wrong_pagination_length"@,
                name + " "@ + pass + " pass has "@ + text::decimal(captures.len())
                    + " captures, expected "@ + text::decimal(at_least_one(total) as nat) + " for "@
                    + text::decimal(total as nat) + " advertised pages"@,
            ),
        ),
        None => Seq::empty(),
    }
}

/// Whether every capture's group is there.
pub open spec fn are_captured(groups: Seq<GroupView>, captures: Seq<PageCapture>) -> bool {
    forall|index: int|
        0 <= index < captures.len() ==> (#[trigger] captures[index]).group < groups.len()
}

fn lint_pass(
    groups: &Vec<CaptureGroup>,
    name: &str,
    captures: &Vec<PageCapture>,
    first_via: &str,
    expected_total: Option<usize>,
    pass: &str,
    checked: &mut HashSet<usize>,
    report: &mut Analysis,
)
    requires
        are_captured(groups.deep_view(), captures@),
    ensures
        final(report).deep_view() == old(report).deep_view().with(
            pass_findings(
                old(report).deep_view().findings,
                old(checked)@,
                groups.deep_view(),
                captures@,
                first_via@,
                expected_total,
                name@,
                pass@,
            ),
        ),
        final(checked)@ == checked_after(old(checked)@, captures@),
{
    let ghost known = report.deep_view();
    let ghost start = checked@;
    let ghost all = groups.deep_view();
    let mut position: usize = 0;
    assert(report.deep_view() =~= known.with(
        pages_findings(
            known.findings,
            start,
            all,
            captures@.take(0),
            first_via@,
            name@,
            pass@,
        ),
    ));
    while position < captures.len()
        invariant
            position <= captures@.len(),
            all == groups.deep_view(),
            are_captured(all, captures@),
            report.deep_view() == known.with(
                pages_findings(
                    known.findings,
                    start,
                    all,
                    captures@.take(position as int),
                    first_via@,
                    name@,
                    pass@,
                ),
            ),
            checked@ == checked_after(start, captures@.take(position as int)),
        decreases captures@.len() - position,
    {
        let ghost earlier = pages_findings(
            known.findings,
            start,
            all,
            captures@.take(position as int),
            first_via@,
            name@,
            pass@,
        );
        let ghost now = captures@.take(position + 1);
        assert(now.drop_last() == captures@.take(position as int));
        assert(now.last() == captures@[position as int]);
        let via: &str = if position == 0 {
            first_via
        } else {
            assert(captures@[position - 1].group < all.len());
            assert(all[captures@[position - 1].group as int].url == groups@[captures@[position
                - 1].group as int].url@);
            groups[captures[position - 1].group].url.as_str()
        };
        assert(via@ == expected_via(all, now, position as int, first_via@));
        let ghost more = page_findings(
            known.findings + earlier,
            checked@,
            all,
            captures@[position as int],
            (position + 1) as nat,
            via@,
            name@,
            pass@,
        );
        lint_page_capture(
            groups,
            &captures[position],
            position + 1,
            via,
            name,
            pass,
            checked,
            report,
        );
        assert(report.deep_view() =~= known.with(earlier + more));
        position += 1;
    }
    assert(captures@.take(position as int) == captures@);
    let ghost pages = pages_findings(
        known.findings,
        start,
        all,
        captures@,
        first_via@,
        name@,
        pass@,
    );
    assert(pages + Seq::<FindingView>::empty() =~= pages);
    if let Some(total) = expected_total {
        let expected: usize = if total == 0 {
            1
        } else {
            total
        };
        if captures.len() != expected {
            let mut message = text::joined(name, " ");
            message.append(pass);
            message.append(" pass has ");
            message.append(text::count_text(captures.len()).as_str());
            message.append(" captures, expected ");
            message.append(text::count_text(expected).as_str());
            message.append(" for ");
            message.append(text::count_text(total).as_str());
            message.append(" advertised pages");
            let ghost length = fault("wrong_pagination_length"@, message@);
            error(report, "wrong_pagination_length", message);
            assert(report.deep_view() =~= known.with(pages + seq![length]));
        }
    }
}

/// Whether a capture is of a page that was delivered whole.
pub open spec fn is_delivered(group: GroupView) -> bool {
    match group.response {
        None => false,
        Some(response) => !is_cut_off(response) && match response.message.head {
            Some(head) => head.status == 200 || head.status == 304,
            None => false,
        },
    }
}

/// Whether a capture is of a page that was delivered whole.
pub fn is_successful_page_capture(group: &CaptureGroup) -> (successful: bool)
    ensures
        successful == is_delivered(group.deep_view()),
{
    let response = match &group.response {
        Some(response) => response,
        None => {
            return false;
        },
    };
    if is_truncated(response) {
        return false;
    }
    match response.metadata() {
        Some(head) => head.status == 200 || head.status == 304,
        None => false,
    }
}

/// The captures of pages that were delivered whole, in order.
pub open spec fn delivered(groups: Seq<GroupView>, captures: Seq<PageCapture>) -> Seq<PageCapture>
    decreases captures.len(),
{
    if captures.len() == 0 {
        Seq::empty()
    } else {
        let earlier = delivered(groups, captures.drop_last());
        if is_delivered(groups[captures.last().group as int]) {
            earlier.push(captures.last())
        } else {
            earlier
        }
    }
}

/// The index behind the first pass: that of the first capture of page one after the first
/// capture, or that behind the last.
pub open spec fn pass_end(captures: Seq<PageCapture>, from: int) -> int
    decreases captures.len() - from,
{
    if from >= captures.len() {
        captures.len() as int
    } else if captures[from].page == Some(1usize) {
        from
    } else {
        pass_end(captures, from + 1)
    }
}

/// The greatest page count that captures advertise.
pub open spec fn greatest_total(groups: Seq<GroupView>, captures: Seq<PageCapture>) -> Option<usize>
    decreases captures.len(),
{
    if captures.len() == 0 {
        None
    } else {
        archive::greatest(
            greatest_total(groups, captures.drop_last()),
            match head_of(groups[captures.last().group as int]) {
                Some(head) => evidence::header_count(head.total_pages),
                None => None,
            },
        )
    }
}

/// The first pass over a collection's delivered pages.
pub open spec fn first_pass(groups: Seq<GroupView>, captures: Seq<PageCapture>) -> Seq<PageCapture> {
    let successful = delivered(groups, captures);
    if successful.len() == 0 {
        successful
    } else {
        successful.take(pass_end(successful, 1))
    }
}

/// A collection's delivered pages after the first pass.
pub open spec fn second_pass(groups: Seq<GroupView>, captures: Seq<PageCapture>) -> Seq<
    PageCapture,
> {
    let successful = delivered(groups, captures);
    if successful.len() == 0 {
        successful
    } else {
        successful.skip(pass_end(successful, 1))
    }
}

/// What is found of the captures of one collection's pages, after `findings`.
pub open spec fn series_findings(
    findings: Seq<FindingView>,
    checked: Set<usize>,
    groups: Seq<GroupView>,
    name: Seq<char>,
    url: Seq<char>,
    captures: Seq<PageCapture>,
) -> Seq<FindingView> {
    let pagination = first_pass(groups, captures);
    let repeated = second_pass(groups, captures);
    let total = greatest_total(groups, pagination);
    let first = pass_findings(
        findings,
        checked,
        groups,
        pagination,
        url,
        total,
        name,
        "pagination"@,
    );
    if repeated.len() == 0 {
        first
    } else if total matches Some(pages) && pages > 1 {
        first + pass_findings(
            findings + first,
            checked_after(checked, pagination),
            groups,
            repeated,
            groups[pagination.last().group as int].url,
            total,
            name,
            "legacy validation"@,
        )
    } else {
        first + seq![
            fault(
                "unnecessary_second_pass"@,
                name + " pagination series has an unnecessary second pass"@,
            ),
        ]
    }
}

/// The captures looked at after those of one collection's pages.
pub open spec fn checked_after_series(
    checked: Set<usize>,
    groups: Seq<GroupView>,
    captures: Seq<PageCapture>,
) -> Set<usize> {
    let pagination = first_pass(groups, captures);
    let repeated = second_pass(groups, captures);
    let first = checked_after(checked, pagination);
    if repeated.len() > 0 && (greatest_total(groups, pagination) matches Some(pages) && pages > 1) {
        checked_after(first, repeated)
    } else {
        first
    }
}

proof fn lemma_delivered_are_captured(groups: Seq<GroupView>, captures: Seq<PageCapture>)
    requires
        are_captured(groups, captures),
    ensures
        are_captured(groups, delivered(groups, captures)),
        delivered(groups, captures).len() <= captures.len(),
    decreases captures.len(),
{
    if captures.len() > 0 {
        let earlier = captures.drop_last();
        assert(are_captured(groups, earlier)) by {
            assert forall|index: int| 0 <= index < earlier.len() implies (
            #[trigger] earlier[index]).group < groups.len() by {
                assert(captures[index] == earlier[index]);
            }
        }
        lemma_delivered_are_captured(groups, earlier);
        assert(captures[captures.len() - 1].group < groups.len());
    }
}

proof fn lemma_pass_end(captures: Seq<PageCapture>, from: int)
    requires
        0 <= from <= captures.len(),
    ensures
        from <= pass_end(captures, from) <= captures.len(),
    decreases captures.len() - from,
{
    if from < captures.len() && captures[from].page != Some(1usize) {
        lemma_pass_end(captures, from + 1);
    }
}

fn delivered_captures(groups: &Vec<CaptureGroup>, captures: &Vec<PageCapture>) -> (successful: Vec<
    PageCapture,
>)
    requires
        are_captured(groups.deep_view(), captures@),
    ensures
        successful@ == delivered(groups.deep_view(), captures@),
{
    let ghost all = groups.deep_view();
    let mut successful: Vec<PageCapture> = Vec::new();
    let mut index: usize = 0;
    while index < captures.len()
        invariant
            index <= captures@.len(),
            all == groups.deep_view(),
            are_captured(all, captures@),
            successful@ == delivered(all, captures@.take(index as int)),
        decreases captures@.len() - index,
    {
        let capture = captures[index];
        assert(captures@[index as int].group < all.len());
        assert(all[capture.group as int] == groups@[capture.group as int].deep_view());
        assert(captures@.take(index + 1).drop_last() == captures@.take(index as int));
        if is_successful_page_capture(&groups[capture.group]) {
            successful.push(capture);
        }
        index += 1;
    }
    assert(captures@.take(index as int) == captures@);
    successful
}

fn greatest_page_count(groups: &Vec<CaptureGroup>, captures: &Vec<PageCapture>) -> (total: Option<
    usize,
>)
    requires
        are_captured(groups.deep_view(), captures@),
    ensures
        total == greatest_total(groups.deep_view(), captures@),
{
    let ghost all = groups.deep_view();
    let mut total: Option<usize> = None;
    let mut index: usize = 0;
    while index < captures.len()
        invariant
            index <= captures@.len(),
            all == groups.deep_view(),
            are_captured(all, captures@),
            total == greatest_total(all, captures@.take(index as int)),
        decreases captures@.len() - index,
    {
        let capture = captures[index];
        assert(captures@[index as int].group < all.len());
        assert(all[capture.group as int] == groups@[capture.group as int].deep_view());
        assert(captures@.take(index + 1).drop_last() == captures@.take(index as int));
        if let Some(head) = response_metadata(&groups[capture.group]) {
            if let Some(advertised) = evidence::numeric_header(&head.total_pages) {
                total = match total {
                    Some(known) if known >= advertised => Some(known),
                    _ => Some(advertised),
                };
            }
        }
        index += 1;
    }
    assert(captures@.take(index as int) == captures@);
    total
}

/// Check the captures of one collection's pages against its probe, and return the greatest page
/// count that the first pass advertises.
pub fn lint_series(
    groups: &Vec<CaptureGroup>,
    probe: &Probe,
    captures: &Vec<PageCapture>,
    checked_shapes: &mut HashSet<usize>,
    report: &mut Analysis,
) -> (total_pages: Option<usize>)
    requires
        are_captured(groups.deep_view(), captures@),
    ensures
        final(report).deep_view() == old(report).deep_view().with(
            series_findings(
                old(report).deep_view().findings,
                old(checked_shapes)@,
                groups.deep_view(),
                probe.deep_view().collection.name(),
                probe.url@,
                captures@,
            ),
        ),
        final(checked_shapes)@ == checked_after_series(
            old(checked_shapes)@,
            groups.deep_view(),
            captures@,
        ),
        total_pages == greatest_total(
            groups.deep_view(),
            first_pass(groups.deep_view(), captures@),
        ),
{
    let ghost known = report.deep_view();
    let ghost all = groups.deep_view();
    let name = probe.collection.name();
    let mut pagination = delivered_captures(groups, captures);
    let ghost successful = pagination@;
    proof {
        lemma_delivered_are_captured(all, captures@);
        if successful.len() > 0 {
            lemma_pass_end(successful, 1);
        }
    }
    let mut repeated: Vec<PageCapture> = Vec::new();
    if pagination.len() > 0 {
        let mut end: usize = 1;
        while end < pagination.len() && pagination[end].page != Some(1)
            invariant
                1 <= end <= pagination@.len(),
                pagination@ == successful,
                pass_end(successful, 1) == pass_end(successful, end as int),
            decreases pagination@.len() - end,
        {
            end += 1;
        }
        assert(end == pass_end(successful, 1));
        repeated = pagination.split_off(end);
    }
    assert(pagination@ == first_pass(all, captures@));
    assert(repeated@ == second_pass(all, captures@));
    proof {
        assert forall|index: int| 0 <= index < pagination@.len() implies (
        #[trigger] pagination@[index]).group < all.len() by {
            assert(pagination@[index] == successful[index]);
        }
        assert forall|index: int| 0 <= index < repeated@.len() implies (
        #[trigger] repeated@[index]).group < all.len() by {
            assert(repeated@[index] == successful[pagination@.len() + index]);
        }
    }
    let total_pages = greatest_page_count(groups, &pagination);
    let ghost first = pass_findings(
        known.findings,
        checked_shapes@,
        all,
        pagination@,
        probe.url@,
        total_pages,
        name@,
        "pagination"@,
    );
    lint_pass(
        groups,
        name,
        &pagination,
        probe.url.as_str(),
        total_pages,
        "pagination",
        checked_shapes,
        report,
    );
    if repeated.len() > 0 {
        let several = match total_pages {
            Some(pages) => pages > 1,
            None => false,
        };
        if several {
            let last = pagination[pagination.len() - 1].group;
            assert(pagination@.last().group < all.len());
            assert(all[last as int].url == groups@[last as int].url@);
            let ghost second = pass_findings(
                known.findings + first,
                checked_shapes@,
                all,
                repeated@,
                all[last as int].url,
                total_pages,
                name@,
                "legacy validation"@,
            );
            lint_pass(
                groups,
                name,
                &repeated,
                groups[last].url.as_str(),
                total_pages,
                "legacy validation",
                checked_shapes,
                report,
            );
            assert(report.deep_view() =~= known.with(first + second));
        } else {
            let message = text::joined(name, " pagination series has an unnecessary second pass");
            let ghost second = fault("unnecessary_second_pass"@, message@);
            error(report, "unnecessary_second_pass", message);
            assert(report.deep_view() =~= known.with(first + seq![second]));
        }
    }
    total_pages
}

/// The name of the first probed collection that a page URL is below.
pub open spec fn paged_collection(url: Seq<char>, probes: Seq<ProbeView>) -> Option<Seq<char>>
    decreases probes.len(),
{
    if probes.len() == 0 {
        None
    } else if (probes[0].url + "?"@).is_prefix_of(url) {
        Some(probes[0].collection.name())
    } else {
        paged_collection(url, probes.drop_first())
    }
}

fn find_collection<'a>(url: &str, probes: &'a Vec<Probe>) -> (name: Option<&'a str>)
    ensures
        name.deep_view() == paged_collection(url@, probes.deep_view()),
{
    let ghost all = probes.deep_view();
    let mut index: usize = 0;
    assert(all.skip(0) == all);
    while index < probes.len()
        invariant
            index <= probes@.len(),
            all == probes.deep_view(),
            paged_collection(url@, all) == paged_collection(url@, all.skip(index as int)),
        decreases probes@.len() - index,
    {
        assert(all.skip(index as int).drop_first() == all.skip(index + 1));
        assert(all.skip(index as int)[0] == probes@[index as int].deep_view());
        if text::starts_with(url, text::joined(probes[index].url.as_str(), "?").as_str()) {
            return Some(probes[index].collection.name());
        }
        index += 1;
    }
    None
}

/// The page captures of an archive, each with its collection's name, in order; the collections as
/// they are encountered; and the cutoff that the pages carry.
#[verifier::ext_equal]
pub struct PagesView {
    pub pages: Seq<(Seq<char>, PageCapture)>,
    pub encountered: Seq<Seq<char>>,
    pub cutoff: Option<Seq<char>>,
    pub findings: Seq<FindingView>,
}

impl PagesView {
    /// The pages with one more capture.
    pub open spec fn with(self, index: usize, url: Seq<char>, name: Seq<char>) -> PagesView {
        let (page, valid_query, before) = queried(url);
        PagesView {
            pages: self.pages.push((name, PageCapture { group: index, page, valid_query })),
            encountered: if self.encountered.len() > 0 && self.encountered.last() == name {
                self.encountered
            } else {
                self.encountered.push(name)
            },
            cutoff: match self.cutoff {
                Some(cutoff) => Some(cutoff),
                None => before,
            },
            findings: self.findings + where_called_for(
                before is Some && self.cutoff is Some && before != self.cutoff,
                fault(
                    "conflicting_before_cutoff"@,
                    "pagination request "@ + url + " has a conflicting before cutoff"@,
                ),
            ),
        }
    }
}

/// The pages among the first `count` captures of an archive.
pub open spec fn collected_pages(
    groups: Seq<GroupView>,
    probes: Seq<ProbeView>,
    count: nat,
) -> PagesView
    decreases count,
{
    if count == 0 {
        PagesView {
            pages: Seq::empty(),
            encountered: Seq::empty(),
            cutoff: None,
            findings: Seq::empty(),
        }
    } else {
        let earlier = collected_pages(groups, probes, (count - 1) as nat);
        let url = groups[count - 1].url;
        match paged_collection(url, probes) {
            None => earlier,
            Some(name) => earlier.with((count - 1) as usize, url, name),
        }
    }
}

/// The collected pages are of captures that are there.
proof fn lemma_collected_are_captured(
    groups: Seq<GroupView>,
    probes: Seq<ProbeView>,
    count: nat,
)
    requires
        count <= groups.len() <= usize::MAX,
    ensures
        forall|index: int|
            0 <= index < collected_pages(groups, probes, count).pages.len() ==> (
            #[trigger] collected_pages(groups, probes, count).pages[index]).1.group < count,
    decreases count,
{
    if count > 0 {
        lemma_collected_are_captured(groups, probes, (count - 1) as nat);
    }
}

fn same_text(left: &Option<String>, right: &Option<String>) -> (same: bool)
    ensures
        same == (left.deep_view() == right.deep_view()),
{
    text::same_optional(left, right)
}

/// The page captures of an archive with their collections' names, the collections as they are
/// encountered, and what is found of the pages' cutoffs.
fn collect_page_captures(
    groups: &Vec<CaptureGroup>,
    probes: &Vec<Probe>,
    report: &mut Analysis,
) -> (collected: (Vec<(String, PageCapture)>, Vec<String>))
    ensures
        ({
            let all = collected_pages(groups.deep_view(), probes.deep_view(), groups@.len());
            &&& tagged(collected.0@) == all.pages
            &&& collected.1.deep_view() == all.encountered
            &&& final(report).deep_view() == old(report).deep_view().with(all.findings)
        }),
{
    let ghost known = report.deep_view();
    let ghost all = groups.deep_view();
    let ghost probed = probes.deep_view();
    let mut pages: Vec<(String, PageCapture)> = Vec::new();
    let mut encountered: Vec<String> = Vec::new();
    let mut cutoff: Option<String> = None;
    let mut index: usize = 0;
    assert(known.with(Seq::empty()) =~= known);
    assert(tagged(pages@) == Seq::<(Seq<char>, PageCapture)>::empty());
    assert(encountered.deep_view() == Seq::<Seq<char>>::empty());
    while index < groups.len()
        invariant
            index <= groups@.len(),
            all == groups.deep_view(),
            probed == probes.deep_view(),
            (PagesView {
                pages: tagged(pages@),
                encountered: encountered.deep_view(),
                cutoff: cutoff.deep_view(),
                findings: collected_pages(all, probed, index as nat).findings,
            }) == collected_pages(all, probed, index as nat),
            report.deep_view() == known.with(collected_pages(all, probed, index as nat).findings),
        decreases groups@.len() - index,
    {
        let ghost earlier = collected_pages(all, probed, index as nat);
        let url = groups[index].url.as_str();
        assert(all[index as int].url == url@);
        if let Some(name) = find_collection(url, probes) {
            let (page, valid_query, before) = page_query(url);
            let ghost after = earlier.with(index, url@, name@);
            assert(after == collected_pages(all, probed, (index + 1) as nat));
            assert(earlier.findings + Seq::<FindingView>::empty() =~= earlier.findings);
            if before.is_some() {
                if cutoff.is_none() {
                    cutoff = before;
                } else if !same_text(&cutoff, &before) {
                    let message = sentence(
                        "pagination request ",
                        url,
                        " has a conflicting before cutoff",
                    );
                    let ghost found = fault("conflicting_before_cutoff"@, message@);
                    error(report, "conflicting_before_cutoff", message);
                    assert(report.deep_view() =~= known.with(earlier.findings + seq![found]));
                }
            }
            assert(report.deep_view() == known.with(after.findings));
            assert(cutoff.deep_view() == after.cutoff);
            let repeated = encountered.len() > 0 && text::same(
                encountered[encountered.len() - 1].as_str(),
                name,
            );
            if !repeated {
                encountered.push(name.to_owned());
                assert(encountered.deep_view() =~= earlier.encountered.push(name@));
            }
            assert(encountered.deep_view() == after.encountered);
            pages.push((name.to_owned(), PageCapture { group: index, page, valid_query }));
            assert(tagged(pages@) =~= after.pages);
        }
        index += 1;
    }
    (pages, encountered)
}

/// Page captures with the names of their collections.
pub open spec fn tagged(pages: Seq<(String, PageCapture)>) -> Seq<(Seq<char>, PageCapture)> {
    pages.map_values(|page: (String, PageCapture)| (page.0@, page.1))
}

/// The captures of one collection's pages, in order.
pub open spec fn pages_named(pages: Seq<(Seq<char>, PageCapture)>, name: Seq<char>) -> Seq<
    PageCapture,
>
    decreases pages.len(),
{
    if pages.len() == 0 {
        Seq::empty()
    } else {
        let earlier = pages_named(pages.drop_last(), name);
        if pages.last().0 == name {
            earlier.push(pages.last().1)
        } else {
            earlier
        }
    }
}

proof fn lemma_pages_named_are_captured(
    groups: Seq<GroupView>,
    pages: Seq<(Seq<char>, PageCapture)>,
    name: Seq<char>,
)
    requires
        forall|index: int|
            0 <= index < pages.len() ==> (#[trigger] pages[index]).1.group < groups.len(),
    ensures
        are_captured(groups, pages_named(pages, name)),
    decreases pages.len(),
{
    if pages.len() > 0 {
        assert forall|index: int| 0 <= index < pages.drop_last().len() implies (
        #[trigger] pages.drop_last()[index]).1.group < groups.len() by {
            assert(pages.drop_last()[index] == pages[index]);
        }
        lemma_pages_named_are_captured(groups, pages.drop_last(), name);
        assert(pages[pages.len() - 1].1.group < groups.len());
    }
}

fn captures_named(pages: &Vec<(String, PageCapture)>, name: &str) -> (captures: Vec<PageCapture>)
    ensures
        captures@ == pages_named(tagged(pages@), name@),
{
    let ghost all = tagged(pages@);
    let mut captures: Vec<PageCapture> = Vec::new();
    let mut index: usize = 0;
    while index < pages.len()
        invariant
            index <= pages@.len(),
            all == tagged(pages@),
            captures@ == pages_named(all.take(index as int), name@),
        decreases pages@.len() - index,
    {
        assert(all.take(index + 1).drop_last() == all.take(index as int));
        assert(all[index as int] == (pages@[index as int].0@, pages@[index as int].1));
        if text::same(pages[index].0.as_str(), name) {
            captures.push(pages[index].1);
        }
        index += 1;
    }
    assert(all.take(index as int) == all);
    captures
}

/// The names of the successfully probed collections, in order.
pub open spec fn successful_names(probes: Seq<ProbeView>) -> Seq<Seq<char>>
    decreases probes.len(),
{
    if probes.len() == 0 {
        Seq::empty()
    } else {
        let earlier = successful_names(probes.drop_last());
        if probes.last().succeeded() {
            earlier.push(probes.last().collection.name())
        } else {
            earlier
        }
    }
}

/// Those of some names that are among others, in order.
pub open spec fn those_among(names: Seq<Seq<char>>, others: Seq<Seq<char>>) -> Seq<Seq<char>>
    decreases names.len(),
{
    if names.len() == 0 {
        Seq::empty()
    } else {
        let earlier = those_among(names.drop_last(), others);
        if others.contains(names.last()) {
            earlier.push(names.last())
        } else {
            earlier
        }
    }
}

fn names_of_successful(probes: &Vec<Probe>) -> (names: Vec<String>)
    ensures
        names.deep_view() == successful_names(probes.deep_view()),
{
    let ghost all = probes.deep_view();
    let mut names: Vec<String> = Vec::new();
    let mut index: usize = 0;
    assert(names.deep_view() == Seq::<Seq<char>>::empty());
    while index < probes.len()
        invariant
            index <= probes@.len(),
            all == probes.deep_view(),
            names.deep_view() == successful_names(all.take(index as int)),
        decreases probes@.len() - index,
    {
        let ghost known = names.deep_view();
        assert(all.take(index + 1).drop_last() == all.take(index as int));
        let probe = &probes[index];
        if probe.succeeded() {
            names.push(probe.collection.name().to_owned());
            assert(names.deep_view() == known.push(probe.deep_view().collection.name()));
        }
        index += 1;
    }
    assert(all.take(index as int) == all);
    names
}

fn keep_those_among(names: &Vec<String>, others: &Vec<String>) -> (kept: Vec<String>)
    ensures
        kept.deep_view() == those_among(names.deep_view(), others.deep_view()),
{
    let ghost all = names.deep_view();
    let mut kept: Vec<String> = Vec::new();
    let mut index: usize = 0;
    assert(kept.deep_view() == Seq::<Seq<char>>::empty());
    while index < names.len()
        invariant
            index <= names@.len(),
            all == names.deep_view(),
            kept.deep_view() == those_among(all.take(index as int), others.deep_view()),
        decreases names@.len() - index,
    {
        let ghost known = kept.deep_view();
        assert(all.take(index + 1).drop_last() == all.take(index as int));
        if is_among(names[index].as_str(), others) {
            kept.push(names[index].clone());
            assert(kept.deep_view() == known.push(all[index as int]));
        }
        index += 1;
    }
    assert(all.take(index as int) == all);
    kept
}

fn same_names(left: &Vec<String>, right: &Vec<String>) -> (same: bool)
    ensures
        same == (left.deep_view() == right.deep_view()),
{
    if left.len() != right.len() {
        assert(left.deep_view().len() != right.deep_view().len());
        return false;
    }
    let mut index: usize = 0;
    while index < left.len()
        invariant
            index <= left@.len(),
            left@.len() == right@.len(),
            forall|earlier: int|
                0 <= earlier < index ==> #[trigger] left.deep_view()[earlier]
                    == right.deep_view()[earlier],
        decreases left@.len() - index,
    {
        if !text::same(left[index].as_str(), right[index].as_str()) {
            assert(left.deep_view()[index as int] != right.deep_view()[index as int]);
            return false;
        }
        index += 1;
    }
    assert(left.deep_view() =~= right.deep_view());
    true
}

/// What is found of the order in which collections are paged: it is that in which they were
/// successfully probed.
pub open spec fn order_findings(
    encountered: Seq<Seq<char>>,
    probes: Seq<ProbeView>,
) -> Seq<FindingView> {
    let successful = successful_names(probes);
    where_called_for(
        encountered != those_among(successful, encountered),
        fault(
            "pagination_out_of_probe_order"@,
            "pagination endpoints are out of probe order: found "@ + text::join(
                encountered,
                ", "@,
            ) + ", expected "@ + text::join(successful, ", "@),
        ),
    )
}

/// What is found of collections that are paged again after another.
pub open spec fn interruption_findings(encountered: Seq<Seq<char>>) -> Seq<FindingView>
    decreases encountered.len(),
{
    if encountered.len() == 0 {
        Seq::empty()
    } else {
        interruption_findings(encountered.drop_last()) + where_called_for(
            encountered.drop_last().contains(encountered.last()),
            fault(
                "interrupted_pagination_series"@,
                "pagination series for "@ + encountered.last()
                    + " is interrupted by another endpoint"@,
            ),
        )
    }
}

fn check_order(encountered: &Vec<String>, probes: &Vec<Probe>, report: &mut Analysis)
    ensures
        final(report).deep_view() == old(report).deep_view().with(
            order_findings(encountered.deep_view(), probes.deep_view()) + interruption_findings(
                encountered.deep_view(),
            ),
        ),
{
    let ghost known = report.deep_view();
    let ghost all = encountered.deep_view();
    let ghost order = order_findings(all, probes.deep_view());
    let successful = names_of_successful(probes);
    let expected = keep_those_among(&successful, encountered);
    assert(known.with(Seq::empty()) =~= known);
    if !same_names(encountered, &expected) {
        let mut message = text::joined(
            "pagination endpoints are out of probe order: found ",
            text::join_with(encountered, ", ").as_str(),
        );
        message.append(", expected ");
        message.append(text::join_with(&successful, ", ").as_str());
        error(report, "pagination_out_of_probe_order", message);
    }
    assert(report.deep_view() == known.with(order));
    let mut seen: Vec<String> = Vec::new();
    let mut index: usize = 0;
    assert(seen.deep_view() == all.take(0));
    assert(order + interruption_findings(all.take(0)) =~= order);
    while index < encountered.len()
        invariant
            index <= encountered@.len(),
            all == encountered.deep_view(),
            seen.deep_view() == all.take(index as int),
            report.deep_view() == known.with(order + interruption_findings(all.take(index as int))),
        decreases encountered@.len() - index,
    {
        let name = encountered[index].as_str();
        let ghost earlier = order + interruption_findings(all.take(index as int));
        assert(all.take(index + 1).drop_last() == all.take(index as int));
        assert(all.take(index + 1).last() == name@);
        assert(earlier + Seq::<FindingView>::empty() =~= earlier);
        if is_among(name, &seen) {
            let message = sentence(
                "pagination series for ",
                name,
                " is interrupted by another endpoint",
            );
            let ghost found = fault("interrupted_pagination_series"@, message@);
            error(report, "interrupted_pagination_series", message);
            assert(report.deep_view() =~= known.with(earlier + seq![found]));
            assert(earlier + seq![found] =~= order + interruption_findings(all.take(index + 1)));
        } else {
            assert(interruption_findings(all.take(index + 1)) =~= interruption_findings(
                all.take(index as int),
            ));
        }
        let ghost known_names = seen.deep_view();
        seen.push(encountered[index].clone());
        assert(seen.deep_view() =~= known_names.push(name@));
        index += 1;
        assert(all.take(index as int) =~= known_names.push(name@));
    }
    assert(all.take(index as int) == all);
}

/// What the analysis has after the pages of one probed collection, and the captures looked at.
pub open spec fn after_probe(
    report: AnalysisView,
    checked: Set<usize>,
    groups: Seq<GroupView>,
    probe: ProbeView,
    captures: Seq<PageCapture>,
) -> (AnalysisView, Set<usize>) {
    let name = probe.collection.name();
    if !probe.succeeded() {
        (
            report.with(
                where_called_for(
                    captures.len() > 0,
                    fault(
                        "unexpected_pagination_series"@,
                        "unsuccessful "@ + name + " probe has a pagination series of "@
                            + text::decimal(captures.len()) + " captures"@,
                    ),
                ),
            ),
            checked,
        )
    } else if captures.len() == 0 {
        (
            AnalysisView {
                pagination: report.pagination.push(
                    SummaryView { endpoint: probe.url, pages: None, items: probe.items },
                ),
                ..report.with(
                    seq![
                        fault(
                            "missing_pagination_series"@,
                            "successful "@ + name + " probe has no pagination series"@,
                        ),
                    ],
                )
            },
            checked,
        )
    } else {
        (
            AnalysisView {
                pagination: report.pagination.push(
                    SummaryView {
                        endpoint: probe.url,
                        pages: greatest_total(groups, first_pass(groups, captures)),
                        items: probe.items,
                    },
                ),
                ..report.with(
                    series_findings(
                        report.findings,
                        checked,
                        groups,
                        name,
                        probe.url,
                        captures,
                    ),
                )
            },
            checked_after_series(checked, groups, captures),
        )
    }
}

/// The names of probed collections, in order.
pub open spec fn probed_names(probes: Seq<ProbeView>) -> Seq<Seq<char>> {
    probes.map_values(|probe: ProbeView| probe.collection.name())
}

/// What the analysis has after the pages of the first `count` probed collections, and the captures
/// looked at. Of probes of the same collection the first has its pages.
pub open spec fn after_probes(
    report: AnalysisView,
    checked: Set<usize>,
    groups: Seq<GroupView>,
    probes: Seq<ProbeView>,
    pages: Seq<(Seq<char>, PageCapture)>,
    count: nat,
) -> (AnalysisView, Set<usize>)
    decreases count,
{
    if count == 0 {
        (report, checked)
    } else {
        let (earlier, looked_at) = after_probes(
            report,
            checked,
            groups,
            probes,
            pages,
            (count - 1) as nat,
        );
        let probe = probes[count - 1];
        let name = probe.collection.name();
        let captures = if probed_names(probes.take(count - 1)).contains(name) {
            Seq::empty()
        } else {
            pages_named(pages, name)
        };
        after_probe(earlier, looked_at, groups, probe, captures)
    }
}

/// What the analysis has after the pages of every collection, and the captures looked at.
pub open spec fn after_pagination(
    report: AnalysisView,
    checked: Set<usize>,
    groups: Seq<GroupView>,
    probes: Seq<ProbeView>,
) -> (AnalysisView, Set<usize>) {
    let collected = collected_pages(groups, probes, groups.len());
    after_probes(
        report.with(
            collected.findings + (order_findings(collected.encountered, probes)
                + interruption_findings(collected.encountered)),
        ),
        checked,
        groups,
        probes,
        collected.pages,
        probes.len(),
    )
}

fn lint_probe(
    groups: &Vec<CaptureGroup>,
    probe: &Probe,
    captures: &Vec<PageCapture>,
    checked_shapes: &mut HashSet<usize>,
    report: &mut Analysis,
)
    requires
        are_captured(groups.deep_view(), captures@),
    ensures
        (final(report).deep_view(), final(checked_shapes)@) == after_probe(
            old(report).deep_view(),
            old(checked_shapes)@,
            groups.deep_view(),
            probe.deep_view(),
            captures@,
        ),
{
    let ghost known = report.deep_view();
    let ghost expected = after_probe(
        known,
        checked_shapes@,
        groups.deep_view(),
        probe.deep_view(),
        captures@,
    );
    let name = probe.collection.name();
    assert(known.with(Seq::empty()) =~= known);
    if !probe.succeeded() {
        if captures.len() > 0 {
            let mut message = text::joined("unsuccessful ", name);
            message.append(" probe has a pagination series of ");
            message.append(text::count_text(captures.len()).as_str());
            message.append(" captures");
            error(report, "unexpected_pagination_series", message);
        }
        return ;
    }
    let pages = if captures.len() == 0 {
        error(
            report,
            "missing_pagination_series",
            sentence("successful ", name, " probe has no pagination series"),
        );
        None
    } else {
        lint_series(groups, probe, captures, checked_shapes, report)
    };
    let ghost summaries = report.pagination.deep_view();
    let summary = PaginationSummary { endpoint: probe.url.clone(), pages, items: probe.items };
    let ghost added = summary.deep_view();
    report.pagination.push(summary);
    assert(report.pagination.deep_view() =~= summaries.push(added));
    assert(report.deep_view() =~= expected.0);
}

/// Check that every successfully probed collection was paged once, in order.
fn lint_pagination(
    groups: &Vec<CaptureGroup>,
    probes: &Vec<Probe>,
    checked_shapes: &mut HashSet<usize>,
    report: &mut Analysis,
)
    ensures
        (final(report).deep_view(), final(checked_shapes)@) == after_pagination(
            old(report).deep_view(),
            old(checked_shapes)@,
            groups.deep_view(),
            probes.deep_view(),
        ),
{
    let ghost known = report.deep_view();
    let ghost checked = checked_shapes@;
    let ghost all = groups.deep_view();
    let ghost probed = probes.deep_view();
    let ghost collected = collected_pages(all, probed, all.len());
    let (pages, encountered) = collect_page_captures(groups, probes, report);
    let ghost order = order_findings(collected.encountered, probed) + interruption_findings(
        collected.encountered,
    );
    check_order(&encountered, probes, report);
    let ghost start = known.with(collected.findings + order);
    assert(report.deep_view() =~= start);
    proof {
        assert(groups.len() == all.len());
        lemma_collected_are_captured(all, probed, all.len());
    }
    let mut index: usize = 0;
    let mut earlier: Vec<String> = Vec::new();
    assert(earlier.deep_view() =~= probed_names(probed.take(0)));
    while index < probes.len()
        invariant
            index <= probes@.len(),
            all == groups.deep_view(),
            probed == probes.deep_view(),
            collected == collected_pages(all, probed, all.len()),
            tagged(pages@) == collected.pages,
            forall|at: int|
                0 <= at < collected.pages.len() ==> (#[trigger] collected.pages[at]).1.group
                    < all.len(),
            earlier.deep_view() == probed_names(probed.take(index as int)),
            (report.deep_view(), checked_shapes@) == after_probes(
                start,
                checked,
                all,
                probed,
                collected.pages,
                index as nat,
            ),
        decreases probes@.len() - index,
    {
        let probe = &probes[index];
        assert(probed[index as int] == probe.deep_view());
        let name = probe.collection.name();
        let captures: Vec<PageCapture> = if is_among(name, &earlier) {
            Vec::new()
        } else {
            captures_named(&pages, name)
        };
        proof {
            lemma_pages_named_are_captured(all, collected.pages, name@);
        }
        lint_probe(groups, probe, &captures, checked_shapes, report);
        let ghost names = earlier.deep_view();
        earlier.push(name.to_owned());
        assert(earlier.deep_view() =~= names.push(name@));
        index += 1;
        assert(probed_names(probed.take(index as int)) =~= names.push(name@));
    }
}

/// The initial captures that an archive of a site begins with, in order: the roots, and the probe
/// of each collection.
pub open spec fn initial_captures(site: SiteView, customs: Seq<CollectionView>) -> Seq<
    (Seq<char>, Option<CollectionView>),
> {
    let collections = archive::supported() + customs;
    Seq::new(
        8 + collections.len(),
        |index: int|
            if index < 8 {
                (site.url(ROOT_ENDPOINTS@[index]@), None)
            } else {
                (
                    site.endpoint_url(collections[index - 8].name()),
                    Some(collections[index - 8]),
                )
            },
    )
}

/// The initial captures that an archive of a site begins with, in order: the roots, and the probe
/// of each collection.
pub fn expected_initial(site: &Site, customs: &Vec<Collection>) -> (expected: Vec<
    (String, Option<Collection>),
>)
    ensures
        expected.deep_view() == initial_captures(site.deep_view(), customs.deep_view()),
{
    let ghost all = initial_captures(site.deep_view(), customs.deep_view());
    let mut expected: Vec<(String, Option<Collection>)> = Vec::new();
    let mut index: usize = 0;
    assert(expected.deep_view() =~= all.take(0));
    while index < 8
        invariant
            index <= 8,
            all == initial_captures(site.deep_view(), customs.deep_view()),
            expected.deep_view() == all.take(index as int),
        decreases 8 - index,
    {
        let ghost known = expected.deep_view();
        let entry: (String, Option<Collection>) = (site.url(ROOT_ENDPOINTS[index]), None);
        assert(entry.deep_view() == all[index as int]);
        expected.push(entry);
        assert(expected.deep_view() =~= known.push(all[index as int]));
        index += 1;
        assert(all.take(index as int) =~= known.push(all[index - 1]));
    }
    let mut index: usize = 0;
    while index < 8
        invariant
            index <= 8,
            all == initial_captures(site.deep_view(), customs.deep_view()),
            expected.deep_view() == all.take(8 + index),
        decreases 8 - index,
    {
        let ghost known = expected.deep_view();
        let endpoint = Endpoint::ALL[index];
        let entry = (site.endpoint_url(endpoint.name()), Some(Collection::Known(endpoint)));
        assert(archive::supported()[index as int] == CollectionView::Known(endpoint));
        assert(entry.deep_view() == all[8 + index]);
        expected.push(entry);
        assert(expected.deep_view() =~= known.push(all[8 + index]));
        index += 1;
        assert(all.take(8 + index) =~= known.push(all[8 + index - 1]));
    }
    let mut index: usize = 0;
    while index < customs.len()
        invariant
            index <= customs@.len(),
            all == initial_captures(site.deep_view(), customs.deep_view()),
            expected.deep_view() == all.take(16 + index),
        decreases customs@.len() - index,
    {
        let ghost known = expected.deep_view();
        let collection = customs[index].clone();
        assert(collection.deep_view() == customs.deep_view()[index as int]);
        assert((archive::supported() + customs.deep_view())[8 + index]
            == customs.deep_view()[index as int]);
        let entry = (site.endpoint_url(collection.name()), Some(collection));
        assert(entry.deep_view() == all[16 + index]);
        expected.push(entry);
        assert(expected.deep_view() =~= known.push(all[16 + index]));
        index += 1;
        assert(all.take(16 + index) =~= known.push(all[16 + index - 1]));
    }
    assert(all.take(16 + index) =~= all);
    expected
}

/// The indices of the captures of a URL, but for challenges, among the first `count`.
pub open spec fn candidates_among(groups: Seq<GroupView>, url: Seq<char>, count: nat) -> Seq<usize>
    decreases count,
{
    if count == 0 {
        Seq::empty()
    } else {
        let earlier = candidates_among(groups, url, (count - 1) as nat);
        let group = groups[count - 1];
        if group.url == url && !is_challenge(group) {
            earlier.push((count - 1) as usize)
        } else {
            earlier
        }
    }
}

/// The indices of the captures of a URL, but for challenges, in order.
pub open spec fn candidates(groups: Seq<GroupView>, url: Seq<char>) -> Seq<usize> {
    candidates_among(groups, url, groups.len())
}

proof fn lemma_candidates(groups: Seq<GroupView>, url: Seq<char>, count: nat)
    requires
        count <= groups.len() <= usize::MAX,
    ensures
        forall|index: int|
            0 <= index < candidates_among(groups, url, count).len() ==> #[trigger] candidates_among(
                groups,
                url,
                count,
            )[index] < count,
        candidates_among(groups, url, count).len() <= count,
    decreases count,
{
    if count > 0 {
        lemma_candidates(groups, url, (count - 1) as nat);
    }
}

/// The indices of the captures of a URL, but for challenges, in order.
pub fn initial_capture_candidates(groups: &Vec<CaptureGroup>, url: &str) -> (indices: Vec<usize>)
    ensures
        indices@ == candidates(groups.deep_view(), url@),
        forall|index: int|
            0 <= index < indices@.len() ==> #[trigger] indices@[index] < groups@.len(),
{
    let ghost all = groups.deep_view();
    let mut indices: Vec<usize> = Vec::new();
    let mut index: usize = 0;
    while index < groups.len()
        invariant
            index <= groups@.len(),
            all == groups.deep_view(),
            indices@ == candidates_among(all, url@, index as nat),
        decreases groups@.len() - index,
    {
        let group = &groups[index];
        assert(all[index as int] == group.deep_view());
        if text::same(group.url.as_str(), url) && !is_server_challenge(group) {
            indices.push(index);
        }
        index += 1;
    }
    proof {
        assert(groups.len() == all.len());
        lemma_candidates(all, url@, all.len());
    }
    indices
}

/// The custom collections known after one more registry, and what is found of its response.
pub open spec fn after_registry(
    groups: Seq<GroupView>,
    site: SiteView,
    custom: Seq<CollectionView>,
    registry: Registry,
) -> (Seq<CollectionView>, Seq<FindingView>) {
    let url = site.url(registry.path_text());
    let captures = candidates(groups, url);
    if captures.len() == 0 {
        (custom, Seq::empty())
    } else {
        let group = groups[captures[0] as int];
        match head_of(group) {
            Some(head) if 200 <= head.status < 300 => match group.response->0.message.entity {
                Err(reason) => (
                    custom,
                    seq![
                        fault(
                            "unreadable_registry_payload"@,
                            "cannot read "@ + url + " response payload: "@ + reason,
                        ),
                    ],
                ),
                Ok(entity) => match entity.registry {
                    Err(reason) => (
                        custom,
                        seq![
                            fault(
                                "unreadable_registry_response"@,
                                "unreadable "@ + url + " registry response: "@ + reason,
                            ),
                        ],
                    ),
                    Ok(entries) => (
                        archive::with_customs(custom, endpoint::custom_names(entries), registry),
                        Seq::empty(),
                    ),
                },
            },
            _ => (custom, Seq::empty()),
        }
    }
}

/// The custom collections that the registries advertise, types before taxonomies, and what is
/// found of the registries' responses.
pub open spec fn discovered(groups: Seq<GroupView>, site: SiteView) -> (
    Seq<CollectionView>,
    Seq<FindingView>,
) {
    let (types, first) = after_registry(groups, site, Seq::empty(), Registry::Types);
    let (all, second) = after_registry(groups, site, types, Registry::Taxonomies);
    (all, first + second)
}

fn discover_registry(
    groups: &Vec<CaptureGroup>,
    site: &Site,
    custom: &mut Vec<Collection>,
    registry: Registry,
    report: &mut Analysis,
)
    ensures
        ({
            let (after, findings) = after_registry(
                groups.deep_view(),
                site.deep_view(),
                old(custom).deep_view(),
                registry,
            );
            &&& final(custom).deep_view() == after
            &&& final(report).deep_view() == old(report).deep_view().with(findings)
        }),
{
    let ghost known = report.deep_view();
    let ghost all = groups.deep_view();
    assert(known.with(Seq::empty()) =~= known);
    let url = site.url(registry.path());
    let captures = initial_capture_candidates(groups, url.as_str());
    if captures.len() == 0 {
        return ;
    }
    assert(captures@[0] < groups@.len());
    let group = &groups[captures[0]];
    assert(all[captures@[0] as int] == group.deep_view());
    let response = match &group.response {
        Some(response) => response,
        None => {
            return ;
        },
    };
    let head = match response.metadata() {
        Some(head) => head,
        None => {
            return ;
        },
    };
    if head.status < 200 || head.status >= 300 {
        return ;
    }
    match &response.message.entity {
        Err(reason) => {
            let mut message = text::joined("cannot read ", url.as_str());
            message.append(" response payload: ");
            message.append(reason.as_str());
            error(report, "unreadable_registry_payload", message);
        },
        Ok(entity) => match &entity.registry {
            Err(reason) => {
                let mut message = text::joined("unreadable ", url.as_str());
                message.append(" registry response: ");
                message.append(reason.as_str());
                error(report, "unreadable_registry_response", message);
            },
            Ok(entries) => {
                archive::push_customs(custom, entries, registry);
            },
        },
    }
}

/// The custom collections that the registries advertise.
fn discover_customs(groups: &Vec<CaptureGroup>, site: &Site, report: &mut Analysis) -> (custom: Vec<
    Collection,
>)
    ensures
        ({
            let (all, findings) = discovered(groups.deep_view(), site.deep_view());
            &&& custom.deep_view() == all
            &&& final(report).deep_view() == old(report).deep_view().with(findings)
        }),
{
    let ghost known = report.deep_view();
    let mut custom: Vec<Collection> = Vec::new();
    assert(custom.deep_view() == Seq::<CollectionView>::empty());
    discover_registry(groups, site, &mut custom, Registry::Types, report);
    discover_registry(groups, site, &mut custom, Registry::Taxonomies, report);
    assert(report.deep_view() =~= known.with(
        discovered(groups.deep_view(), site.deep_view()).1,
    ));
    custom
}

/// Whether a name is that of a root resource below `wp-json/wp/v2/`.
pub open spec fn names_root(name: Seq<char>) -> bool {
    exists|index: int|
        0 <= index < 8 && text::stripped_prefix(
            (#[trigger] ROOT_ENDPOINTS@[index])@,
            "wp-json/wp/v2/"@,
        ) == Some(name)
}

/// Whether a name is that of a root resource below `wp-json/wp/v2/`.
pub fn is_root_name(name: &str) -> (root: bool)
    ensures
        root == names_root(name@),
{
    let mut index: usize = 0;
    while index < 8
        invariant
            index <= 8,
            forall|earlier: int|
                0 <= earlier < index ==> text::stripped_prefix(
                    (#[trigger] ROOT_ENDPOINTS@[earlier])@,
                    "wp-json/wp/v2/"@,
                ) != Some(name@),
        decreases 8 - index,
    {
        if let Some(tail) = text::strip_prefix(ROOT_ENDPOINTS[index], "wp-json/wp/v2/") {
            if text::same(tail.as_str(), name) {
                assert(text::stripped_prefix(ROOT_ENDPOINTS@[index as int]@, "wp-json/wp/v2/"@)
                    == Some(name@));
                return true;
            }
        }
        index += 1;
    }
    false
}

/// The name of the custom collection that a bare request probes though no registry advertises it.
pub open spec fn unadvertised(
    request: Seq<char>,
    prefix: Seq<char>,
    custom: Seq<CollectionView>,
) -> Option<Seq<char>> {
    match web::parsed_address(request) {
        Err(_) => None,
        Ok(address) => match text::stripped_prefix(address.path, prefix) {
            None => None,
            Some(name) => if address.query is None && name.len() > 0 && !text::occurs(name, "/"@)
                && Endpoint::named(name) is None && !names_root(name) && !endpoint::names_of(
                custom,
            ).contains(name) {
                Some(name)
            } else {
                None
            },
        },
    }
}

/// What is found of the first `count` captures that probe custom collections which no registry
/// advertises.
pub open spec fn unadvertised_findings(
    groups: Seq<GroupView>,
    prefix: Seq<char>,
    custom: Seq<CollectionView>,
    count: nat,
) -> Seq<FindingView>
    decreases count,
{
    if count == 0 {
        Seq::empty()
    } else {
        let earlier = unadvertised_findings(groups, prefix, custom, (count - 1) as nat);
        match unadvertised(groups[count - 1].url, prefix, custom) {
            Some(name) => earlier + seq![
                fault(
                    "unadvertised_custom_probe"@,
                    "custom endpoint probe "@ + text::quoted(name)
                        + " was not advertised by a registry"@,
                ),
            ],
            None => earlier,
        }
    }
}

fn find_unadvertised(request: &str, prefix: &str, custom: &Vec<Collection>) -> (name: Option<
    String,
>)
    ensures
        name.deep_view() == unadvertised(request@, prefix@, custom.deep_view()),
{
    let address = match web::parse(request) {
        Ok(address) => address,
        Err(_) => {
            return None;
        },
    };
    let name = match text::strip_prefix(address.path.as_str(), prefix) {
        Some(name) => name,
        None => {
            return None;
        },
    };
    proof {
        text::lemma_position(endpoint::names_of(custom.deep_view()), name@);
    }
    if address.query.is_none() && name.as_str().unicode_len() > 0 && !text::contains(
        name.as_str(),
        "/",
    ) && Endpoint::find_named(name.as_str()).is_none() && !is_root_name(name.as_str())
        && endpoint::position_named(custom, name.as_str()).is_none() {
        Some(name)
    } else {
        None
    }
}

/// The findings on captures of a site that probe unadvertised custom collections.
pub open spec fn site_unadvertised_findings(
    groups: Seq<GroupView>,
    site: SiteView,
    custom: Seq<CollectionView>,
) -> Seq<FindingView> {
    match web::parsed_address(site.url("wp-json/wp/v2/"@)) {
        Ok(prefix) => unadvertised_findings(groups, prefix.path, custom, groups.len()),
        Err(_) => Seq::empty(),
    }
}

fn check_unadvertised_custom_probes(
    groups: &Vec<CaptureGroup>,
    site: &Site,
    custom: &Vec<Collection>,
    report: &mut Analysis,
)
    ensures
        final(report).deep_view() == old(report).deep_view().with(
            site_unadvertised_findings(
                groups.deep_view(),
                site.deep_view(),
                custom.deep_view(),
            ),
        ),
{
    let ghost known = report.deep_view();
    let ghost all = groups.deep_view();
    assert(known.with(Seq::empty()) =~= known);
    let prefix = match web::parse(site.url("wp-json/wp/v2/").as_str()) {
        Ok(address) => address.path,
        Err(_) => {
            return ;
        },
    };
    let mut index: usize = 0;
    while index < groups.len()
        invariant
            index <= groups@.len(),
            all == groups.deep_view(),
            report.deep_view() == known.with(
                unadvertised_findings(all, prefix@, custom.deep_view(), index as nat),
            ),
        decreases groups@.len() - index,
    {
        let ghost earlier = unadvertised_findings(all, prefix@, custom.deep_view(), index as nat);
        let url = groups[index].url.as_str();
        assert(all[index as int].url == url@);
        if let Some(name) = find_unadvertised(url, prefix.as_str(), custom) {
            let message = sentence(
                "custom endpoint probe ",
                text::quote(name.as_str()).as_str(),
                " was not advertised by a registry",
            );
            let ghost found = fault("unadvertised_custom_probe"@, message@);
            error(report, "unadvertised_custom_probe", message);
            assert(report.deep_view() =~= known.with(earlier + seq![found]));
        }
        index += 1;
    }
}

/// What is found of a successful probe's response.
pub open spec fn probe_findings(
    groups: Seq<GroupView>,
    group: int,
    head: HeadView,
    name: Seq<char>,
) -> Seq<FindingView> {
    where_called_for(
        evidence::header_count(head.total_pages) is None,
        fault(
            "missing_total_pages"@,
            "successful "@ + name + " probe has missing or invalid X-WP-TotalPages"@,
        ),
    ) + where_called_for(
        head.status == 200 && !holds_array(groups, group),
        fault(
            "probe_not_json_array"@,
            "successful "@ + name + " probe response is not a JSON array"@,
        ),
    )
}

fn check_probe_response(
    groups: &Vec<CaptureGroup>,
    group: usize,
    head: &ResponseHead,
    name: &str,
    report: &mut Analysis,
)
    ensures
        final(report).deep_view() == old(report).deep_view().with(
            probe_findings(groups.deep_view(), group as int, head.deep_view(), name@),
        ),
{
    let ghost known = report.deep_view();
    let ghost mut found = Seq::<FindingView>::empty();
    assert(known.with(found) =~= known);
    if evidence::numeric_header(&head.total_pages).is_none() {
        let message = sentence(
            "successful ",
            name,
            " probe has missing or invalid X-WP-TotalPages",
        );
        proof {
            found = found + seq![fault("missing_total_pages"@, message@)];
        }
        error(report, "missing_total_pages", message);
        assert(report.deep_view() =~= known.with(found));
    }
    if head.status == 200 {
        if !has_array(groups, group) {
            let message = sentence(
                "successful ",
                name,
                " probe response is not a JSON array",
            );
            proof {
                found = found + seq![fault("probe_not_json_array"@, message@)];
            }
            error(report, "probe_not_json_array", message);
            assert(report.deep_view() =~= known.with(found));
        }
    }
    assert(found =~= probe_findings(groups.deep_view(), group as int, head.deep_view(), name@));
}

/// What the analysis has while it goes through the initial captures.
#[verifier::ext_equal]
pub struct InitialView {
    pub report: AnalysisView,
    /// The captures looked at.
    pub checked: Set<usize>,
    /// The initial capture found last.
    pub previous: Option<usize>,
    /// The probes of collections, in order.
    pub probes: Seq<ProbeView>,
}

/// An initial capture's name in findings.
pub open spec fn initial_label(url: Seq<char>, collection: Option<CollectionView>) -> Seq<char> {
    match collection {
        None => "initial root "@ + url,
        Some(collection) => collection.name() + " probe"@,
    }
}

/// The URL that is expected to have led to an initial capture: that of the registry which
/// advertises a custom collection.
pub open spec fn initial_via(site: SiteView, collection: Option<CollectionView>) -> Option<
    Seq<char>,
> {
    match collection {
        Some(collection) => match collection.registry() {
            Some(registry) => Some(site.url(registry.path_text())),
            None => None,
        },
        None => None,
    }
}

/// What is found of an initial capture's presence, order, records, and origin.
pub open spec fn presence_findings(
    state: InitialView,
    groups: Seq<GroupView>,
    site: SiteView,
    url: Seq<char>,
    collection: Option<CollectionView>,
) -> Seq<FindingView> {
    let found = candidates(groups, url);
    let label = initial_label(url, collection);
    if found.len() == 0 {
        seq![fault("missing_required_capture"@, "missing required "@ + label)]
    } else {
        where_called_for(
            found.len() > 1,
            fault(
                "repeated_initial_capture"@,
                label + " is captured "@ + text::decimal(found.len()) + " times"@,
            ),
        ) + where_called_for(
            state.previous matches Some(previous) && found[0] < previous,
            fault(
                "initial_capture_out_of_order"@,
                label + " is out of initial capture order"@,
            ),
        ) + new_shape_findings(groups, found[0], state.checked) + via_findings(
            groups[found[0] as int],
            initial_via(site, collection),
            label,
        )
    }
}

/// What is found of the response to a collection's probe.
pub open spec fn probed_findings(
    groups: Seq<GroupView>,
    group: int,
    head: Option<HeadView>,
    name: Seq<char>,
) -> Seq<FindingView> {
    match head {
        Some(head) if archive::is_exposed(head.status) => where_called_for(
            evidence::header_count(head.total) is None,
            fault(
                "missing_total_items"@,
                "successful "@ + name + " probe has missing or invalid X-WP-Total"@,
            ),
        ) + probe_findings(groups, group, head, name),
        _ => Seq::empty(),
    }
}

/// The analysis with one more initial capture counted.
pub open spec fn with_counted(report: AnalysisView, position: nat) -> AnalysisView {
    if position < 8 {
        AnalysisView { roots: (report.roots + 1) as usize, ..report }
    } else if position < 16 {
        AnalysisView { known_probes: (report.known_probes + 1) as usize, ..report }
    } else {
        AnalysisView { custom_probes: (report.custom_probes + 1) as usize, ..report }
    }
}

/// What the analysis has after one more initial capture.
pub open spec fn after_initial(
    state: InitialView,
    groups: Seq<GroupView>,
    site: SiteView,
    position: nat,
    url: Seq<char>,
    collection: Option<CollectionView>,
) -> InitialView {
    let found = candidates(groups, url);
    let present = state.report.with(presence_findings(state, groups, site, url, collection));
    let seen = if found.len() == 0 {
        InitialView { report: present, ..state }
    } else {
        InitialView {
            report: with_counted(present, position),
            checked: state.checked.insert(found[0]),
            previous: Some(found[0]),
            ..state
        }
    };
    match collection {
        None => seen,
        Some(collection) => {
            let head = if found.len() == 0 {
                None
            } else {
                head_of(groups[found[0] as int])
            };
            InitialView {
                report: seen.report.with(
                    probed_findings(
                        groups,
                        if found.len() == 0 {
                            0
                        } else {
                            found[0] as int
                        },
                        head,
                        collection.name(),
                    ),
                ),
                probes: seen.probes.push(
                    ProbeView {
                        collection,
                        url,
                        status: match head {
                            Some(head) => Some(head.status),
                            None => None,
                        },
                        items: match head {
                            Some(head) => evidence::header_count(head.total),
                            None => None,
                        },
                    },
                ),
                ..seen
            }
        },
    }
}

/// What the analysis has after the first `count` initial captures.
pub open spec fn after_initials(
    report: AnalysisView,
    groups: Seq<GroupView>,
    site: SiteView,
    expected: Seq<(Seq<char>, Option<CollectionView>)>,
    count: nat,
) -> InitialView
    decreases count,
{
    if count == 0 {
        InitialView { report, checked: Set::empty(), previous: None, probes: Seq::empty() }
    } else {
        let (url, collection) = expected[count - 1];
        after_initial(
            after_initials(report, groups, site, expected, (count - 1) as nat),
            groups,
            site,
            (count - 1) as nat,
            url,
            collection,
        )
    }
}

/// Why an archive cannot be analysed.
#[derive(Debug)]
pub enum Error {
    /// No request identifies a `WordPress` installation.
    NoWordPressRequests,
    /// The inferred installation URL is invalid.
    Site {
        /// Request URI used for inference.
        url: String,
        /// Why the inferred site was invalid.
        source: SiteError,
    },
}

/// An [`Error`], over views.
#[verifier::ext_equal]
pub enum ErrorView {
    NoWordPressRequests,
    Site { url: Seq<char>, source: SiteErrorView },
}

impl DeepView for Error {
    type V = ErrorView;

    open spec fn deep_view(&self) -> ErrorView {
        match self {
            Error::NoWordPressRequests => ErrorView::NoWordPressRequests,
            Error::Site { url, source } => ErrorView::Site {
                url: url@,
                source: source.deep_view(),
            },
        }
    }
}

/// The site of an archive's first request of a REST API, or why there is none. A URL whose path is
/// too long to be set is no such request's.
pub open spec fn archived_site(groups: Seq<GroupView>, count: nat) -> Result<SiteView, ErrorView>
    decreases count,
{
    if count == 0 {
        Err(ErrorView::NoWordPressRequests)
    } else {
        let earlier = archived_site(groups, (count - 1) as nat);
        if !(earlier matches Err(ErrorView::NoWordPressRequests)) {
            earlier
        } else {
            let url = groups[count - 1].url;
            if !web::is_settable(url) {
                earlier
            } else {
                match archive::inferred_site(url) {
                    None => Err(ErrorView::NoWordPressRequests),
                    Some(Ok(site)) => Ok(site),
                    Some(Err(source)) => Err(ErrorView::Site { url, source }),
                }
            }
        }
    }
}

/// The site that the first request of a REST API among some captures is made of.
pub fn find_site(groups: &Vec<CaptureGroup>) -> (site: Result<Site, Error>)
    ensures
        match site {
            Ok(site) => archived_site(groups.deep_view(), groups@.len()) == Ok::<
                SiteView,
                ErrorView,
            >(site.deep_view()),
            Err(error) => archived_site(groups.deep_view(), groups@.len()) == Err::<
                SiteView,
                ErrorView,
            >(error.deep_view()),
        },
{
    let ghost all = groups.deep_view();
    let mut index: usize = 0;
    while index < groups.len()
        invariant
            index <= groups@.len(),
            all == groups.deep_view(),
            archived_site(all, index as nat) == Err::<SiteView, ErrorView>(
                ErrorView::NoWordPressRequests,
            ),
        decreases groups@.len() - index,
    {
        let url = &groups[index].url;
        assert(all[index as int].url == url@);
        if !web::can_be_set(url.as_str()) {
            index += 1;
            continue ;
        }
        match archive::site_from_request(url.as_str()) {
            Some(Ok(site)) => {
                proof {
                    lemma_site_in_prefix(all, (index + 1) as nat, all.len());
                }
                return Ok(site);
            },
            Some(Err(source)) => {
                proof {
                    lemma_site_in_prefix(all, (index + 1) as nat, all.len());
                }
                return Err(Error::Site { url: url.clone(), source });
            },
            None => {},
        }
        index += 1;
    }
    Err(Error::NoWordPressRequests)
}

/// What the first captures settle, all captures leave.
proof fn lemma_site_in_prefix(groups: Seq<GroupView>, count: nat, total: nat)
    requires
        count <= total,
        !(archived_site(groups, count) matches Err(ErrorView::NoWordPressRequests)),
    ensures
        archived_site(groups, total) == archived_site(groups, count),
    decreases total - count,
{
    if count < total {
        lemma_site_in_prefix(groups, count + 1, total);
    }
}

/// What the analysis of an archive of a site finds.
pub open spec fn site_analysis(groups: Seq<GroupView>, site: SiteView) -> AnalysisView {
    let (customs, found) = discovered(groups, site);
    let expected = initial_captures(site, customs);
    let initial = after_initials(
        AnalysisView::nothing().with(found),
        groups,
        site,
        expected,
        expected.len(),
    );
    after_pagination(
        initial.report.with(site_unadvertised_findings(groups, site, customs)),
        initial.checked,
        groups,
        initial.probes,
    ).0
}

/// What the analysis of an archive finds, or why it cannot be analysed.
pub open spec fn analysed(groups: Seq<GroupView>) -> Result<AnalysisView, ErrorView> {
    match archived_site(groups, groups.len()) {
        Ok(site) => Ok(site_analysis(groups, site)),
        Err(error) => Err(error),
    }
}

fn label_initial(url: &str, collection: &Option<Collection>) -> (label: String)
    ensures
        label@ == initial_label(url@, collection.deep_view()),
{
    match collection {
        None => text::joined("initial root ", url),
        Some(collection) => text::joined(collection.name(), " probe"),
    }
}

/// Check that an initial capture is there, once and in order, and return its index.
fn check_presence(
    groups: &Vec<CaptureGroup>,
    site: &Site,
    url: &str,
    collection: &Option<Collection>,
    checked: &mut HashSet<usize>,
    previous: Option<usize>,
    report: &mut Analysis,
) -> (group: Option<usize>)
    ensures
        ({
            let found = candidates(groups.deep_view(), url@);
            &&& group == (if found.len() == 0 {
                None
            } else {
                Some(found[0])
            })
            &&& group matches Some(group) ==> group < groups@.len()
            &&& final(checked)@ == (if found.len() == 0 {
                old(checked)@
            } else {
                old(checked)@.insert(found[0])
            })
        }),
        final(report).deep_view() == old(report).deep_view().with(
            presence_findings(
                InitialView {
                    report: old(report).deep_view(),
                    checked: old(checked)@,
                    previous,
                    probes: Seq::empty(),
                },
                groups.deep_view(),
                site.deep_view(),
                url@,
                collection.deep_view(),
            ),
        ),
{
    let ghost known = report.deep_view();
    let ghost all = groups.deep_view();
    let ghost mut found = Seq::<FindingView>::empty();
    assert(known.with(found) =~= known);
    let label = label_initial(url, collection);
    let candidates = initial_capture_candidates(groups, url);
    if candidates.len() == 0 {
        error(
            report,
            "missing_required_capture",
            text::joined("missing required ", label.as_str()),
        );
        return None;
    }
    if candidates.len() > 1 {
        let mut message = text::joined(label.as_str(), " is captured ");
        message.append(text::count_text(candidates.len()).as_str());
        message.append(" times");
        proof {
            found = found + seq![fault("repeated_initial_capture"@, message@)];
        }
        error(report, "repeated_initial_capture", message);
        assert(report.deep_view() =~= known.with(found));
    }
    assert(candidates@[0] < groups@.len());
    let group = candidates[0];
    let out_of_order = match previous {
        Some(previous) => group < previous,
        None => false,
    };
    if out_of_order {
        let message = text::joined(label.as_str(), " is out of initial capture order");
        proof {
            found = found + seq![fault("initial_capture_out_of_order"@, message@)];
        }
        error(report, "initial_capture_out_of_order", message);
        assert(report.deep_view() =~= known.with(found));
    }
    let ghost shape = new_shape_findings(all, group, checked@);
    check_capture_shape(groups, group, checked, report);
    assert(report.deep_view() =~= known.with(found + shape));
    let expected = match collection {
        Some(collection) => match collection.registry() {
            Some(registry) => Some(site.url(registry.path())),
            None => None,
        },
        None => None,
    };
    let via: Option<&str> = match &expected {
        Some(via) => Some(via.as_str()),
        None => None,
    };
    assert(via.deep_view() == initial_via(site.deep_view(), collection.deep_view()));
    assert(all[group as int] == groups@[group as int].deep_view());
    let ghost origin = via_findings(all[group as int], via.deep_view(), label@);
    check_via(&groups[group], via, label.as_str(), report);
    assert(report.deep_view() =~= known.with(found + shape + origin));
    Some(group)
}

/// Check an initial capture, count it, and return its index.
fn lint_initial(
    groups: &Vec<CaptureGroup>,
    site: &Site,
    position: usize,
    url: &str,
    collection: &Option<Collection>,
    checked: &mut HashSet<usize>,
    previous: Option<usize>,
    probes: &mut Vec<Probe>,
    report: &mut Analysis,
) -> (last: Option<usize>)
    requires
        old(report).roots <= position < usize::MAX,
        old(report).known_probes <= position,
        old(report).custom_probes <= position,
    ensures
        (InitialView {
            report: final(report).deep_view(),
            checked: final(checked)@,
            previous: last,
            probes: final(probes).deep_view(),
        }) == after_initial(
            InitialView {
                report: old(report).deep_view(),
                checked: old(checked)@,
                previous,
                probes: old(probes).deep_view(),
            },
            groups.deep_view(),
            site.deep_view(),
            position as nat,
            url@,
            collection.deep_view(),
        ),
        final(report).roots <= position + 1,
        final(report).known_probes <= position + 1,
        final(report).custom_probes <= position + 1,
{
    let ghost all = groups.deep_view();
    let ghost start = InitialView {
        report: report.deep_view(),
        checked: checked@,
        previous,
        probes: probes.deep_view(),
    };
    let ghost expected = after_initial(
        start,
        all,
        site.deep_view(),
        position as nat,
        url@,
        collection.deep_view(),
    );
    let ghost found = candidates(all, url@);
    let group = check_presence(groups, site, url, collection, checked, previous, report);
    let mut last = previous;
    if let Some(group) = group {
        last = Some(group);
        if position < 8 {
            report.roots += 1;
        } else if position < 16 {
            report.known_probes += 1;
        } else {
            report.custom_probes += 1;
        }
    }
    let ghost seen = report.deep_view();
    assert(seen.with(Seq::empty()) =~= seen);
    if let Some(collection) = collection {
        let head: Option<&ResponseHead> = match group {
            Some(group) => {
                assert(all[group as int] == groups@[group as int].deep_view());
                response_metadata(&groups[group])
            },
            None => None,
        };
        let mut status: Option<u16> = None;
        let mut items: Option<usize> = None;
        if let Some(head) = head {
            status = Some(head.status);
            items = evidence::numeric_header(&head.total);
            if let Some(group) = group {
                if is_success(head.status) {
                    let ghost mut total = Seq::<FindingView>::empty();
                    if items.is_none() {
                        let message = sentence(
                            "successful ",
                            collection.name(),
                            " probe has missing or invalid X-WP-Total",
                        );
                        proof {
                            total = seq![fault("missing_total_items"@, message@)];
                        }
                        error(report, "missing_total_items", message);
                    }
                    assert(report.deep_view() == seen.with(total));
                    let ghost answer = probe_findings(
                        all,
                        group as int,
                        head.deep_view(),
                        collection.deep_view().name(),
                    );
                    check_probe_response(groups, group, head, collection.name(), report);
                    assert(report.deep_view() =~= seen.with(total + answer));
                }
            }
        }
        let probe = Probe { collection: collection.clone(), url: url.to_owned(), status, items };
        let ghost added = probe.deep_view();
        probes.push(probe);
        assert(probes.deep_view() =~= start.probes.push(added));
    }
    assert((InitialView {
        report: report.deep_view(),
        checked: checked@,
        previous: last,
        probes: probes.deep_view(),
    }) =~= expected);
    last
}

/// Relate the captures the file holds, once every record has been read.
///
/// # Errors
///
/// Returns [`Error`] when no request identifies a `WordPress` installation.
pub fn analyse(groups: &Vec<CaptureGroup>) -> (analysis: Result<Analysis, Error>)
    ensures
        match analysis {
            Ok(analysis) => analysed(groups.deep_view()) == Ok::<AnalysisView, ErrorView>(
                analysis.deep_view(),
            ),
            Err(error) => analysed(groups.deep_view()) == Err::<AnalysisView, ErrorView>(
                error.deep_view(),
            ),
        },
{
    let ghost all = groups.deep_view();
    let site = find_site(groups)?;
    let ghost site_view = site.deep_view();
    let mut report = Analysis::default();
    let customs = discover_customs(groups, &site, &mut report);
    let ghost found = report.deep_view();
    let expected = expected_initial(&site, &customs);
    let ghost initial = expected.deep_view();
    let mut checked: HashSet<usize> = HashSet::new();
    let mut previous: Option<usize> = None;
    let mut probes: Vec<Probe> = Vec::new();
    let mut position: usize = 0;
    assert(probes.deep_view() == Seq::<ProbeView>::empty());
    while position < expected.len()
        invariant
            position <= expected@.len(),
            all == groups.deep_view(),
            initial == expected.deep_view(),
            site_view == site.deep_view(),
            report.roots <= position,
            report.known_probes <= position,
            report.custom_probes <= position,
            (InitialView {
                report: report.deep_view(),
                checked: checked@,
                previous,
                probes: probes.deep_view(),
            }) == after_initials(found, all, site_view, initial, position as nat),
        decreases expected@.len() - position,
    {
        let entry = &expected[position];
        assert(initial[position as int] == entry.deep_view());
        previous =
        lint_initial(
            groups,
            &site,
            position,
            entry.0.as_str(),
            &entry.1,
            &mut checked,
            previous,
            &mut probes,
            &mut report,
        );
        position += 1;
    }
    check_unadvertised_custom_probes(groups, &site, &customs, &mut report);
    lint_pagination(groups, &probes, &mut checked, &mut report);
    Ok(report)
}

/// The rules a `WordPress` collection archive is held to, checked beside the standard rules.
///
/// The rules relate captures that only the whole file shows, so a pass collects the records as
/// they go by and reports what it finds once the file ends. A record the pass cannot read is
/// checked against no rule, and the capture it belonged to is reported incomplete.
pub struct WordPressRules {
    /// Shared request/response/metadata evidence in source order.
    evidence: Evidence,
    /// What the whole-file analysis found.
    analysis: Analysis,
    /// Why the archive could not be analysed, if it could not be.
    error: Option<Error>,
}

/// The state of [`WordPressRules`].
#[verifier::ext_equal]
pub struct RulesView {
    pub evidence: EvidenceView,
    pub analysis: AnalysisView,
    pub error: Option<ErrorView>,
}

impl DeepView for WordPressRules {
    type V = RulesView;

    closed spec fn deep_view(&self) -> RulesView {
        RulesView {
            evidence: self.evidence.deep_view(),
            analysis: self.analysis.deep_view(),
            error: self.error.deep_view(),
        }
    }
}

/// The name of the rule that a relationship problem breaks.
pub open spec fn problem_rule(problem: ProblemView) -> Seq<char> {
    match problem {
        ProblemView::DuplicateRequestId(_) => "duplicate_request_record_id"@,
        ProblemView::UnlinkedResponse(_) => "unlinked_response_record"@,
        ProblemView::DuplicateResponse(_) => "duplicate_capture_response"@,
        ProblemView::UnlinkedMetadata(_) => "unlinked_metadata_record"@,
        ProblemView::DuplicateMetadata(_) => "duplicate_capture_metadata"@,
    }
}

/// The error about one record that a relationship problem is.
pub open spec fn problem_finding(index: usize, problem: ProblemView) -> FindingView {
    FindingView {
        record: Some(index),
        ..fault(problem_rule(problem), problem.message())
    }
}

impl RulesView {
    /// The rules after the record at `index`, and what is found of it.
    pub open spec fn checked(self, index: usize, record: RecordView) -> (
        RulesView,
        Option<FindingView>,
    ) {
        let (evidence, problem) = self.evidence.observed(record);
        (
            RulesView { evidence, ..self },
            match problem {
                Some(problem) => Some(problem_finding(index, problem)),
                None => None,
            },
        )
    }

    /// The rules after the end of the file, and what is found of the whole.
    pub open spec fn finished(self) -> (RulesView, Seq<FindingView>) {
        match analysed(self.evidence.groups) {
            Ok(analysis) => (
                RulesView {
                    analysis: AnalysisView { findings: Seq::empty(), ..analysis },
                    ..self
                },
                analysis.findings,
            ),
            Err(error) => (
                RulesView {
                    analysis: AnalysisView { findings: Seq::empty(), ..self.analysis },
                    error: Some(error),
                    ..self
                },
                self.analysis.findings,
            ),
        }
    }
}

impl WordPressRules {
    /// Hold an archive to the `WordPress` capture and pagination rules.
    #[must_use]
    pub fn new() -> (rules: Self)
        ensures
            rules.deep_view() == (RulesView {
                evidence: EvidenceView::nothing(),
                analysis: AnalysisView::nothing(),
                error: None,
            }),
            rules.deep_view().evidence.is_valid(),
    {
        WordPressRules {
            evidence: Evidence::default(),
            analysis: Analysis::default(),
            error: None,
        }
    }

    /// Take the record at `index` into account, and return what is found of it.
    pub fn check(&mut self, index: usize, record: &Record) -> (finding: Option<Finding>)
        requires
            old(self).deep_view().evidence.is_valid(),
        ensures
            (final(self).deep_view(), finding.deep_view()) == old(self).deep_view().checked(
                index,
                record.deep_view(),
            ),
            final(self).deep_view().evidence.is_valid(),
    {
        match self.evidence.observe(record) {
            None => None,
            Some(problem) => {
                let rule = match &problem {
                    Problem::DuplicateRequestId(_) => "duplicate_request_record_id",
                    Problem::UnlinkedResponse(_) => "unlinked_response_record",
                    Problem::DuplicateResponse(_) => "duplicate_capture_response",
                    Problem::UnlinkedMetadata(_) => "unlinked_metadata_record",
                    Problem::DuplicateMetadata(_) => "duplicate_capture_metadata",
                };
                Some(
                    Finding {
                        severity: Severity::Error,
                        rule: rule.to_owned(),
                        message: problem.to_string(),
                        record: Some(index),
                        core: false,
                    },
                )
            },
        }
    }

    /// Take the end of the file into account, and return what is found of the whole.
    pub fn finish(&mut self) -> (findings: Vec<Finding>)
        ensures
            (final(self).deep_view(), findings.deep_view()) == old(self).deep_view().finished(),
    {
        let ghost start = self.deep_view();
        match analyse(self.evidence.groups()) {
            Ok(analysis) => {
                self.analysis = analysis;
            },
            Err(error) => {
                self.error = Some(error);
            },
        }
        let ghost gathered = self.analysis.deep_view();
        let mut findings: Vec<Finding> = Vec::new();
        std::mem::swap(&mut findings, &mut self.analysis.findings);
        assert(self.analysis.deep_view() =~= (AnalysisView {
            findings: Seq::empty(),
            ..gathered
        }));
        assert(self.deep_view() =~= start.finished().0);
        findings
    }
}

/// Results of linting one `WordPress` collection archive.
#[derive(Debug, Eq, PartialEq)]
pub struct LintReport {
    /// The findings of the pass: those of the standard rules and those of the rules above, in
    /// the order the pass reported them.
    pub findings: Vec<Finding>,
    /// Number of records that passed all core rules.
    pub core_lints_passed: usize,
    /// Successfully probed endpoints in probe order, with their advertised counts.
    pub pagination: Vec<PaginationSummary>,
    /// Number of required root captures found.
    pub roots: usize,
    /// Number of required known endpoint probes found.
    pub known_probes: usize,
    /// Number of registry-advertised custom endpoint probes found.
    pub custom_probes: usize,
}

/// The parts of a [`LintReport`].
#[verifier::ext_equal]
pub struct ReportView {
    pub findings: Seq<FindingView>,
    pub core_lints_passed: usize,
    pub pagination: Seq<SummaryView>,
    pub roots: usize,
    pub known_probes: usize,
    pub custom_probes: usize,
}

impl DeepView for LintReport {
    type V = ReportView;

    open spec fn deep_view(&self) -> ReportView {
        ReportView {
            findings: self.findings.deep_view(),
            core_lints_passed: self.core_lints_passed,
            pagination: self.pagination.deep_view(),
            roots: self.roots,
            known_probes: self.known_probes,
            custom_probes: self.custom_probes,
        }
    }
}

/// How many findings are of a severity.
pub open spec fn count_of(findings: Seq<FindingView>, severity: Severity) -> nat
    decreases findings.len(),
{
    if findings.len() == 0 {
        0
    } else {
        count_of(findings.drop_last(), severity) + (if findings.last().severity == severity {
            1nat
        } else {
            0nat
        })
    }
}

/// Every finding is either an error or a warning.
pub proof fn findings_are_errors_or_warnings(findings: Seq<FindingView>)
    ensures
        count_of(findings, Severity::Error) + count_of(findings, Severity::Warning)
            == findings.len(),
    decreases findings.len(),
{
    if findings.len() > 0 {
        findings_are_errors_or_warnings(findings.drop_last());
    }
}

fn count_findings(findings: &Vec<Finding>, severity: Severity) -> (count: usize)
    ensures
        count == count_of(findings.deep_view(), severity),
{
    let ghost all = findings.deep_view();
    let mut count: usize = 0;
    let mut index: usize = 0;
    while index < findings.len()
        invariant
            index <= findings@.len(),
            all == findings.deep_view(),
            count == count_of(all.take(index as int), severity),
            count <= index,
        decreases findings@.len() - index,
    {
        assert(all.take(index + 1).drop_last() == all.take(index as int));
        if findings[index].severity == severity {
            count += 1;
        }
        index += 1;
    }
    assert(all.take(index as int) == all);
    count
}

impl LintReport {
    /// Whether the archive has no errors or warnings.
    #[must_use]
    pub fn is_clean(&self) -> (clean: bool)
        ensures
            clean == (self.deep_view().findings.len() == 0),
    {
        self.findings.len() == 0
    }

    /// Number of error findings.
    #[must_use]
    pub fn error_count(&self) -> (count: usize)
        ensures
            count == count_of(self.deep_view().findings, Severity::Error),
    {
        count_findings(&self.findings, Severity::Error)
    }

    /// Number of warning findings.
    #[must_use]
    pub fn warning_count(&self) -> (count: usize)
        ensures
            count == count_of(self.deep_view().findings, Severity::Warning),
    {
        count_findings(&self.findings, Severity::Warning)
    }
}

/// The records that a core rule found something in.
pub open spec fn failed_records(findings: Seq<FindingView>) -> Set<usize>
    decreases findings.len(),
{
    if findings.len() == 0 {
        Set::empty()
    } else {
        let earlier = failed_records(findings.drop_last());
        match findings.last().record {
            Some(index) if findings.last().core => earlier.insert(index),
            _ => earlier,
        }
    }
}

/// Whether every finding about a record is about one of the first `records`.
pub open spec fn are_about(findings: Seq<FindingView>, records: usize) -> bool {
    forall|index: int|
        0 <= index < findings.len() ==> ((#[trigger] findings[index]).record matches Some(record)
            ==> record < records)
}

proof fn lemma_failed_records(findings: Seq<FindingView>, records: usize)
    requires
        are_about(findings, records),
    ensures
        failed_records(findings).finite(),
        forall|record: usize|
            failed_records(findings).contains(record) ==> record < records,
    decreases findings.len(),
{
    if findings.len() > 0 {
        assert forall|index: int| 0 <= index < findings.drop_last().len() implies ((
        #[trigger] findings.drop_last()[index]).record matches Some(record) ==> record
            < records) by {
            assert(findings.drop_last()[index] == findings[index]);
        }
        lemma_failed_records(findings.drop_last(), records);
        assert(findings[findings.len() - 1] == findings.last());
    }
}

/// There are no more numbers in a set than below its bound.
proof fn lemma_bounded_set(numbers: Set<usize>, bound: nat)
    requires
        numbers.finite(),
        forall|number: usize| numbers.contains(number) ==> number < bound,
    ensures
        numbers.len() <= bound,
    decreases bound,
{
    if bound == 0 {
        assert(numbers =~= Set::<usize>::empty());
    } else if bound - 1 <= usize::MAX {
        let last = (bound - 1) as usize;
        lemma_bounded_set(numbers.remove(last), (bound - 1) as nat);
    } else {
        lemma_bounded_set(numbers, (bound - 1) as nat);
    }
}

/// The report of a pass over so many records: its findings, and what the analysis gathered.
pub open spec fn reported(
    findings: Seq<FindingView>,
    records: usize,
    rules: RulesView,
) -> Result<ReportView, ErrorView> {
    match rules.error {
        Some(error) => Err(error),
        None => Ok(
            ReportView {
                findings,
                core_lints_passed: (records - failed_records(findings).len()) as usize,
                pagination: rules.analysis.pagination,
                roots: rules.analysis.roots,
                known_probes: rules.analysis.known_probes,
                custom_probes: rules.analysis.custom_probes,
            },
        ),
    }
}

/// Report a pass over so many records.
///
/// # Errors
///
/// Returns [`Error`] when the archive could not be analysed.
pub fn report(findings: Vec<Finding>, records: usize, rules: WordPressRules) -> (report: Result<
    LintReport,
    Error,
>)
    requires
        are_about(findings.deep_view(), records),
    ensures
        match report {
            Ok(report) => reported(findings.deep_view(), records, rules.deep_view()) == Ok::<
                ReportView,
                ErrorView,
            >(report.deep_view()),
            Err(error) => reported(findings.deep_view(), records, rules.deep_view()) == Err::<
                ReportView,
                ErrorView,
            >(error.deep_view()),
        },
{
    broadcast use vstd::std_specs::hash::group_hash_axioms;

    let ghost all = findings.deep_view();
    let ghost start = rules.deep_view();
    if let Some(error) = rules.error {
        return Err(error);
    }
    let mut failed: HashSet<usize> = HashSet::new();
    let mut index: usize = 0;
    while index < findings.len()
        invariant
            index <= findings@.len(),
            all == findings.deep_view(),
            failed@ == failed_records(all.take(index as int)),
        decreases findings@.len() - index,
    {
        broadcast use vstd::std_specs::hash::group_hash_axioms;

        assert(all.take(index + 1).drop_last() == all.take(index as int));
        let finding = &findings[index];
        assert(all[index as int] == finding.deep_view());
        if finding.core {
            if let Some(record) = finding.record {
                failed.insert(record);
            }
        }
        index += 1;
    }
    assert(all.take(index as int) == all);
    proof {
        lemma_failed_records(all, records);
        lemma_bounded_set(failed@, records as nat);
    }
    let analysis = rules.analysis;
    Ok(
        LintReport {
            findings,
            core_lints_passed: records - failed.len(),
            pagination: analysis.pagination,
            roots: analysis.roots,
            known_probes: analysis.known_probes,
            custom_probes: analysis.custom_probes,
        },
    )
}

/// Whether an error of a rule is among the findings.
pub open spec fn has_error(findings: Seq<FindingView>, rule: Seq<char>) -> bool {
    exists|index: int|
        0 <= index < findings.len() && (#[trigger] findings[index]).severity == Severity::Error
            && findings[index].rule == rule
}

/// Beyond what is found of its pages one by one, a pass has an error exactly where the number of
/// its captures is not the advertised page count, or not one for an empty collection: both where
/// there are fewer and where there are more.
pub proof fn a_pass_has_its_advertised_pages(
    findings: Seq<FindingView>,
    checked: Set<usize>,
    groups: Seq<GroupView>,
    captures: Seq<PageCapture>,
    first_via: Seq<char>,
    total: Option<usize>,
    name: Seq<char>,
    pass: Seq<char>,
)
    ensures
        ({
            let found = pass_findings(
                findings,
                checked,
                groups,
                captures,
                first_via,
                total,
                name,
                pass,
            );
            let pages = pages_findings(findings, checked, groups, captures, first_via, name, pass);
            &&& total is None ==> found == pages
            &&& total matches Some(total) ==> {
                let whole = (total > 0 && captures.len() == total) || (total == 0 && captures.len() == 1);
                &&& whole ==> found == pages
                &&& !whole ==> found.len() == pages.len() + 1 && found.drop_last() == pages
                    && found.last().severity == Severity::Error && found.last().rule
                    == "wrong_pagination_length"@
            }
        }),
{
    let found = pass_findings(findings, checked, groups, captures, first_via, total, name, pass);
    let pages = pages_findings(findings, checked, groups, captures, first_via, name, pass);
    if let Some(total) = total {
        if (total > 0 && captures.len() == total) || (total == 0 && captures.len() == 1) {
            assert(found =~= pages);
        } else {
            assert(found.drop_last() =~= pages);
        }
    } else {
        assert(found =~= pages);
    }
}

/// A pass with fewer captures than a page that it captured advertises has an error, and so has one
/// with more than every page that it captured advertises, or with more than one for an empty
/// collection.
pub proof fn a_pass_of_the_wrong_length_is_an_error(
    findings: Seq<FindingView>,
    checked: Set<usize>,
    groups: Seq<GroupView>,
    captures: Seq<PageCapture>,
    first_via: Seq<char>,
    name: Seq<char>,
    pass: Seq<char>,
    index: int,
)
    requires
        0 <= index < captures.len(),
        advertised_by(groups, captures[index]) is Some,
        ({
            ||| captures.len() < advertised_by(groups, captures[index])->0
            ||| captures.len() > 1 && forall|other: int|
                0 <= other < captures.len() ==> (advertised_by(
                    groups,
                    #[trigger] captures[other],
                ) matches Some(pages) ==> pages < captures.len())
        }),
    ensures
        has_error(
            pass_findings(
                findings,
                checked,
                groups,
                captures,
                first_via,
                greatest_total(groups, captures),
                name,
                pass,
            ),
            "wrong_pagination_length"@,
        ),
{
    let total = greatest_total(groups, captures);
    the_greatest_total_is_advertised(groups, captures);
    a_pass_has_its_advertised_pages(
        findings,
        checked,
        groups,
        captures,
        first_via,
        total,
        name,
        pass,
    );
    let found = pass_findings(findings, checked, groups, captures, first_via, total, name, pass);
    assert(found[found.len() - 1] == found.last());
}

/// The page count that a capture's response advertises.
pub open spec fn advertised_by(groups: Seq<GroupView>, capture: PageCapture) -> Option<usize> {
    match groups[capture.group as int].response {
        Some(response) => match response.message.head {
            Some(head) => evidence::header_count(head.total_pages),
            None => None,
        },
        None => None,
    }
}

/// The greatest page count of captures is advertised by one of them and by none exceeded; there is
/// none only where no capture advertises any.
pub proof fn the_greatest_total_is_advertised(groups: Seq<GroupView>, captures: Seq<PageCapture>)
    ensures
        ({
            let total = greatest_total(groups, captures);
            &&& forall|index: int|
                0 <= index < captures.len() ==> (advertised_by(
                    groups,
                    #[trigger] captures[index],
                ) matches Some(pages) ==> total is Some && pages <= total->0)
            &&& total is Some ==> exists|index: int|
                0 <= index < captures.len() && advertised_by(groups, #[trigger] captures[index])
                    == total
        }),
    decreases captures.len(),
{
    if captures.len() > 0 {
        let earlier = captures.drop_last();
        let last = captures.len() - 1;
        the_greatest_total_is_advertised(groups, earlier);
        let before = greatest_total(groups, earlier);
        let total = greatest_total(groups, captures);
        archive::the_greatest_count_bounds_both(before, advertised_by(groups, captures[last]));
        assert forall|index: int| 0 <= index < captures.len() implies (advertised_by(
            groups,
            #[trigger] captures[index],
        ) matches Some(pages) ==> total is Some && pages <= total->0) by {
            if index < last {
                assert(earlier[index] == captures[index]);
            }
        }
        if total is Some {
            if total == before {
                let index = choose|index: int|
                    0 <= index < earlier.len() && advertised_by(groups, #[trigger] earlier[index])
                        == before;
                assert(advertised_by(groups, captures[index]) == total);
            } else {
                assert(advertised_by(groups, captures[last]) == total);
            }
        }
    }
}

/// The delivered captures are those of success and of unchanged pages that are not cut off, in
/// order.
pub proof fn delivered_captures_are_whole(groups: Seq<GroupView>, captures: Seq<PageCapture>)
    ensures
        delivered(groups, captures) == captures.filter(
            |capture: PageCapture|
                {
                    let group = groups[capture.group as int];
                    &&& group.response is Some
                    &&& !is_cut_off(group.response->0)
                    &&& group.response->0.message.head is Some
                    &&& group.response->0.message.head->0.status == 200
                        || group.response->0.message.head->0.status == 304
                },
        ),
    decreases captures.len(),
{
    reveal(Seq::filter);
    if captures.len() > 0 {
        delivered_captures_are_whole(groups, captures.drop_last());
    }
}

/// A response without a reason to be cut off is whole, and one with a reason is cut off unless it is
/// a revisit.
pub proof fn only_revisits_may_be_cut_off(response: ResponseView)
    ensures
        response.truncation is None ==> !is_cut_off(response),
        response.truncation is Some && response.revisit is None ==> is_cut_off(response),
        response.truncation is Some && text::lower(response.truncation->0) != text::lower(
            "length"@,
        ) ==> is_cut_off(response),
        response.truncation == Some("length"@) && (response.revisit matches Some(revisit) && (
        revisit.profile == StoredRevisitProfile::IdenticalPayloadDigest || revisit.profile
            == StoredRevisitProfile::ServerNotModified)) ==> !is_cut_off(response),
{
}

/// The two passes are the delivered captures in order. The first goes on until page one is captured
/// again, which begins the second.
pub proof fn passes_divide_the_delivered_captures(
    groups: Seq<GroupView>,
    captures: Seq<PageCapture>,
)
    ensures
        first_pass(groups, captures) + second_pass(groups, captures) == delivered(
            groups,
            captures,
        ),
        delivered(groups, captures).len() > 0 ==> first_pass(groups, captures).len() > 0,
        second_pass(groups, captures).len() > 0 ==> second_pass(groups, captures)[0].page == Some(
            1usize,
        ),
        forall|index: int|
            0 < index < first_pass(groups, captures).len() ==> (#[trigger] first_pass(
                groups,
                captures,
            )[index]).page != Some(1usize),
{
    let successful = delivered(groups, captures);
    if successful.len() > 0 {
        lemma_pass_end(successful, 1);
        lemma_pass_has_no_first_page(successful, 1);
        let end = pass_end(successful, 1);
        assert(successful.take(end) + successful.skip(end) =~= successful);
    } else {
        assert(first_pass(groups, captures) + second_pass(groups, captures) =~= successful);
    }
}

proof fn lemma_pass_has_no_first_page(captures: Seq<PageCapture>, from: int)
    requires
        0 <= from <= captures.len(),
    ensures
        forall|index: int|
            from <= index < pass_end(captures, from) ==> (#[trigger] captures[index]).page != Some(
                1usize,
            ),
        pass_end(captures, from) < captures.len() ==> captures[pass_end(captures, from)].page
            == Some(1usize),
    decreases captures.len() - from,
{
    if from < captures.len() && captures[from].page != Some(1usize) {
        lemma_pass_has_no_first_page(captures, from + 1);
    }
}

/// A series of which nothing is found has delivered in its first pass as many pages as any of them
/// advertises, and in its second none, or as many again of a collection of more than one page.
pub proof fn a_clean_series_has_every_page(
    findings: Seq<FindingView>,
    checked: Set<usize>,
    groups: Seq<GroupView>,
    name: Seq<char>,
    url: Seq<char>,
    captures: Seq<PageCapture>,
)
    requires
        series_findings(findings, checked, groups, name, url, captures).len() == 0,
    ensures
        ({
            let first = first_pass(groups, captures);
            let second = second_pass(groups, captures);
            &&& forall|index: int|
                0 <= index < first.len() ==> (advertised_by(
                    groups,
                    #[trigger] first[index],
                ) matches Some(pages) ==> pages <= first.len())
            &&& first.len() > 1 && (exists|index: int|
                0 <= index < first.len() && advertised_by(groups, #[trigger] first[index]) is Some)
                ==> exists|index: int|
                0 <= index < first.len() && advertised_by(groups, #[trigger] first[index]) == Some(
                    first.len() as usize,
                )
            &&& second.len() > 0 ==> second.len() == first.len() && first.len() > 1
        }),
{
    let first = first_pass(groups, captures);
    let second = second_pass(groups, captures);
    let total = greatest_total(groups, first);
    the_greatest_total_is_advertised(groups, first);
    a_pass_has_its_advertised_pages(
        findings,
        checked,
        groups,
        first,
        url,
        total,
        name,
        "pagination"@,
    );
    if second.len() > 0 && total is Some && total->0 > 1 {
        let before = pass_findings(
            findings,
            checked,
            groups,
            first,
            url,
            total,
            name,
            "pagination"@,
        );
        a_pass_has_its_advertised_pages(
            findings + before,
            checked_after(checked, first),
            groups,
            second,
            groups[first.last().group as int].url,
            total,
            name,
            "legacy validation"@,
        );
    }
}

/// Nothing is found of a page's position exactly where its URL has an archive's shape, asks for the
/// page that is due, and was led to by the expected one; what is found are errors.
pub proof fn a_page_stands_in_its_place(
    group: GroupView,
    capture: PageCapture,
    page: nat,
    expected_via: Seq<char>,
    name: Seq<char>,
    pass: Seq<char>,
)
    ensures
        ({
            let found = position_findings(group, capture, page, expected_via, name, pass);
            let led = group.metadata.len() > 0 && group.metadata[0].via == Some(expected_via);
            let due = capture.page matches Some(number) && number == page;
            &&& found.len() == 0 <==> capture.valid_query && due && led
            &&& forall|index: int|
                0 <= index < found.len() ==> (#[trigger] found[index]).severity == Severity::Error
        }),
{
    reveal(position_findings);
}

/// Nothing is found of a page's response exactly where it is a success or unchanged, advertises a
/// page count, and in the former case is an array; what is found are errors.
pub proof fn a_page_is_answered(head: HeadView, array: bool, label: Seq<char>)
    ensures
        ({
            let found = answer_findings(head, array, label);
            &&& found.len() == 0 <==> (head.status == 200 && array || head.status == 304)
                && evidence::header_count(head.total_pages) is Some
            &&& forall|index: int|
                0 <= index < found.len() ==> (#[trigger] found[index]).severity == Severity::Error
        }),
{
    reveal(answer_findings);
}

/// Nothing is found of the records of a capture exactly where it has a whole HTTP response and
/// metadata, all of them of the requested URL; what is found are errors.
pub proof fn a_capture_has_its_records(group: GroupView)
    ensures
        ({
            let found = shape_findings(group);
            &&& found.len() == 0 <==> {
                &&& group.response is Some
                &&& group.response->0.url == group.url
                &&& !is_cut_off(group.response->0)
                &&& group.response->0.message.head is Some
                &&& group.metadata.len() > 0
                &&& group.metadata[0].url == Some(group.url)
                &&& group.metadata[0].fields
            }
            &&& forall|index: int|
                0 <= index < found.len() ==> (#[trigger] found[index]).severity == Severity::Error
        }),
{
    reveal(shape_findings);
}

/// Nothing is found of the links of a page exactly where every page but the first links to the one
/// before it, and every page but the last to the one after it, exactly or with an attestation that
/// was warned of; what is found are warnings.
pub proof fn a_page_links_to_its_neighbours(
    findings: Seq<FindingView>,
    head: HeadView,
    url: Seq<char>,
    page: nat,
    total: Option<usize>,
    label: Seq<char>,
)
    ensures
        ({
            let found = link_findings(findings, head, url, page, total, label);
            let links = header_links(head.links);
            let before = linked_match(links, "prev"@, url, (page - 1) as nat);
            let after = linked_match(links, "next"@, url, page + 1);
            let warned = has_warning(findings, ATTEST_LINK_WARNING@);
            &&& total is None ==> found.len() == 0
            &&& total matches Some(total) ==> (found.len() == 0 <==> {
                &&& page > 1 ==> before is Exact || (before is Attested && warned)
                &&& page < total ==> after is Exact || (after is Attested && warned)
            })
            &&& forall|index: int|
                0 <= index < found.len() ==> (#[trigger] found[index]).severity
                    == Severity::Warning
        }),
{
    reveal(link_findings);
    let links = header_links(head.links);
    if page > 1 {
        let backward = relation_findings(findings, links, url, "prev"@, label, (page - 1) as nat);
        if backward.len() == 0 {
            assert(findings + backward =~= findings);
        }
    } else {
        assert(findings + Seq::<FindingView>::empty() =~= findings);
    }
}

/// Names among others are those of the names that the others hold, in order.
pub proof fn names_among_others_are_shared(names: Seq<Seq<char>>, others: Seq<Seq<char>>)
    ensures
        those_among(names, others) == names.filter(|name: Seq<char>| others.contains(name)),
    decreases names.len(),
{
    reveal(Seq::filter);
    if names.len() > 0 {
        names_among_others_are_shared(names.drop_last(), others);
    }
}

/// The successfully probed collections are those whose probe had a status from 200 to 299 or 304,
/// in order.
pub proof fn successful_probes_have_a_status_of_success(probes: Seq<ProbeView>)
    ensures
        successful_names(probes) == probes.filter(
            |probe: ProbeView|
                probe.status is Some && (200 <= probe.status->0 < 300 || probe.status->0 == 304),
        ).map_values(|probe: ProbeView| probe.collection.name()),
    decreases probes.len(),
{
    reveal(Seq::filter);
    if probes.len() > 0 {
        successful_probes_have_a_status_of_success(probes.drop_last());
    }
}

/// Collections are paged without interruption exactly where none is encountered twice.
pub proof fn uninterrupted_collections_are_distinct(encountered: Seq<Seq<char>>)
    ensures
        interruption_findings(encountered).len() == 0 <==> encountered.no_duplicates(),
        forall|index: int|
            0 <= index < interruption_findings(encountered).len() ==> (
            #[trigger] interruption_findings(encountered)[index]).severity == Severity::Error,
    decreases encountered.len(),
{
    if encountered.len() > 0 {
        let earlier = encountered.drop_last();
        let last = encountered.len() - 1;
        uninterrupted_collections_are_distinct(earlier);
        if earlier.no_duplicates() && !earlier.contains(encountered.last()) {
            assert forall|first: int, second: int|
                0 <= first < encountered.len() && 0 <= second < encountered.len() && first
                    != second implies encountered[first] != encountered[second] by {
                if first < last {
                    assert(earlier[first] == encountered[first]);
                }
                if second < last {
                    assert(earlier[second] == encountered[second]);
                }
            }
        }
        if encountered.no_duplicates() {
            assert forall|first: int, second: int|
                0 <= first < earlier.len() && 0 <= second < earlier.len() && first
                    != second implies earlier[first] != earlier[second] by {
                assert(earlier[first] == encountered[first]);
                assert(earlier[second] == encountered[second]);
            }
            if earlier.contains(encountered.last()) {
                let index = earlier.index_of(encountered.last());
                assert(encountered[index] == encountered[last]);
            }
        }
    }
}

/// The pages of a collection are the captures with its name, in order.
pub proof fn pages_go_by_their_collection(
    pages: Seq<(Seq<char>, PageCapture)>,
    name: Seq<char>,
)
    ensures
        pages_named(pages, name) == pages.filter(
            |page: (Seq<char>, PageCapture)| page.0 == name,
        ).map_values(|page: (Seq<char>, PageCapture)| page.1),
    decreases pages.len(),
{
    reveal(Seq::filter);
    if pages.len() > 0 {
        pages_go_by_their_collection(pages.drop_last(), name);
    }
}

/// A URL is a page of a probed collection exactly where it is that collection's bare URL with a
/// query.
pub proof fn pages_have_the_url_of_a_probe(url: Seq<char>, probes: Seq<ProbeView>)
    ensures
        paged_collection(url, probes) is Some <==> exists|index: int|
            0 <= index < probes.len() && ((#[trigger] probes[index]).url + "?"@).is_prefix_of(url),
        paged_collection(url, probes) matches Some(name) ==> exists|index: int|
            0 <= index < probes.len() && ((#[trigger] probes[index]).url + "?"@).is_prefix_of(url)
                && probes[index].collection.name() == name,
    decreases probes.len(),
{
    if probes.len() > 0 {
        let rest = probes.drop_first();
        pages_have_the_url_of_a_probe(url, rest);
        if (probes[0].url + "?"@).is_prefix_of(url) {
        } else if paged_collection(url, rest) is Some {
            let name = paged_collection(url, rest)->0;
            let index = choose|index: int|
                0 <= index < rest.len() && ((#[trigger] rest[index]).url + "?"@).is_prefix_of(url)
                    && rest[index].collection.name() == name;
            assert(probes[index + 1] == rest[index]);
        } else if exists|index: int|
            0 <= index < probes.len() && ((#[trigger] probes[index]).url + "?"@).is_prefix_of(
                url,
            ) {
            let index = choose|index: int|
                0 <= index < probes.len() && ((#[trigger] probes[index]).url + "?"@).is_prefix_of(
                    url,
                );
            assert(rest[index - 1] == probes[index]);
        }
    }
}

/// The collected pages are the captures below a probed collection: each of them, once, under its
/// collection's name.
pub proof fn every_page_is_collected(groups: Seq<GroupView>, probes: Seq<ProbeView>, count: nat)
    requires
        count <= groups.len() <= usize::MAX,
    ensures
        ({
            let pages = collected_pages(groups, probes, count).pages;
            &&& forall|index: int|
                0 <= index < pages.len() ==> {
                    let (name, capture) = #[trigger] pages[index];
                    &&& capture.group < count
                    &&& paged_collection(groups[capture.group as int].url, probes) == Some(name)
                    &&& capture.page == queried(groups[capture.group as int].url).0
                    &&& capture.valid_query == queried(groups[capture.group as int].url).1
                }
            &&& forall|group: int|
                0 <= group < count && paged_collection(
                    (#[trigger] groups[group]).url,
                    probes,
                ) is Some ==> exists|index: int|
                    0 <= index < pages.len() && (#[trigger] pages[index]).1.group == group
            &&& forall|first: int, second: int|
                0 <= first < second < pages.len() ==> (#[trigger] pages[first]).1.group < (
                #[trigger] pages[second]).1.group
        }),
    decreases count,
{
    if count > 0 {
        let before = (count - 1) as nat;
        every_page_is_collected(groups, probes, before);
        let earlier = collected_pages(groups, probes, before).pages;
        let pages = collected_pages(groups, probes, count).pages;
        if paged_collection(groups[before as int].url, probes) is Some {
            assert(pages.drop_last() =~= earlier);
            assert(pages[pages.len() - 1].1.group == before);
            assert forall|group: int|
                0 <= group < count && paged_collection(
                    (#[trigger] groups[group]).url,
                    probes,
                ) is Some implies exists|index: int|
                    0 <= index < pages.len() && (#[trigger] pages[index]).1.group == group by {
                if group < before {
                    let index = choose|index: int|
                        0 <= index < earlier.len() && (#[trigger] earlier[index]).1.group == group;
                    assert(pages[index] == earlier[index]);
                }
            }
            assert forall|first: int, second: int|
                0 <= first < second < pages.len() implies (#[trigger] pages[first]).1.group < (
            #[trigger] pages[second]).1.group by {
                assert(pages[first] == earlier[first]);
                if second < earlier.len() {
                    assert(pages[second] == earlier[second]);
                }
            }
        }
    }
}

/// The candidates for an initial capture are the captures of its URL that are no challenge: each
/// of them, once, in order.
pub proof fn candidates_are_the_captures_of_a_url(
    groups: Seq<GroupView>,
    url: Seq<char>,
    count: nat,
)
    requires
        count <= groups.len() <= usize::MAX,
    ensures
        ({
            let found = candidates_among(groups, url, count);
            &&& forall|index: int|
                0 <= index < found.len() ==> (#[trigger] found[index]) < count
                    && groups[found[index] as int].url == url && !is_challenge(
                    groups[found[index] as int],
                )
            &&& forall|group: int|
                0 <= group < count && (#[trigger] groups[group]).url == url && !is_challenge(
                    groups[group],
                ) ==> found.contains(group as usize)
            &&& forall|first: int, second: int|
                0 <= first < second < found.len() ==> found[first] < found[second]
        }),
    decreases count,
{
    if count > 0 {
        let before = (count - 1) as nat;
        candidates_are_the_captures_of_a_url(groups, url, before);
        let earlier = candidates_among(groups, url, before);
        let found = candidates_among(groups, url, count);
        if groups[before as int].url == url && !is_challenge(groups[before as int]) {
            assert(found[found.len() - 1] == before as usize);
            assert forall|group: int|
                0 <= group < count && (#[trigger] groups[group]).url == url && !is_challenge(
                    groups[group],
                ) implies found.contains(group as usize) by {
                if group < before {
                    let index = earlier.index_of(group as usize);
                    assert(found[index] == group as usize);
                }
            }
        }
    }
}

/// A challenge is a refusal that says so, or a response of the status and with the texts of one.
pub proof fn only_refusals_are_challenges(group: GroupView)
    ensures
        is_challenge(group) ==> group.response is Some && (
        group.response->0.message.head matches Some(head) && (head.status == 403
            && head.mitigated is Some || head.status == 454
            && group.response->0.message.entity is Ok)),
        group.response is Some && group.response->0.message.head is Some
            && group.response->0.message.head->0.status == 403
            && group.response->0.message.head->0.mitigated is Some && bytes::spells(
            group.response->0.message.head->0.mitigated->0,
            "challenge"@,
        ) ==> is_challenge(group),
{
}

/// Nothing is found of an initial capture's presence exactly where there is one capture of its URL,
/// not before the previous one, with its records, and led to as expected.
pub proof fn an_initial_capture_is_there_once(
    state: InitialView,
    groups: Seq<GroupView>,
    site: SiteView,
    url: Seq<char>,
    collection: Option<CollectionView>,
)
    ensures
        ({
            let found = candidates(groups, url);
            presence_findings(state, groups, site, url, collection).len() == 0 <==> {
                &&& found.len() == 1
                &&& state.previous matches Some(previous) ==> previous <= found[0]
                &&& state.checked.contains(found[0]) || shape_findings(
                    groups[found[0] as int],
                ).len() == 0
                &&& via_of(groups[found[0] as int]) == initial_via(site, collection)
            }
        }),
{
}

/// The findings of a severity are counted one by one.
pub proof fn counts_are_of_the_findings_of_a_severity(
    findings: Seq<FindingView>,
    severity: Severity,
)
    ensures
        count_of(findings, severity) == findings.filter(
            |finding: FindingView| finding.severity == severity,
        ).len(),
    decreases findings.len(),
{
    reveal(Seq::filter);
    if findings.len() > 0 {
        counts_are_of_the_findings_of_a_severity(findings.drop_last(), severity);
    }
}

/// A record fails exactly where a core rule found something in it.
pub proof fn failed_records_have_core_findings(findings: Seq<FindingView>, record: usize)
    ensures
        failed_records(findings).contains(record) <==> exists|index: int|
            0 <= index < findings.len() && (#[trigger] findings[index]).core
                && findings[index].record == Some(record),
    decreases findings.len(),
{
    if findings.len() > 0 {
        let earlier = findings.drop_last();
        failed_records_have_core_findings(earlier, record);
        assert(findings[findings.len() - 1] == findings.last());
        if failed_records(earlier).contains(record) {
            let index = choose|index: int|
                0 <= index < earlier.len() && (#[trigger] earlier[index]).core
                    && earlier[index].record == Some(record);
            assert(findings[index] == earlier[index]);
        }
        if exists|index: int|
            0 <= index < findings.len() && (#[trigger] findings[index]).core
                && findings[index].record == Some(record) {
            let index = choose|index: int|
                0 <= index < findings.len() && (#[trigger] findings[index]).core
                    && findings[index].record == Some(record);
            if index < earlier.len() {
                assert(earlier[index] == findings[index]);
            }
        }
    }
}

/// The payload of a response is its own, and that of a revisit is the one that it revisits.
pub proof fn a_revisit_stands_for_its_original(groups: Seq<GroupView>, index: int, original: usize)
    requires
        0 <= index < groups.len(),
        original < groups.len(),
        groups[index].response is Some,
        groups[original as int].response is Some,
        groups[original as int].response->0.revisit is None,
    ensures
        resolved(groups, original as int) == ResolvedView::Block(
            groups[original as int].response->0,
        ),
        groups[index].response->0.revisit is Some
            && groups[index].response->0.revisit->0.original == Some(original) ==> resolved(
            groups,
            index,
        ) == ResolvedView::Block(groups[original as int].response->0),
{
    reveal_with_fuel(resolved_within, 3);
}

/// A link as a header writes it, a target in angle brackets and a relation in quotation marks, is
/// read as that target with that relation.
pub proof fn a_link_is_read_as_it_is_written(target: Seq<char>, relation: Seq<char>)
    requires
        !target.contains('>'),
        relation.len() > 0,
        forall|index: int|
            0 <= index < relation.len() ==> !is_ascii_white(#[trigger] relation[index])
                && relation[index] != '"' && relation[index] != ';' && relation[index] != '=',
    ensures
        link_in(seq!['<'] + target + ">; rel=\""@ + relation + seq!['"']) == Some(
            (target, seq![relation]),
        ),
{
    reveal_strlit(">; rel=\"");
    reveal_strlit(">");
    reveal_strlit("=");
    reveal_strlit("rel");
    let part = seq!['<'] + target + ">; rel=\""@ + relation + seq!['"'];
    assert(">; rel=\""@ =~= seq!['>', ';', ' ', 'r', 'e', 'l', '=', '"']);
    assert(part[0] == '<');
    assert(part.last() == '"');
    reveal_with_fuel(text::trimmed, 2);
    reveal_with_fuel(text::trimmed_start, 2);
    assert(text::trimmed(part) == part);
    assert(">"@ =~= seq!['>']);
    let front = seq!['<'] + target;
    let rest = seq![';', ' ', 'r', 'e', 'l', '=', '"'] + relation + seq!['"'];
    assert(!front.contains('>')) by {
        if front.contains('>') {
            let at = front.index_of('>');
            assert(target[at - 1] == '>');
        }
    }
    assert(part =~= front + seq!['>'] + rest);
    text::lemma_split_at_first(front, '>', rest);
    text::lemma_found_from(part, ">"@, 0);
    let end = text::found(part, ">"@)->0;
    assert(part.take(end) == front);
    assert(end == front.len());
    assert(part.subrange(1, end) =~= target);
    assert(part.skip(end + 1) =~= rest);
    let parameter = seq![' ', 'r', 'e', 'l', '=', '"'] + relation + seq!['"'];
    assert(rest =~= seq![';'] + parameter);
    assert(!parameter.contains(';')) by {
        if parameter.contains(';') {
            let at = parameter.index_of(';');
            if 6 <= at < 6 + relation.len() {
                assert(relation[at - 6] == ';');
            }
        }
    }
    lemma_split_in_two(parameter, ';');
    let parameters = text::split(rest, ';');
    assert(parameters =~= seq![Seq::empty(), parameter]);
    let setting = seq!['r', 'e', 'l', '=', '"'] + relation + seq!['"'];
    assert(parameter.drop_first() =~= setting);
    assert(text::trimmed(parameter) == setting) by {
        assert(parameter.last() == '"');
        assert(parameter[0] == ' ');
        assert(setting[0] == 'r');
    }
    let value = seq!['"'] + relation + seq!['"'];
    assert("="@ =~= seq!['=']);
    assert("rel"@ =~= seq!['r', 'e', 'l']);
    assert(setting =~= "rel"@ + seq!['='] + value);
    assert(!"rel"@.contains('='));
    text::lemma_split_at_first("rel"@, '=', value);
    assert(text::trimmed(Seq::<char>::empty()) == Seq::<char>::empty());
    assert(!Seq::<char>::empty().contains('='));
    text::lemma_no_split(Seq::empty(), '=');
    assert(parameters[0] == Seq::<char>::empty());
    assert(parameters.drop_first() =~= seq![parameter]);
    lemma_unquoted(relation);
    lemma_one_word(relation);
    reveal_with_fuel(relations_among, 3);
    assert(seq![parameter][0] == parameter);
    assert(relations_among(seq![parameter]) == seq![relation]);
}

/// A text behind a separator is split in two.
proof fn lemma_split_in_two(text: Seq<char>, separator: char)
    requires
        !text.contains(separator),
    ensures
        text::split(seq![separator] + text, separator) == seq![Seq::empty(), text],
    decreases text.len(),
{
    let whole = seq![separator] + text;
    if text.len() == 0 {
        assert(whole.drop_last() =~= Seq::empty());
        assert(text =~= Seq::empty());
        assert(text::split(whole.drop_last(), separator) == seq![Seq::<char>::empty()]);
        assert(whole.last() == separator);
        assert(text::split(whole, separator) =~= seq![Seq::<char>::empty(), text]);
    } else {
        let before = text.drop_last();
        assert(!before.contains(separator)) by {
            if before.contains(separator) {
                assert(text[before.index_of(separator)] == separator);
            }
        }
        lemma_split_in_two(before, separator);
        assert(whole.drop_last() =~= seq![separator] + before);
        assert(whole.last() == text.last());
        assert(text.last() != separator) by {
            assert(text[text.len() - 1] == text.last());
        }
        assert(before.push(text.last()) =~= text);
        assert(text::split(whole, separator) =~= seq![Seq::<char>::empty(), text]);
    }
}

/// A text without quotation marks is what stands between them.
proof fn lemma_unquoted(inner: Seq<char>)
    requires
        inner.len() > 0,
        forall|index: int| 0 <= index < inner.len() ==> #[trigger] inner[index] != '"',
    ensures
        unquoted(seq!['"'] + inner + seq!['"']) == inner,
{
    let whole = seq!['"'] + inner + seq!['"'];
    let rest = inner + seq!['"'];
    reveal_with_fuel(trimmed_start_of, 3);
    reveal_with_fuel(text::trimmed_end, 3);
    assert(whole.drop_first() =~= rest);
    assert(rest[0] == inner[0]);
    assert(trimmed_start_of(whole, '"') == rest);
    assert(rest.drop_last() =~= inner);
    assert(inner[inner.len() - 1] == inner.last());
}

/// A text without white space is one word.
proof fn lemma_one_word(word: Seq<char>)
    requires
        word.len() > 0,
        forall|index: int| 0 <= index < word.len() ==> !is_ascii_white(#[trigger] word[index]),
    ensures
        words(word) == seq![word],
{
    lemma_open_word(word);
    assert(Seq::<Seq<char>>::empty().push(word) =~= seq![word]);
}

proof fn lemma_open_word(word: Seq<char>)
    requires
        forall|index: int| 0 <= index < word.len() ==> !is_ascii_white(#[trigger] word[index]),
    ensures
        words_and_rest(word) == (Seq::<Seq<char>>::empty(), word),
    decreases word.len(),
{
    if word.len() > 0 {
        let before = word.drop_last();
        assert forall|index: int| 0 <= index < before.len() implies !is_ascii_white(
            #[trigger] before[index],
        ) by {
            assert(before[index] == word[index]);
        }
        lemma_open_word(before);
        assert(word[word.len() - 1] == word.last());
        assert(before.push(word.last()) =~= word);
    } else {
        assert(word =~= Seq::empty());
    }
}

/// The links of a header are those of its parts that have a target, in order.
pub proof fn every_link_is_read(parts: Seq<Seq<char>>)
    ensures
        links_in(parts) == parts.filter(|part: Seq<char>| link_in(part) is Some).map_values(
            |part: Seq<char>| link_in(part)->0,
        ),
    decreases parts.len(),
{
    reveal(Seq::filter);
    if parts.len() > 0 {
        every_link_is_read(parts.drop_last());
    }
}

/// A page is linked to exactly where a link with the relation identifies it.
pub proof fn a_page_is_linked_to_by_a_link_of_the_relation(
    links: Seq<(Seq<char>, Seq<Seq<char>>)>,
    relation: Seq<char>,
    current: Seq<char>,
    expected_page: nat,
)
    ensures
        linked_match(links, relation, current, expected_page) is Different <==> forall|index: int|
            0 <= index < links.len() && (#[trigger] links[index]).1.contains(relation)
                ==> page_match(links[index].0, current, expected_page) is Different,
        linked_match(links, relation, current, expected_page) is Exact ==> exists|index: int|
            0 <= index < links.len() && (#[trigger] links[index]).1.contains(relation)
                && page_match(links[index].0, current, expected_page) is Exact,
    decreases links.len(),
{
    if links.len() > 0 {
        let rest = links.drop_first();
        a_page_is_linked_to_by_a_link_of_the_relation(rest, relation, current, expected_page);
        let matched = links[0].1.contains(relation) && !(page_match(
            links[0].0,
            current,
            expected_page,
        ) is Different);
        if !matched {
            if linked_match(rest, relation, current, expected_page) is Different {
                assert forall|index: int|
                    0 <= index < links.len() && (#[trigger] links[index]).1.contains(
                        relation,
                    ) implies page_match(links[index].0, current, expected_page) is Different by {
                    if index > 0 {
                        assert(rest[index - 1] == links[index]);
                    }
                }
            } else {
                let index = choose|index: int|
                    0 <= index < rest.len() && (#[trigger] rest[index]).1.contains(relation) && !(
                    page_match(rest[index].0, current, expected_page) is Different);
                assert(links[index + 1] == rest[index]);
                if linked_match(rest, relation, current, expected_page) is Exact {
                    let at = choose|at: int|
                        0 <= at < rest.len() && (#[trigger] rest[at]).1.contains(relation)
                            && page_match(rest[at].0, current, expected_page) is Exact;
                    assert(links[at + 1] == rest[at]);
                }
            }
        }
    }
}

/// A URL identifies a page exactly where it is of the same resource, asks for that page, and gives
/// every other name the same value; one that says besides that it is attested to does so too.
pub proof fn a_page_is_identified_by_its_number(
    candidate: Seq<char>,
    current: Seq<char>,
    expected_page: nat,
)
    requires
        web::parsed_address(candidate) is Ok,
        web::parsed_address(current) is Ok,
    ensures
        ({
            let other = web::parsed_address(candidate)->Ok_0;
            let this = web::parsed_address(current)->Ok_0;
            let matched = page_match(candidate, current, expected_page);
            let numbered = query::looked_up(other.pairs, "page"@) == Some(
                text::decimal(expected_page),
            );
            let alike = forall|name: Seq<char>|
                name != "page"@ ==> #[trigger] query::looked_up(other.pairs, name)
                    == query::looked_up(this.pairs, name);
            &&& matched is Exact <==> other.scheme == this.scheme && other.host == this.host
                && other.port == this.port && other.path == this.path && numbered && alike
            &&& matched is Attested ==> numbered && query::looked_up(other.pairs, "attest"@)
                == Some("true"@) && query::looked_up(this.pairs, "attest"@) is None && other.path
                == this.path && other.host == this.host
        }),
{
    let other = web::parsed_address(candidate)->Ok_0;
    let this = web::parsed_address(current)->Ok_0;
    let page = ("page"@, text::decimal(expected_page));
    let expected = this.pairs.push(page);
    assert(expected.drop_last() =~= this.pairs);
    assert forall|name: Seq<char>| #[trigger]
        query::looked_up(expected, name) == (if name == "page"@ {
            Some(text::decimal(expected_page))
        } else {
            query::looked_up(this.pairs, name)
        }) by {}
    reveal_strlit("page");
    reveal_strlit("attest");
    assert("page"@.len() == 4 && "attest"@.len() == 6);
    assert(query::looked_up(expected, "page"@) == Some(text::decimal(expected_page)));
    assert(query::looked_up(expected, "attest"@) == query::looked_up(this.pairs, "attest"@));
    if same_resource(other, this) && (forall|name: Seq<char>|
        name != "page"@ ==> #[trigger] query::looked_up(other.pairs, name) == query::looked_up(
            this.pairs,
            name,
        )) && query::looked_up(other.pairs, "page"@) == Some(text::decimal(expected_page)) {
        assert(agree_but_on(other.pairs, expected, None));
    }
    if agree_but_on(other.pairs, expected, None) {
        assert(query::looked_up(other.pairs, "page"@) == query::looked_up(expected, "page"@));
        assert forall|name: Seq<char>| name != "page"@ implies #[trigger] query::looked_up(
            other.pairs,
            name,
        ) == query::looked_up(this.pairs, name) by {
            assert(query::looked_up(other.pairs, name) == query::looked_up(expected, name));
        }
    }
    if agree_but_on(other.pairs, expected, Some("attest"@)) {
        assert(query::looked_up(other.pairs, "page"@) == query::looked_up(expected, "page"@));
    }
}

/// A collection that was probed with success has to be paged, and is summed up with its items;
/// another must not be.
pub proof fn exposed_collections_have_to_be_paged(
    report: AnalysisView,
    checked: Set<usize>,
    groups: Seq<GroupView>,
    probe: ProbeView,
    captures: Seq<PageCapture>,
)
    ensures
        ({
            let after = after_probe(report, checked, groups, probe, captures).0;
            let exposed = probe.status matches Some(status) && (200 <= status < 300 || status
                == 304);
            &&& report.findings.is_prefix_of(after.findings)
            &&& exposed != (captures.len() > 0) ==> after.findings.len() == report.findings.len()
                + 1 && after.findings.last().severity == Severity::Error
            &&& !exposed ==> after.pagination == report.pagination
            &&& !exposed && captures.len() == 0 ==> after == report
            &&& exposed ==> after.pagination.len() == report.pagination.len() + 1
                && after.pagination.last().endpoint == probe.url && after.pagination.last().items
                == probe.items
            &&& exposed && captures.len() > 0 ==> after.findings == report.findings
                + series_findings(
                report.findings,
                checked,
                groups,
                probe.collection.name(),
                probe.url,
                captures,
            ) && after.pagination.last().pages == greatest_total(
                groups,
                first_pass(groups, captures),
            )
        }),
{
    let after = after_probe(report, checked, groups, probe, captures).0;
    assert(after.findings.subrange(0, report.findings.len() as int) =~= report.findings);
    if !probe.succeeded() && captures.len() == 0 {
        assert(after.findings =~= report.findings);
        assert(after =~= report);
    }
}

proof fn lemma_probes_only_add(
    report: AnalysisView,
    checked: Set<usize>,
    groups: Seq<GroupView>,
    probes: Seq<ProbeView>,
    pages: Seq<(Seq<char>, PageCapture)>,
    count: nat,
    index: nat,
)
    requires
        index <= count,
    ensures
        after_probes(report, checked, groups, probes, pages, index).0.findings.len()
            <= after_probes(report, checked, groups, probes, pages, count).0.findings.len(),
        report.findings.len() <= after_probes(
            report,
            checked,
            groups,
            probes,
            pages,
            index,
        ).0.findings.len(),
    decreases count,
{
    if count > 0 {
        let before = (count - 1) as nat;
        let (earlier, looked_at) = after_probes(report, checked, groups, probes, pages, before);
        let probe = probes[count - 1];
        let name = probe.collection.name();
        let captures = if probed_names(probes.take(count - 1)).contains(name) {
            Seq::empty()
        } else {
            pages_named(pages, name)
        };
        exposed_collections_have_to_be_paged(earlier, looked_at, groups, probe, captures);
        if index < count {
            lemma_probes_only_add(report, checked, groups, probes, pages, before, index);
        } else {
            lemma_probes_only_add(report, checked, groups, probes, pages, before, before);
        }
    }
}

/// An archive of which nothing is found has, for every collection that was probed with success, a
/// first pass with as many delivered pages as any of them advertises.
pub proof fn a_clean_archive_has_every_page(
    report: AnalysisView,
    checked: Set<usize>,
    groups: Seq<GroupView>,
    probes: Seq<ProbeView>,
    index: int,
)
    requires
        after_pagination(report, checked, groups, probes).0.findings.len() == 0,
        0 <= index < probes.len(),
        probes[index].status is Some,
        200 <= probes[index].status->0 < 300 || probes[index].status->0 == 304,
        !probed_names(probes.take(index)).contains(probes[index].collection.name()),
    ensures
        ({
            let pages = collected_pages(groups, probes, groups.len()).pages;
            let captures = pages_named(pages, probes[index].collection.name());
            let first = first_pass(groups, captures);
            &&& captures.len() > 0
            &&& forall|at: int|
                0 <= at < first.len() ==> (advertised_by(
                    groups,
                    #[trigger] first[at],
                ) matches Some(total) ==> total <= first.len())
        }),
{
    let collected = collected_pages(groups, probes, groups.len());
    let start = report.with(
        collected.findings + (order_findings(collected.encountered, probes)
            + interruption_findings(collected.encountered)),
    );
    let pages = collected.pages;
    let next = (index + 1) as nat;
    lemma_probes_only_add(start, checked, groups, probes, pages, probes.len(), next);
    lemma_probes_only_add(start, checked, groups, probes, pages, probes.len(), index as nat);
    let (earlier, looked_at) = after_probes(start, checked, groups, probes, pages, index as nat);
    let probe = probes[index];
    let captures = pages_named(pages, probe.collection.name());
    assert(after_probes(start, checked, groups, probes, pages, next) == after_probe(
        earlier,
        looked_at,
        groups,
        probe,
        captures,
    ));
    exposed_collections_have_to_be_paged(earlier, looked_at, groups, probe, captures);
    a_clean_series_has_every_page(
        earlier.findings,
        looked_at,
        groups,
        probe.collection.name(),
        probe.url,
        captures,
    );
}

/// An initial capture that is there is counted once, as a root, a supported collection or a custom
/// one by its place; a collection's is noted as a probe with its response's status and items.
pub proof fn initial_captures_are_counted_and_noted(
    state: InitialView,
    groups: Seq<GroupView>,
    site: SiteView,
    position: nat,
    url: Seq<char>,
    collection: Option<CollectionView>,
)
    requires
        state.report.roots < usize::MAX,
        state.report.known_probes < usize::MAX,
        state.report.custom_probes < usize::MAX,
    ensures
        ({
            let after = after_initial(state, groups, site, position, url, collection);
            let found = candidates(groups, url);
            let there = found.len() > 0;
            let head = if there {
                head_of(groups[found[0] as int])
            } else {
                None
            };
            &&& state.report.findings.is_prefix_of(after.report.findings)
            &&& !there ==> after.report.findings.len() > state.report.findings.len()
            &&& after.report.roots + after.report.known_probes + after.report.custom_probes
                == state.report.roots + state.report.known_probes + state.report.custom_probes + (
            if there {
                1int
            } else {
                0int
            })
            &&& there ==> (after.report.roots > state.report.roots <==> position < 8)
            &&& there ==> (after.report.custom_probes > state.report.custom_probes <==> position
                >= 16)
            &&& there ==> after.previous == Some(found[0]) && after.checked.contains(found[0])
            &&& collection is None ==> after.probes == state.probes
            &&& collection is Some ==> after.probes.len() == state.probes.len() + 1
                && after.probes.drop_last() == state.probes && after.probes.last().collection
                == collection->0 && after.probes.last().url == url
            &&& collection is Some ==> (head is Some <==> after.probes.last().status is Some)
            &&& collection is Some && head is Some ==> after.probes.last().status == Some(
                head->0.status,
            ) && after.probes.last().items == evidence::header_count(head->0.total)
        }),
{
    let after = after_initial(state, groups, site, position, url, collection);
    assert(after.report.findings.subrange(0, state.report.findings.len() as int)
        =~= state.report.findings);
    if collection is Some {
        assert(after.probes.drop_last() =~= state.probes);
    }
}

/// An archive of which nothing is found has every initial capture that is expected of it, once.
pub proof fn a_clean_archive_has_every_initial_capture(
    report: AnalysisView,
    groups: Seq<GroupView>,
    site: SiteView,
    expected: Seq<(Seq<char>, Option<CollectionView>)>,
    count: nat,
    index: int,
)
    requires
        0 <= index < count <= expected.len(),
        after_initials(report, groups, site, expected, count).report.findings.len() == 0,
    ensures
        candidates(groups, expected[index].0).len() == 1,
    decreases count,
{
    let before = (count - 1) as nat;
    let state = after_initials(report, groups, site, expected, before);
    let (url, collection) = expected[count - 1];
    let after = after_initial(state, groups, site, before, url, collection);
    assert(after.report.findings.len() >= state.report.findings.len() + presence_findings(
        state,
        groups,
        site,
        url,
        collection,
    ).len());
    if index < before {
        a_clean_archive_has_every_initial_capture(report, groups, site, expected, before, index);
    } else {
        an_initial_capture_is_there_once(state, groups, site, url, collection);
    }
}

/// The root resources and every supported endpoint are among the initial captures, and so is every
/// custom collection.
pub proof fn every_resource_is_captured_initially(
    site: SiteView,
    customs: Seq<CollectionView>,
    root: int,
    endpoint: Endpoint,
    custom: int,
)
    requires
        0 <= root < 8,
        0 <= custom < customs.len(),
    ensures
        ({
            let expected = initial_captures(site, customs);
            &&& expected.len() == 16 + customs.len()
            &&& expected[root] == (site.url(ROOT_ENDPOINTS@[root]@), None::<CollectionView>)
            &&& expected.contains(
                (
                    site.endpoint_url(endpoint.name_text()),
                    Some(CollectionView::Known(endpoint)),
                ),
            )
            &&& expected[16 + custom] == (
                site.endpoint_url(customs[custom].name()),
                Some(customs[custom]),
            )
        }),
{
    let expected = initial_captures(site, customs);
    endpoint::lemma_all_holds(endpoint);
    let at = choose|at: int| 0 <= at < 8 && Endpoint::ALL@[at] == endpoint;
    assert(expected[8 + at] == (
        site.endpoint_url(endpoint.name_text()),
        Some(CollectionView::Known(endpoint)),
    ));
}

/// The cutoff of an archive's pages is the first that one of them carries, and nothing is found of
/// their cutoffs exactly where they all carry that one.
pub proof fn pages_carry_one_cutoff(groups: Seq<GroupView>, probes: Seq<ProbeView>, count: nat)
    requires
        count <= groups.len(),
    ensures
        ({
            let collected = collected_pages(groups, probes, count);
            &&& collected.cutoff is None <==> forall|index: int|
                0 <= index < count && paged_collection(
                    (#[trigger] groups[index]).url,
                    probes,
                ) is Some ==> queried(groups[index].url).2 is None
            &&& collected.findings.len() == 0 <==> forall|index: int|
                0 <= index < count && paged_collection(
                    (#[trigger] groups[index]).url,
                    probes,
                ) is Some && queried(groups[index].url).2 is Some ==> queried(groups[index].url).2
                    == collected.cutoff
        }),
    decreases count,
{
    if count > 0 {
        let before = (count - 1) as nat;
        pages_carry_one_cutoff(groups, probes, before);
        let earlier = collected_pages(groups, probes, before);
        let collected = collected_pages(groups, probes, count);
        let group = groups[before as int];
        if paged_collection(group.url, probes) is Some {
            if earlier.cutoff is None {
                assert(collected.findings =~= earlier.findings);
            }
            if collected.findings.len() == 0 {
                assert(earlier.findings.len() == 0);
            }
        }
    }
}

/// The site of an archive is that of its first request from which one can be made out.
pub proof fn an_archive_is_of_its_first_site(groups: Seq<GroupView>, count: nat, index: int)
    requires
        0 <= index < count <= groups.len(),
        web::is_settable(groups[index].url),
        archive::inferred_site(groups[index].url) is Some,
        forall|earlier: int|
            0 <= earlier < index ==> !web::is_settable((#[trigger] groups[earlier]).url)
                || archive::inferred_site(groups[earlier].url) is None,
    ensures
        archive::inferred_site(groups[index].url)->0 matches Ok(site) ==> archived_site(
            groups,
            count,
        ) == Ok::<SiteView, ErrorView>(site),
        archive::inferred_site(groups[index].url)->0 is Err ==> archived_site(groups, count) is Err,
    decreases count,
{
    let before = (count - 1) as nat;
    if index < before {
        an_archive_is_of_its_first_site(groups, before, index);
        if archive::inferred_site(groups[index].url)->0 is Err {
            lemma_site_error_stays(groups, before, index);
        }
    } else {
        lemma_no_site_yet(groups, before);
    }
}

proof fn lemma_no_site_yet(groups: Seq<GroupView>, count: nat)
    requires
        count <= groups.len(),
        forall|earlier: int|
            0 <= earlier < count ==> !web::is_settable((#[trigger] groups[earlier]).url)
                || archive::inferred_site(groups[earlier].url) is None,
    ensures
        archived_site(groups, count) == Err::<SiteView, ErrorView>(ErrorView::NoWordPressRequests),
    decreases count,
{
    if count > 0 {
        lemma_no_site_yet(groups, (count - 1) as nat);
        assert(!web::is_settable(groups[count - 1].url) || archive::inferred_site(
            groups[count - 1].url,
        ) is None);
    }
}

proof fn lemma_site_error_stays(groups: Seq<GroupView>, count: nat, index: int)
    requires
        0 <= index < count <= groups.len(),
        web::is_settable(groups[index].url),
        archive::inferred_site(groups[index].url) is Some,
        archive::inferred_site(groups[index].url)->0 is Err,
        forall|earlier: int|
            0 <= earlier < index ==> !web::is_settable((#[trigger] groups[earlier]).url)
                || archive::inferred_site(groups[earlier].url) is None,
    ensures
        archived_site(groups, count) matches Err(ErrorView::Site { .. }),
    decreases count,
{
    let before = (count - 1) as nat;
    if index < before {
        lemma_site_error_stays(groups, before, index);
    } else {
        lemma_no_site_yet(groups, before);
    }
}

/// A capture that probes a custom collection which no registry advertises is an error, each of them.
pub proof fn every_unadvertised_probe_is_an_error(
    groups: Seq<GroupView>,
    prefix: Seq<char>,
    custom: Seq<CollectionView>,
    count: nat,
)
    requires
        count <= groups.len(),
    ensures
        unadvertised_findings(groups, prefix, custom, count).len() == groups.take(
            count as int,
        ).filter(|group: GroupView| unadvertised(group.url, prefix, custom) is Some).len(),
        forall|index: int|
            0 <= index < unadvertised_findings(groups, prefix, custom, count).len() ==> (
            #[trigger] unadvertised_findings(groups, prefix, custom, count)[index]).severity
                == Severity::Error,
    decreases count,
{
    reveal(Seq::filter);
    if count > 0 {
        let before = (count - 1) as nat;
        every_unadvertised_probe_is_an_error(groups, prefix, custom, before);
        assert(groups.take(count as int).drop_last() =~= groups.take(before as int));
        assert(groups.take(count as int).last() == groups[before as int]);
    } else {
        assert(groups.take(0) =~= Seq::empty());
    }
}

/// A bare request below the collections' path is of an unadvertised custom collection exactly where
/// its name is a single segment that no supported endpoint, root resource or registry has.
pub proof fn unadvertised_names_are_unknown(
    request: Seq<char>,
    prefix: Seq<char>,
    custom: Seq<CollectionView>,
    name: Seq<char>,
)
    requires
        web::parsed_address(request) is Ok,
        web::parsed_address(request)->Ok_0.path == prefix + name,
    ensures
        unadvertised(request, prefix, custom) == (if web::parsed_address(
            request,
        )->Ok_0.query is None && name.len() > 0 && !text::occurs(name, "/"@) && (forall|
            endpoint: Endpoint,
        |
            #[trigger] endpoint.name_text() != name) && !names_root(name) && !endpoint::names_of(
            custom,
        ).contains(name) {
            Some(name)
        } else {
            None
        }),
{
    let path = prefix + name;
    assert(path.subrange(0, prefix.len() as int) =~= prefix);
    assert(path.skip(prefix.len() as int) =~= name);
}

/// A registry advertises the custom collections of its first capture that is no challenge, where
/// that is a success that can be read; one that cannot be read is an error, and anything else says
/// nothing.
pub proof fn a_registry_is_read_from_its_first_capture(
    groups: Seq<GroupView>,
    site: SiteView,
    custom: Seq<CollectionView>,
    registry: Registry,
)
    ensures
        ({
            let captures = candidates(groups, site.root.href + registry.path_text());
            let (after, findings) = after_registry(groups, site, custom, registry);
            let group = groups[captures[0] as int];
            let answered = captures.len() > 0 && head_of(group) is Some && 200 <= head_of(
                group,
            )->0.status < 300;
            let entity = group.response->0.message.entity;
            let readable = entity is Ok && entity->Ok_0.registry is Ok;
            &&& !answered ==> after == custom && findings.len() == 0
            &&& answered && readable ==> findings.len() == 0 && after == archive::with_customs(
                custom,
                endpoint::custom_names(entity->Ok_0.registry->Ok_0),
                registry,
            )
            &&& answered && !readable ==> after == custom && findings.len() == 1
                && findings[0].severity == Severity::Error
        }),
{
}

/// A record's problem is an error about that record, and a record without one is passed over.
pub proof fn problems_are_about_their_record(rules: RulesView, index: usize, record: RecordView)
    ensures
        rules.checked(index, record).1 is Some <==> rules.evidence.observed(record).1 is Some,
        rules.checked(index, record).1 matches Some(finding) ==> finding.record == Some(index)
            && finding.severity == Severity::Error && !finding.core,
        rules.checked(index, record).0.evidence == rules.evidence.observed(record).0,
{
}

/// A report is made unless the archive could not be analysed. It keeps every finding, and counts
/// the records that no core rule failed.
pub proof fn a_report_counts_the_sound_records(
    findings: Seq<FindingView>,
    records: usize,
    rules: RulesView,
)
    requires
        are_about(findings, records),
    ensures
        reported(findings, records, rules) is Err <==> rules.error is Some,
        reported(findings, records, rules) matches Ok(report) ==> {
            &&& report.findings == findings
            &&& report.core_lints_passed + failed_records(findings).len() == records
            &&& report.pagination == rules.analysis.pagination
            &&& report.roots == rules.analysis.roots
            &&& report.known_probes == rules.analysis.known_probes
            &&& report.custom_probes == rules.analysis.custom_probes
        },
{
    lemma_failed_records(findings, records);
    lemma_bounded_set(failed_records(findings), records as nat);
}

/// Collections are paged in the order of their probes exactly where those encountered are, in that
/// order, the successfully probed ones among them.
pub proof fn collections_are_paged_in_probe_order(
    encountered: Seq<Seq<char>>,
    probes: Seq<ProbeView>,
)
    ensures
        order_findings(encountered, probes).len() == 0 <==> encountered == successful_names(
            probes,
        ).filter(|name: Seq<char>| encountered.contains(name)),
        forall|index: int|
            0 <= index < order_findings(encountered, probes).len() ==> (#[trigger] order_findings(
                encountered,
                probes,
            )[index]).severity == Severity::Error,
{
    names_among_others_are_shared(successful_names(probes), encountered);
}

/// A second pass is an error of its own exactly where the first one advertises at most one page;
/// otherwise it is looked at like the first.
pub proof fn a_second_pass_takes_several_pages(
    findings: Seq<FindingView>,
    checked: Set<usize>,
    groups: Seq<GroupView>,
    name: Seq<char>,
    url: Seq<char>,
    captures: Seq<PageCapture>,
)
    ensures
        ({
            let first = first_pass(groups, captures);
            let second = second_pass(groups, captures);
            let total = greatest_total(groups, first);
            let once = pass_findings(
                findings,
                checked,
                groups,
                first,
                url,
                total,
                name,
                "pagination"@,
            );
            let found = series_findings(findings, checked, groups, name, url, captures);
            let several = total is Some && total->0 >= 2;
            &&& once.is_prefix_of(found)
            &&& second.len() == 0 ==> found == once
            &&& second.len() > 0 && !several ==> found.len() == once.len() + 1
                && found.last().severity == Severity::Error && found.last().rule
                == "unnecessary_second_pass"@
            &&& second.len() > 0 && several && second.len() == total->0 ==> found.len()
                == once.len() + pages_findings(
                findings + once,
                checked_after(checked, first),
                groups,
                second,
                groups[first.last().group as int].url,
                name,
                "legacy validation"@,
            ).len()
        }),
{
    let first = first_pass(groups, captures);
    let second = second_pass(groups, captures);
    let total = greatest_total(groups, first);
    let once = pass_findings(
        findings,
        checked,
        groups,
        first,
        url,
        total,
        name,
        "pagination"@,
    );
    let found = series_findings(findings, checked, groups, name, url, captures);
    assert(found.subrange(0, once.len() as int) =~= once);
    a_pass_has_its_advertised_pages(
        findings + once,
        checked_after(checked, first),
        groups,
        second,
        groups[first.last().group as int].url,
        total,
        name,
        "legacy validation"@,
    );
}

proof fn lemma_clean_pages_stand_in_place(
    findings: Seq<FindingView>,
    checked: Set<usize>,
    groups: Seq<GroupView>,
    captures: Seq<PageCapture>,
    first_via: Seq<char>,
    name: Seq<char>,
    pass: Seq<char>,
    index: int,
)
    requires
        pages_findings(findings, checked, groups, captures, first_via, name, pass).len() == 0,
        0 <= index < captures.len(),
    ensures
        position_findings(
            groups[captures[index].group as int],
            captures[index],
            (index + 1) as nat,
            expected_via(groups, captures, index, first_via),
            name,
            pass,
        ).len() == 0,
    decreases captures.len(),
{
    if index < captures.len() - 1 {
        let before = captures.drop_last();
        lemma_clean_pages_stand_in_place(
            findings,
            checked,
            groups,
            before,
            first_via,
            name,
            pass,
            index,
        );
        assert(before[index] == captures[index]);
        assert(expected_via(groups, before, index, first_via) == expected_via(
            groups,
            captures,
            index,
            first_via,
        ));
    } else {
        assert(captures.last() == captures[index]);
    }
}

/// The pages of a pass of which nothing is found are numbered from one on, and each is led to by the
/// one before it, the first by the URL that the pass begins from.
pub proof fn the_pages_of_a_clean_pass_follow_each_other(
    findings: Seq<FindingView>,
    checked: Set<usize>,
    groups: Seq<GroupView>,
    captures: Seq<PageCapture>,
    first_via: Seq<char>,
    total: Option<usize>,
    name: Seq<char>,
    pass: Seq<char>,
    index: int,
)
    requires
        pass_findings(
            findings,
            checked,
            groups,
            captures,
            first_via,
            total,
            name,
            pass,
        ).len() == 0,
        0 <= index < captures.len(),
    ensures
        ({
            let group = groups[captures[index].group as int];
            &&& captures[index].page matches Some(page) && page == index + 1
            &&& captures[index].valid_query
            &&& group.metadata.len() > 0
            &&& index == 0 ==> group.metadata[0].via == Some(first_via)
            &&& index > 0 ==> group.metadata[0].via == Some(
                groups[captures[index - 1].group as int].url,
            )
        }),
{
    lemma_clean_pages_stand_in_place(
        findings,
        checked,
        groups,
        captures,
        first_via,
        name,
        pass,
        index,
    );
    a_page_stands_in_its_place(
        groups[captures[index].group as int],
        captures[index],
        (index + 1) as nat,
        expected_via(groups, captures, index, first_via),
        name,
        pass,
    );
}

/// The second pass of a series of which nothing is found begins from the last page of the first, and
/// the first from the collection's own URL.
pub proof fn the_passes_of_a_clean_series_follow_each_other(
    findings: Seq<FindingView>,
    checked: Set<usize>,
    groups: Seq<GroupView>,
    name: Seq<char>,
    url: Seq<char>,
    captures: Seq<PageCapture>,
)
    requires
        series_findings(findings, checked, groups, name, url, captures).len() == 0,
    ensures
        ({
            let first = first_pass(groups, captures);
            let second = second_pass(groups, captures);
            &&& first.len() > 0 ==> groups[first[0].group as int].metadata.len() > 0
                && groups[first[0].group as int].metadata[0].via == Some(url)
            &&& second.len() > 0 ==> groups[second[0].group as int].metadata.len() > 0
                && groups[second[0].group as int].metadata[0].via == Some(
                groups[first.last().group as int].url,
            )
        }),
{
    let first = first_pass(groups, captures);
    let second = second_pass(groups, captures);
    let total = greatest_total(groups, first);
    let once = pass_findings(
        findings,
        checked,
        groups,
        first,
        url,
        total,
        name,
        "pagination"@,
    );
    if first.len() > 0 {
        the_pages_of_a_clean_pass_follow_each_other(
            findings,
            checked,
            groups,
            first,
            url,
            total,
            name,
            "pagination"@,
            0,
        );
    }
    if second.len() > 0 {
        the_pages_of_a_clean_pass_follow_each_other(
            findings + once,
            checked_after(checked, first),
            groups,
            second,
            groups[first.last().group as int].url,
            total,
            name,
            "legacy validation"@,
            0,
        );
    }
}

} // verus!
