//! Recovering the continuation point of a collection archive from its records.
//!
//! [`inspect_archive`] links each request, response or revisit, and metadata record into a
//! capture, then replays complete captures through [`ArchiveDriver`]. This uses the same endpoint
//! discovery and checkpoint transitions as a live archive. A broken capture is reported but does
//! not prevent the last durable checkpoint from being returned.

use crate::archive;
use crate::archive::{
    ArchiveDriver, Checkpoint, CheckpointView, DriverView, ProbeResult, ProbeView, Resumption,
    ResumptionView, Site, SiteError, SiteErrorView, SiteView,
};
use crate::clock;
use crate::clock::{Moment, Timestamp};
use crate::endpoint;
use crate::endpoint::{Collection, CollectionView, Endpoint, Registry, ROOT_ENDPOINTS};
use crate::evidence;
use crate::evidence::{
    CaptureGroup, Evidence, EvidenceView, GroupView, ProblemView, Record, RecordView,
};
use crate::lint;
use crate::options;
use crate::options::{PerPageOptions, PerPageView};
use crate::session::{Capture, CaptureView, PayloadView};
use crate::text;
use crate::web;
use vstd::prelude::*;
use vstd::string::StringExecFns;

verus! {

/// What is wrong with a capture that is not whole.
pub open spec fn group_problem(group: GroupView) -> Option<Seq<char>> {
    let missing_response = group.response is None;
    let missing_metadata = group.metadata.len() == 0;
    if missing_response || missing_metadata {
        Some(
            "capture of "@ + group.url + " is missing "@ + (if missing_response
                && missing_metadata {
                "response or revisit and metadata"@
            } else if missing_response {
                "response or revisit"@
            } else {
                "metadata"@
            }),
        )
    } else if group.response->0.truncation is Some {
        Some("capture of "@ + group.url + " has a truncated response"@)
    } else {
        None
    }
}

impl CaptureGroup {
    /// What is wrong with the capture, if it is not whole.
    pub fn problem(&self) -> (problem: Option<String>)
        ensures
            problem.deep_view() == group_problem(self.deep_view()),
    {
        let missing_metadata = self.metadata.len() == 0;
        match &self.response {
            None => {
                let mut problem = text::joined("capture of ", self.url.as_str());
                problem.append(" is missing ");
                problem.append(
                    if missing_metadata {
                        "response or revisit and metadata"
                    } else {
                        "response or revisit"
                    },
                );
                Some(problem)
            },
            Some(response) => {
                if missing_metadata {
                    let mut problem = text::joined("capture of ", self.url.as_str());
                    problem.append(" is missing ");
                    problem.append("metadata");
                    Some(problem)
                } else if response.truncation.is_some() {
                    let mut problem = text::joined("capture of ", self.url.as_str());
                    problem.append(" has a truncated response");
                    Some(problem)
                } else {
                    None
                }
            },
        }
    }
}

/// The problems of some captures, in order.
pub open spec fn group_problems(groups: Seq<GroupView>) -> Seq<Seq<char>>
    decreases groups.len(),
{
    if groups.len() == 0 {
        Seq::empty()
    } else {
        match group_problem(groups.last()) {
            Some(problem) => group_problems(groups.drop_last()).push(problem),
            None => group_problems(groups.drop_last()),
        }
    }
}

/// The words for some relationship problems, in order.
pub open spec fn problem_messages(problems: Seq<ProblemView>) -> Seq<Seq<char>> {
    problems.map_values(|problem: ProblemView| problem.message())
}

/// The captures that some records make up, and everything that is wrong with them.
pub open spec fn collected(records: Seq<RecordView>) -> (Seq<GroupView>, Seq<Seq<char>>) {
    let (evidence, problems) = EvidenceView::nothing().observed_all(records);
    (evidence.groups, problem_messages(problems) + group_problems(evidence.groups))
}

/// The captures that some records make up, and everything that is wrong with them.
pub fn collect_groups(records: Vec<Record>) -> (collected: (Vec<CaptureGroup>, Vec<String>))
    ensures
        (collected.0.deep_view(), collected.1.deep_view()) == self::collected(records.deep_view()),
{
    let ghost all = records.deep_view();
    let mut evidence = Evidence::default();
    let mut warnings: Vec<String> = Vec::new();
    let mut index: usize = 0;
    assert(warnings.deep_view() == problem_messages(Seq::empty()));
    while index < records.len()
        invariant
            index <= records@.len(),
            all == records.deep_view(),
            evidence.deep_view().is_valid(),
            evidence.deep_view().groups.len() <= index,
            evidence.deep_view() == EvidenceView::nothing().observed_all(
                all.take(index as int),
            ).0,
            warnings.deep_view() == problem_messages(
                EvidenceView::nothing().observed_all(all.take(index as int)).1,
            ),
        decreases records@.len() - index,
    {
        assert(all.take(index + 1).drop_last() == all.take(index as int));
        assert(all[index as int] == records@[index as int].deep_view());
        let ghost known = warnings.deep_view();
        let ghost before = evidence.deep_view();
        let ghost problems = EvidenceView::nothing().observed_all(all.take(index as int)).1;
        if let Some(problem) = evidence.observe(&records[index]) {
            warnings.push(problem.to_string());
            assert(warnings.deep_view() =~= known.push(problem.deep_view().message()));
            assert(problem_messages(problems.push(problem.deep_view())) =~= problem_messages(
                problems,
            ).push(problem.deep_view().message()));
        }
        proof {
            lemma_groups_grow_slowly(before, all[index as int]);
        }
        index += 1;
    }
    assert(all.take(index as int) == all);
    let ghost problems = warnings.deep_view();
    let groups = evidence.into_groups();
    let ghost captures = groups.deep_view();
    let mut index: usize = 0;
    assert(warnings.deep_view() =~= problems + group_problems(captures.take(0)));
    while index < groups.len()
        invariant
            index <= groups@.len(),
            captures == groups.deep_view(),
            warnings.deep_view() == problems + group_problems(captures.take(index as int)),
        decreases groups@.len() - index,
    {
        assert(captures.take(index + 1).drop_last() == captures.take(index as int));
        assert(captures[index as int] == groups@[index as int].deep_view());
        let ghost known = warnings.deep_view();
        if let Some(problem) = groups[index].problem() {
            let ghost added = problem@;
            warnings.push(problem);
            assert(warnings.deep_view() =~= known.push(added));
            assert(known.push(added) =~= problems + group_problems(
                captures.take(index as int),
            ).push(added));
        }
        index += 1;
    }
    assert(captures.take(index as int) == captures);
    (groups, warnings)
}

/// A record adds at most one capture.
proof fn lemma_groups_grow_slowly(evidence: EvidenceView, record: RecordView)
    requires
        evidence.is_valid(),
    ensures
        evidence.observed(record).0.groups.len() <= evidence.groups.len() + 1,
{
    match record {
        RecordView::Response { concurrent_to, .. } => {
            evidence::lemma_first_linked(concurrent_to, evidence.requests);
        },
        RecordView::Revisit { concurrent_to, .. } => {
            evidence::lemma_first_linked(concurrent_to, evidence.requests);
        },
        RecordView::Metadata { concurrent_to, .. } => {
            evidence::lemma_first_linked(concurrent_to, evidence.responses);
        },
        _ => {},
    }
}

/// Whether a request is made of a site's REST API.
pub open spec fn is_made_of(request: Seq<char>, site: SiteView) -> bool {
    (site.root.href + "wp-json"@).is_prefix_of(request)
}

/// Whether a request is made of a site's REST API.
pub fn belongs_to_site(request: &str, site: &Site) -> (belongs: bool)
    ensures
        belongs == is_made_of(request@, site.deep_view()),
{
    text::starts_with(request, site.url("wp-json").as_str())
}

/// The cutoff that a page request carries.
pub open spec fn cutoff_of(request: Seq<char>) -> Option<Moment> {
    match web::parsed_address(request) {
        Err(_) => None,
        Ok(address) => match web::first_value(address.pairs, "before"@) {
            Some(value) => clock::parsed_rfc3339(value),
            None => None,
        },
    }
}

/// The cutoff that a page request carries.
pub fn cutoff(request: &str) -> (cutoff: Option<Timestamp>)
    ensures
        cutoff.deep_view() == cutoff_of(request@),
        web::is_read(request@),
{
    match web::parse(request) {
        Err(_) => None,
        Ok(address) => match web::find_value(&address.pairs, "before") {
            Some(value) => clock::parse_rfc3339(value),
            None => None,
        },
    }
}

/// The cutoff of the first page request among the first `count` captures.
pub open spec fn first_cutoff(groups: Seq<GroupView>, count: nat) -> Option<Moment>
    decreases count,
{
    if count == 0 {
        None
    } else {
        match first_cutoff(groups, (count - 1) as nat) {
            Some(cutoff) => Some(cutoff),
            None => cutoff_of(groups[count - 1].url),
        }
    }
}

/// Whether a page request carries another cutoff than the first one does.
pub open spec fn has_conflicting_cutoffs(groups: Seq<GroupView>) -> bool {
    exists|index: int|
        0 <= index < groups.len() && cutoff_of((#[trigger] groups[index]).url) is Some
            && cutoff_of(groups[index].url) != first_cutoff(groups, groups.len())
}

proof fn lemma_cutoff_in_prefix(groups: Seq<GroupView>, count: nat, total: nat)
    requires
        count <= total,
        first_cutoff(groups, count) is Some,
    ensures
        first_cutoff(groups, total) == first_cutoff(groups, count),
    decreases total - count,
{
    if count < total {
        lemma_cutoff_in_prefix(groups, count + 1, total);
    }
}

fn find_cutoff(groups: &Vec<CaptureGroup>) -> (found: (Option<Timestamp>, bool))
    ensures
        found.0.deep_view() == first_cutoff(groups.deep_view(), groups@.len()),
        found.1 == has_conflicting_cutoffs(groups.deep_view()),
{
    let ghost all = groups.deep_view();
    let mut first: Option<Timestamp> = None;
    let mut conflicting = false;
    let mut index: usize = 0;
    while index < groups.len()
        invariant
            index <= groups@.len(),
            all == groups.deep_view(),
            first.deep_view() == first_cutoff(all, index as nat),
            conflicting == exists|earlier: int|
                0 <= earlier < index && cutoff_of((#[trigger] all[earlier]).url) is Some
                    && cutoff_of(all[earlier].url) != first_cutoff(all, all.len()),
        decreases groups@.len() - index,
    {
        let url = groups[index].url.as_str();
        assert(all[index as int].url == url@);
        let ghost found = cutoff_of(url@);
        if let Some(candidate) = cutoff(url) {
            match first {
                None => {
                    first = Some(candidate);
                    proof {
                        lemma_cutoff_in_prefix(all, (index + 1) as nat, all.len());
                    }
                },
                Some(known) => {
                    proof {
                        lemma_cutoff_in_prefix(all, index as nat, all.len());
                    }
                    if !candidate.equals(&known) {
                        assert(cutoff_of(all[index as int].url) != first_cutoff(all, all.len()));
                        conflicting = true;
                    }
                },
            }
        }
        index += 1;
    }
    (first, conflicting)
}

/// The name of the collection that a request is made of.
pub open spec fn requested_collection(request: Seq<char>, site: SiteView) -> Option<Seq<char>> {
    match web::parsed_address(request) {
        Err(_) => None,
        Ok(address) => match text::stripped_prefix(
            address.path,
            site.root.path + "wp-json/wp/v2/"@,
        ) {
            Some(name) if name.len() > 0 => Some(name),
            _ => None,
        },
    }
}

/// The name of the collection that a request is made of.
pub fn collection_name(request: &str, site: &Site) -> (name: Option<String>)
    ensures
        name.deep_view() == requested_collection(request@, site.deep_view()),
{
    let address = match web::parse(request) {
        Ok(address) => address,
        Err(_) => {
            return None;
        },
    };
    let prefix = text::joined(site.root().path.as_str(), "wp-json/wp/v2/");
    match text::strip_prefix(address.path.as_str(), prefix.as_str()) {
        Some(name) => if name.as_str().unicode_len() > 0 {
            Some(name)
        } else {
            None
        },
        None => None,
    }
}

/// The custom collections known after the registry responses among the first `count` captures.
pub open spec fn registered(
    groups: Seq<GroupView>,
    site: SiteView,
    custom: Seq<CollectionView>,
    registry: Registry,
    count: nat,
) -> Seq<CollectionView>
    decreases count,
{
    if count == 0 {
        custom
    } else {
        let earlier = registered(groups, site, custom, registry, (count - 1) as nat);
        match advertised_entries(groups[count - 1], site.url(registry.path_text())) {
            Some(entries) => archive::with_customs(
                earlier,
                endpoint::custom_names(entries),
                registry,
            ),
            None => earlier,
        }
    }
}

/// The entries of a registry that a capture of its URL holds.
pub open spec fn advertised_entries(group: GroupView, url: Seq<char>) -> Option<
    Seq<endpoint::EndpointTypeView>,
> {
    if group.url != url {
        None
    } else {
        match lint::head_of(group) {
            Some(head) if 200 <= head.status < 300 => match group.response->0.message.entity {
                Ok(entity) => match entity.registry {
                    Ok(entries) => Some(entries),
                    Err(_) => None,
                },
                Err(_) => None,
            },
            _ => None,
        }
    }
}

/// The registry that led to a capture, as its last metadata with fields has it.
pub open spec fn advertising_registry(group: GroupView) -> Option<Registry> {
    match last_via(group.metadata) {
        Some(via) => if Registry::Types.path_text().is_suffix_of(via) {
            Some(Registry::Types)
        } else if Registry::Taxonomies.path_text().is_suffix_of(via) {
            Some(Registry::Taxonomies)
        } else {
            None
        },
        None => None,
    }
}

/// The URL that led to a capture, as the last of its metadata with fields has it.
pub open spec fn last_via(metadata: Seq<evidence::MetadataView>) -> Option<Seq<char>>
    decreases metadata.len(),
{
    if metadata.len() == 0 {
        None
    } else if metadata.last().fields {
        metadata.last().via
    } else {
        last_via(metadata.drop_last())
    }
}

/// Whether a name is that of a custom collection, and not of a supported endpoint or a root.
pub open spec fn is_custom_name(name: Seq<char>) -> bool {
    Endpoint::named(name) is None && !lint::names_root(name)
}

/// The custom collections known after the first `count` captures, and what could not be made out.
pub open spec fn requested_customs(
    groups: Seq<GroupView>,
    site: SiteView,
    custom: Seq<CollectionView>,
    count: nat,
) -> (Seq<CollectionView>, Seq<Seq<char>>)
    decreases count,
{
    if count == 0 {
        (custom, Seq::empty())
    } else {
        let (earlier, warnings) = requested_customs(groups, site, custom, (count - 1) as nat);
        let group = groups[count - 1];
        match requested_collection(group.url, site) {
            Some(name) if is_custom_name(name) => match advertising_registry(group) {
                Some(registry) => (
                    archive::with_customs(earlier, seq![name], registry),
                    warnings,
                ),
                None => (
                    archive::with_customs(earlier, seq![name], Registry::Types),
                    if endpoint::names_of(earlier).contains(name) {
                        warnings
                    } else {
                        warnings.push(
                            "could not determine the registry for custom endpoint "@
                                + text::quoted(name) + "; assuming types"@,
                        )
                    },
                ),
            },
            _ => (earlier, warnings),
        }
    }
}

/// The custom collections that an archive knows, and what could not be made out.
pub open spec fn known_customs(groups: Seq<GroupView>, site: SiteView) -> (
    Seq<CollectionView>,
    Seq<Seq<char>>,
) {
    let types = registered(groups, site, Seq::empty(), Registry::Types, groups.len());
    let all = registered(groups, site, types, Registry::Taxonomies, groups.len());
    requested_customs(groups, site, all, groups.len())
}

fn register_customs(
    groups: &Vec<CaptureGroup>,
    site: &Site,
    custom: &mut Vec<Collection>,
    registry: Registry,
)
    ensures
        final(custom).deep_view() == registered(
            groups.deep_view(),
            site.deep_view(),
            old(custom).deep_view(),
            registry,
            groups@.len(),
        ),
{
    let ghost all = groups.deep_view();
    let ghost start = custom.deep_view();
    let url = site.url(registry.path());
    let mut index: usize = 0;
    while index < groups.len()
        invariant
            index <= groups@.len(),
            all == groups.deep_view(),
            url@ == site.deep_view().url(registry.path_text()),
            custom.deep_view() == registered(all, site.deep_view(), start, registry, index as nat),
        decreases groups@.len() - index,
    {
        let group = &groups[index];
        assert(all[index as int] == group.deep_view());
        if text::same(group.url.as_str(), url.as_str()) {
            if let Some(response) = &group.response {
                if let Some(head) = response.metadata() {
                    if 200 <= head.status && head.status < 300 {
                        if let Ok(entity) = &response.message.entity {
                            if let Ok(entries) = &entity.registry {
                                archive::push_customs(custom, entries, registry);
                            }
                        }
                    }
                }
            }
        }
        index += 1;
    }
}

fn find_registry(group: &CaptureGroup) -> (registry: Option<Registry>)
    ensures
        registry == advertising_registry(group.deep_view()),
{
    let ghost all = group.deep_view().metadata;
    let mut end: usize = group.metadata.len();
    assert(all.take(end as int) == all);
    while end > 0
        invariant
            end <= group.metadata@.len(),
            all == group.deep_view().metadata,
            last_via(all) == last_via(all.take(end as int)),
        decreases end,
    {
        assert(all.take(end as int).drop_last() == all.take(end - 1));
        let metadata = &group.metadata[end - 1];
        assert(all.take(end as int).last() == metadata.deep_view());
        if metadata.fields {
            return match &metadata.via {
                Some(via) => if text::ends_with(via.as_str(), Registry::Types.path()) {
                    Some(Registry::Types)
                } else if text::ends_with(via.as_str(), Registry::Taxonomies.path()) {
                    Some(Registry::Taxonomies)
                } else {
                    None
                },
                None => None,
            };
        }
        end -= 1;
    }
    None
}

/// The custom collections that an archive knows, and what could not be made out.
pub fn custom_collections(groups: &Vec<CaptureGroup>, site: &Site, warnings: &mut Vec<String>) -> (
custom: Vec<Collection>)
    ensures
        ({
            let (customs, found) = known_customs(groups.deep_view(), site.deep_view());
            &&& custom.deep_view() == customs
            &&& final(warnings).deep_view() == old(warnings).deep_view() + found
        }),
{
    let ghost all = groups.deep_view();
    let ghost known = warnings.deep_view();
    let mut custom: Vec<Collection> = Vec::new();
    assert(custom.deep_view() == Seq::<CollectionView>::empty());
    register_customs(groups, site, &mut custom, Registry::Types);
    register_customs(groups, site, &mut custom, Registry::Taxonomies);
    let ghost start = custom.deep_view();
    let mut index: usize = 0;
    assert(known + Seq::<Seq<char>>::empty() =~= known);
    while index < groups.len()
        invariant
            index <= groups@.len(),
            all == groups.deep_view(),
            custom.deep_view() == requested_customs(
                all,
                site.deep_view(),
                start,
                index as nat,
            ).0,
            warnings.deep_view() == known + requested_customs(
                all,
                site.deep_view(),
                start,
                index as nat,
            ).1,
        decreases groups@.len() - index,
    {
        let group = &groups[index];
        assert(all[index as int] == group.deep_view());
        let ghost found = requested_customs(all, site.deep_view(), start, index as nat).1;
        if let Some(name) = collection_name(group.url.as_str(), site) {
            if Endpoint::find_named(name.as_str()).is_none() && !lint::is_root_name(
                name.as_str(),
            ) {
                let registry = match find_registry(group) {
                    Some(registry) => registry,
                    None => {
                        proof {
                            text::lemma_position(
                                endpoint::names_of(custom.deep_view()),
                                name@,
                            );
                        }
                        if endpoint::position_named(&custom, name.as_str()).is_none() {
                            let mut warning = text::joined(
                                "could not determine the registry for custom endpoint ",
                                text::quote(name.as_str()).as_str(),
                            );
                            warning.append("; assuming types");
                            let ghost added = warning@;
                            let ghost before = warnings.deep_view();
                            warnings.push(warning);
                            assert(warnings.deep_view() =~= before.push(added));
                            assert(before.push(added) =~= known + found.push(added));
                        }
                        Registry::Types
                    },
                };
                archive::push_custom(&mut custom, name.as_str(), registry);
            }
        }
        index += 1;
    }
    custom
}

/// The greatest page count that the captures of one collection advertise, among the first `count`.
pub open spec fn collection_total(
    groups: Seq<GroupView>,
    site: SiteView,
    name: Seq<char>,
    count: nat,
) -> Option<usize>
    decreases count,
{
    if count == 0 {
        None
    } else {
        let earlier = collection_total(groups, site, name, (count - 1) as nat);
        let group = groups[count - 1];
        if requested_collection(group.url, site) == Some(name) {
            archive::greatest(
                earlier,
                match lint::head_of(group) {
                    Some(head) => evidence::header_count(head.total_pages),
                    None => None,
                },
            )
        } else {
            earlier
        }
    }
}

/// The page that a request asks for, or zero.
pub open spec fn requested_page(request: Seq<char>) -> usize {
    match web::parsed_address(request) {
        Err(_) => 0,
        Ok(address) => match web::first_value(address.pairs, "page"@) {
            None => 0,
            Some(value) => match text::parsed_count(value) {
                Some(page) => page,
                None => 0,
            },
        },
    }
}

/// The URL that an archive requests a page by carries the archive's cutoff, to the second, and the
/// page, where it is an address.
pub proof fn a_page_request_gives_back_its_cutoff(
    site: SiteView,
    endpoint: Seq<char>,
    before: Moment,
    page: nat,
    per_page: nat,
)
    requires
        web::is_bare(site.root.href),
        web::is_bare(endpoint),
        clock::reads_back(before),
        web::parsed_address(site.page_url(endpoint, before, page, per_page)) is Ok,
        web::is_read(site.page_url(endpoint, before, page, per_page)),
    ensures
        cutoff_of(site.page_url(endpoint, before, page, per_page)) == Some(
            Moment { seconds: before.seconds, nanos: 0 },
        ),
        page <= usize::MAX ==> requested_page(site.page_url(endpoint, before, page, per_page))
            == page,
{
    archive::a_page_url_carries_its_query(site, endpoint, before, page, per_page);
    let pairs = archive::page_pairs(before, page, per_page);
    if page <= usize::MAX {
        text::lemma_count_text_parses_back(page as usize);
    }
    reveal_strlit("before");
    reveal_strlit("orderby");
    reveal_strlit("order");
    reveal_strlit("page");
    reveal_with_fuel(web::first_value, 5);
    assert("before"@.len() == 6 && "orderby"@.len() == 7 && "order"@.len() == 5 && "page"@.len()
        == 4);
    assert(pairs.drop_first() =~= pairs.skip(1));
    assert(pairs.skip(1).drop_first() =~= pairs.skip(2));
    assert(pairs.skip(2).drop_first() =~= pairs.skip(3));
}

/// The collection that a request is made of: one of `endpoints`, or a supported one.
pub open spec fn requested_endpoint(
    request: Seq<char>,
    site: SiteView,
    endpoints: Seq<CollectionView>,
) -> Option<CollectionView> {
    match requested_collection(request, site) {
        None => None,
        Some(name) => match endpoint::first_named(endpoints, name) {
            Some(endpoint) => Some(endpoint),
            None => match Endpoint::named(name) {
                Some(endpoint) => Some(CollectionView::Known(endpoint)),
                None => None,
            },
        },
    }
}

/// The checkpoint that a continued archive begins at: the page before the first request's.
pub open spec fn starting_point(
    first: Seq<char>,
    groups: Seq<GroupView>,
    site: SiteView,
    endpoints: Seq<CollectionView>,
) -> Option<ResumptionView> {
    match requested_endpoint(first, site, endpoints) {
        None => None,
        Some(endpoint) => {
            let page = requested_page(first);
            Some(
                ResumptionView {
                    endpoint,
                    last_page: if page == 0 {
                        0
                    } else {
                        (page - 1) as usize
                    },
                    total_pages: collection_total(
                        groups,
                        site,
                        requested_collection(first, site)->0,
                        groups.len(),
                    ),
                },
            )
        },
    }
}

/// An archive cannot be inspected for continuation.
#[derive(Debug)]
pub enum Error {
    /// No request identifies a `WordPress` installation.
    NoWordPressRequests,
    /// The inferred installation URL is not a valid archive site.
    Site {
        /// Request URL used for inference.
        url: String,
        /// Why the inferred site was invalid.
        source: SiteError,
    },
    /// A resumed archive does not begin at a recognizable collection request.
    StartingRequest(String),
}

/// An [`Error`], over views.
#[verifier::ext_equal]
pub enum ErrorView {
    NoWordPressRequests,
    Site { url: Seq<char>, source: SiteErrorView },
    StartingRequest(Seq<char>),
}

impl DeepView for Error {
    type V = ErrorView;

    open spec fn deep_view(&self) -> ErrorView {
        match self {
            Error::NoWordPressRequests => ErrorView::NoWordPressRequests,
            Error::Site { url, source } => ErrorView::Site {
                url: url@,
                source: source.deep_view(),
            },
            Error::StartingRequest(url) => ErrorView::StartingRequest(url@),
        }
    }
}

fn greatest_advertised(groups: &Vec<CaptureGroup>, site: &Site, name: &str) -> (total: Option<
    usize,
>)
    ensures
        total == collection_total(groups.deep_view(), site.deep_view(), name@, groups@.len()),
{
    let ghost all = groups.deep_view();
    let mut total: Option<usize> = None;
    let mut index: usize = 0;
    while index < groups.len()
        invariant
            index <= groups@.len(),
            all == groups.deep_view(),
            total == collection_total(all, site.deep_view(), name@, index as nat),
        decreases groups@.len() - index,
    {
        let group = &groups[index];
        assert(all[index as int] == group.deep_view());
        let matches = match collection_name(group.url.as_str(), site) {
            Some(other) => text::same(other.as_str(), name),
            None => false,
        };
        if matches {
            if let Some(head) = lint::response_metadata(group) {
                if let Some(advertised) = evidence::numeric_header(&head.total_pages) {
                    total = match total {
                        Some(known) if known >= advertised => Some(known),
                        _ => Some(advertised),
                    };
                }
            }
        }
        index += 1;
    }
    total
}

/// The checkpoint that a continued archive begins at: the page before the first request's.
///
/// # Errors
///
/// Returns [`Error::StartingRequest`] when the request is of no known collection.
pub fn starting_resumption(
    first: &CaptureGroup,
    groups: &Vec<CaptureGroup>,
    site: &Site,
    endpoints: &Vec<Collection>,
) -> (resumption: Result<Resumption, Error>)
    ensures
        match resumption {
            Ok(resumption) => starting_point(
                first.url@,
                groups.deep_view(),
                site.deep_view(),
                endpoints.deep_view(),
            ) == Some(resumption.deep_view()) && resumption.last_page < usize::MAX,
            Err(error) => starting_point(
                first.url@,
                groups.deep_view(),
                site.deep_view(),
                endpoints.deep_view(),
            ) is None && error.deep_view() == ErrorView::StartingRequest(first.url@),
        },
{
    let name = match collection_name(first.url.as_str(), site) {
        Some(name) => name,
        None => {
            return Err(Error::StartingRequest(first.url.clone()));
        },
    };
    let endpoint = match endpoint::position_named(endpoints, name.as_str()) {
        Some(index) => endpoints[index].clone(),
        None => match Endpoint::find_named(name.as_str()) {
            Some(endpoint) => Collection::Known(endpoint),
            None => {
                return Err(Error::StartingRequest(first.url.clone()));
            },
        },
    };
    let page: usize = match web::parse(first.url.as_str()) {
        Ok(address) => match web::find_value(&address.pairs, "page") {
            Some(value) => match text::parse_count(value) {
                Some(page) => page,
                None => 0,
            },
            None => 0,
        },
        Err(_) => 0,
    };
    let total_pages = greatest_advertised(groups, site, name.as_str());
    Ok(
        Resumption {
            endpoint,
            last_page: if page == 0 {
                0
            } else {
                page - 1
            },
            total_pages,
        },
    )
}

/// Where a redirect chain leads, among captures given by their indices.
#[derive(Clone, Copy, Debug, Eq, PartialEq, Structural)]
pub enum Chain {
    /// The chain ends at a response; the captures of it end before `after`.
    Complete {
        /// The index behind the chain's captures.
        after: usize,
        /// The index of the last capture.
        terminal: usize,
    },
    /// The chain was cut off, and the request is made again at `next`.
    Retry {
        /// The index of the repeated request.
        next: usize,
    },
}

/// Where a redirect chain leads, or what is wrong with it.
#[verifier::ext_equal]
pub enum ChainView {
    Broken(Seq<Seq<char>>),
    Complete { after: int, terminal: int },
    Retry { next: int },
}

/// Where the redirect chain of the capture at `index` leads, or what is wrong with it.
pub open spec fn followed(groups: Seq<GroupView>, index: int, requested: Seq<char>) -> ChainView
    decreases groups.len() - index,
{
    if !(0 <= index < groups.len()) || groups[index].metadata.len() == 0
        || groups[index].response is None {
        ChainView::Broken(Seq::empty())
    } else {
        let group = groups[index];
        let response = group.response->0;
        let has_next = index + 1 < groups.len();
        if response.truncation is Some {
            if has_next && groups[index + 1].url == requested {
                ChainView::Retry { next: index + 1 }
            } else {
                ChainView::Broken(Seq::empty())
            }
        } else {
            match response.message.head {
                None => ChainView::Broken(
                    seq!["capture of "@ + group.url + " has an invalid HTTP response"@],
                ),
                Some(head) => if !(300 <= head.status < 400) || head.status == 304 {
                    ChainView::Complete { after: index + 1, terminal: index }
                } else {
                    match evidence::header_text(head.location) {
                        None => ChainView::Broken(
                            seq![
                                "redirect captured from "@ + group.url
                                    + " has no readable Location header"@,
                            ],
                        ),
                        Some(location) => match web::resolved_address(response.url, location) {
                            Err(_) => ChainView::Broken(
                                seq![
                                    "redirect captured from "@ + group.url
                                        + " has an invalid Location header "@ + text::quoted(
                                        location,
                                    ),
                                ],
                            ),
                            Ok(target) => if has_next && groups[index + 1].url == target {
                                followed(groups, index + 1, requested)
                            } else {
                                ChainView::Broken(
                                    seq![
                                        "redirect captured from "@ + group.url
                                            + " is missing its request to "@ + target,
                                    ],
                                )
                            },
                        },
                    }
                },
            }
        }
    }
}

/// A chain leads forward, and a complete one to a response with an HTTP head.
pub proof fn lemma_followed(groups: Seq<GroupView>, index: int, requested: Seq<char>)
    requires
        0 <= index,
    ensures
        match followed(groups, index, requested) {
            ChainView::Broken(_) => true,
            ChainView::Complete { after, terminal } => index <= terminal && after == terminal + 1
                && after <= groups.len() && lint::head_of(groups[terminal]) is Some,
            ChainView::Retry { next } => index < next < groups.len(),
        },
    decreases groups.len() - index,
{
    if index < groups.len() && groups[index].response is Some {
        lemma_followed(groups, index + 1, requested);
    }
}

/// Follow the complete capture groups belonging to one redirect chain.
fn redirect_chain(
    groups: &Vec<CaptureGroup>,
    start: usize,
    requested: &str,
    warnings: &mut Vec<String>,
) -> (chain: Option<Chain>)
    ensures
        match chain {
            None => followed(groups.deep_view(), start as int, requested@) matches ChainView::Broken(
                found,
            ) && final(warnings).deep_view() == old(warnings).deep_view() + found,
            Some(Chain::Complete { after, terminal }) => followed(
                groups.deep_view(),
                start as int,
                requested@,
            ) == (ChainView::Complete { after: after as int, terminal: terminal as int })
                && final(warnings).deep_view() == old(warnings).deep_view(),
            Some(Chain::Retry { next }) => followed(
                groups.deep_view(),
                start as int,
                requested@,
            ) == (ChainView::Retry { next: next as int }) && final(warnings).deep_view() == old(
                warnings,
            ).deep_view(),
        },
{
    let ghost all = groups.deep_view();
    let ghost known = warnings.deep_view();
    let mut index: usize = start;
    assert(known + Seq::<Seq<char>>::empty() =~= known);
    while index < groups.len()
        invariant
            all == groups.deep_view(),
            warnings.deep_view() == known,
            known == old(warnings).deep_view(),
            known + Seq::<Seq<char>>::empty() == known,
            index >= start,
            followed(all, start as int, requested@) == followed(all, index as int, requested@),
        decreases groups@.len() - index,
    {
        let group = &groups[index];
        assert(all[index as int] == group.deep_view());
        if group.metadata.len() == 0 {
            return None;
        }
        let response = match &group.response {
            Some(response) => response,
            None => {
                return None;
            },
        };
        let next: usize = index + 1;
        if response.truncation.is_some() {
            if next < groups.len() {
                assert(all[next as int].url == groups@[next as int].url@);
                if text::same(groups[next].url.as_str(), requested) {
                    return Some(Chain::Retry { next });
                }
            }
            return None;
        }
        let head = match response.metadata() {
            Some(head) => head,
            None => {
                warn(
                    warnings,
                    "capture of ",
                    group.url.as_str(),
                    " has an invalid HTTP response",
                );
                return None;
            },
        };
        if head.status < 300 || head.status >= 400 || head.status == 304 {
            return Some(Chain::Complete { after: next, terminal: index });
        }
        let location = match evidence::read_header(&head.location) {
            Some(location) => location,
            None => {
                warn(
                    warnings,
                    "redirect captured from ",
                    group.url.as_str(),
                    " has no readable Location header",
                );
                return None;
            },
        };
        let target = match web::resolve(response.url.as_str(), location.as_str()) {
            Ok(target) => target,
            Err(_) => {
                let mut warning = text::joined("redirect captured from ", group.url.as_str());
                warning.append(" has an invalid Location header ");
                warning.append(text::quote(location.as_str()).as_str());
                push_warning(warnings, warning);
                return None;
            },
        };
        let mut continues = false;
        if next < groups.len() {
            assert(all[next as int].url == groups@[next as int].url@);
            continues = text::same(groups[next].url.as_str(), target.as_str());
        }
        if !continues {
            let mut warning = text::joined("redirect captured from ", group.url.as_str());
            warning.append(" is missing its request to ");
            warning.append(target.as_str());
            push_warning(warnings, warning);
            return None;
        }
        index = next;
    }
    None
}

fn push_warning(warnings: &mut Vec<String>, warning: String)
    ensures
        final(warnings).deep_view() == old(warnings).deep_view() + seq![warning@],
{
    let ghost known = warnings.deep_view();
    let ghost added = warning@;
    warnings.push(warning);
    assert(warnings.deep_view() =~= known + seq![added]);
}

fn warn(warnings: &mut Vec<String>, before: &str, subject: &str, after: &str)
    ensures
        final(warnings).deep_view() == old(warnings).deep_view() + seq![
            before@ + subject@ + after@,
        ],
{
    let mut warning = text::joined(before, subject);
    warning.append(after);
    push_warning(warnings, warning);
}

/// Whether a response with this status is requested again.
pub open spec fn is_asked_again(status: u16) -> bool {
    status == 429 || status == 500 || status == 502 || status == 503 || status == 504
}

/// Whether a response with this status is requested again.
pub fn is_retryable(status: u16) -> (retryable: bool)
    ensures
        retryable == is_asked_again(status),
{
    status == 429 || status == 500 || status == 502 || status == 503 || status == 504
}

/// Where the attempts at a request, the first of them at `attempt`, lead: past those that were cut
/// off or answered with an error that is asked again.
pub open spec fn settled(groups: Seq<GroupView>, attempt: int, requested: Seq<char>) -> ChainView
    decreases groups.len() - attempt,
{
    if attempt < 0 {
        ChainView::Broken(Seq::empty())
    } else {
        proof {
            lemma_followed(groups, attempt, requested);
        }
        match followed(groups, attempt, requested) {
            ChainView::Broken(warnings) => ChainView::Broken(warnings),
            ChainView::Retry { next } => settled(groups, next, requested),
            ChainView::Complete { after, terminal } => {
                let status = lint::head_of(groups[terminal])->0.status;
                if is_asked_again(status) && after < groups.len() && groups[after].url
                    == requested {
                    settled(groups, after, requested)
                } else {
                    ChainView::Complete { after, terminal }
                }
            },
        }
    }
}

/// Settled attempts lead forward, to a response with an HTTP head.
pub proof fn lemma_settled(groups: Seq<GroupView>, attempt: int, requested: Seq<char>)
    requires
        0 <= attempt,
    ensures
        match settled(groups, attempt, requested) {
            ChainView::Broken(_) => true,
            ChainView::Complete { after, terminal } => attempt <= terminal && after == terminal + 1
                && after <= groups.len() && lint::head_of(groups[terminal]) is Some,
            ChainView::Retry { .. } => false,
        },
    decreases groups.len() - attempt,
{
    lemma_followed(groups, attempt, requested);
    match followed(groups, attempt, requested) {
        ChainView::Broken(_) => {},
        ChainView::Retry { next } => {
            lemma_settled(groups, next, requested);
        },
        ChainView::Complete { after, terminal } => {
            if after < groups.len() {
                lemma_settled(groups, after, requested);
            }
        },
    }
}

fn settle(
    groups: &Vec<CaptureGroup>,
    start: usize,
    requested: &str,
    warnings: &mut Vec<String>,
) -> (end: Option<(usize, usize)>)
    ensures
        match end {
            None => settled(groups.deep_view(), start as int, requested@) matches ChainView::Broken(
                found,
            ) && final(warnings).deep_view() == old(warnings).deep_view() + found,
            Some((after, terminal)) => settled(groups.deep_view(), start as int, requested@) == (
            ChainView::Complete { after: after as int, terminal: terminal as int })
                && final(warnings).deep_view() == old(warnings).deep_view() && start <= terminal
                && after == terminal + 1 && after <= groups@.len(),
        },
{
    let ghost all = groups.deep_view();
    let mut attempt: usize = start;
    loop
        invariant
            all == groups.deep_view(),
            warnings.deep_view() == old(warnings).deep_view(),
            start <= attempt,
            settled(all, start as int, requested@) == settled(all, attempt as int, requested@),
        decreases all.len() - attempt,
    {
        proof {
            lemma_followed(all, attempt as int, requested@);
        }
        match redirect_chain(groups, attempt, requested, warnings) {
            None => {
                return None;
            },
            Some(Chain::Retry { next }) => {
                attempt = next;
            },
            Some(Chain::Complete { after, terminal }) => {
                assert(all[terminal as int] == groups@[terminal as int].deep_view());
                let mut again = false;
                if let Some(head) = lint::response_metadata(&groups[terminal]) {
                    if is_retryable(head.status) && after < groups.len() {
                        assert(all[after as int].url == groups@[after as int].url@);
                        again = text::same(groups[after].url.as_str(), requested);
                    }
                }
                if !again {
                    return Some((after, terminal));
                }
                attempt = after;
            },
        }
    }
}

/// The index of the first capture of a URL at or after `from`.
pub open spec fn next_capture(groups: Seq<GroupView>, url: Seq<char>, from: int) -> Option<int>
    decreases groups.len() - from,
{
    if !(0 <= from < groups.len()) {
        None
    } else if groups[from].url == url {
        Some(from)
    } else {
        next_capture(groups, url, from + 1)
    }
}

pub proof fn lemma_next_capture(groups: Seq<GroupView>, url: Seq<char>, from: int)
    ensures
        next_capture(groups, url, from) matches Some(index) ==> from <= index < groups.len(),
    decreases groups.len() - from,
{
    if 0 <= from < groups.len() && groups[from].url != url {
        lemma_next_capture(groups, url, from + 1);
    }
}

/// The capture that a group's response is to the driver that requested `url`, or what is wrong
/// with it.
pub open spec fn replayed_capture(group: GroupView, url: Seq<char>) -> Result<
    CaptureView,
    Seq<char>,
> {
    let message = group.response->0.message;
    match message.entity {
        Err(error) => Err(
            "cannot read the payload captured from "@ + group.url + ": "@ + error,
        ),
        Ok(payload) => match message.capture {
            None => Err("capture of "@ + group.url + " has an invalid HTTP response"@),
            Some(head) => Ok(CaptureView { url, head, payload }),
        },
    }
}

/// The state of a driver after replaying the captures from `from` on, and what stopped it.
pub open spec fn replayed(groups: Seq<GroupView>, driver: DriverView, from: int) -> (
    DriverView,
    Seq<Seq<char>>,
)
    decreases groups.len() - from,
{
    if from < 0 {
        (driver, Seq::empty())
    } else {
        match driver.next() {
            None => (driver, Seq::empty()),
            Some(request) => match next_capture(groups, request.url, from) {
                None => (driver, Seq::empty()),
                Some(index) => {
                    proof {
                        lemma_next_capture(groups, request.url, from);
                        lemma_settled(groups, index, request.url);
                    }
                    match settled(groups, index, request.url) {
                        ChainView::Broken(warnings) => (driver, warnings),
                        ChainView::Retry { .. } => (driver, Seq::empty()),
                        ChainView::Complete { after, terminal } => match replayed_capture(
                            groups[terminal],
                            request.url,
                        ) {
                            Err(warning) => (driver, seq![warning]),
                            Ok(capture) => {
                                let (advanced, inspection) = driver.inspected(capture);
                                match inspection.error {
                                    Some(error) => (
                                        advanced,
                                        seq![
                                            "archive traversal stopped after "@ + request.url
                                                + ": "@ + error,
                                        ],
                                    ),
                                    None => replayed(groups, advanced, after),
                                }
                            },
                        },
                    }
                },
            },
        }
    }
}

/// Replay the complete captures of an archive through a driver, up to the first that is broken or
/// refused.
pub fn replay(groups: &Vec<CaptureGroup>, driver: &mut ArchiveDriver, warnings: &mut Vec<String>)
    requires
        old(driver).deep_view().is_valid(),
    ensures
        ({
            let (advanced, found) = replayed(groups.deep_view(), old(driver).deep_view(), 0);
            &&& final(driver).deep_view() == advanced
            &&& final(warnings).deep_view() == old(warnings).deep_view() + found
        }),
        final(driver).deep_view().is_valid(),
{
    let ghost all = groups.deep_view();
    let ghost known = warnings.deep_view();
    let ghost start = driver.deep_view();
    let mut next_group: usize = 0;
    assert(known + Seq::<Seq<char>>::empty() =~= known);
    loop
        invariant
            next_group <= groups@.len(),
            all == groups.deep_view(),
            known == old(warnings).deep_view(),
            start == old(driver).deep_view(),
            warnings.deep_view() == known,
            known + Seq::<Seq<char>>::empty() == known,
            driver.deep_view().is_valid(),
            replayed(all, start, 0) == replayed(all, driver.deep_view(), next_group as int),
        decreases groups@.len() - next_group,
    {
        let request = match driver.next() {
            Some(request) => request,
            None => {
                return ;
            },
        };
        let ghost url = request.url@;
        let mut index: usize = next_group;
        while index < groups.len() && !text::same(
            groups[index].url.as_str(),
            request.url.as_str(),
        )
            invariant
                next_group <= index <= groups@.len(),
                all == groups.deep_view(),
                url == request.url@,
                next_capture(all, url, next_group as int) == next_capture(all, url, index as int),
            decreases groups@.len() - index,
        {
            assert(all[index as int].url == groups@[index as int].url@);
            index += 1;
        }
        if index == groups.len() {
            return ;
        }
        assert(all[index as int].url == groups@[index as int].url@);
        assert(next_capture(all, url, next_group as int) == Some(index as int));
        let (after, terminal) = match settle(groups, index, request.url.as_str(), warnings) {
            Some(end) => end,
            None => {
                return ;
            },
        };
        proof {
            lemma_settled(all, index as int, url);
        }
        let group = &groups[terminal];
        assert(all[terminal as int] == group.deep_view());
        let response = match &group.response {
            Some(response) => response,
            None => {
                return ;
            },
        };
        let payload = match &response.message.entity {
            Ok(payload) => payload,
            Err(error) => {
                let mut warning = text::joined(
                    "cannot read the payload captured from ",
                    group.url.as_str(),
                );
                warning.append(": ");
                warning.append(error.as_str());
                push_warning(warnings, warning);
                return ;
            },
        };
        let head = match &response.message.capture {
            Some(head) => head,
            None => {
                warn(
                    warnings,
                    "capture of ",
                    group.url.as_str(),
                    " has an invalid HTTP response",
                );
                return ;
            },
        };
        let capture = Capture { url: request.url.as_str(), head, payload };
        let inspection = driver.inspect(&capture);
        if let Some(error) = inspection.error {
            let mut warning = text::joined(
                "archive traversal stopped after ",
                request.url.as_str(),
            );
            warning.append(": ");
            warning.append(error.as_str());
            push_warning(warnings, warning);
            return ;
        }
        next_group = after;
    }
}

/// `discovered`, followed by each of `inferred` that has no namesake before it.
pub open spec fn merged(
    discovered: Seq<CollectionView>,
    inferred: Seq<CollectionView>,
) -> Seq<CollectionView>
    decreases inferred.len(),
{
    if inferred.len() == 0 {
        discovered
    } else {
        archive::including(merged(discovered, inferred.drop_last()), inferred.last())
    }
}

/// Merging keeps what was discovered, in order, adds every name that was inferred, and none twice.
pub proof fn merging_adds_every_name_once(
    discovered: Seq<CollectionView>,
    inferred: Seq<CollectionView>,
)
    ensures
        discovered.is_prefix_of(merged(discovered, inferred)),
        forall|index: int|
            0 <= index < inferred.len() ==> endpoint::names_of(
                merged(discovered, inferred),
            ).contains((#[trigger] inferred[index]).name()),
        endpoint::names_of(discovered).no_duplicates() ==> endpoint::names_of(
            merged(discovered, inferred),
        ).no_duplicates(),
    decreases inferred.len(),
{
    if inferred.len() > 0 {
        let earlier = merged(discovered, inferred.drop_last());
        let all = merged(discovered, inferred);
        let last = inferred.last();
        merging_adds_every_name_once(discovered, inferred.drop_last());
        let known = endpoint::names_of(earlier);
        let grown = endpoint::names_of(all);
        text::lemma_position(known, last.name());
        if text::position(known, last.name()) is None {
            assert(grown == known.push(last.name()));
            assert(grown[grown.len() - 1] == last.name());
        }
        assert forall|index: int| 0 <= index < inferred.len() implies grown.contains(
            (#[trigger] inferred[index]).name(),
        ) by {
            if index < inferred.len() - 1 {
                assert(inferred.drop_last()[index] == inferred[index]);
                let at = known.index_of(inferred[index].name());
                assert(grown[at] == inferred[index].name());
            }
        }
    }
}

fn copied_collections(collections: &Vec<Collection>) -> (copies: Vec<Collection>)
    ensures
        copies.deep_view() == collections.deep_view(),
{
    let ghost all = collections.deep_view();
    let mut copies: Vec<Collection> = Vec::new();
    let mut index: usize = 0;
    assert(copies.deep_view() == all.take(0));
    while index < collections.len()
        invariant
            index <= collections@.len(),
            all == collections.deep_view(),
            copies.deep_view() == all.take(index as int),
        decreases collections@.len() - index,
    {
        let ghost known = copies.deep_view();
        copies.push(collections[index].clone());
        assert(copies.deep_view() =~= known.push(all[index as int]));
        index += 1;
        assert(all.take(index as int) =~= known.push(all[index - 1]));
    }
    assert(all.take(index as int) == all);
    copies
}

/// A copy of probe results, in order.
pub fn copied_probes(probes: &Vec<ProbeResult>) -> (copies: Vec<ProbeResult>)
    ensures
        copies.deep_view() == probes.deep_view(),
{
    let ghost all = probes.deep_view();
    let mut copies: Vec<ProbeResult> = Vec::new();
    let mut index: usize = 0;
    assert(copies.deep_view() == all.take(0));
    while index < probes.len()
        invariant
            index <= probes@.len(),
            all == probes.deep_view(),
            copies.deep_view() == all.take(index as int),
        decreases probes@.len() - index,
    {
        let ghost known = copies.deep_view();
        copies.push(probes[index].clone());
        assert(copies.deep_view() =~= known.push(all[index as int]));
        index += 1;
        assert(all.take(index as int) =~= known.push(all[index - 1]));
    }
    assert(all.take(index as int) == all);
    copies
}

/// `discovered`, followed by each of `inferred` that has no namesake before it.
pub fn merge_endpoints(discovered: &Vec<Collection>, inferred: &Vec<Collection>) -> (endpoints: Vec<
    Collection,
>)
    ensures
        endpoints.deep_view() == merged(discovered.deep_view(), inferred.deep_view()),
{
    let ghost all = inferred.deep_view();
    let mut endpoints = copied_collections(discovered);
    let mut index: usize = 0;
    while index < inferred.len()
        invariant
            index <= inferred@.len(),
            all == inferred.deep_view(),
            endpoints.deep_view() == merged(discovered.deep_view(), all.take(index as int)),
        decreases inferred@.len() - index,
    {
        assert(all.take(index + 1).drop_last() == all.take(index as int));
        assert(all[index as int] == inferred@[index as int].deep_view());
        let ghost known = endpoints.deep_view();
        if endpoint::position_named(&endpoints, inferred[index].name()).is_none() {
            endpoints.push(inferred[index].clone());
            assert(endpoints.deep_view() =~= known.push(all[index as int]));
        }
        index += 1;
    }
    assert(all.take(index as int) == all);
    endpoints
}

/// The recovered state of one collection archive.
#[derive(Debug)]
pub struct ResumeInfo {
    /// The `WordPress` installation whose resources the archive captures.
    pub site: Site,
    /// The fixed archive cutoff, when at least one paginated request records it.
    pub before: Option<Timestamp>,
    /// The last checkpoint backed by a complete capture group.
    pub checkpoint: Checkpoint,
    /// Supported and custom collections in their final probing order.
    pub endpoints: Vec<Collection>,
    /// Probe results captured in or restored while replaying this archive.
    pub probes: Vec<ProbeResult>,
    /// Problems found while linking or replaying records.
    pub warnings: Vec<String>,
}

/// The parts of a [`ResumeInfo`].
#[verifier::ext_equal]
pub struct InfoView {
    pub site: SiteView,
    pub before: Option<Moment>,
    pub checkpoint: CheckpointView,
    pub endpoints: Seq<CollectionView>,
    pub probes: Seq<ProbeView>,
    pub warnings: Seq<Seq<char>>,
}

impl DeepView for ResumeInfo {
    type V = InfoView;

    open spec fn deep_view(&self) -> InfoView {
        InfoView {
            site: self.site.deep_view(),
            before: self.before.deep_view(),
            checkpoint: self.checkpoint.deep_view(),
            endpoints: self.endpoints.deep_view(),
            probes: self.probes.deep_view(),
            warnings: self.warnings.deep_view(),
        }
    }
}

impl Clone for ResumeInfo {
    fn clone(&self) -> (copy: Self)
        ensures
            copy.deep_view() == self.deep_view(),
    {
        ResumeInfo {
            site: self.site.clone(),
            before: self.before,
            checkpoint: self.checkpoint.clone(),
            endpoints: copied_collections(&self.endpoints),
            probes: copied_probes(&self.probes),
            warnings: text::copied_all(&self.warnings),
        }
    }
}

/// The index of the first capture of a site's REST API among the first `count`.
pub open spec fn first_of_site(groups: Seq<GroupView>, site: SiteView, count: nat) -> Option<int>
    decreases count,
{
    if count == 0 {
        None
    } else {
        match first_of_site(groups, site, (count - 1) as nat) {
            Some(index) => Some(index),
            None => if is_made_of(groups[count - 1].url, site) {
                Some(count - 1)
            } else {
                None
            },
        }
    }
}

proof fn lemma_first_in_prefix(groups: Seq<GroupView>, site: SiteView, count: nat, total: nat)
    requires
        count <= total,
        first_of_site(groups, site, count) is Some,
    ensures
        first_of_site(groups, site, total) == first_of_site(groups, site, count),
    decreases total - count,
{
    if count < total {
        lemma_first_in_prefix(groups, site, count + 1, total);
    }
}

fn find_first(groups: &Vec<CaptureGroup>, site: &Site) -> (index: Option<usize>)
    ensures
        match index {
            Some(index) => index < groups@.len() && first_of_site(
                groups.deep_view(),
                site.deep_view(),
                groups@.len(),
            ) == Some(index as int),
            None => first_of_site(groups.deep_view(), site.deep_view(), groups@.len()) is None,
        },
{
    let ghost all = groups.deep_view();
    let mut index: usize = 0;
    while index < groups.len()
        invariant
            index <= groups@.len(),
            all == groups.deep_view(),
            first_of_site(all, site.deep_view(), index as nat) is None,
        decreases groups@.len() - index,
    {
        assert(all[index as int].url == groups@[index as int].url@);
        if belongs_to_site(groups[index].url.as_str(), site) {
            proof {
                lemma_first_in_prefix(all, site.deep_view(), (index + 1) as nat, all.len());
            }
            return Some(index);
        }
        index += 1;
    }
    None
}

/// The state of the driver that made an archive, when it began: at the start where the archive
/// begins with the API root, and otherwise at the checkpoint before its first request.
pub open spec fn initial_state(
    first: Seq<char>,
    groups: Seq<GroupView>,
    site: SiteView,
    before: Moment,
    custom: Seq<CollectionView>,
    probes: Seq<ProbeView>,
) -> Option<DriverView> {
    if first == site.url("wp-json"@) {
        Some(DriverView::beginning(site, before))
    } else if probes.len() == 0 {
        match starting_point(first, groups, site, custom) {
            Some(resumption) => Some(DriverView::resumed(site, before, resumption, custom)),
            None => None,
        }
    } else {
        match starting_point(
            first,
            groups,
            site,
            probes.map_values(|probe: ProbeView| probe.collection),
        ) {
            Some(resumption) => Some(
                DriverView::resumed_with_probes(site, before, resumption, probes),
            ),
            None => None,
        }
    }
}

/// The warning given when page requests carry different cutoffs.
pub open spec fn cutoff_warnings(groups: Seq<GroupView>) -> Seq<Seq<char>> {
    if has_conflicting_cutoffs(groups) {
        let first = first_cutoff(groups, groups.len())->0;
        seq![
            "paginated requests contain conflicting before cutoffs; using "@ + clock::full_text(
                first.seconds,
                first.nanos,
            ),
        ]
    } else {
        Seq::empty()
    }
}

/// What is recovered of a site's archive from its captures.
pub open spec fn recovered_site(
    groups: Seq<GroupView>,
    problems: Seq<Seq<char>>,
    site: SiteView,
    probes: Seq<ProbeView>,
    restored_before: Option<Moment>,
    sizes: Seq<PerPageView>,
) -> Result<InfoView, ErrorView> {
    let before = first_cutoff(groups, groups.len());
    let (custom, unclear) = known_customs(groups, site);
    match first_of_site(groups, site, groups.len()) {
        None => Err(ErrorView::NoWordPressRequests),
        Some(first) => {
            let cutoff = recovered_cutoff(groups, restored_before);
            match initial_state(groups[first].url, groups, site, cutoff, custom, probes) {
                None => Err(ErrorView::StartingRequest(groups[first].url)),
                Some(driver) => {
                    let (advanced, stopped) = replayed(
                        groups,
                        options::configured(driver, sizes),
                        0,
                    );
                    Ok(
                        InfoView {
                            site,
                            before,
                            checkpoint: advanced.checkpoint(),
                            endpoints: merged(advanced.endpoints, custom),
                            probes: if probes.len() == 0 {
                                advanced.probe_results()
                            } else {
                                probes
                            },
                            warnings: problems + cutoff_warnings(groups) + unclear + stopped,
                        },
                    )
                },
            }
        },
    }
}

/// What is recovered of an archive from its records, or why nothing is.
pub open spec fn recovered(
    records: Seq<RecordView>,
    probes: Seq<ProbeView>,
    restored_before: Option<Moment>,
    sizes: Seq<PerPageView>,
) -> Result<InfoView, ErrorView> {
    let (groups, problems) = collected(records);
    match lint::archived_site(groups, groups.len()) {
        Err(lint::ErrorView::NoWordPressRequests) => Err(ErrorView::NoWordPressRequests),
        Err(lint::ErrorView::Site { url, source }) => Err(ErrorView::Site { url, source }),
        Ok(site) => recovered_site(groups, problems, site, probes, restored_before, sizes),
    }
}

/// The state of a driver after the captures of a session, in order.
pub open spec fn driven(driver: DriverView, captures: Seq<CaptureView>) -> DriverView
    decreases captures.len(),
{
    if captures.len() == 0 {
        driver
    } else {
        driven(driver, captures.drop_last()).inspected(captures.last()).0
    }
}

/// Whether a capture is of what the driver requests next, and the driver goes on after it.
pub open spec fn is_accepted(driver: DriverView, capture: CaptureView) -> bool {
    &&& driver.next() matches Some(request) && request.url == capture.url
    &&& driver.inspected(capture).1.error is None
}

/// Whether a session's captures are what a driver requests, each after the ones before it.
pub open spec fn is_session(driver: DriverView, captures: Seq<CaptureView>) -> bool {
    forall|index: int|
        0 <= index < captures.len() ==> is_accepted(
            driven(driver, captures.take(index)),
            #[trigger] captures[index],
        )
}

/// Whether a group is the whole record of a capture that no redirect led to.
pub open spec fn stores(group: GroupView, capture: CaptureView) -> bool {
    &&& group.url == capture.url
    &&& group.metadata.len() > 0
    &&& group.response matches Some(response) && {
        &&& response.truncation is None
        &&& response.message.head matches Some(head) && head.status == capture.head.status
        &&& !(300 <= capture.head.status < 400) || capture.head.status == 304
        &&& response.message.capture == Some(capture.head)
        &&& response.message.entity == Ok::<PayloadView, Seq<char>>(capture.payload)
    }
}

/// Whether captures begin with the whole records of a session, each request made once, and end
/// there or with a capture of the next request that lacks its response or metadata.
pub open spec fn are_of_session(
    groups: Seq<GroupView>,
    driver: DriverView,
    captures: Seq<CaptureView>,
) -> bool {
    &&& captures.len() <= groups.len()
    &&& forall|index: int|
        0 <= index < captures.len() ==> stores(groups[index], #[trigger] captures[index])
    &&& forall|index: int|
        0 <= index < captures.len() && index + 1 < groups.len() ==> (
        #[trigger] groups[index]).url != groups[index + 1].url
    &&& captures.len() < groups.len() ==> {
        let broken = groups[captures.len() as int];
        &&& broken.response is None || broken.metadata.len() == 0
        &&& driven(driver, captures).next() matches Some(request) ==> request.url == broken.url
    }
}

/// Replaying the captures of a session takes a driver to where the session took it; a capture
/// that lacks its response or metadata takes it no further.
pub proof fn replaying_follows_the_session(
    groups: Seq<GroupView>,
    driver: DriverView,
    captures: Seq<CaptureView>,
)
    requires
        is_session(driver, captures),
        are_of_session(groups, driver, captures),
    ensures
        replayed(groups, driver, 0).0 == driven(driver, captures),
{
    lemma_replayed_from(groups, driver, captures, 0);
    assert(captures.take(0) =~= Seq::empty());
}

proof fn lemma_replayed_from(
    groups: Seq<GroupView>,
    driver: DriverView,
    captures: Seq<CaptureView>,
    from: int,
)
    requires
        is_session(driver, captures),
        are_of_session(groups, driver, captures),
        0 <= from <= captures.len(),
    ensures
        replayed(groups, driven(driver, captures.take(from)), from).0 == driven(driver, captures),
    decreases captures.len() - from,
{
    let state = driven(driver, captures.take(from));
    if from < captures.len() {
        let capture = captures[from];
        assert(is_accepted(state, capture));
        assert(stores(groups[from], capture));
        assert(next_capture(groups, capture.url, from) == Some(from));
        assert(followed(groups, from, capture.url) == (ChainView::Complete {
            after: from + 1,
            terminal: from,
        }));
        assert(settled(groups, from, capture.url) == (ChainView::Complete {
            after: from + 1,
            terminal: from,
        }));
        assert(captures.take(from + 1).drop_last() =~= captures.take(from));
        lemma_replayed_from(groups, driver, captures, from + 1);
    } else {
        assert(captures.take(from) =~= captures);
        if from < groups.len() {
            if let Some(request) = state.next() {
                assert(next_capture(groups, request.url, from) == Some(from));
                assert(followed(groups, from, request.url) is Broken);
            }
        }
    }
}

/// The cutoff that is recovered from captures.
pub open spec fn recovered_cutoff(groups: Seq<GroupView>, restored: Option<Moment>) -> Moment {
    match (first_cutoff(groups, groups.len()), restored) {
        (Some(before), _) => before,
        (None, Some(before)) => before,
        (None, None) => Moment { seconds: 0, nanos: 0 },
    }
}

/// A state that carries another cutoff.
pub open spec fn with_cutoff(driver: DriverView, before: Moment) -> DriverView {
    DriverView { before, ..driver }
}

/// Whether two points in time have one notation at whole-second precision.
pub open spec fn are_written_alike(first: Moment, second: Moment) -> bool {
    clock::whole_second_text(first.seconds, first.nanos) == clock::whole_second_text(
        second.seconds,
        second.nanos,
    )
}

/// What a driver requests and makes of a capture does not depend on the cutoff, but for the way
/// that is written in the URL of a page.
proof fn lemma_with_cutoff(driver: DriverView, before: Moment, capture: CaptureView)
    requires
        driver.current is None || are_written_alike(driver.before, before),
    ensures
        with_cutoff(driver, before).next() == driver.next(),
        with_cutoff(driver, before).inspected(capture) == (
            with_cutoff(driver.inspected(capture).0, before),
            driver.inspected(capture).1,
        ),
{
    assert(forall|name: Seq<char>|
        with_cutoff(driver, before).per_page_for(name) == #[trigger] driver.per_page_for(name));
}

proof fn lemma_driven(driver: DriverView, captures: Seq<CaptureView>)
    ensures
        driven(driver, captures).before == driver.before,
        driven(driver, captures).site == driver.site,
        driver.endpoints.is_prefix_of(driven(driver, captures).endpoints),
    decreases captures.len(),
{
    if captures.len() > 0 {
        lemma_driven(driver, captures.drop_last());
        archive::collections_only_grow_and_stay_distinct(
            driven(driver, captures.drop_last()),
            captures.last(),
        );
    }
}

proof fn lemma_driven_in_turn(driver: DriverView, captures: Seq<CaptureView>, count: int)
    requires
        0 <= count <= captures.len(),
    ensures
        driven(driver, captures.take(count)).endpoints.is_prefix_of(
            driven(driver, captures).endpoints,
        ),
    decreases captures.len() - count,
{
    if count < captures.len() {
        lemma_driven_in_turn(driver, captures, count + 1);
        assert(captures.take(count + 1).drop_last() =~= captures.take(count));
        archive::collections_only_grow_and_stay_distinct(
            driven(driver, captures.take(count)),
            captures[count],
        );
    } else {
        assert(captures.take(count) =~= captures);
    }
}

proof fn lemma_driven_with_cutoff(driver: DriverView, before: Moment, captures: Seq<CaptureView>)
    requires
        forall|index: int|
            0 <= index < captures.len() ==> driven(
                driver,
                #[trigger] captures.take(index),
            ).current is None || are_written_alike(driver.before, before),
    ensures
        driven(with_cutoff(driver, before), captures) == with_cutoff(
            driven(driver, captures),
            before,
        ),
    decreases captures.len(),
{
    if captures.len() > 0 {
        let earlier = captures.drop_last();
        assert(captures.take(captures.len() - 1) =~= earlier);
        assert forall|index: int| 0 <= index < earlier.len() implies driven(
            driver,
            #[trigger] earlier.take(index),
        ).current is None || are_written_alike(driver.before, before) by {
            assert(earlier.take(index) =~= captures.take(index));
        }
        lemma_driven_with_cutoff(driver, before, earlier);
        lemma_driven(driver, earlier);
        lemma_with_cutoff(driven(driver, earlier), before, captures.last());
    }
}

/// Whether no collection that a driver knows has a question mark or a hash sign in its name.
pub open spec fn has_bare_names(driver: DriverView) -> bool {
    forall|index: int|
        0 <= index < driver.endpoints.len() ==> web::is_bare(
            (#[trigger] driver.endpoints[index]).name(),
        )
}

spec fn pages_bare_names(driver: DriverView) -> bool {
    &&& driver.current matches Some(series) ==> web::is_bare(series.endpoint.name())
    &&& forall|index: int|
        0 <= index < driver.pending.len() ==> web::is_bare(
            (#[trigger] driver.pending[index]).endpoint.name(),
        )
}

/// A session pages the collections that it knows.
proof fn lemma_pages_bare_names(driver: DriverView, captures: Seq<CaptureView>, count: int)
    requires
        driver.current is None,
        driver.pending.len() == 0,
        0 <= count <= captures.len(),
        has_bare_names(driven(driver, captures)),
    ensures
        has_bare_names(driven(driver, captures.take(count))),
        pages_bare_names(driven(driver, captures.take(count))),
    decreases count,
{
    let state = driven(driver, captures.take(count));
    lemma_driven_in_turn(driver, captures, count);
    assert forall|index: int| 0 <= index < state.endpoints.len() implies web::is_bare(
        (#[trigger] state.endpoints[index]).name(),
    ) by {
        assert(state.endpoints[index] == driven(driver, captures).endpoints[index]);
    }
    if count > 0 {
        lemma_pages_bare_names(driver, captures, count - 1);
        assert(captures.take(count).drop_last() =~= captures.take(count - 1));
        assert(captures.take(count).last() == captures[count - 1]);
        let earlier = driven(driver, captures.take(count - 1));
        if earlier.next_probe < earlier.endpoints.len() {
            assert(web::is_bare(earlier.endpoints[earlier.next_probe as int].name()));
        }
    }
}

/// What a request that a driver makes carries for a cutoff: its own, to the second, where it is for
/// a page, and none otherwise.
proof fn lemma_request_cutoff(driver: DriverView, url: Seq<char>)
    requires
        web::is_bare(driver.site.root.href),
        clock::reads_back(driver.before),
        has_bare_names(driver),
        pages_bare_names(driver),
        driver.next() matches Some(request) && request.url == url,
        web::parsed_address(url) is Ok,
        web::is_read(url),
    ensures
        cutoff_of(url) == if driver.current is Some {
            Some(Moment { seconds: driver.before.seconds, nanos: 0 })
        } else {
            None
        },
{
    match driver.current {
        Some(series) => {
            let name = series.endpoint.name();
            a_page_request_gives_back_its_cutoff(
                driver.site,
                name,
                driver.before,
                (series.page + 1) as nat,
                driver.per_page_for(name) as nat,
            );
        },
        None => {
            lemma_bare_requests(driver, url);
            reveal_strlit("?");
            assert("?"@ =~= seq!['?']);
            text::lemma_no_split(url, '?');
        },
    }
}

proof fn lemma_bare_requests(driver: DriverView, url: Seq<char>)
    requires
        web::is_bare(driver.site.root.href),
        has_bare_names(driver),
        driver.current is None,
        driver.next() matches Some(request) && request.url == url,
    ensures
        web::is_bare(url),
{
    if driver.next_root < 8 {
        reveal_strlit("wp-json");
        reveal_strlit("wp-json/wp/v2");
        reveal_strlit("wp-json/wp/v2/types");
        reveal_strlit("wp-json/wp/v2/taxonomies");
        reveal_strlit("wp-json/wp/v2/block-types");
        reveal_strlit("wp-json/wp/v2/block-patterns/categories");
        reveal_strlit("wp-json/wp/v2/block-patterns/patterns");
        reveal_strlit("wp-json/wp/v2/menu-locations");
        assert(web::is_bare(ROOT_ENDPOINTS@[driver.next_root as int]@));
    } else {
        reveal_strlit("wp-json/wp/v2/");
        assert(web::is_bare("wp-json/wp/v2/"@));
        assert(web::is_bare(driver.endpoints[driver.next_probe as int].name()));
    }
}

proof fn lemma_first_cutoff(groups: Seq<GroupView>, count: nat)
    requires
        count <= groups.len(),
    ensures
        match first_cutoff(groups, count) {
            Some(cutoff) => exists|index: int|
                0 <= index < count && cutoff_of((#[trigger] groups[index]).url) == Some(cutoff),
            None => forall|index: int|
                0 <= index < count ==> cutoff_of((#[trigger] groups[index]).url) is None,
        },
    decreases count,
{
    if count > 0 {
        lemma_first_cutoff(groups, (count - 1) as nat);
        if first_cutoff(groups, count) is Some && first_cutoff(groups, (count - 1) as nat) is None {
            assert(cutoff_of(groups[count - 1].url) == first_cutoff(groups, count));
        }
    }
}

/// Whether every capture's URL is an address and is read as it stands, and those after a session's
/// captures carry no other cutoff than the session's.
pub open spec fn are_read(groups: Seq<GroupView>, before: Moment, captures: Seq<CaptureView>) -> bool {
    &&& forall|index: int|
        0 <= index < groups.len() ==> web::parsed_address((#[trigger] groups[index]).url) is Ok
            && web::is_read(groups[index].url)
    &&& forall|index: int|
        captures.len() <= index < groups.len() ==> {
            let cutoff = cutoff_of((#[trigger] groups[index]).url);
            cutoff is None || cutoff == Some(Moment { seconds: before.seconds, nanos: 0 })
        }
}

/// A session's captures carry its cutoff, to the second, where they are of pages.
proof fn lemma_session_cutoffs(
    groups: Seq<GroupView>,
    driver: DriverView,
    captures: Seq<CaptureView>,
    index: int,
)
    requires
        web::is_bare(driver.site.root.href),
        clock::reads_back(driver.before),
        driver.current is None,
        driver.pending.len() == 0,
        is_session(driver, captures),
        are_of_session(groups, driver, captures),
        are_read(groups, driver.before, captures),
        has_bare_names(driven(driver, captures)),
        0 <= index <= captures.len(),
        index < groups.len(),
        index == captures.len() ==> driven(driver, captures).next() is Some,
    ensures
        cutoff_of(groups[index].url) == if driven(driver, captures.take(index)).current is Some {
            Some(Moment { seconds: driver.before.seconds, nanos: 0 })
        } else {
            None
        },
{
    let state = driven(driver, captures.take(index));
    if index < captures.len() {
        assert(is_accepted(state, captures[index]));
        assert(stores(groups[index], captures[index]));
    } else {
        assert(captures.take(index) =~= captures);
    }
    lemma_driven(driver, captures.take(index));
    lemma_pages_bare_names(driver, captures, index);
    lemma_request_cutoff(state, groups[index].url);
}

/// A session is one of a driver with another cutoff too, where that is written alike in the pages
/// it requests.
#[verifier::spinoff_prover]
#[verifier::rlimit(60)]
proof fn lemma_session_with_cutoff(
    groups: Seq<GroupView>,
    driver: DriverView,
    captures: Seq<CaptureView>,
    before: Moment,
)
    requires
        is_session(driver, captures),
        are_of_session(groups, driver, captures),
        forall|index: int|
            0 <= index < captures.len() || (index == captures.len() < groups.len()
                && driven(driver, captures).next() is Some) ==> driven(
                driver,
                #[trigger] captures.take(index),
            ).current is None || are_written_alike(driver.before, before),
    ensures
        is_session(with_cutoff(driver, before), captures),
        are_of_session(groups, with_cutoff(driver, before), captures),
        driven(with_cutoff(driver, before), captures) == with_cutoff(
            driven(driver, captures),
            before,
        ),
{
    let replayer = with_cutoff(driver, before);
    assert forall|index: int| 0 <= index < captures.len() implies is_accepted(
        driven(replayer, captures.take(index)),
        #[trigger] captures[index],
    ) by {
        let earlier = captures.take(index);
        assert(is_accepted(driven(driver, earlier), captures[index]));
        assert forall|place: int| 0 <= place < earlier.len() implies driven(
            driver,
            #[trigger] earlier.take(place),
        ).current is None || are_written_alike(driver.before, before) by {
            assert(earlier.take(place) =~= captures.take(place));
        }
        lemma_driven_with_cutoff(driver, before, earlier);
        lemma_driven(driver, earlier);
        lemma_with_cutoff(driven(driver, earlier), before, captures[index]);
    }
    lemma_driven_with_cutoff(driver, before, captures);
    lemma_driven(driver, captures);
    if captures.len() < groups.len() {
        let state = driven(driver, captures);
        assert(captures.take(captures.len() as int) =~= captures);
        if state.next() is Some {
            lemma_with_cutoff(state, before, arbitrary());
        } else {
            assert(with_cutoff(state, before).next() is None);
        }
    }
}

/// An archive gives back the checkpoint of the session that wrote it, though its last capture may
/// lack its response or metadata, and the session's cutoff, to the second, once a page has been
/// requested.
#[verifier::rlimit(30)]
pub proof fn an_archive_gives_back_its_checkpoint(
    records: Seq<RecordView>,
    site: SiteView,
    before: Moment,
    sizes: Seq<PerPageView>,
    captures: Seq<CaptureView>,
)
    requires
        web::is_bare(site.root.href),
        clock::reads_back(before),
        ({
            let groups = collected(records).0;
            let driver = options::configured(DriverView::beginning(site, before), sizes);
            &&& lint::archived_site(groups, groups.len()) == Ok::<SiteView, lint::ErrorView>(site)
            &&& captures.len() > 0
            &&& is_session(driver, captures)
            &&& are_of_session(groups, driver, captures)
            &&& are_read(groups, before, captures)
            &&& has_bare_names(driven(driver, captures))
        }),
    ensures
        ({
            let driver = options::configured(DriverView::beginning(site, before), sizes);
            recovered(records, Seq::empty(), None, sizes) matches Ok(info) && {
                &&& info.site == site
                &&& info.checkpoint == driven(driver, captures).checkpoint()
                &&& info.before is Some ==> info.before == Some(
                    Moment { seconds: before.seconds, nanos: 0 },
                )
                &&& info.before is None ==> forall|index: int|
                    0 <= index < captures.len() ==> driven(
                        driver,
                        #[trigger] captures.take(index),
                    ).current is None
            }
        }),
{
    let groups = collected(records).0;
    let driver = options::configured(DriverView::beginning(site, before), sizes);
    let last = captures.len() as int;
    assert forall|index: int|
        0 <= index < last || (index == last < groups.len() && driven(
            driver,
            captures,
        ).next() is Some) implies cutoff_of((#[trigger] groups[index]).url) == if driven(
        driver,
        captures.take(index),
    ).current is Some {
        Some(Moment { seconds: before.seconds, nanos: 0 })
    } else {
        None
    } by {
        lemma_session_cutoffs(groups, driver, captures, index);
    }
    lemma_first_cutoff(groups, groups.len());
    let cutoff = recovered_cutoff(groups, None);
    assert forall|index: int|
        0 <= index < last || (index == last < groups.len() && driven(
            driver,
            captures,
        ).next() is Some) implies driven(driver, #[trigger] captures.take(index)).current is None
        || are_written_alike(before, cutoff) by {
        assert(cutoff_of(groups[index].url) is None || first_cutoff(groups, groups.len()) is Some);
    }
    lemma_session_with_cutoff(groups, driver, captures, cutoff);
    let replayer = with_cutoff(driver, cutoff);
    assert(is_accepted(driven(replayer, captures.take(0)), captures[0]));
    assert(captures.take(0) =~= Seq::empty());
    assert(stores(groups[0], captures[0]));
    assert(groups[0].url == site.url("wp-json"@));
    assert(is_made_of(groups[0].url, site));
    assert(first_of_site(groups, site, 0) is None);
    assert(first_of_site(groups, site, 1) == Some(0int));
    lemma_first_in_prefix(groups, site, 1, groups.len());
    replaying_follows_the_session(groups, replayer, captures);
}

fn initial_driver(
    first: &CaptureGroup,
    groups: &Vec<CaptureGroup>,
    site: &Site,
    before: Timestamp,
    custom: &Vec<Collection>,
    probes: &Vec<ProbeResult>,
) -> (driver: Result<ArchiveDriver, Error>)
    ensures
        match driver {
            Ok(driver) => initial_state(
                first.url@,
                groups.deep_view(),
                site.deep_view(),
                before@,
                custom.deep_view(),
                probes.deep_view(),
            ) == Some(driver.deep_view()) && driver.deep_view().is_valid(),
            Err(error) => initial_state(
                first.url@,
                groups.deep_view(),
                site.deep_view(),
                before@,
                custom.deep_view(),
                probes.deep_view(),
            ) is None && error.deep_view() == ErrorView::StartingRequest(first.url@),
        },
{
    if text::same(first.url.as_str(), site.url("wp-json").as_str()) {
        return Ok(ArchiveDriver::new(site.clone(), before));
    }
    if probes.len() == 0 {
        let resumption = starting_resumption(first, groups, site, custom)?;
        Ok(ArchiveDriver::resume(site.clone(), before, resumption, copied_collections(custom)))
    } else {
        let endpoints = archive::probed_collections(probes);
        let resumption = starting_resumption(first, groups, site, &endpoints)?;
        Ok(
            ArchiveDriver::resume_with_probes(
                site.clone(),
                before,
                resumption,
                copied_probes(probes),
            ),
        )
    }
}

fn recover(
    groups: Vec<CaptureGroup>,
    problems: Vec<String>,
    site: Site,
    probes: &Vec<ProbeResult>,
    restored_before: Option<Timestamp>,
    per_page: &PerPageOptions,
) -> (info: Result<ResumeInfo, Error>)
    requires
        options::are_page_sizes(per_page.deep_view()),
    ensures
        match info {
            Ok(info) => recovered_site(
                groups.deep_view(),
                problems.deep_view(),
                site.deep_view(),
                probes.deep_view(),
                restored_before.deep_view(),
                per_page.deep_view(),
            ) == Ok::<InfoView, ErrorView>(info.deep_view())
                && info.deep_view().checkpoint.has_room(),
            Err(error) => recovered_site(
                groups.deep_view(),
                problems.deep_view(),
                site.deep_view(),
                probes.deep_view(),
                restored_before.deep_view(),
                per_page.deep_view(),
            ) == Err::<InfoView, ErrorView>(error.deep_view()),
        },
{
    let ghost all = groups.deep_view();
    let ghost problem_texts = problems.deep_view();
    let mut warnings = problems;
    let (before, conflicting) = find_cutoff(&groups);
    if conflicting {
        if let Some(before) = &before {
            push_warning(
                &mut warnings,
                text::joined(
                    "paginated requests contain conflicting before cutoffs; using ",
                    before.rendered_in_full().as_str(),
                ),
            );
        }
    }
    proof {
        if has_conflicting_cutoffs(all) && first_cutoff(all, all.len()) is None {
            let index = choose|index: int|
                0 <= index < all.len() && cutoff_of((#[trigger] all[index]).url) is Some
                    && cutoff_of(all[index].url) != first_cutoff(all, all.len());
            lemma_cutoff_is_found(all, index, all.len());
        }
    }
    assert(warnings.deep_view() =~= problem_texts + cutoff_warnings(all));
    let custom = custom_collections(&groups, &site, &mut warnings);
    let first = match find_first(&groups, &site) {
        Some(first) => first,
        None => {
            return Err(Error::NoWordPressRequests);
        },
    };
    let cutoff = match (before, restored_before) {
        (Some(before), _) => before,
        (None, Some(before)) => before,
        (None, None) => Timestamp::epoch(),
    };
    assert(all[first as int].url == groups@[first as int].url@);
    let driver = initial_driver(&groups[first], &groups, &site, cutoff, &custom, probes)?;
    let mut driver = per_page.configure(driver);
    replay(&groups, &mut driver, &mut warnings);
    let checkpoint = driver.checkpoint();
    let recovered_probes = if probes.len() == 0 {
        driver.probe_results()
    } else {
        copied_probes(probes)
    };
    let endpoints = merge_endpoints(driver.endpoints(), &custom);
    Ok(
        ResumeInfo {
            site,
            before,
            checkpoint,
            endpoints,
            probes: recovered_probes,
            warnings,
        },
    )
}

/// Where a page request carries a cutoff, there is a first one.
proof fn lemma_cutoff_is_found(groups: Seq<GroupView>, index: int, count: nat)
    requires
        0 <= index < count,
        cutoff_of(groups[index].url) is Some,
    ensures
        first_cutoff(groups, count) is Some,
    decreases count,
{
    if index < count - 1 {
        lemma_cutoff_is_found(groups, index, (count - 1) as nat);
    }
}

/// Inspect an archive's records and recover its last durable archive checkpoint.
///
/// A request, its linked response or revisit, and the response's linked metadata record must all
/// be present for the capture to advance the checkpoint. Missing, orphaned, duplicated, truncated,
/// or unreadable capture records are returned as warnings.
///
/// # Errors
///
/// Returns [`Error`] when the records do not contain enough `WordPress` request information to
/// identify the archive traversal.
pub fn inspect_archive(records: Vec<Record>) -> (info: Result<ResumeInfo, Error>)
    ensures
        match info {
            Ok(info) => recovered(records.deep_view(), Seq::empty(), None, Seq::empty()) == Ok::<
                InfoView,
                ErrorView,
            >(info.deep_view()) && info.deep_view().checkpoint.has_room(),
            Err(error) => recovered(
                records.deep_view(),
                Seq::empty(),
                None,
                Seq::empty(),
            ) == Err::<InfoView, ErrorView>(error.deep_view()),
        },
{
    inspect_archive_with_config(records, &PerPageOptions::none())
}

/// Inspect an archive after applying configuration to its reconstructed driver.
///
/// This is useful when configuration affects replay-derived state, such as page counts inferred
/// from collection probes at a configured page size.
///
/// # Errors
///
/// Returns [`Error`] under the same conditions as [`inspect_archive`].
pub fn inspect_archive_with_config(records: Vec<Record>, per_page: &PerPageOptions) -> (info: Result<
    ResumeInfo,
    Error,
>)
    requires
        options::are_page_sizes(per_page.deep_view()),
    ensures
        match info {
            Ok(info) => recovered(
                records.deep_view(),
                Seq::empty(),
                None,
                per_page.deep_view(),
            ) == Ok::<InfoView, ErrorView>(info.deep_view())
                && info.deep_view().checkpoint.has_room(),
            Err(error) => recovered(
                records.deep_view(),
                Seq::empty(),
                None,
                per_page.deep_view(),
            ) == Err::<InfoView, ErrorView>(error.deep_view()),
        },
{
    let probes: Vec<ProbeResult> = Vec::new();
    assert(probes.deep_view() == Seq::<ProbeView>::empty());
    inspect_archive_with_restored_probes_and_config(records, &probes, None, per_page)
}

/// Inspect one continuation archive using probe results recovered from its first segment.
///
/// Restored probes let replay advance directly from the continued collection to later successful
/// collections, including for continuation files produced without redundant bare probes.
/// `before` supplies the initial segment's cutoff when this segment contains no paginated URL
/// from which to recover it.
///
/// # Errors
///
/// Returns [`Error`] under the same conditions as [`inspect_archive`].
pub fn inspect_archive_with_restored_probes(
    records: Vec<Record>,
    probes: &Vec<ProbeResult>,
    before: Option<Timestamp>,
) -> (info: Result<ResumeInfo, Error>)
    ensures
        match info {
            Ok(info) => recovered(
                records.deep_view(),
                probes.deep_view(),
                before.deep_view(),
                Seq::empty(),
            ) == Ok::<InfoView, ErrorView>(info.deep_view())
                && info.deep_view().checkpoint.has_room(),
            Err(error) => recovered(
                records.deep_view(),
                probes.deep_view(),
                before.deep_view(),
                Seq::empty(),
            ) == Err::<InfoView, ErrorView>(error.deep_view()),
        },
{
    inspect_archive_with_restored_probes_and_config(
        records,
        probes,
        before,
        &PerPageOptions::none(),
    )
}

/// Inspect a continuation archive using restored probes and a configured reconstructed driver.
///
/// # Errors
///
/// Returns [`Error`] under the same conditions as [`inspect_archive_with_restored_probes`].
pub fn inspect_archive_with_restored_probes_and_config(
    records: Vec<Record>,
    probes: &Vec<ProbeResult>,
    before: Option<Timestamp>,
    per_page: &PerPageOptions,
) -> (info: Result<ResumeInfo, Error>)
    requires
        options::are_page_sizes(per_page.deep_view()),
    ensures
        match info {
            Ok(info) => recovered(
                records.deep_view(),
                probes.deep_view(),
                before.deep_view(),
                per_page.deep_view(),
            ) == Ok::<InfoView, ErrorView>(info.deep_view())
                && info.deep_view().checkpoint.has_room(),
            Err(error) => recovered(
                records.deep_view(),
                probes.deep_view(),
                before.deep_view(),
                per_page.deep_view(),
            ) == Err::<InfoView, ErrorView>(error.deep_view()),
        },
{
    let (groups, problems) = collect_groups(records);
    match lint::find_site(&groups) {
        Err(lint::Error::NoWordPressRequests) => Err(Error::NoWordPressRequests),
        Err(lint::Error::Site { url, source }) => Err(Error::Site { url, source }),
        Ok(site) => recover(groups, problems, site, probes, before, per_page),
    }
}

/// A capture has a problem exactly where it lacks its response or its metadata, or its response is
/// cut off; the problems of captures are those of each that has one, in order.
pub proof fn captures_that_are_not_whole_are_problems(groups: Seq<GroupView>, group: GroupView)
    ensures
        group_problem(group) is None <==> group.response is Some && group.metadata.len() > 0
            && group.response->0.truncation is None,
        group_problems(groups) == groups.filter(
            |each: GroupView|
                each.response is None || each.metadata.len() == 0
                    || each.response->0.truncation is Some,
        ).map_values(|each: GroupView| group_problem(each)->0),
    decreases groups.len(),
{
    reveal(Seq::filter);
    if groups.len() > 0 {
        captures_that_are_not_whole_are_problems(groups.drop_last(), group);
    }
}

/// The problems of an archive are those of its records' links, one for each, and those of its
/// captures; there are none exactly where all records are linked and all captures are whole.
pub proof fn every_problem_is_collected(records: Seq<RecordView>)
    ensures
        ({
            let (evidence, problems) = EvidenceView::nothing().observed_all(records);
            let (groups, found) = collected(records);
            &&& groups == evidence.groups
            &&& found.len() == problems.len() + group_problems(groups).len()
            &&& forall|index: int|
                0 <= index < problems.len() ==> found[index] == (#[trigger] problems[index]).message()
        }),
{
}

/// The cutoff of captures is that of the first that carries one, and there is none only where no
/// capture carries any.
pub proof fn the_first_cutoff_is_taken(groups: Seq<GroupView>, count: nat, index: int)
    requires
        0 <= index < count <= groups.len(),
        cutoff_of(groups[index].url) is Some,
    ensures
        first_cutoff(groups, count) is Some,
        (forall|earlier: int|
            0 <= earlier < index ==> cutoff_of((#[trigger] groups[earlier]).url) is None)
            ==> first_cutoff(groups, count) == cutoff_of(groups[index].url),
        exists|source: int|
            0 <= source <= index && cutoff_of((#[trigger] groups[source]).url) == first_cutoff(
                groups,
                count,
            ),
    decreases count,
{
    let before = (count - 1) as nat;
    if index < before {
        the_first_cutoff_is_taken(groups, before, index);
    } else {
        lemma_no_cutoff(groups, before);
        if first_cutoff(groups, before) is None {
            assert(cutoff_of(groups[index].url) == first_cutoff(groups, count));
        }
    }
}

proof fn lemma_no_cutoff(groups: Seq<GroupView>, count: nat)
    requires
        count <= groups.len(),
    ensures
        first_cutoff(groups, count) is Some ==> exists|source: int|
            0 <= source < count && cutoff_of((#[trigger] groups[source]).url) == first_cutoff(
                groups,
                count,
            ),
    decreases count,
{
    if count > 0 {
        let before = (count - 1) as nat;
        lemma_no_cutoff(groups, before);
        if first_cutoff(groups, before) is Some {
            let source = choose|source: int|
                0 <= source < before && cutoff_of((#[trigger] groups[source]).url) == first_cutoff(
                    groups,
                    before,
                );
            assert(cutoff_of(groups[source].url) == first_cutoff(groups, count));
        } else {
            assert(cutoff_of(groups[count - 1].url) == first_cutoff(groups, count));
        }
    }
}

/// Cutoffs conflict exactly where two captures carry different ones, which is warned of once.
pub proof fn different_cutoffs_conflict(groups: Seq<GroupView>)
    ensures
        has_conflicting_cutoffs(groups) <==> exists|first: int, second: int|
            0 <= first < groups.len() && 0 <= second < groups.len() && cutoff_of(
                (#[trigger] groups[first]).url,
            ) is Some && cutoff_of((#[trigger] groups[second]).url) is Some && cutoff_of(
                groups[first].url,
            ) != cutoff_of(groups[second].url),
        cutoff_warnings(groups).len() == (if has_conflicting_cutoffs(groups) {
            1nat
        } else {
            0nat
        }),
{
    let taken = first_cutoff(groups, groups.len());
    lemma_no_cutoff(groups, groups.len());
    if has_conflicting_cutoffs(groups) {
        let index = choose|index: int|
            0 <= index < groups.len() && cutoff_of((#[trigger] groups[index]).url) is Some
                && cutoff_of(groups[index].url) != taken;
        the_first_cutoff_is_taken(groups, groups.len(), index);
        let source = choose|source: int|
            0 <= source < groups.len() && cutoff_of((#[trigger] groups[source]).url) == taken;
        assert(cutoff_of(groups[source].url) != cutoff_of(groups[index].url));
    }
    if exists|first: int, second: int|
        0 <= first < groups.len() && 0 <= second < groups.len() && cutoff_of(
            (#[trigger] groups[first]).url,
        ) is Some && cutoff_of((#[trigger] groups[second]).url) is Some && cutoff_of(
            groups[first].url,
        ) != cutoff_of(groups[second].url) {
        let (first, second) = choose|first: int, second: int|
            0 <= first < groups.len() && 0 <= second < groups.len() && cutoff_of(
                (#[trigger] groups[first]).url,
            ) is Some && cutoff_of((#[trigger] groups[second]).url) is Some && cutoff_of(
                groups[first].url,
            ) != cutoff_of(groups[second].url);
        if cutoff_of(groups[first].url) == taken {
            assert(cutoff_of(groups[second].url) != taken);
        }
    }
}

/// The cutoff of a continued archive is that of its captures, and otherwise the one restored.
pub proof fn an_archives_own_cutoff_is_preferred(groups: Seq<GroupView>, restored: Option<Moment>)
    ensures
        first_cutoff(groups, groups.len()) matches Some(before) ==> recovered_cutoff(
            groups,
            restored,
        ) == before,
        first_cutoff(groups, groups.len()) is None && restored is Some ==> recovered_cutoff(
            groups,
            restored,
        ) == restored->0,
{
}

/// A capture without its response or metadata breaks a chain. One that is cut off is followed by
/// another of the request, if that is made again next. One that is whole completes the chain unless
/// it is a redirect, and a redirect leads on to the capture of its target, if that is next.
pub proof fn chains_follow_their_redirects(groups: Seq<GroupView>, index: int, requested: Seq<char>)
    requires
        0 <= index < groups.len(),
    ensures
        ({
            let group = groups[index];
            let chain = followed(groups, index, requested);
            let head = group.response->0.message.head;
            let redirects = head is Some && 300 <= head->0.status < 400 && head->0.status != 304;
            let location = evidence::header_text(head->0.location);
            let target = web::resolved_address(group.response->0.url, location->0);
            let next = index + 1;
            if group.response is None || group.metadata.len() == 0 {
                chain == ChainView::Broken(Seq::empty())
            } else if group.response->0.truncation is Some {
                &&& next < groups.len() && groups[next].url == requested ==> chain == (
                ChainView::Retry { next })
                &&& !(next < groups.len() && groups[next].url == requested) ==> chain is Broken
            } else if !redirects {
                &&& head is Some ==> chain == (ChainView::Complete { after: next, terminal: index })
                &&& head is None ==> (chain matches ChainView::Broken(warnings) && warnings.len()
                    == 1)
            } else if location is Some && target is Ok && next < groups.len() && groups[next].url
                == target->Ok_0 {
                chain == followed(groups, next, requested)
            } else {
                chain matches ChainView::Broken(warnings) && warnings.len() == 1
            }
        }),
{
}

/// A request is settled by its first complete chain whose answer is not one that is asked again, and
/// such an answer is passed over exactly where the request is made again next.
pub proof fn attempts_are_repeated_until_answered(
    groups: Seq<GroupView>,
    attempt: int,
    requested: Seq<char>,
)
    requires
        0 <= attempt,
    ensures
        match followed(groups, attempt, requested) {
            ChainView::Broken(warnings) => settled(groups, attempt, requested)
                == ChainView::Broken(warnings),
            ChainView::Retry { next } => settled(groups, attempt, requested) == settled(
                groups,
                next,
                requested,
            ),
            ChainView::Complete { after, terminal } => {
                let status = lint::head_of(groups[terminal])->0.status;
                let temporary = status == 429 || status == 500 || status == 502 || status == 503
                    || status == 504;
                &&& temporary && after < groups.len() && groups[after].url == requested ==> settled(
                    groups,
                    attempt,
                    requested,
                ) == settled(groups, after, requested)
                &&& !(temporary && after < groups.len() && groups[after].url == requested)
                    ==> settled(groups, attempt, requested) == (ChainView::Complete {
                    after,
                    terminal,
                })
            },
        },
{
    lemma_followed(groups, attempt, requested);
}

/// The next capture of a URL is the first of it from a place on.
pub proof fn the_next_capture_is_the_first(groups: Seq<GroupView>, url: Seq<char>, from: int)
    requires
        0 <= from,
    ensures
        match next_capture(groups, url, from) {
            Some(index) => from <= index < groups.len() && groups[index].url == url
                && forall|earlier: int|
                from <= earlier < index ==> (#[trigger] groups[earlier]).url != url,
            None => forall|index: int|
                from <= index < groups.len() ==> (#[trigger] groups[index]).url != url,
        },
    decreases groups.len() - from,
{
    if from < groups.len() && groups[from].url != url {
        the_next_capture_is_the_first(groups, url, from + 1);
    }
}

/// Replaying goes on from each capture that is answered and accepted, in the order of the driver's
/// requests; it stops, without a word, where a request was not captured, and with one where an
/// answer cannot be read or ends the session.
pub proof fn replaying_takes_a_request_at_a_time(
    groups: Seq<GroupView>,
    driver: DriverView,
    from: int,
    index: int,
    after: int,
    terminal: int,
)
    requires
        0 <= from,
        driver.next() is Some,
        next_capture(groups, driver.next()->0.url, from) == Some(index),
        settled(groups, index, driver.next()->0.url) == (ChainView::Complete { after, terminal }),
    ensures
        ({
            let url = driver.next()->0.url;
            let outcome = replayed(groups, driver, from);
            match replayed_capture(groups[terminal], url) {
                Err(warning) => outcome == (driver, seq![warning]),
                Ok(capture) => {
                    let (advanced, inspection) = driver.inspected(capture);
                    &&& capture.url == url
                    &&& inspection.error is None ==> outcome == replayed(groups, advanced, after)
                    &&& inspection.error is Some ==> outcome.0 == advanced && outcome.1.len() == 1
                },
            }
        }),
{
    lemma_next_capture(groups, driver.next()->0.url, from);
    lemma_settled(groups, index, driver.next()->0.url);
}

/// Replaying stops where the driver is done or its request was not captured.
pub proof fn replaying_stops_at_what_was_not_captured(
    groups: Seq<GroupView>,
    driver: DriverView,
    from: int,
)
    requires
        0 <= from,
        driver.next() matches Some(request) ==> forall|index: int|
            from <= index < groups.len() ==> (#[trigger] groups[index]).url != request.url,
    ensures
        replayed(groups, driver, from) == (driver, Seq::<Seq<char>>::empty()),
{
    if let Some(request) = driver.next() {
        the_next_capture_is_the_first(groups, request.url, from);
    }
}

/// The page count of a collection is one that a capture of it advertises, and no capture of it
/// advertises more.
pub proof fn a_collections_total_is_its_greatest(
    groups: Seq<GroupView>,
    site: SiteView,
    name: Seq<char>,
    count: nat,
)
    requires
        count <= groups.len(),
    ensures
        ({
            let total = collection_total(groups, site, name, count);
            &&& forall|index: int|
                0 <= index < count && requested_collection((#[trigger] groups[index]).url, site)
                    == Some(name) && lint::head_of(groups[index]) is Some
                    && evidence::header_count(
                    lint::head_of(groups[index])->0.total_pages,
                ) is Some ==> total is Some && evidence::header_count(
                    lint::head_of(groups[index])->0.total_pages,
                )->0 <= total->0
            &&& total is Some ==> exists|index: int|
                0 <= index < count && requested_collection((#[trigger] groups[index]).url, site)
                    == Some(name) && lint::head_of(groups[index]) is Some
                    && evidence::header_count(lint::head_of(groups[index])->0.total_pages)
                    == total
        }),
    decreases count,
{
    if count > 0 {
        let before = (count - 1) as nat;
        a_collections_total_is_its_greatest(groups, site, name, before);
        let known = collection_total(groups, site, name, before);
        let total = collection_total(groups, site, name, count);
        let group = groups[before as int];
        let advertised = match lint::head_of(group) {
            Some(head) => evidence::header_count(head.total_pages),
            None => None,
        };
        archive::the_greatest_count_bounds_both(known, advertised);
        if total is Some {
            if total == known {
                let index = choose|index: int|
                    0 <= index < before && requested_collection(
                        (#[trigger] groups[index]).url,
                        site,
                    ) == Some(name) && lint::head_of(groups[index]) is Some
                        && evidence::header_count(lint::head_of(groups[index])->0.total_pages)
                        == known;
                assert(requested_collection(groups[index].url, site) == Some(name));
            } else {
                assert(requested_collection(groups[before as int].url, site) == Some(name));
            }
        }
    }
}

/// A continued archive begins before the page that its first request asks for, in the collection
/// that it asks for.
pub proof fn an_archive_starts_before_its_first_request(
    first: Seq<char>,
    groups: Seq<GroupView>,
    site: SiteView,
    endpoints: Seq<CollectionView>,
)
    ensures
        starting_point(first, groups, site, endpoints) matches Some(resumption) ==> {
            &&& requested_page(first) > 0 ==> resumption.last_page + 1 == requested_page(first)
            &&& requested_page(first) == 0 ==> resumption.last_page == 0
            &&& requested_collection(first, site) == Some(resumption.endpoint.name())
        },
        requested_collection(first, site) is None ==> starting_point(
            first,
            groups,
            site,
            endpoints,
        ) is None,
        requested_collection(first, site) is Some && endpoint::names_of(endpoints).contains(
            requested_collection(first, site)->0,
        ) ==> starting_point(first, groups, site, endpoints) is Some,
{
    if let Some(name) = requested_collection(first, site) {
        text::lemma_position(endpoint::names_of(endpoints), name);
    }
}

/// The first capture of a site is made of it, and none before it is.
pub proof fn the_first_capture_of_a_site_is_found(
    groups: Seq<GroupView>,
    site: SiteView,
    count: nat,
)
    requires
        count <= groups.len(),
    ensures
        match first_of_site(groups, site, count) {
            Some(index) => 0 <= index < count && is_made_of(groups[index].url, site)
                && forall|earlier: int|
                0 <= earlier < index ==> !is_made_of((#[trigger] groups[earlier]).url, site),
            None => forall|index: int|
                0 <= index < count ==> !is_made_of((#[trigger] groups[index]).url, site),
        },
    decreases count,
{
    if count > 0 {
        the_first_capture_of_a_site_is_found(groups, site, (count - 1) as nat);
    }
}

/// What a site's archive requests is made of its API.
pub proof fn requests_are_made_of_their_site(driver: DriverView, request: crate::session::RequestView)
    requires
        driver.next() == Some(request),
        driver.next_root <= 8,
    ensures
        is_made_of(request.url, driver.site),
{
    let root = driver.site.root.href;
    reveal_strlit("wp-json");
    reveal_strlit("wp-json/wp/v2/");
    if driver.current is None && driver.next_root < 8 {
        lemma_roots_are_below_the_api(driver.next_root as int);
        let path = ROOT_ENDPOINTS@[driver.next_root as int]@;
        assert((root + path).subrange(0, (root + "wp-json"@).len() as int) =~= root + "wp-json"@);
    } else {
        let url = request.url;
        let front = root + "wp-json/wp/v2/"@;
        assert(front.is_prefix_of(url)) by {
            assert(url.subrange(0, front.len() as int) =~= front);
        }
        assert(url.subrange(0, (root + "wp-json"@).len() as int) =~= root + "wp-json"@);
    }
}

proof fn lemma_roots_are_below_the_api(index: int)
    requires
        0 <= index < 8,
    ensures
        "wp-json"@.is_prefix_of(ROOT_ENDPOINTS@[index]@),
{
    reveal_strlit("wp-json");
    reveal_strlit("wp-json/wp/v2");
    reveal_strlit("wp-json/wp/v2/types");
    reveal_strlit("wp-json/wp/v2/taxonomies");
    reveal_strlit("wp-json/wp/v2/block-types");
    reveal_strlit("wp-json/wp/v2/block-patterns/categories");
    reveal_strlit("wp-json/wp/v2/block-patterns/patterns");
    reveal_strlit("wp-json/wp/v2/menu-locations");
    let path = ROOT_ENDPOINTS@[index]@;
    assert(path.subrange(0, 7) =~= "wp-json"@);
}

/// Merging adds nothing but what was inferred.
pub proof fn merging_adds_nothing_else(
    discovered: Seq<CollectionView>,
    inferred: Seq<CollectionView>,
    index: int,
)
    requires
        0 <= index < merged(discovered, inferred).len(),
    ensures
        discovered.contains(merged(discovered, inferred)[index]) || inferred.contains(
            merged(discovered, inferred)[index],
        ),
    decreases inferred.len(),
{
    if inferred.len() > 0 {
        let before = inferred.drop_last();
        let known = merged(discovered, before);
        let last = inferred.last();
        assert(inferred[inferred.len() - 1] == last);
        if index < known.len() {
            merging_adds_nothing_else(discovered, before, index);
            if before.contains(known[index]) {
                assert(inferred[before.index_of(known[index])] == known[index]);
            }
        }
    } else {
        assert(discovered[index] == merged(discovered, inferred)[index]);
    }
}

/// The registry that led to a custom collection is told by the last metadata of its capture that has
/// fields.
pub proof fn the_last_fields_tell_the_registry(group: GroupView, index: int)
    requires
        0 <= index < group.metadata.len(),
        group.metadata[index].fields,
        forall|later: int|
            index < later < group.metadata.len() ==> !(#[trigger] group.metadata[later]).fields,
    ensures
        last_via(group.metadata) == group.metadata[index].via,
        group.metadata[index].via is None ==> advertising_registry(group) is None,
        group.metadata[index].via matches Some(via) ==> {
            &&& "wp-json/wp/v2/types"@.is_suffix_of(via) ==> advertising_registry(group) == Some(
                Registry::Types,
            )
            &&& !"wp-json/wp/v2/types"@.is_suffix_of(via) && "wp-json/wp/v2/taxonomies"@.is_suffix_of(
                via,
            ) ==> advertising_registry(group) == Some(Registry::Taxonomies)
            &&& !"wp-json/wp/v2/types"@.is_suffix_of(via)
                && !"wp-json/wp/v2/taxonomies"@.is_suffix_of(via) ==> advertising_registry(
                group,
            ) is None
        },
{
    lemma_last_fields(group.metadata, index);
}

proof fn lemma_last_fields(metadata: Seq<evidence::MetadataView>, index: int)
    requires
        0 <= index < metadata.len(),
        metadata[index].fields,
        forall|later: int|
            index < later < metadata.len() ==> !(#[trigger] metadata[later]).fields,
    ensures
        last_via(metadata) == metadata[index].via,
    decreases metadata.len(),
{
    if index < metadata.len() - 1 {
        let before = metadata.drop_last();
        assert(!metadata[metadata.len() - 1].fields);
        assert(before[index] == metadata[index]);
        assert forall|later: int| index < later < before.len() implies !(
        #[trigger] before[later]).fields by {
            assert(before[later] == metadata[later]);
        }
        lemma_last_fields(before, index);
    }
}

/// A custom collection that a request of an archive asks for is known, behind those known before.
pub proof fn requested_customs_are_known(
    groups: Seq<GroupView>,
    site: SiteView,
    custom: Seq<CollectionView>,
    count: nat,
    index: int,
)
    requires
        0 <= index < count <= groups.len(),
        requested_collection(groups[index].url, site) is Some,
        is_custom_name(requested_collection(groups[index].url, site)->0),
    ensures
        custom.is_prefix_of(requested_customs(groups, site, custom, count).0),
        endpoint::names_of(requested_customs(groups, site, custom, count).0).contains(
            requested_collection(groups[index].url, site)->0,
        ),
    decreases count,
{
    let before = (count - 1) as nat;
    let name = requested_collection(groups[index].url, site)->0;
    let earlier = requested_customs(groups, site, custom, before).0;
    let all = requested_customs(groups, site, custom, count).0;
    lemma_customs_grow(groups, site, custom, before);
    lemma_customs_grow(groups, site, custom, count);
    lemma_one_more_capture(groups, site, custom, count);
    if index < before {
        requested_customs_are_known(groups, site, custom, before, index);
        let known = endpoint::names_of(earlier);
        let at = known.index_of(name);
        assert(all[at] == earlier[at]);
        assert(endpoint::names_of(all)[at] == name);
    } else {
        archive::lemma_with_customs_grows(earlier, seq![name], Registry::Types);
        archive::lemma_with_customs_grows(earlier, seq![name], Registry::Taxonomies);
        assert(seq![name][0] == name);
    }
}

proof fn lemma_one_more_capture(
    groups: Seq<GroupView>,
    site: SiteView,
    custom: Seq<CollectionView>,
    count: nat,
)
    requires
        0 < count <= groups.len(),
    ensures
        requested_customs(groups, site, custom, (count - 1) as nat).0.is_prefix_of(
            requested_customs(groups, site, custom, count).0,
        ),
{
    let earlier = requested_customs(groups, site, custom, (count - 1) as nat).0;
    if let Some(name) = requested_collection(groups[count - 1].url, site) {
        archive::lemma_with_customs_grows(earlier, seq![name], Registry::Types);
        archive::lemma_with_customs_grows(earlier, seq![name], Registry::Taxonomies);
    }
    assert(earlier.subrange(0, earlier.len() as int) =~= earlier);
}

proof fn lemma_customs_grow(
    groups: Seq<GroupView>,
    site: SiteView,
    custom: Seq<CollectionView>,
    count: nat,
)
    requires
        count <= groups.len(),
    ensures
        custom.is_prefix_of(requested_customs(groups, site, custom, count).0),
    decreases count,
{
    let all = requested_customs(groups, site, custom, count).0;
    if count > 0 {
        let earlier = requested_customs(groups, site, custom, (count - 1) as nat).0;
        lemma_customs_grow(groups, site, custom, (count - 1) as nat);
        lemma_one_more_capture(groups, site, custom, count);
        assert(all.subrange(0, custom.len() as int) =~= earlier.subrange(
            0,
            custom.len() as int,
        ));
    } else {
        assert(all.subrange(0, custom.len() as int) =~= custom);
    }
}

/// An archive that begins with the API's root began from the start, and another at the checkpoint
/// before its first request; with the probes of an earlier archive where there are any.
pub proof fn an_archive_began_at_its_first_request(
    first: Seq<char>,
    groups: Seq<GroupView>,
    site: SiteView,
    before: Moment,
    custom: Seq<CollectionView>,
    probes: Seq<ProbeView>,
)
    requires
        custom.len() + 8 <= usize::MAX,
        probes.len() < usize::MAX,
    ensures
        ({
            let state = initial_state(first, groups, site, before, custom, probes);
            let root = first == site.root.href + "wp-json"@;
            &&& root ==> state == Some(DriverView::beginning(site, before))
            &&& !root && state is Some ==> (state->0.checkpoint() matches CheckpointView::Resume(
                resumption,
            ) && Some(resumption.endpoint.name()) == requested_collection(first, site)
                && resumption.last_page <= requested_page(first) && requested_page(first)
                <= resumption.last_page + 1)
            &&& !root && state is Some && probes.len() > 0 ==> state->0.next_probe
                == state->0.endpoints.len()
        }),
{
    if first != site.url("wp-json"@) {
        if probes.len() == 0 {
            an_archive_starts_before_its_first_request(first, groups, site, custom);
            if let Some(resumption) = starting_point(first, groups, site, custom) {
                archive::resuming_keeps_the_checkpoint(site, before, resumption, custom);
            }
        } else {
            let collections = probes.map_values(|probe: ProbeView| probe.collection);
            an_archive_starts_before_its_first_request(first, groups, site, collections);
        }
    }
}

/// The custom collections of every registry response of an archive are known.
pub proof fn advertised_customs_are_known(
    groups: Seq<GroupView>,
    site: SiteView,
    custom: Seq<CollectionView>,
    registry: Registry,
    count: nat,
    index: int,
    name: Seq<char>,
)
    requires
        0 <= index < count <= groups.len(),
        advertised_entries(groups[index], site.url(registry.path_text())) is Some,
        endpoint::custom_names(
            advertised_entries(groups[index], site.url(registry.path_text()))->0,
        ).contains(name),
    ensures
        endpoint::names_of(registered(groups, site, custom, registry, count)).contains(name),
    decreases count,
{
    let before = (count - 1) as nat;
    let earlier = registered(groups, site, custom, registry, before);
    let all = registered(groups, site, custom, registry, count);
    let url = site.url(registry.path_text());
    if let Some(entries) = advertised_entries(groups[before as int], url) {
        archive::lemma_with_customs_grows(earlier, endpoint::custom_names(entries), registry);
    }
    if index < before {
        advertised_customs_are_known(groups, site, custom, registry, before, index, name);
        let at = endpoint::names_of(earlier).index_of(name);
        assert(all[at] == earlier[at]);
        assert(endpoint::names_of(all)[at] == name);
    } else {
        let names = endpoint::custom_names(advertised_entries(groups[index], url)->0);
        assert(names[names.index_of(name)] == name);
    }
}

/// What is recovered of a site's archive is the checkpoint to which its captures take a driver, the
/// cutoff of its first page, and every problem found; probes that were given are kept.
pub proof fn an_archive_is_recovered_by_replaying_it(
    groups: Seq<GroupView>,
    problems: Seq<Seq<char>>,
    site: SiteView,
    probes: Seq<ProbeView>,
    restored_before: Option<Moment>,
    sizes: Seq<PerPageView>,
)
    requires
        recovered_site(groups, problems, site, probes, restored_before, sizes) is Ok,
    ensures
        ({
            let info = recovered_site(
                groups,
                problems,
                site,
                probes,
                restored_before,
                sizes,
            )->Ok_0;
            let (custom, unclear) = known_customs(groups, site);
            &&& info.site == site
            &&& info.before == first_cutoff(groups, groups.len())
            &&& problems.is_prefix_of(info.warnings)
            &&& info.warnings.len() >= problems.len() + unclear.len()
            &&& probes.len() > 0 ==> info.probes == probes
            &&& forall|index: int|
                0 <= index < custom.len() ==> endpoint::names_of(info.endpoints).contains(
                    (#[trigger] custom[index]).name(),
                )
        }),
{
    let info = recovered_site(groups, problems, site, probes, restored_before, sizes)->Ok_0;
    let (custom, unclear) = known_customs(groups, site);
    let first = first_of_site(groups, site, groups.len())->0;
    let cutoff = recovered_cutoff(groups, restored_before);
    let driver = initial_state(groups[first].url, groups, site, cutoff, custom, probes)->0;
    let advanced = replayed(groups, options::configured(driver, sizes), 0).0;
    merging_adds_every_name_once(advanced.endpoints, custom);
    assert(info.warnings.subrange(0, problems.len() as int) =~= problems);
}

} // verus!
