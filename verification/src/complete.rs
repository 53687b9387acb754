//! Completing missing pages in archived `WordPress` comment collections.

use crate::bytes;
use crate::evidence;
use crate::evidence::{Record, RecordView};
use crate::read;
use crate::read::{CompletenessView, SightingView};
use crate::segment;
use crate::text;
use crate::web;
use vstd::prelude::*;
use vstd::string::StringExecFns;

verus! {

/// The portions of an archived URL surrounding its decimal page value.
#[derive(Debug, Eq, PartialEq)]
pub struct PagingUrl {
    prefix: String,
    suffix: String,
}

/// The parts of a [`PagingUrl`].
#[verifier::ext_equal]
pub struct PagingView {
    pub prefix: Seq<char>,
    pub suffix: Seq<char>,
}

impl DeepView for PagingUrl {
    type V = PagingView;

    closed spec fn deep_view(&self) -> PagingView {
        PagingView { prefix: self.prefix@, suffix: self.suffix@ }
    }
}

/// The index at which a text's first `character` in a range stands, or the range's end.
pub open spec fn next_or_end(text: Seq<char>, character: char, start: int, end: int) -> int
    decreases end - start,
{
    if start >= end || text[start] == character {
        start
    } else {
        next_or_end(text, character, start + 1, end)
    }
}

/// The places of the values of the `page` parameters in a range of a URL that begins a parameter.
pub open spec fn page_values(url: Seq<char>, start: int, end: int) -> Seq<(int, int)>
    decreases end - start,
    via page_values_decrease
{
    let stop = next_or_end(url, '&', start, end);
    let here = if start + 5 <= stop && url.subrange(start, start + 5) == "page="@ {
        seq![(start + 5, stop)]
    } else {
        Seq::empty()
    };
    if stop >= end {
        here
    } else {
        here + page_values(url, stop + 1, end)
    }
}

#[via_fn]
proof fn page_values_decrease(url: Seq<char>, start: int, end: int) {
    lemma_next_or_end(url, '&', start, end);
}

/// The next occurrence is no earlier than the range's start, with none before it.
pub proof fn lemma_next_or_end(text: Seq<char>, character: char, start: int, end: int)
    ensures
        next_or_end(text, character, start, end) >= start,
        start <= end ==> next_or_end(text, character, start, end) <= end,
        forall|index: int|
            start <= index < next_or_end(text, character, start, end) ==> (#[trigger] text[index])
                != character,
        next_or_end(text, character, start, end) < end ==> text[next_or_end(
            text,
            character,
            start,
            end,
        )] == character,
    decreases end - start,
{
    if start < end && text[start] != character {
        lemma_next_or_end(text, character, start + 1, end);
    }
}

/// Where a URL's query begins, after its question mark.
pub open spec fn query_start(url: Seq<char>) -> Option<int> {
    match text::found(url, "?"@) {
        Some(at) => Some(at + 1),
        None => None,
    }
}

/// Whether a text is a positive page number in decimal digits.
pub open spec fn is_page_number(value: Seq<char>) -> bool {
    &&& value.len() > 0
    &&& text::all_digits(value)
    &&& text::parsed_count(value) matches Some(page) && page > 0
}

impl PagingView {
    /// The portions around the value of a URL's only `page` parameter, where that is a page number.
    pub open spec fn explicit(url: Seq<char>) -> Option<Self> {
        match query_start(url) {
            Some(start) => {
                let end = next_or_end(url, '#', start, url.len() as int);
                let places = page_values(url, start, end);
                if places.len() == 1 && is_page_number(
                    url.subrange(places[0].0, places[0].1),
                ) {
                    Some(
                        PagingView {
                            prefix: url.take(places[0].0),
                            suffix: url.skip(places[0].1),
                        },
                    )
                } else {
                    None
                }
            },
            None => None,
        }
    }

    /// The portions around the value of a `page` parameter that is added at the end of a URL's
    /// query.
    pub open spec fn implicit(url: Seq<char>) -> Self {
        let fragment = next_or_end(url, '#', 0, url.len() as int);
        let before = url.take(fragment);
        let separator = match text::split_at_first(before, "?"@) {
            None => "?"@,
            Some((_, query)) => if query.len() == 0 || before.last() == '&' {
                ""@
            } else {
                "&"@
            },
        };
        PagingView { prefix: before + separator + "page="@, suffix: url.skip(fragment) }
    }

    /// The URL of a page.
    pub open spec fn url(self, page: nat) -> Seq<char> {
        self.prefix + text::decimal(page) + self.suffix
    }
}

/// A URL that names its page in plain decimal digits is the URL of that page, and the URL of any
/// page differs from it in the page number alone.
pub proof fn an_explicit_url_is_its_pages_url(url: Seq<char>, page: nat)
    requires
        PagingView::explicit(url) is Some,
    ensures
        ({
            let paging = PagingView::explicit(url)->0;
            let places = page_values(
                url,
                query_start(url)->0,
                next_or_end(url, '#', query_start(url)->0, url.len() as int),
            );
            let value = url.subrange(places[0].0, places[0].1);
            url == paging.prefix + value + paging.suffix && (value == text::decimal(page)
                ==> paging.url(page) == url)
        }),
{
    let start = query_start(url)->0;
    let end = next_or_end(url, '#', start, url.len() as int);
    lemma_query_start(url);
    lemma_next_or_end(url, '#', start, url.len() as int);
    let places = page_values(url, start, end);
    lemma_page_values(url, start, end);
    let paging = PagingView::explicit(url)->0;
    let value = url.subrange(places[0].0, places[0].1);
    assert(url =~= paging.prefix + value + paging.suffix);
}

/// Where a text holds the same characters further on, the next occurrence is as much further on.
proof fn lemma_next_shifted(
    first: Seq<char>,
    second: Seq<char>,
    character: char,
    start: int,
    end: int,
    shift: int,
)
    requires
        start <= end,
        forall|index: int|
            start <= index < end ==> (#[trigger] first[index]) == second[index + shift],
    ensures
        next_or_end(second, character, start + shift, end + shift) == next_or_end(
            first,
            character,
            start,
            end,
        ) + shift,
    decreases end - start,
{
    if start < end && first[start] != character {
        lemma_next_shifted(first, second, character, start + 1, end, shift);
    }
}

/// Where a text holds the same characters further on, it has as many values of `page` parameters
/// there.
proof fn lemma_values_shifted(
    first: Seq<char>,
    second: Seq<char>,
    start: int,
    end: int,
    shift: int,
)
    requires
        0 <= start <= end <= first.len(),
        0 <= start + shift,
        end + shift <= second.len(),
        forall|index: int|
            start <= index < end ==> (#[trigger] first[index]) == second[index + shift],
    ensures
        page_values(second, start + shift, end + shift).len() == page_values(
            first,
            start,
            end,
        ).len(),
    decreases end - start,
{
    let stop = next_or_end(first, '&', start, end);
    lemma_next_or_end(first, '&', start, end);
    lemma_next_shifted(first, second, '&', start, end, shift);
    if start + 5 <= stop {
        let here = first.subrange(start, start + 5);
        let there = second.subrange(start + shift, start + shift + 5);
        assert forall|index: int| 0 <= index < 5 implies here[index] == there[index] by {
            assert(first[start + index] == second[start + index + shift]);
        }
        assert(here =~= there);
    }
    if stop < end {
        lemma_values_shifted(first, second, stop + 1, end, shift);
    }
}

/// Whether a text is another but for the digits that take the place of those between two indices.
spec fn differs_in_number(
    first: Seq<char>,
    second: Seq<char>,
    from: int,
    to: int,
    number: Seq<char>,
) -> bool {
    &&& 0 <= from <= to <= first.len()
    &&& second == first.take(from) + number + first.skip(to)
    &&& text::all_digits(number)
}

/// The only value of a `page` parameter keeps its place when digits are put in its place.
proof fn lemma_value_replaced(
    first: Seq<char>,
    second: Seq<char>,
    start: int,
    end: int,
    from: int,
    to: int,
    number: Seq<char>,
)
    requires
        differs_in_number(first, second, from, to, number),
        0 <= start <= end <= first.len(),
        page_values(first, start, end) == seq![(from, to)],
    ensures
        page_values(second, start, end + number.len() - (to - from)) == seq![
            (from, from + number.len()),
        ],
    decreases end - start,
{
    let shift = number.len() - (to - from);
    let stop = next_or_end(first, '&', start, end);
    let new_end = end + shift;
    lemma_next_or_end(first, '&', start, end);
    lemma_page_values(first, start, end);
    assert(start <= seq![(from, to)][0].0 <= to <= end);
    assert forall|index: int| 0 <= index < from implies (#[trigger] first[index])
        == second[index] by {}
    assert forall|index: int| to <= index < first.len() implies (#[trigger] first[index])
        == second[index + shift] by {}
    assert forall|index: int| from <= index < from + number.len() implies '0'
        <= #[trigger] second[index] <= '9' by {
        assert(second[index] == number[index - from]);
        assert(text::is_digit(number[index - from]));
    }
    let is_page = start + 5 <= stop && first.subrange(start, start + 5) == "page="@;
    if is_page {
        let rest = if stop < end {
            page_values(first, stop + 1, end)
        } else {
            Seq::empty()
        };
        assert(page_values(first, start, end) =~= seq![(start + 5, stop)] + rest);
        assert((seq![(start + 5, stop)] + rest)[0] == (from, to));
        assert(rest.len() == 0);
        let new_stop = stop + shift;
        lemma_next_is(second, '&', start, new_end, new_stop);
        assert(second.subrange(start, start + 5) =~= first.subrange(start, start + 5));
        if stop < end {
            lemma_values_shifted(first, second, stop + 1, end, shift);
            assert(page_values(second, new_stop + 1, new_end) =~= Seq::empty());
        }
        assert(page_values(second, start, new_end) =~= seq![(start + 5, new_stop)]);
    } else {
        assert(stop < end);
        assert(page_values(first, start, end) =~= page_values(first, stop + 1, end));
        lemma_page_values(first, stop + 1, end);
        assert(stop + 1 <= page_values(first, stop + 1, end)[0].0);
        lemma_next_is(second, '&', start, new_end, stop);
        if start + 5 <= stop {
            assert(second.subrange(start, start + 5) =~= first.subrange(start, start + 5));
        }
        lemma_value_replaced(first, second, stop + 1, end, from, to, number);
        assert(page_values(second, start, new_end) =~= page_values(second, stop + 1, new_end));
    }
}

/// The next occurrence is where there is one, or the range's end, with none before it.
proof fn lemma_next_is(text: Seq<char>, character: char, start: int, end: int, at: int)
    requires
        start <= at <= end,
        at < end ==> text[at] == character,
        forall|index: int| start <= index < at ==> (#[trigger] text[index]) != character,
    ensures
        next_or_end(text, character, start, end) == at,
    decreases at - start,
{
    if start < at {
        assert(text[start] != character);
        lemma_next_is(text, character, start + 1, end, at);
    }
}

/// The URLs of the pages of a URL that names its page are paged alike.
pub proof fn the_pages_of_an_explicit_url_are_paged_alike(url: Seq<char>, page: usize)
    requires
        PagingView::explicit(url) is Some,
        page > 0,
    ensures
        PagingView::explicit(PagingView::explicit(url)->0.url(page as nat))
            == PagingView::explicit(url),
{
    let start = query_start(url)->0;
    let end = next_or_end(url, '#', start, url.len() as int);
    lemma_query_start(url);
    lemma_next_or_end(url, '#', start, url.len() as int);
    lemma_page_values(url, start, end);
    let places = page_values(url, start, end);
    let (from, to) = places[0];
    let paging = PagingView::explicit(url)->0;
    let number = text::decimal(page as nat);
    let other = paging.url(page as nat);
    let shift = number.len() - (to - from);
    text::lemma_decimal_reads_back(page as nat);
    text::lemma_count_text_parses_back(page);
    assert(places =~= seq![(from, to)]);
    assert(other =~= url.take(from) + number + url.skip(to));
    assert(differs_in_number(url, other, from, to, number));
    lemma_value_replaced(url, other, start, end, from, to, number);
    assert forall|index: int| 0 <= index < from implies (#[trigger] url[index])
        == other[index] by {}
    assert forall|index: int| to <= index < url.len() implies (#[trigger] url[index])
        == other[index + shift] by {}
    assert forall|index: int| start <= index < end + shift implies (#[trigger] other[index])
        != '#' by {
        if index < from {
            assert(url[index] != '#');
        } else if index < from + number.len() {
            assert(other[index] == number[index - from]);
            assert(text::is_digit(number[index - from]));
        } else {
            assert(url[index - shift] == other[index - shift + shift]);
        }
    }
    if end < url.len() {
        assert(url[end] == other[end + shift]);
    }
    lemma_next_is(other, '#', start, other.len() as int, end + shift);
    reveal_strlit("?");
    assert("?"@ =~= seq!['?']);
    let front = url.take(start - 1);
    text::lemma_found_from(url, "?"@, 0);
    assert(url.subrange(start - 1, start)[0] == '?');
    assert(!front.contains('?')) by {
        if front.contains('?') {
            let index = choose|index: int| 0 <= index < front.len() && front[index] == '?';
            assert(url.subrange(index, index + 1) =~= "?"@);
            assert(text::occurs_at(url, "?"@, index));
        }
    }
    let rest = other.skip(start);
    assert(other =~= front + seq!['?'] + rest);
    text::lemma_split_at_first(front, '?', rest);
    text::lemma_found_from(other, "?"@, 0);
    assert(query_start(other) == Some(start)) by {
        let at = text::found(other, "?"@)->0;
        assert(other.take(at).len() == front.len());
    }
    assert(other.subrange(from, from + number.len()) =~= number);
    assert(other.take(from) =~= paging.prefix);
    assert(other.skip(from + number.len()) =~= paging.suffix);
}

proof fn lemma_query_start(url: Seq<char>)
    ensures
        query_start(url) matches Some(start) ==> 0 < start <= url.len(),
{
    reveal_strlit("?");
    text::lemma_found_from(url, "?"@, 0);
}

/// The values of `page` parameters lie within the range.
proof fn lemma_page_values(url: Seq<char>, start: int, end: int)
    requires
        0 <= start <= end <= url.len(),
    ensures
        forall|index: int|
            0 <= index < page_values(url, start, end).len() ==> {
                let place = #[trigger] page_values(url, start, end)[index];
                start <= place.0 <= place.1 <= end
            },
    decreases end - start,
{
    let stop = next_or_end(url, '&', start, end);
    lemma_next_or_end(url, '&', start, end);
    if stop < end {
        let rest = page_values(url, stop + 1, end);
        let all = page_values(url, start, end);
        lemma_page_values(url, stop + 1, end);
        assert forall|index: int| 0 <= index < all.len() implies {
            let place = #[trigger] all[index];
            start <= place.0 <= place.1 <= end
        } by {
            if all.len() == rest.len() {
                assert(all[index] == rest[index]);
            } else if index > 0 {
                assert(all[index] == rest[index - 1]);
            }
        }
    }
}

/// Different pages have different URLs.
pub proof fn different_pages_have_different_urls(paging: PagingView, first: nat, second: nat)
    requires
        first != second,
    ensures
        paging.url(first) != paging.url(second),
{
    if paging.url(first) == paging.url(second) {
        let left = paging.url(first);
        let right = paging.url(second);
        let start = paging.prefix.len() as int;
        assert(left.len() == right.len());
        assert(left.subrange(start, left.len() - paging.suffix.len()) =~= text::decimal(first));
        assert(right.subrange(start, right.len() - paging.suffix.len()) =~= text::decimal(second));
        text::lemma_decimal_is_injective(first, second);
    }
}

fn find_or_end(text: &Vec<char>, character: char, start: usize, end: usize) -> (at: usize)
    requires
        start <= end <= text@.len(),
    ensures
        at == next_or_end(text@, character, start as int, end as int),
        start <= at <= end,
{
    let mut at: usize = start;
    while at < end && text[at] != character
        invariant
            start <= at <= end <= text@.len(),
            next_or_end(text@, character, start as int, end as int) == next_or_end(
                text@,
                character,
                at as int,
                end as int,
            ),
        decreases end - at,
    {
        at += 1;
    }
    at
}

fn names_page(url: &Vec<char>, start: usize, stop: usize) -> (named: bool)
    requires
        start <= stop <= url@.len(),
    ensures
        named == (start + 5 <= stop && url@.subrange(start as int, start + 5) == "page="@),
{
    if stop - start < 5 {
        return false;
    }
    text::same(text::text_between(url, start, start + 5).as_str(), "page=")
}

fn denotes_page(value: &str) -> (denotes: bool)
    ensures
        denotes == is_page_number(value@),
{
    value.unicode_len() > 0 && text::has_only_digits(value) && match text::parse_count(value) {
        Some(page) => page > 0,
        None => false,
    }
}

impl PagingUrl {
    /// Recover the URL's `page` parameter without parsing and re-encoding any other character.
    pub fn explicit(url: &str) -> (paging: Option<Self>)
        ensures
            paging.deep_view() == PagingView::explicit(url@),
    {
        let all = text::characters(url);
        let query = match text::find(&all, "?") {
            Some(at) => {
                proof {
                    lemma_query_start(url@);
                    assert(at + 1 <= all.len());
                }
                at + 1
            },
            None => {
                return None;
            },
        };
        let end = find_or_end(&all, '#', query, all.len());
        let ghost places = page_values(url@, query as int, end as int);
        let mut start: usize = query;
        let mut found: Option<(usize, usize)> = None;
        let mut open: bool = true;
        assert(places =~= Seq::<(int, int)>::empty() + places);
        while open
            invariant
                all@ == url@,
                end <= all@.len(),
                open ==> start <= end,
                query_start(url@) == Some(query as int),
                end == next_or_end(url@, '#', query as int, url@.len() as int),
                places == page_values(url@, query as int, end as int),
                places == (match found {
                    Some((at, stop)) => seq![(at as int, stop as int)],
                    None => Seq::empty(),
                }) + (if open {
                    page_values(url@, start as int, end as int)
                } else {
                    Seq::empty()
                }),
                found matches Some((at, stop)) ==> at <= stop <= all@.len() && is_page_number(
                    url@.subrange(at as int, stop as int),
                ),
            decreases (if open {
                end - start + 1
            } else {
                0
            }),
        {
            let stop = find_or_end(&all, '&', start, end);
            if names_page(&all, start, stop) {
                let value = text::text_between(&all, start + 5, stop);
                if found.is_some() || !denotes_page(value.as_str()) {
                    proof {
                        let here = seq![(start + 5, stop as int)];
                        if found is Some {
                            assert(places.len() >= 2);
                        } else {
                            assert(places[0] == (start + 5, stop as int));
                        }
                    }
                    return None;
                }
                found = Some(((start + 5) as usize, stop));
            }
            if stop == end {
                open = false;
                assert(places =~= (match found {
                    Some((at, stop)) => seq![(at as int, stop as int)],
                    None => Seq::empty(),
                }) + Seq::<(int, int)>::empty());
            } else {
                start = stop + 1;
                assert(places =~= (match found {
                    Some((at, stop)) => seq![(at as int, stop as int)],
                    None => Seq::empty(),
                }) + page_values(url@, start as int, end as int));
            }
        }
        match found {
            Some((at, stop)) => {
                let prefix = text::text_between(&all, 0, at);
                let suffix = text::text_between(&all, stop, all.len());
                assert(places =~= seq![(at as int, stop as int)]);
                assert(prefix@ =~= url@.take(at as int));
                assert(suffix@ =~= url@.skip(stop as int));
                Some(PagingUrl { prefix, suffix })
            },
            None => {
                assert(places =~= Seq::empty());
                None
            },
        }
    }

    /// Add an explicit page parameter to a page-one URL that omitted it.
    pub fn from_implicit_first_page(url: &str) -> (paging: Self)
        ensures
            paging.deep_view() == PagingView::implicit(url@),
    {
        let all = text::characters(url);
        let fragment = find_or_end(&all, '#', 0, all.len());
        let before = text::text_between(&all, 0, fragment);
        assert(before@ =~= url@.take(fragment as int));
        let separator = match text::split_once(before.as_str(), "?") {
            None => "?",
            Some((_, query)) => if query.as_str().unicode_len() == 0 || text::ends_with(
                before.as_str(),
                "&",
            ) {
                ""
            } else {
                "&"
            },
        };
        proof {
            reveal_strlit("&");
            reveal_strlit("?");
            text::lemma_found_from(before@, "?"@, 0);
            if before@.len() > 0 {
                assert("&"@.is_suffix_of(before@) <==> before@.last() == '&') by {
                    if before@.last() == '&' {
                        assert(before@.skip(before@.len() - 1) =~= "&"@);
                    }
                    if "&"@.is_suffix_of(before@) {
                        assert(before@.subrange(before@.len() - 1, before@.len() as int)[0] == '&');
                    }
                }
            }
        }
        let prefix = text::joined(text::joined(before.as_str(), separator).as_str(), "page=");
        let suffix = text::text_between(&all, fragment, all.len());
        assert(suffix@ =~= url@.skip(fragment as int));
        PagingUrl { prefix, suffix }
    }

    /// The URL of a page.
    pub fn url(&self, page: usize) -> (url: String)
        ensures
            url@ == self.deep_view().url(page as nat),
    {
        text::joined(
            text::joined(self.prefix.as_str(), text::count_text(page).as_str()).as_str(),
            self.suffix.as_str(),
        )
    }
}

/// The paging URL of the first qualifying capture among `records` that names its page.
pub open spec fn first_explicit(records: Seq<RecordView>) -> Option<PagingView>
    decreases records.len(),
{
    if records.len() == 0 {
        None
    } else {
        match paged(records[0]) {
            Some(url) => match PagingView::explicit(url) {
                Some(paging) => Some(paging),
                None => first_explicit(records.drop_first()),
            },
            None => first_explicit(records.drop_first()),
        }
    }
}

/// The paging URL made of the first qualifying capture among `records`, whose page is added to it.
pub open spec fn first_implicit(records: Seq<RecordView>) -> Option<PagingView>
    decreases records.len(),
{
    if records.len() == 0 {
        None
    } else {
        match paged(records[0]) {
            Some(url) => Some(PagingView::implicit(url)),
            None => first_implicit(records.drop_first()),
        }
    }
}

/// The URL of a qualifying capture of a page.
pub open spec fn paged(record: RecordView) -> Option<Seq<char>> {
    match read::qualifying(record) {
        Some((url, _)) => if read::page_of(url) is Some {
            Some(url)
        } else {
            None
        },
        None => None,
    }
}

/// The paging URL of an archive: that of the first capture that names its page, or else that of
/// the first capture, which is of the first page.
pub open spec fn archived_paging(records: Seq<RecordView>) -> Option<PagingView> {
    match first_explicit(records) {
        Some(paging) => Some(paging),
        None => first_implicit(records),
    }
}

/// The paging URL of an archive, from which the URLs of its missing pages are made.
pub fn find_paging_url(records: &Vec<Record>) -> (paging: Option<PagingUrl>)
    ensures
        paging.deep_view() == archived_paging(records.deep_view()),
{
    let ghost all = records.deep_view();
    let mut implicit: Option<PagingUrl> = None;
    let mut index: usize = 0;
    assert(all.skip(0) == all);
    while index < records.len()
        invariant
            index <= records@.len(),
            all == records.deep_view(),
            first_explicit(all) == first_explicit(all.skip(index as int)),
            first_implicit(all) == (match implicit.deep_view() {
                Some(paging) => Some(paging),
                None => first_implicit(all.skip(index as int)),
            }),
        decreases records@.len() - index,
    {
        let ghost rest = all.skip(index as int);
        assert(rest.drop_first() == all.skip(index + 1));
        assert(rest[0] == records@[index as int].deep_view());
        if let Some((url, _)) = read::qualifying_comment_capture(&records[index]) {
            if read::comment_page(url).is_some() {
                if let Some(paging) = PagingUrl::explicit(url) {
                    return Some(paging);
                }
                if implicit.is_none() {
                    implicit = Some(PagingUrl::from_implicit_first_page(url));
                }
            }
        }
        index += 1;
    }
    implicit
}

/// The URLs of missing pages, in order.
pub open spec fn page_urls(paging: PagingView, pages: Seq<usize>) -> Seq<Seq<char>> {
    pages.map_values(|page: usize| paging.url(page as nat))
}

/// The URL of each missing page after the first with that of the page before it, in order.
pub open spec fn predecessors(paging: PagingView, pages: Seq<usize>) -> Seq<(Seq<char>, Seq<char>)>
    decreases pages.len(),
{
    if pages.len() == 0 {
        Seq::empty()
    } else {
        let earlier = predecessors(paging, pages.drop_last());
        let page = pages.last();
        if page > 1 {
            earlier.push((paging.url(page as nat), paging.url((page - 1) as nat)))
        } else {
            earlier
        }
    }
}

/// A missing page after the first is led to by the page before it, and no other URL is led to.
pub proof fn missing_pages_follow_their_predecessors(
    paging: PagingView,
    pages: Seq<usize>,
    page: usize,
)
    ensures
        web::first_value(predecessors(paging, pages), paging.url(page as nat)) == (if page > 1
            && pages.contains(page) {
            Some(paging.url((page - 1) as nat))
        } else {
            None
        }),
    decreases pages.len(),
{
    let all = predecessors(paging, pages);
    let url = paging.url(page as nat);
    if pages.len() > 0 {
        let earlier = pages.drop_last();
        let known = predecessors(paging, earlier);
        missing_pages_follow_their_predecessors(paging, earlier, page);
        if page != pages.last() {
            different_pages_have_different_urls(paging, page as nat, pages.last() as nat);
        }
        if pages.last() > 1 {
            lemma_first_value_of_push(known, all.last(), url);
        }
        if earlier.contains(page) {
            assert(pages[earlier.index_of(page)] == page);
        }
        if pages.contains(page) && page != pages.last() {
            assert(earlier[pages.index_of(page)] == page);
        }
        assert(pages[pages.len() - 1] == pages.last());
    }
}

proof fn lemma_first_value_of_push(
    pairs: Seq<(Seq<char>, Seq<char>)>,
    pair: (Seq<char>, Seq<char>),
    name: Seq<char>,
)
    ensures
        web::first_value(pairs.push(pair), name) == (match web::first_value(pairs, name) {
            Some(value) => Some(value),
            None => if pair.0 == name {
                Some(pair.1)
            } else {
                None
            },
        }),
    decreases pairs.len(),
{
    let grown = pairs.push(pair);
    if pairs.len() > 0 {
        assert(grown.drop_first() == pairs.drop_first().push(pair));
        lemma_first_value_of_push(pairs.drop_first(), pair, name);
    } else {
        assert(grown.drop_first() == Seq::<(Seq<char>, Seq<char>)>::empty());
        assert(web::first_value(grown.drop_first(), name) is None);
    }
}

fn completion_urls(paging: &PagingUrl, missing_pages: &Vec<usize>) -> (urls: Vec<String>)
    ensures
        urls.deep_view() == page_urls(paging.deep_view(), missing_pages@),
{
    let ghost view = paging.deep_view();
    let mut urls: Vec<String> = Vec::new();
    let mut index: usize = 0;
    assert(urls.deep_view() =~= page_urls(view, missing_pages@.take(0)));
    while index < missing_pages.len()
        invariant
            index <= missing_pages@.len(),
            view == paging.deep_view(),
            urls.deep_view() == page_urls(view, missing_pages@.take(index as int)),
        decreases missing_pages@.len() - index,
    {
        let ghost known = urls.deep_view();
        let url = paging.url(missing_pages[index]);
        urls.push(url);
        assert(urls.deep_view() =~= known.push(url@));
        index += 1;
        assert(page_urls(view, missing_pages@.take(index as int)) =~= known.push(url@));
    }
    assert(missing_pages@.take(index as int) == missing_pages@);
    urls
}

/// The URL of each missing page after the first with that of the page before it, in order.
pub fn completion_via_urls(paging: &PagingUrl, missing_pages: &Vec<usize>) -> (vias: Vec<
    (String, String),
>)
    ensures
        vias.deep_view() == predecessors(paging.deep_view(), missing_pages@),
{
    let ghost view = paging.deep_view();
    let mut vias: Vec<(String, String)> = Vec::new();
    let mut index: usize = 0;
    assert(vias.deep_view() =~= Seq::<(Seq<char>, Seq<char>)>::empty());
    while index < missing_pages.len()
        invariant
            index <= missing_pages@.len(),
            view == paging.deep_view(),
            vias.deep_view() == predecessors(view, missing_pages@.take(index as int)),
        decreases missing_pages@.len() - index,
    {
        assert(missing_pages@.take(index + 1).drop_last() == missing_pages@.take(index as int));
        let page = missing_pages[index];
        if page > 1 {
            let ghost known = vias.deep_view();
            let via = (paging.url(page), paging.url(page - 1));
            let ghost added = via.deep_view();
            vias.push(via);
            assert(vias.deep_view() =~= known.push(added));
        }
        index += 1;
    }
    assert(missing_pages@.take(index as int) == missing_pages@);
    vias
}

/// Spaces the starts of requests: a delay stands before every start but the first.
#[derive(Clone, Copy, Debug, Eq, PartialEq, Structural)]
pub struct RequestDelay {
    requested: bool,
}

impl View for RequestDelay {
    type V = bool;

    closed spec fn view(&self) -> bool {
        self.requested
    }
}

impl RequestDelay {
    /// No request has started.
    pub fn new() -> (delay: Self)
        ensures
            !delay@,
    {
        RequestDelay { requested: false }
    }

    /// Whether to wait before an event is handled. The delay's view is whether a request has
    /// started.
    pub fn before(&mut self, started: bool) -> (wait: bool)
        ensures
            wait == (started && old(self)@),
            final(self)@ == (started || old(self)@),
    {
        let wait = started && self.requested;
        if started {
            self.requested = true;
        }
        wait
    }
}

/// The path beside an output in which it is staged.
pub fn partial_path(output: &str) -> (path: String)
    ensures
        path@ == output@ + ".partial"@,
{
    text::joined(output, ".partial")
}

/// Whether an output at a path is gzip-compressed, by the extension of the file that it names.
pub fn is_compressed(path: &str) -> (compressed: bool)
    ensures
        compressed == (segment::file_name_of(path@) matches Some(name) && segment::has_extension(
            name,
            "gz"@,
        )),
{
    match segment::file_name(path) {
        Some(name) => segment::ends_in_extension(name.as_str(), "gz"),
        None => false,
    }
}

/// What identifies an archive's first record.
#[derive(Debug, Eq, PartialEq)]
pub struct FirstRecord {
    /// Its `WARC-Type` header.
    pub record_type: Option<Vec<u8>>,
    /// Its `WARC-Record-ID` header.
    pub record_id: Option<Vec<u8>>,
}

/// The parts of a [`FirstRecord`].
#[verifier::ext_equal]
pub struct FirstView {
    pub record_type: Option<Seq<u8>>,
    pub record_id: Option<Seq<u8>>,
}

impl DeepView for FirstRecord {
    type V = FirstView;

    open spec fn deep_view(&self) -> FirstView {
        FirstView {
            record_type: evidence::header_bytes(self.record_type),
            record_id: evidence::header_bytes(self.record_id),
        }
    }
}

/// A failure while planning a comments completion archive.
#[derive(Debug, Eq, PartialEq)]
pub enum Error {
    /// The input archive could not be interpreted while its coverage was checked.
    ReadComments(read::Error),
    /// The input starts with something other than a `warcinfo` record.
    MissingWarcinfo,
    /// The source `warcinfo` has no identifier for new records to reference.
    MissingWarcinfoId,
    /// No response advertised how many comment pages exist.
    MissingPageTotal,
    /// Missing pages were known, but no captured URL could be reused as their template.
    MissingPagingUrl,
}

/// The parts of an [`Error`].
#[verifier::ext_equal]
pub enum ErrorView {
    ReadComments(read::ErrorView),
    MissingWarcinfo,
    MissingWarcinfoId,
    MissingPageTotal,
    MissingPagingUrl,
}

impl DeepView for Error {
    type V = ErrorView;

    open spec fn deep_view(&self) -> ErrorView {
        match self {
            Error::ReadComments(error) => ErrorView::ReadComments(error.deep_view()),
            Error::MissingWarcinfo => ErrorView::MissingWarcinfo,
            Error::MissingWarcinfoId => ErrorView::MissingWarcinfoId,
            Error::MissingPageTotal => ErrorView::MissingPageTotal,
            Error::MissingPagingUrl => ErrorView::MissingPagingUrl,
        }
    }
}

impl ErrorView {
    /// The error in words.
    pub open spec fn message(self) -> Seq<char> {
        match self {
            ErrorView::ReadComments(error) => error.message(),
            ErrorView::MissingWarcinfo => "input WARC does not begin with a warcinfo record"@,
            ErrorView::MissingWarcinfoId => "input WARC's warcinfo record has no WARC-Record-ID"@,
            ErrorView::MissingPageTotal => "input WARC has no valid X-WP-TotalPages value"@,
            ErrorView::MissingPagingUrl =>
                "input WARC has no usable WordPress comments paging URL"@,
        }
    }
}

impl Error {
    /// The error in words.
    pub fn to_string(&self) -> (message: String)
        ensures
            message@ == self.deep_view().message(),
    {
        match self {
            Error::ReadComments(error) => error.to_string(),
            Error::MissingWarcinfo => "input WARC does not begin with a warcinfo record".to_owned(),
            Error::MissingWarcinfoId => {
                "input WARC's warcinfo record has no WARC-Record-ID".to_owned()
            },
            Error::MissingPageTotal => "input WARC has no valid X-WP-TotalPages value".to_owned(),
            Error::MissingPagingUrl => {
                "input WARC has no usable WordPress comments paging URL".to_owned()
            },
        }
    }
}

/// Whether a `WARC-Type` header names a type, white space around it and its case aside.
pub open spec fn is_of_type(record_type: Option<Seq<u8>>, name: Seq<char>) -> bool {
    record_type matches Some(value) && bytes::spells(bytes::trimmed_ascii(value), name)
}

fn has_type(record_type: &Option<Vec<u8>>, name: &str) -> (found: bool)
    ensures
        found == is_of_type(evidence::header_bytes(*record_type), name@),
{
    match record_type {
        Some(value) => bytes::is_spelled(&bytes::trim_ascii(value.as_slice()), name),
        None => false,
    }
}

/// The identifier of an archive's `warcinfo` record, which has to be its first.
pub open spec fn identified_warcinfo(first: Option<FirstView>) -> Result<Seq<u8>, ErrorView> {
    match first {
        Some(record) => if !is_of_type(record.record_type, "warcinfo"@) {
            Err(ErrorView::MissingWarcinfo)
        } else {
            match record.record_id {
                Some(value) => if bytes::trimmed_ascii(value).len() > 0 {
                    Ok(bytes::trimmed_ascii(value))
                } else {
                    Err(ErrorView::MissingWarcinfoId)
                },
                None => Err(ErrorView::MissingWarcinfoId),
            }
        },
        None => Err(ErrorView::MissingWarcinfo),
    }
}

/// The identifier of an archive's `warcinfo` record, which has to be its first.
///
/// # Errors
///
/// Returns [`Error::MissingWarcinfo`] for another first record or none, and
/// [`Error::MissingWarcinfoId`] for one without an identifier.
pub fn warcinfo_id(first: &Option<FirstRecord>) -> (id: Result<Vec<u8>, Error>)
    ensures
        match id {
            Ok(id) => identified_warcinfo(first.deep_view()) == Ok::<Seq<u8>, ErrorView>(id@),
            Err(error) => identified_warcinfo(first.deep_view()) == Err::<Seq<u8>, ErrorView>(
                error.deep_view(),
            ),
        },
{
    let record = match first {
        Some(record) => record,
        None => {
            return Err(Error::MissingWarcinfo);
        },
    };
    if !has_type(&record.record_type, "warcinfo") {
        return Err(Error::MissingWarcinfo);
    }
    match &record.record_id {
        Some(value) => {
            let id = bytes::trim_ascii(value.as_slice());
            if id.len() > 0 {
                Ok(id)
            } else {
                Err(Error::MissingWarcinfoId)
            }
        },
        None => Err(Error::MissingWarcinfoId),
    }
}

/// What is requested to complete a comments archive.
#[derive(Debug, Eq, PartialEq)]
pub struct CompletionPlan {
    /// The identifier of the source's `warcinfo` record.
    pub warcinfo_id: Vec<u8>,
    /// Pages found to be missing.
    pub missing_pages: Vec<usize>,
    /// Exact URLs generated from the paging URL found in the source.
    pub requested_urls: Vec<String>,
    /// The URLs after the first page's, each with the one before it.
    pub via_urls: Vec<(String, String)>,
}

/// The parts of a [`CompletionPlan`].
#[verifier::ext_equal]
pub struct PlanView {
    pub warcinfo_id: Seq<u8>,
    pub missing_pages: Seq<usize>,
    pub requested_urls: Seq<Seq<char>>,
    pub via_urls: Seq<(Seq<char>, Seq<char>)>,
}

impl DeepView for CompletionPlan {
    type V = PlanView;

    open spec fn deep_view(&self) -> PlanView {
        PlanView {
            warcinfo_id: self.warcinfo_id@,
            missing_pages: self.missing_pages@,
            requested_urls: self.requested_urls.deep_view(),
            via_urls: self.via_urls.deep_view(),
        }
    }
}

/// The pages of an endpoint from the first through `total` that were not captured, in order.
pub open spec fn uncaptured_through(
    seen: Seq<SightingView>,
    endpoint: Seq<char>,
    total: nat,
) -> Seq<usize>
    decreases total,
{
    if total == 0 {
        Seq::empty()
    } else {
        let earlier = uncaptured_through(seen, endpoint, (total - 1) as nat);
        if read::is_captured(seen, endpoint, total as usize) {
            earlier
        } else {
            earlier.push(total as usize)
        }
    }
}

proof fn lemma_missing_is_uncaptured(
    coverage: CompletenessView,
    seen: Seq<SightingView>,
    endpoint: Seq<char>,
    total: nat,
)
    requires
        read::is_coverage_of(coverage, seen, endpoint),
    ensures
        read::missing_through(coverage.captured_pages, total) == uncaptured_through(
            seen,
            endpoint,
            total,
        ),
    decreases total,
{
    if total > 0 {
        lemma_missing_is_uncaptured(coverage, seen, endpoint, (total - 1) as nat);
        assert(coverage.captured_pages.contains(total as usize) <==> read::is_captured(
            seen,
            endpoint,
            total as usize,
        ));
    }
}

/// The requests that complete an archive of one comments collection, or why there are none.
pub open spec fn planned(records: Seq<RecordView>, first: Option<FirstView>) -> Result<
    PlanView,
    ErrorView,
> {
    let seen = read::sightings(records);
    if read::endpoints(seen).len() > 1 {
        Err(
            ErrorView::ReadComments(
                read::ErrorView::MultipleCommentCollections(read::endpoints(seen).len() as usize),
            ),
        )
    } else if seen.len() == 0 {
        Err(ErrorView::MissingPageTotal)
    } else {
        match read::greatest(read::totals(seen, seen[0].endpoint)) {
            None => Err(ErrorView::MissingPageTotal),
            Some(total) => match identified_warcinfo(first) {
                Err(error) => Err(error),
                Ok(warcinfo_id) => {
                    let missing_pages = uncaptured_through(seen, seen[0].endpoint, total as nat);
                    if missing_pages.len() == 0 {
                        Ok(
                            PlanView {
                                warcinfo_id,
                                missing_pages,
                                requested_urls: Seq::empty(),
                                via_urls: Seq::empty(),
                            },
                        )
                    } else {
                        match archived_paging(records) {
                            None => Err(ErrorView::MissingPagingUrl),
                            Some(paging) => Ok(
                                PlanView {
                                    warcinfo_id,
                                    missing_pages,
                                    requested_urls: page_urls(paging, missing_pages),
                                    via_urls: predecessors(paging, missing_pages),
                                },
                            ),
                        }
                    }
                },
            },
        }
    }
}

/// Plan the requests that complete an archive of one comments collection.
///
/// Nothing is requested when no page is missing.
///
/// # Errors
///
/// Returns [`Error`] when the archive holds several collections, advertises no page total, does not
/// begin with an identified `warcinfo` record, or has no URL from which the missing pages' can be
/// made.
pub fn plan_completion(records: &Vec<Record>, first: &Option<FirstRecord>) -> (plan: Result<
    CompletionPlan,
    Error,
>)
    ensures
        match plan {
            Ok(plan) => planned(records.deep_view(), first.deep_view()) == Ok::<
                PlanView,
                ErrorView,
            >(plan.deep_view()),
            Err(error) => planned(records.deep_view(), first.deep_view()) == Err::<
                PlanView,
                ErrorView,
            >(error.deep_view()),
        },
{
    let ghost seen = read::sightings(records.deep_view());
    let coverage = match read::check_comment_completeness(records) {
        Ok(coverage) => coverage,
        Err(error) => {
            return Err(Error::ReadComments(error));
        },
    };
    proof {
        if seen.len() == 0 {
            assert(seen.map_values(|sighting: SightingView| sighting.endpoint).to_set()
                =~= Set::empty());
        }
    }
    let total = match coverage.total_pages {
        Some(total) => total,
        None => {
            return Err(Error::MissingPageTotal);
        },
    };
    proof {
        lemma_missing_is_uncaptured(coverage.deep_view(), seen, seen[0].endpoint, total as nat);
    }
    let missing_pages = coverage.missing_pages();
    let warcinfo_id = match warcinfo_id(first) {
        Ok(id) => id,
        Err(error) => {
            return Err(error);
        },
    };
    if missing_pages.len() == 0 {
        let requested_urls: Vec<String> = Vec::new();
        let via_urls: Vec<(String, String)> = Vec::new();
        assert(requested_urls.deep_view() =~= Seq::<Seq<char>>::empty());
        assert(via_urls.deep_view() =~= Seq::<(Seq<char>, Seq<char>)>::empty());
        return Ok(CompletionPlan { warcinfo_id, missing_pages, requested_urls, via_urls });
    }
    match find_paging_url(records) {
        Some(paging) => {
            let requested_urls = completion_urls(&paging, &missing_pages);
            let via_urls = completion_via_urls(&paging, &missing_pages);
            Ok(CompletionPlan { warcinfo_id, missing_pages, requested_urls, via_urls })
        },
        None => Err(Error::MissingPagingUrl),
    }
}

fn holds(pages: &Vec<usize>, page: usize) -> (found: bool)
    ensures
        found == pages@.contains(page),
{
    let mut index: usize = 0;
    while index < pages.len()
        invariant
            index <= pages@.len(),
            forall|earlier: int| 0 <= earlier < index ==> (#[trigger] pages@[earlier]) != page,
        decreases pages@.len() - index,
    {
        if pages[index] == page {
            assert(pages@[index as int] == page);
            return true;
        }
        index += 1;
    }
    false
}

/// The pages that are not among those captured, in order.
pub open spec fn pages_without(missing: Seq<usize>, captured: Seq<usize>) -> Seq<usize>
    decreases missing.len(),
{
    if missing.len() == 0 {
        Seq::empty()
    } else {
        let earlier = pages_without(missing.drop_last(), captured);
        if captured.contains(missing.last()) {
            earlier
        } else {
            earlier.push(missing.last())
        }
    }
}

/// Whether numbers stand at ascending places of others.
pub open spec fn stand_at(numbers: Seq<usize>, all: Seq<usize>, places: Seq<int>) -> bool {
    &&& places.len() == numbers.len()
    &&& forall|index: int|
        0 <= index < places.len() ==> 0 <= (#[trigger] places[index]) < all.len()
            && all[places[index]] == numbers[index]
    &&& forall|first: int, second: int|
        0 <= first < second < places.len() ==> (#[trigger] places[first]) < (
        #[trigger] places[second])
}

/// Whether numbers are some of others, in their order.
pub open spec fn is_subsequence(numbers: Seq<usize>, all: Seq<usize>) -> bool {
    exists|places: Seq<int>| stand_at(numbers, all, places)
}

proof fn lemma_pages_without(missing: Seq<usize>, captured: Seq<usize>) -> (places: Seq<int>)
    ensures
        stand_at(pages_without(missing, captured), missing, places),
    decreases missing.len(),
{
    if missing.len() == 0 {
        Seq::empty()
    } else {
        let earlier = lemma_pages_without(missing.drop_last(), captured);
        if captured.contains(missing.last()) {
            earlier
        } else {
            earlier.push(missing.len() - 1)
        }
    }
}

/// Whether a completion left nothing to capture: no page, and no incomplete HTTP capture.
pub open spec fn is_completed(uncaptured_pages: Seq<usize>, archive: Option<bool>) -> bool {
    uncaptured_pages.len() == 0 && archive != Some(false)
}

/// Completing an archive of one comments collection requests exactly the pages that its coverage
/// lacks, each by one URL; the pages still uncaptured are some of them; and where none is missing,
/// the archive is complete with nothing requested.
pub proof fn completion_asks_for_the_missing_pages(
    records: Seq<RecordView>,
    first: Option<FirstView>,
    coverage: CompletenessView,
    captured_pages: Seq<usize>,
)
    requires
        planned(records, first) is Ok,
        read::is_coverage_of(
            coverage,
            read::sightings(records),
            read::sightings(records)[0].endpoint,
        ),
    ensures
        coverage.total_pages is Some,
        ({
            let plan = planned(records, first)->Ok_0;
            let uncaptured_pages = pages_without(plan.missing_pages, captured_pages);
            &&& plan.missing_pages == coverage.missing_pages()
            &&& plan.requested_urls.len() == plan.missing_pages.len()
            &&& is_subsequence(uncaptured_pages, plan.missing_pages)
            &&& plan.missing_pages.len() == 0 ==> is_completed(uncaptured_pages, None)
        }),
{
    let seen = read::sightings(records);
    let plan = planned(records, first)->Ok_0;
    lemma_missing_is_uncaptured(
        coverage,
        seen,
        seen[0].endpoint,
        coverage.total_pages->0 as nat,
    );
    let places = lemma_pages_without(plan.missing_pages, captured_pages);
    assert(stand_at(pages_without(plan.missing_pages, captured_pages), plan.missing_pages, places));
}

/// The result of requesting the comment pages absent from an input archive.
#[derive(Debug, Eq, PartialEq)]
pub struct CommentCompletionSummary {
    /// Pages found to be missing before any requests were made.
    pub missing_pages: Vec<usize>,
    /// Exact URLs generated from the paging URL found in the input archive.
    pub requested_urls: Vec<String>,
    /// Whether the HTTP capture was complete; absent when the input had no missing pages.
    pub archive: Option<bool>,
    /// Requested pages that did not produce a qualifying successful JSON response.
    pub uncaptured_pages: Vec<usize>,
}

impl CommentCompletionSummary {
    /// What came of a plan: whether its capture was complete, and which pages it captured.
    pub fn new(plan: CompletionPlan, archive: Option<bool>, captured_pages: &Vec<usize>) -> (summary:
        Self)
        ensures
            summary.missing_pages@ == plan.missing_pages@,
            summary.requested_urls.deep_view() == plan.requested_urls.deep_view(),
            summary.archive == archive,
            summary.uncaptured_pages@ == pages_without(plan.missing_pages@, captured_pages@),
            summary.uncaptured_pages@.len() <= summary.missing_pages@.len(),
    {
        let missing = &plan.missing_pages;
        let mut uncaptured_pages: Vec<usize> = Vec::new();
        let mut index: usize = 0;
        while index < missing.len()
            invariant
                index <= missing@.len(),
                uncaptured_pages@ == pages_without(missing@.take(index as int), captured_pages@),
                uncaptured_pages@.len() <= index,
            decreases missing@.len() - index,
        {
            assert(missing@.take(index + 1).drop_last() == missing@.take(index as int));
            if !holds(captured_pages, missing[index]) {
                uncaptured_pages.push(missing[index]);
            }
            index += 1;
        }
        assert(missing@.take(index as int) == missing@);
        CommentCompletionSummary {
            missing_pages: plan.missing_pages,
            requested_urls: plan.requested_urls,
            archive,
            uncaptured_pages,
        }
    }

    /// Whether every missing page produced a complete qualifying capture.
    #[must_use]
    pub fn is_complete(&self) -> (complete: bool)
        ensures
            complete == is_completed(self.uncaptured_pages@, self.archive),
    {
        self.uncaptured_pages.len() == 0 && match self.archive {
            Some(complete) => complete,
            None => true,
        }
    }
}

/// A header of a record.
#[derive(Debug, Eq, PartialEq)]
pub struct Header {
    /// The header's name.
    pub name: String,
    /// The header's value, with the white space before it.
    pub value: Vec<u8>,
}

/// The parts of a [`Header`].
#[verifier::ext_equal]
pub struct HeaderView {
    pub name: Seq<char>,
    pub value: Seq<u8>,
}

impl DeepView for Header {
    type V = HeaderView;

    open spec fn deep_view(&self) -> HeaderView {
        HeaderView { name: self.name@, value: self.value@ }
    }
}

/// Headers of which those with one name, whatever its case, have a new value after a space.
pub open spec fn with_value(headers: Seq<HeaderView>, name: Seq<char>, value: Seq<u8>) -> Seq<
    HeaderView,
> {
    headers.map_values(
        |header: HeaderView|
            if text::lower(header.name) == text::lower(name) {
                HeaderView { name: header.name, value: seq![0x20u8] + value }
            } else {
                header
            },
    )
}

/// Gives the headers with one name, whatever its case, a new value after a space.
fn set_value(headers: &mut Vec<Header>, name: &str, value: &[u8])
    ensures
        final(headers).deep_view() == with_value(old(headers).deep_view(), name@, value@),
{
    let ghost all = headers.deep_view();
    let ghost changed = with_value(all, name@, value@);
    let mut index: usize = 0;
    assert(headers.deep_view() =~= changed.take(0) + all.skip(0));
    while index < headers.len()
        invariant
            index <= headers@.len(),
            headers@.len() == all.len(),
            changed == with_value(all, name@, value@),
            headers.deep_view() == changed.take(index as int) + all.skip(index as int),
        decreases headers@.len() - index,
    {
        let ghost before = headers.deep_view();
        assert(before[index as int] == headers@[index as int].deep_view());
        assert(before[index as int] == all[index as int]);
        if text::same_ignoring_case(headers[index].name.as_str(), name) {
            let mut replaced: Vec<u8> = Vec::new();
            replaced.push(0x20);
            replaced.extend_from_slice(value);
            assert(replaced@ =~= seq![0x20u8] + value@);
            let header = Header { name: headers[index].name.clone(), value: replaced };
            let ghost view = header.deep_view();
            headers.set(index, header);
            assert(headers.deep_view() =~= before.update(index as int, view));
        }
        index += 1;
        assert(headers.deep_view() =~= changed.take(index as int) + all.skip(index as int));
    }
    assert(changed.take(index as int) + all.skip(index as int) =~= changed);
}

/// Whether a generated record belongs in a completion archive: any but its own `warcinfo`.
pub fn is_copied(record_type: &Option<Vec<u8>>) -> (copied: bool)
    ensures
        copied == !is_of_type(evidence::header_bytes(*record_type), "warcinfo"@),
{
    !has_type(record_type, "warcinfo")
}

/// Refers a generated record to the source's `warcinfo` record.
pub fn retarget(headers: &mut Vec<Header>, warcinfo_id: &Vec<u8>)
    ensures
        final(headers).deep_view() == with_value(
            old(headers).deep_view(),
            "WARC-Warcinfo-ID"@,
            warcinfo_id@,
        ),
{
    set_value(headers, "WARC-Warcinfo-ID", warcinfo_id.as_slice());
}

/// States the length of a record's new body.
pub fn set_content_length(headers: &mut Vec<Header>, length: usize)
    ensures
        final(headers).deep_view() == with_value(
            old(headers).deep_view(),
            "Content-Length"@,
            vstd::utf8::encode_utf8(text::decimal(length as nat)),
        ),
{
    let count = text::count_text(length);
    set_value(headers, "Content-Length", count.as_str().as_bytes());
}

/// The page that led to the target of a metadata record of a requested missing page.
pub open spec fn via_of(
    record_type: Option<Seq<u8>>,
    target: Option<Seq<u8>>,
    via_urls: Seq<(Seq<char>, Seq<char>)>,
) -> Option<Seq<char>> {
    match target {
        Some(target) => if is_of_type(record_type, "metadata"@) {
            match text::decoded(bytes::trimmed_ascii(target)) {
                Some(url) => web::first_value(via_urls, url),
                None => None,
            }
        } else {
            None
        },
        None => None,
    }
}

/// The page that led to the target of a metadata record of a requested missing page.
pub fn completion_via<'a>(
    record_type: &Option<Vec<u8>>,
    target: &Option<Vec<u8>>,
    via_urls: &'a Vec<(String, String)>,
) -> (found: Option<&'a str>)
    ensures
        found.deep_view() == via_of(
            evidence::header_bytes(*record_type),
            evidence::header_bytes(*target),
            via_urls.deep_view(),
        ),
{
    match target {
        Some(target) => if has_type(record_type, "metadata") {
            match text::decode(&bytes::trim_ascii(target.as_slice())) {
                Some(url) => web::find_value(via_urls, url.as_str()),
                None => None,
            }
        } else {
            None
        },
        None => None,
    }
}

/// A plan requests its missing pages one for one: the URL at each index is that of an archived
/// capture with the number of the missing page at the same index, and no URL is requested twice.
pub proof fn each_missing_page_is_requested_by_its_number(
    records: Seq<RecordView>,
    first: Option<FirstView>,
)
    requires
        planned(records, first) is Ok,
    ensures
        ({
            let plan = planned(records, first)->Ok_0;
            let paging = archived_paging(records)->0;
            &&& plan.requested_urls.len() == plan.missing_pages.len()
            &&& plan.missing_pages.len() > 0 ==> archived_paging(records) is Some
            &&& forall|index: int|
                0 <= index < plan.missing_pages.len() ==> #[trigger] plan.requested_urls[index]
                    == paging.prefix + text::decimal(plan.missing_pages[index] as nat)
                    + paging.suffix
            &&& plan.requested_urls.no_duplicates()
        }),
{
    let plan = planned(records, first)->Ok_0;
    let paging = archived_paging(records)->0;
    let seen = read::sightings(records);
    let total = read::greatest(read::totals(seen, seen[0].endpoint))->0;
    uncaptured_pages_are_those_without_a_capture(seen, seen[0].endpoint, total);
    assert forall|left: int, right: int|
        0 <= left < plan.requested_urls.len() && 0 <= right < plan.requested_urls.len() && left
            != right implies plan.requested_urls[left] != plan.requested_urls[right] by {
        assert(plan.missing_pages[left] != plan.missing_pages[right]);
        different_pages_have_different_urls(
            paging,
            plan.missing_pages[left] as nat,
            plan.missing_pages[right] as nat,
        );
    }
}

/// The pages of an endpoint that were not captured are exactly those from the first through the
/// total of which there is no capture, in ascending order.
pub proof fn uncaptured_pages_are_those_without_a_capture(
    seen: Seq<SightingView>,
    endpoint: Seq<char>,
    total: usize,
)
    ensures
        read::is_ascending(uncaptured_through(seen, endpoint, total as nat)),
        forall|page: usize| #[trigger]
            uncaptured_through(seen, endpoint, total as nat).contains(page) <==> 1 <= page <= total
                && !read::is_captured(seen, endpoint, page),
        forall|index: int|
            0 <= index < uncaptured_through(seen, endpoint, total as nat).len() ==> 1
                <= #[trigger] uncaptured_through(seen, endpoint, total as nat)[index] <= total,
    decreases total,
{
    let missing = uncaptured_through(seen, endpoint, total as nat);
    if total > 0 {
        let before = (total - 1) as usize;
        uncaptured_pages_are_those_without_a_capture(seen, endpoint, before);
        let earlier = uncaptured_through(seen, endpoint, before as nat);
        if read::is_captured(seen, endpoint, total) {
            assert forall|page: usize| #[trigger] missing.contains(page) <==> 1 <= page <= total
                && !read::is_captured(seen, endpoint, page) by {
                assert(earlier.contains(page) <==> 1 <= page <= before && !read::is_captured(
                    seen,
                    endpoint,
                    page,
                ));
            }
        } else {
            assert(missing[missing.len() - 1] == total);
            assert forall|page: usize| #[trigger] missing.contains(page) <==> 1 <= page <= total
                && !read::is_captured(seen, endpoint, page) by {
                assert(earlier.contains(page) <==> 1 <= page <= before && !read::is_captured(
                    seen,
                    endpoint,
                    page,
                ));
                if earlier.contains(page) {
                    assert(missing[earlier.index_of(page)] == page);
                }
                if missing.contains(page) {
                    let at = missing.index_of(page);
                    if at < earlier.len() {
                        assert(earlier[at] == page);
                    }
                }
            }
        }
    }
}

/// A plan's missing pages are those from the first through every advertised page total of which
/// there is no capture.
pub proof fn a_plan_holds_every_missing_page(
    records: Seq<RecordView>,
    first: Option<FirstView>,
    page: usize,
)
    requires
        planned(records, first) is Ok,
    ensures
        ({
            let plan = planned(records, first)->Ok_0;
            let seen = read::sightings(records);
            let endpoint = seen[0].endpoint;
            let advertised = read::totals(seen, endpoint);
            plan.missing_pages.contains(page) <==> {
                &&& 1 <= page
                &&& !read::is_captured(seen, endpoint, page)
                &&& exists|index: int|
                    0 <= index < advertised.len() && page <= #[trigger] advertised[index]
            }
        }),
{
    let plan = planned(records, first)->Ok_0;
    let seen = read::sightings(records);
    let endpoint = seen[0].endpoint;
    let advertised = read::totals(seen, endpoint);
    let total = read::greatest(advertised)->0;
    read::the_greatest_is_exceeded_by_none(advertised);
    uncaptured_pages_are_those_without_a_capture(seen, endpoint, total);
    assert(plan.missing_pages == uncaptured_through(seen, endpoint, total as nat));
    if plan.missing_pages.contains(page) {
        let at = advertised.index_of(total);
        assert(page <= advertised[at]);
    }
}

/// The pages that are not among those captured are kept, in order.
pub proof fn uncaptured_pages_are_the_rest(missing: Seq<usize>, captured: Seq<usize>)
    ensures
        pages_without(missing, captured) == missing.filter(
            |page: usize| !captured.contains(page),
        ),
    decreases missing.len(),
{
    reveal(Seq::filter);
    if missing.len() > 0 {
        uncaptured_pages_are_the_rest(missing.drop_last(), captured);
    }
}

/// The paging URL of an archive is made of the first capture that names its page, and of the first
/// capture of a page where none names it; there is none only where no page was captured.
pub proof fn an_archive_is_paged_as_its_captures(records: Seq<RecordView>, index: int)
    requires
        0 <= index < records.len(),
        paged(records[index]) is Some,
    ensures
        archived_paging(records) is Some,
        PagingView::explicit(paged(records[index])->0) is Some && (forall|earlier: int|
            0 <= earlier < index ==> (paged(#[trigger] records[earlier]) matches Some(url)
                ==> PagingView::explicit(url) is None)) ==> archived_paging(records)
            == PagingView::explicit(paged(records[index])->0),
        (forall|other: int|
            0 <= other < records.len() ==> (paged(#[trigger] records[other]) matches Some(url)
                ==> PagingView::explicit(url) is None)) && (forall|earlier: int|
            0 <= earlier < index ==> paged(#[trigger] records[earlier]) is None)
            ==> archived_paging(records) == Some(
            PagingView::implicit(paged(records[index])->0),
        ),
    decreases records.len(),
{
    let rest = records.drop_first();
    if index > 0 {
        assert(rest[index - 1] == records[index]);
        an_archive_is_paged_as_its_captures(rest, index - 1);
        if PagingView::explicit(paged(records[index])->0) is Some && (forall|earlier: int|
            0 <= earlier < index ==> (paged(#[trigger] records[earlier]) matches Some(url)
                ==> PagingView::explicit(url) is None)) {
            assert forall|earlier: int| 0 <= earlier < index - 1 implies (paged(
                #[trigger] rest[earlier],
            ) matches Some(url) ==> PagingView::explicit(url) is None) by {
                assert(rest[earlier] == records[earlier + 1]);
            }
            assert(first_explicit(records) == first_explicit(rest)) by {
                assert(paged(records[0]) matches Some(url) ==> PagingView::explicit(url) is None);
            }
            lemma_named_first(rest, index - 1);
        }
        if forall|earlier: int| 0 <= earlier < index ==> paged(#[trigger] records[earlier]) is None {
            assert(paged(records[0]) is None);
            assert forall|earlier: int| 0 <= earlier < index - 1 implies paged(
                #[trigger] rest[earlier],
            ) is None by {
                assert(rest[earlier] == records[earlier + 1]);
            }
            lemma_captured_first(rest, index - 1);
        }
    }
    if forall|other: int|
        0 <= other < records.len() ==> (paged(#[trigger] records[other]) matches Some(url)
            ==> PagingView::explicit(url) is None) {
        lemma_no_capture_names_its_page(records);
    }
}

proof fn lemma_named_first(records: Seq<RecordView>, index: int)
    requires
        0 <= index < records.len(),
        paged(records[index]) is Some,
        PagingView::explicit(paged(records[index])->0) is Some,
        forall|earlier: int|
            0 <= earlier < index ==> (paged(#[trigger] records[earlier]) matches Some(url)
                ==> PagingView::explicit(url) is None),
    ensures
        first_explicit(records) == PagingView::explicit(paged(records[index])->0),
    decreases records.len(),
{
    if index > 0 {
        let rest = records.drop_first();
        assert(paged(records[0]) matches Some(url) ==> PagingView::explicit(url) is None);
        assert forall|earlier: int| 0 <= earlier < index - 1 implies (paged(
            #[trigger] rest[earlier],
        ) matches Some(url) ==> PagingView::explicit(url) is None) by {
            assert(rest[earlier] == records[earlier + 1]);
        }
        assert(rest[index - 1] == records[index]);
        lemma_named_first(rest, index - 1);
    }
}

proof fn lemma_captured_first(records: Seq<RecordView>, index: int)
    requires
        0 <= index < records.len(),
        paged(records[index]) is Some,
        forall|earlier: int| 0 <= earlier < index ==> paged(#[trigger] records[earlier]) is None,
    ensures
        first_implicit(records) == Some(PagingView::implicit(paged(records[index])->0)),
    decreases records.len(),
{
    if index > 0 {
        let rest = records.drop_first();
        assert(paged(records[0]) is None);
        assert forall|earlier: int| 0 <= earlier < index - 1 implies paged(
            #[trigger] rest[earlier],
        ) is None by {
            assert(rest[earlier] == records[earlier + 1]);
        }
        assert(rest[index - 1] == records[index]);
        lemma_captured_first(rest, index - 1);
    }
}

proof fn lemma_no_capture_names_its_page(records: Seq<RecordView>)
    requires
        forall|other: int|
            0 <= other < records.len() ==> (paged(#[trigger] records[other]) matches Some(url)
                ==> PagingView::explicit(url) is None),
    ensures
        first_explicit(records) is None,
    decreases records.len(),
{
    if records.len() > 0 {
        assert(records[0] == records.first());
        assert forall|other: int| 0 <= other < records.drop_first().len() implies (paged(
            #[trigger] records.drop_first()[other],
        ) matches Some(url) ==> PagingView::explicit(url) is None) by {
            assert(records.drop_first()[other] == records[other + 1]);
        }
        lemma_no_capture_names_its_page(records.drop_first());
    }
}

/// The number of a page stands in a URL that names its page behind `page=`, and before the end of
/// that parameter.
pub proof fn a_number_is_the_value_of_the_page_parameter(url: Seq<char>)
    requires
        PagingView::explicit(url) is Some,
    ensures
        ({
            let paging = PagingView::explicit(url)->0;
            &&& "page="@.is_suffix_of(paging.prefix)
            &&& paging.suffix.len() == 0 || paging.suffix[0] == '&' || paging.suffix[0] == '#'
            &&& paging.prefix.len() >= 6 && (paging.prefix[paging.prefix.len() - 6] == '?'
                || paging.prefix[paging.prefix.len() - 6] == '&')
        }),
{
    let start = query_start(url)->0;
    let end = next_or_end(url, '#', start, url.len() as int);
    lemma_query_start(url);
    lemma_next_or_end(url, '#', start, url.len() as int);
    lemma_page_values(url, start, end);
    let places = page_values(url, start, end);
    lemma_values_follow_their_name(url, start, end, 0);
    let paging = PagingView::explicit(url)->0;
    reveal_strlit("page=");
    reveal_strlit("?");
    text::lemma_found_from(url, "?"@, 0);
    let (from, to) = places[0];
    assert(paging.prefix.skip(from - 5) =~= url.subrange(from - 5, from));
    if to < url.len() {
        assert(paging.suffix[0] == url[to]);
    }
    assert(paging.prefix[paging.prefix.len() - 6] == url[from - 6]);
    if from - 5 == start {
        assert(url.subrange(start - 1, start)[0] == url[start - 1]);
    }
}

proof fn lemma_values_follow_their_name(url: Seq<char>, start: int, end: int, index: int)
    requires
        0 <= start <= end <= url.len(),
        0 <= index < page_values(url, start, end).len(),
    ensures
        ({
            let (from, to) = page_values(url, start, end)[index];
            &&& start + 5 <= from <= to <= end
            &&& url.subrange(from - 5, from) == "page="@
            &&& from - 5 == start || url[from - 6] == '&'
            &&& to == end || url[to] == '&'
        }),
    decreases end - start,
{
    lemma_next_or_end(url, '&', start, end);
    let stop = next_or_end(url, '&', start, end);
    let here = if start + 5 <= stop && url.subrange(start, start + 5) == "page="@ {
        1int
    } else {
        0int
    };
    if stop < end && index >= here {
        lemma_values_follow_their_name(url, stop + 1, end, index - here);
    }
}

/// A URL without a query is paged by one that asks for the page, and one with a query by a further
/// parameter at its end; a fragment stays behind it.
pub proof fn a_page_is_asked_for_at_the_end_of_a_query(
    path: Seq<char>,
    query: Seq<char>,
    page: nat,
)
    requires
        !path.contains('?'),
        !path.contains('#'),
        !query.contains('#'),
        query.len() > 0,
        query.last() != '&',
    ensures
        PagingView::implicit(path).url(page) == path + "?page="@ + text::decimal(page),
        PagingView::implicit(path + seq!['?'] + query).url(page) == path + seq!['?'] + query
            + "&page="@ + text::decimal(page),
{
    reveal_strlit("?");
    reveal_strlit("&");
    reveal_strlit("page=");
    reveal_strlit("?page=");
    reveal_strlit("&page=");
    assert("?"@ =~= seq!['?']);
    let whole = path + seq!['?'] + query;
    lemma_next_or_end(path, '#', 0, path.len() as int);
    lemma_next_or_end(whole, '#', 0, whole.len() as int);
    let bare = next_or_end(path, '#', 0, path.len() as int);
    if bare < path.len() {
        assert(path.contains('#'));
    }
    let fragment = next_or_end(whole, '#', 0, whole.len() as int);
    if fragment < whole.len() {
        if fragment < path.len() {
            assert(path[fragment] == '#');
        } else if fragment > path.len() {
            assert(query[fragment - path.len() - 1] == '#');
        }
    }
    assert(path.take(bare) =~= path);
    assert(path.skip(bare) =~= Seq::empty());
    assert(whole.take(fragment) =~= whole);
    assert(whole.skip(fragment) =~= Seq::empty());
    text::lemma_no_split(path, '?');
    text::lemma_split_at_first(path, '?', query);
    assert(whole.last() == query.last());
    assert(PagingView::implicit(path).url(page) =~= path + "?page="@ + text::decimal(page));
    assert(PagingView::implicit(whole).url(page) =~= whole + "&page="@ + text::decimal(page));
}

/// A header's new value stands behind a space under its old name, whatever its case; the other
/// headers and the order stay.
pub proof fn only_the_named_headers_change(
    headers: Seq<HeaderView>,
    name: Seq<char>,
    value: Seq<u8>,
    index: int,
)
    requires
        0 <= index < headers.len(),
    ensures
        with_value(headers, name, value).len() == headers.len(),
        with_value(headers, name, value)[index].name == headers[index].name,
        headers[index].name == name ==> with_value(headers, name, value)[index].value == seq![
            0x20u8,
        ] + value,
        text::lower(headers[index].name) != text::lower(name) ==> with_value(
            headers,
            name,
            value,
        )[index] == headers[index],
{
}

/// An archive's `warcinfo` record is identified exactly where it is the first record and has an
/// identifier that is not blank.
pub proof fn a_warcinfo_record_comes_first(first: Option<FirstView>)
    ensures
        identified_warcinfo(first) is Ok <==> first is Some && is_of_type(
            first->0.record_type,
            "warcinfo"@,
        ) && first->0.record_id is Some && bytes::trimmed_ascii(first->0.record_id->0).len() > 0,
        identified_warcinfo(first) matches Ok(id) ==> id == bytes::trimmed_ascii(
            first->0.record_id->0,
        ),
        identified_warcinfo(first) == Err::<Seq<u8>, ErrorView>(ErrorView::MissingWarcinfo)
            <==> first is None || !is_of_type(first->0.record_type, "warcinfo"@),
{
}

/// The metadata of a requested missing page after the first is led to by the page before it; that
/// of another URL or of another kind of record by none.
pub proof fn metadata_is_led_to_by_the_page_before(
    paging: PagingView,
    pages: Seq<usize>,
    page: usize,
    record_type: Option<Seq<u8>>,
    target: Seq<u8>,
)
    requires
        text::decoded(bytes::trimmed_ascii(target)) == Some(paging.url(page as nat)),
    ensures
        via_of(record_type, Some(target), predecessors(paging, pages)) == (if page > 1
            && pages.contains(page) && is_of_type(record_type, "metadata"@) {
            Some(paging.url((page - 1) as nat))
        } else {
            None
        }),
        via_of(record_type, None, predecessors(paging, pages)) is None,
{
    missing_pages_follow_their_predecessors(paging, pages, page);
}

/// A completion is complete exactly where no page is left uncaptured and no HTTP capture was
/// incomplete.
pub proof fn a_completion_is_complete_without_gaps(
    uncaptured_pages: Seq<usize>,
    archive: Option<bool>,
)
    ensures
        is_completed(uncaptured_pages, archive) <==> uncaptured_pages.len() == 0 && (
        archive is None || archive->0),
{
}

/// A query that is empty or ends with an ampersand takes the page without another.
pub proof fn a_page_needs_no_second_ampersand(path: Seq<char>, query: Seq<char>, page: nat)
    requires
        !path.contains('?'),
        !path.contains('#'),
        !query.contains('#'),
        query.len() == 0 || query.last() == '&',
    ensures
        PagingView::implicit(path + seq!['?'] + query).url(page) == path + seq!['?'] + query
            + "page="@ + text::decimal(page),
{
    reveal_strlit("?");
    reveal_strlit("");
    assert("?"@ =~= seq!['?']);
    let whole = path + seq!['?'] + query;
    lemma_next_or_end(whole, '#', 0, whole.len() as int);
    let fragment = next_or_end(whole, '#', 0, whole.len() as int);
    if fragment < whole.len() {
        if fragment < path.len() {
            assert(path[fragment] == '#');
        } else if fragment > path.len() {
            assert(query[fragment - path.len() - 1] == '#');
        }
    }
    assert(whole.take(fragment) =~= whole);
    assert(whole.skip(fragment) =~= Seq::empty());
    text::lemma_split_at_first(path, '?', query);
    if query.len() > 0 {
        assert(whole.last() == query.last());
    }
    assert(PagingView::implicit(whole).url(page) =~= whole + "page="@ + text::decimal(page));
}

} // verus!
