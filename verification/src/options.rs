//! Page sizes, and the command that continues an archive.

use crate::archive::{ArchiveDriver, DriverView, DEFAULT_PER_PAGE};
use crate::clock;
use crate::clock::{Moment, Timestamp};
use crate::text;
use vstd::prelude::*;
use vstd::string::StringExecFns;

verus! {

/// A page size, for one endpoint or for all.
#[derive(Debug, Eq, PartialEq)]
pub struct PerPageValue {
    /// The endpoint's name; a size for all endpoints has none.
    pub endpoint: Option<String>,
    /// The number of items per page.
    pub value: usize,
}

/// The parts of a [`PerPageValue`].
#[verifier::ext_equal]
pub struct PerPageView {
    pub endpoint: Option<Seq<char>>,
    pub value: usize,
}

impl DeepView for PerPageValue {
    type V = PerPageView;

    open spec fn deep_view(&self) -> PerPageView {
        PerPageView { endpoint: self.endpoint.deep_view(), value: self.value }
    }
}

impl Clone for PerPageValue {
    fn clone(&self) -> (copy: Self)
        ensures
            copy.deep_view() == self.deep_view(),
    {
        PerPageValue { endpoint: text::copied(&self.endpoint), value: self.value }
    }
}

/// Whether a text holds white space.
pub open spec fn has_white_space(text: Seq<char>) -> bool {
    exists|index: int| 0 <= index < text.len() && text::is_white(#[trigger] text[index])
}

/// The endpoint and the count of a page-size setting.
pub open spec fn setting_parts(value: Seq<char>) -> (Option<Seq<char>>, Seq<char>) {
    match text::split_at_first(value, ":"@) {
        Some((endpoint, count)) => (Some(endpoint), count),
        None => (None, value),
    }
}

/// The page size that a setting denotes, such as `20` for all endpoints or `media:2` for one, or
/// what is wrong with it.
pub open spec fn parsed_per_page(value: Seq<char>) -> Result<PerPageView, Seq<char>> {
    let (endpoint, count) = setting_parts(value);
    if endpoint matches Some(name) && (name.len() == 0 || has_white_space(name)) {
        Err("endpoint name must be non-empty and contain no whitespace"@)
    } else {
        match text::parsed_count(count) {
            None => Err("page size must be an integer from 1 through 100"@),
            Some(value) => if 1 <= value <= DEFAULT_PER_PAGE {
                Ok(PerPageView { endpoint, value })
            } else {
                Err("page size must be from 1 through 100"@)
            },
        }
    }
}

fn holds_white_space(value: &str) -> (found: bool)
    ensures
        found == has_white_space(value@),
{
    let all = text::characters(value);
    let mut index: usize = 0;
    while index < all.len()
        invariant
            index <= all@.len(),
            all@ == value@,
            forall|earlier: int| 0 <= earlier < index ==> !text::is_white(#[trigger] all@[earlier]),
        decreases all@.len() - index,
    {
        if text::is_white_space(all[index]) {
            assert(text::is_white(value@[index as int]));
            return true;
        }
        index += 1;
    }
    false
}

/// Parse a page-size setting, such as `20` for all endpoints or `media:2` for one.
///
/// # Errors
///
/// Returns what is wrong with the endpoint's name or the count.
pub fn parse_per_page(value: &str) -> (setting: Result<PerPageValue, String>)
    ensures
        match setting {
            Ok(setting) => parsed_per_page(value@) == Ok::<PerPageView, Seq<char>>(
                setting.deep_view(),
            ),
            Err(message) => parsed_per_page(value@) == Err::<PerPageView, Seq<char>>(message@),
        },
{
    let (endpoint, count) = match text::split_once(value, ":") {
        Some((endpoint, count)) => (Some(endpoint), count),
        None => (None, value.to_owned()),
    };
    if let Some(name) = &endpoint {
        if name.as_str().unicode_len() == 0 || holds_white_space(name.as_str()) {
            return Err("endpoint name must be non-empty and contain no whitespace".to_owned());
        }
    }
    match text::parse_count(count.as_str()) {
        None => Err("page size must be an integer from 1 through 100".to_owned()),
        Some(value) => if 1 <= value && value <= DEFAULT_PER_PAGE {
            Ok(PerPageValue { endpoint, value })
        } else {
            Err("page size must be from 1 through 100".to_owned())
        },
    }
}

/// Default and named page sizes.
#[derive(Debug, Eq, PartialEq)]
pub struct PerPageOptions {
    /// The settings, of which a later one takes precedence.
    pub values: Vec<PerPageValue>,
}

impl DeepView for PerPageOptions {
    type V = Seq<PerPageView>;

    open spec fn deep_view(&self) -> Seq<PerPageView> {
        self.values.deep_view()
    }
}

/// Whether every setting is in WordPress's supported range.
pub open spec fn are_page_sizes(values: Seq<PerPageView>) -> bool {
    forall|index: int|
        0 <= index < values.len() ==> 1 <= (#[trigger] values[index]).value <= DEFAULT_PER_PAGE
}

/// The last page size for all endpoints, or the default.
pub open spec fn default_size(values: Seq<PerPageView>) -> usize
    decreases values.len(),
{
    if values.len() == 0 {
        DEFAULT_PER_PAGE
    } else if values.last().endpoint is None {
        values.last().value
    } else {
        default_size(values.drop_last())
    }
}

/// The last page size for one endpoint.
pub open spec fn size_for(values: Seq<PerPageView>, endpoint: Seq<char>) -> Option<usize>
    decreases values.len(),
{
    if values.len() == 0 {
        None
    } else if values.last().endpoint == Some(endpoint) {
        Some(values.last().value)
    } else {
        size_for(values.drop_last(), endpoint)
    }
}

/// Whether entries are in the order of their names, each name once.
pub open spec fn are_ordered(entries: Seq<(Seq<char>, usize)>) -> bool {
    forall|first: int, second: int|
        0 <= first < second < entries.len() ==> text::precedes(
            (#[trigger] entries[first]).0,
            (#[trigger] entries[second]).0,
        )
}

/// The value of a name among entries.
pub open spec fn entry_for(entries: Seq<(Seq<char>, usize)>, name: Seq<char>) -> Option<usize>
    decreases entries.len(),
{
    if entries.len() == 0 {
        None
    } else if entries[0].0 == name {
        Some(entries[0].1)
    } else {
        entry_for(entries.drop_first(), name)
    }
}

/// Ordered entries with one more, which replaces that of the same name.
pub open spec fn with_entry(
    entries: Seq<(Seq<char>, usize)>,
    name: Seq<char>,
    value: usize,
) -> Seq<(Seq<char>, usize)>
    decreases entries.len(),
{
    if entries.len() == 0 {
        seq![(name, value)]
    } else if entries[0].0 == name {
        seq![(name, value)] + entries.drop_first()
    } else if text::precedes(name, entries[0].0) {
        seq![(name, value)] + entries
    } else {
        seq![entries[0]] + with_entry(entries.drop_first(), name, value)
    }
}

/// The page sizes for single endpoints, in the order of their names.
pub open spec fn endpoint_sizes(values: Seq<PerPageView>) -> Seq<(Seq<char>, usize)>
    decreases values.len(),
{
    if values.len() == 0 {
        Seq::empty()
    } else {
        match values.last().endpoint {
            Some(endpoint) => with_entry(
                endpoint_sizes(values.drop_last()),
                endpoint,
                values.last().value,
            ),
            None => endpoint_sizes(values.drop_last()),
        }
    }
}

proof fn lemma_with_entry(entries: Seq<(Seq<char>, usize)>, name: Seq<char>, value: usize)
    requires
        are_ordered(entries),
    ensures
        are_ordered(with_entry(entries, name, value)),
        forall|other: Seq<char>| #[trigger]
            entry_for(with_entry(entries, name, value), other) == (if other == name {
                Some(value)
            } else {
                entry_for(entries, other)
            }),
        forall|index: int|
            0 <= index < with_entry(entries, name, value).len() ==> {
                let entry = #[trigger] with_entry(entries, name, value)[index];
                entry.0 == name || exists|at: int|
                    0 <= at < entries.len() && (#[trigger] entries[at]).0 == entry.0
            },
    decreases entries.len(),
{
    let after = with_entry(entries, name, value);
    if entries.len() == 0 {
        assert(after.drop_first() == Seq::<(Seq<char>, usize)>::empty());
        assert(entry_for(after.drop_first(), name) is None);
        assert forall|other: Seq<char>| #[trigger]
            entry_for(after, other) == (if other == name {
                Some(value)
            } else {
                entry_for(entries, other)
            }) by {
            assert(entry_for(after.drop_first(), other) is None);
        }
    } else {
        let rest = entries.drop_first();
        assert(are_ordered(rest)) by {
            assert forall|first: int, second: int|
                0 <= first < second < rest.len() implies text::precedes(
                (#[trigger] rest[first]).0,
                (#[trigger] rest[second]).0,
            ) by {
                assert(rest[first] == entries[first + 1]);
                assert(rest[second] == entries[second + 1]);
            }
        }
        if entries[0].0 == name {
            assert(after.drop_first() == rest);
            assert forall|index: int| 0 <= index < after.len() implies {
                let entry = #[trigger] after[index];
                entry.0 == name || exists|at: int|
                    0 <= at < entries.len() && (#[trigger] entries[at]).0 == entry.0
            } by {
                assert(entries[index].0 == after[index].0);
            }
            assert forall|first: int, second: int|
                0 <= first < second < after.len() implies text::precedes(
                (#[trigger] after[first]).0,
                (#[trigger] after[second]).0,
            ) by {
                assert(entries[first].0 == after[first].0);
                assert(entries[second].0 == after[second].0);
            }
        } else if text::precedes(name, entries[0].0) {
            assert(after.drop_first() == entries);
            assert forall|index: int| 0 <= index < after.len() implies {
                let entry = #[trigger] after[index];
                entry.0 == name || exists|at: int|
                    0 <= at < entries.len() && (#[trigger] entries[at]).0 == entry.0
            } by {
                if index > 0 {
                    assert(entries[index - 1].0 == after[index].0);
                }
            }
            assert forall|first: int, second: int|
                0 <= first < second < after.len() implies text::precedes(
                (#[trigger] after[first]).0,
                (#[trigger] after[second]).0,
            ) by {
                assert(after[second] == entries[second - 1]);
                if first > 0 {
                    assert(after[first] == entries[first - 1]);
                } else if second > 1 {
                    text::lemma_precedes_is_transitive(
                        name,
                        entries[0].0,
                        entries[second - 1].0,
                    );
                }
            }
        } else {
            lemma_with_entry(rest, name, value);
            let later = with_entry(rest, name, value);
            assert(after.drop_first() == later);
            text::lemma_precedes_is_total(name, entries[0].0);
            assert forall|index: int| 0 <= index < after.len() implies {
                let entry = #[trigger] after[index];
                entry.0 == name || exists|at: int|
                    0 <= at < entries.len() && (#[trigger] entries[at]).0 == entry.0
            } by {
                if index > 0 {
                    assert(after[index] == later[index - 1]);
                    if after[index].0 != name {
                        let at = choose|at: int|
                            0 <= at < rest.len() && (#[trigger] rest[at]).0 == after[index].0;
                        assert(entries[at + 1].0 == after[index].0);
                    }
                } else {
                    assert(entries[0].0 == after[0].0);
                }
            }
            assert forall|first: int, second: int|
                0 <= first < second < after.len() implies text::precedes(
                (#[trigger] after[first]).0,
                (#[trigger] after[second]).0,
            ) by {
                assert(after[second] == later[second - 1]);
                if first > 0 {
                    assert(after[first] == later[first - 1]);
                } else if after[second].0 != name {
                    let at = choose|at: int|
                        0 <= at < rest.len() && (#[trigger] rest[at]).0 == after[second].0;
                    assert(entries[at + 1] == rest[at]);
                }
            }
            assert forall|other: Seq<char>| #[trigger]
                entry_for(after, other) == (if other == name {
                    Some(value)
                } else {
                    entry_for(entries, other)
                }) by {
                assert(entry_for(later, other) == (if other == name {
                    Some(value)
                } else {
                    entry_for(rest, other)
                }));
            }
        }
    }
}

/// The page sizes for single endpoints are in the order of the endpoints' names, each name once,
/// and each is the endpoint's last setting.
pub proof fn endpoint_sizes_are_ordered(values: Seq<PerPageView>)
    ensures
        are_ordered(endpoint_sizes(values)),
        forall|endpoint: Seq<char>| #[trigger]
            entry_for(endpoint_sizes(values), endpoint) == size_for(values, endpoint),
    decreases values.len(),
{
    if values.len() > 0 {
        let earlier = values.drop_last();
        endpoint_sizes_are_ordered(earlier);
        if let Some(endpoint) = values.last().endpoint {
            lemma_with_entry(endpoint_sizes(earlier), endpoint, values.last().value);
        }
        assert forall|endpoint: Seq<char>| #[trigger]
            entry_for(endpoint_sizes(values), endpoint) == size_for(values, endpoint) by {
            assert(entry_for(endpoint_sizes(earlier), endpoint) == size_for(earlier, endpoint));
        }
    }
}

/// Ordered entries with one more, which replaces that of the same name.
fn insert_entry(entries: &mut Vec<(String, usize)>, name: &str, value: usize)
    ensures
        final(entries).deep_view() == with_entry(old(entries).deep_view(), name@, value),
{
    let ghost all = entries.deep_view();
    let mut index: usize = 0;
    assert(all.skip(0) == all);
    assert(all.take(0) + with_entry(all, name@, value) == with_entry(all, name@, value));
    while index < entries.len()
        invariant
            index <= entries@.len(),
            all == entries.deep_view(),
            all == old(entries).deep_view(),
            with_entry(all, name@, value) == all.take(index as int) + with_entry(
                all.skip(index as int),
                name@,
                value,
            ),
        decreases entries@.len() - index,
    {
        let ghost rest = all.skip(index as int);
        assert(rest.drop_first() == all.skip(index + 1));
        assert(rest[0] == entries@[index as int].deep_view());
        let entry = (name.to_owned(), value);
        assert(entry.deep_view() == (name@, value));
        if text::same(entries[index].0.as_str(), name) {
            entries.set(index, entry);
            assert(entries.deep_view() =~= all.take(index as int) + (seq![(name@, value)]
                + rest.drop_first()));
            return ;
        }
        if text::comes_before(name, entries[index].0.as_str()) {
            entries.insert(index, entry);
            assert(entries.deep_view() =~= all.take(index as int) + (seq![(name@, value)] + rest));
            return ;
        }
        assert(all.take(index as int) + (seq![rest[0]] + with_entry(
            rest.drop_first(),
            name@,
            value,
        )) =~= all.take(index + 1) + with_entry(rest.drop_first(), name@, value));
        index += 1;
    }
    let entry = (name.to_owned(), value);
    assert(entry.deep_view() == (name@, value));
    entries.push(entry);
    assert(all.skip(index as int) == Seq::<(Seq<char>, usize)>::empty());
    assert(entries.deep_view() =~= all.take(index as int) + seq![(name@, value)]);
}

/// Page sizes by endpoint after some settings, a later one taking precedence.
pub open spec fn with_sizes(sizes: Map<Seq<char>, usize>, values: Seq<PerPageView>) -> Map<
    Seq<char>,
    usize,
>
    decreases values.len(),
{
    if values.len() == 0 {
        sizes
    } else {
        let earlier = with_sizes(sizes, values.drop_last());
        match values.last().endpoint {
            Some(endpoint) => earlier.insert(endpoint, values.last().value),
            None => earlier,
        }
    }
}

/// A driver that requests pages of these sizes.
pub open spec fn configured(driver: DriverView, values: Seq<PerPageView>) -> DriverView {
    DriverView {
        per_page: default_size(values),
        endpoint_per_page: with_sizes(driver.endpoint_per_page, values),
        ..driver
    }
}

/// A configured driver requests each endpoint's pages at the endpoint's last setting, or else at
/// the last setting for all.
pub proof fn configured_sizes_follow_the_settings(
    driver: DriverView,
    values: Seq<PerPageView>,
    endpoint: Seq<char>,
)
    requires
        !driver.endpoint_per_page.contains_key(endpoint),
    ensures
        configured(driver, values).per_page_for(endpoint) == (match size_for(values, endpoint) {
            Some(size) => size,
            None => default_size(values),
        }),
{
    lemma_with_sizes(driver.endpoint_per_page, values, endpoint);
}

proof fn lemma_with_sizes(
    sizes: Map<Seq<char>, usize>,
    values: Seq<PerPageView>,
    endpoint: Seq<char>,
)
    requires
        !sizes.contains_key(endpoint),
    ensures
        match size_for(values, endpoint) {
            Some(size) => with_sizes(sizes, values).contains_key(endpoint) && with_sizes(
                sizes,
                values,
            )[endpoint] == size,
            None => !with_sizes(sizes, values).contains_key(endpoint),
        },
    decreases values.len(),
{
    if values.len() > 0 {
        lemma_with_sizes(sizes, values.drop_last(), endpoint);
    }
}

impl PerPageOptions {
    /// No settings.
    pub fn none() -> (options: Self)
        ensures
            options.deep_view() == Seq::<PerPageView>::empty(),
    {
        let options = PerPageOptions { values: Vec::new() };
        assert(options.deep_view() == Seq::<PerPageView>::empty());
        options
    }

    /// The last page size for all endpoints, or the default.
    pub fn default_value(&self) -> (value: usize)
        ensures
            value == default_size(self.deep_view()),
    {
        let ghost all = self.deep_view();
        let mut end: usize = self.values.len();
        assert(all.take(end as int) == all);
        while end > 0
            invariant
                end <= self.values@.len(),
                all == self.deep_view(),
                default_size(all) == default_size(all.take(end as int)),
            decreases end,
        {
            assert(all.take(end as int).drop_last() == all.take(end - 1));
            if self.values[end - 1].endpoint.is_none() {
                return self.values[end - 1].value;
            }
            end -= 1;
        }
        DEFAULT_PER_PAGE
    }

    /// The page sizes for single endpoints, in the order of their names.
    pub fn endpoint_values(&self) -> (entries: Vec<(String, usize)>)
        ensures
            entries.deep_view() == endpoint_sizes(self.deep_view()),
    {
        let ghost all = self.deep_view();
        let mut entries: Vec<(String, usize)> = Vec::new();
        let mut index: usize = 0;
        assert(entries.deep_view() == Seq::<(Seq<char>, usize)>::empty());
        while index < self.values.len()
            invariant
                index <= self.values@.len(),
                all == self.deep_view(),
                entries.deep_view() == endpoint_sizes(all.take(index as int)),
            decreases self.values@.len() - index,
        {
            assert(all.take(index + 1).drop_last() == all.take(index as int));
            if let Some(endpoint) = &self.values[index].endpoint {
                insert_entry(&mut entries, endpoint.as_str(), self.values[index].value);
            }
            index += 1;
        }
        assert(all.take(index as int) == all);
        entries
    }

    /// Make a driver request pages of these sizes.
    pub fn configure(&self, driver: ArchiveDriver) -> (configured: ArchiveDriver)
        requires
            are_page_sizes(self.deep_view()),
            driver.deep_view().is_valid(),
        ensures
            configured.deep_view() == self::configured(driver.deep_view(), self.deep_view()),
            configured.deep_view().is_valid(),
    {
        let ghost all = self.deep_view();
        let ghost start = driver.deep_view();
        proof {
            lemma_default_size(all);
        }
        let mut configured = driver.with_per_page(self.default_value());
        let mut index: usize = 0;
        while index < self.values.len()
            invariant
                index <= self.values@.len(),
                all == self.deep_view(),
                are_page_sizes(all),
                configured.deep_view().is_valid(),
                configured.deep_view() == (DriverView {
                    per_page: default_size(all),
                    endpoint_per_page: with_sizes(start.endpoint_per_page, all.take(index as int)),
                    ..start
                }),
            decreases self.values@.len() - index,
        {
            assert(all.take(index + 1).drop_last() == all.take(index as int));
            assert(all[index as int] == self.values@[index as int].deep_view());
            if let Some(endpoint) = &self.values[index].endpoint {
                configured =
                configured.with_per_page_for(endpoint.clone(), self.values[index].value);
            }
            index += 1;
        }
        assert(all.take(index as int) == all);
        configured
    }
}

proof fn lemma_default_size(values: Seq<PerPageView>)
    requires
        are_page_sizes(values),
    ensures
        1 <= default_size(values) <= DEFAULT_PER_PAGE,
    decreases values.len(),
{
    if values.len() > 0 {
        assert forall|index: int| 0 <= index < values.drop_last().len() implies 1 <= (
        #[trigger] values.drop_last()[index]).value <= DEFAULT_PER_PAGE by {
            assert(values.drop_last()[index] == values[index]);
        }
        lemma_default_size(values.drop_last());
        assert(values[values.len() - 1] == values.last());
    }
}

/// Whether a shell reads a character as itself in an unquoted word.
pub open spec fn is_plain(character: char) -> bool {
    ||| 'a' <= character <= 'z'
    ||| 'A' <= character <= 'Z'
    ||| '0' <= character <= '9'
    ||| character == '_'
    ||| character == '@'
    ||| character == '%'
    ||| character == '+'
    ||| character == '='
    ||| character == ':'
    ||| character == ','
    ||| character == '.'
    ||| character == '/'
    ||| character == '-'
}

/// Whether a shell reads a word without quotes as its text.
pub open spec fn is_plain_word(text: Seq<char>) -> bool {
    text.len() > 0 && forall|index: int|
        0 <= index < text.len() ==> is_plain(#[trigger] text[index])
}

/// A text with every apostrophe replaced by one that is quoted on its own.
pub open spec fn escaped(text: Seq<char>) -> Seq<char>
    decreases text.len(),
{
    if text.len() == 0 {
        Seq::empty()
    } else if text.last() == '\'' {
        escaped(text.drop_last()) + "'\"'\"'"@
    } else {
        escaped(text.drop_last()).push(text.last())
    }
}

/// One command-line argument, quoted for a POSIX-compatible shell.
pub open spec fn word(text: Seq<char>) -> Seq<char> {
    if is_plain_word(text) {
        text
    } else {
        seq!['\''] + escaped(text) + seq!['\'']
    }
}

fn is_plain_text(all: &Vec<char>) -> (plain: bool)
    ensures
        plain == is_plain_word(all@),
{
    if all.len() == 0 {
        return false;
    }
    let mut index: usize = 0;
    while index < all.len()
        invariant
            index <= all@.len(),
            all@.len() > 0,
            forall|earlier: int| 0 <= earlier < index ==> is_plain(#[trigger] all@[earlier]),
        decreases all@.len() - index,
    {
        let character = all[index];
        let plain = ('a' <= character && character <= 'z') || ('A' <= character && character
            <= 'Z') || ('0' <= character && character <= '9') || character == '_' || character
            == '@' || character == '%' || character == '+' || character == '=' || character == ':'
            || character == ',' || character == '.' || character == '/' || character == '-';
        if !plain {
            assert(!is_plain(all@[index as int]));
            return false;
        }
        index += 1;
    }
    true
}

/// Quote one command-line argument for a POSIX-compatible shell.
pub fn shell_word(value: &str) -> (quoted: String)
    ensures
        quoted@ == word(value@),
{
    let all = text::characters(value);
    if is_plain_text(&all) {
        return value.to_owned();
    }
    let mut inner = String::new();
    let mut index: usize = 0;
    while index < all.len()
        invariant
            index <= all@.len(),
            all@ == value@,
            inner@ == escaped(all@.take(index as int)),
        decreases all@.len() - index,
    {
        assert(all@.take(index + 1).drop_last() == all@.take(index as int));
        let character = all[index];
        if character == '\'' {
            inner.append("'\"'\"'");
        } else {
            inner.push(character);
        }
        index += 1;
    }
    assert(all@.take(index as int) == all@);
    let mut quoted = String::new();
    quoted.push('\'');
    assert(quoted@ =~= seq!['\'']);
    quoted.append(inner.as_str());
    quoted.push('\'');
    assert(quoted@ =~= seq!['\''] + escaped(value@) + seq!['\'']);
    quoted
}

/// The settings for single endpoints as command-line options.
pub open spec fn size_options(entries: Seq<(Seq<char>, usize)>) -> Seq<char>
    decreases entries.len(),
{
    if entries.len() == 0 {
        ""@
    } else {
        size_options(entries.drop_last()) + " --per-page "@ + word(entries.last().0) + ":"@
            + text::decimal(entries.last().1 as nat)
    }
}

/// An option with a path, where there is one.
pub open spec fn path_option(flag: Seq<char>, path: Option<Seq<char>>) -> Seq<char> {
    match path {
        Some(path) => " "@ + flag + " "@ + word(path),
        None => ""@,
    }
}

/// The command continuing the archive segments that share a session name.
pub open spec fn continuation(
    output: Seq<char>,
    session_name: Seq<char>,
    config: Option<Seq<char>>,
    revisit_index: Option<Seq<char>>,
    before: Option<Moment>,
    per_page: Seq<PerPageView>,
) -> Seq<char> {
    "archivindex-wordpress-scraper resume-archive --output "@ + word(output) + " --session-name "@
        + word(session_name) + path_option("--config"@, config) + path_option(
        "--revisit-index"@,
        revisit_index,
    ) + (match before {
        Some(before) => " --before "@ + word(
            clock::whole_second_text(before.seconds, before.nanos),
        ),
        None => ""@,
    }) + (if default_size(per_page) != DEFAULT_PER_PAGE {
        " --per-page "@ + text::decimal(default_size(per_page) as nat)
    } else {
        ""@
    }) + size_options(endpoint_sizes(per_page))
}

fn render_path_option(flag: &str, path: Option<&str>) -> (option: String)
    ensures
        option@ == path_option(flag@, path.deep_view()),
{
    match path {
        Some(path) => {
            let mut option = text::joined(" ", flag);
            option.append(" ");
            option.append(shell_word(path).as_str());
            option
        },
        None => "".to_owned(),
    }
}

/// The command continuing the archive segments sharing `session_name`.
///
/// A cookie is not repeated because it is a secret. The capture limit is not repeated so a
/// continuation finishes by default.
pub fn resume_command(
    output: &str,
    session_name: &str,
    config: Option<&str>,
    revisit_index: Option<&str>,
    before: Option<Timestamp>,
    per_page: &PerPageOptions,
) -> (command: String)
    ensures
        command@ == continuation(
            output@,
            session_name@,
            config.deep_view(),
            revisit_index.deep_view(),
            before.deep_view(),
            per_page.deep_view(),
        ),
{
    let mut command = text::joined(
        "archivindex-wordpress-scraper resume-archive --output ",
        shell_word(output).as_str(),
    );
    command.append(" --session-name ");
    command.append(shell_word(session_name).as_str());
    command.append(render_path_option("--config", config).as_str());
    command.append(render_path_option("--revisit-index", revisit_index).as_str());
    let cutoff = match before {
        Some(before) => text::joined(
            " --before ",
            shell_word(before.rendered().as_str()).as_str(),
        ),
        None => "".to_owned(),
    };
    command.append(cutoff.as_str());
    let default_per_page = per_page.default_value();
    let size = if default_per_page != DEFAULT_PER_PAGE {
        text::joined(" --per-page ", text::count_text(default_per_page).as_str())
    } else {
        "".to_owned()
    };
    command.append(size.as_str());
    let entries = per_page.endpoint_values();
    let ghost all = entries.deep_view();
    let mut sizes = "".to_owned();
    let mut index: usize = 0;
    while index < entries.len()
        invariant
            index <= entries@.len(),
            all == entries.deep_view(),
            sizes@ == size_options(all.take(index as int)),
        decreases entries@.len() - index,
    {
        assert(all.take(index + 1).drop_last() == all.take(index as int));
        assert(all[index as int] == entries@[index as int].deep_view());
        sizes.append(" --per-page ");
        sizes.append(shell_word(entries[index].0.as_str()).as_str());
        sizes.append(":");
        sizes.append(text::count_text(entries[index].1).as_str());
        index += 1;
    }
    assert(all.take(index as int) == all);
    command.append(sizes.as_str());
    command
}

/// A setting of a page size is read as the size that it names, for the endpoint before its colon or
/// for all; a size is always from 1 through 100.
pub proof fn settings_are_read_as_they_are_written(name: Seq<char>, size: usize)
    requires
        name.len() > 0,
        !has_white_space(name),
        !name.contains(':'),
    ensures
        1 <= size <= 100 ==> parsed_per_page(text::decimal(size as nat)) == Ok::<
            PerPageView,
            Seq<char>,
        >(PerPageView { endpoint: None, value: size }),
        1 <= size <= 100 ==> parsed_per_page(name + seq![':'] + text::decimal(size as nat)) == Ok::<
            PerPageView,
            Seq<char>,
        >(PerPageView { endpoint: Some(name), value: size }),
        size == 0 || size > 100 ==> parsed_per_page(text::decimal(size as nat)) is Err
            && parsed_per_page(name + seq![':'] + text::decimal(size as nat)) is Err,
{
    let number = text::decimal(size as nat);
    reveal_strlit(":");
    assert(":"@ =~= seq![':']);
    text::lemma_decimal_reads_back(size as nat);
    text::lemma_count_text_parses_back(size);
    assert(!number.contains(':')) by {
        if number.contains(':') {
            assert(text::is_digit(number[number.index_of(':')]));
        }
    }
    text::lemma_no_split(number, ':');
    text::lemma_split_at_first(name, ':', number);
}

/// A setting is refused where its endpoint is empty or holds white space, and a size that is read is
/// from 1 through 100.
pub proof fn settings_are_in_range(value: Seq<char>)
    ensures
        parsed_per_page(value) matches Ok(setting) ==> {
            &&& 1 <= setting.value <= 100
            &&& setting.endpoint matches Some(name) ==> name.len() > 0 && !has_white_space(name)
        },
{
}

/// The last setting takes precedence: for all endpoints that without an endpoint, and for one
/// endpoint that with its name.
pub proof fn the_last_setting_takes_precedence(
    values: Seq<PerPageView>,
    endpoint: Option<Seq<char>>,
    index: int,
)
    requires
        0 <= index < values.len(),
        values[index].endpoint == endpoint,
        forall|later: int|
            index < later < values.len() ==> (#[trigger] values[later]).endpoint != endpoint,
    ensures
        endpoint is None ==> default_size(values) == values[index].value,
        endpoint matches Some(name) ==> size_for(values, name) == Some(values[index].value),
    decreases values.len(),
{
    if index < values.len() - 1 {
        let before = values.drop_last();
        assert(values[values.len() - 1].endpoint != endpoint);
        assert(before[index] == values[index]);
        assert forall|later: int| index < later < before.len() implies (
        #[trigger] before[later]).endpoint != endpoint by {
            assert(before[later] == values[later]);
        }
        the_last_setting_takes_precedence(before, endpoint, index);
    }
}

/// Without a setting for all endpoints a page holds a hundred items, and an endpoint that is not set
/// has no size of its own.
pub proof fn unset_sizes_are_the_default(values: Seq<PerPageView>, endpoint: Option<Seq<char>>)
    requires
        forall|index: int|
            0 <= index < values.len() ==> (#[trigger] values[index]).endpoint != endpoint,
    ensures
        endpoint is None ==> default_size(values) == 100,
        endpoint matches Some(name) ==> size_for(values, name) is None,
    decreases values.len(),
{
    if values.len() > 0 {
        let before = values.drop_last();
        assert(values[values.len() - 1].endpoint != endpoint);
        assert forall|index: int| 0 <= index < before.len() implies (
        #[trigger] before[index]).endpoint != endpoint by {
            assert(before[index] == values[index]);
        }
        unset_sizes_are_the_default(before, endpoint);
    }
}

/// What a shell takes a word for: within single or double quotes every character stands for itself,
/// and outside of them every plain one; `None` where the word ends within quotes or holds another
/// character outside of them.
pub open spec fn unquoted(word: Seq<char>, quote: Option<char>) -> Option<Seq<char>>
    decreases word.len(),
{
    if word.len() == 0 {
        if quote is None {
            Some(Seq::empty())
        } else {
            None
        }
    } else {
        let first = word[0];
        let rest = word.drop_first();
        if quote == Some(first) {
            unquoted(rest, None)
        } else if quote is None && (first == '\'' || first == '"') {
            unquoted(rest, Some(first))
        } else if quote is Some || is_plain(first) {
            match unquoted(rest, quote) {
                Some(text) => Some(seq![first] + text),
                None => None,
            }
        } else {
            None
        }
    }
}

/// A shell takes the word of a text for the text.
pub proof fn a_shell_reads_a_word_as_its_text(text: Seq<char>)
    ensures
        unquoted(word(text), None) == Some(text),
        word(text).len() > 0,
{
    if is_plain_word(text) {
        lemma_plain_words_stand_for_themselves(text);
    } else {
        let end = seq!['\''];
        lemma_escaped_text_is_quoted(text, end);
        assert(end.drop_first() =~= Seq::empty());
        assert(unquoted(end.drop_first(), None) == Some(Seq::<char>::empty()));
        assert(unquoted(end, Some('\'')) == Some(Seq::<char>::empty()));
        assert(word(text).drop_first() =~= escaped(text) + end);
        assert(text + Seq::<char>::empty() =~= text);
    }
}

proof fn lemma_plain_words_stand_for_themselves(text: Seq<char>)
    requires
        forall|index: int| 0 <= index < text.len() ==> is_plain(#[trigger] text[index]),
    ensures
        unquoted(text, None) == Some(text),
    decreases text.len(),
{
    if text.len() > 0 {
        let rest = text.drop_first();
        assert forall|index: int| 0 <= index < rest.len() implies is_plain(
            #[trigger] rest[index],
        ) by {
            assert(rest[index] == text[index + 1]);
        }
        lemma_plain_words_stand_for_themselves(rest);
        assert(is_plain(text[0]));
        assert(seq![text[0]] + rest =~= text);
    } else {
        assert(text =~= Seq::empty());
    }
}

proof fn lemma_escaped_text_is_quoted(text: Seq<char>, rest: Seq<char>)
    ensures
        unquoted(escaped(text) + rest, Some('\'')) == (match unquoted(rest, Some('\'')) {
            Some(after) => Some(text + after),
            None => None,
        }),
    decreases text.len(),
{
    if text.len() == 0 {
        assert(escaped(text) + rest =~= rest);
        if let Some(after) = unquoted(rest, Some('\'')) {
            assert(text + after =~= after);
        }
    } else {
        let before = text.drop_last();
        let last = text.last();
        let tail = if last == '\'' {
            "'\"'\"'"@
        } else {
            seq![last]
        };
        assert(escaped(text) =~= escaped(before) + tail);
        assert(escaped(text) + rest =~= escaped(before) + (tail + rest));
        lemma_escaped_text_is_quoted(before, tail + rest);
        if last == '\'' {
            lemma_quoted_apostrophe(rest);
        } else {
            assert((tail + rest).drop_first() =~= rest);
        }
        if let Some(after) = unquoted(rest, Some('\'')) {
            assert(before + (seq![last] + after) =~= text + after);
        }
    }
}

proof fn lemma_quoted_apostrophe(rest: Seq<char>)
    ensures
        unquoted("'\"'\"'"@ + rest, Some('\'')) == (match unquoted(rest, Some('\'')) {
            Some(after) => Some(seq!['\''] + after),
            None => None,
        }),
{
    reveal_strlit("'\"'\"'");
    let whole = "'\"'\"'"@ + rest;
    let fourth = seq!['\''] + rest;
    let third = seq!['"'] + fourth;
    let second = seq!['\''] + third;
    let first = seq!['"'] + second;
    assert(whole =~= seq!['\''] + first);
    assert(whole.drop_first() =~= first);
    assert(first.drop_first() =~= second);
    assert(second.drop_first() =~= third);
    assert(third.drop_first() =~= fourth);
    assert(fourth.drop_first() =~= rest);
    assert(unquoted(fourth, None) == unquoted(rest, Some('\'')));
    assert(unquoted(third, Some('"')) == unquoted(fourth, None));
    assert(unquoted(second, Some('"')) == (match unquoted(third, Some('"')) {
        Some(after) => Some(seq!['\''] + after),
        None => None,
    }));
    assert(unquoted(first, None) == unquoted(second, Some('"')));
    assert(unquoted(whole, Some('\'')) == unquoted(first, None));
}

/// The command that continues an archive names its output and its session, and gives each further
/// option exactly where it is set.
pub proof fn a_continuation_gives_what_is_set(
    output: Seq<char>,
    session_name: Seq<char>,
    config: Seq<char>,
    revisit_index: Seq<char>,
    before: Moment,
    per_page: Seq<PerPageView>,
)
    ensures
        ({
            let start = "archivindex-wordpress-scraper resume-archive --output "@ + word(output)
                + " --session-name "@ + word(session_name);
            let least = continuation(output, session_name, None, None, None, Seq::empty());
            let whole = continuation(
                output,
                session_name,
                Some(config),
                Some(revisit_index),
                Some(before),
                per_page,
            );
            let sized = continuation(output, session_name, None, None, None, per_page);
            let given = " --config "@ + word(config) + " --revisit-index "@ + word(revisit_index)
                + " --before "@ + word(clock::whole_second_text(before.seconds, before.nanos));
            &&& least == start
            &&& start.is_prefix_of(sized)
            &&& whole == start + given + sized.skip(start.len() as int)
            &&& default_size(per_page) == 100 && endpoint_sizes(per_page).len() == 0 ==> sized
                == start
            &&& default_size(per_page) != 100 && endpoint_sizes(per_page).len() == 0 ==> sized
                == start + " --per-page "@ + text::decimal(default_size(per_page) as nat)
        }),
{
    reveal_strlit("");
    reveal_strlit(" ");
    reveal_strlit("--config");
    reveal_strlit("--revisit-index");
    reveal_strlit(" --config ");
    reveal_strlit(" --revisit-index ");
    let start = "archivindex-wordpress-scraper resume-archive --output "@ + word(output)
        + " --session-name "@ + word(session_name);
    let least = continuation(output, session_name, None, None, None, Seq::empty());
    let whole = continuation(
        output,
        session_name,
        Some(config),
        Some(revisit_index),
        Some(before),
        per_page,
    );
    let sized = continuation(output, session_name, None, None, None, per_page);
    let given = " --config "@ + word(config) + " --revisit-index "@ + word(revisit_index)
        + " --before "@ + word(clock::whole_second_text(before.seconds, before.nanos));
    assert(" --config "@ =~= " "@ + "--config"@ + " "@);
    assert(" --revisit-index "@ =~= " "@ + "--revisit-index"@ + " "@);
    assert(endpoint_sizes(Seq::<PerPageView>::empty()) =~= Seq::empty());
    assert(least =~= start);
    let sizes = (if default_size(per_page) != DEFAULT_PER_PAGE {
        " --per-page "@ + text::decimal(default_size(per_page) as nat)
    } else {
        ""@
    }) + size_options(endpoint_sizes(per_page));
    assert(sized =~= start + sizes);
    assert(sized.subrange(0, start.len() as int) =~= start);
    assert(sized.skip(start.len() as int) =~= sizes);
    assert(whole =~= start + given + sizes);
    if endpoint_sizes(per_page).len() == 0 {
        assert(size_options(endpoint_sizes(per_page)) =~= Seq::empty());
        if default_size(per_page) == 100 {
            assert(sized =~= start);
        } else {
            assert(sized =~= start + " --per-page "@ + text::decimal(
                default_size(per_page) as nat,
            ));
        }
    }
}

/// Every page size of a single endpoint is given as an option.
pub proof fn every_endpoint_size_is_given(entries: Seq<(Seq<char>, usize)>, index: int)
    requires
        0 <= index < entries.len(),
    ensures
        text::occurs(
            size_options(entries),
            " --per-page "@ + word(entries[index].0) + ":"@ + text::decimal(
                entries[index].1 as nat,
            ),
        ),
    decreases entries.len(),
{
    let before = entries.drop_last();
    let front = size_options(before);
    let whole = size_options(entries);
    let option = " --per-page "@ + word(entries[index].0) + ":"@ + text::decimal(
        entries[index].1 as nat,
    );
    if index < entries.len() - 1 {
        assert(before[index] == entries[index]);
        every_endpoint_size_is_given(before, index);
        let at = choose|at: int| text::occurs_at(front, option, at);
        let last = " --per-page "@ + word(entries.last().0) + ":"@ + text::decimal(
            entries.last().1 as nat,
        );
        assert(whole =~= front + last);
        assert(whole.subrange(at, at + option.len()) =~= front.subrange(at, at + option.len()));
        assert(text::occurs_at(whole, option, at));
    } else {
        assert(whole =~= front + option);
        assert(whole.subrange(front.len() as int, (front.len() + option.len()) as int)
            =~= option);
        assert(text::occurs_at(whole, option, front.len() as int));
    }
}

} // verus!
