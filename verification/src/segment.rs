//! The names of archive files and of the segments that a session's runs write.

use crate::archive::Site;
use crate::clock::{Moment, Timestamp};
use crate::text;
use vstd::prelude::*;
use vstd::string::StringExecFns;

verus! {

/// Whether a file's name has an extension, whatever its case.
pub open spec fn has_extension(name: Seq<char>, extension: Seq<char>) -> bool {
    match text::split_at_last(name, '.') {
        Some((stem, found)) => stem.len() > 0 && text::lower(found) == text::lower(extension),
        None => false,
    }
}

/// Whether a file's name has an extension, whatever its case.
pub fn ends_in_extension(name: &str, extension: &str) -> (found: bool)
    ensures
        found == has_extension(name@, extension@),
{
    match text::rsplit_once(name, '.') {
        Some((stem, found)) => stem.as_str().unicode_len() > 0 && text::same_ignoring_case(
            found.as_str(),
            extension,
        ),
        None => false,
    }
}

/// Whether a file's name is that of a gzip-compressed archive.
pub open spec fn names_compressed_archive(name: Seq<char>) -> bool {
    has_extension(name, "gz"@) && (text::split_at_last(name, '.') matches Some((stem, _))
        && has_extension(stem, "warc"@))
}

/// Whether a file's name is that of an archive.
pub open spec fn names_archive(name: Seq<char>) -> bool {
    has_extension(name, "warc"@) || names_compressed_archive(name)
}

/// Whether a file's name ends in `.warc.gz`, whatever its case.
pub fn has_warc_gzip_extension(name: &str) -> (found: bool)
    ensures
        found == names_compressed_archive(name@),
{
    ends_in_extension(name, "gz") && match text::rsplit_once(name, '.') {
        Some((stem, _)) => ends_in_extension(stem.as_str(), "warc"),
        None => false,
    }
}

/// Whether a file's name ends in `.warc` or `.warc.gz`, whatever its case.
pub fn is_warc_file_name(name: &str) -> (found: bool)
    ensures
        found == names_archive(name@),
{
    ends_in_extension(name, "warc") || has_warc_gzip_extension(name)
}

/// Whether a name is that of an archive and begins with a prefix.
pub open spec fn is_selected(name: Seq<char>, prefix: Seq<char>) -> bool {
    prefix.is_prefix_of(name) && names_archive(name)
}

/// The names of archives that begin with a prefix, in the order given.
pub open spec fn selected(names: Seq<Seq<char>>, prefix: Seq<char>) -> Seq<Seq<char>>
    decreases names.len(),
{
    if names.len() == 0 {
        Seq::empty()
    } else if is_selected(names.last(), prefix) {
        selected(names.drop_last(), prefix).push(names.last())
    } else {
        selected(names.drop_last(), prefix)
    }
}

/// Whether no name precedes one before it.
pub open spec fn are_sorted(names: Seq<Seq<char>>) -> bool {
    forall|first: int, second: int|
        0 <= first < second < names.len() ==> !text::precedes(
            #[trigger] names[second],
            #[trigger] names[first],
        )
}

/// Adds a name to sorted ones.
fn insert_sorted(names: &mut Vec<String>, name: String)
    requires
        are_sorted(old(names).deep_view()),
    ensures
        are_sorted(final(names).deep_view()),
        final(names).deep_view().to_multiset() == old(names).deep_view().to_multiset().insert(
            name@,
        ),
{
    let ghost all = names.deep_view();
    let ghost added = name@;
    let mut index: usize = names.len();
    while index > 0 && text::comes_before(name.as_str(), names[index - 1].as_str())
        invariant
            index <= names@.len(),
            all == names.deep_view(),
            all == old(names).deep_view(),
            added == name@,
            forall|later: int|
                index <= later < all.len() ==> text::precedes(added, #[trigger] all[later]),
        decreases index,
    {
        assert(all[index - 1] == names@[index - 1]@);
        index -= 1;
    }
    assert(index > 0 ==> all[index - 1] == names@[index - 1]@);
    names.insert(index, name);
    proof {
        let grown = names.deep_view();
        assert(grown =~= all.insert(index as int, added));
        assert forall|first: int, second: int|
            0 <= first < second < grown.len() implies !text::precedes(
            #[trigger] grown[second],
            #[trigger] grown[first],
        ) by {
            if first == index {
                lemma_not_both(added, all[second - 1]);
            } else if second == index {
                if first < index - 1 {
                    assert(!text::precedes(all[index - 1], all[first]));
                    lemma_not_preceding(added, all[index - 1], all[first]);
                }
            } else if first < index && second < index {
                assert(!text::precedes(all[second], all[first]));
            } else if first < index {
                assert(!text::precedes(all[second - 1], all[first]));
            } else {
                assert(!text::precedes(all[second - 1], all[first - 1]));
            }
        }
        grown.to_multiset_ensures();
        assert(grown.remove(index as int) =~= all);
        assert(grown.contains(added)) by {
            assert(grown[index as int] == added);
        }
        assert(grown.to_multiset() =~= all.to_multiset().insert(added));
    }
}

proof fn lemma_not_both(first: Seq<char>, second: Seq<char>)
    ensures
        !(text::precedes(first, second) && text::precedes(second, first)),
{
    if text::precedes(first, second) && text::precedes(second, first) {
        text::lemma_precedes_is_transitive(first, second, first);
        text::lemma_precedes_is_irreflexive(first);
    }
}

/// A name that does not precede a second, which does not precede a third, does not precede the
/// third.
proof fn lemma_not_preceding(first: Seq<char>, second: Seq<char>, third: Seq<char>)
    requires
        !text::precedes(first, second),
        !text::precedes(second, third),
    ensures
        !text::precedes(first, third),
{
    if text::precedes(first, third) {
        text::lemma_precedes_is_total(first, second);
        text::lemma_precedes_is_total(second, third);
        if text::precedes(second, first) {
            text::lemma_precedes_is_transitive(second, first, third);
        }
    }
}

/// The names of archives that begin with a prefix, in order.
pub fn select_archives(names: &Vec<String>, prefix: &str) -> (archives: Vec<String>)
    ensures
        are_sorted(archives.deep_view()),
        archives.deep_view().to_multiset() == selected(names.deep_view(), prefix@).to_multiset(),
{
    let ghost all = names.deep_view();
    let mut archives: Vec<String> = Vec::new();
    let mut index: usize = 0;
    assert(archives.deep_view() =~= Seq::<Seq<char>>::empty());
    while index < names.len()
        invariant
            index <= names@.len(),
            all == names.deep_view(),
            are_sorted(archives.deep_view()),
            archives.deep_view().to_multiset() == selected(
                all.take(index as int),
                prefix@,
            ).to_multiset(),
        decreases names@.len() - index,
    {
        let ghost earlier = selected(all.take(index as int), prefix@);
        assert(all.take(index + 1).drop_last() == all.take(index as int));
        assert(all.take(index + 1).last() == names@[index as int]@);
        if text::starts_with(names[index].as_str(), prefix) && is_warc_file_name(
            names[index].as_str(),
        ) {
            proof {
                earlier.to_multiset_ensures();
            }
            insert_sorted(&mut archives, names[index].clone());
        }
        index += 1;
    }
    assert(all.take(index as int) == all);
    archives
}

/// Direct archive files whose names begin with a session name, in continuation order, or `None`
/// where there are none.
pub fn session_warcs(names: &Vec<String>, session_name: &str) -> (archives: Option<Vec<String>>)
    ensures
        match archives {
            Some(archives) => archives@.len() > 0 && are_sorted(archives.deep_view())
                && archives.deep_view().to_multiset() == selected(
                names.deep_view(),
                session_name@,
            ).to_multiset(),
            None => selected(names.deep_view(), session_name@).len() == 0,
        },
{
    let archives = select_archives(names, session_name);
    proof {
        archives.deep_view().to_multiset_ensures();
        selected(names.deep_view(), session_name@).to_multiset_ensures();
    }
    if archives.len() == 0 {
        None
    } else {
        Some(archives)
    }
}

/// Direct archive files of one site, in continuation order.
pub fn domain_inputs(names: &Vec<String>, domain: &str) -> (archives: Vec<String>)
    ensures
        are_sorted(archives.deep_view()),
        archives.deep_view().to_multiset() == selected(
            names.deep_view(),
            domain@ + "-"@,
        ).to_multiset(),
{
    select_archives(names, text::joined(domain, "-").as_str())
}

/// An archive's name without its extension.
pub open spec fn stem_of(name: Seq<char>) -> Option<Seq<char>> {
    match text::stripped_suffix(name, ".warc.gz"@) {
        Some(stem) => Some(stem),
        None => text::stripped_suffix(name, ".warc"@),
    }
}

fn strip_extension(name: &str) -> (stem: Option<String>)
    ensures
        stem.deep_view() == stem_of(name@),
{
    match text::strip_suffix(name, ".warc.gz") {
        Some(stem) => Some(stem),
        None => text::strip_suffix(name, ".warc"),
    }
}

/// The timestamp of a session's segment with this file name.
pub open spec fn segment_timestamp(name: Seq<char>, session_name: Seq<char>) -> Option<i64> {
    match stem_of(name) {
        Some(stem) => match text::stripped_prefix(stem, session_name) {
            Some(rest) => match text::stripped_prefix(rest, "-"@) {
                Some(timestamp) => text::parsed_signed(timestamp),
                None => None,
            },
            None => None,
        },
        None => None,
    }
}

/// The latest timestamp of a session's segments.
pub open spec fn latest_timestamp(names: Seq<Seq<char>>, session_name: Seq<char>) -> Option<i64>
    decreases names.len(),
{
    if names.len() == 0 {
        None
    } else {
        let earlier = latest_timestamp(names.drop_last(), session_name);
        match (earlier, segment_timestamp(names.last(), session_name)) {
            (Some(known), Some(timestamp)) => Some(
                if known < timestamp {
                    timestamp
                } else {
                    known
                },
            ),
            (None, Some(timestamp)) => Some(timestamp),
            (known, None) => known,
        }
    }
}

/// The timestamp of a session's next segment: the present, or the first after every earlier one.
pub open spec fn next_timestamp(
    names: Seq<Seq<char>>,
    session_name: Seq<char>,
    now: i64,
) -> int {
    match latest_timestamp(names, session_name) {
        Some(latest) => if now > latest {
            now as int
        } else {
            latest + 1
        },
        None => now as int,
    }
}

/// The name of a session's segment.
pub open spec fn segment_name(session_name: Seq<char>, timestamp: int) -> Seq<char> {
    session_name + "-"@ + text::signed_decimal(timestamp)
}

/// The latest timestamp is no earlier than any.
proof fn lemma_latest_timestamp(names: Seq<Seq<char>>, session_name: Seq<char>, index: int)
    requires
        0 <= index < names.len(),
    ensures
        segment_timestamp(names[index], session_name) matches Some(timestamp) ==> (latest_timestamp(
            names,
            session_name,
        ) matches Some(latest) && timestamp <= latest),
    decreases names.len(),
{
    if index < names.len() - 1 {
        lemma_latest_timestamp(names.drop_last(), session_name, index);
    }
}

/// A segment's name holds its timestamp.
proof fn lemma_segment_timestamp(session_name: Seq<char>, timestamp: i64)
    ensures
        segment_timestamp(segment_name(session_name, timestamp as int) + ".warc"@, session_name)
            == Some(timestamp),
        segment_timestamp(segment_name(session_name, timestamp as int) + ".warc.gz"@, session_name)
            == Some(timestamp),
{
    let stem = segment_name(session_name, timestamp as int);
    lemma_stem_of(stem);
    assert(stem =~= session_name + ("-"@ + text::signed_decimal(timestamp as int)));
    assert(stem.skip(session_name.len() as int) =~= "-"@ + text::signed_decimal(timestamp as int));
    assert(stem.take(session_name.len() as int) =~= session_name);
    let rest = "-"@ + text::signed_decimal(timestamp as int);
    assert(rest.skip("-"@.len() as int) =~= text::signed_decimal(timestamp as int));
    assert(rest.take("-"@.len() as int) =~= "-"@);
    text::lemma_signed_parses_back(timestamp);
}

proof fn lemma_stem_of(stem: Seq<char>)
    ensures
        stem_of(stem + ".warc"@) == Some(stem),
        stem_of(stem + ".warc.gz"@) == Some(stem),
{
    reveal_strlit(".warc");
    reveal_strlit(".warc.gz");
    let plain = stem + ".warc"@;
    let compressed = stem + ".warc.gz"@;
    assert(compressed.skip(stem.len() as int) =~= ".warc.gz"@);
    assert(compressed.take(stem.len() as int) =~= stem);
    assert(plain.skip(stem.len() as int) =~= ".warc"@);
    assert(plain.take(stem.len() as int) =~= stem);
    assert(!".warc.gz"@.is_suffix_of(plain)) by {
        assert(plain.last() == 'c');
        if ".warc.gz"@.is_suffix_of(plain) {
            assert(plain.skip(plain.len() - 8)[7] == 'z');
        }
    }
}

/// A name with a later timestamp than every segment's is none of theirs.
proof fn lemma_a_later_name_is_new(
    names: Seq<Seq<char>>,
    session_name: Seq<char>,
    next: int,
    name: Seq<char>,
)
    requires
        i64::MIN <= next <= i64::MAX,
        segment_timestamp(name, session_name) == Some(next as i64),
        forall|index: int|
            0 <= index < names.len() ==> (segment_timestamp(
                #[trigger] names[index],
                session_name,
            ) matches Some(timestamp) ==> timestamp < next),
    ensures
        !names.contains(name),
{
    if names.contains(name) {
        let index = names.index_of(name);
        assert(segment_timestamp(names[index], session_name) == Some(next as i64));
    }
}

/// A session's next segment has a later timestamp than every earlier segment, and a name that none
/// of the files has.
pub proof fn a_new_segment_follows_the_earlier_ones(
    names: Seq<Seq<char>>,
    session_name: Seq<char>,
    now: i64,
)
    requires
        latest_timestamp(names, session_name) != Some(i64::MAX),
    ensures
        forall|index: int|
            0 <= index < names.len() ==> (segment_timestamp(
                #[trigger] names[index],
                session_name,
            ) matches Some(timestamp) ==> timestamp < next_timestamp(names, session_name, now)),
        !names.contains(
            segment_name(session_name, next_timestamp(names, session_name, now)) + ".warc"@,
        ),
        !names.contains(
            segment_name(session_name, next_timestamp(names, session_name, now)) + ".warc.gz"@,
        ),
{
    let next = next_timestamp(names, session_name, now);
    assert forall|index: int| 0 <= index < names.len() implies (segment_timestamp(
        #[trigger] names[index],
        session_name,
    ) matches Some(timestamp) ==> timestamp < next) by {
        lemma_latest_timestamp(names, session_name, index);
    }
    lemma_segment_timestamp(session_name, next as i64);
    lemma_a_later_name_is_new(
        names,
        session_name,
        next,
        segment_name(session_name, next) + ".warc"@,
    );
    lemma_a_later_name_is_new(
        names,
        session_name,
        next,
        segment_name(session_name, next) + ".warc.gz"@,
    );
}

fn read_timestamp(name: &str, session_name: &str) -> (timestamp: Option<i64>)
    ensures
        timestamp == segment_timestamp(name@, session_name@),
{
    match strip_extension(name) {
        Some(stem) => match text::strip_prefix(stem.as_str(), session_name) {
            Some(rest) => match text::strip_prefix(rest.as_str(), "-") {
                Some(timestamp) => text::parse_signed(timestamp.as_str()),
                None => None,
            },
            None => None,
        },
        None => None,
    }
}

/// A timestamped segment name that comes after earlier segments with the same session prefix, of
/// which `names` are the files.
pub fn next_segment_name(names: &Vec<String>, session_name: &str, now: i64) -> (name: String)
    requires
        latest_timestamp(names.deep_view(), session_name@) != Some(i64::MAX),
    ensures
        name@ == segment_name(
            session_name@,
            next_timestamp(names.deep_view(), session_name@, now),
        ),
        !names.deep_view().contains(name@ + ".warc"@),
        !names.deep_view().contains(name@ + ".warc.gz"@),
{
    let latest = find_latest_timestamp(names, session_name);
    proof {
        a_new_segment_follows_the_earlier_ones(names.deep_view(), session_name@, now);
    }
    let next: i64 = match latest {
        Some(latest) => if now > latest {
            now
        } else {
            latest + 1
        },
        None => now,
    };
    text::joined(
        text::joined(session_name, "-").as_str(),
        text::signed_decimal_of(next).as_str(),
    )
}

/// The latest timestamp of a session's segments, of which `names` are the files.
pub fn find_latest_timestamp(names: &Vec<String>, session_name: &str) -> (latest: Option<i64>)
    ensures
        latest == latest_timestamp(names.deep_view(), session_name@),
{
    let ghost all = names.deep_view();
    let mut latest: Option<i64> = None;
    let mut index: usize = 0;
    while index < names.len()
        invariant
            index <= names@.len(),
            all == names.deep_view(),
            latest == latest_timestamp(all.take(index as int), session_name@),
        decreases names@.len() - index,
    {
        assert(all.take(index + 1).drop_last() == all.take(index as int));
        assert(all.take(index + 1).last() == names@[index as int]@);
        let timestamp = read_timestamp(names[index].as_str(), session_name);
        latest = match (latest, timestamp) {
            (Some(known), Some(timestamp)) => Some(
                if known < timestamp {
                    timestamp
                } else {
                    known
                },
            ),
            (None, Some(timestamp)) => Some(timestamp),
            (known, None) => known,
        };
        index += 1;
    }
    assert(all.take(index as int) == all);
    latest
}

/// The stable default prefix shared by every run segment for a site.
pub fn default_session_prefix(site: &Site) -> (prefix: String)
    ensures
        prefix@ + "-0"@ == site.deep_view().session_name(Moment { seconds: 0, nanos: 0 }),
{
    let name = site.session_name(Timestamp::epoch());
    proof {
        reveal_strlit("-");
        reveal_strlit("-0");
        assert(text::signed_decimal(0) =~= seq!['0']);
        assert(name@.skip(name@.len() - 2) =~= "-0"@);
    }
    match text::strip_suffix(name.as_str(), "-0") {
        Some(prefix) => {
            assert(prefix@ + "-0"@ =~= name@);
            prefix
        },
        None => name,
    }
}

/// Whether a text is that of a timestamp: nine or more decimal digits.
pub open spec fn is_timestamp(value: Seq<char>) -> bool {
    value.len() >= 9 && text::all_digits(value)
}

/// Whether a text is that of a timestamp: nine or more decimal digits.
pub fn is_timestamp_suffix(value: &str) -> (found: bool)
    ensures
        found == is_timestamp(value@),
{
    value.unicode_len() >= 9 && text::has_only_digits(value)
}

/// A segment's stem without the suffix of a continuation: a tilde and a timestamp, or two tildes
/// with a timestamp and a number.
pub open spec fn without_continuation(stem: Seq<char>) -> Seq<char> {
    match text::split_at_last(stem, '~') {
        None => stem,
        Some((session, sequence)) => if sequence.len() == 0 || !text::all_digits(sequence) {
            stem
        } else {
            match text::split_at_last(session, '~') {
                Some((base, timestamp)) => if is_timestamp(timestamp) {
                    base
                } else if is_timestamp(sequence) {
                    session
                } else {
                    stem
                },
                None => if is_timestamp(sequence) {
                    session
                } else {
                    stem
                },
            }
        },
    }
}

/// A segment's stem without the suffix of a continuation.
pub fn strip_legacy_continuation_suffix(stem: &str) -> (session: String)
    ensures
        session@ == without_continuation(stem@),
{
    let (session, sequence) = match text::rsplit_once(stem, '~') {
        Some(parts) => parts,
        None => {
            return stem.to_owned();
        },
    };
    if sequence.as_str().unicode_len() == 0 || !text::has_only_digits(sequence.as_str()) {
        return stem.to_owned();
    }
    if let Some((base, timestamp)) = text::rsplit_once(session.as_str(), '~') {
        if is_timestamp_suffix(timestamp.as_str()) {
            return base;
        }
    }
    if is_timestamp_suffix(sequence.as_str()) {
        session
    } else {
        stem.to_owned()
    }
}

/// The session that a segment's file name belongs to.
pub open spec fn session_of(name: Seq<char>) -> Option<Seq<char>> {
    match stem_of(name) {
        Some(stem) => {
            let session = without_continuation(stem);
            Some(
                match text::split_at_last(session, '-') {
                    Some((prefix, timestamp)) => if is_timestamp(timestamp) {
                        prefix
                    } else {
                        session
                    },
                    None => session,
                },
            )
        },
        None => None,
    }
}

/// The last component of a path that is not empty and does not stand for the directory before it,
/// unless it stands for the one above.
pub open spec fn last_name(components: Seq<Seq<char>>) -> Option<Seq<char>>
    decreases components.len(),
{
    if components.len() == 0 || components.last() == ".."@ {
        None
    } else if components.last() == ""@ || components.last() == "."@ {
        last_name(components.drop_last())
    } else {
        Some(components.last())
    }
}

/// The file that a path names, if it names one.
pub open spec fn file_name_of(path: Seq<char>) -> Option<Seq<char>> {
    last_name(text::split(path, '/'))
}

/// The file that a path names, if it names one.
pub fn file_name(path: &str) -> (name: Option<String>)
    ensures
        name.deep_view() == file_name_of(path@),
{
    let components = text::split_on(path, '/');
    let ghost all = components.deep_view();
    let mut count: usize = components.len();
    assert(all.take(count as int) =~= all);
    while count > 0
        invariant
            count <= components@.len(),
            all == components.deep_view(),
            all == text::split(path@, '/'),
            last_name(all) == last_name(all.take(count as int)),
        decreases count,
    {
        assert(all.take(count as int).last() == components@[count - 1]@);
        assert(all.take(count as int).drop_last() =~= all.take(count - 1));
        let component = components[count - 1].as_str();
        if text::same(component, "..") {
            return None;
        }
        if !text::same(component, "") && !text::same(component, ".") {
            return Some(component.to_owned());
        }
        count -= 1;
    }
    None
}

/// The session that the segment at a path belongs to.
pub open spec fn session_of_path(path: Seq<char>) -> Option<Seq<char>> {
    match file_name_of(path) {
        Some(name) => session_of(name),
        None => None,
    }
}

/// The session that the segment at a path belongs to.
pub fn session_name_from_warc(path: &str) -> (session: Option<String>)
    ensures
        session.deep_view() == session_of_path(path@),
{
    let name = match file_name(path) {
        Some(name) => name,
        None => {
            return None;
        },
    };
    let stem = match strip_extension(name.as_str()) {
        Some(stem) => stem,
        None => {
            return None;
        },
    };
    let session = strip_legacy_continuation_suffix(stem.as_str());
    if let Some((prefix, timestamp)) = text::rsplit_once(session.as_str(), '-') {
        if is_timestamp_suffix(timestamp.as_str()) {
            return Some(prefix);
        }
    }
    Some(session)
}

/// A segment's file name names its session again, where its timestamp is of the year 1973 or
/// later.
pub proof fn a_segment_names_its_session(session_name: Seq<char>, timestamp: i64)
    requires
        timestamp >= 100_000_000,
    ensures
        session_of(segment_name(session_name, timestamp as int) + ".warc"@) == Some(session_name),
        session_of(segment_name(session_name, timestamp as int) + ".warc.gz"@) == Some(
            session_name,
        ),
{
    let number = text::decimal(timestamp as nat);
    let stem = segment_name(session_name, timestamp as int);
    lemma_stem_of(stem);
    text::lemma_decimal_reads_back(timestamp as nat);
    lemma_nine_digits(timestamp as nat);
    reveal_strlit("-");
    let at = session_name.len() as int;
    assert(stem[at] == '-');
    assert forall|index: int| at < index < stem.len() implies #[trigger] text::is_digit(
        stem[index],
    ) by {
        assert(stem[index] == number[index - at - 1]);
    }
    lemma_last_found_is(stem, '-', at);
    assert(stem.take(at) =~= session_name);
    assert(stem.skip(at + 1) =~= number);
    text::lemma_last_found(stem, '~');
    if let Some(tilde) = text::last_found(stem, '~') {
        if tilde > at {
            assert(text::is_digit(stem[tilde]));
        }
        let sequence = stem.skip(tilde + 1);
        assert(sequence[at - tilde - 1] == '-');
        assert(!text::is_digit(sequence[at - tilde - 1]));
    }
}

proof fn lemma_last_found_is(value: Seq<char>, character: char, at: int)
    requires
        0 <= at < value.len(),
        value[at] == character,
        forall|index: int| at < index < value.len() ==> (#[trigger] value[index]) != character,
    ensures
        text::last_found(value, character) == Some(at),
{
    text::lemma_last_found(value, character);
    assert(value.contains(character));
}

proof fn lemma_nine_digits(number: nat)
    requires
        number >= 100_000_000,
    ensures
        text::decimal(number).len() >= 9,
{
    reveal_with_fuel(text::decimal, 9);
}

/// A name of something and an extension has that extension, also where it is written in capitals,
/// and a name without a dot has none.
pub proof fn extensions_follow_the_last_dot(
    stem: Seq<char>,
    extension: Seq<char>,
    other: Seq<char>,
)
    requires
        !extension.contains('.'),
    ensures
        stem.len() > 0 ==> (has_extension(stem + seq!['.'] + extension, other) <==> text::lower(
            extension,
        ) == text::lower(other)),
        stem.len() == 0 ==> !has_extension(stem + seq!['.'] + extension, other),
        !has_extension(extension, other),
{
    let name = stem + seq!['.'] + extension;
    assert forall|index: int| stem.len() < index < name.len() implies (#[trigger] name[index])
        != '.' by {
        if name[index] == '.' {
            assert(extension[index - stem.len() - 1] == '.');
        }
    }
    lemma_last_found_is(name, '.', stem.len() as int);
    assert(name.take(stem.len() as int) =~= stem);
    assert(name.skip(stem.len() as int + 1) =~= extension);
    text::lemma_last_found(extension, '.');
}

/// A file is taken for an archive by the extensions `warc` and `warc.gz`.
pub proof fn archives_end_in_their_extensions(stem: Seq<char>)
    requires
        stem.len() > 0,
    ensures
        names_archive(stem + ".warc"@),
        names_archive(stem + ".warc.gz"@),
        names_compressed_archive(stem + ".warc.gz"@),
        !names_compressed_archive(stem + ".warc"@),
        !stem.contains('.') ==> !names_archive(stem),
        !stem.contains('.') ==> !names_archive(stem + ".gz"@),
{
    reveal_strlit(".warc");
    reveal_strlit(".warc.gz");
    reveal_strlit(".gz");
    reveal_strlit("warc");
    reveal_strlit("gz");
    let plain = stem + ".warc"@;
    assert(plain =~= stem + seq!['.'] + "warc"@);
    assert(stem + ".warc.gz"@ =~= plain + seq!['.'] + "gz"@);
    assert(stem + ".gz"@ =~= stem + seq!['.'] + "gz"@);
    assert(!"warc"@.contains('.'));
    assert(!"gz"@.contains('.'));
    assert(text::lower("warc"@).len() == 4);
    assert(text::lower("gz"@).len() == 2);
    let compressed = plain + seq!['.'] + "gz"@;
    assert forall|index: int| plain.len() < index < compressed.len() implies (
    #[trigger] compressed[index]) != '.' by {}
    lemma_last_found_is(compressed, '.', plain.len() as int);
    assert(compressed.take(plain.len() as int) =~= plain);
    extensions_follow_the_last_dot(stem, "warc"@, "warc"@);
    extensions_follow_the_last_dot(stem, "warc"@, "gz"@);
    extensions_follow_the_last_dot(plain, "gz"@, "gz"@);
    extensions_follow_the_last_dot(plain, "gz"@, "warc"@);
    extensions_follow_the_last_dot(stem, "gz"@, "warc"@);
    extensions_follow_the_last_dot(stem, "gz"@, "gz"@);
    if !stem.contains('.') {
        extensions_follow_the_last_dot(stem, stem, "warc"@);
        extensions_follow_the_last_dot(stem, stem, "gz"@);
        let name = stem + seq!['.'] + "gz"@;
        assert forall|index: int| stem.len() < index < name.len() implies (#[trigger] name[index])
            != '.' by {}
        lemma_last_found_is(name, '.', stem.len() as int);
        assert(name.take(stem.len() as int) =~= stem);
    }
}

/// The archives selected by a prefix are the files with an archive's name that begin with it, in
/// order.
pub proof fn selected_archives_have_the_prefix(names: Seq<Seq<char>>, prefix: Seq<char>)
    ensures
        selected(names, prefix) == names.filter(
            |name: Seq<char>| prefix.is_prefix_of(name) && names_archive(name),
        ),
    decreases names.len(),
{
    reveal(Seq::filter);
    if names.len() > 0 {
        selected_archives_have_the_prefix(names.drop_last(), prefix);
    }
}

/// The latest timestamp of a session is that of one of its segments, and no segment has a later one;
/// the next segment has the present where that is later, and otherwise the second after the latest.
pub proof fn the_latest_timestamp_is_a_segments(
    names: Seq<Seq<char>>,
    session_name: Seq<char>,
    now: i64,
)
    ensures
        latest_timestamp(names, session_name) matches Some(latest) ==> exists|index: int|
            0 <= index < names.len() && segment_timestamp(#[trigger] names[index], session_name)
                == Some(latest),
        latest_timestamp(names, session_name) is None ==> next_timestamp(names, session_name, now)
            == now,
        latest_timestamp(names, session_name) matches Some(latest) ==> next_timestamp(
            names,
            session_name,
            now,
        ) >= now && next_timestamp(names, session_name, now) > latest && (next_timestamp(
            names,
            session_name,
            now,
        ) == now || next_timestamp(names, session_name, now) == latest + 1),
        forall|index: int|
            0 <= index < names.len() ==> (segment_timestamp(
                #[trigger] names[index],
                session_name,
            ) matches Some(timestamp) ==> (latest_timestamp(names, session_name) matches Some(
                latest,
            ) && timestamp <= latest)),
    decreases names.len(),
{
    if names.len() > 0 {
        let earlier = names.drop_last();
        let last = names.len() - 1;
        the_latest_timestamp_is_a_segments(earlier, session_name, now);
        let known = latest_timestamp(earlier, session_name);
        let latest = latest_timestamp(names, session_name);
        assert(names[last] == names.last());
        if latest is Some && latest == known {
            let index = choose|index: int|
                0 <= index < earlier.len() && segment_timestamp(
                    #[trigger] earlier[index],
                    session_name,
                ) == known;
            assert(names[index] == earlier[index]);
        }
        assert forall|index: int| 0 <= index < names.len() implies (segment_timestamp(
            #[trigger] names[index],
            session_name,
        ) matches Some(timestamp) ==> (latest_timestamp(names, session_name) matches Some(latest)
            && timestamp <= latest)) by {
            lemma_latest_timestamp(names, session_name, index);
        }
    }
}

/// The suffix of a continuation is left off a segment's stem: a tilde and a timestamp, or a tilde, a
/// timestamp, a tilde and a number. A stem without a tilde is left as it is.
pub proof fn continuations_belong_to_their_session(
    session: Seq<char>,
    timestamp: Seq<char>,
    number: Seq<char>,
)
    requires
        !session.contains('~'),
        is_timestamp(timestamp),
        number.len() > 0,
        text::all_digits(number),
    ensures
        without_continuation(session) == session,
        without_continuation(session + seq!['~'] + timestamp) == session,
        without_continuation(session + seq!['~'] + timestamp + seq!['~'] + number) == session,
{
    text::lemma_last_found(session, '~');
    lemma_digits_after_a_tilde(session, timestamp);
    let once = session + seq!['~'] + timestamp;
    lemma_digits_after_a_tilde(once, number);
}

proof fn lemma_digits_after_a_tilde(front: Seq<char>, digits: Seq<char>)
    requires
        text::all_digits(digits),
    ensures
        text::split_at_last(front + seq!['~'] + digits, '~') == Some((front, digits)),
{
    let stem = front + seq!['~'] + digits;
    assert forall|index: int| front.len() < index < stem.len() implies (#[trigger] stem[index])
        != '~' by {
        assert(text::is_digit(digits[index - front.len() - 1]));
    }
    lemma_last_found_is(stem, '~', front.len() as int);
    assert(stem.take(front.len() as int) =~= front);
    assert(stem.skip(front.len() as int + 1) =~= digits);
}

/// A path in a directory names the file behind its last slash, with or without a slash at its end.
pub proof fn a_path_names_its_last_component(directory: Seq<char>, name: Seq<char>)
    requires
        !name.contains('/'),
        name.len() > 0,
        name != "."@,
        name != ".."@,
    ensures
        file_name_of(name) == Some(name),
        file_name_of(directory + seq!['/'] + name) == Some(name),
        file_name_of(directory + seq!['/'] + name + seq!['/']) == Some(name),
{
    reveal_strlit("");
    reveal_strlit(".");
    reveal_strlit("..");
    lemma_last_component(directory + seq!['/'], name);
    lemma_last_component(Seq::empty(), name);
    assert(Seq::<char>::empty() + name =~= name);
    let path = directory + seq!['/'] + name;
    let slashed = path + seq!['/'];
    assert(slashed.drop_last() =~= path);
    let parts = text::split(slashed, '/');
    assert(parts =~= text::split(path, '/').push(Seq::empty()));
    assert(parts.drop_last() =~= text::split(path, '/'));
    assert(parts.last() =~= ""@);
    assert("."@.len() == 1 && ".."@.len() == 2);
    reveal_with_fuel(last_name, 2);
}

/// The last part of a text is what follows its last separator.
proof fn lemma_last_component(front: Seq<char>, name: Seq<char>)
    requires
        front.len() == 0 || front.last() == '/',
        !name.contains('/'),
    ensures
        text::split(front + name, '/').len() > 0,
        text::split(front + name, '/').last() == name,
    decreases name.len(),
{
    let whole = front + name;
    if name.len() == 0 {
        assert(whole =~= front);
        if front.len() == 0 {
            assert(text::split(whole, '/').last() =~= name);
        } else {
            assert(text::split(whole, '/').last() =~= name);
        }
    } else {
        let before = name.drop_last();
        assert(!before.contains('/')) by {
            if before.contains('/') {
                assert(name[before.index_of('/')] == '/');
            }
        }
        lemma_last_component(front, before);
        assert(whole.drop_last() =~= front + before);
        assert(whole.last() == name.last());
        assert(name.contains(name.last())) by {
            assert(name[name.len() - 1] == name.last());
        }
        assert(before.push(name.last()) =~= name);
    }
}

} // verus!
