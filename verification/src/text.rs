//! Text as sequences of characters: comparison, searching, splitting, and decimal numbers.

use vstd::prelude::*;
use vstd::string::StringExecFns;

verus! {

/// `str`'s equality holds of two texts exactly when their characters agree.
pub assume_specification[ <str as PartialEq>::eq ](left: &str, right: &str) -> (equal: bool)
    ensures
        equal == (left@ == right@),
;

/// `String::push` appends one character to the end of the text.
pub assume_specification[ std::string::String::push ](string: &mut std::string::String, character: char)
    ensures
        final(string)@ == old(string)@.push(character),
;

/// What `str`'s `Debug` renders a text as: the text in double quotes, with its quotes, backslashes,
/// and unprintable characters escaped.
pub uninterp spec fn quoted(text: Seq<char>) -> Seq<char>;

/// `str`'s `Debug`, rendered by `format!`. The notation itself is left to [`quoted`].
#[verifier::external_body]
pub(crate) fn quote(text: &str) -> (notation: String)
    ensures
        notation@ == quoted(text@),
{
    format!("{text:?}")
}

/// Whether two texts are equal.
pub fn same(left: &str, right: &str) -> (equal: bool)
    ensures
        equal == (left@ == right@),
{
    left.eq(right)
}

/// Whether two optional texts are equal.
pub fn same_optional(left: &Option<String>, right: &Option<String>) -> (equal: bool)
    ensures
        equal == (left.deep_view() == right.deep_view()),
{
    match (left, right) {
        (None, None) => true,
        (Some(left), Some(right)) => same(left.as_str(), right.as_str()),
        _ => false,
    }
}

/// A copy of an optional text.
pub fn copied(text: &Option<String>) -> (copy: Option<String>)
    ensures
        copy.deep_view() == text.deep_view(),
{
    match text {
        None => None,
        Some(text) => Some(text.clone()),
    }
}

/// A copy of several texts, in order.
pub fn copied_all(texts: &Vec<String>) -> (copies: Vec<String>)
    ensures
        copies.deep_view() == texts.deep_view(),
{
    let mut copies: Vec<String> = Vec::new();
    let mut index: usize = 0;
    while index < texts.len()
        invariant
            index <= texts@.len(),
            copies.deep_view() == texts.deep_view().take(index as int),
        decreases texts@.len() - index,
    {
        let ghost known = copies.deep_view();
        copies.push(texts[index].clone());
        assert(copies.deep_view() == known.push(texts.deep_view()[index as int]));
        index += 1;
        assert(texts.deep_view().take(index as int) == known.push(texts.deep_view()[index - 1]));
    }
    assert(texts.deep_view().take(texts@.len() as int) == texts.deep_view());
    copies
}

/// `first` followed by `second`.
pub fn joined(first: &str, second: &str) -> (text: String)
    ensures
        text@ == first@ + second@,
{
    let mut text = first.to_owned();
    text.append(second);
    text
}

/// The characters of a text, in order.
pub fn characters(text: &str) -> (characters: Vec<char>)
    ensures
        characters@ == text@,
{
    let mut characters: Vec<char> = Vec::new();
    for character in iter: text.chars()
        invariant
            iter.seq() == text@,
            characters@ == text@.take(iter.index()),
    {
        characters.push(character);
    }
    assert(text@.take(text@.len() as int) == text@);
    characters
}

/// The text made of `characters` from `start` up to `end`.
pub fn text_between(characters: &Vec<char>, start: usize, end: usize) -> (text: String)
    requires
        start <= end <= characters@.len(),
    ensures
        text@ == characters@.subrange(start as int, end as int),
{
    let mut text = String::new();
    let mut index: usize = start;
    while index < end
        invariant
            start <= index <= end <= characters@.len(),
            text@ == characters@.subrange(start as int, index as int),
        decreases end - index,
    {
        text.push(characters[index]);
        index += 1;
    }
    text
}

/// Whether `part` stands in `text` at the index `at`.
pub open spec fn occurs_at(text: Seq<char>, part: Seq<char>, at: int) -> bool {
    0 <= at && at + part.len() <= text.len() && text.subrange(at, at + part.len()) == part
}

/// Whether `part` stands anywhere in `text`.
pub open spec fn occurs(text: Seq<char>, part: Seq<char>) -> bool {
    exists|at: int| occurs_at(text, part, at)
}

/// Whether `part` stands in `text` at the index `at`.
fn stands_at(text: &Vec<char>, part: &Vec<char>, at: usize) -> (found: bool)
    ensures
        found == occurs_at(text@, part@, at as int),
{
    if part.len() > text.len() || at > text.len() - part.len() {
        return false;
    }
    let mut index: usize = 0;
    while index < part.len()
        invariant
            index <= part@.len(),
            at + part.len() <= text.len(),
            text@.subrange(at as int, at + index) == part@.take(index as int),
        decreases part@.len() - index,
    {
        if text[at + index] != part[index] {
            assert(text@.subrange(at as int, at + part@.len())[index as int] != part@[index as int]);
            return false;
        }
        assert(text@.subrange(at as int, at + index + 1) == text@.subrange(
            at as int,
            at + index,
        ).push(text@[at + index]));
        assert(part@.take(index + 1) == part@.take(index as int).push(part@[index as int]));
        index += 1;
    }
    assert(part@.take(part@.len() as int) == part@);
    true
}

/// The first index at or after `from` at which `part` stands in `text`.
pub open spec fn found_from(text: Seq<char>, part: Seq<char>, from: int) -> Option<int>
    decreases text.len() + 1 - from,
{
    if from > text.len() {
        None
    } else if occurs_at(text, part, from) {
        Some(from)
    } else {
        found_from(text, part, from + 1)
    }
}

/// The first index at which `part` stands in `text`.
pub open spec fn found(text: Seq<char>, part: Seq<char>) -> Option<int> {
    found_from(text, part, 0)
}

/// A first occurrence is an occurrence, with none before it, and is found where there is any.
pub proof fn lemma_found_from(text: Seq<char>, part: Seq<char>, from: int)
    requires
        0 <= from,
    ensures
        match found_from(text, part, from) {
            Some(at) => from <= at && occurs_at(text, part, at) && forall|index: int|
                from <= index < at ==> !occurs_at(text, part, index),
            None => forall|index: int| from <= index ==> !occurs_at(text, part, index),
        },
    decreases text.len() + 1 - from,
{
    if from <= text.len() && !occurs_at(text, part, from) {
        lemma_found_from(text, part, from + 1);
    }
}

/// The first index at or after `from` at which `part` stands in `text`.
pub fn find_from(text: &Vec<char>, part: &Vec<char>, from: usize) -> (at: Option<usize>)
    ensures
        match at {
            Some(at) => found_from(text@, part@, from as int) == Some(at as int) && occurs_at(
                text@,
                part@,
                at as int,
            ) && from <= at,
            None => found_from(text@, part@, from as int) is None,
        },
{
    let mut index: usize = from;
    while index <= text.len()
        invariant
            from <= index,
            index <= text@.len() + 1 || index == from,
            found_from(text@, part@, from as int) == found_from(text@, part@, index as int),
        decreases text@.len() + 1 - index,
    {
        if stands_at(text, part, index) {
            return Some(index);
        }
        if index == text.len() {
            assert(found_from(text@, part@, index + 1) is None);
            return None;
        }
        index += 1;
    }
    None
}

/// The first index at which `part` stands in `text`.
pub fn find(text: &Vec<char>, part: &str) -> (at: Option<usize>)
    ensures
        match at {
            Some(at) => found(text@, part@) == Some(at as int) && occurs_at(text@, part@, at as int),
            None => found(text@, part@) is None,
        },
{
    find_from(text, &characters(part), 0)
}

/// Whether `part` stands anywhere in `text`.
pub fn contains(text: &str, part: &str) -> (found: bool)
    ensures
        found == occurs(text@, part@),
{
    proof {
        lemma_found_from(text@, part@, 0);
    }
    find(&characters(text), part).is_some()
}

/// What follows `prefix` at the start of `text`.
pub open spec fn stripped_prefix(text: Seq<char>, prefix: Seq<char>) -> Option<Seq<char>> {
    if prefix.is_prefix_of(text) {
        Some(text.skip(prefix.len() as int))
    } else {
        None
    }
}

/// What precedes `suffix` at the end of `text`.
pub open spec fn stripped_suffix(text: Seq<char>, suffix: Seq<char>) -> Option<Seq<char>> {
    if suffix.is_suffix_of(text) {
        Some(text.take(text.len() - suffix.len()))
    } else {
        None
    }
}

/// What follows `prefix` at the start of `text`.
pub fn strip_prefix(text: &str, prefix: &str) -> (rest: Option<String>)
    ensures
        rest.deep_view() == stripped_prefix(text@, prefix@),
{
    let all = characters(text);
    let part = characters(prefix);
    assert(occurs_at(text@, prefix@, 0) == prefix@.is_prefix_of(text@));
    if stands_at(&all, &part, 0) {
        Some(text_between(&all, part.len(), all.len()))
    } else {
        None
    }
}

/// What precedes `suffix` at the end of `text`.
pub fn strip_suffix(text: &str, suffix: &str) -> (rest: Option<String>)
    ensures
        rest.deep_view() == stripped_suffix(text@, suffix@),
{
    let all = characters(text);
    let part = characters(suffix);
    if part.len() <= all.len() && stands_at(&all, &part, all.len() - part.len()) {
        Some(text_between(&all, 0, all.len() - part.len()))
    } else {
        None
    }
}

/// Whether `text` begins with `prefix`.
pub fn starts_with(text: &str, prefix: &str) -> (found: bool)
    ensures
        found == prefix@.is_prefix_of(text@),
{
    assert(occurs_at(text@, prefix@, 0) == prefix@.is_prefix_of(text@));
    stands_at(&characters(text), &characters(prefix), 0)
}

/// Whether `text` ends with `suffix`.
pub fn ends_with(text: &str, suffix: &str) -> (found: bool)
    ensures
        found == suffix@.is_suffix_of(text@),
{
    strip_suffix(text, suffix).is_some()
}

/// A text without the repetitions of `character` at its end.
pub open spec fn trimmed_end(text: Seq<char>, character: char) -> Seq<char>
    decreases text.len(),
{
    if text.len() > 0 && text.last() == character {
        trimmed_end(text.drop_last(), character)
    } else {
        text
    }
}

/// A text without the repetitions of `character` at its end.
pub fn trim_end(text: &str, character: char) -> (trimmed: String)
    ensures
        trimmed@ == trimmed_end(text@, character),
{
    let all = characters(text);
    let mut end: usize = all.len();
    assert(all@.subrange(0, end as int) == text@);
    while end > 0 && all[end - 1] == character
        invariant
            end <= all@.len(),
            trimmed_end(text@, character) == trimmed_end(all@.subrange(0, end as int), character),
        decreases end,
    {
        assert(all@.subrange(0, end as int).drop_last() == all@.subrange(0, end - 1));
        end -= 1;
    }
    text_between(&all, 0, end)
}

/// The last index at which `character` stands in `text`.
pub open spec fn last_found(text: Seq<char>, character: char) -> Option<int>
    decreases text.len(),
{
    if text.len() == 0 {
        None
    } else if text.last() == character {
        Some(text.len() - 1)
    } else {
        last_found(text.drop_last(), character)
    }
}

/// A last occurrence is an occurrence, with none after it, and is found where there is any.
pub proof fn lemma_last_found(text: Seq<char>, character: char)
    ensures
        match last_found(text, character) {
            Some(at) => 0 <= at < text.len() && text[at] == character && forall|index: int|
                at < index < text.len() ==> text[index] != character,
            None => !text.contains(character),
        },
    decreases text.len(),
{
    if text.len() > 0 && text.last() != character {
        lemma_last_found(text.drop_last(), character);
        match last_found(text.drop_last(), character) {
            Some(at) => {
                assert forall|index: int| at < index < text.len() implies text[index]
                    != character by {
                    if index < text.len() - 1 {
                        assert(text.drop_last()[index] == text[index]);
                    }
                }
            },
            None => {
                assert forall|index: int| 0 <= index < text.len() implies text[index]
                    != character by {
                    if index < text.len() - 1 {
                        assert(text.drop_last()[index] == text[index]);
                        assert(text.drop_last().contains(text[index]));
                    }
                }
            },
        }
    }
}

/// The texts before and after the last `character` of a text.
pub open spec fn split_at_last(text: Seq<char>, character: char) -> Option<(Seq<char>, Seq<char>)> {
    match last_found(text, character) {
        Some(at) => Some((text.take(at), text.skip(at + 1))),
        None => None,
    }
}

/// The texts before and after the last `character` of a text.
pub fn rsplit_once(text: &str, character: char) -> (parts: Option<(String, String)>)
    ensures
        parts.deep_view() == split_at_last(text@, character),
{
    let all = characters(text);
    let mut end: usize = all.len();
    assert(all@.take(end as int) == text@);
    while end > 0
        invariant
            end <= all@.len(),
            all@ == text@,
            last_found(text@, character) == last_found(all@.take(end as int), character),
        decreases end,
    {
        assert(all@.take(end as int).drop_last() == all@.take(end - 1));
        if all[end - 1] == character {
            let parts = (text_between(&all, 0, end - 1), text_between(&all, end, all.len()));
            assert(parts.0@ == text@.take(end - 1));
            assert(parts.1@ == text@.skip(end as int));
            return Some(parts);
        }
        end -= 1;
    }
    None
}

/// The texts before and after the first `separator` of a text.
pub open spec fn split_at_first(text: Seq<char>, separator: Seq<char>) -> Option<
    (Seq<char>, Seq<char>),
> {
    match found(text, separator) {
        Some(at) => Some((text.take(at), text.skip(at + separator.len()))),
        None => None,
    }
}

/// A text is split at a character that does not stand in the text before it.
pub proof fn lemma_split_at_first(front: Seq<char>, separator: char, rest: Seq<char>)
    requires
        !front.contains(separator),
    ensures
        split_at_first(front + seq![separator] + rest, seq![separator]) == Some((front, rest)),
{
    let text = front + seq![separator] + rest;
    let part = seq![separator];
    lemma_found_from(text, part, 0);
    assert(text.subrange(front.len() as int, (front.len() + 1) as int) =~= part);
    assert(occurs_at(text, part, front.len() as int));
    assert forall|index: int| 0 <= index < front.len() implies !occurs_at(text, part, index) by {
        if occurs_at(text, part, index) {
            assert(text.subrange(index, index + 1)[0] == separator);
            assert(front[index] == separator);
        }
    }
    assert(text.take(front.len() as int) =~= front);
    assert(text.skip((front.len() + 1) as int) =~= rest);
}

/// A text is not split at a character that does not stand in it.
pub proof fn lemma_no_split(text: Seq<char>, separator: char)
    requires
        !text.contains(separator),
    ensures
        split_at_first(text, seq![separator]) is None,
{
    let part = seq![separator];
    lemma_found_from(text, part, 0);
    assert forall|index: int| 0 <= index implies !occurs_at(text, part, index) by {
        if occurs_at(text, part, index) {
            assert(text.subrange(index, index + 1)[0] == separator);
            assert(text[index] == separator);
        }
    }
}

/// The texts before and after the first `separator` of a text.
pub fn split_once(text: &str, separator: &str) -> (parts: Option<(String, String)>)
    ensures
        parts.deep_view() == split_at_first(text@, separator@),
{
    let all = characters(text);
    let part = characters(separator);
    match find_from(&all, &part, 0) {
        Some(at) => {
            assert(at + part.len() <= all.len());
            let parts = (
                text_between(&all, 0, at),
                text_between(&all, at + part.len(), all.len()),
            );
            assert(parts.0@ == text@.take(at as int));
            assert(parts.1@ == text@.skip(at + separator@.len()));
            Some(parts)
        },
        None => None,
    }
}

/// The texts between the occurrences of `separator`, from left to right.
pub open spec fn split(text: Seq<char>, separator: char) -> Seq<Seq<char>>
    decreases text.len(),
{
    if text.len() == 0 {
        seq![Seq::empty()]
    } else {
        let parts = split(text.drop_last(), separator);
        if text.last() == separator {
            parts.push(Seq::empty())
        } else {
            parts.update(parts.len() - 1, parts.last().push(text.last()))
        }
    }
}

/// The texts between the occurrences of `separator`, from left to right.
pub fn split_on(text: &str, separator: char) -> (parts: Vec<String>)
    ensures
        parts.deep_view() == split(text@, separator),
{
    let all = characters(text);
    let mut parts: Vec<String> = Vec::new();
    let mut part = String::new();
    let mut index: usize = 0;
    assert(parts.deep_view().push(part@) == split(all@.take(0), separator));
    while index < all.len()
        invariant
            index <= all@.len(),
            parts.deep_view().push(part@) == split(all@.take(index as int), separator),
        decreases all@.len() - index,
    {
        assert(all@.take(index + 1).drop_last() == all@.take(index as int));
        let ghost known = parts.deep_view().push(part@);
        let character = all[index];
        if character == separator {
            let ghost known_parts = parts.deep_view();
            parts.push(part);
            part = String::new();
            assert(parts.deep_view() == known);
        } else {
            part.push(character);
            assert(parts.deep_view().push(part@) == known.update(
                known.len() - 1,
                known.last().push(character),
            ));
        }
        index += 1;
    }
    assert(all@.take(all@.len() as int) == text@);
    let ghost known = parts.deep_view().push(part@);
    parts.push(part);
    assert(parts.deep_view() == known);
    parts
}

/// The parts in order, with `separator` between each two.
pub open spec fn join(parts: Seq<Seq<char>>, separator: Seq<char>) -> Seq<char>
    decreases parts.len(),
{
    if parts.len() == 0 {
        Seq::empty()
    } else if parts.len() == 1 {
        parts[0]
    } else {
        join(parts.drop_last(), separator) + separator + parts.last()
    }
}

/// The parts in order, with `separator` between each two.
pub fn join_with(parts: &Vec<String>, separator: &str) -> (text: String)
    ensures
        text@ == join(parts.deep_view(), separator@),
{
    let mut text = String::new();
    let mut index: usize = 0;
    while index < parts.len()
        invariant
            index <= parts@.len(),
            text@ == join(parts.deep_view().take(index as int), separator@),
        decreases parts@.len() - index,
    {
        let ghost before = parts.deep_view().take(index as int);
        let ghost after = parts.deep_view().take(index + 1);
        assert(after.drop_last() == before);
        if index > 0 {
            text.append(separator);
        }
        text.append(parts[index].as_str());
        assert(text@ == join(after, separator@));
        index += 1;
    }
    assert(parts.deep_view().take(parts@.len() as int) == parts.deep_view());
    text
}

/// An upper-case ASCII letter's lower-case letter, and any other character itself.
pub open spec fn lower_character(character: char) -> char {
    if 'A' <= character <= 'Z' {
        ((character as u32) + 32) as char
    } else {
        character
    }
}

/// A text with its upper-case ASCII letters made lower-case.
pub open spec fn lower(text: Seq<char>) -> Seq<char> {
    text.map_values(|character: char| lower_character(character))
}

fn lowered_character(character: char) -> (lowered: char)
    ensures
        lowered == lower_character(character),
{
    if 'A' <= character && character <= 'Z' {
        ((character as u8) + 32) as char
    } else {
        character
    }
}

/// A text with its upper-case ASCII letters made lower-case.
pub fn lowered(text: &str) -> (lowered: String)
    ensures
        lowered@ == lower(text@),
{
    let all = characters(text);
    let mut lowered = String::new();
    let mut index: usize = 0;
    while index < all.len()
        invariant
            index <= all@.len(),
            lowered@ == lower(all@.take(index as int)),
        decreases all@.len() - index,
    {
        lowered.push(lowered_character(all[index]));
        index += 1;
        assert(lowered@ == lower(all@.take(index as int)));
    }
    assert(all@.take(all@.len() as int) == text@);
    lowered
}

/// Whether two texts are equal but for the case of ASCII letters.
pub fn same_ignoring_case(left: &str, right: &str) -> (equal: bool)
    ensures
        equal == (lower(left@) == lower(right@)),
{
    same(lowered(left).as_str(), lowered(right).as_str())
}

/// Whether `left` precedes `right` in the order of their first differing characters, a text
/// preceding every longer one that begins with it.
pub open spec fn precedes(left: Seq<char>, right: Seq<char>) -> bool
    decreases left.len(),
{
    if right.len() == 0 {
        false
    } else if left.len() == 0 {
        true
    } else if left[0] == right[0] {
        precedes(left.drop_first(), right.drop_first())
    } else {
        left[0] < right[0]
    }
}

/// Whether `left` precedes `right` in the order of their first differing characters, a text
/// preceding every longer one that begins with it.
pub fn comes_before(left: &str, right: &str) -> (before: bool)
    ensures
        before == precedes(left@, right@),
{
    let first = characters(left);
    let second = characters(right);
    let mut index: usize = 0;
    assert(first@.skip(0) == left@);
    assert(second@.skip(0) == right@);
    while index < first.len() && index < second.len()
        invariant
            index <= first@.len(),
            index <= second@.len(),
            precedes(left@, right@) == precedes(
                first@.skip(index as int),
                second@.skip(index as int),
            ),
        decreases first@.len() - index,
    {
        assert(first@.skip(index as int).drop_first() == first@.skip(index + 1));
        assert(second@.skip(index as int).drop_first() == second@.skip(index + 1));
        if first[index] != second[index] {
            return first[index] < second[index];
        }
        index += 1;
    }
    index < second.len()
}

/// No text precedes itself.
pub proof fn lemma_precedes_is_irreflexive(text: Seq<char>)
    ensures
        !precedes(text, text),
    decreases text.len(),
{
    if text.len() > 0 {
        lemma_precedes_is_irreflexive(text.drop_first());
    }
}

/// Of two different texts one precedes the other.
pub proof fn lemma_precedes_is_total(left: Seq<char>, right: Seq<char>)
    ensures
        left == right || precedes(left, right) || precedes(right, left),
    decreases left.len(),
{
    if left.len() > 0 && right.len() > 0 && left[0] == right[0] {
        lemma_precedes_is_total(left.drop_first(), right.drop_first());
        if left.drop_first() == right.drop_first() {
            assert(left == seq![left[0]] + left.drop_first());
            assert(right == seq![right[0]] + right.drop_first());
        }
    } else if left.len() == 0 && right.len() == 0 {
        assert(left == right);
    }
}

/// A text that precedes a second, which precedes a third, precedes the third.
pub proof fn lemma_precedes_is_transitive(first: Seq<char>, second: Seq<char>, third: Seq<char>)
    requires
        precedes(first, second),
        precedes(second, third),
    ensures
        precedes(first, third),
    decreases first.len(),
{
    if first.len() > 0 && first[0] == second[0] && second[0] == third[0] {
        lemma_precedes_is_transitive(first.drop_first(), second.drop_first(), third.drop_first());
    }
}

/// The decimal digit of a number below ten.
pub open spec fn digit(number: nat) -> char {
    (48 + number) as char
}

/// A number in decimal notation, without leading zeros.
pub open spec fn decimal(number: nat) -> Seq<char>
    decreases number,
{
    if number < 10 {
        seq![digit(number)]
    } else {
        decimal(number / 10).push(digit(number % 10))
    }
}

/// A number in decimal notation, a negative one behind a minus sign.
pub open spec fn signed_decimal(number: int) -> Seq<char> {
    if number < 0 {
        seq!['-'] + decimal((-number) as nat)
    } else {
        decimal(number as nat)
    }
}

/// The index of the first of `texts` that equals `text`.
pub open spec fn position(texts: Seq<Seq<char>>, text: Seq<char>) -> Option<int>
    decreases texts.len(),
{
    if texts.len() == 0 {
        None
    } else {
        match position(texts.drop_last(), text) {
            Some(index) => Some(index),
            None => if texts.last() == text {
                Some(texts.len() - 1)
            } else {
                None
            },
        }
    }
}

/// A first position holds the text, no earlier one does, and there is one where any holds it.
pub proof fn lemma_position(texts: Seq<Seq<char>>, text: Seq<char>)
    ensures
        match position(texts, text) {
            Some(index) => 0 <= index < texts.len() && texts[index] == text && forall|earlier: int|
                0 <= earlier < index ==> texts[earlier] != text,
            None => !texts.contains(text),
        },
    decreases texts.len(),
{
    if texts.len() > 0 {
        lemma_position(texts.drop_last(), text);
        assert forall|index: int| 0 <= index < texts.len() - 1 implies texts[index]
            == texts.drop_last()[index] by {}
        if position(texts, text) is None {
            assert forall|index: int| 0 <= index < texts.len() implies texts[index] != text by {
                if index < texts.len() - 1 {
                    assert(texts.drop_last().contains(texts.drop_last()[index]));
                }
            }
        }
    }
}

/// A number in decimal notation, without leading zeros.
pub fn decimal_of(number: u64) -> (text: String)
    ensures
        text@ == decimal(number as nat),
    decreases number,
{
    let last = ((number % 10) as u8 + 48u8) as char;
    if number < 10 {
        let mut text = String::new();
        text.push(last);
        assert(text@ == decimal(number as nat));
        text
    } else {
        let mut text = decimal_of(number / 10);
        text.push(last);
        text
    }
}

/// A number in decimal notation, without leading zeros.
pub fn count_text(number: usize) -> (text: String)
    ensures
        text@ == decimal(number as nat),
{
    decimal_of(number as u64)
}

/// A number in decimal notation, a negative one behind a minus sign.
pub fn signed_decimal_of(number: i64) -> (text: String)
    ensures
        text@ == signed_decimal(number as int),
{
    if number < 0 {
        let magnitude: u64 = if number == i64::MIN {
            9_223_372_036_854_775_808
        } else {
            (-number) as u64
        };
        let mut text = String::new();
        text.push('-');
        text.append(decimal_of(magnitude).as_str());
        assert(text@ == seq!['-'] + decimal(magnitude as nat));
        text
    } else {
        decimal_of(number as u64)
    }
}

/// Whether a character is an ASCII decimal digit.
pub open spec fn is_digit(character: char) -> bool {
    '0' <= character <= '9'
}

/// Whether every character of a text is an ASCII decimal digit.
pub open spec fn all_digits(text: Seq<char>) -> bool {
    forall|index: int| 0 <= index < text.len() ==> is_digit(#[trigger] text[index])
}

/// Whether every character of a text is an ASCII decimal digit.
pub fn has_only_digits(text: &str) -> (found: bool)
    ensures
        found == all_digits(text@),
{
    let all = characters(text);
    let mut index: usize = 0;
    while index < all.len()
        invariant
            index <= all@.len(),
            all@ == text@,
            forall|at: int| 0 <= at < index ==> is_digit(#[trigger] all@[at]),
        decreases all@.len() - index,
    {
        let character = all[index];
        if character < '0' || character > '9' {
            assert(!is_digit(text@[index as int]));
            return false;
        }
        index += 1;
    }
    true
}

/// The number that a text of decimal digits denotes.
pub open spec fn number_of(digits: Seq<char>) -> nat
    decreases digits.len(),
{
    if digits.len() == 0 {
        0
    } else {
        number_of(digits.drop_last()) * 10 + (digits.last() as nat - 48) as nat
    }
}

/// The count that a text denotes: an optional plus sign followed by one or more decimal digits,
/// of a number that a `usize` can hold.
pub open spec fn parsed_count(text: Seq<char>) -> Option<usize> {
    let digits = if text.len() > 0 && text[0] == '+' {
        text.drop_first()
    } else {
        text
    };
    if digits.len() > 0 && all_digits(digits) && number_of(digits) <= usize::MAX {
        Some(number_of(digits) as usize)
    } else {
        None
    }
}

proof fn lemma_number_grows(digits: Seq<char>, count: int)
    requires
        all_digits(digits),
        0 <= count <= digits.len(),
    ensures
        number_of(digits.take(count)) <= number_of(digits),
    decreases digits.len() - count,
{
    if count == digits.len() {
        assert(digits.take(count) == digits);
    } else {
        lemma_number_grows(digits, count + 1);
        assert(digits.take(count + 1).drop_last() == digits.take(count));
        assert(is_digit(digits[count]));
    }
}

/// The count that a text denotes: an optional plus sign followed by one or more decimal digits,
/// of a number that a `usize` can hold.
pub fn parse_count(text: &str) -> (count: Option<usize>)
    ensures
        count == parsed_count(text@),
{
    let all = characters(text);
    let start: usize = if all.len() > 0 && all[0] == '+' {
        1
    } else {
        0
    };
    let ghost digits = text@.skip(start as int);
    assert(text@.skip(0) == text@);
    assert(text@.len() > 0 ==> text@.skip(1) == text@.drop_first());
    if start == all.len() {
        return None;
    }
    let mut number: usize = 0;
    let mut index: usize = start;
    while index < all.len()
        invariant
            start <= index <= all@.len(),
            start < all@.len(),
            all@ == text@,
            digits == text@.skip(start as int),
            parsed_count(text@) == (if all_digits(digits) && number_of(digits) <= usize::MAX {
                Some(number_of(digits) as usize)
            } else {
                None
            }),
            all_digits(digits.take(index - start)),
            number == number_of(digits.take(index - start)),
        decreases all@.len() - index,
    {
        let character = all[index];
        let ghost before = digits.take(index - start);
        let ghost after = digits.take(index - start + 1);
        assert(digits[index - start] == character);
        if character < '0' || character > '9' {
            assert(!is_digit(digits[index - start]));
            return None;
        }
        assert(after.drop_last() == before);
        assert forall|at: int| 0 <= at < after.len() implies is_digit(#[trigger] after[at]) by {
            if at < before.len() {
                assert(before[at] == after[at]);
            }
        }
        let value: usize = ((character as u8) - 48u8) as usize;
        proof {
            if all_digits(digits) {
                lemma_number_grows(digits, index - start + 1);
            }
        }
        match number.checked_mul(10) {
            None => {
                return None;
            },
            Some(tens) => match tens.checked_add(value) {
                None => {
                    return None;
                },
                Some(sum) => {
                    number = sum;
                },
            },
        }
        index += 1;
    }
    assert(digits.take(all@.len() - start) == digits);
    Some(number)
}

/// The number that a text denotes: an optional sign followed by one or more decimal digits, of a
/// number that an `i64` can hold.
pub open spec fn parsed_signed(text: Seq<char>) -> Option<i64> {
    let digits = if text.len() > 0 && (text[0] == '+' || text[0] == '-') {
        text.drop_first()
    } else {
        text
    };
    let number: int = if text.len() > 0 && text[0] == '-' {
        -(number_of(digits) as int)
    } else {
        number_of(digits) as int
    };
    if digits.len() > 0 && all_digits(digits) && i64::MIN <= number <= i64::MAX {
        Some(number as i64)
    } else {
        None
    }
}

/// The number that a text denotes: an optional sign followed by one or more decimal digits, of a
/// number that an `i64` can hold.
pub fn parse_signed(text: &str) -> (parsed: Option<i64>)
    ensures
        parsed == parsed_signed(text@),
{
    let all = characters(text);
    let negative = all.len() > 0 && all[0] == '-';
    let start: usize = if all.len() > 0 && (all[0] == '+' || all[0] == '-') {
        1
    } else {
        0
    };
    let ghost digits = text@.skip(start as int);
    assert(text@.skip(0) == text@);
    assert(text@.len() > 0 ==> text@.skip(1) == text@.drop_first());
    if start == all.len() {
        return None;
    }
    let mut number: i64 = 0;
    let mut index: usize = start;
    while index < all.len()
        invariant
            start <= index <= all@.len(),
            start < all@.len(),
            all@ == text@,
            digits == text@.skip(start as int),
            parsed_signed(text@) == (if all_digits(digits) && i64::MIN <= (if negative {
                -(number_of(digits) as int)
            } else {
                number_of(digits) as int
            }) <= i64::MAX {
                Some(
                    (if negative {
                        -(number_of(digits) as int)
                    } else {
                        number_of(digits) as int
                    }) as i64,
                )
            } else {
                None
            }),
            all_digits(digits.take(index - start)),
            number == (if negative {
                -(number_of(digits.take(index - start)) as int)
            } else {
                number_of(digits.take(index - start)) as int
            }),
        decreases all@.len() - index,
    {
        let character = all[index];
        let ghost before = digits.take(index - start);
        let ghost after = digits.take(index - start + 1);
        assert(digits[index - start] == character);
        if character < '0' || character > '9' {
            assert(!is_digit(digits[index - start]));
            return None;
        }
        assert(after.drop_last() == before);
        assert forall|at: int| 0 <= at < after.len() implies is_digit(#[trigger] after[at]) by {
            if at < before.len() {
                assert(before[at] == after[at]);
            }
        }
        let value: i64 = ((character as u8) - 48u8) as i64;
        proof {
            if all_digits(digits) {
                lemma_number_grows(digits, index - start + 1);
            }
        }
        let tens = match number.checked_mul(10) {
            Some(tens) => tens,
            None => {
                return None;
            },
        };
        let sum = if negative {
            tens.checked_sub(value)
        } else {
            tens.checked_add(value)
        };
        match sum {
            Some(sum) => {
                number = sum;
            },
            None => {
                return None;
            },
        }
        index += 1;
    }
    assert(digits.take(all@.len() - start) == digits);
    Some(number)
}

/// A number written in decimal notation parses back to itself.
pub proof fn lemma_signed_parses_back(number: i64)
    ensures
        parsed_signed(signed_decimal(number as int)) == Some(number),
{
    let text = signed_decimal(number as int);
    if number < 0 {
        let digits = decimal((-number) as nat);
        lemma_decimal_reads_back((-number) as nat);
        assert(text[0] == '-');
        assert(text.drop_first() == digits);
    } else {
        lemma_decimal_reads_back(number as nat);
        assert(is_digit(text[0]));
    }
}

/// Reading a number's decimal notation back gives the number.
pub proof fn lemma_decimal_reads_back(number: nat)
    ensures
        all_digits(decimal(number)),
        decimal(number).len() > 0,
        number_of(decimal(number)) == number,
    decreases number,
{
    if number < 10 {
        let digits = decimal(number);
        assert(digits.drop_last() == Seq::<char>::empty());
        assert(number_of(digits.drop_last()) == 0);
    } else {
        lemma_decimal_reads_back(number / 10);
        let digits = decimal(number);
        assert(digits.drop_last() == decimal(number / 10));
        assert forall|at: int| 0 <= at < digits.len() implies is_digit(#[trigger] digits[at]) by {
            if at < digits.len() - 1 {
                assert(decimal(number / 10)[at] == digits[at]);
            }
        }
    }
}

/// A count written in decimal notation parses back to itself.
pub proof fn lemma_count_text_parses_back(number: usize)
    ensures
        parsed_count(decimal(number as nat)) == Some(number),
{
    lemma_decimal_reads_back(number as nat);
    assert(is_digit(decimal(number as nat)[0]));
}

/// Ten to the power of `exponent`.
pub open spec fn power_of_ten(exponent: nat) -> nat
    decreases exponent,
{
    if exponent == 0 {
        1
    } else {
        10 * power_of_ten((exponent - 1) as nat)
    }
}

/// A number below a power of ten has no more digits than the exponent.
pub proof fn lemma_decimal_length(number: nat, exponent: nat)
    requires
        number < power_of_ten(exponent),
        exponent > 0,
    ensures
        decimal(number).len() <= exponent,
    decreases exponent,
{
    if number >= 10 {
        if exponent == 1 {
            assert(power_of_ten(0) == 1);
        }
        lemma_decimal_length(number / 10, (exponent - 1) as nat);
    }
}

/// The decimal notation of a machine count has at most twenty digits.
pub proof fn lemma_count_length(number: usize)
    ensures
        decimal(number as nat).len() <= 20,
{
    reveal_with_fuel(power_of_ten, 21);
    assert(power_of_ten(20) == 100_000_000_000_000_000_000);
    lemma_decimal_length(number as nat, 20);
}

/// Trimming the end of a text leaves a beginning of it.
pub proof fn lemma_trimmed_end_is_a_prefix(text: Seq<char>, character: char)
    ensures
        trimmed_end(text, character).is_prefix_of(text),
        trimmed_end(text, character).len() > 0 ==> trimmed_end(text, character).last() != character,
    decreases text.len(),
{
    if text.len() > 0 && text.last() == character {
        lemma_trimmed_end_is_a_prefix(text.drop_last(), character);
    }
}

/// Different numbers have different decimal notations.
pub proof fn lemma_decimal_is_injective(first: nat, second: nat)
    requires
        decimal(first) == decimal(second),
    ensures
        first == second,
{
    lemma_decimal_reads_back(first);
    lemma_decimal_reads_back(second);
}

/// Whether a character is white space, as Unicode has it.
pub open spec fn is_white(character: char) -> bool {
    ||| '\u{9}' <= character <= '\u{d}'
    ||| character == ' '
    ||| character == '\u{85}'
    ||| character == '\u{a0}'
    ||| character == '\u{1680}'
    ||| '\u{2000}' <= character <= '\u{200a}'
    ||| character == '\u{2028}'
    ||| character == '\u{2029}'
    ||| character == '\u{202f}'
    ||| character == '\u{205f}'
    ||| character == '\u{3000}'
}

pub fn is_white_space(character: char) -> (white: bool)
    ensures
        white == is_white(character),
{
    ('\u{9}' <= character && character <= '\u{d}') || character == ' ' || character == '\u{85}'
        || character == '\u{a0}' || character == '\u{1680}' || ('\u{2000}' <= character
        && character <= '\u{200a}') || character == '\u{2028}' || character == '\u{2029}'
        || character == '\u{202f}' || character == '\u{205f}' || character == '\u{3000}'
}

/// A text without the white space at its start.
pub open spec fn trimmed_start(text: Seq<char>) -> Seq<char>
    decreases text.len(),
{
    if text.len() > 0 && is_white(text[0]) {
        trimmed_start(text.drop_first())
    } else {
        text
    }
}

/// A text without the white space at its start and its end.
pub open spec fn trimmed(text: Seq<char>) -> Seq<char>
    decreases text.len(),
{
    if text.len() > 0 && is_white(text.last()) {
        trimmed(text.drop_last())
    } else {
        trimmed_start(text)
    }
}

/// A text without the white space at its start and its end.
pub fn trim(text: &str) -> (trimmed: String)
    ensures
        trimmed@ == self::trimmed(text@),
{
    let all = characters(text);
    let mut end: usize = all.len();
    assert(all@.subrange(0, end as int) == text@);
    while end > 0 && is_white_space(all[end - 1])
        invariant
            end <= all@.len(),
            trimmed(text@) == trimmed(all@.subrange(0, end as int)),
        decreases end,
    {
        assert(all@.subrange(0, end as int).drop_last() == all@.subrange(0, end - 1));
        end -= 1;
    }
    let mut start: usize = 0;
    while start < end && is_white_space(all[start])
        invariant
            start <= end <= all@.len(),
            trimmed(text@) == trimmed_start(all@.subrange(start as int, end as int)),
        decreases end - start,
    {
        assert(all@.subrange(start as int, end as int).drop_first() == all@.subrange(
            start + 1,
            end as int,
        ));
        start += 1;
    }
    text_between(&all, start, end)
}

/// `std::str::from_utf8`, which accepts exactly the valid UTF-8 and yields the characters it
/// encodes, with the text copied.
#[verifier::external_body]
pub(crate) fn decode(bytes: &Vec<u8>) -> (text: Option<String>)
    ensures
        text.deep_view() == decoded(bytes@),
{
    std::str::from_utf8(bytes).ok().map(str::to_owned)
}

/// The text that bytes encode in UTF-8, where they do.
pub open spec fn decoded(bytes: Seq<u8>) -> Option<Seq<char>> {
    if vstd::utf8::valid_utf8(bytes) {
        Some(vstd::utf8::decode_utf8(bytes))
    } else {
        None
    }
}

/// A text that denotes a count has nothing but digits after its first character, which is a digit
/// or a plus sign before one.
pub proof fn counts_are_of_digits(text: Seq<char>)
    requires
        parsed_count(text) is Some,
    ensures
        text.len() > 0,
        '0' <= text[0] <= '9' || (text[0] == '+' && text.len() > 1),
        forall|index: int| 0 < index < text.len() ==> '0' <= #[trigger] text[index] <= '9',
{
    let digits = if text[0] == '+' {
        text.drop_first()
    } else {
        text
    };
    assert forall|index: int| 0 < index < text.len() implies '0' <= #[trigger] text[index]
        <= '9' by {
        if text[0] == '+' {
            assert(is_digit(digits[index - 1]));
        } else {
            assert(is_digit(digits[index]));
        }
    }
    assert(is_digit(digits[0]));
}

/// A text without the repetitions of a character at its end does not end in it, and lacks nothing
/// but such repetitions.
pub proof fn only_the_end_is_trimmed(text: Seq<char>, character: char)
    ensures
        ({
            let kept = trimmed_end(text, character);
            &&& kept.is_prefix_of(text)
            &&& kept.len() > 0 ==> kept.last() != character
            &&& forall|index: int|
                kept.len() <= index < text.len() ==> #[trigger] text[index] == character
        }),
    decreases text.len(),
{
    if text.len() > 0 && text.last() == character {
        let before = text.drop_last();
        only_the_end_is_trimmed(before, character);
        let kept = trimmed_end(text, character);
        assert(text.subrange(0, kept.len() as int) =~= before.subrange(0, kept.len() as int));
        assert forall|index: int| kept.len() <= index < text.len() implies #[trigger] text[index]
            == character by {
            if index < before.len() {
                assert(before[index] == text[index]);
            }
        }
    } else {
        assert(text.subrange(0, text.len() as int) =~= text);
    }
}

/// The parts of a text between a character, joined by it again, are the text, and none of them holds
/// the character.
pub proof fn split_texts_join_again(text: Seq<char>, separator: char)
    ensures
        split(text, separator).len() > 0,
        join(split(text, separator), seq![separator]) == text,
        forall|index: int|
            0 <= index < split(text, separator).len() ==> !(#[trigger] split(
                text,
                separator,
            )[index]).contains(separator),
    decreases text.len(),
{
    let parts = split(text, separator);
    if text.len() == 0 {
        assert(join(parts, seq![separator]) =~= text);
    } else {
        let before = text.drop_last();
        let known = split(before, separator);
        split_texts_join_again(before, separator);
        if text.last() == separator {
            assert(parts.drop_last() =~= known);
            assert(join(parts, seq![separator]) =~= before + seq![separator] + Seq::<
                char,
            >::empty());
            assert(join(parts, seq![separator]) =~= text);
        } else {
            let last = known.len() - 1;
            assert(parts.drop_last() =~= known.drop_last());
            assert(parts.last() == known.last().push(text.last()));
            assert(join(parts, seq![separator]) =~= join(known, seq![separator]).push(
                text.last(),
            ));
            assert(join(parts, seq![separator]) =~= text);
            assert forall|index: int| 0 <= index < parts.len() implies !(
            #[trigger] parts[index]).contains(separator) by {
                if index < last {
                    assert(parts[index] == known[index]);
                } else if parts[index].contains(separator) {
                    let at = parts[index].index_of(separator);
                    assert(!known[last].contains(separator));
                    if at < known[last].len() {
                        assert(known[last][at] == separator);
                    }
                }
            }
        }
    }
}

/// Making a text lower-case keeps its length, makes upper-case ASCII letters lower-case and nothing
/// else, and changes nothing more when it is done again.
pub proof fn lower_texts_stay(text: Seq<char>, index: int)
    requires
        0 <= index < text.len(),
    ensures
        lower(text).len() == text.len(),
        'A' <= text[index] <= 'Z' ==> (lower(text)[index] as u32) == (text[index] as u32) + 32,
        !('A' <= text[index] <= 'Z') ==> lower(text)[index] == text[index],
        !('A' <= lower(text)[index] <= 'Z'),
{
}

/// A text is split at the last of a character: nothing of it is lost, and what follows does not hold
/// the character.
pub proof fn the_last_separator_splits(text: Seq<char>, character: char)
    ensures
        split_at_last(text, character) is None <==> !text.contains(character),
        split_at_last(text, character) matches Some((before, after)) ==> text == before + seq![
            character,
        ] + after && !after.contains(character),
{
    lemma_last_found(text, character);
    if let Some(at) = last_found(text, character) {
        let before = text.take(at);
        let after = text.skip(at + 1);
        assert(text =~= before + seq![character] + after);
        if after.contains(character) {
            let index = after.index_of(character);
            assert(text[at + 1 + index] == character);
        }
        assert(text.contains(character));
    }
}

/// Whether a text stands in another from an index on, and only white space around it.
pub open spec fn is_trimmed_at(text: Seq<char>, kept: Seq<char>, start: int) -> bool {
    &&& 0 <= start
    &&& start + kept.len() <= text.len()
    &&& forall|index: int| 0 <= index < kept.len() ==> #[trigger] kept[index] == text[start + index]
    &&& forall|index: int|
        0 <= index < text.len() && !(start <= index < start + kept.len()) ==> is_white(
            #[trigger] text[index],
        )
}

/// Trimming leaves a text that neither begins nor ends with white space, and takes nothing but white
/// space.
pub proof fn only_white_space_is_trimmed(text: Seq<char>)
    ensures
        trimmed(text).len() > 0 ==> !is_white(trimmed(text)[0]) && !is_white(trimmed(text).last()),
        exists|start: int| is_trimmed_at(text, trimmed(text), start),
{
    let start = lemma_trimmed(text);
    assert(is_trimmed_at(text, trimmed(text), start));
}

proof fn lemma_trimmed(text: Seq<char>) -> (start: int)
    ensures
        trimmed(text).len() > 0 ==> !is_white(trimmed(text)[0]) && !is_white(trimmed(text).last()),
        is_trimmed_at(text, trimmed(text), start),
    decreases text.len(),
{
    if text.len() > 0 && is_white(text.last()) {
        let rest = text.drop_last();
        let start = lemma_trimmed(rest);
        assert forall|index: int|
            0 <= index < text.len() && !(start <= index < start + trimmed(
                text,
            ).len()) implies is_white(#[trigger] text[index]) by {
            if index < rest.len() {
                assert(rest[index] == text[index]);
            }
        }
        start
    } else {
        lemma_trimmed_start(text)
    }
}

proof fn lemma_trimmed_start(text: Seq<char>) -> (start: int)
    requires
        text.len() > 0 ==> !is_white(text.last()),
    ensures
        trimmed_start(text).len() > 0 ==> !is_white(trimmed_start(text)[0]) && !is_white(
            trimmed_start(text).last(),
        ),
        is_trimmed_at(text, trimmed_start(text), start),
    decreases text.len(),
{
    if text.len() > 0 && is_white(text[0]) {
        let rest = text.drop_first();
        if rest.len() > 0 {
            assert(rest.last() == text.last());
        }
        let start = lemma_trimmed_start(rest);
        assert forall|index: int|
            0 <= index < text.len() && !(start + 1 <= index < start + 1 + trimmed_start(
                text,
            ).len()) implies is_white(#[trigger] text[index]) by {
            if index > 0 {
                assert(rest[index - 1] == text[index]);
            }
        }
        start + 1
    } else {
        0
    }
}

} // verus!
