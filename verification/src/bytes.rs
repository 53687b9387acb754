//! Bytes of headers and payloads.

use vstd::prelude::*;
use vstd::string::StringExecFns;

verus! {

/// A byte with an upper-case ASCII letter made lower-case.
pub open spec fn lower_byte(byte: u8) -> u8 {
    if 65 <= byte <= 90 {
        (byte + 32) as u8
    } else {
        byte
    }
}

/// Whether bytes are those of a text but for the case of ASCII letters.
pub open spec fn spells(bytes: Seq<u8>, text: Seq<char>) -> bool {
    let expected = vstd::utf8::encode_utf8(text);
    bytes.len() == expected.len() && forall|index: int|
        0 <= index < bytes.len() ==> lower_byte(#[trigger] bytes[index]) == lower_byte(
            expected[index],
        )
}

fn lowered_byte(byte: u8) -> (lowered: u8)
    ensures
        lowered == lower_byte(byte),
{
    if 65 <= byte && byte <= 90 {
        byte + 32
    } else {
        byte
    }
}

pub fn is_spelled(bytes: &Vec<u8>, text: &str) -> (spelled: bool)
    ensures
        spelled == spells(bytes@, text@),
{
    let expected = text.as_bytes();
    if bytes.len() != expected.len() {
        return false;
    }
    let mut index: usize = 0;
    while index < bytes.len()
        invariant
            index <= bytes@.len(),
            bytes@.len() == expected@.len(),
            expected@ == vstd::utf8::encode_utf8(text@),
            forall|earlier: int|
                0 <= earlier < index ==> lower_byte(#[trigger] bytes@[earlier]) == lower_byte(
                    expected@[earlier],
                ),
        decreases bytes@.len() - index,
    {
        if lowered_byte(bytes[index]) != lowered_byte(expected[index]) {
            return false;
        }
        index += 1;
    }
    true
}

/// Whether `needle` stands in `haystack` at the index `at`.
pub open spec fn stands_at(haystack: Seq<u8>, needle: Seq<u8>, at: int) -> bool {
    0 <= at && at + needle.len() <= haystack.len() && haystack.subrange(at, at + needle.len())
        == needle
}

/// Whether `needle` stands anywhere in `haystack`.
pub open spec fn holds_bytes(haystack: Seq<u8>, needle: Seq<u8>) -> bool {
    exists|at: int| stands_at(haystack, needle, at)
}

/// Whether `needle` stands anywhere in `haystack`.
pub fn contains_bytes(haystack: &[u8], needle: &[u8]) -> (found: bool)
    requires
        needle@.len() > 0,
    ensures
        found == holds_bytes(haystack@, needle@),
{
    if needle.len() > haystack.len() {
        return false;
    }
    let last: usize = haystack.len() - needle.len();
    let mut at: usize = 0;
    while at <= last
        invariant
            last + needle@.len() == haystack.len(),
            at <= last + 1,
            needle@.len() > 0,
            forall|earlier: int| 0 <= earlier < at ==> !stands_at(haystack@, needle@, earlier),
        decreases last + 1 - at,
    {
        let mut length: usize = 0;
        while length < needle.len() && haystack[at + length] == needle[length]
            invariant
                at <= last,
                last + needle@.len() == haystack.len(),
                length <= needle@.len(),
                haystack@.subrange(at as int, at + length) == needle@.take(length as int),
            decreases needle@.len() - length,
        {
            assert(haystack@.subrange(at as int, at + length + 1) == haystack@.subrange(
                at as int,
                at + length,
            ).push(haystack@[at + length]));
            assert(needle@.take(length + 1) == needle@.take(length as int).push(
                needle@[length as int],
            ));
            length += 1;
        }
        if length == needle.len() {
            assert(needle@.take(length as int) == needle@);
            assert(stands_at(haystack@, needle@, at as int));
            return true;
        }
        assert(!stands_at(haystack@, needle@, at as int)) by {
            if stands_at(haystack@, needle@, at as int) {
                assert(haystack@.subrange(at as int, at + needle@.len())[length as int]
                    == needle@[length as int]);
            }
        }
        at += 1;
    }
    false
}

/// Whether bytes hold a text that is not empty.
pub fn contains_text(bytes: &Vec<u8>, part: &str) -> (found: bool)
    ensures
        found == holds_bytes(bytes@, vstd::utf8::encode_utf8(part@)),
{
    let needle = part.as_bytes();
    if needle.len() == 0 {
        assert(bytes@.subrange(0, 0) == needle@);
        assert(stands_at(bytes@, needle@, 0));
        return true;
    }
    contains_bytes(bytes.as_slice(), needle)
}

/// Whether a byte is ASCII white space.
pub open spec fn is_white(byte: u8) -> bool {
    byte == 0x20 || byte == 0x09 || byte == 0x0a || byte == 0x0c || byte == 0x0d
}

/// Bytes without the ASCII white space before and after them.
pub open spec fn trimmed_ascii(bytes: Seq<u8>) -> Seq<u8>
    decreases bytes.len(),
{
    if bytes.len() == 0 {
        bytes
    } else if is_white(bytes[0]) {
        trimmed_ascii(bytes.drop_first())
    } else if is_white(bytes.last()) {
        trimmed_ascii(bytes.drop_last())
    } else {
        bytes
    }
}

fn is_white_space(byte: u8) -> (white: bool)
    ensures
        white == is_white(byte),
{
    byte == 0x20 || byte == 0x09 || byte == 0x0a || byte == 0x0c || byte == 0x0d
}

/// Bytes without the ASCII white space before and after them.
pub fn trim_ascii(bytes: &[u8]) -> (trimmed: Vec<u8>)
    ensures
        trimmed@ == trimmed_ascii(bytes@),
{
    let mut start: usize = 0;
    let mut end: usize = bytes.len();
    assert(bytes@.subrange(0, end as int) == bytes@);
    while start < end && is_white_space(bytes[start])
        invariant
            start <= end,
            end == bytes@.len(),
            trimmed_ascii(bytes@) == trimmed_ascii(bytes@.subrange(start as int, end as int)),
        decreases end - start,
    {
        assert(bytes@.subrange(start as int, end as int).drop_first() == bytes@.subrange(
            start + 1,
            end as int,
        ));
        start += 1;
    }
    while start < end && is_white_space(bytes[end - 1])
        invariant
            start <= end <= bytes@.len(),
            start < end ==> !is_white(bytes@[start as int]),
            trimmed_ascii(bytes@) == trimmed_ascii(bytes@.subrange(start as int, end as int)),
        decreases end - start,
    {
        assert(bytes@.subrange(start as int, end as int).drop_last() == bytes@.subrange(
            start as int,
            end - 1,
        ));
        end -= 1;
    }
    let mut trimmed: Vec<u8> = Vec::new();
    let mut index: usize = start;
    while index < end
        invariant
            start <= index <= end <= bytes@.len(),
            trimmed@ == bytes@.subrange(start as int, index as int),
        decreases end - index,
    {
        trimmed.push(bytes[index]);
        index += 1;
        assert(bytes@.subrange(start as int, index as int) == bytes@.subrange(
            start as int,
            index - 1,
        ).push(bytes@[index - 1]));
    }
    assert(bytes@.subrange(start as int, index as int) == bytes@.subrange(start as int, end as int));
    trimmed
}

/// Trimming leaves bytes that neither begin nor end with white space, and takes nothing but white
/// space.
pub proof fn only_white_space_is_trimmed(bytes: Seq<u8>)
    ensures
        trimmed_ascii(bytes).len() > 0 ==> !is_white(trimmed_ascii(bytes)[0]) && !is_white(
            trimmed_ascii(bytes).last(),
        ),
        exists|start: int| is_trimmed_at(bytes, trimmed_ascii(bytes), start),
{
    let start = lemma_trimmed_ascii(bytes);
    assert(is_trimmed_at(bytes, trimmed_ascii(bytes), start));
}

/// Whether bytes stand in others from an index on, and only white space around them.
pub open spec fn is_trimmed_at(bytes: Seq<u8>, kept: Seq<u8>, start: int) -> bool {
    &&& 0 <= start
    &&& start + kept.len() <= bytes.len()
    &&& forall|index: int| 0 <= index < kept.len() ==> #[trigger] kept[index] == bytes[start + index]
    &&& forall|index: int|
        0 <= index < bytes.len() && !(start <= index < start + kept.len()) ==> is_white(
            #[trigger] bytes[index],
        )
}

proof fn lemma_trimmed_ascii(bytes: Seq<u8>) -> (start: int)
    ensures
        trimmed_ascii(bytes).len() > 0 ==> !is_white(trimmed_ascii(bytes)[0]) && !is_white(
            trimmed_ascii(bytes).last(),
        ),
        is_trimmed_at(bytes, trimmed_ascii(bytes), start),
    decreases bytes.len(),
{
    if bytes.len() > 0 && is_white(bytes[0]) {
        let rest = bytes.drop_first();
        let start = lemma_trimmed_ascii(rest);
        assert forall|index: int|
            0 <= index < bytes.len() && !(start + 1 <= index < start + 1 + trimmed_ascii(
                bytes,
            ).len()) implies is_white(#[trigger] bytes[index]) by {
            if index > 0 {
                assert(rest[index - 1] == bytes[index]);
            }
        }
        start + 1
    } else if bytes.len() > 0 && is_white(bytes.last()) {
        let rest = bytes.drop_last();
        let start = lemma_trimmed_ascii(rest);
        assert forall|index: int|
            0 <= index < bytes.len() && !(start <= index < start + trimmed_ascii(
                bytes,
            ).len()) implies is_white(#[trigger] bytes[index]) by {
            if index < rest.len() {
                assert(rest[index] == bytes[index]);
            }
        }
        start
    } else {
        0
    }
}

/// The bytes of a text spell it, also in capitals, and bytes of another length do not.
pub proof fn texts_are_spelled_in_either_case(bytes: Seq<u8>, text: Seq<char>)
    ensures
        spells(vstd::utf8::encode_utf8(text), text),
        bytes.len() != vstd::utf8::encode_utf8(text).len() ==> !spells(bytes, text),
        bytes.len() == vstd::utf8::encode_utf8(text).len() && (forall|index: int|
            0 <= index < bytes.len() ==> {
                let expected = vstd::utf8::encode_utf8(text)[index];
                #[trigger] bytes[index] == expected || (97 <= expected <= 122 && bytes[index]
                    == expected - 32)
            }) ==> spells(bytes, text),
{
}

} // verus!
