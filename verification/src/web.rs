//! Web addresses as the `url` crate reads them.

use crate::text;
use vstd::prelude::*;
use vstd::string::StringExecFns;

verus! {

/// A web address in the parts that the `url` crate tells apart.
#[derive(Debug, Eq, PartialEq)]
pub struct Address {
    /// The whole address, in its normal form.
    pub href: String,
    /// The scheme, without its colon.
    pub scheme: String,
    /// The host, unless the address has none.
    pub host: Option<String>,
    /// The port, explicit or the scheme's own.
    pub port: Option<u16>,
    /// The path, percent-encoded.
    pub path: String,
    /// The query, percent-encoded and without its question mark.
    pub query: Option<String>,
    /// The fragment, percent-encoded and without its hash sign.
    pub fragment: Option<String>,
    /// The query's names and values, decoded, in order.
    pub pairs: Vec<(String, String)>,
}

/// The parts of an [`Address`].
#[verifier::ext_equal]
pub struct AddressView {
    pub href: Seq<char>,
    pub scheme: Seq<char>,
    pub host: Option<Seq<char>>,
    pub port: Option<u16>,
    pub path: Seq<char>,
    pub query: Option<Seq<char>>,
    pub fragment: Option<Seq<char>>,
    pub pairs: Seq<(Seq<char>, Seq<char>)>,
}

impl DeepView for Address {
    type V = AddressView;

    open spec fn deep_view(&self) -> AddressView {
        AddressView {
            href: self.href@,
            scheme: self.scheme@,
            host: self.host.deep_view(),
            port: self.port,
            path: self.path@,
            query: self.query.deep_view(),
            fragment: self.fragment.deep_view(),
            pairs: self.pairs.deep_view(),
        }
    }
}

/// How many characters a part of an address and the mark before it have.
pub open spec fn marked_length(part: Option<Seq<char>>) -> nat {
    match part {
        Some(part) => part.len() + 1,
        None => 0,
    }
}

impl AddressView {
    /// Whether the path is one of segments, which a slash follows the scheme's colon for, and not
    /// opaque.
    pub open spec fn is_hierarchical(self) -> bool {
        (self.scheme + ":/"@).is_prefix_of(self.href)
    }

    /// Whether the `url` crate, which counts the characters before a query or a fragment in 32
    /// bits, can count them and so many more.
    pub open spec fn is_short(self, more: int) -> bool {
        let to_fragment = self.href.len() - marked_length(self.fragment);
        &&& to_fragment - marked_length(self.query) + more <= u32::MAX
        &&& self.fragment is Some ==> to_fragment + more <= u32::MAX
    }
}

/// How many characters a part of an address and the mark before it have.
fn measure(part: &Option<String>) -> (length: u128)
    ensures
        length == marked_length(part.deep_view()),
        length <= usize::MAX + 1,
{
    match part {
        Some(part) => part.as_str().unicode_len() as u128 + 1,
        None => 0,
    }
}

impl Address {
    /// Whether the `url` crate can count the characters before the address's query and fragment,
    /// and so many more.
    pub fn is_short(&self, more: u32) -> (short: bool)
        ensures
            short == self.deep_view().is_short(more as int),
    {
        let length: u128 = self.href.as_str().unicode_len() as u128 + more as u128;
        let query: u128 = measure(&self.query);
        let fragment: u128 = measure(&self.fragment);
        length <= u32::MAX as u128 + query + fragment && (self.fragment.is_none() || length
            <= u32::MAX as u128 + fragment)
    }
}

/// Whether a text's path can be set, where the text is an address.
pub open spec fn is_settable(text: Seq<char>) -> bool {
    parsed_address(text) matches Ok(address) ==> address.is_short(0)
}

/// Whether a text's path can be set, where the text is an address.
pub fn can_be_set(text: &str) -> (settable: bool)
    ensures
        settable == is_settable(text@),
{
    match parse(text) {
        Ok(address) => address.is_short(0),
        Err(_) => true,
    }
}

/// A copy of names and values, in order.
pub fn copied_pairs(pairs: &Vec<(String, String)>) -> (copies: Vec<(String, String)>)
    ensures
        copies.deep_view() == pairs.deep_view(),
{
    let mut copies: Vec<(String, String)> = Vec::new();
    let mut index: usize = 0;
    while index < pairs.len()
        invariant
            index <= pairs@.len(),
            copies.deep_view() == pairs.deep_view().take(index as int),
        decreases pairs@.len() - index,
    {
        let ghost known = copies.deep_view();
        let pair = (pairs[index].0.clone(), pairs[index].1.clone());
        assert(pair.deep_view() == pairs.deep_view()[index as int]);
        copies.push(pair);
        assert(copies.deep_view() == known.push(pairs.deep_view()[index as int]));
        index += 1;
        assert(pairs.deep_view().take(index as int) == known.push(pairs.deep_view()[index - 1]));
    }
    assert(pairs.deep_view().take(index as int) == pairs.deep_view());
    copies
}

/// The first value that a query gives a name.
pub open spec fn first_value(pairs: Seq<(Seq<char>, Seq<char>)>, name: Seq<char>) -> Option<
    Seq<char>,
>
    decreases pairs.len(),
{
    if pairs.len() == 0 {
        None
    } else if pairs[0].0 == name {
        Some(pairs[0].1)
    } else {
        first_value(pairs.drop_first(), name)
    }
}

/// The first value that a query gives a name.
pub fn find_value<'a>(pairs: &'a Vec<(String, String)>, name: &str) -> (value: Option<&'a str>)
    ensures
        value.deep_view() == first_value(pairs.deep_view(), name@),
{
    let ghost all = pairs.deep_view();
    let mut index: usize = 0;
    assert(all.skip(0) == all);
    while index < pairs.len()
        invariant
            index <= pairs@.len(),
            all == pairs.deep_view(),
            first_value(all, name@) == first_value(all.skip(index as int), name@),
        decreases pairs@.len() - index,
    {
        assert(all.skip(index as int).drop_first() == all.skip(index + 1));
        assert(all.skip(index as int)[0] == pairs@[index as int].deep_view());
        if text::same(pairs[index].0.as_str(), name) {
            return Some(pairs[index].1.as_str());
        }
        index += 1;
    }
    None
}

fn same_pairs(left: &Vec<(String, String)>, right: &Vec<(String, String)>) -> (same: bool)
    ensures
        same == (left.deep_view() == right.deep_view()),
{
    if left.len() != right.len() {
        return false;
    }
    let mut index: usize = 0;
    while index < left.len()
        invariant
            index <= left@.len(),
            left@.len() == right@.len(),
            left.deep_view().take(index as int) == right.deep_view().take(index as int),
        decreases left@.len() - index,
    {
        let ghost before = left.deep_view().take(index as int);
        assert(left.deep_view()[index as int] == left@[index as int].deep_view());
        assert(right.deep_view()[index as int] == right@[index as int].deep_view());
        if !text::same(left[index].0.as_str(), right[index].0.as_str()) || !text::same(
            left[index].1.as_str(),
            right[index].1.as_str(),
        ) {
            return false;
        }
        index += 1;
        assert(left.deep_view().take(index as int) =~= before.push(left.deep_view()[index - 1]));
        assert(right.deep_view().take(index as int) =~= before.push(right.deep_view()[index - 1]));
    }
    assert(left.deep_view().take(index as int) =~= left.deep_view());
    assert(right.deep_view().take(index as int) =~= right.deep_view());
    true
}

impl Address {
    /// Whether the address is another.
    pub fn equals(&self, other: &Self) -> (equal: bool)
        ensures
            equal == (self.deep_view() == other.deep_view()),
    {
        let same_port = match (self.port, other.port) {
            (Some(left), Some(right)) => left == right,
            (None, None) => true,
            _ => false,
        };
        text::same(self.href.as_str(), other.href.as_str()) && text::same(
            self.scheme.as_str(),
            other.scheme.as_str(),
        ) && text::same_optional(&self.host, &other.host) && same_port && text::same(
            self.path.as_str(),
            other.path.as_str(),
        ) && text::same_optional(&self.query, &other.query) && text::same_optional(
            &self.fragment,
            &other.fragment,
        ) && same_pairs(&self.pairs, &other.pairs)
    }

    /// A copy of the address.
    pub fn copied(&self) -> (copy: Self)
        ensures
            copy.deep_view() == self.deep_view(),
    {
        Address {
            href: self.href.clone(),
            scheme: self.scheme.clone(),
            host: text::copied(&self.host),
            port: self.port,
            path: self.path.clone(),
            query: text::copied(&self.query),
            fragment: text::copied(&self.fragment),
            pairs: copied_pairs(&self.pairs),
        }
    }
}

/// What `url::Url::parse` reads a text as, or the `Display` of the error that it reports.
pub uninterp spec fn parsed_address(text: Seq<char>) -> Result<AddressView, Seq<char>>;

/// Whether a query is one that is read as it stands: plain, without percent signs, and without the
/// plus signs that stand for spaces.
pub open spec fn is_literal_query(query: Seq<char>) -> bool {
    is_plain_query(query) && !query.contains('%') && !query.contains('+')
}

/// The name and the value of a literal query's piece, which an equals sign stands between.
pub open spec fn literal_pair(piece: Seq<char>) -> (Seq<char>, Seq<char>) {
    match text::split_at_first(piece, "="@) {
        Some((name, value)) => (name, value),
        None => (piece, Seq::empty()),
    }
}

/// The names and values of a literal query, in its pieces between ampersands that are not empty.
pub open spec fn literal_pairs(query: Seq<char>) -> Seq<(Seq<char>, Seq<char>)>
    decreases query.len(),
    via literal_pairs_decrease
{
    let (piece, rest) = match text::split_at_first(query, "&"@) {
        Some((piece, rest)) => (piece, Some(rest)),
        None => (query, None),
    };
    let here = if piece.len() > 0 {
        seq![literal_pair(piece)]
    } else {
        Seq::empty()
    };
    match rest {
        Some(rest) => here + literal_pairs(rest),
        None => here,
    }
}

#[via_fn]
proof fn literal_pairs_decrease(query: Seq<char>) {
    reveal_strlit("&");
    text::lemma_found_from(query, "&"@, 0);
}

/// Whether a text has no question mark or hash sign.
pub open spec fn is_bare(text: Seq<char>) -> bool {
    !text.contains('?') && !text.contains('#')
}

/// Whether an address that a text is read as has the text's literal query, or none where the text
/// has no question mark.
pub open spec fn has_query_of(address: AddressView, text: Seq<char>) -> bool {
    match text::split_at_first(text, "?"@) {
        Some((front, query)) => !front.contains('#') && is_literal_query(query) ==> {
            &&& address.query == Some(query)
            &&& address.pairs == literal_pairs(query)
            &&& address.fragment is None
        },
        None => !text.contains('#') ==> {
            &&& address.query is None
            &&& address.pairs.len() == 0
            &&& address.fragment is None
        },
    }
}

/// Whether the query of a text, where the text is an address, is read as it stands. So is that of
/// every text that [`parse`] reads.
pub open spec fn is_read(text: Seq<char>) -> bool {
    parsed_address(text) matches Ok(address) ==> has_query_of(address, text)
}

/// `url::Url::parse`, with the parts of the address it returns. Which texts are addresses, and
/// what their parts are, is left to [`parsed_address`], but that a question mark begins a query and
/// a hash sign a fragment, in the text as in the address, so that there is neither without them,
/// and that a literal query is kept as it stands, `Url::query_pairs` splitting it at ampersands and
/// equals signs. An error is given by its `Display`.
#[verifier::external_body]
pub(crate) fn parse(text: &str) -> (address: Result<Address, String>)
    ensures
        match address {
            Ok(address) => {
                &&& parsed_address(text@) == Ok::<AddressView, Seq<char>>(address.deep_view())
                &&& has_query_of(address.deep_view(), text@)
                &&& address.query is None && address.fragment is None ==> is_bare(address.href@)
            },
            Err(reason) => parsed_address(text@) == Err::<AddressView, Seq<char>>(reason@),
        },
{
    url::Url::parse(text).map(|url| Address {
        href: url.to_string(),
        scheme: url.scheme().to_owned(),
        host: url.host_str().map(str::to_owned),
        port: url.port_or_known_default(),
        path: url.path().to_owned(),
        query: url.query().map(str::to_owned),
        fragment: url.fragment().map(str::to_owned),
        pairs: url.query_pairs().into_owned().collect(),
    }).map_err(|error| error.to_string())
}

/// The address that `url::Url::parse` reads a text as, after `Url::set_path` with `path` and the
/// removal of its query and fragment.
pub uninterp spec fn address_at_path(text: Seq<char>, path: Seq<char>) -> Seq<char>;

/// Whether `path` is the beginning of an address's path, or that and a slash more, which may be
/// percent-encoded in three characters, and the address with it can be counted.
pub open spec fn is_within(path: Seq<char>, address: AddressView) -> bool {
    ||| path.is_prefix_of(address.path) && address.is_short(0)
    ||| path.len() > 0 && path.last() == '/' && path.drop_last().is_prefix_of(address.path)
        && address.is_short(3)
}

/// `url::Url::parse` followed by `Url::set_path`, and by `Url::set_query` and `Url::set_fragment`
/// with nothing to set. The path replaces the address's own and is no more than a slash longer than
/// a beginning of it, since the crate panics where it cannot count the characters before the query
/// or the fragment. What the address becomes is left to [`address_at_path`], but that it has no
/// question mark or hash sign and ends with the path's last slash, unless the path is opaque.
#[verifier::external_body]
pub(crate) fn at_path(text: &str, path: &str) -> (href: String)
    requires
        match parsed_address(text@) {
            Ok(address) => is_within(path@, address),
            Err(_) => false,
        },
    ensures
        href@ == address_at_path(text@, path@),
        is_bare(href@),
        parsed_address(text@)->Ok_0.is_hierarchical() && path@.len() > 0 && path@.last() == '/'
            ==> href@.len() > 0 && href@.last() == '/',
{
    let mut url = url::Url::parse(text).expect("the text is an address");
    url.set_path(path);
    url.set_query(None);
    url.set_fragment(None);
    url.to_string()
}

/// What `url::Url::join` resolves `reference` to against the address `base`, or the `Display` of
/// the error by which either is refused.
pub uninterp spec fn resolved_address(base: Seq<char>, reference: Seq<char>) -> Result<
    Seq<char>,
    Seq<char>,
>;

/// Whether a reference is a relative path of letters, digits, hyphens, and slashes, the first of
/// them a letter.
pub open spec fn is_plain_path(reference: Seq<char>) -> bool {
    &&& reference.len() > 0
    &&& 'a' <= reference[0] <= 'z'
    &&& forall|index: int|
        0 <= index < reference.len() ==> {
            let character = #[trigger] reference[index];
            'a' <= character <= 'z' || '0' <= character <= '9' || character == '-' || character
                == '/'
        }
}

/// `url::Url::join`, on the address that `url::Url::parse` reads `base` as. What the reference
/// resolves to is left to [`resolved_address`], but that a plain path replaces the base's query and
/// fragment, and follows the last slash of a base that ends with one and has neither. An error is
/// given by its `Display`.
#[verifier::external_body]
pub(crate) fn resolve(base: &str, reference: &str) -> (href: Result<String, String>)
    ensures
        match href {
            Ok(href) => {
                &&& resolved_address(base@, reference@) == Ok::<Seq<char>, Seq<char>>(href@)
                &&& is_plain_path(reference@) ==> is_bare(href@)
                &&& is_plain_path(reference@) && is_bare(base@) && base@.len() > 0 && base@.last()
                    == '/' ==> ("/"@ + reference@).is_suffix_of(href@)
            },
            Err(reason) => resolved_address(base@, reference@) == Err::<Seq<char>, Seq<char>>(
                reason@,
            ),
        },
{
    url::Url::parse(base)
        .and_then(|base| base.join(reference))
        .map(String::from)
        .map_err(|error| error.to_string())
}

/// Whether a query is one that no character of is percent-encoded: it is of visible ASCII
/// characters, other than quotation marks, hash signs, and angle brackets.
pub open spec fn is_plain_query(query: Seq<char>) -> bool {
    forall|index: int|
        0 <= index < query.len() ==> {
            let character = #[trigger] query[index];
            '!' <= character <= '~' && character != '"' && character != '#' && character != '<'
                && character != '>' && character != '\''
        }
}

/// `url::Url::parse` followed by `Url::set_query`, on an address without a query or a fragment,
/// which is then followed by a question mark and the query. The address is limited since the crate
/// panics where it cannot count the characters before the query.
#[verifier::external_body]
pub(crate) fn with_query(text: &str, query: &str) -> (href: String)
    requires
        match parsed_address(text@) {
            Ok(address) => address.query is None && address.fragment is None
                && address.href.len() <= u32::MAX,
            Err(_) => false,
        },
        is_plain_query(query@),
    ensures
        href@ == parsed_address(text@)->Ok_0.href + "?"@ + query@,
{
    let mut url = url::Url::parse(text).expect("the text is an address");
    url.set_query(Some(query));
    url.to_string()
}

/// Two literal queries are one when joined.
pub proof fn lemma_joined_queries(first: Seq<char>, second: Seq<char>)
    requires
        is_literal_query(first),
        is_literal_query(second),
    ensures
        is_literal_query(first + second),
{
    let joined = first + second;
    assert forall|index: int| 0 <= index < joined.len() implies (#[trigger] joined[index]) != '%'
        && joined[index] != '+' by {
        if index < first.len() {
            assert(first.contains(joined[index]));
        } else {
            assert(second.contains(joined[index]));
        }
    }
}

/// The first piece of a literal query is its first pair.
pub proof fn lemma_first_pair(name: Seq<char>, value: Seq<char>, rest: Seq<char>)
    requires
        !name.contains('='),
        !name.contains('&'),
        !value.contains('&'),
    ensures
        literal_pairs(name + "="@ + value + "&"@ + rest) == seq![(name, value)] + literal_pairs(
            rest,
        ),
{
    reveal_strlit("=");
    reveal_strlit("&");
    let piece = name + "="@ + value;
    assert(!piece.contains('&')) by {
        if piece.contains('&') {
            let index = choose|index: int| 0 <= index < piece.len() && piece[index] == '&';
            if index < name.len() {
                assert(name.contains(piece[index]));
            } else if index > name.len() {
                assert(value[index - name.len() - 1] == '&');
            }
        }
    }
    assert("="@ =~= seq!['=']);
    assert("&"@ =~= seq!['&']);
    text::lemma_split_at_first(piece, '&', rest);
    text::lemma_split_at_first(name, '=', value);
}

/// The last piece of a literal query is its last pair.
pub proof fn lemma_last_pair(name: Seq<char>, value: Seq<char>)
    requires
        !name.contains('='),
        !name.contains('&'),
        !value.contains('&'),
    ensures
        literal_pairs(name + "="@ + value) == seq![(name, value)],
{
    reveal_strlit("=");
    reveal_strlit("&");
    let piece = name + "="@ + value;
    assert(!piece.contains('&')) by {
        if piece.contains('&') {
            let index = choose|index: int| 0 <= index < piece.len() && piece[index] == '&';
            if index < name.len() {
                assert(name.contains(piece[index]));
            } else if index > name.len() {
                assert(value[index - name.len() - 1] == '&');
            }
        }
    }
    assert("="@ =~= seq!['=']);
    assert("&"@ =~= seq!['&']);
    text::lemma_no_split(piece, '&');
    text::lemma_split_at_first(name, '=', value);
}

/// The first value of a name is that of the first pair that has the name.
pub proof fn the_first_value_is_found(pairs: Seq<(Seq<char>, Seq<char>)>, name: Seq<char>)
    ensures
        match first_value(pairs, name) {
            Some(value) => exists|index: int|
                0 <= index < pairs.len() && #[trigger] pairs[index] == (name, value)
                    && forall|earlier: int|
                    0 <= earlier < index ==> (#[trigger] pairs[earlier]).0 != name,
            None => forall|index: int|
                0 <= index < pairs.len() ==> (#[trigger] pairs[index]).0 != name,
        },
    decreases pairs.len(),
{
    if pairs.len() > 0 {
        if pairs[0].0 == name {
            assert(pairs[0] == (name, pairs[0].1));
        } else {
            let rest = pairs.drop_first();
            the_first_value_is_found(rest, name);
            match first_value(rest, name) {
                Some(value) => {
                    let index = choose|index: int|
                        0 <= index < rest.len() && #[trigger] rest[index] == (name, value)
                            && forall|earlier: int|
                            0 <= earlier < index ==> (#[trigger] rest[earlier]).0 != name;
                    assert(pairs[index + 1] == (name, value));
                    assert forall|earlier: int| 0 <= earlier < index + 1 implies (
                    #[trigger] pairs[earlier]).0 != name by {
                        if earlier > 0 {
                            assert(rest[earlier - 1] == pairs[earlier]);
                        }
                    }
                },
                None => {
                    assert forall|index: int| 0 <= index < pairs.len() implies (
                    #[trigger] pairs[index]).0 != name by {
                        if index > 0 {
                            assert(rest[index - 1] == pairs[index]);
                        }
                    }
                },
            }
        }
    }
}

} // verus!
