//! Points in time as the `chrono` crate holds, reads, and renders them.

use vstd::prelude::*;

verus! {

/// A UTC point in time at nanosecond precision.
///
/// A leap second is the fraction from one to two seconds of the second before it.
#[derive(Clone, Copy, Debug, Eq, Hash, Ord, PartialEq, PartialOrd)]
pub struct Timestamp {
    seconds: i64,
    nanos: u32,
}

/// A point in time, in seconds since the Unix epoch and nanoseconds past the second.
pub struct Moment {
    pub seconds: int,
    pub nanos: int,
}

impl Moment {
    /// Whether `chrono` can hold the point in time: its year is one from -262143 to 262142, and
    /// only the last second of a minute is followed by a leap second.
    pub open spec fn is_representable(self) -> bool {
        &&& -8_334_601_228_800 <= self.seconds <= 8_210_266_876_799
        &&& 0 <= self.nanos < 2_000_000_000
        &&& self.nanos >= 1_000_000_000 ==> self.seconds % 60 == 59
    }

    /// Whether this point in time is earlier than another.
    pub open spec fn precedes(self, other: Self) -> bool {
        self.seconds < other.seconds || (self.seconds == other.seconds && self.nanos < other.nanos)
    }

    /// Whether the point in time lies in one of the years 0 to 9999, whose notation is RFC 3339's.
    pub open spec fn has_plain_year(self) -> bool {
        -62_167_219_200 <= self.seconds <= 253_402_300_799
    }

    /// The number of the day that holds this point in time, counted from the Unix epoch's.
    pub open spec fn day(self) -> int {
        self.seconds / 86_400
    }
}

impl View for Timestamp {
    type V = Moment;

    closed spec fn view(&self) -> Moment {
        Moment { seconds: self.seconds as int, nanos: self.nanos as int }
    }
}

impl DeepView for Timestamp {
    type V = Moment;

    open spec fn deep_view(&self) -> Moment {
        self@
    }
}

impl Timestamp {
    #[verifier::type_invariant]
    spec fn is_valid(self) -> bool {
        self@.is_representable()
    }

    /// The point in time so many seconds and nanoseconds after the Unix epoch, where it can be
    /// represented.
    pub fn new(seconds: i64, nanos: u32) -> (timestamp: Option<Self>)
        ensures
            match timestamp {
                Some(timestamp) => timestamp@ == (Moment {
                    seconds: seconds as int,
                    nanos: nanos as int,
                }) && timestamp@.is_representable(),
                None => !(Moment {
                    seconds: seconds as int,
                    nanos: nanos as int,
                }).is_representable(),
            },
    {
        if seconds < -8_334_601_228_800 || seconds > 8_210_266_876_799 || nanos >= 2_000_000_000 {
            return None;
        }
        if nanos >= 1_000_000_000 && (seconds + 8_334_601_228_800) % 60 != 59 {
            return None;
        }
        Some(Timestamp { seconds, nanos })
    }

    /// The Unix epoch.
    pub fn epoch() -> (timestamp: Self)
        ensures
            timestamp@ == (Moment { seconds: 0, nanos: 0 }),
    {
        Timestamp { seconds: 0, nanos: 0 }
    }

    /// Seconds since the Unix epoch.
    pub fn seconds(&self) -> (seconds: i64)
        ensures
            seconds == self@.seconds,
            self@.is_representable(),
    {
        proof {
            use_type_invariant(self);
        }
        self.seconds
    }

    /// Nanoseconds past the second.
    pub fn nanos(&self) -> (nanos: u32)
        ensures
            nanos == self@.nanos,
    {
        self.nanos
    }

    /// Whether this point in time is earlier than another.
    pub fn precedes(&self, other: &Self) -> (earlier: bool)
        ensures
            earlier == self@.precedes(other@),
    {
        self.seconds < other.seconds || (self.seconds == other.seconds && self.nanos < other.nanos)
    }

    /// Whether this point in time is another.
    pub fn equals(&self, other: &Self) -> (equal: bool)
        ensures
            equal == (self@ == other@),
    {
        self.seconds == other.seconds && self.nanos == other.nanos
    }

    /// The day that holds this point in time.
    pub fn day(&self) -> (day: Day)
        ensures
            day@ == self@.day(),
    {
        proof {
            use_type_invariant(self);
        }
        let offset: i64 = self.seconds + 8_334_601_228_800;
        Day { number: offset / 86_400 - 96_465_292 }
    }

    /// The point in time in RFC 3339 notation at whole-second precision, with `Z` for its offset.
    ///
    /// Reading the notation of an ordinary second in a plain year gives the second back.
    pub fn rendered(&self) -> (text: String)
        ensures
            text@ == whole_second_text(self@.seconds, self@.nanos),
            is_notation(text@),
            text@.len() <= 23,
            self@.has_plain_year() && self@.nanos < 1_000_000_000 ==> reads_back(self@),
    {
        proof {
            use_type_invariant(self);
        }
        whole_second_notation(self.seconds, self.nanos)
    }

    /// The point in time in RFC 3339 notation at the precision it needs, with a numeric offset.
    pub fn rendered_in_full(&self) -> (text: String)
        ensures
            text@ == full_text(self@.seconds, self@.nanos),
    {
        proof {
            use_type_invariant(self);
        }
        full_notation(self.seconds, self.nanos)
    }

    /// The point in time so many seconds and nanoseconds before this one, where it can be
    /// represented.
    pub fn earlier(&self, seconds: i64, nanos: u32) -> (earlier: Option<Self>)
        requires
            is_span(seconds as int, nanos as int),
        ensures
            earlier.deep_view() == time_before(
                self@.seconds,
                self@.nanos,
                seconds as int,
                nanos as int,
            ),
            self@.nanos < 1_000_000_000 ==> match earlier {
                Some(earlier) => earlier@ == moved_back(
                    self@.seconds,
                    self@.nanos,
                    seconds as int,
                    nanos as int,
                ),
                None => !moved_back(
                    self@.seconds,
                    self@.nanos,
                    seconds as int,
                    nanos as int,
                ).is_representable(),
            },
    {
        proof {
            use_type_invariant(self);
        }
        match subtract(self.seconds, self.nanos, seconds, nanos) {
            Some((seconds, nanos)) => Timestamp::new(seconds, nanos),
            None => None,
        }
    }

    /// The point in time as a message shows it.
    pub fn to_string(&self) -> (text: String)
        ensures
            text@ == display_text(self@.seconds, self@.nanos),
    {
        proof {
            use_type_invariant(self);
        }
        display_notation(self.seconds, self.nanos)
    }
}

/// What a `DateTime<Utc>` displays as.
pub uninterp spec fn display_text(seconds: int, nanos: int) -> Seq<char>;

/// The `Display` of `chrono::DateTime<Utc>`, of the time that `DateTime::from_timestamp` makes. The
/// notation itself is left to [`display_text`].
#[verifier::external_body]
fn display_notation(seconds: i64, nanos: u32) -> (text: String)
    requires
        (Moment { seconds: seconds as int, nanos: nanos as int }).is_representable(),
    ensures
        text@ == display_text(seconds as int, nanos as int),
{
    chrono::DateTime::from_timestamp(seconds, nanos)
        .expect("the time is representable")
        .to_string()
}

/// A day of the calendar, numbered from the Unix epoch's.
#[derive(Clone, Copy, Debug, Eq, Hash, Ord, PartialEq, PartialOrd)]
pub struct Day {
    number: i64,
}

impl View for Day {
    type V = int;

    closed spec fn view(&self) -> int {
        self.number as int
    }
}

impl DeepView for Day {
    type V = int;

    open spec fn deep_view(&self) -> int {
        self@
    }
}

impl Day {
    #[verifier::type_invariant]
    spec fn is_valid(self) -> bool {
        -96_465_292 <= self.number <= 95_026_236
    }

    /// Whether this day is earlier than another.
    pub fn precedes(&self, other: &Self) -> (earlier: bool)
        ensures
            earlier == (self@ < other@),
    {
        self.number < other.number
    }

    /// The day in ISO 8601 calendar notation.
    pub fn rendered(&self) -> (text: String)
        ensures
            text@ == day_text(self@),
    {
        proof {
            use_type_invariant(self);
        }
        date_notation(self.number * 86_400, 0)
    }
}

/// Whether a text is made of digits, signs, colons, and the letters of an RFC 3339 notation, and
/// ends with the letter of the offset zero.
pub open spec fn is_notation(text: Seq<char>) -> bool {
    &&& text.len() > 0
    &&& text.last() == 'Z'
    &&& forall|index: int|
        0 <= index < text.len() ==> {
            let character = #[trigger] text[index];
            '0' <= character <= '9' || character == '-' || character == '+' || character == ':'
                || character == 'T' || character == 'Z'
        }
}

/// Whether the notation of a point in time at whole-second precision is the one of its second and
/// is read as its second, without plus signs.
pub open spec fn reads_back(moment: Moment) -> bool {
    let text = whole_second_text(moment.seconds, moment.nanos);
    let second = Moment { seconds: moment.seconds, nanos: 0 };
    &&& is_notation(text)
    &&& !text.contains('+')
    &&& text == whole_second_text(second.seconds, second.nanos)
    &&& parsed_rfc3339(text) == Some(second)
}

/// What `DateTime::to_rfc3339_opts` renders a UTC time as, with `SecondsFormat::Secs` and `Z`.
pub uninterp spec fn whole_second_text(seconds: int, nanos: int) -> Seq<char>;

/// `chrono::DateTime::to_rfc3339_opts` with `SecondsFormat::Secs` and `use_z`, on the time that
/// `DateTime::from_timestamp` makes. The notation itself is left to [`whole_second_text`]; it has a
/// year of four digits, or of a sign and up to six, and sixteen characters more, of which the last
/// is the `Z`. What it writes of an ordinary second in a year of four digits is the same at any of
/// its nanoseconds and has no sign before the year, and `DateTime::parse_from_rfc3339` reads it as
/// the second.
#[verifier::external_body]
fn whole_second_notation(seconds: i64, nanos: u32) -> (text: String)
    requires
        (Moment { seconds: seconds as int, nanos: nanos as int }).is_representable(),
    ensures
        text@ == whole_second_text(seconds as int, nanos as int),
        is_notation(text@),
        text@.len() <= 23,
        -62_167_219_200 <= seconds <= 253_402_300_799 && nanos < 1_000_000_000 ==> {
            &&& !text@.contains('+')
            &&& text@ == whole_second_text(seconds as int, 0)
            &&& parsed_rfc3339(text@) == Some(Moment { seconds: seconds as int, nanos: 0 })
        },
{
    chrono::DateTime::from_timestamp(seconds, nanos)
        .expect("the time is representable")
        .to_rfc3339_opts(chrono::SecondsFormat::Secs, true)
}

/// What `DateTime::to_rfc3339` renders a UTC time as.
pub uninterp spec fn full_text(seconds: int, nanos: int) -> Seq<char>;

/// `chrono::DateTime::to_rfc3339`, on the time that `DateTime::from_timestamp` makes. The
/// notation itself is left to [`full_text`].
#[verifier::external_body]
fn full_notation(seconds: i64, nanos: u32) -> (text: String)
    requires
        (Moment { seconds: seconds as int, nanos: nanos as int }).is_representable(),
    ensures
        text@ == full_text(seconds as int, nanos as int),
{
    chrono::DateTime::from_timestamp(seconds, nanos)
        .expect("the time is representable")
        .to_rfc3339()
}

/// What the `NaiveDate` of a UTC time displays as.
pub uninterp spec fn date_text(seconds: int, nanos: int) -> Seq<char>;

/// A day's notation, for the day so many days after the Unix epoch's: that of its first second.
pub open spec fn day_text(day: int) -> Seq<char> {
    date_text(day * 86_400, 0)
}

/// The `Display` of the `chrono::NaiveDate` that `DateTime::date_naive` takes from the time that
/// `DateTime::from_timestamp` makes. The notation itself is left to [`date_text`].
#[verifier::external_body]
fn date_notation(seconds: i64, nanos: u32) -> (text: String)
    requires
        (Moment { seconds: seconds as int, nanos: nanos as int }).is_representable(),
    ensures
        text@ == date_text(seconds as int, nanos as int),
{
    chrono::DateTime::from_timestamp(seconds, nanos)
        .expect("the time is representable")
        .date_naive()
        .to_string()
}

/// What `DateTime::parse_from_rfc3339` reads a text as, or `None` where it reports an error.
pub uninterp spec fn parsed_rfc3339(text: Seq<char>) -> Option<Moment>;

/// `chrono::DateTime::parse_from_rfc3339`, with the UTC seconds and nanoseconds of its result,
/// which every time that `chrono` holds has in the range it holds. What a text reads as is left
/// to [`parsed_rfc3339`].
#[verifier::external_body]
fn read_rfc3339(text: &str) -> (time: Option<(i64, u32)>)
    ensures
        match time {
            Some((seconds, nanos)) => {
                let moment = Moment { seconds: seconds as int, nanos: nanos as int };
                moment.is_representable() && parsed_rfc3339(text@) == Some(moment)
            },
            None => parsed_rfc3339(text@) is None,
        },
{
    chrono::DateTime::parse_from_rfc3339(text)
        .ok()
        .map(|time| (time.timestamp(), time.timestamp_subsec_nanos()))
}

/// What `NaiveDateTime::parse_from_str` reads a text as with the format `%Y-%m-%dT%H:%M:%S`, as a
/// time in UTC, or `None` where it reports an error.
pub uninterp spec fn parsed_without_zone(text: Seq<char>) -> Option<Moment>;

/// `chrono::NaiveDateTime::parse_from_str` with the format `%Y-%m-%dT%H:%M:%S`, with the seconds
/// and nanoseconds of its result in UTC, which every time that `chrono` holds has in the range it
/// holds. What a text reads as is left to [`parsed_without_zone`].
#[verifier::external_body]
fn read_without_zone(text: &str) -> (time: Option<(i64, u32)>)
    ensures
        match time {
            Some((seconds, nanos)) => {
                let moment = Moment { seconds: seconds as int, nanos: nanos as int };
                moment.is_representable() && parsed_without_zone(text@) == Some(moment)
            },
            None => parsed_without_zone(text@) is None,
        },
{
    chrono::NaiveDateTime::parse_from_str(text, "%Y-%m-%dT%H:%M:%S")
        .ok()
        .map(|time| (time.and_utc().timestamp(), time.and_utc().timestamp_subsec_nanos()))
}

/// The point in time so long before another, a second being a thousand million nanoseconds.
pub open spec fn moved_back(seconds: int, nanos: int, span_seconds: int, span_nanos: int) -> Moment {
    if span_nanos <= nanos {
        Moment { seconds: seconds - span_seconds, nanos: nanos - span_nanos }
    } else {
        Moment { seconds: seconds - span_seconds - 1, nanos: nanos + 1_000_000_000 - span_nanos }
    }
}

/// Whether a span of time is one that `chrono` holds: no longer than `i64::MAX` milliseconds.
pub open spec fn is_span(seconds: int, nanos: int) -> bool {
    &&& 0 <= seconds <= 9_223_372_036_854_775
    &&& 0 <= nanos < 1_000_000_000
    &&& seconds == 9_223_372_036_854_775 ==> nanos <= 807_000_000
}

/// What `DateTime::checked_sub_signed` makes of a UTC time and a `TimeDelta`, or `None` where it
/// is out of range.
pub uninterp spec fn time_before(
    seconds: int,
    nanos: int,
    span_seconds: int,
    span_nanos: int,
) -> Option<Moment>;

/// `chrono::DateTime::checked_sub_signed`, on the time that `DateTime::from_timestamp` makes and the
/// span that `TimeDelta::new` makes. What comes of a leap second is left to [`time_before`]; of an
/// ordinary second, the span is subtracted, where the result is in the range that `chrono` holds.
#[verifier::external_body]
fn subtract(seconds: i64, nanos: u32, span_seconds: i64, span_nanos: u32) -> (time: Option<
    (i64, u32),
>)
    requires
        (Moment { seconds: seconds as int, nanos: nanos as int }).is_representable(),
        is_span(span_seconds as int, span_nanos as int),
    ensures
        match time {
            Some((earlier_seconds, earlier_nanos)) => {
                let moment = Moment {
                    seconds: earlier_seconds as int,
                    nanos: earlier_nanos as int,
                };
                moment.is_representable() && time_before(
                    seconds as int,
                    nanos as int,
                    span_seconds as int,
                    span_nanos as int,
                ) == Some(moment)
            },
            None => time_before(
                seconds as int,
                nanos as int,
                span_seconds as int,
                span_nanos as int,
            ) is None,
        },
        nanos < 1_000_000_000 ==> match time {
            Some((earlier_seconds, earlier_nanos)) => (Moment {
                seconds: earlier_seconds as int,
                nanos: earlier_nanos as int,
            }) == moved_back(
                seconds as int,
                nanos as int,
                span_seconds as int,
                span_nanos as int,
            ),
            None => !moved_back(
                seconds as int,
                nanos as int,
                span_seconds as int,
                span_nanos as int,
            ).is_representable(),
        },
{
    chrono::DateTime::from_timestamp(seconds, nanos)
        .expect("the time is representable")
        .checked_sub_signed(
            chrono::TimeDelta::new(span_seconds, span_nanos).expect("the span is representable"),
        )
        .map(|time| (time.timestamp(), time.timestamp_subsec_nanos()))
}

/// The UTC point in time of an RFC 3339 text.
pub fn parse_rfc3339(text: &str) -> (timestamp: Option<Timestamp>)
    ensures
        timestamp.deep_view() == parsed_rfc3339(text@),
{
    match read_rfc3339(text) {
        Some((seconds, nanos)) => Timestamp::new(seconds, nanos),
        None => None,
    }
}

/// The point in time that a `WordPress` date denotes: one in RFC 3339 notation, or one without a
/// zone, which is then UTC.
pub open spec fn parsed_date(text: Seq<char>) -> Option<Moment> {
    match parsed_rfc3339(text) {
        Some(moment) => Some(moment),
        None => parsed_without_zone(text),
    }
}

/// The point in time that a `WordPress` date denotes: one in RFC 3339 notation, or one without a
/// zone, which is then UTC.
pub fn parse_date(text: &str) -> (timestamp: Option<Timestamp>)
    ensures
        timestamp.deep_view() == parsed_date(text@),
{
    match parse_rfc3339(text) {
        Some(timestamp) => Some(timestamp),
        None => match read_without_zone(text) {
            Some((seconds, nanos)) => Timestamp::new(seconds, nanos),
            None => None,
        },
    }
}

/// Points in time are strictly and totally ordered, by their second and then by the nanoseconds
/// past it.
pub proof fn moments_are_ordered(first: Moment, second: Moment, third: Moment)
    ensures
        !first.precedes(first),
        first.precedes(second) ==> !second.precedes(first),
        first.precedes(second) && second.precedes(third) ==> first.precedes(third),
        first != second ==> first.precedes(second) || second.precedes(first),
        0 <= first.nanos < 1_000_000_000 && 0 <= second.nanos < 1_000_000_000 ==> (first.precedes(
            second,
        ) <==> first.seconds * 1_000_000_000 + first.nanos < second.seconds * 1_000_000_000
            + second.nanos),
{
}

/// A point in time that is moved back is just so long before the other.
pub proof fn moving_back_is_undone_by_the_span(
    seconds: int,
    nanos: int,
    span_seconds: int,
    span_nanos: int,
)
    requires
        0 <= nanos < 1_000_000_000,
        0 <= span_nanos < 1_000_000_000,
    ensures
        ({
            let earlier = moved_back(seconds, nanos, span_seconds, span_nanos);
            &&& 0 <= earlier.nanos < 1_000_000_000
            &&& (earlier.seconds + span_seconds) * 1_000_000_000 + earlier.nanos + span_nanos
                == seconds * 1_000_000_000 + nanos
        }),
{
}

/// A point in time lies in its day of 86400 seconds.
pub proof fn a_moment_lies_in_its_day(moment: Moment)
    ensures
        moment.day() * 86_400 <= moment.seconds < (moment.day() + 1) * 86_400,
{
}

/// A date in RFC 3339 notation denotes what that says, and every other what it denotes in UTC.
pub proof fn dates_prefer_their_zone(text: Seq<char>)
    ensures
        parsed_rfc3339(text) is Some ==> parsed_date(text) == parsed_rfc3339(text),
        parsed_rfc3339(text) is None ==> parsed_date(text) == parsed_without_zone(text),
{
}

} // verus!
