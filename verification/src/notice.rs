//! What a command tells its user.

use crate::text;
use vstd::prelude::*;

verus! {

/// Where a message goes.
#[derive(Clone, Copy, Debug, Eq, PartialEq, Structural)]
pub enum Level {
    /// Printed on the standard output.
    Printed,
    /// Logged for information.
    Info,
    /// Logged as a warning.
    Warning,
    /// Logged as an error.
    Error,
}

/// A message to the user.
#[derive(Debug, Eq, PartialEq)]
pub struct Notice {
    /// Where the message goes.
    pub level: Level,
    /// The message itself.
    pub message: String,
}

/// The parts of a [`Notice`].
#[verifier::ext_equal]
pub struct NoticeView {
    pub level: Level,
    pub message: Seq<char>,
}

impl DeepView for Notice {
    type V = NoticeView;

    open spec fn deep_view(&self) -> NoticeView {
        NoticeView { level: self.level, message: self.message@ }
    }
}

/// One message that goes to the standard output.
pub open spec fn printed(message: Seq<char>) -> NoticeView {
    NoticeView { level: Level::Printed, message }
}

/// One message that is logged as a warning.
pub open spec fn warned(message: Seq<char>) -> NoticeView {
    NoticeView { level: Level::Warning, message }
}

/// Whether a command succeeded, or reported problems of what it worked on.
#[derive(Clone, Copy, Debug, Eq, PartialEq, Structural)]
pub enum Outcome {
    /// There is nothing to report.
    Success,
    /// Problems were reported.
    ReportedProblems,
}

impl Outcome {
    /// The outcome of a command that reported problems, or did not.
    pub open spec fn of(problems: bool) -> Self {
        if problems {
            Outcome::ReportedProblems
        } else {
            Outcome::Success
        }
    }

    /// The outcome of a command that reported problems, or did not.
    #[must_use]
    pub fn from_reported_problems(problems: bool) -> (outcome: Self)
        ensures
            outcome == Outcome::of(problems),
    {
        if problems {
            Outcome::ReportedProblems
        } else {
            Outcome::Success
        }
    }
}

/// Adds a message.
pub fn notify(notices: &mut Vec<Notice>, level: Level, message: String)
    ensures
        final(notices).deep_view() == old(notices).deep_view().push(
            NoticeView { level, message: message@ },
        ),
{
    let ghost before = notices.deep_view();
    let ghost added = NoticeView { level, message: message@ };
    notices.push(Notice { level, message });
    assert(notices.deep_view() =~= before.push(added));
}

/// Numbers in decimal notation with `separator` between them.
pub open spec fn listed(numbers: Seq<usize>, separator: Seq<char>) -> Seq<char> {
    text::join(numbers.map_values(|number: usize| text::decimal(number as nat)), separator)
}

/// Numbers in decimal notation with `separator` between them.
pub fn list_numbers(numbers: &Vec<usize>, separator: &str) -> (list: String)
    ensures
        list@ == listed(numbers@, separator@),
{
    let ghost all = numbers@.map_values(|number: usize| text::decimal(number as nat));
    let mut texts: Vec<String> = Vec::new();
    let mut index: usize = 0;
    assert(texts.deep_view() =~= all.take(0));
    while index < numbers.len()
        invariant
            index <= numbers@.len(),
            all == numbers@.map_values(|number: usize| text::decimal(number as nat)),
            texts.deep_view() == all.take(index as int),
        decreases numbers@.len() - index,
    {
        let ghost known = texts.deep_view();
        let number = text::count_text(numbers[index]);
        texts.push(number);
        assert(texts.deep_view() =~= known.push(number@));
        index += 1;
        assert(all.take(index as int) =~= known.push(all[index - 1]));
    }
    assert(all.take(index as int) =~= all);
    text::join_with(&texts, separator)
}

} // verus!
