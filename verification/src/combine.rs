//! Combining the continuation segments of one site's collection archive.

use crate::segment;
use crate::text;
use vstd::prelude::*;

verus! {

/// The ways archive segments fail to be combined.
#[derive(Debug, Eq, PartialEq)]
pub enum Error {
    /// The directory holds no archive of the domain.
    NoInputs {
        /// The directory.
        input: String,
        /// The domain.
        domain: String,
    },
    /// The output is not named as a compressed archive.
    OutputExtension(String),
}

/// The parts of an [`Error`].
#[verifier::ext_equal]
pub enum ErrorView {
    NoInputs { input: Seq<char>, domain: Seq<char> },
    OutputExtension(Seq<char>),
}

impl DeepView for Error {
    type V = ErrorView;

    open spec fn deep_view(&self) -> ErrorView {
        match self {
            Error::NoInputs { input, domain } => ErrorView::NoInputs {
                input: input@,
                domain: domain@,
            },
            Error::OutputExtension(output) => ErrorView::OutputExtension(output@),
        }
    }
}

impl ErrorView {
    /// The error in words.
    pub open spec fn message(self) -> Seq<char> {
        match self {
            ErrorView::NoInputs { input, domain } => "combine input directory "@ + input
                + " contains no direct WARC files for domain "@ + text::quoted(domain),
            ErrorView::OutputExtension(output) => "combined output "@ + output
                + " must end in .warc.gz"@,
        }
    }
}

impl Error {
    /// The error in words.
    pub fn to_string(&self) -> (message: String)
        ensures
            message@ == self.deep_view().message(),
    {
        match self {
            Error::NoInputs { input, domain } => {
                let mut message = text::joined("combine input directory ", input.as_str());
                message.append(" contains no direct WARC files for domain ");
                message.append(text::quote(domain.as_str()).as_str());
                message
            },
            Error::OutputExtension(output) => text::joined(
                text::joined("combined output ", output.as_str()).as_str(),
                " must end in .warc.gz",
            ),
        }
    }
}

/// Check that segments can be combined into a file at a path.
///
/// # Errors
///
/// Returns [`Error::OutputExtension`] unless the path names a file that ends in `.warc.gz`.
pub fn check_output(output: &str) -> (checked: Result<(), Error>)
    ensures
        match checked {
            Ok(_) => segment::file_name_of(output@) matches Some(name)
                && segment::names_compressed_archive(name),
            Err(error) => !(segment::file_name_of(output@) matches Some(name)
                && segment::names_compressed_archive(name)) && error.deep_view()
                == ErrorView::OutputExtension(output@),
        },
{
    if let Some(name) = segment::file_name(output) {
        if segment::has_warc_gzip_extension(name.as_str()) {
            return Ok(());
        }
    }
    Err(Error::OutputExtension(output.to_owned()))
}

/// The archives of a domain in the order in which they are combined, where `names` are the files
/// in the directory `input`.
///
/// # Errors
///
/// Returns [`Error::NoInputs`] where there are none.
pub fn combined_inputs(names: &Vec<String>, input: &str, domain: &str) -> (archives: Result<
    Vec<String>,
    Error,
>)
    ensures
        match archives {
            Ok(archives) => archives@.len() > 0 && segment::are_sorted(archives.deep_view())
                && archives.deep_view().to_multiset() == segment::selected(
                names.deep_view(),
                domain@ + "-"@,
            ).to_multiset(),
            Err(error) => segment::selected(names.deep_view(), domain@ + "-"@).len() == 0
                && error.deep_view() == (ErrorView::NoInputs { input: input@, domain: domain@ }),
        },
{
    let archives = segment::domain_inputs(names, domain);
    proof {
        archives.deep_view().to_multiset_ensures();
        segment::selected(names.deep_view(), domain@ + "-"@).to_multiset_ensures();
    }
    if archives.len() == 0 {
        return Err(Error::NoInputs { input: input.to_owned(), domain: domain.to_owned() });
    }
    Ok(archives)
}

/// What a successful combination wrote.
#[derive(Clone, Copy, Debug, Eq, PartialEq, Structural)]
pub struct CombineSummary {
    /// The number of files that were combined.
    pub files: usize,
    /// The number of records that were written.
    pub records: usize,
}

/// What is reported of archives that were combined.
pub fn describe_combination(summary: &CombineSummary, domain: &str, output: &str) -> (message:
    String)
    ensures
        message@ == "Combined "@ + text::decimal(summary.records as nat) + " records from "@
            + text::decimal(summary.files as nat) + " files for "@ + domain@ + " into "@ + output@,
{
    let mut message = text::joined("Combined ", text::count_text(summary.records).as_str());
    message.append(" records from ");
    message.append(text::count_text(summary.files).as_str());
    message.append(" files for ");
    message.append(domain);
    message.append(" into ");
    message.append(output);
    message
}

} // verus!
