//! Structured errors of the detector. Every error renders itself as the
//! exact text the tool has always printed; the rendering is specified
//! character by character.
//!
//! An error that wraps a lower-level cause carries that cause as an
//! already-rendered string, or `None` when no cause exists; the rendering
//! then writes the word `None`.

use vstd::prelude::*;

use crate::records::GroupV;
use crate::records::MeasurementGroup;
use crate::strutil::dec_chars;
use crate::strutil::dec_str_u64;

verus! {

/// Errors raised while locating and reading measurement files, or while
/// running the external benchmark command.
#[derive(Debug)]
pub enum IOError {
    /// A directory or file could not be read.
    ReadErr(String, Option<String>),
    /// A path does not properly name a file: it has no file-name
    /// component, or the name's stem does not decompose into a version
    /// label and a non-empty run identifier.
    MissingFilenameErr(String),
    /// A file name is not expressible as text.
    FilenameNotUnicodeErr(String),
    /// A file was located but its bytes could not be read.
    BadFileContentsErr(String, Option<String>),
    /// The external benchmark command failed to run.
    CommandErr(Option<String>),
}

/// Mathematical image of an [`IOError`].
#[verifier::ext_equal]
pub ghost enum IOErrorV {
    ReadErr(Seq<char>, Option<Seq<char>>),
    MissingFilenameErr(Seq<char>),
    FilenameNotUnicodeErr(Seq<char>),
    BadFileContentsErr(Seq<char>, Option<Seq<char>>),
    CommandErr(Option<Seq<char>>),
}

impl DeepView for IOError {
    type V = IOErrorV;

    open spec fn deep_view(&self) -> IOErrorV {
        match self {
            IOError::ReadErr(p, c) => IOErrorV::ReadErr(p@, c.deep_view()),
            IOError::MissingFilenameErr(p) => IOErrorV::MissingFilenameErr(p@),
            IOError::FilenameNotUnicodeErr(p) => IOErrorV::FilenameNotUnicodeErr(p@),
            IOError::BadFileContentsErr(p, c) => IOErrorV::BadFileContentsErr(p@, c.deep_view()),
            IOError::CommandErr(c) => IOErrorV::CommandErr(c.deep_view()),
        }
    }
}

/// The rendering of an optional cause: the cause itself, or `None`.
pub open spec fn cause_chars(c: Option<Seq<char>>) -> Seq<char> {
    match c {
        Option::None => "None"@,
        Option::Some(s) => s,
    }
}

/// The exact message text of an [`IOError`].
pub open spec fn io_error_chars(e: IOErrorV) -> Seq<char> {
    match e {
        IOErrorV::ReadErr(p, c) => "ReadErr: The file cannot be read.\nFilepath: "@ + p
            + "\nOriginating Exception: "@ + cause_chars(c),
        IOErrorV::MissingFilenameErr(p) =>
            "MissingFilenameErr: The path provided does not specify a file.\nFilepath: "@ + p,
        IOErrorV::FilenameNotUnicodeErr(p) =>
            "FilenameNotUnicodeErr: The filename is not expressible in unicode. Consider renaming the file.\nFilepath: "@
            + p,
        IOErrorV::BadFileContentsErr(p, c) =>
            "BadFileContentsErr: Check that the file exists and is readable.\nFilepath: "@ + p
            + "\nOriginating Exception: "@ + cause_chars(c),
        IOErrorV::CommandErr(c) => "CommandErr: System command failed to run.\nOriginating Exception: "@
            + cause_chars(c),
    }
}

fn append_cause(s: &mut String, c: &Option<String>)
    ensures
        final(s)@ == old(s)@ + cause_chars(c.deep_view()),
{
    match c {
        Option::None => s.append("None"),
        Option::Some(text) => s.append(text.as_str()),
    }
}

impl IOError {
    /// The message text of this error.
    pub fn message(&self) -> (r: String)
        ensures
            r@ == io_error_chars(self.deep_view()),
    {
        match self {
            IOError::ReadErr(p, c) => {
                let mut s = String::from_str("ReadErr: The file cannot be read.\nFilepath: ");
                s.append(p.as_str());
                s.append("\nOriginating Exception: ");
                append_cause(&mut s, c);
                s
            },
            IOError::MissingFilenameErr(p) => {
                let mut s = String::from_str(
                    "MissingFilenameErr: The path provided does not specify a file.\nFilepath: ",
                );
                s.append(p.as_str());
                s
            },
            IOError::FilenameNotUnicodeErr(p) => {
                let mut s = String::from_str(
                    "FilenameNotUnicodeErr: The filename is not expressible in unicode. Consider renaming the file.\nFilepath: ",
                );
                s.append(p.as_str());
                s
            },
            IOError::BadFileContentsErr(p, c) => {
                let mut s = String::from_str(
                    "BadFileContentsErr: Check that the file exists and is readable.\nFilepath: ",
                );
                s.append(p.as_str());
                s.append("\nOriginating Exception: ");
                append_cause(&mut s, c);
                s
            },
            IOError::CommandErr(c) => {
                let mut s = String::from_str(
                    "CommandErr: System command failed to run.\nOriginating Exception: ",
                );
                append_cause(&mut s, c);
                s
            },
        }
    }
}

/// Errors raised while grouping measurements and calculating regressions.
#[derive(Debug)]
pub enum CalculateError {
    /// A file's content fails the schema-shaped parse (including a
    /// measurement set with no measurements in it).
    BadJSONErr(String, Option<String>),
    /// A lower-level I/O error.
    CalculateIOError(IOError),
    /// The results directory has no measurement files.
    NoResultsErr(String),
    /// The results directory holds an odd number of measurement files.
    OddResultsCountErr(usize, String),
    /// A run-partition does not have exactly two members.
    BadGroupSizeErr(usize, Vec<MeasurementGroup>),
    /// A pair's version labels are not exactly `baseline` and `dev`.
    BadBranchNameErr(String, String),
}

/// Mathematical image of a [`CalculateError`].
#[verifier::ext_equal]
pub ghost enum CalculateErrorV {
    BadJSONErr(Seq<char>, Option<Seq<char>>),
    CalculateIOError(IOErrorV),
    NoResultsErr(Seq<char>),
    OddResultsCountErr(usize, Seq<char>),
    BadGroupSizeErr(usize, Seq<GroupV>),
    BadBranchNameErr(Seq<char>, Seq<char>),
}

impl DeepView for CalculateError {
    type V = CalculateErrorV;

    open spec fn deep_view(&self) -> CalculateErrorV {
        match self {
            CalculateError::BadJSONErr(p, c) => CalculateErrorV::BadJSONErr(p@, c.deep_view()),
            CalculateError::CalculateIOError(e) => CalculateErrorV::CalculateIOError(e.deep_view()),
            CalculateError::NoResultsErr(p) => CalculateErrorV::NoResultsErr(p@),
            CalculateError::OddResultsCountErr(n, p) => CalculateErrorV::OddResultsCountErr(*n, p@),
            CalculateError::BadGroupSizeErr(n, gs) => CalculateErrorV::BadGroupSizeErr(
                *n,
                gs.deep_view(),
            ),
            CalculateError::BadBranchNameErr(a, b) => CalculateErrorV::BadBranchNameErr(a@, b@),
        }
    }
}

/// The rendering of one group as a `(version, run)` pair of quoted
/// strings, as it appears in the bad-group-size message.
pub open spec fn group_entry_chars(g: GroupV) -> Seq<char> {
    "(\""@ + g.version + "\", \""@ + g.run + "\")"@
}

/// The comma-separated renderings of a sequence of groups.
pub open spec fn group_entries_chars(gs: Seq<GroupV>) -> Seq<char>
    decreases gs.len(),
{
    if gs.len() == 0 {
        Seq::empty()
    } else if gs.len() == 1 {
        group_entry_chars(gs[0])
    } else {
        group_entry_chars(gs[0]) + ", "@ + group_entries_chars(gs.drop_first())
    }
}

/// The rendering of a group list, bracketed like a debug-printed list of
/// string pairs.
pub open spec fn group_list_chars(gs: Seq<GroupV>) -> Seq<char> {
    "["@ + group_entries_chars(gs) + "]"@
}

/// The exact message text of a [`CalculateError`].
pub open spec fn calculate_error_chars(e: CalculateErrorV) -> Seq<char> {
    match e {
        CalculateErrorV::BadJSONErr(p, c) =>
            "BadJSONErr: JSON in file cannot be deserialized as expected.\nFilepath: "@ + p
            + "\nOriginating Exception: "@ + cause_chars(c),
        CalculateErrorV::CalculateIOError(ioe) => io_error_chars(ioe),
        CalculateErrorV::NoResultsErr(p) =>
            "NoResultsErr: The results directory has no json files in it.\nFilepath: "@ + p,
        CalculateErrorV::OddResultsCountErr(n, p) =>
            "OddResultsCountErr: The results directory has an odd number of results in it. Expected an even number.\nFile Count: "@
            + dec_chars(n as nat) + "\nFilepath: "@ + p,
        CalculateErrorV::BadGroupSizeErr(n, gs) =>
            "BadGroupSizeErr: Expected two results per group, one for each branch-project pair.\nCount: "@
            + dec_chars(n as nat) + "\nGroup: "@ + group_list_chars(gs),
        CalculateErrorV::BadBranchNameErr(a, b) =>
            "BadBranchNameErr: Branch names must be 'baseline' and 'dev'.\nFound: "@ + a + ", "@
            + b,
    }
}

fn append_group_entries(s: &mut String, gs: &Vec<MeasurementGroup>, from: usize)
    requires
        from <= gs.len(),
    ensures
        final(s)@ == old(s)@ + group_entries_chars(gs.deep_view().skip(from as int)),
    decreases gs.len() - from,
{
    if from < gs.len() {
        s.append("(\"");
        s.append(gs[from].version.as_str());
        s.append("\", \"");
        s.append(gs[from].run.as_str());
        s.append("\")");
        if from + 1 < gs.len() {
            s.append(", ");
            append_group_entries(s, gs, from + 1);
            proof {
                let tail = gs.deep_view().skip(from as int);
                assert(tail.drop_first() =~= gs.deep_view().skip(from + 1));
                assert(tail[0] == gs.deep_view()[from as int]);
            }
        } else {
            proof {
                let tail = gs.deep_view().skip(from as int);
                assert(tail.len() == 1);
                assert(tail[0] == gs.deep_view()[from as int]);
            }
        }
    } else {
        proof {
            assert(gs.deep_view().skip(from as int) =~= Seq::<GroupV>::empty());
            assert(s@ =~= old(s)@ + Seq::<char>::empty());
        }
    }
}

impl CalculateError {
    /// The message text of this error.
    pub fn message(&self) -> (r: String)
        ensures
            r@ == calculate_error_chars(self.deep_view()),
    {
        match self {
            CalculateError::BadJSONErr(p, c) => {
                let mut s = String::from_str(
                    "BadJSONErr: JSON in file cannot be deserialized as expected.\nFilepath: ",
                );
                s.append(p.as_str());
                s.append("\nOriginating Exception: ");
                append_cause(&mut s, c);
                s
            },
            CalculateError::CalculateIOError(e) => e.message(),
            CalculateError::NoResultsErr(p) => {
                let mut s = String::from_str(
                    "NoResultsErr: The results directory has no json files in it.\nFilepath: ",
                );
                s.append(p.as_str());
                s
            },
            CalculateError::OddResultsCountErr(n, p) => {
                let mut s = String::from_str(
                    "OddResultsCountErr: The results directory has an odd number of results in it. Expected an even number.\nFile Count: ",
                );
                let count = dec_str_u64(*n as u64);
                s.append(count.as_str());
                s.append("\nFilepath: ");
                s.append(p.as_str());
                s
            },
            CalculateError::BadGroupSizeErr(n, gs) => {
                let mut s = String::from_str(
                    "BadGroupSizeErr: Expected two results per group, one for each branch-project pair.\nCount: ",
                );
                let count = dec_str_u64(*n as u64);
                s.append(count.as_str());
                s.append("\nGroup: ");
                s.append("[");
                append_group_entries(&mut s, gs, 0);
                s.append("]");
                proof {
                    assert(gs.deep_view().skip(0) =~= gs.deep_view());
                }
                s
            },
            CalculateError::BadBranchNameErr(a, b) => {
                let mut s = String::from_str(
                    "BadBranchNameErr: Branch names must be 'baseline' and 'dev'.\nFound: ",
                );
                s.append(a.as_str());
                s.append(", ");
                s.append(b.as_str());
                s
            },
        }
    }
}

} // verus!
