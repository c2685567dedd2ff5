//! A single piece falling straight down a fixed grid: the text of a grid is
//! read into a field, the piece is dropped until terrain or the floor stops
//! it, and the field is written back as text.

use crate::file_system::FileSystemOperations;
use crate::format::{parse, parse_bytes, ParseError};
use crate::output::Output;
use vstd::prelude::*;
use vstd::string::StringSliceAdditionalSpecFns;
use vstd::utf8::encode_utf8;

pub mod field;
pub mod file_system;
pub mod format;
pub mod landscape;
pub mod model;
pub mod output;
pub mod text;

verus! {

/// The path under which the text of the field at rest is kept.
pub const OUT_PATH: &'static str = "out.txt";

/// What a run reports to the user.
#[derive(Clone, Copy, Debug, PartialEq, Eq, Structural)]
pub enum Report {
    /// No path was given.
    Usage,
    /// Nothing is kept under the path.
    FileNotFound,
    /// The text could not be read.
    ReadFailure,
    /// The text describes no field.
    Rejected(ParseError),
    /// The text of the field at rest could not be kept.
    WriteFailure,
    /// The text of the field at rest is kept.
    Created,
}

impl Report {
    /// The words of the report.
    pub open spec fn spec_message(self) -> Seq<char> {
        match self {
            Report::Usage => "Usage: ./main <filename>"@,
            Report::FileNotFound => "File not exists"@,
            Report::ReadFailure => "Couldn't read file"@,
            Report::Rejected(e) => e.spec_message(),
            Report::WriteFailure => "Couldn't save file"@,
            Report::Created => "File created"@,
        }
    }

    /// The words of the report.
    pub fn message(self) -> (words: &'static str)
        ensures
            words@ == self.spec_message(),
    {
        match self {
            Report::Usage => "Usage: ./main <filename>",
            Report::FileNotFound => "File not exists",
            Report::ReadFailure => "Couldn't read file",
            Report::Rejected(e) => e.message(),
            Report::WriteFailure => "Couldn't save file",
            Report::Created => "File created",
        }
    }
}

/// The text of the field that `input` describes, with its piece at rest.
pub fn settle_text(input: &str) -> (settled: Result<String, ParseError>)
    ensures
        match settled {
            Ok(text) => parse(input.spec_bytes()) is Ok && text@ == parse(
                input.spec_bytes(),
            )->Ok_0.settle().render(),
            Err(e) => parse(input.spec_bytes()) == Err::<crate::model::FieldView, ParseError>(e),
        },
{
    match parse_bytes(input.as_bytes()) {
        Ok(field) => {
            let mut field = field;
            field.play();
            Ok(field.to_string())
        },
        Err(e) => Err(e),
    }
}

/// What a run makes of the answer of the store that was asked for the
/// text: the text to keep, that of the field at rest, or what to report.
pub fn respond(read: Result<String, std::io::Error>) -> (next: Result<String, Report>)
    ensures
        match read {
            Err(_) => next == Err::<String, Report>(Report::ReadFailure),
            Ok(input) => match parse(encode_utf8(input@)) {
                Ok(field) => next matches Ok(text) && text@ == field.settle().render(),
                Err(e) => next == Err::<String, Report>(Report::Rejected(e)),
            },
        },
{
    match read {
        Err(_) => Err(Report::ReadFailure),
        Ok(input) => match settle_text(input.as_str()) {
            Ok(text) => Ok(text),
            Err(e) => Err(Report::Rejected(e)),
        },
    }
}

/// What a run reports once the store has answered whether it keeps the text.
pub fn conclude(written: Result<(), std::io::Error>) -> (report: Report)
    ensures
        report == if written is Ok {
            Report::Created
        } else {
            Report::WriteFailure
        },
{
    match written {
        Ok(_) => Report::Created,
        Err(_) => Report::WriteFailure,
    }
}

/// What a run on the text under `path` may report at a store that keeps
/// `texts`, and what the store keeps afterwards. A text that is not there
/// is reported as such. One that is there may fail to be read; else it is
/// refused for the reason for which it describes no field, or the text of
/// the field at rest is kept under `OUT_PATH`, unless the store fails to
/// keep it.
pub open spec fn settles(
    texts: Map<Seq<char>, Seq<char>>,
    path: Seq<char>,
    report: Report,
    after: Option<Map<Seq<char>, Seq<char>>>,
) -> bool {
    if !texts.contains_key(path) {
        report == Report::FileNotFound
    } else if report == Report::ReadFailure {
        true
    } else {
        match parse(encode_utf8(texts[path])) {
            Err(e) => report == Report::Rejected(e),
            Ok(field) => report == Report::WriteFailure || (report == Report::Created && after
                == Some(texts.insert(OUT_PATH@, field.settle().render()))),
        }
    }
}

/// What a run on `args` does to a store and reports. Without a path it
/// reports the usage, and only then. Unless it reports that the text was
/// kept or could not be kept, it leaves the store as it was. Of a store that
/// tells what it keeps, `settles` holds with the first of `args` as the path.
pub open spec fn ran<F: FileSystemOperations>(
    args: Seq<String>,
    before: F,
    after: F,
    report: Report,
) -> bool {
    &&& args.len() == 0 <==> report == Report::Usage
    &&& report != Report::Created && report != Report::WriteFailure ==> after == before
    &&& args.len() > 0 ==> (before.kept() matches Some(texts) ==> settles(
        texts,
        args[0]@,
        report,
        after.kept(),
    ))
}

/// What a run does before it reports. Without a path in `args` it does
/// nothing. Else it asks the store whether a text is kept under the first
/// of `args`, reads it, and keeps under `OUT_PATH` what `respond` makes of
/// it; the store decides how far the run gets.
pub fn run<F: FileSystemOperations>(args: &Vec<String>, file_system: &mut F) -> (report: Report)
    ensures
        ran(args@, *old(file_system), *final(file_system), report),
{
    if args.len() < 1 {
        return Report::Usage;
    }
    let file_path = &args[0];
    if !file_system.file_exists(file_path.as_str()) {
        return Report::FileNotFound;
    }
    match respond(file_system.read_file(file_path.as_str())) {
        Ok(final_state) => conclude(file_system.write_file(OUT_PATH, final_state.as_str())),
        Err(report) => report,
    }
}

/// One run, and one message to `output` that reports how it went: the run
/// is as `ran` says, and an output that keeps its messages has the words
/// of the report as its newest.
pub fn main_impl<F: FileSystemOperations, O: Output>(
    args: Vec<String>,
    file_system: &mut F,
    output: &mut O,
)
    ensures
        exists|report: Report|
            {
                &&& #[trigger] ran(args@, *old(file_system), *final(file_system), report)
                &&& old(output).taken() matches Some(log) ==> final(output).taken() == Some(
                    log.push(report.spec_message()),
                )
            },
{
    let report = run(&args, file_system);
    output.write(report.message());
}

} // verus!
