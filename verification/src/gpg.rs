//! What a run of the key-management tool means: whether the tool is there,
//! its version line, and the fingerprints of the secret keys it lists.
//!
//! The caller runs the tool, with the program and arguments that
//! [`version_query`] or [`listing_query`] name, and hands the outcome to
//! [`available`], [`version_line`] or [`list_secret_fingerprints`].

use crate::listing::{
    cuts, fingerprint_spans, fingerprints, law_fingerprints_are_listed_one_way,
    lists_fingerprints_of, spans_within,
};
use crate::model::views;
use crate::text::{chars_of, find_char, first_index};
use vstd::prelude::*;
use vstd::string::{StrSliceExecFns, StringExecFns};
use vstd::utf8::{decode_utf8, valid_utf8};

verus! {

/// A program to run and the arguments to run it with.
pub struct Invocation {
    pub program: &'static str,
    pub args: Vec<&'static str>,
}

/// What a finished run of the tool left behind.
pub struct ToolOutput {
    /// Whether the tool reported success when it exited.
    pub success: bool,
    /// What it wrote to its standard output.
    pub stdout: Vec<u8>,
    /// What it wrote to its standard error.
    pub stderr: Vec<u8>,
}

/// Why the tool could not be run at all.
pub struct LaunchFailure {
    /// Whether the failure is that no such program was found.
    pub not_found: bool,
    /// The system's description of the failure.
    pub reason: String,
}

/// What can go wrong when the tool is asked something.
#[derive(Debug)]
pub enum GpgError {
    /// The tool could not be run; the system's description of the failure.
    Launch(String),
    /// The tool ran and reported failure when asked for its version.
    VersionQuery,
    /// The tool ran and reported failure when asked for the listing; what it
    /// wrote to its standard error.
    Listing(String),
}

impl GpgError {
    /// The error in words.
    pub open spec fn text(self) -> Seq<char> {
        match self {
            GpgError::Launch(reason) => "Failed to run gpg: "@ + reason@,
            GpgError::VersionQuery => "gpg --version failed"@,
            GpgError::Listing(diagnostics) => "gpg list-secret-keys failed: "@ + diagnostics@,
        }
    }

    /// Renders the error in words.
    pub fn message(&self) -> (m: String)
        ensures
            m@ == self.text(),
    {
        match self {
            GpgError::Launch(reason) => "Failed to run gpg: ".to_owned().concat(reason.as_str()),
            GpgError::VersionQuery => "gpg --version failed".to_owned(),
            GpgError::Listing(diagnostics) => "gpg list-secret-keys failed: ".to_owned().concat(
                diagnostics.as_str(),
            ),
        }
    }
}

/// What `String::from_utf8_lossy` makes of `bytes`: the text that they encode
/// in UTF-8, with the replacement character U+FFFD in place of every stretch
/// that is no valid encoding.
pub uninterp spec fn lossy_utf8(bytes: Seq<u8>) -> Seq<char>;

/// Decodes bytes as text with `String::from_utf8_lossy` of the standard
/// library. The contract is taken on trust: the result is a function of the
/// bytes alone, and bytes that are valid UTF-8 decode to the text they encode.
#[verifier::external_body]
fn decode_lossy(bytes: &[u8]) -> (text: String)
    ensures
        text@ == lossy_utf8(bytes@),
        valid_utf8(bytes@) ==> text@ == decode_utf8(bytes@),
{
    String::from_utf8_lossy(bytes).into_owned()
}

/// The first line of `text`: what stands before the first newline, without
/// the carriage return that may precede that newline. A text without a
/// newline is its own first line.
pub open spec fn first_line_of(text: Seq<char>) -> Seq<char> {
    let end = first_index(text, '\n');
    let line = text.take(end);
    if end < text.len() && line.len() > 0 && line.last() == '\r' {
        line.drop_last()
    } else {
        line
    }
}

/// The query for the tool's version.
pub fn version_query() -> (query: Invocation)
    ensures
        query.program@ == "gpg"@,
        query.args@.len() == 1,
        query.args@[0]@ == "--version"@,
{
    let mut args: Vec<&'static str> = Vec::new();
    args.push("--version");
    Invocation { program: "gpg", args }
}

/// The query for the listing of secret keys: without prompts, in the
/// colon-delimited form.
pub fn listing_query() -> (query: Invocation)
    ensures
        query.program@ == "gpg"@,
        query.args@.len() == 3,
        query.args@[0]@ == "--batch"@,
        query.args@[1]@ == "--with-colons"@,
        query.args@[2]@ == "--list-secret-keys"@,
{
    let mut args: Vec<&'static str> = Vec::new();
    args.push("--batch");
    args.push("--with-colons");
    args.push("--list-secret-keys");
    Invocation { program: "gpg", args }
}

/// Cuts the first line out of `text`.
pub fn first_line(text: &str) -> (line: String)
    ensures
        line@ == first_line_of(text@),
{
    let chars = chars_of(text);
    let end = find_char(chars.as_slice(), 0, '\n');
    proof {
        assert(chars@.skip(0) == chars@);
    }
    let stop = if end < chars.len() && end > 0 && chars[end - 1] == '\r' {
        end - 1
    } else {
        end
    };
    proof {
        if end > 0 {
            assert(text@.take(end as int).drop_last() == text@.subrange(0, end - 1));
        }
        assert(text@.take(end as int) == text@.subrange(0, end as int));
    }
    text.substring_char(0, stop).to_owned()
}

/// Tells from a run of the version query whether the tool is available: it
/// is if it ran and reported success. A tool that was not found is not
/// available, which is no error; any other failure to run it is one.
pub fn available(run: Result<ToolOutput, LaunchFailure>) -> (found: Result<bool, GpgError>)
    ensures
        match run {
            Ok(output) => found == Ok::<bool, GpgError>(output.success),
            Err(failure) => if failure.not_found {
                found == Ok::<bool, GpgError>(false)
            } else {
                found matches Err(GpgError::Launch(reason)) && reason@ == failure.reason@
            },
        },
{
    match run {
        Ok(output) => Ok(output.success),
        Err(failure) => if failure.not_found {
            Ok(false)
        } else {
            Err(GpgError::Launch(failure.reason))
        },
    }
}

/// Reads the tool's version line from a run of the version query: the first
/// line of its standard output. A tool that could not be run, or that
/// reported failure, gives an error.
pub fn version_line(run: Result<ToolOutput, LaunchFailure>) -> (line: Result<String, GpgError>)
    ensures
        match run {
            Ok(output) => if output.success {
                line matches Ok(l) && l@ == first_line_of(lossy_utf8(output.stdout@)) && (
                valid_utf8(output.stdout@) ==> l@ == first_line_of(decode_utf8(output.stdout@)))
            } else {
                line matches Err(GpgError::VersionQuery)
            },
            Err(failure) => line matches Err(GpgError::Launch(reason)) && reason@
                == failure.reason@,
        },
{
    match run {
        Ok(output) => if output.success {
            let text = decode_lossy(output.stdout.as_slice());
            Ok(first_line(text.as_str()))
        } else {
            Err(GpgError::VersionQuery)
        },
        Err(failure) => Err(GpgError::Launch(failure.reason)),
    }
}

/// Reads the fingerprints of the secret keys from a run of the listing
/// query: those in its standard output, ascending, each once. A tool that
/// could not be run gives an error, and so does one that reported failure,
/// with what it wrote to its standard error.
pub fn list_secret_fingerprints(run: Result<ToolOutput, LaunchFailure>) -> (fprs: Result<
    Vec<String>,
    GpgError,
>)
    ensures
        match run {
            Ok(output) => if output.success {
                fprs matches Ok(v) && lists_fingerprints_of(
                    views(v@),
                    lossy_utf8(output.stdout@),
                ) && (valid_utf8(output.stdout@) ==> lists_fingerprints_of(
                    views(v@),
                    decode_utf8(output.stdout@),
                ))
            } else {
                fprs matches Err(GpgError::Listing(diagnostics)) && diagnostics@ == lossy_utf8(
                    output.stderr@,
                )
            },
            Err(failure) => fprs matches Err(GpgError::Launch(reason)) && reason@
                == failure.reason@,
        },
{
    match run {
        Ok(output) => if output.success {
            let text = decode_lossy(output.stdout.as_slice());
            Ok(parse_colons_fprs(text.as_str()))
        } else {
            Err(GpgError::Listing(decode_lossy(output.stderr.as_slice())))
        },
        Err(failure) => Err(GpgError::Launch(failure.reason)),
    }
}

/// Reads the fingerprints of the secret keys out of a colon-delimited
/// listing: those that its fingerprint records carry, in ascending
/// lexicographic order, each once however often the listing repeats it.
pub fn parse_colons_fprs(colons: &str) -> (fprs: Vec<String>)
    ensures
        lists_fingerprints_of(views(fprs@), colons@),
        views(fprs@).no_duplicates(),
        fprs@.len() == fingerprints(colons@).len(),
{
    let text = chars_of(colons);
    let spans = fingerprint_spans(text.as_slice());
    let mut fprs: Vec<String> = Vec::new();
    let mut i: usize = 0;
    while i < spans.len()
        invariant
            i <= spans@.len(),
            text@ == colons@,
            spans_within(text@, spans@),
            fprs@.len() == i,
            forall|k: int| 0 <= k < i ==> (#[trigger] fprs@[k])@ == cuts(text@, spans@)[k],
        decreases spans@.len() - i,
    {
        let (a, b) = spans[i];
        let piece = colons.substring_char(a, b);
        fprs.push(piece.to_owned());
        i += 1;
    }
    proof {
        assert(views(fprs@) =~= cuts(text@, spans@));
        law_fingerprints_are_listed_one_way(views(fprs@), views(fprs@), colons@);
    }
    fprs
}

} // verus!
