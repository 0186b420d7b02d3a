//! What can go wrong, by kind.

use vstd::prelude::*;
use vstd::string::StringExecFns;

verus! {

/// The kinds of failure. Each is fatal to the operation that meets it.
#[derive(Clone, Copy, Debug, PartialEq, Eq, Structural)]
pub enum FailureKind {
    /// Options that do not go together.
    Config,
    /// A requested path that is not where it should be.
    Path,
    /// Input that is not in the form it should have.
    Parse,
    /// Stored data that contradicts itself.
    Integrity,
    /// A command that could not be run or that failed.
    Process,
    /// An interrupt was seen.
    Cancellation,
    /// A warning, where warnings are denied.
    DeniedWarning,
}

/// A failure of an operation of the library.
#[derive(Debug)]
pub enum Failure {
    /// Only the missing coverage was asked for, and there is no store.
    StoreMissing,
    /// A diff and line specifications from standard input were both asked for.
    DiffWithStdin,
    /// Options that do not go together, or of which one needs another that is
    /// not there. The text names the options.
    Options(String),
    /// Requested paths that do not exist.
    NonexistentPaths(Vec<String>),
    /// A covered file of which no current digest is known.
    DigestUnknown(String),
    /// A source file that does not lie under the working directory.
    OutsideWorkingDirectory(String),
    /// A line specification without `:`, or with a line number that is none.
    LineSpecification(String),
    /// A diff that cannot be read, or a source file in it that does not begin
    /// with `a/`, or a line number in it that does not fit.
    Diff,
    /// A coverage artifact that cannot be read.
    Coverage,
    /// A digest file that is no JSON object of strings.
    DigestFile,
    /// A digest that is not written in hexadecimal.
    DigestHex(String),
    /// A digest that has not 32 bytes.
    DigestLength(String),
    /// A source file named while another was still open.
    SourceFileRepeated(String),
    /// The end of a section that no source file opened.
    SourceFileMissing,
    /// A store entry whose name has not the extension it should have, or
    /// nothing before it.
    FileName(String),
    /// A command that failed.
    CommandFailed(String),
    /// An interrupt was seen.
    Cancelled,
    /// A warning, where warnings are denied.
    Warning(String),
}

impl Failure {
    /// The kind of this failure.
    pub open spec fn kind_of(self) -> FailureKind {
        match self {
            Failure::StoreMissing => FailureKind::Config,
            Failure::DiffWithStdin => FailureKind::Config,
            Failure::Options(_) => FailureKind::Config,
            Failure::NonexistentPaths(_) => FailureKind::Path,
            Failure::DigestUnknown(_) => FailureKind::Path,
            Failure::OutsideWorkingDirectory(_) => FailureKind::Path,
            Failure::LineSpecification(_) => FailureKind::Parse,
            Failure::Diff => FailureKind::Parse,
            Failure::Coverage => FailureKind::Parse,
            Failure::DigestFile => FailureKind::Parse,
            Failure::DigestHex(_) => FailureKind::Parse,
            Failure::DigestLength(_) => FailureKind::Integrity,
            Failure::SourceFileRepeated(_) => FailureKind::Integrity,
            Failure::SourceFileMissing => FailureKind::Integrity,
            Failure::FileName(_) => FailureKind::Integrity,
            Failure::CommandFailed(_) => FailureKind::Process,
            Failure::Cancelled => FailureKind::Cancellation,
            Failure::Warning(_) => FailureKind::DeniedWarning,
        }
    }

    /// The kind of this failure.
    pub fn kind(&self) -> (r: FailureKind)
        ensures
            r == self.kind_of(),
    {
        match self {
            Failure::StoreMissing => FailureKind::Config,
            Failure::DiffWithStdin => FailureKind::Config,
            Failure::Options(_) => FailureKind::Config,
            Failure::NonexistentPaths(_) => FailureKind::Path,
            Failure::DigestUnknown(_) => FailureKind::Path,
            Failure::OutsideWorkingDirectory(_) => FailureKind::Path,
            Failure::LineSpecification(_) => FailureKind::Parse,
            Failure::Diff => FailureKind::Parse,
            Failure::Coverage => FailureKind::Parse,
            Failure::DigestFile => FailureKind::Parse,
            Failure::DigestHex(_) => FailureKind::Parse,
            Failure::DigestLength(_) => FailureKind::Integrity,
            Failure::SourceFileRepeated(_) => FailureKind::Integrity,
            Failure::SourceFileMissing => FailureKind::Integrity,
            Failure::FileName(_) => FailureKind::Integrity,
            Failure::CommandFailed(_) => FailureKind::Process,
            Failure::Cancelled => FailureKind::Cancellation,
            Failure::Warning(_) => FailureKind::DeniedWarning,
        }
    }

    /// What the message says before the detail of this failure.
    pub open spec fn headline(self) -> Seq<char> {
        match self {
            Failure::StoreMissing => "line-test.db does not exist"@,
            Failure::DiffWithStdin => "--diff cannot be used with `--line -`"@,
            Failure::Options(_) => "incompatible options: "@,
            Failure::NonexistentPaths(_) => "the following paths do not exist:"@,
            Failure::DigestUnknown(_) => "no current digest of: "@,
            Failure::OutsideWorkingDirectory(_) => "source file is not under the working directory: "@,
            Failure::LineSpecification(_) => "malformed line specification: "@,
            Failure::Diff => "malformed diff"@,
            Failure::Coverage => "malformed coverage file"@,
            Failure::DigestFile => "malformed digest file"@,
            Failure::DigestHex(_) => "digest is not hexadecimal: "@,
            Failure::DigestLength(_) => "invalid digest: "@,
            Failure::SourceFileRepeated(_) => "source file already given: "@,
            Failure::SourceFileMissing => "source file not given"@,
            Failure::FileName(_) => "unexpected file name: "@,
            Failure::CommandFailed(_) => "command failed: "@,
            Failure::Cancelled => "ctrl-c detected"@,
            Failure::Warning(_) => ""@,
        }
    }

    /// The detail that follows the headline.
    pub open spec fn detail(self) -> Seq<char> {
        match self {
            Failure::NonexistentPaths(paths) => listing(crate::text::views(paths@)),
            Failure::Options(s) => s@,
            Failure::DigestUnknown(s) => s@,
            Failure::OutsideWorkingDirectory(s) => s@,
            Failure::LineSpecification(s) => s@,
            Failure::DigestHex(s) => s@,
            Failure::DigestLength(s) => s@,
            Failure::SourceFileRepeated(s) => s@,
            Failure::FileName(s) => s@,
            Failure::CommandFailed(s) => s@,
            Failure::Warning(s) => s@,
            _ => Seq::<char>::empty(),
        }
    }

    /// The message for a reader: the headline and the detail.
    pub fn message(&self) -> (r: String)
        ensures
            r@ == self.headline() + self.detail(),
    {
        let mut out = String::new();
        match self {
            Failure::StoreMissing => out.append("line-test.db does not exist"),
            Failure::DiffWithStdin => out.append("--diff cannot be used with `--line -`"),
            Failure::Options(s) => {
                out.append("incompatible options: ");
                out.append(s.as_str());
            },
            Failure::NonexistentPaths(paths) => {
                out.append("the following paths do not exist:");
                push_listing(&mut out, paths);
            },
            Failure::DigestUnknown(s) => {
                out.append("no current digest of: ");
                out.append(s.as_str());
            },
            Failure::OutsideWorkingDirectory(s) => {
                out.append("source file is not under the working directory: ");
                out.append(s.as_str());
            },
            Failure::LineSpecification(s) => {
                out.append("malformed line specification: ");
                out.append(s.as_str());
            },
            Failure::Diff => out.append("malformed diff"),
            Failure::Coverage => out.append("malformed coverage file"),
            Failure::DigestFile => out.append("malformed digest file"),
            Failure::DigestHex(s) => {
                out.append("digest is not hexadecimal: ");
                out.append(s.as_str());
            },
            Failure::DigestLength(s) => {
                out.append("invalid digest: ");
                out.append(s.as_str());
            },
            Failure::SourceFileRepeated(s) => {
                out.append("source file already given: ");
                out.append(s.as_str());
            },
            Failure::SourceFileMissing => out.append("source file not given"),
            Failure::FileName(s) => {
                out.append("unexpected file name: ");
                out.append(s.as_str());
            },
            Failure::CommandFailed(s) => {
                out.append("command failed: ");
                out.append(s.as_str());
            },
            Failure::Cancelled => out.append("ctrl-c detected"),
            Failure::Warning(s) => {
                out.append("");
                out.append(s.as_str());
            },
        }
        assert(out@ =~= self.headline() + self.detail());
        out
    }
}

/// The texts of `items`, each on a line of its own, indented by four blanks.
pub open spec fn listing(items: Seq<Seq<char>>) -> Seq<char>
    decreases items.len(),
{
    if items.len() == 0 {
        Seq::<char>::empty()
    } else {
        listing(items.drop_last()) + "\n    "@ + items.last()
    }
}

/// Appends the listing of `items` to `out`.
pub fn push_listing(out: &mut String, items: &Vec<String>)
    ensures
        final(out)@ == old(out)@ + listing(crate::text::views(items@)),
{
    let ghost start = out@;
    let ghost texts = crate::text::views(items@);
    let mut i: usize = 0;
    assert(start + listing(texts.take(0)) =~= start);
    while i < items.len()
        invariant
            0 <= i <= items@.len(),
            texts == crate::text::views(items@),
            out@ == start + listing(texts.take(i as int)),
        decreases items@.len() - i,
    {
        out.append("\n    ");
        out.append(items[i].as_str());
        proof {
            let next = texts.take(i + 1);
            assert(next.drop_last() =~= texts.take(i as int));
            assert(next.last() == items@[i as int]@);
            assert(out@ =~= start + listing(next));
        }
        i += 1;
    }
    assert(texts.take(items@.len() as int) =~= texts);
}

} // verus!
