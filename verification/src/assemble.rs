//! Assembling the system image: its errors, the image's file name, the
//! commit hash read from git, and how the outcome of `mksquashfs` and of
//! the sysroot check becomes a result.
use vstd::prelude::*;
use vstd::utf8::{decode_utf8, valid_utf8};

use crate::packages::Package;
use crate::sysroot::{SysrootDeps, report_text};
use crate::text::{
    chars_of, is_white_space, lemma_trim_ws, push_str, string_from_range, trim_range, trim_ws,
};

verus! {

#[verifier::external_type_specification]
#[verifier::external_body]
pub struct ExIoError(std::io::Error);

/// Failures of the squashfs image build.
#[derive(Debug)]
pub enum SquashFsError {
    /// A build command exited unsuccessfully; -1 when it had no exit code.
    Non0ExitCode { exit_code: i32 },
    /// A build command could not be run.
    CommandError(std::io::Error),
}

/// Failures of assembling the system image.
#[derive(Debug)]
pub enum AssembleError<'m> {
    /// A package could not be copied into the sysroot.
    CopyError { package: &'m Package, error: std::io::Error },
    /// The sysroot lacks shared libraries or interpreters; the report says
    /// which.
    SysrootDeps { details: String },
    /// The squashfs image could not be built.
    SquashfsError(SquashFsError),
    /// Any other I/O failure.
    Io(std::io::Error),
}

/// The image's file name: `ardos-{version}-{commit}.squashfs`, with
/// `unknown` when the commit is not known.
pub open spec fn image_name(version: Seq<char>, commit: Option<Seq<char>>) -> Seq<char> {
    "ardos-"@ + version + "-"@ + match commit {
        Some(c) => c,
        None => "unknown"@,
    } + ".squashfs"@
}

/// Names the image file of a manifest version built from a commit.
pub fn image_file_name(version: &str, commit: Option<String>) -> (r: String)
    ensures
        r@ == image_name(version@, match commit {
            Some(c) => Some(c@),
            None => None,
        }),
{
    let mut name = String::new();
    push_str(&mut name, "ardos-");
    push_str(&mut name, version);
    push_str(&mut name, "-");
    match commit {
        Some(c) => push_str(&mut name, c.as_str()),
        None => push_str(&mut name, "unknown"),
    }
    push_str(&mut name, ".squashfs");
    name
}

/// `String::from_utf8`, keeping only a successful result.
#[verifier::external_body]
fn string_from_utf8(bytes: Vec<u8>) -> (r: Option<String>)
    ensures
        r is Some <==> valid_utf8(bytes@),
        r matches Some(s) ==> s@ == decode_utf8(bytes@),
{
    String::from_utf8(bytes).ok()
}

/// The commit hash that `git rev-parse --short HEAD` printed: its output
/// without surrounding whitespace, or nothing when git failed or printed
/// something that is not UTF-8.
///
/// The hash is the printed text from its first to its last character that
/// is not whitespace.
pub fn commit_hash_from_output(success: bool, stdout: Vec<u8>) -> (r: Option<String>)
    ensures
        r is Some <==> success && valid_utf8(stdout@),
        r matches Some(h) ==> h@ == trim_ws(decode_utf8(stdout@)),
        r matches Some(h) ==> exists|lo: int, hi: int|
            #![trigger decode_utf8(stdout@).subrange(lo, hi)]
            {
                let text = decode_utf8(stdout@);
                &&& 0 <= lo <= hi <= text.len()
                &&& h@ == text.subrange(lo, hi)
                &&& forall|k: int| 0 <= k < lo ==> is_white_space(#[trigger] text[k])
                &&& forall|k: int| hi <= k < text.len() ==> is_white_space(#[trigger] text[k])
                &&& lo < hi ==> !is_white_space(text[lo]) && !is_white_space(text[hi - 1])
            },
{
    proof {
        lemma_trim_ws(decode_utf8(stdout@));
    }
    if !success {
        return None;
    }
    match string_from_utf8(stdout) {
        Some(text) => {
            let chars = chars_of(text.as_str());
            let (a, b) = trim_range(&chars, 0, chars.len());
            assert(chars@.subrange(0, chars@.len() as int) == chars@);
            Some(string_from_range(&chars, a, b))
        },
        None => None,
    }
}

/// The outcome of a squashfs build command that ran: an unsuccessful exit
/// is an error carrying its exit code, or -1 when there was none.
pub fn squashfs_status(success: bool, code: Option<i32>) -> (r: Result<(), SquashFsError>)
    ensures
        r is Ok <==> success,
        r matches Err(e) ==> e == (SquashFsError::Non0ExitCode {
            exit_code: match code {
                Some(c) => c,
                None => -1i32,
            },
        }),
{
    if success {
        Ok(())
    } else {
        Err(
            SquashFsError::Non0ExitCode {
                exit_code: match code {
                    Some(c) => c,
                    None => -1,
                },
            },
        )
    }
}

/// The outcome of the sysroot check: success when nothing is missing,
/// otherwise the error that carries the report.
pub fn sysroot_status<'m>(deps: &SysrootDeps) -> (r: Result<(), AssembleError<'m>>)
    ensures
        r is Ok <==> deps.missing_interpreters().len() == 0 && deps.missing_libraries().len()
            == 0,
        r matches Err(e) ==> (e matches AssembleError::SysrootDeps { details } && details@
            == report_text(deps.missing_interpreters(), deps.missing_libraries())),
{
    match deps.report() {
        Ok(()) => Ok(()),
        Err(details) => Err(AssembleError::SysrootDeps { details }),
    }
}

} // verus!
