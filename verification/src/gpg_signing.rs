//! Signatures made and verified by GPG.
//!
//! GPG is run elsewhere: here are the arguments that it is given, and what its
//! output says.

use vstd::prelude::*;
use vstd::slice::slice_subrange;
use vstd::slice::slice_to_vec;
use vstd::utf8::decode_utf8;
use vstd::utf8::encode_utf8;
use vstd::utf8::is_ascii_chars_encode_utf8;
use vstd::utf8::valid_utf8;

use crate::filter::bytes_to_str;
use crate::filter::CommandOutput;
use crate::filter::ExitStatus;
use crate::seq_util::split_on;
use crate::text::chars_of;
use crate::text::copy_texts;
use crate::text::extend_texts;
use crate::text::lemma_texts_push;
use crate::text::string_of;
use crate::text::texts;

verus! {

/// Whether a character is white space in Unicode.
pub open spec fn is_white_space(c: char) -> bool {
    ||| '\t' <= c <= '\r'
    ||| c == ' '
    ||| c == '\u{85}'
    ||| c == '\u{a0}'
    ||| c == '\u{1680}'
    ||| '\u{2000}' <= c <= '\u{200a}'
    ||| c == '\u{2028}'
    ||| c == '\u{2029}'
    ||| c == '\u{202f}'
    ||| c == '\u{205f}'
    ||| c == '\u{3000}'
}

/// `char::is_whitespace`: whether the character has the property of white space
/// in Unicode. The characters that have it are listed in the Unicode Character
/// Database.
pub assume_specification[ char::is_whitespace ](c: char) -> (white: bool)
    ensures
        white == is_white_space(c),
;

/// What std makes of bytes that need not be valid UTF-8.
pub uninterp spec fn replaced_text(bytes: Seq<u8>) -> Seq<char>;

/// `String::from_utf8_lossy`: the bytes as a string, where what is not valid
/// UTF-8 is replaced. What it is replaced with, is only named here.
#[verifier::external_body]
fn utf8_lossy(bytes: &[u8]) -> (text: String)
    ensures
        text@ == replaced_text(bytes@),
        valid_utf8(bytes@) ==> text@ == decode_utf8(bytes@),
{
    String::from_utf8_lossy(bytes).into_owned()
}

/// The text without leading white space.
pub open spec fn trimmed_start(text: Seq<char>) -> Seq<char>
    decreases text.len(),
{
    if text.len() > 0 && is_white_space(text[0]) {
        trimmed_start(text.skip(1))
    } else {
        text
    }
}

/// The text without trailing white space.
pub open spec fn trimmed_end(text: Seq<char>) -> Seq<char>
    decreases text.len(),
{
    if text.len() > 0 && is_white_space(text.last()) {
        trimmed_end(text.drop_last())
    } else {
        text
    }
}

/// Removes trailing white space.
fn trim_end(text: &str) -> (trimmed: String)
    ensures
        trimmed@ == trimmed_end(text@),
{
    let chars: Vec<char> = chars_of(text);
    let mut end: usize = chars.len();
    assert(chars@.take(end as int) =~= text@);
    while end > 0 && chars[end - 1].is_whitespace()
        invariant
            end <= chars@.len(),
            trimmed_end(text@) == trimmed_end(chars@.take(end as int)),
        decreases end,
    {
        assert(chars@.take(end as int).drop_last() =~= chars@.take(end - 1));
        end -= 1;
    }
    string_of(slice_subrange(chars.as_slice(), 0, end))
}

/// Removes leading and trailing white space.
fn trim(text: &str) -> (trimmed: String)
    ensures
        trimmed@ == trimmed_end(trimmed_start(text@)),
{
    let chars: Vec<char> = chars_of(text);
    let mut start: usize = 0;
    assert(chars@.skip(0) =~= text@);
    while start < chars.len() && chars[start].is_whitespace()
        invariant
            start <= chars@.len(),
            trimmed_start(text@) == trimmed_start(chars@.skip(start as int)),
        decreases chars@.len() - start,
    {
        assert(chars@.skip(start as int).skip(1) =~= chars@.skip(start + 1));
        start += 1;
    }
    let rest: String = string_of(
        slice_subrange(chars.as_slice(), start, chars.len()),
    );
    trim_end(rest.as_str())
}

/// What a signature is worth.
#[derive(Debug, PartialEq, Eq, Structural, Clone, Copy)]
pub enum SigStatus {
    /// Valid signature that matches the data.
    Good,
    /// Valid signature that could not be verified, e.g. due to an unknown key.
    Unknown,
    /// Valid signature that does not match the signed data.
    Bad,
}

/// The result of a signature verification.
#[derive(Debug, PartialEq, Eq)]
pub struct Verification {
    /// What the signature is worth.
    pub status: SigStatus,
    /// The key, as the backend names it.
    pub key: Option<String>,
    /// The owner of the key, as the backend names them.
    pub display: Option<String>,
}

/// What can be seen of the result of a signature verification.
pub struct VerificationView {
    /// What the signature is worth.
    pub status: SigStatus,
    /// The key.
    pub key: Option<Seq<char>>,
    /// The owner of the key.
    pub display: Option<Seq<char>>,
}

/// What can be seen of an optional string.
pub open spec fn text_view(text: Option<String>) -> Option<Seq<char>> {
    match text {
        Some(text) => Some(text@),
        None => None,
    }
}

impl View for Verification {
    type V = VerificationView;

    open spec fn view(&self) -> VerificationView {
        VerificationView {
            status: self.status,
            key: text_view(self.key),
            display: text_view(self.display),
        }
    }
}

impl Verification {
    /// A result with all that is known.
    pub fn new(status: SigStatus, key: Option<String>, display: Option<String>) -> (verification:
        Self)
        ensures
            verification == (Verification { status, key, display }),
    {
        Verification { status, key, display }
    }

    /// A result of which nothing is known.
    pub fn unknown() -> (verification: Self)
        ensures
            verification == (Verification { status: SigStatus::Unknown, key: None, display: None }),
    {
        Verification { status: SigStatus::Unknown, key: None, display: None }
    }
}

/// Why GPG did not do its work.
#[derive(Debug)]
pub enum GpgError {
    /// It was not successful.
    Command {
        /// How it ended.
        exit_status: ExitStatus,
        /// What it wrote to its standard error.
        stderr: String,
    },
    /// It could not be run.
    Io(String),
}

impl GpgError {
    /// Returns the error in words.
    pub fn message(&self) -> (message: String)
        ensures
            match self {
                GpgError::Command { exit_status, stderr } => message@ == "GPG failed with "@
                    + exit_status.description@ + ":\n"@ + stderr@,
                GpgError::Io(_) => message@ == "Failed to run GPG"@,
            },
    {
        match self {
            GpgError::Command { exit_status, stderr } => {
                let mut message: String = "GPG failed with ".to_owned();
                message.append(exit_status.description.as_str());
                message.append(":\n");
                message.append(stderr.as_str());
                message
            },
            GpgError::Io(_) => "Failed to run GPG".to_owned(),
        }
    }
}

/// Why a signature could not be made or verified.
#[derive(Debug)]
pub enum SignError {
    /// The verification failed because the signature was invalid.
    InvalidSignatureFormat,
    /// The backend failed.
    Backend(GpgError),
}

/// The number of bytes before the first space.
pub open spec fn first_space(bytes: Seq<u8>) -> nat
    decreases bytes.len(),
{
    if bytes.len() == 0 || bytes[0] == 32 {
        0
    } else {
        1 + first_space(bytes.skip(1))
    }
}

/// What is between spaces, in at most as many pieces as given.
pub open spec fn fields_of(bytes: Seq<u8>, count: nat) -> Seq<Seq<u8>>
    decreases count,
{
    let end = first_space(bytes);
    if count <= 1 || end >= bytes.len() {
        seq![bytes]
    } else {
        seq![bytes.take(end as int)] + fields_of(
            bytes.skip(end as int + 1),
            (count - 1) as nat,
        )
    }
}

/// The fields of a line that holds a status: the name and up to two arguments.
pub open spec fn status_fields(line: Seq<u8>) -> Option<Seq<Seq<u8>>> {
    let prefix = encode_utf8("[GNUPG:] "@);
    if prefix.is_prefix_of(line) {
        Some(fields_of(line.skip(prefix.len() as int), 3))
    } else {
        None
    }
}

/// The text of a field, if there is the field and it is text.
pub open spec fn field_text(fields: Seq<Seq<u8>>, i: int) -> Option<Seq<char>> {
    if i < fields.len() && valid_utf8(fields[i]) {
        Some(trimmed_end(trimmed_start(decode_utf8(fields[i]))))
    } else {
        None
    }
}

/// What a status says of the signature, if it says anything.
pub open spec fn status_verdict(fields: Seq<Seq<u8>>, allow_expired_keys: bool) -> Option<
    VerificationView,
> {
    let name = fields[0];
    let with_key = |status: SigStatus|
        Some(
            VerificationView {
                status,
                key: field_text(fields, 1),
                display: field_text(fields, 2),
            },
        );
    if name == encode_utf8("GOODSIG"@) {
        with_key(SigStatus::Good)
    } else if name == encode_utf8("EXPKEYSIG"@) {
        with_key(
            if allow_expired_keys {
                SigStatus::Good
            } else {
                SigStatus::Bad
            },
        )
    } else if name == encode_utf8("NO_PUBKEY"@) {
        with_key(SigStatus::Unknown)
    } else if name == encode_utf8("BADSIG"@) {
        with_key(SigStatus::Bad)
    } else if name == encode_utf8("ERROR"@) && fields.len() > 1 && fields[1] == encode_utf8(
        "verify.findkey"@,
    ) {
        Some(VerificationView { status: SigStatus::Unknown, key: None, display: None })
    } else {
        None
    }
}

/// What the first status that says anything says.
pub open spec fn first_verdict(lines: Seq<Seq<u8>>, allow_expired_keys: bool) -> Option<
    VerificationView,
>
    decreases lines.len(),
{
    if lines.len() == 0 {
        None
    } else {
        let verdict = match status_fields(lines[0]) {
            Some(fields) => status_verdict(fields, allow_expired_keys),
            None => None,
        };
        if verdict is Some {
            verdict
        } else {
            first_verdict(lines.skip(1), allow_expired_keys)
        }
    }
}

/// Whether a line holds a status other than a general failure.
pub open spec fn is_other_status(line: Seq<u8>) -> bool {
    match status_fields(line) {
        Some(fields) => fields[0] != encode_utf8("FAILURE"@),
        None => false,
    }
}

/// What the output of GPG says of a signature. If no status does, the signature
/// is invalid, unless there are only general failures.
pub open spec fn verify_outcome(output: Seq<u8>, allow_expired_keys: bool) -> Option<
    Result<VerificationView, SignError>,
> {
    let lines = split_on(output, 10);
    match first_verdict(lines, allow_expired_keys) {
        Some(verdict) => Some(Ok(verdict)),
        None => if exists|i: int| 0 <= i < lines.len() && is_other_status(#[trigger] lines[i]) {
            Some(Err(SignError::InvalidSignatureFormat))
        } else {
            None
        },
    }
}

/// What can be seen of lists of bytes.
pub open spec fn pieces_of(pieces: Seq<Vec<u8>>) -> Seq<Seq<u8>> {
    pieces.map_values(|piece: Vec<u8>| piece@)
}

proof fn lemma_pieces_push(pieces: Seq<Vec<u8>>, piece: Vec<u8>)
    ensures
        pieces_of(pieces.push(piece)) == pieces_of(pieces).push(piece@),
{
    assert(pieces_of(pieces.push(piece)) =~= pieces_of(pieces).push(piece@));
}

/// Splits bytes at line ends.
fn split_lines(output: &[u8]) -> (lines: Vec<Vec<u8>>)
    ensures
        pieces_of(lines@) == split_on(output@, 10),
{
    let mut lines: Vec<Vec<u8>> = Vec::new();
    let mut line: Vec<u8> = Vec::new();
    let mut i: usize = 0;
    assert(pieces_of(lines@).push(line@) =~= split_on(output@.take(0), 10));
    while i < output.len()
        invariant
            i <= output@.len(),
            pieces_of(lines@).push(line@) == split_on(output@.take(i as int), 10),
        decreases output@.len() - i,
    {
        let ghost before = pieces_of(lines@).push(line@);
        let ghost now = output@.take(i + 1);
        assert(now.drop_last() =~= output@.take(i as int));
        assert(now.last() == output@[i as int]);
        if output[i] == 10 {
            proof {
                lemma_pieces_push(lines@, line);
            }
            lines.push(line);
            line = Vec::new();
            assert(line@ =~= Seq::<u8>::empty());
        } else {
            assert(before.drop_last() =~= pieces_of(lines@));
            line.push(output[i]);
        }
        i += 1;
    }
    assert(output@.take(i as int) =~= output@);
    proof {
        lemma_pieces_push(lines@, line);
    }
    lines.push(line);
    lines
}

/// Tells whether bytes begin with others.
fn starts_with(bytes: &[u8], prefix: &[u8]) -> (found: bool)
    ensures
        found == prefix@.is_prefix_of(bytes@),
{
    if bytes.len() < prefix.len() {
        return false;
    }
    let mut i: usize = 0;
    while i < prefix.len()
        invariant
            i <= prefix@.len() <= bytes@.len(),
            forall|k: int| 0 <= k < i ==> prefix@[k] == bytes@[k],
        decreases prefix@.len() - i,
    {
        if prefix[i] != bytes[i] {
            assert(bytes@.subrange(0, prefix@.len() as int)[i as int] == bytes@[i as int]);
            return false;
        }
        i += 1;
    }
    assert(prefix@ =~= bytes@.subrange(0, prefix@.len() as int));
    true
}

/// Tells whether bytes are those of a text.
fn is_text(bytes: &Vec<u8>, text: &str) -> (same: bool)
    ensures
        same == (bytes@ == encode_utf8(text@)),
{
    let other: &[u8] = text.as_bytes();
    let same: bool = bytes.len() == other.len() && starts_with(bytes, other);
    proof {
        if same {
            assert(bytes@.subrange(0, other@.len() as int) =~= bytes@);
        } else if bytes@ == other@ {
            assert(other@ =~= bytes@.subrange(0, other@.len() as int));
        }
    }
    same
}

/// Splits bytes at spaces, into at most as many pieces as given.
fn split_fields(bytes: &[u8], count: usize) -> (fields: Vec<Vec<u8>>)
    ensures
        pieces_of(fields@) == fields_of(bytes@, count as nat),
{
    let mut fields: Vec<Vec<u8>> = Vec::new();
    let mut left: usize = count;
    let mut start: usize = 0;
    let len: usize = bytes.len();
    assert(bytes@.skip(0) =~= bytes@);
    assert(pieces_of(fields@) + fields_of(bytes@, count as nat) =~= fields_of(
        bytes@,
        count as nat,
    ));
    loop
        invariant_except_break
            pieces_of(fields@) + fields_of(bytes@.skip(start as int), left as nat) == fields_of(
                bytes@,
                count as nat,
            ),
        invariant
            start <= bytes@.len(),
            len == bytes@.len(),
        ensures
            pieces_of(fields@).push(bytes@.skip(start as int)) == fields_of(bytes@, count as nat),
        decreases left,
    {
        let ghost rest = bytes@.skip(start as int);
        let mut end: usize = start;
        assert(bytes@.skip(end as int) =~= rest);
        while end < len && bytes[end] != 32
            invariant
                start <= end <= len,
                len == bytes@.len(),
                rest == bytes@.skip(start as int),
                first_space(rest) == end - start + first_space(bytes@.skip(end as int)),
            decreases len - end,
        {
            assert(bytes@.skip(end as int).skip(1) =~= bytes@.skip(end + 1));
            end += 1;
        }
        assert(first_space(rest) == end - start);
        if left <= 1 || end >= len {
            assert(pieces_of(fields@) + seq![rest] =~= pieces_of(fields@).push(rest));
            break;
        }
        let field: Vec<u8> = slice_to_vec(slice_subrange(bytes, start, end));
        proof {
            lemma_pieces_push(fields@, field);
            assert(field@ =~= rest.take(end - start));
            assert(rest.skip(end - start + 1) =~= bytes@.skip(end + 1));
            let more = fields_of(bytes@.skip(end + 1), (left - 1) as nat);
            assert(pieces_of(fields@) + (seq![field@] + more) =~= pieces_of(fields@).push(field@)
                + more);
        }
        fields.push(field);
        start = end + 1;
        left -= 1;
    }
    let field: Vec<u8> = slice_to_vec(slice_subrange(bytes, start, len));
    proof {
        lemma_pieces_push(fields@, field);
        assert(field@ =~= bytes@.skip(start as int));
    }
    fields.push(field);
    fields
}

/// Returns the fields of a line that holds a status.
fn parse_status_line(line: &Vec<u8>) -> (fields: Option<Vec<Vec<u8>>>)
    ensures
        match fields {
            Some(fields) => fields@.len() > 0 && status_fields(line@) == Some(
                pieces_of(fields@),
            ),
            None => status_fields(line@) is None,
        },
{
    let prefix: &[u8] = "[GNUPG:] ".as_bytes();
    if !starts_with(line, prefix) {
        return None;
    }
    let fields: Vec<Vec<u8>> = split_fields(
        slice_subrange(line.as_slice(), prefix.len(), line.len()),
        3,
    );
    proof {
        assert(line@.skip(prefix@.len() as int) =~= line@.subrange(
            prefix@.len() as int,
            line@.len() as int,
        ));
        let rest = line@.skip(prefix@.len() as int);
        assert(fields_of(rest, 3).len() > 0);
    }
    Some(fields)
}

/// Returns the text of a field.
fn parse_field(fields: &Vec<Vec<u8>>, i: usize) -> (text: Option<String>)
    ensures
        text_view(text) == field_text(pieces_of(fields@), i as int),
{
    if i >= fields.len() {
        return None;
    }
    assert(pieces_of(fields@)[i as int] == fields@[i as int]@);
    match bytes_to_str(&fields[i]) {
        Some(text) => {
            proof {
                vstd::utf8::encode_utf8_decode_utf8(text@);
            }
            Some(trim(text.as_str()))
        },
        None => None,
    }
}

/// Returns what a status says of the signature.
fn parse_status(fields: &Vec<Vec<u8>>, allow_expired_keys: bool) -> (verdict: Option<Verification>)
    requires
        fields@.len() > 0,
    ensures
        verification_view(verdict) == status_verdict(pieces_of(fields@), allow_expired_keys),
{
    let name: &Vec<u8> = &fields[0];
    assert(pieces_of(fields@)[0] == name@);
    let status: SigStatus = if is_text(name, "GOODSIG") {
        SigStatus::Good
    } else if is_text(name, "EXPKEYSIG") {
        if allow_expired_keys {
            SigStatus::Good
        } else {
            SigStatus::Bad
        }
    } else if is_text(name, "NO_PUBKEY") {
        SigStatus::Unknown
    } else if is_text(name, "BADSIG") {
        SigStatus::Bad
    } else {
        if is_text(name, "ERROR") && fields.len() > 1 {
            assert(pieces_of(fields@)[1] == fields@[1]@);
            if is_text(&fields[1], "verify.findkey") {
                return Some(Verification::unknown());
            }
        }
        return None;
    };
    let key: Option<String> = parse_field(fields, 1);
    let display: Option<String> = parse_field(fields, 2);
    Some(Verification::new(status, key, display))
}

/// What can be seen of an optional result.
pub open spec fn verification_view(verification: Option<Verification>) -> Option<
    VerificationView,
> {
    match verification {
        Some(verification) => Some(verification@),
        None => None,
    }
}

/// What can be seen of what the output of GPG says.
pub open spec fn outcome_view(outcome: Option<Result<Verification, SignError>>) -> Option<
    Result<VerificationView, SignError>,
> {
    match outcome {
        Some(Ok(verification)) => Some(Ok(verification@)),
        Some(Err(error)) => Some(Err(error)),
        None => None,
    }
}

/// Search for one of these in the output from `--status-fd=1`.
///
/// - `[GNUPG:] GOODSIG <long keyid> <primary uid..>`
/// - `[GNUPG:] EXPKEYSIG <long keyid> <primary uid..>`
/// - `[GNUPG:] NO_PUBKEY <long keyid>`
/// - `[GNUPG:] BADSIG <long keyid> <primary uid..>`
///
/// Assume signature is invalid if none of the above was found, and if there are
/// at least one line other than general program failures `[GNUPG:] FAILURE`.
///
/// <https://github.com/gpg/gnupg/blob/gnupg-2.5.18/doc/DETAILS#format-of-the-status-fd-output>
pub fn parse_gpg_verify_output(output: &[u8], allow_expired_keys: bool) -> (outcome: Option<
    Result<Verification, SignError>,
>)
    ensures
        outcome_view(outcome) == verify_outcome(output@, allow_expired_keys),
{
    let lines: Vec<Vec<u8>> = split_lines(output);
    let ghost views = split_on(output@, 10u8);
    let mut others: bool = false;
    let mut i: usize = 0;
    assert(views.skip(0) =~= views);
    while i < lines.len()
        invariant
            i <= lines@.len(),
            views == split_on(output@, 10u8),
            views == pieces_of(lines@),
            first_verdict(views, allow_expired_keys) == first_verdict(
                views.skip(i as int),
                allow_expired_keys,
            ),
            others == exists|k: int| 0 <= k < i && is_other_status(#[trigger] views[k]),
        decreases lines@.len() - i,
    {
        assert(views[i as int] == lines@[i as int]@);
        assert(views.skip(i as int)[0] == views[i as int]);
        assert(views.skip(i as int).skip(1) =~= views.skip(i + 1));
        if let Some(fields) = parse_status_line(&lines[i]) {
            if let Some(verification) = parse_status(&fields, allow_expired_keys) {
                return Some(Ok(verification));
            }
            assert(pieces_of(fields@)[0] == fields@[0]@);
            if !is_text(&fields[0], "FAILURE") {
                assert(is_other_status(views[i as int]));
                others = true;
            }
        }
        i += 1;
    }
    if others {
        Some(Err(SignError::InvalidSignatureFormat))
    } else {
        None
    }
}

fn push_arg(args: &mut Vec<String>, arg: &str)
    ensures
        texts(final(args)@) == texts(old(args)@).push(arg@),
{
    let arg: String = arg.to_owned();
    proof {
        lemma_texts_push(args@, arg);
    }
    args.push(arg);
}

/// The error for a process that was not successful.
fn make_command_error(output: CommandOutput) -> (error: GpgError)
    ensures
        is_command_error(output, error),
{
    let stderr: String = trim_end(utf8_lossy(&output.stderr).as_str());
    GpgError::Command { exit_status: output.status, stderr }
}

/// Whether an error is that for a process that was not successful.
pub open spec fn is_command_error(output: CommandOutput, error: GpgError) -> bool {
    error matches GpgError::Command { exit_status, stderr } && exit_status == output.status
        && stderr@ == trimmed_end(replaced_text(output.stderr@))
}

/// How a write to a process failed.
#[derive(Debug)]
pub struct WriteError {
    /// Whether the process had closed the pipe.
    pub broken_pipe: bool,
    /// The error in words.
    pub message: String,
}

/// What the run of a process came to: it could not be started or waited for,
/// or it has ended, and its input was written or not.
#[derive(Debug)]
pub enum GpgRun {
    /// It could not be started or waited for.
    Failed(String),
    /// It has ended.
    Ended {
        /// What it left behind.
        output: CommandOutput,
        /// Whether its input was written.
        write_result: Result<(), WriteError>,
    },
}

/// Returns what a run for signing came to.
pub fn sign_outcome(run: GpgRun) -> (result: Result<Vec<u8>, GpgError>)
    ensures
        match run {
            GpgRun::Failed(message) => result == Err::<Vec<u8>, GpgError>(GpgError::Io(message)),
            GpgRun::Ended { output, write_result } => if output.status.success {
                match write_result {
                    Ok(()) => result == Ok::<Vec<u8>, GpgError>(output.stdout),
                    Err(error) => result == Err::<Vec<u8>, GpgError>(
                        GpgError::Io(error.message),
                    ),
                }
            } else {
                result matches Err(error) && is_command_error(output, error)
            },
        },
{
    match run {
        GpgRun::Failed(message) => Err(GpgError::Io(message)),
        GpgRun::Ended { output, write_result } => {
            if output.status.success {
                match write_result {
                    Ok(()) => Ok(output.stdout),
                    Err(error) => Err(GpgError::Io(error.message)),
                }
            } else {
                Err(make_command_error(output))
            }
        },
    }
}

/// Returns what a run for verifying came to.
pub fn verify_output(run: GpgRun) -> (result: Result<CommandOutput, GpgError>)
    ensures
        result == (match run {
            GpgRun::Failed(message) => Err::<CommandOutput, GpgError>(GpgError::Io(message)),
            GpgRun::Ended { output, write_result } => match write_result {
                Err(error) if !error.broken_pipe => Err(GpgError::Io(error.message)),
                _ => Ok(output),
            },
        }),
{
    match run {
        GpgRun::Failed(message) => Err(GpgError::Io(message)),
        GpgRun::Ended { output, write_result } => match write_result {
            Ok(()) => Ok(output),
            Err(error) => {
                // If the signature format is invalid, gpg will terminate early.
                // Writing more input data will fail in that case.
                if error.broken_pipe {
                    Ok(output)
                } else {
                    Err(GpgError::Io(error.message))
                }
            },
        },
    }
}

/// Whether a result is what the output of GPG comes to.
pub open spec fn is_verification(
    output: CommandOutput,
    allow_expired_keys: bool,
    result: Result<Verification, SignError>,
) -> bool {
    match verify_outcome(output.stdout@, allow_expired_keys) {
        Some(Ok(verdict)) => result is Ok && result->Ok_0@ == verdict,
        Some(Err(error)) => result == Err::<Verification, SignError>(error),
        None => result is Err && (result->Err_0 matches SignError::Backend(error)
            && is_command_error(output, error)),
    }
}

fn verification_of(output: CommandOutput, allow_expired_keys: bool) -> (result: Result<
    Verification,
    SignError,
>)
    ensures
        is_verification(output, allow_expired_keys, result),
{
    match parse_gpg_verify_output(&output.stdout, allow_expired_keys) {
        Some(result) => result,
        None => Err(SignError::Backend(make_command_error(output))),
    }
}

/// Signs with GPG.
#[derive(Debug)]
pub struct GpgBackend {
    /// The program to run.
    pub program: String,
    /// Whether signatures with expired keys are good.
    pub allow_expired_keys: bool,
    /// Arguments that come before all others.
    pub extra_args: Vec<String>,
    /// The key to sign with if none is given.
    pub default_key: String,
}

impl GpgBackend {
    /// A backend without extra arguments.
    pub fn new(program: String, allow_expired_keys: bool, default_key: String) -> (backend: Self)
        ensures
            backend.program == program,
            backend.allow_expired_keys == allow_expired_keys,
            backend.extra_args@.len() == 0,
            backend.default_key == default_key,
    {
        GpgBackend { program, allow_expired_keys, extra_args: Vec::new(), default_key }
    }

    /// Primarily intended for testing
    pub fn with_extra_args(self, args: &[String]) -> (backend: Self)
        ensures
            backend.program == self.program,
            backend.allow_expired_keys == self.allow_expired_keys,
            texts(backend.extra_args@) == texts(self.extra_args@) + texts(args@),
            backend.default_key == self.default_key,
    {
        let GpgBackend { program, allow_expired_keys, extra_args, default_key } = self;
        let mut extra_args: Vec<String> = extra_args;
        extend_texts(&mut extra_args, args);
        GpgBackend { program, allow_expired_keys, extra_args, default_key }
    }

    /// Takes what the settings hold for the program, for whether expired keys
    /// are allowed, and for the email of the user.
    pub fn from_settings<E>(
        program: Result<String, E>,
        allow_expired_keys: Result<bool, E>,
        user_email: &str,
    ) -> (backend: Result<Self, E>)
        ensures
            match program {
                Err(error) => backend == Err::<Self, E>(error),
                Ok(program) => match allow_expired_keys {
                    Err(error) => backend == Err::<Self, E>(error),
                    Ok(allowed) => {
                        &&& backend is Ok
                        &&& backend->Ok_0.program == program
                        &&& backend->Ok_0.allow_expired_keys == allowed
                        &&& backend->Ok_0.extra_args@.len() == 0
                        &&& backend->Ok_0.default_key@ == user_email@
                    },
                },
            },
    {
        match program {
            Err(error) => Err(error),
            Ok(program) => match allow_expired_keys {
                Err(error) => Err(error),
                Ok(allowed) => Ok(GpgBackend::new(program, allowed, user_email.to_owned())),
            },
        }
    }

    /// Returns the name of the backend.
    pub fn name(&self) -> (name: &'static str)
        ensures
            name@ == "gpg"@,
    {
        "gpg"
    }

    /// Returns whether a signature can be one of this backend.
    pub fn can_read(&self, signature: &[u8]) -> (readable: bool)
        ensures
            readable == encode_utf8("-----BEGIN PGP SIGNATURE-----"@).is_prefix_of(signature@),
    {
        starts_with(signature, "-----BEGIN PGP SIGNATURE-----".as_bytes())
    }

    /// Returns the arguments for signing with a key.
    pub fn sign_args(&self, key: Option<&str>) -> (args: Vec<String>)
        ensures
            texts(args@) == texts(self.extra_args@) + seq![
                "-abu"@,
                match key {
                    Some(key) => key@,
                    None => self.default_key@,
                },
            ],
    {
        let key: &str = match key {
            Some(key) => key,
            None => self.default_key.as_str(),
        };
        let mut args: Vec<String> = copy_texts(&self.extra_args);
        push_arg(&mut args, "-abu");
        push_arg(&mut args, key);
        assert(texts(args@) =~= texts(self.extra_args@) + seq!["-abu"@, key@]);
        args
    }

    /// Returns the arguments for verifying the signature in a file, where the data
    /// is the input.
    pub fn verify_args(&self, sig_path: &str) -> (args: Vec<String>)
        ensures
            texts(args@) == texts(self.extra_args@) + seq![
                "--keyid-format=long"@,
                "--status-fd=1"@,
                "--verify"@,
                sig_path@,
                "-"@,
            ],
    {
        let mut args: Vec<String> = copy_texts(&self.extra_args);
        push_arg(&mut args, "--keyid-format=long");
        push_arg(&mut args, "--status-fd=1");
        push_arg(&mut args, "--verify");
        push_arg(&mut args, sig_path);
        push_arg(&mut args, "-");
        assert(texts(args@) =~= texts(self.extra_args@) + seq![
                "--keyid-format=long"@,
                "--status-fd=1"@,
                "--verify"@,
                sig_path@,
                "-"@,
            ]);
        args
    }

    /// Returns what the verification came to.
    pub fn verification(&self, output: CommandOutput) -> (result: Result<Verification, SignError>)
        ensures
            is_verification(output, self.allow_expired_keys, result),
    {
        verification_of(output, self.allow_expired_keys)
    }
}

/// Signs with GPG for S/MIME.
#[derive(Debug)]
pub struct GpgsmBackend {
    /// The program to run.
    pub program: String,
    /// Whether signatures with expired keys are good.
    pub allow_expired_keys: bool,
    /// Arguments that come before all others.
    pub extra_args: Vec<String>,
    /// The key to sign with if none is given.
    pub default_key: String,
}

impl GpgsmBackend {
    /// A backend without extra arguments.
    pub fn new(program: String, allow_expired_keys: bool, default_key: String) -> (backend: Self)
        ensures
            backend.program == program,
            backend.allow_expired_keys == allow_expired_keys,
            backend.extra_args@.len() == 0,
            backend.default_key == default_key,
    {
        GpgsmBackend { program, allow_expired_keys, extra_args: Vec::new(), default_key }
    }

    /// Primarily intended for testing
    pub fn with_extra_args(self, args: &[String]) -> (backend: Self)
        ensures
            backend.program == self.program,
            backend.allow_expired_keys == self.allow_expired_keys,
            texts(backend.extra_args@) == texts(self.extra_args@) + texts(args@),
            backend.default_key == self.default_key,
    {
        let GpgsmBackend { program, allow_expired_keys, extra_args, default_key } = self;
        let mut extra_args: Vec<String> = extra_args;
        extend_texts(&mut extra_args, args);
        GpgsmBackend { program, allow_expired_keys, extra_args, default_key }
    }

    /// Takes what the settings hold for the program, for whether expired keys
    /// are allowed, and for the email of the user.
    pub fn from_settings<E>(
        program: Result<String, E>,
        allow_expired_keys: Result<bool, E>,
        user_email: &str,
    ) -> (backend: Result<Self, E>)
        ensures
            match program {
                Err(error) => backend == Err::<Self, E>(error),
                Ok(program) => match allow_expired_keys {
                    Err(error) => backend == Err::<Self, E>(error),
                    Ok(allowed) => {
                        &&& backend is Ok
                        &&& backend->Ok_0.program == program
                        &&& backend->Ok_0.allow_expired_keys == allowed
                        &&& backend->Ok_0.extra_args@.len() == 0
                        &&& backend->Ok_0.default_key@ == user_email@
                    },
                },
            },
    {
        match program {
            Err(error) => Err(error),
            Ok(program) => match allow_expired_keys {
                Err(error) => Err(error),
                Ok(allowed) => Ok(GpgsmBackend::new(program, allowed, user_email.to_owned())),
            },
        }
    }

    /// Returns the name of the backend.
    pub fn name(&self) -> (name: &'static str)
        ensures
            name@ == "gpgsm"@,
    {
        "gpgsm"
    }

    /// Returns whether a signature can be one of this backend.
    pub fn can_read(&self, signature: &[u8]) -> (readable: bool)
        ensures
            readable == encode_utf8("-----BEGIN SIGNED MESSAGE-----"@).is_prefix_of(signature@),
    {
        starts_with(signature, "-----BEGIN SIGNED MESSAGE-----".as_bytes())
    }

    /// Returns the arguments for signing with a key.
    pub fn sign_args(&self, key: Option<&str>) -> (args: Vec<String>)
        ensures
            texts(args@) == texts(self.extra_args@) + seq![
                "-abu"@,
                match key {
                    Some(key) => key@,
                    None => self.default_key@,
                },
            ],
    {
        let key: &str = match key {
            Some(key) => key,
            None => self.default_key.as_str(),
        };
        let mut args: Vec<String> = copy_texts(&self.extra_args);
        push_arg(&mut args, "-abu");
        push_arg(&mut args, key);
        assert(texts(args@) =~= texts(self.extra_args@) + seq!["-abu"@, key@]);
        args
    }

    /// Returns the arguments for verifying the signature in a file, where the data
    /// is in another, because gpgsm 2.5.x doesn't parse "-" as stdin.
    pub fn verify_args(&self, sig_path: &str, data_path: &str) -> (args: Vec<String>)
        ensures
            texts(args@) == texts(self.extra_args@) + seq![
                "--status-fd=1"@,
                "--verify"@,
                sig_path@,
                data_path@,
            ],
    {
        let mut args: Vec<String> = copy_texts(&self.extra_args);
        push_arg(&mut args, "--status-fd=1");
        push_arg(&mut args, "--verify");
        push_arg(&mut args, sig_path);
        push_arg(&mut args, data_path);
        assert(texts(args@) =~= texts(self.extra_args@) + seq![
                "--status-fd=1"@,
                "--verify"@,
                sig_path@,
                data_path@,
            ]);
        args
    }

    /// Returns what the verification came to.
    pub fn verification(&self, output: CommandOutput) -> (result: Result<Verification, SignError>)
        ensures
            is_verification(output, self.allow_expired_keys, result),
    {
        verification_of(output, self.allow_expired_keys)
    }
}

/// Trimming takes white space away, and nothing else, until there is none left
/// at either end.
pub proof fn lemma_trimmed(text: Seq<char>, start: Seq<char>, end: Seq<char>)
    requires
        forall|i: int| 0 <= i < start.len() ==> is_white_space(#[trigger] start[i]),
        forall|i: int| 0 <= i < end.len() ==> is_white_space(#[trigger] end[i]),
        text.len() > 0 ==> !is_white_space(text[0]) && !is_white_space(text.last()),
    ensures
        trimmed_end(trimmed_start(start + text + end)) == text,
        trimmed_end(text + end) == text,
{
    lemma_trimmed_end(text, end);
    if text.len() > 0 {
        lemma_trimmed_start(text + end, start);
        assert(start + text + end =~= start + (text + end));
    } else {
        let all = start + end;
        assert(start + text + end =~= all + Seq::<char>::empty());
        assert forall|i: int| 0 <= i < all.len() implies is_white_space(#[trigger] all[i]) by {
            if i < start.len() {
                assert(all[i] == start[i]);
            } else {
                assert(all[i] == end[i - start.len()]);
            }
        }
        lemma_trimmed_start(Seq::empty(), all);
        assert(text =~= Seq::<char>::empty());
    }
}

proof fn lemma_trimmed_start(text: Seq<char>, start: Seq<char>)
    requires
        forall|i: int| 0 <= i < start.len() ==> is_white_space(#[trigger] start[i]),
        text.len() > 0 ==> !is_white_space(text[0]),
    ensures
        trimmed_start(start + text) == text,
    decreases start.len(),
{
    if start.len() == 0 {
        assert(start + text =~= text);
    } else {
        assert((start + text)[0] == start[0]);
        assert((start + text).skip(1) =~= start.skip(1) + text);
        lemma_trimmed_start(text, start.skip(1));
    }
}

proof fn lemma_trimmed_end(text: Seq<char>, end: Seq<char>)
    requires
        forall|i: int| 0 <= i < end.len() ==> is_white_space(#[trigger] end[i]),
        text.len() > 0 ==> !is_white_space(text.last()),
    ensures
        trimmed_end(text + end) == text,
    decreases end.len(),
{
    if end.len() == 0 {
        assert(text + end =~= text);
    } else {
        assert((text + end).last() == end.last());
        assert((text + end).drop_last() =~= text + end.drop_last());
        lemma_trimmed_end(text, end.drop_last());
    }
}

/// Whether a line is marked as a status and says the given one: it is followed
/// by a space, or by nothing.
pub open spec fn says(line: Seq<u8>, status: Seq<char>) -> bool {
    let head = encode_utf8("[GNUPG:] "@) + encode_utf8(status);
    head.is_prefix_of(line) && (line.len() == head.len() || line[head.len() as int] == 32)
}

/// Whether a line says something of the signature.
pub open spec fn says_verdict(line: Seq<u8>) -> bool {
    ||| says(line, "GOODSIG"@)
    ||| says(line, "EXPKEYSIG"@)
    ||| says(line, "NO_PUBKEY"@)
    ||| says(line, "BADSIG"@)
    ||| says(line, "ERROR verify.findkey"@)
}

/// A line with a status, a key, and an owner.
pub open spec fn status_line(status: Seq<char>, key: Seq<u8>, owner: Seq<u8>) -> Seq<u8> {
    encode_utf8("[GNUPG:] "@) + encode_utf8(status) + seq![32u8] + key + seq![32u8] + owner
}

/// Bytes as trimmed text, if they are text.
pub open spec fn trimmed_text(bytes: Seq<u8>) -> Option<Seq<char>> {
    if valid_utf8(bytes) {
        Some(trimmed_end(trimmed_start(decode_utf8(bytes))))
    } else {
        None
    }
}

/// The first space, if there is one, comes after bytes that are none.
proof fn lemma_first_space(bytes: Seq<u8>)
    ensures
        first_space(bytes) <= bytes.len(),
        forall|i: int| 0 <= i < first_space(bytes) ==> #[trigger] bytes[i] != 32,
        first_space(bytes) < bytes.len() ==> bytes[first_space(bytes) as int] == 32,
    decreases bytes.len(),
{
    if bytes.len() > 0 && bytes[0] != 32 {
        let rest = bytes.skip(1);
        lemma_first_space(rest);
        assert forall|i: int| 0 <= i < first_space(bytes) implies #[trigger] bytes[i] != 32 by {
            if i > 0 {
                assert(rest[i - 1] == bytes[i]);
            }
        }
    }
}

/// The first field is what comes before the first space.
proof fn lemma_first_field(bytes: Seq<u8>, count: nat, field: Seq<u8>)
    requires
        count > 1,
        !field.contains(32),
    ensures
        fields_of(bytes, count).len() > 0,
        fields_of(bytes, count)[0] == field <==> field.is_prefix_of(bytes) && (bytes.len()
            == field.len() || bytes[field.len() as int] == 32),
{
    let end = first_space(bytes) as int;
    lemma_first_space(bytes);
    let first = fields_of(bytes, count)[0];
    assert(first =~= bytes.take(end));
    if field.is_prefix_of(bytes) && (bytes.len() == field.len() || bytes[field.len() as int]
        == 32) {
        if end < field.len() {
            assert(field[end] == bytes[end]);
            assert(field.contains(field[end]));
        }
        assert(first =~= field);
    }
}

/// ASCII text is encoded as it is.
proof fn lemma_status_names()
    ensures
        encode_utf8("[GNUPG:] "@).len() == 9,
        encode_utf8("GOODSIG"@) == seq![71u8, 79, 79, 68, 83, 73, 71],
        encode_utf8("EXPKEYSIG"@) == seq![69u8, 88, 80, 75, 69, 89, 83, 73, 71],
        encode_utf8("NO_PUBKEY"@) == seq![78u8, 79, 95, 80, 85, 66, 75, 69, 89],
        encode_utf8("BADSIG"@) == seq![66u8, 65, 68, 83, 73, 71],
        encode_utf8("ERROR"@) == seq![69u8, 82, 82, 79, 82],
        encode_utf8("FAILURE"@) == seq![70u8, 65, 73, 76, 85, 82, 69],
        !encode_utf8("verify.findkey"@).contains(32),
        encode_utf8("ERROR verify.findkey"@) == encode_utf8("ERROR"@) + seq![32u8] + encode_utf8(
            "verify.findkey"@,
        ),
{
    reveal_strlit("[GNUPG:] ");
    reveal_strlit("GOODSIG");
    reveal_strlit("EXPKEYSIG");
    reveal_strlit("NO_PUBKEY");
    reveal_strlit("BADSIG");
    reveal_strlit("ERROR");
    reveal_strlit("FAILURE");
    reveal_strlit("verify.findkey");
    reveal_strlit("ERROR verify.findkey");
    is_ascii_chars_encode_utf8("[GNUPG:] "@);
    is_ascii_chars_encode_utf8("GOODSIG"@);
    is_ascii_chars_encode_utf8("EXPKEYSIG"@);
    is_ascii_chars_encode_utf8("NO_PUBKEY"@);
    is_ascii_chars_encode_utf8("BADSIG"@);
    is_ascii_chars_encode_utf8("ERROR"@);
    is_ascii_chars_encode_utf8("FAILURE"@);
    is_ascii_chars_encode_utf8("verify.findkey"@);
    is_ascii_chars_encode_utf8("ERROR verify.findkey"@);
    assert(encode_utf8("GOODSIG"@) =~= seq![71u8, 79, 79, 68, 83, 73, 71]);
    assert(encode_utf8("EXPKEYSIG"@) =~= seq![69u8, 88, 80, 75, 69, 89, 83, 73, 71]);
    assert(encode_utf8("NO_PUBKEY"@) =~= seq![78u8, 79, 95, 80, 85, 66, 75, 69, 89]);
    assert(encode_utf8("BADSIG"@) =~= seq![66u8, 65, 68, 83, 73, 71]);
    assert(encode_utf8("ERROR"@) =~= seq![69u8, 82, 82, 79, 82]);
    assert(encode_utf8("FAILURE"@) =~= seq![70u8, 65, 73, 76, 85, 82, 69]);
    assert(encode_utf8("ERROR verify.findkey"@) =~= encode_utf8("ERROR"@) + seq![32u8]
        + encode_utf8("verify.findkey"@));
}

/// A line says a status if it is marked and the status is its first field.
proof fn lemma_says(line: Seq<u8>, status: Seq<char>)
    requires
        !encode_utf8(status).contains(32),
    ensures
        says(line, status) <==> status_fields(line) is Some && status_fields(line)->Some_0[0]
            == encode_utf8(status),
{
    let mark = encode_utf8("[GNUPG:] "@);
    let name = encode_utf8(status);
    if mark.is_prefix_of(line) {
        let rest = line.skip(mark.len() as int);
        lemma_first_field(rest, 3, name);
        assert(line =~= mark + rest);
        if name.is_prefix_of(rest) {
            assert((mark + name).is_prefix_of(line)) by {
                assert((mark + name) =~= line.take((mark + name).len() as int));
            }
        }
        if (mark + name).is_prefix_of(line) {
            assert(name =~= rest.take(name.len() as int)) by {
                assert forall|k: int| 0 <= k < name.len() implies name[k] == rest[k] by {
                    assert((mark + name)[mark.len() + k] == line[mark.len() + k]);
                }
            }
        }
    } else if (mark + name).is_prefix_of(line) {
        assert(mark =~= line.take(mark.len() as int)) by {
            assert forall|k: int| 0 <= k < mark.len() implies mark[k] == line[k] by {
                assert((mark + name)[k] == line[k]);
            }
        }
    }
}

/// The failure to find a key is told by two fields.
#[verifier::rlimit(60)]
#[verifier::spinoff_prover]
proof fn lemma_says_no_key(line: Seq<u8>)
    ensures
        says(line, "ERROR verify.findkey"@) <==> status_fields(line) is Some
            && status_fields(line)->Some_0[0] == encode_utf8("ERROR"@)
            && status_fields(line)->Some_0.len() > 1 && status_fields(line)->Some_0[1]
            == encode_utf8("verify.findkey"@),
{
    lemma_status_names();
    let mark = encode_utf8("[GNUPG:] "@);
    let error = encode_utf8("ERROR"@);
    let detail = encode_utf8("verify.findkey"@);
    let space = seq![32u8];
    let whole = encode_utf8("ERROR verify.findkey"@);
    lemma_says(line, "ERROR"@);
    if status_fields(line) is Some {
        let rest = line.skip(mark.len() as int);
        assert(line =~= mark + rest);
        let fields = fields_of(rest, 3);
        let end = first_space(rest) as int;
        lemma_first_space(rest);
        lemma_first_field(rest, 3, error);
        assert(fields[0] =~= rest.take(end));
        if end < rest.len() {
            let second = rest.skip(end + 1);
            assert(fields =~= seq![rest.take(end)] + fields_of(second, 2));
            lemma_first_field(second, 2, detail);
            assert(fields[1] == fields_of(second, 2)[0]);
            if fields[0] == error && fields[1] == detail {
                assert(end == error.len());
                assert(rest =~= error + space + second);
                assert((mark + whole) =~= line.take((mark + whole).len() as int)) by {
                    assert(second.take(detail.len() as int) =~= detail);
                }
                if second.len() > detail.len() {
                    assert(line[(mark + whole).len() as int] == second[detail.len() as int]);
                }
            }
        }
        if says(line, "ERROR verify.findkey"@) {
            let head = mark + whole;
            assert forall|k: int| 0 <= k < head.len() implies head[k] == line[k] by {
                assert(head == line.take(head.len() as int));
            }
            assert((mark + error) =~= line.take((mark + error).len() as int)) by {
                assert forall|k: int| 0 <= k < (mark + error).len() implies (mark + error)[k]
                    == line[k] by {
                    assert((mark + error)[k] == head[k]);
                }
            }
            assert(head[(mark + error).len() as int] == 32);
            assert(says(line, "ERROR"@));
            assert(end == error.len());
            let second = rest.skip(end + 1);
            assert(second.take(detail.len() as int) =~= detail) by {
                assert forall|k: int| 0 <= k < detail.len() implies second[k] == detail[k] by {
                    assert(head[mark.len() + error.len() + 1 + k] == detail[k]);
                    assert(line[mark.len() + error.len() + 1 + k] == second[k]);
                }
            }
            if line.len() > head.len() {
                assert(second[detail.len() as int] == line[head.len() as int]);
            }
            lemma_first_field(second, 2, detail);
        }
    } else if says(line, "ERROR verify.findkey"@) {
        let head = mark + whole;
        assert(mark =~= line.take(mark.len() as int)) by {
            assert forall|k: int| 0 <= k < mark.len() implies mark[k] == line[k] by {
                assert(head == line.take(head.len() as int));
                assert(head[k] == line[k]);
            }
        }
    }
}

/// Whether a verdict is that of a line that says something.
spec fn is_verdict_of(
    line: Seq<u8>,
    allow_expired_keys: bool,
    verdict: Option<VerificationView>,
) -> bool {
    &&& verdict is Some <==> says_verdict(line)
    &&& verdict matches Some(view) ==> {
        &&& says(line, "GOODSIG"@) ==> view.status == SigStatus::Good
        &&& says(line, "EXPKEYSIG"@) ==> view.status == (if allow_expired_keys {
            SigStatus::Good
        } else {
            SigStatus::Bad
        })
        &&& says(line, "NO_PUBKEY"@) ==> view.status == SigStatus::Unknown
        &&& says(line, "BADSIG"@) ==> view.status == SigStatus::Bad
        &&& says(line, "ERROR verify.findkey"@) ==> view == (VerificationView {
            status: SigStatus::Unknown,
            key: None,
            display: None,
        })
    }
}

spec fn line_verdict(line: Seq<u8>, allow_expired_keys: bool) -> Option<VerificationView> {
    match status_fields(line) {
        Some(fields) => status_verdict(fields, allow_expired_keys),
        None => None,
    }
}

proof fn lemma_line_verdict(line: Seq<u8>, allow_expired_keys: bool)
    ensures
        is_verdict_of(line, allow_expired_keys, line_verdict(line, allow_expired_keys)),
        !says(line, "EXPKEYSIG"@) ==> line_verdict(line, true) == line_verdict(line, false),
        line_verdict(line, true) is Some <==> line_verdict(line, false) is Some,
{
    lemma_status_names();
    lemma_says(line, "GOODSIG"@);
    lemma_says(line, "EXPKEYSIG"@);
    lemma_says(line, "NO_PUBKEY"@);
    lemma_says(line, "BADSIG"@);
    lemma_says_no_key(line);
    let good = encode_utf8("GOODSIG"@);
    let expired = encode_utf8("EXPKEYSIG"@);
    let missing = encode_utf8("NO_PUBKEY"@);
    let bad = encode_utf8("BADSIG"@);
    let error = encode_utf8("ERROR"@);
    assert(good.len() == 7 && expired.len() == 9 && missing.len() == 9 && bad.len() == 6
        && error.len() == 5);
    assert(expired[0] == 69 && missing[0] == 78);
}

/// The first line that says something of the signature decides.
proof fn lemma_first_verdict(lines: Seq<Seq<u8>>, i: int, allow_expired_keys: bool)
    requires
        0 <= i < lines.len(),
        says_verdict(lines[i]),
        forall|j: int| 0 <= j < i ==> !says_verdict(#[trigger] lines[j]),
    ensures
        first_verdict(lines, allow_expired_keys) == line_verdict(lines[i], allow_expired_keys),
        line_verdict(lines[i], allow_expired_keys) is Some,
    decreases i,
{
    lemma_line_verdict(lines[0], allow_expired_keys);
    if i > 0 {
        let rest = lines.skip(1);
        assert(rest[i - 1] == lines[i]);
        assert forall|j: int| 0 <= j < i - 1 implies !says_verdict(#[trigger] rest[j]) by {
            assert(rest[j] == lines[j + 1]);
        }
        lemma_first_verdict(rest, i - 1, allow_expired_keys);
    }
}

proof fn lemma_no_first_verdict(lines: Seq<Seq<u8>>, allow_expired_keys: bool)
    requires
        forall|j: int| 0 <= j < lines.len() ==> !says_verdict(#[trigger] lines[j]),
    ensures
        first_verdict(lines, allow_expired_keys) is None,
    decreases lines.len(),
{
    if lines.len() > 0 {
        lemma_line_verdict(lines[0], allow_expired_keys);
        let rest = lines.skip(1);
        assert forall|j: int| 0 <= j < rest.len() implies !says_verdict(#[trigger] rest[j]) by {
            assert(rest[j] == lines[j + 1]);
        }
        lemma_no_first_verdict(rest, allow_expired_keys);
    }
}

/// The first line of the output that says something of the signature decides
/// whether it is good, whatever the other lines say. Only for a key that has
/// expired it matters whether such keys are allowed.
pub proof fn lemma_verdict(output: Seq<u8>, i: int, allow_expired_keys: bool)
    requires
        0 <= i < split_on(output, 10).len(),
        says_verdict(split_on(output, 10)[i]),
        forall|j: int| 0 <= j < i ==> !says_verdict(#[trigger] split_on(output, 10)[j]),
    ensures
        verify_outcome(output, allow_expired_keys) matches Some(Ok(_)),
        verify_outcome(output, allow_expired_keys) matches Some(Ok(view)) ==> {
            let line = split_on(output, 10)[i];
            &&& says(line, "GOODSIG"@) ==> view.status == SigStatus::Good
            &&& says(line, "EXPKEYSIG"@) ==> view.status == (if allow_expired_keys {
                SigStatus::Good
            } else {
                SigStatus::Bad
            })
            &&& says(line, "NO_PUBKEY"@) ==> view.status == SigStatus::Unknown
            &&& says(line, "BADSIG"@) ==> view.status == SigStatus::Bad
            &&& says(line, "ERROR verify.findkey"@) ==> view == (VerificationView {
                status: SigStatus::Unknown,
                key: None,
                display: None,
            })
        },
{
    let lines = split_on(output, 10);
    lemma_first_verdict(lines, i, allow_expired_keys);
    lemma_line_verdict(lines[i], allow_expired_keys);
}

/// The key and the owner are those of the line that decides, as far as they are
/// text. Neither depends on whether expired keys are allowed.
pub proof fn lemma_verdict_key(
    output: Seq<u8>,
    i: int,
    allow_expired_keys: bool,
    status: Seq<char>,
    key: Seq<u8>,
    owner: Seq<u8>,
)
    requires
        0 <= i < split_on(output, 10).len(),
        status == "GOODSIG"@ || status == "EXPKEYSIG"@ || status == "NO_PUBKEY"@ || status
            == "BADSIG"@,
        !key.contains(32),
        split_on(output, 10)[i] == status_line(status, key, owner),
        forall|j: int| 0 <= j < i ==> !says_verdict(#[trigger] split_on(output, 10)[j]),
    ensures
        verify_outcome(output, allow_expired_keys) matches Some(Ok(view)) && view.key
            == trimmed_text(key) && view.display == trimmed_text(owner),
{
    lemma_status_names();
    let lines = split_on(output, 10);
    let line = lines[i];
    let mark = encode_utf8("[GNUPG:] "@);
    let name = encode_utf8(status);
    let space = seq![32u8];
    let second = key + space + owner;
    let rest = name + space + second;
    assert(!name.contains(32));
    assert(line =~= mark + rest);
    assert(line.skip(mark.len() as int) =~= rest);
    assert(mark =~= line.take(mark.len() as int));
    assert((mark + name) =~= line.take((mark + name).len() as int));
    assert(line[(mark + name).len() as int] == 32);
    assert(says(line, status));
    let fields = fields_of(rest, 3);
    let end = first_space(rest) as int;
    lemma_first_space(rest);
    lemma_first_field(rest, 3, name);
    assert(name =~= rest.take(name.len() as int));
    assert(rest[name.len() as int] == 32);
    assert(fields[0] == name);
    assert(fields[0] =~= rest.take(end));
    assert(end == name.len());
    assert(rest.skip(end + 1) =~= second);
    let more = fields_of(second, 2);
    let key_end = first_space(second) as int;
    lemma_first_space(second);
    lemma_first_field(second, 2, key);
    assert(key =~= second.take(key.len() as int));
    assert(second[key.len() as int] == 32);
    assert(more[0] == key);
    assert(more[0] =~= second.take(key_end));
    assert(key_end == key.len());
    assert(second.skip(key_end + 1) =~= owner);
    assert(more =~= seq![key] + fields_of(owner, 1));
    assert(fields_of(owner, 1) =~= seq![owner]);
    assert(fields =~= seq![name, key, owner]);
    assert(status_fields(line) == Some(fields));
    lemma_first_verdict(lines, i, allow_expired_keys);
}

/// If no line says anything of the signature, the signature is invalid if some
/// line has another status than a general failure.
pub proof fn lemma_no_verdict(output: Seq<u8>, allow_expired_keys: bool)
    requires
        forall|j: int|
            0 <= j < split_on(output, 10).len() ==> !says_verdict(
                #[trigger] split_on(output, 10)[j],
            ),
    ensures
        verify_outcome(output, allow_expired_keys) == Some(
            Err::<VerificationView, SignError>(SignError::InvalidSignatureFormat),
        ) <==> exists|j: int|
            0 <= j < split_on(output, 10).len() && encode_utf8("[GNUPG:] "@).is_prefix_of(
                #[trigger] split_on(output, 10)[j],
            ) && !says(split_on(output, 10)[j], "FAILURE"@),
        verify_outcome(output, allow_expired_keys) is None || verify_outcome(
            output,
            allow_expired_keys,
        ) == Some(Err::<VerificationView, SignError>(SignError::InvalidSignatureFormat)),
{
    let lines = split_on(output, 10);
    lemma_no_first_verdict(lines, allow_expired_keys);
    lemma_status_names();
    assert forall|j: int| 0 <= j < lines.len() implies (is_other_status(#[trigger] lines[j])
        <==> encode_utf8("[GNUPG:] "@).is_prefix_of(lines[j]) && !says(
        lines[j],
        "FAILURE"@,
    )) by {
        lemma_says(lines[j], "FAILURE"@);
    }
}

/// Whether expired keys are allowed matters only if there is one: without a
/// line that says so, the output comes to the same either way.
pub proof fn lemma_expired_keys(output: Seq<u8>)
    requires
        forall|j: int|
            0 <= j < split_on(output, 10).len() ==> !says(
                #[trigger] split_on(output, 10)[j],
                "EXPKEYSIG"@,
            ),
    ensures
        verify_outcome(output, true) == verify_outcome(output, false),
{
    lemma_same_verdict(split_on(output, 10));
}

proof fn lemma_same_verdict(lines: Seq<Seq<u8>>)
    requires
        forall|j: int| 0 <= j < lines.len() ==> !says(#[trigger] lines[j], "EXPKEYSIG"@),
    ensures
        first_verdict(lines, true) == first_verdict(lines, false),
    decreases lines.len(),
{
    if lines.len() > 0 {
        lemma_line_verdict(lines[0], true);
        let rest = lines.skip(1);
        assert forall|j: int| 0 <= j < rest.len() implies !says(
            #[trigger] rest[j],
            "EXPKEYSIG"@,
        ) by {
            assert(rest[j] == lines[j + 1]);
        }
        lemma_same_verdict(rest);
    }
}

} // verus!
