//! What is said to the remote host and what is made of its answers.

use vstd::prelude::*;
use vstd::string::*;
use vstd::utf8::{decode_utf8, valid_utf8};
use crate::compress::{snappy_content, snappy_decode};
use crate::config::LOG_BLOCK_SIZE;
use crate::shell::{join_strings, joined, shell_escape, texts, unix_escaped};
use crate::text::{decimal, decimal_text, push_signed, signed_text};

verus! {

/// How the output of a remote command is wrapped.
#[derive(Clone, Copy, Debug, PartialEq, Eq, Structural)]
pub enum StreamDecoder {
    /// The bytes as they are.
    Raw,
    /// Snappy frames.
    Snappy,
}

/// What came back from one command run on the remote host.
pub struct ExecOutcome {
    /// Standard output, as it came over the wire.
    pub stdout: Vec<u8>,
    pub exit_status: i32,
    /// The signal that ended the command, if one did.
    pub exit_signal: Option<String>,
}

/// Why the output of a remote command cannot be used.
#[derive(Clone, Copy, Debug, PartialEq, Eq, Structural)]
pub enum ExecError {
    /// The output is not what the decoder expects.
    Decode,
    /// The command failed, with this status; 1 stands for a signal.
    RemoteError(i32),
    /// Text was expected and the output is not UTF-8.
    InvalidUtf8,
}

impl ExecError {
    /// What the error says.
    pub open spec fn text(self) -> Seq<char> {
        match self {
            ExecError::Decode => "remote output could not be decoded"@,
            ExecError::RemoteError(status) => "remote returned error "@ + signed_text(status as int),
            ExecError::InvalidUtf8 => "remote output is not valid UTF-8"@,
        }
    }

    pub fn message(&self) -> (r: String)
        ensures
            r@ == self.text(),
    {
        match self {
            ExecError::Decode => String::from_str("remote output could not be decoded"),
            ExecError::RemoteError(status) => {
                let mut s = String::from_str("remote returned error ");
                push_signed(&mut s, *status);
                s
            },
            ExecError::InvalidUtf8 => String::from_str("remote output is not valid UTF-8"),
        }
    }
}

/// The output of a command once unwrapped.
pub open spec fn decoded(stdout: Seq<u8>, decoder: StreamDecoder) -> Option<Seq<u8>> {
    match decoder {
        StreamDecoder::Raw => Some(stdout),
        StreamDecoder::Snappy => snappy_content(stdout),
    }
}

/// What a command yields: its unwrapped output when it ended by itself with
/// status 0. Output that cannot be unwrapped is reported first, then a
/// signal, then a status other than 0.
pub open spec fn outcome_data(
    stdout: Seq<u8>,
    exit_status: i32,
    signalled: bool,
    decoder: StreamDecoder,
) -> Result<Seq<u8>, ExecError> {
    match decoded(stdout, decoder) {
        None => Err(ExecError::Decode),
        Some(data) => if signalled {
            Err(ExecError::RemoteError(1))
        } else if exit_status != 0 {
            Err(ExecError::RemoteError(exit_status))
        } else {
            Ok(data)
        },
    }
}

/// What a command yields as text.
pub open spec fn outcome_text(stdout: Seq<u8>, exit_status: i32, signalled: bool) -> Result<
    Seq<char>,
    ExecError,
> {
    match outcome_data(stdout, exit_status, signalled, StreamDecoder::Raw) {
        Err(e) => Err(e),
        Ok(data) => if valid_utf8(data) {
            Ok(decode_utf8(data))
        } else {
            Err(ExecError::InvalidUtf8)
        },
    }
}

/// Calls `String::from_utf8`, which accepts exactly the valid UTF-8
/// encodings and returns the characters they encode.
#[verifier::external_body]
pub(crate) fn string_from_utf8(bytes: Vec<u8>) -> (r: Option<String>)
    ensures
        r is Some <==> valid_utf8(bytes@),
        r is Some ==> r.unwrap()@ == decode_utf8(bytes@),
{
    String::from_utf8(bytes).ok()
}

/// Takes the bytes that a remote command produced.
pub fn exec_oneshot_bin_in(outcome: ExecOutcome, decoder: StreamDecoder) -> (r: Result<
    Vec<u8>,
    ExecError,
>)
    ensures
        match r {
            Ok(data) => outcome_data(
                outcome.stdout@,
                outcome.exit_status,
                outcome.exit_signal is Some,
                decoder,
            ) == Ok::<Seq<u8>, ExecError>(data@),
            Err(e) => outcome_data(
                outcome.stdout@,
                outcome.exit_status,
                outcome.exit_signal is Some,
                decoder,
            ) == Err::<Seq<u8>, ExecError>(e),
        },
{
    let data = match decoder {
        StreamDecoder::Raw => outcome.stdout,
        StreamDecoder::Snappy => {
            match snappy_decode(outcome.stdout.as_slice()) {
                Ok(v) => v,
                Err(_) => {
                    return Err(ExecError::Decode);
                },
            }
        },
    };
    if outcome.exit_signal.is_some() {
        return Err(ExecError::RemoteError(1));
    }
    if outcome.exit_status != 0 {
        return Err(ExecError::RemoteError(outcome.exit_status));
    }
    Ok(data)
}

/// Takes the text that a remote command produced.
pub fn exec_oneshot_in(outcome: ExecOutcome) -> (r: Result<String, ExecError>)
    ensures
        match r {
            Ok(text) => outcome_text(
                outcome.stdout@,
                outcome.exit_status,
                outcome.exit_signal is Some,
            ) == Ok::<Seq<char>, ExecError>(text@),
            Err(e) => outcome_text(outcome.stdout@, outcome.exit_status, outcome.exit_signal is Some)
                == Err::<Seq<char>, ExecError>(e),
        },
{
    match exec_oneshot_bin_in(outcome, StreamDecoder::Raw) {
        Err(e) => Err(e),
        Ok(data) => match string_from_utf8(data) {
            Some(text) => Ok(text),
            None => Err(ExecError::InvalidUtf8),
        },
    }
}

/// The command that names the remote machine and system.
pub open spec fn uname_command() -> Seq<char> {
    "uname -m; uname -s"@
}

/// The file name of the helper on the remote host: it carries the store's
/// identifier and the digest of the helper, so that stores do not collide
/// and a changed helper is installed anew.
pub open spec fn helper_name(instance_id: Seq<char>, digest_hex: Seq<char>) -> Seq<char> {
    "transmit."@ + instance_id + "."@ + digest_hex
}

/// The script that tells whether the helper has to be installed: it prints
/// nothing when the helper is in place with the right digest, and the
/// directory to install it in otherwise.
pub open spec fn install_probe(name: Seq<char>, digest_hex: Seq<char>) -> Seq<char> {
    "\nif [ -f ~/.bsync/"@ + unix_escaped(name) + " ]; then\n  echo "@ + unix_escaped(digest_hex)
        + " ~/.bsync/"@ + unix_escaped(name)
        + " | sha256sum -c - > /dev/null\n  if [ $? -eq 0 ]; then\n    exit 0\n  fi\nfi\nmkdir -p ~/.bsync\necho -n \"$HOME/.bsync\"\n"@
}

/// Where the helper is installed, given the directory that the probe printed.
pub open spec fn upload_path(directory: Seq<char>, name: Seq<char>) -> Seq<char> {
    directory + "/"@ + name
}

/// The command that prints the size of the image, be it a block device or
/// a regular file.
pub open spec fn size_command(image: Seq<char>) -> Seq<char> {
    "blockdev --getsize64 "@ + unix_escaped(image) + " || stat -c \"%s\" "@ + unix_escaped(image)
}

/// The start of every helper command: the helper, the image, the block size.
pub open spec fn helper_prefix(name: Seq<char>, image: Seq<char>) -> Seq<char> {
    "~/.bsync/"@ + unix_escaped(name) + " "@ + unix_escaped(image) + " "@ + decimal_text(
        LOG_BLOCK_SIZE as nat,
    )
}

/// The command that prints the digests of `count` blocks from `offset` on.
pub open spec fn hash_command(name: Seq<char>, image: Seq<char>, offset: u64, count: u64) -> Seq<char> {
    helper_prefix(name, image) + " hash "@ + decimal_text(offset as nat) + " "@ + decimal_text(
        count as nat,
    )
}

/// The offsets in decimal.
pub open spec fn offset_texts(offsets: Seq<u64>) -> Seq<Seq<char>> {
    Seq::new(offsets.len(), |i: int| decimal_text(offsets[i] as nat))
}

/// The command that prints the blocks at the given offsets.
pub open spec fn dump_command(name: Seq<char>, image: Seq<char>, offsets: Seq<u64>) -> Seq<char> {
    helper_prefix(name, image) + " dump "@ + joined(offset_texts(offsets), ","@)
}

pub fn make_uname_command() -> (r: String)
    ensures
        r@ == uname_command(),
{
    String::from_str("uname -m; uname -s")
}

pub fn make_helper_name(instance_id: &str, digest_hex: &str) -> (r: String)
    ensures
        r@ == helper_name(instance_id@, digest_hex@),
{
    let mut s = String::from_str("transmit.");
    s.append(instance_id);
    s.append(".");
    s.append(digest_hex);
    s
}

pub fn make_install_probe(name: &str, digest_hex: &str) -> (r: String)
    ensures
        r@ == install_probe(name@, digest_hex@),
{
    let file = shell_escape(name);
    let digest = shell_escape(digest_hex);
    let mut s = String::from_str("\nif [ -f ~/.bsync/");
    s.append(file.as_str());
    s.append(" ]; then\n  echo ");
    s.append(digest.as_str());
    s.append(" ~/.bsync/");
    s.append(file.as_str());
    s.append(
        " | sha256sum -c - > /dev/null\n  if [ $? -eq 0 ]; then\n    exit 0\n  fi\nfi\nmkdir -p ~/.bsync\necho -n \"$HOME/.bsync\"\n",
    );
    s
}

pub fn make_upload_path(directory: &str, name: &str) -> (r: String)
    ensures
        r@ == upload_path(directory@, name@),
{
    let mut s = String::from_str(directory);
    s.append("/");
    s.append(name);
    s
}

pub fn make_size_command(image: &str) -> (r: String)
    ensures
        r@ == size_command(image@),
{
    let escaped = shell_escape(image);
    let mut s = String::from_str("blockdev --getsize64 ");
    s.append(escaped.as_str());
    s.append(" || stat -c \"%s\" ");
    s.append(escaped.as_str());
    s
}

fn make_helper_prefix(name: &str, image: &str) -> (r: String)
    ensures
        r@ == helper_prefix(name@, image@),
{
    let file = shell_escape(name);
    let escaped = shell_escape(image);
    let size = decimal(LOG_BLOCK_SIZE as u64);
    let mut s = String::from_str("~/.bsync/");
    s.append(file.as_str());
    s.append(" ");
    s.append(escaped.as_str());
    s.append(" ");
    s.append(size.as_str());
    s
}

pub fn make_hash_command(name: &str, image: &str, offset: u64, count: u64) -> (r: String)
    ensures
        r@ == hash_command(name@, image@, offset, count),
{
    let mut s = make_helper_prefix(name, image);
    let first = decimal(offset);
    let number = decimal(count);
    s.append(" hash ");
    s.append(first.as_str());
    s.append(" ");
    s.append(number.as_str());
    s
}

pub fn make_dump_command(name: &str, image: &str, offsets: &Vec<u64>) -> (r: String)
    ensures
        r@ == dump_command(name@, image@, offsets@),
{
    let mut parts: Vec<String> = Vec::new();
    let mut i: usize = 0;
    while i < offsets.len()
        invariant
            i <= offsets@.len(),
            parts@.len() == i,
            texts(parts@) == offset_texts(offsets@.take(i as int)),
        decreases offsets.len() - i,
    {
        let ghost before = parts@;
        let text = decimal(offsets[i]);
        parts.push(text);
        proof {
            let want = offset_texts(offsets@.take(i + 1));
            assert(texts(parts@).len() == want.len());
            assert forall|j: int| 0 <= j < want.len() implies texts(parts@)[j] == want[j] by {
                if j < i {
                    assert(parts@[j] == before[j]);
                    assert(texts(before)[j] == offset_texts(offsets@.take(i as int))[j]);
                }
            }
            assert(texts(parts@) =~= want);
        }
        i += 1;
    }
    assert(offsets@.take(i as int) =~= offsets@);
    let list = join_strings(&parts, ",");
    let mut s = make_helper_prefix(name, image);
    s.append(" dump ");
    s.append(list.as_str());
    s
}

} // verus!
