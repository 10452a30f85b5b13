//! The decisions of the loop that reads records, styles them and writes them
//! out: when to stop, when to poll again, and what to write.

use vstd::prelude::*;
use vstd::utf8::*;

use crate::color::same_text;
use crate::colorize::{colorize, styled, ColorizeError, Config, Fault};

verus! {

/// What the loop does after a line read.
#[derive(Clone, Copy, Debug, PartialEq, Eq, Structural)]
pub enum Next {
    /// The stream is exhausted.
    Stop,
    /// Nothing came yet: read again.
    Poll,
    /// A record was read: style and write it.
    Emit,
}

/// Relies on std::str::from_utf8, which succeeds exactly on valid UTF-8.
#[verifier::external_body]
fn is_utf8(bytes: &[u8]) -> (r: bool)
    ensures
        r == valid_utf8(bytes@),
{
    std::str::from_utf8(bytes).is_ok()
}

/// The decision after a line read that brought `read` bytes and reported
/// `timed_out`, with `pending` the bytes of the record gathered so far.
pub open spec fn next_after_read(read: usize, timed_out: bool, tailing: bool, pending: Seq<u8>) -> Next {
    if read == 0 && !timed_out {
        if pending.len() > 0 {
            Next::Emit
        } else if tailing {
            Next::Poll
        } else {
            Next::Stop
        }
    } else if read == 0 || (timed_out && !valid_utf8(pending)) {
        Next::Poll
    } else {
        Next::Emit
    }
}

/// The decision after a line read that brought `read` bytes and reported
/// `timed_out`, with `pending` the bytes of the record gathered so far.
/// Nothing read without a timeout is the end of the stream: what is pending
/// is written out, and then the loop stops, unless it is tailing a live
/// process. Nothing read after a timeout means polling again. A record cut
/// short by a timeout is written out as it is, unless it is not valid UTF-8
/// (it may end inside a character): then the loop keeps it and reads on.
pub fn after_read(read: usize, timed_out: bool, tailing: bool, pending: &[u8]) -> (r: Next)
    ensures
        r == next_after_read(read, timed_out, tailing, pending@),
{
    if read == 0 && !timed_out {
        if pending.len() > 0 {
            Next::Emit
        } else if tailing {
            Next::Poll
        } else {
            Next::Stop
        }
    } else if read == 0 || (timed_out && !is_utf8(pending)) {
        Next::Poll
    } else {
        Next::Emit
    }
}

/// Whether to color, given the mode's name and whether the output is a
/// terminal: `auto` follows the terminal, `disable` turns coloring off, and
/// any other mode (`always`) turns it on.
pub fn color_enabled(mode: &str, is_tty: bool) -> (r: bool)
    ensures
        r == if mode@ == "auto"@ {
            is_tty
        } else {
            mode@ != "disable"@
        },
{
    if same_text(mode, "auto") {
        is_tty
    } else {
        !same_text(mode, "disable")
    }
}

/// Why a record could not be written.
#[derive(Debug)]
pub enum RecordError {
    /// The record's bytes are not valid UTF-8.
    InvalidUtf8,
    /// Styling the record failed.
    Colorize(ColorizeError),
}

/// Relies on String::from_utf8, which succeeds exactly on valid UTF-8 and
/// then keeps the bytes as they are.
#[verifier::external_body]
fn utf8_string(bytes: Vec<u8>) -> (r: Option<String>)
    ensures
        r is Some <==> valid_utf8(bytes@),
        r matches Some(s) ==> encode_utf8(s@) == bytes@,
{
    String::from_utf8(bytes).ok()
}

/// The text to write for the record `buf`: the record as it is when coloring
/// is off, else the record styled under `config`, with the index of the
/// rule that matched.
pub fn style_record(buf: Vec<u8>, use_color: bool, config: &Config) -> (r: Result<
    (String, Option<usize>),
    RecordError,
>)
    ensures
        r matches Err(RecordError::InvalidUtf8) <==> !valid_utf8(buf@),
        valid_utf8(buf@) && !use_color ==> (r matches Ok((out, idx)) && encode_utf8(out@) == buf@
            && idx is None),
        valid_utf8(buf@) && use_color ==> match r {
            Ok((out, idx)) => styled(decode_utf8(buf@), config.lines@) == Ok::<
                (Seq<u8>, Option<usize>),
                Fault,
            >((encode_utf8(out@), idx)),
            Err(RecordError::Colorize(e)) => styled(decode_utf8(buf@), config.lines@) == Err::<
                (Seq<u8>, Option<usize>),
                Fault,
            >(e@),
            Err(RecordError::InvalidUtf8) => false,
        },
{
    let ghost bytes = buf@;
    match utf8_string(buf) {
        None => Err(RecordError::InvalidUtf8),
        Some(line) => {
            proof {
                encode_utf8_decode_utf8(line@);
            }
            if !use_color {
                return Ok((line, None));
            }
            match colorize(line, config) {
                Ok(styled_line) => Ok(styled_line),
                Err(e) => Err(RecordError::Colorize(e)),
            }
        },
    }
}

} // verus!
