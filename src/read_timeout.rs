//! Reading delimited records from a source whose requests for data may time
//! out. The source itself is driven by the caller: each request's outcome is
//! handed to `read_until_timeout`, which copies what belongs to the record
//! and says how many bytes to consume and whether the record is finished.

use vstd::prelude::*;

verus! {

/// Relies on memchr::memchr: the index of the first occurrence of `needle`
/// in `haystack`, or `None` when it does not occur.
pub assume_specification[ memchr::memchr ](needle: u8, haystack: &[u8]) -> (r: Option<usize>)
    ensures
        match r {
            Some(i) => i < haystack@.len() && haystack@[i as int] == needle && forall|j: int|
                0 <= j < i ==> haystack@[j] != needle,
            None => forall|j: int| 0 <= j < haystack@.len() ==> haystack@[j] != needle,
        },
;

/// The outcome of one request for data.
pub enum Fill<'a> {
    /// The bytes now available; none at the end of the stream.
    Ready(&'a [u8]),
    /// The request was interrupted and may be retried.
    Interrupted,
    /// No data came within the time limit, and the stream is still open.
    TimedOut,
}

/// What the reader does after a request.
#[derive(Clone, Copy, Debug, PartialEq, Eq, Structural)]
pub enum Step {
    /// Make the same request again.
    Retry,
    /// The record is not complete yet: request more.
    More,
    /// Stop: the record is complete, or the round brought nothing.
    Done { timed_out: bool },
}

/// The decision for one request: how many bytes to consume from the
/// source, the bytes of the record read so far, and what comes next.
#[derive(Clone, Copy, Debug, PartialEq, Eq, Structural)]
pub struct Round {
    pub used: usize,
    pub read: usize,
    pub step: Step,
}

/// The bytes a request made available; a timeout counts as none.
pub open spec fn available(fill: Fill) -> Seq<u8> {
    match fill {
        Fill::Ready(b) => b@,
        _ => seq![],
    }
}

/// How many bytes of `s` belong to the current record: through the first
/// `delim`, or all of them when there is none.
pub open spec fn through_delim(s: Seq<u8>, delim: u8) -> int
    decreases s.len(),
{
    if s.len() == 0 {
        0
    } else if s[0] == delim {
        1
    } else {
        1 + through_delim(s.drop_first(), delim)
    }
}

/// The round that the outcome `fill` leads to, with `read` bytes of the
/// record read before it.
pub open spec fn next_round(read: usize, delim: u8, fill: Fill) -> Round {
    match fill {
        Fill::Interrupted => Round { used: 0, read, step: Step::Retry },
        _ => {
            let avail = available(fill);
            let n = through_delim(avail, delim);
            Round {
                used: n as usize,
                read: (read + n) as usize,
                step: if avail.contains(delim) || n == 0 {
                    Step::Done { timed_out: fill is TimedOut }
                } else {
                    Step::More
                },
            }
        },
    }
}

proof fn lemma_through_delim(s: Seq<u8>, delim: u8, i: int)
    requires
        0 <= i <= s.len(),
        i < s.len() ==> s[i] == delim,
        forall|j: int| 0 <= j < i ==> s[j] != delim,
    ensures
        through_delim(s, delim) == if i < s.len() {
            i + 1
        } else {
            i
        },
        s.contains(delim) <==> i < s.len(),
    decreases s.len(),
{
    if s.len() > 0 && i > 0 {
        let t = s.drop_first();
        assert forall|j: int| 0 <= j < i - 1 implies t[j] != delim by {
            assert(t[j] == s[j + 1]);
        }
        lemma_through_delim(t, delim, i - 1);
        if t.contains(delim) {
            let k = choose|k: int| 0 <= k < t.len() && t[k] == delim;
            assert(s[k + 1] == delim);
        }
        if i < s.len() {
            assert(t[i - 1] == s[i]);
        }
    }
    if i < s.len() {
        assert(s[i] == delim);
    } else {
        assert forall|k: int| 0 <= k < s.len() implies s[k] != delim by {}
    }
}

/// One request's worth of reading a record that ends with `delim`, `read`
/// bytes of which came before. Data up to and including the first `delim`
/// is appended to `buf`; a retry consumes nothing; the record is done when
/// the delimiter came, or when the request brought nothing (the end of the
/// stream, or a timeout, which the result reports).
pub fn read_until_timeout(read: usize, delim: u8, buf: &mut Vec<u8>, fill: Fill) -> (r: Round)
    requires
        read + available(fill).len() <= usize::MAX,
    ensures
        r == next_round(read, delim, fill),
        final(buf)@ == old(buf)@ + available(fill).take(r.used as int),
{
    match fill {
        Fill::Interrupted => {
            assert(old(buf)@ + available(fill).take(0) =~= old(buf)@);
            Round { used: 0, read, step: Step::Retry }
        },
        _ => {
            let avail: &[u8] = match fill {
                Fill::Ready(b) => b,
                _ => &[],
            };
            assert(avail@ =~= available(fill));
            let found = memchr::memchr(delim, avail);
            let n: usize = match found {
                Some(i) => i + 1,
                None => avail.len(),
            };
            proof {
                match found {
                    Some(i) => lemma_through_delim(avail@, delim, i as int),
                    None => lemma_through_delim(avail@, delim, avail@.len() as int),
                }
            }
            let ghost start = buf@;
            let mut k: usize = 0;
            while k < n
                invariant
                    k <= n <= avail@.len(),
                    buf@ == start + avail@.take(k as int),
                decreases n - k,
            {
                buf.push(avail[k]);
                k = k + 1;
                assert(buf@ =~= start + avail@.take(k as int));
            }
            let done = found.is_some() || n == 0;
            let timed_out = match fill {
                Fill::TimedOut => true,
                _ => false,
            };
            Round { used: n, read: read + n, step: if done { Step::Done { timed_out } } else { Step::More } }
        },
    }
}

/// The byte that ends a line.
pub const NEWLINE: u8 = 10;

/// `read_until_timeout` for records that end with a newline.
pub fn read_line_timeout(read: usize, buf: &mut Vec<u8>, fill: Fill) -> (r: Round)
    requires
        read + available(fill).len() <= usize::MAX,
    ensures
        r == next_round(read, NEWLINE, fill),
        final(buf)@ == old(buf)@ + available(fill).take(r.used as int),
{
    read_until_timeout(read, NEWLINE, buf, fill)
}

} // verus!
