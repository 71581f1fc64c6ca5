//! The decisions of a refresh: reading subprocess pipes, interpreting Git and
//! Herdr output, publishing tokens, and collecting identity hints.
use vstd::prelude::*;

use crate::text::{chars_of, string_from_chars, trim, trim_chars};

verus! {

#[verifier::external_type_specification]
#[verifier::external_body]
pub struct ExIoError(std::io::Error);

/// How many reads one pass over a pipe makes at most.
pub const DRAIN_READS: usize = 16;

/// The size of the buffer that each read fills.
pub const DRAIN_CHUNK: usize = 8192;

/// What a read from a non-blocking pipe gave.
#[derive(Clone, Copy, Debug, PartialEq, Eq)]
pub enum ReadResult {
    /// This many bytes; zero at the end of the stream.
    Read(usize),
    /// Nothing available yet.
    WouldBlock,
    /// Interrupted by a signal before anything was read.
    Interrupted,
    /// Any other failure.
    Failed,
}

/// What a pass over a pipe does after a read.
#[derive(Clone, Copy, Debug, PartialEq, Eq)]
pub enum DrainAction {
    /// Stop the pass; `true` where the stream has ended.
    Stop(bool),
    /// Keep this many bytes of the buffer and read again.
    Keep(usize),
    /// Read again.
    Retry,
    /// Stop the pass with the read's error.
    Fail,
}

/// What a pass does after a read: the end of the stream or a pipe with
/// nothing ready stops it, bytes are kept, an interrupted read is retried,
/// and any other failure ends it with that error.
pub open spec fn drain_action_spec(r: ReadResult) -> DrainAction {
    match r {
        ReadResult::Read(0) => DrainAction::Stop(true),
        ReadResult::Read(n) => DrainAction::Keep(n),
        ReadResult::WouldBlock => DrainAction::Stop(false),
        ReadResult::Interrupted => DrainAction::Retry,
        ReadResult::Failed => DrainAction::Fail,
    }
}

/// What a pass over a pipe does after a read, as [`drain_action_spec`] says.
pub fn drain_action(r: ReadResult) -> (a: DrainAction)
    ensures
        a == drain_action_spec(r),
{
    match r {
        ReadResult::Read(0) => DrainAction::Stop(true),
        ReadResult::Read(n) => DrainAction::Keep(n),
        ReadResult::WouldBlock => DrainAction::Stop(false),
        ReadResult::Interrupted => DrainAction::Retry,
        ReadResult::Failed => DrainAction::Fail,
    }
}

/// Reads from `pipe` into `buffer` with `std::io::Read::read`. Its
/// documentation promises a count no larger than the buffer; what was read
/// is not stated. The buffer keeps its length.
#[verifier::external_body]
fn read_chunk<R: std::io::Read>(pipe: &mut R, buffer: &mut Vec<u8>) -> (r: Result<
    usize,
    std::io::Error,
>)
    ensures
        final(buffer)@.len() == old(buffer)@.len(),
        r matches Ok(n) ==> n <= old(buffer)@.len(),
{
    pipe.read(buffer.as_mut_slice())
}

/// Tells `std::io::ErrorKind::WouldBlock` and `Interrupted` from the other
/// kinds of an I/O error (`std::io::Error::kind`).
#[verifier::external_body]
fn read_failure(error: &std::io::Error) -> (r: ReadResult)
    ensures
        r is WouldBlock || r is Interrupted || r is Failed,
{
    match error.kind() {
        std::io::ErrorKind::WouldBlock => ReadResult::WouldBlock,
        std::io::ErrorKind::Interrupted => ReadResult::Interrupted,
        _ => ReadResult::Failed,
    }
}

/// What a pass over a pipe does after one read.
#[derive(Clone, Copy, Debug, PartialEq, Eq)]
pub enum DrainStep {
    /// The pass ends with `Ok`: `true` where the stream has ended.
    Finished(bool),
    /// The pass ends with the read's error.
    Failed,
    /// The pass reads again.
    Again,
}

/// What a pass does after a read, `last` where it was the pass's last
/// allowed read: it ends where [`drain_action_spec`] stops or fails, and
/// otherwise reads again, unless that read was the last, which ends the
/// pass with the stream still open.
pub open spec fn drain_step_spec(r: ReadResult, last: bool) -> DrainStep {
    match drain_action_spec(r) {
        DrainAction::Stop(closed) => DrainStep::Finished(closed),
        DrainAction::Fail => DrainStep::Failed,
        _ => if last {
            DrainStep::Finished(false)
        } else {
            DrainStep::Again
        },
    }
}

/// The bytes that a read hands over: the first `n` of the buffer it filled
/// for a read of `n` bytes, none for any other outcome.
pub open spec fn read_bytes(r: ReadResult, buffer: Seq<u8>) -> Seq<u8> {
    match r {
        ReadResult::Read(n) => buffer.take(n as int),
        _ => Seq::empty(),
    }
}

/// Takes one read of a pass: appends the bytes it handed over to `bytes`
/// and says what the pass does next, as [`drain_step_spec`] says.
pub fn drain_step(read: ReadResult, buffer: &[u8], last: bool, bytes: &mut Vec<u8>) -> (step:
    DrainStep)
    requires
        read matches ReadResult::Read(n) ==> n <= buffer@.len(),
    ensures
        final(bytes)@ == old(bytes)@ + read_bytes(read, buffer@),
        step == drain_step_spec(read, last),
{
    let ghost before = bytes@;
    match drain_action(read) {
        DrainAction::Stop(closed) => {
            proof {
                assert(bytes@ =~= before + read_bytes(read, buffer@));
            }
            DrainStep::Finished(closed)
        },
        DrainAction::Fail => {
            proof {
                assert(bytes@ =~= before + read_bytes(read, buffer@));
            }
            DrainStep::Failed
        },
        DrainAction::Retry => {
            proof {
                assert(bytes@ =~= before + read_bytes(read, buffer@));
            }
            if last {
                DrainStep::Finished(false)
            } else {
                DrainStep::Again
            }
        },
        DrainAction::Keep(n) => {
            let mut k: usize = 0;
            while k < n
                invariant
                    k <= n <= buffer@.len(),
                    bytes@ == before + buffer@.take(k as int),
                decreases n - k,
            {
                bytes.push(buffer[k]);
                assert(bytes@ =~= before + buffer@.take(k + 1));
                k = k + 1;
            }
            if last {
                DrainStep::Finished(false)
            } else {
                DrainStep::Again
            }
        },
    }
}

/// The bytes that the reads of a pass handed over, in order.
pub open spec fn pass_bytes(reads: Seq<(ReadResult, Seq<u8>)>) -> Seq<u8>
    decreases reads.len(),
{
    if reads.len() == 0 {
        Seq::empty()
    } else {
        pass_bytes(reads.drop_last()) + read_bytes(reads.last().0, reads.last().1)
    }
}

/// What the pass does after its read `i`.
pub open spec fn step_at(reads: Seq<(ReadResult, Seq<u8>)>, i: int) -> DrainStep {
    drain_step_spec(reads[i].0, i == DRAIN_READS - 1)
}

/// Whether `reads` (each read's outcome and the buffer it filled) is a
/// whole pass that ends with `end`: at most [`DRAIN_READS`] reads into
/// buffers of [`DRAIN_CHUNK`] bytes, each read after one that reads again,
/// the last ending the pass.
pub open spec fn whole_pass(reads: Seq<(ReadResult, Seq<u8>)>, end: DrainStep) -> bool {
    &&& 0 < reads.len() <= DRAIN_READS
    &&& forall|i: int|
        0 <= i < reads.len() ==> (#[trigger] reads[i]).1.len() == DRAIN_CHUNK && (reads[i].0 matches ReadResult::Read(
            n,
        ) ==> n <= DRAIN_CHUNK)
    &&& forall|i: int| 0 <= i < reads.len() - 1 ==> #[trigger] step_at(reads, i) == DrainStep::Again
    &&& step_at(reads, reads.len() - 1) == end
}

/// How a pass ended, by what it returned.
pub open spec fn drain_end(r: Result<bool, std::io::Error>) -> DrainStep {
    match r {
        Ok(closed) => DrainStep::Finished(closed),
        Err(_) => DrainStep::Failed,
    }
}

/// Reads what a non-blocking pipe has ready into `bytes`, in at most
/// [`DRAIN_READS`] reads so that a pipe that never runs dry cannot hold the
/// caller: each read is taken by [`drain_step`], so that `bytes` gets what
/// the reads handed over, in order, and the pass ends with `Ok(true)` once
/// the stream has ended, `Ok(false)` where nothing is ready or after the
/// last read, and the error of a read that failed otherwise. What each read
/// gives is up to the pipe.
pub fn drain<R: std::io::Read>(pipe: &mut R, bytes: &mut Vec<u8>) -> (r: Result<
    bool,
    std::io::Error,
>)
    ensures
        exists|reads: Seq<(ReadResult, Seq<u8>)>|
            #[trigger] whole_pass(reads, drain_end(r)) && final(bytes)@ == old(bytes)@
                + pass_bytes(reads),
        final(bytes)@.len() <= old(bytes)@.len() + DRAIN_READS * DRAIN_CHUNK,
{
    let mut buffer: Vec<u8> = Vec::new();
    let mut b: usize = 0;
    while b < DRAIN_CHUNK
        invariant
            b <= DRAIN_CHUNK,
            buffer@.len() == b,
        decreases DRAIN_CHUNK - b,
    {
        buffer.push(0);
        b = b + 1;
    }
    let ghost start = bytes@;
    let ghost mut reads: Seq<(ReadResult, Seq<u8>)> = Seq::empty();
    let mut pass: usize = 0;
    while pass < DRAIN_READS
        invariant
            pass <= DRAIN_READS,
            buffer@.len() == DRAIN_CHUNK,
            start == old(bytes)@,
            reads.len() == pass,
            bytes@ == start + pass_bytes(reads),
            bytes@.len() <= start.len() + pass * DRAIN_CHUNK,
            forall|i: int|
                0 <= i < reads.len() ==> (#[trigger] reads[i]).1.len() == DRAIN_CHUNK && (
                reads[i].0 matches ReadResult::Read(n) ==> n <= DRAIN_CHUNK),
            forall|i: int| 0 <= i < reads.len() ==> #[trigger] step_at(reads, i) == DrainStep::Again,
        decreases DRAIN_READS - pass,
    {
        let outcome = read_chunk(pipe, &mut buffer);
        let result = match &outcome {
            Ok(n) => ReadResult::Read(*n),
            Err(e) => read_failure(e),
        };
        let ghost before = bytes@;
        let ghost next = reads.push((result, buffer@));
        let step = drain_step(result, buffer.as_slice(), pass == DRAIN_READS - 1, bytes);
        proof {
            assert(next.drop_last() =~= reads);
            assert(next[pass as int] == (result, buffer@));
            assert forall|i: int| 0 <= i < reads.len() implies #[trigger] next[i] == reads[i] by {}
            assert(step_at(next, pass as int) == step);
            assert forall|i: int| 0 <= i < next.len() - 1 implies #[trigger] step_at(next, i)
                == DrainStep::Again by {
                assert(next[i] == reads[i]);
                assert(step_at(reads, i) == DrainStep::Again);
            }
            assert forall|i: int|
                0 <= i < next.len() implies (#[trigger] next[i]).1.len() == DRAIN_CHUNK && (
                next[i].0 matches ReadResult::Read(n) ==> n <= DRAIN_CHUNK) by {
                if i < reads.len() {
                    assert(next[i] == reads[i]);
                }
            }
            assert(read_bytes(result, buffer@).len() <= DRAIN_CHUNK);
            assert(bytes@.len() <= start.len() + pass * DRAIN_CHUNK + DRAIN_CHUNK) by (
            nonlinear_arith)
                requires
                    bytes@.len() == before.len() + read_bytes(result, buffer@).len(),
                    read_bytes(result, buffer@).len() <= DRAIN_CHUNK,
                    before.len() <= start.len() + pass * DRAIN_CHUNK,
            ;
            assert(bytes@ =~= start + pass_bytes(next));
        }
        match step {
            DrainStep::Finished(closed) => {
                proof {
                    assert(whole_pass(next, drain_end(Ok::<bool, std::io::Error>(closed))));
                }
                return Ok(closed);
            },
            DrainStep::Failed => {
                return match outcome {
                    Err(e) => {
                        proof {
                            assert(whole_pass(next, drain_end(Err::<bool, std::io::Error>(e))));
                        }
                        Err(e)
                    },
                    Ok(_) => {
                        proof {
                            assert(false);
                        }
                        Ok(false)
                    },
                };
            },
            DrainStep::Again => {},
        }
        proof {
            reads = next;
        }
        pass = pass + 1;
    }
    proof {
        assert(step_at(reads, DRAIN_READS - 1) == DrainStep::Again);
        assert(false);
    }
    Ok(false)
}

/// What waiting for a subprocess does after one round of reading its pipes.
#[derive(Clone, Copy, Debug, PartialEq, Eq)]
pub enum PollDecision {
    /// The process has exited and both pipes are closed.
    Finish,
    /// The deadline has passed first.
    TimedOut,
    /// Sleep a little and read again.
    Wait,
}

/// The decision after a round: finished once the process has exited and
/// both pipes are closed, else timed out once the deadline has passed.
pub open spec fn poll_decision_spec(
    stdout_closed: bool,
    stderr_closed: bool,
    exited: bool,
    deadline_passed: bool,
) -> PollDecision {
    if exited && stdout_closed && stderr_closed {
        PollDecision::Finish
    } else if deadline_passed {
        PollDecision::TimedOut
    } else {
        PollDecision::Wait
    }
}

/// The decision after a round of reading, as [`poll_decision_spec`] says.
pub fn poll_decision(stdout_closed: bool, stderr_closed: bool, exited: bool, deadline_passed: bool) -> (d: PollDecision)
    ensures
        d == poll_decision_spec(stdout_closed, stderr_closed, exited, deadline_passed),
{
    if exited && stdout_closed && stderr_closed {
        PollDecision::Finish
    } else if deadline_passed {
        PollDecision::TimedOut
    } else {
        PollDecision::Wait
    }
}

/// The character of a decimal digit.
pub open spec fn digit_char(d: int) -> char {
    if d == 0 {
        '0'
    } else if d == 1 {
        '1'
    } else if d == 2 {
        '2'
    } else if d == 3 {
        '3'
    } else if d == 4 {
        '4'
    } else if d == 5 {
        '5'
    } else if d == 6 {
        '6'
    } else if d == 7 {
        '7'
    } else if d == 8 {
        '8'
    } else {
        '9'
    }
}

/// The decimal numeral of `n`, without leading zeros.
pub open spec fn decimal(n: nat) -> Seq<char>
    decreases n,
{
    if n < 10 {
        seq![digit_char(n as int)]
    } else {
        decimal(n / 10).push(digit_char((n % 10) as int))
    }
}

fn digit(d: u64) -> (c: char)
    requires
        d < 10,
    ensures
        c == digit_char(d as int),
{
    if d == 0 {
        '0'
    } else if d == 1 {
        '1'
    } else if d == 2 {
        '2'
    } else if d == 3 {
        '3'
    } else if d == 4 {
        '4'
    } else if d == 5 {
        '5'
    } else if d == 6 {
        '6'
    } else if d == 7 {
        '7'
    } else if d == 8 {
        '8'
    } else {
        '9'
    }
}

/// The decimal numeral of `n`.
pub fn decimal_chars(n: u64) -> (s: Vec<char>)
    ensures
        s@ == decimal(n as nat),
    decreases n,
{
    if n < 10 {
        let mut v: Vec<char> = Vec::new();
        v.push(digit(n));
        proof {
            assert(v@ =~= seq![digit_char(n as int)]);
        }
        v
    } else {
        let mut v = decimal_chars(n / 10);
        v.push(digit(n % 10));
        v
    }
}

/// The message of a subprocess that outlived its timeout.
pub open spec fn timeout_message_spec(seconds: u64) -> Seq<char> {
    "command timed out after "@ + decimal(seconds as nat) + " seconds"@
}

/// The message of a subprocess that outlived a timeout of `seconds`.
pub fn timeout_message(seconds: u64) -> (m: String)
    ensures
        m@ == timeout_message_spec(seconds),
{
    let mut m = "command timed out after ".to_owned();
    let digits = string_from_chars(decimal_chars(seconds));
    m.append(digits.as_str());
    m.append(" seconds");
    m
}

/// What std's `FromUtf8Error` says (its `to_string`) about bytes that are
/// not UTF-8.
pub uninterp spec fn utf8_error_message(bytes: Seq<u8>) -> Seq<char>;

/// Decodes bytes with `String::from_utf8`, which std documents to succeed
/// exactly on valid UTF-8 and to keep the characters that the bytes encode;
/// its error is turned into its message.
#[verifier::external_body]
fn utf8_string(bytes: Vec<u8>) -> (r: Result<String, String>)
    ensures
        match r {
            Ok(s) => vstd::utf8::valid_utf8(bytes@) && s@ == vstd::utf8::decode_utf8(bytes@),
            Err(e) => !vstd::utf8::valid_utf8(bytes@) && e@ == utf8_error_message(bytes@),
        },
{
    match String::from_utf8(bytes) {
        Ok(s) => Ok(s),
        Err(error) => Err(error.to_string()),
    }
}

/// What a finished subprocess left: whether it succeeded, and its two
/// streams as text.
pub struct Output {
    pub success: bool,
    pub stdout: String,
    pub stderr: String,
}

/// A subprocess's streams as text: each must be UTF-8, standard output
/// first.
pub open spec fn decode_output_spec(stdout: Seq<u8>, stderr: Seq<u8>) -> Result<
    (Seq<char>, Seq<char>),
    Seq<char>,
> {
    if !vstd::utf8::valid_utf8(stdout) {
        Err(utf8_error_message(stdout))
    } else if !vstd::utf8::valid_utf8(stderr) {
        Err(utf8_error_message(stderr))
    } else {
        Ok((vstd::utf8::decode_utf8(stdout), vstd::utf8::decode_utf8(stderr)))
    }
}

/// The output of a finished subprocess, its streams decoded as
/// [`decode_output_spec`] says.
pub fn finish_output(success: bool, stdout: Vec<u8>, stderr: Vec<u8>) -> (r: Result<Output, String>)
    ensures
        match r {
            Ok(o) => o.success == success && decode_output_spec(stdout@, stderr@) == Ok::<
                (Seq<char>, Seq<char>),
                Seq<char>,
            >((o.stdout@, o.stderr@)),
            Err(e) => decode_output_spec(stdout@, stderr@) == Err::<
                (Seq<char>, Seq<char>),
                Seq<char>,
            >(e@),
        },
{
    let out = match utf8_string(stdout) {
        Ok(s) => s,
        Err(e) => {
            return Err(e);
        },
    };
    let err = match utf8_string(stderr) {
        Ok(s) => s,
        Err(e) => {
            return Err(e);
        },
    };
    Ok(Output { success, stdout: out, stderr: err })
}

/// Whether `pattern` occurs in `s`.
pub open spec fn contains_text(s: Seq<char>, pattern: Seq<char>) -> bool {
    exists|i: int|
        0 <= i && i + pattern.len() <= s.len() && #[trigger] s.subrange(i, i + pattern.len())
            == pattern
}

/// Whether `pattern` occurs in `s`.
pub fn text_contains(s: &str, pattern: &str) -> (r: bool)
    ensures
        r == contains_text(s@, pattern@),
{
    let x = chars_of(s);
    let p = chars_of(pattern);
    if p.len() > x.len() {
        return false;
    }
    if p.len() == 0 {
        proof {
            assert(x@.subrange(0int, 0int + p@.len()) =~= p@);
        }
        return true;
    }
    let last = x.len() - p.len();
    let mut i: usize = 0;
    while i <= last
        invariant
            x@ == s@,
            p@ == pattern@,
            0 < p@.len() <= x@.len(),
            last == x@.len() - p@.len(),
            last < x@.len(),
            x@.len() <= usize::MAX,
            i <= last + 1,
            forall|j: int| 0 <= j < i ==> #[trigger] x@.subrange(j, j + p@.len()) != p@,
        decreases last + 1 - i,
    {
        let mut k: usize = 0;
        let mut same = true;
        while k < p.len()
            invariant
                x@ == s@,
                p@ == pattern@,
                i <= last,
                last == x@.len() - p@.len(),
                last < x@.len(),
                x@.len() <= usize::MAX,
                k <= p@.len(),
                same == forall|m: int| 0 <= m < k ==> x@[i + m] == p@[m],
            decreases p@.len() - k,
        {
            if x[i + k] != p[k] {
                same = false;
            }
            k = k + 1;
        }
        if same {
            proof {
                assert(x@.subrange(i as int, i + p@.len()) =~= p@);
            }
            return true;
        }
        proof {
            let m = choose|m: int| 0 <= m < p@.len() && x@[i + m] != p@[m];
            assert(x@.subrange(i as int, i + p@.len())[m] != p@[m]);
        }
        i = i + 1;
    }
    proof {
        assert forall|j: int| 0 <= j && j + p@.len() <= x@.len() implies #[trigger] x@.subrange(
            j,
            j + p@.len(),
        ) != p@ by {
            assert(j < i);
        }
    }
    false
}

/// The directory to ask Git about: a path, where it is absolute.
pub fn branch_target(path: Option<&str>) -> (r: Option<&str>)
    ensures
        match path {
            Some(p) => if crate::workspace::is_absolute_path(p@) {
                r == Some(p)
            } else {
                r is None
            },
            None => r is None,
        },
{
    match path {
        Some(p) => {
            let chars = chars_of(p);
            if chars.len() > 0 && chars[0] == '/' {
                Some(p)
            } else {
                None
            }
        },
        None => None,
    }
}

/// The branch that `git symbolic-ref --short HEAD` reported: its trimmed
/// output where it succeeded with some; no branch where it failed, timed out
/// or could not run (a missing checkout, a detached HEAD, no Git); the
/// error itself where the output was not UTF-8.
pub open spec fn branch_from_output_spec(result: Result<(bool, Seq<char>), Seq<char>>) -> Result<
    Option<Seq<char>>,
    Seq<char>,
> {
    match result {
        Ok((success, stdout)) => if success {
            if trim(stdout).len() > 0 {
                Ok(Some(trim(stdout)))
            } else {
                Ok(None)
            }
        } else {
            Ok(None)
        },
        Err(e) => if contains_text(e, "invalid utf-8"@) {
            Err(e)
        } else {
            Ok(None)
        },
    }
}

/// The branch of a Git query's outcome, as [`branch_from_output_spec`] says.
pub fn branch_from_output(result: Result<Output, String>) -> (r: Result<Option<String>, String>)
    ensures
        ({
            let arg = match result {
                Ok(o) => Ok((o.success, o.stdout@)),
                Err(e) => Err(e@),
            };
            match r {
                Ok(Some(b)) => branch_from_output_spec(arg) == Ok::<
                    Option<Seq<char>>,
                    Seq<char>,
                >(Some(b@)),
                Ok(None) => branch_from_output_spec(arg) == Ok::<Option<Seq<char>>, Seq<char>>(
                    None,
                ),
                Err(e) => branch_from_output_spec(arg) == Err::<Option<Seq<char>>, Seq<char>>(
                    e@,
                ),
            }
        }),
{
    match result {
        Ok(o) => {
            if o.success {
                let t = trim_chars(&chars_of(o.stdout.as_str()));
                if t.len() > 0 {
                    Ok(Some(string_from_chars(t)))
                } else {
                    Ok(None)
                }
            } else {
                Ok(None)
            }
        },
        Err(e) => {
            if text_contains(e.as_str(), "invalid utf-8") {
                Err(e)
            } else {
                Ok(None)
            }
        },
    }
}

} // verus!
