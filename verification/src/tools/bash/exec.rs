//! Running a shell command: collecting its output under a cap and naming how it
//! ended.
use vstd::prelude::*;
use crate::text::{
    byte_len, cat, decimal, decimal_of, in_order, lemma_byte_len_concat, lemma_byte_len_empty,
    lemma_bytes_determine, lemma_in_order_itself, lemma_in_order_more, lemma_in_order_next, size, to_chars,
};
use crate::tools::bg_shell::{ShellStatus, ShellStatusView};

verus! {

/// Bytes of output that are kept while a command runs.
pub const DRAIN_CAP_BYTES: usize = 262144;

/// Output of a command with the lines of both streams in the order of arrival.
#[derive(Debug)]
pub struct InterleavedOutput {
    pub merged: String,
    pub exit_code: i32,
}

/// Output collected so far, and the bytes that arrived past the cap.
#[derive(Debug)]
pub struct DrainBuffer {
    merged: String,
    overflow: usize,
}

/// What is kept and how many bytes are not after the next line: a line is kept
/// whole as long as less than the cap was kept before it.
pub open spec fn drain_step(state: (Seq<char>, nat), line: Seq<char>) -> (Seq<char>, nat) {
    let (kept, lost) = state;
    let more = lost + byte_len(line);
    if byte_len(kept) < DRAIN_CAP_BYTES {
        (kept + line, lost)
    } else if more <= usize::MAX {
        (kept, more)
    } else {
        (kept, usize::MAX as nat)
    }
}

/// What is kept and how many bytes are not once all the lines have arrived.
pub open spec fn drained(lines: Seq<Seq<char>>) -> (Seq<char>, nat)
    decreases lines.len(),
{
    if lines.len() == 0 {
        (Seq::empty(), 0)
    } else {
        drain_step(drained(lines.drop_last()), lines.last())
    }
}

/// The collected output with a remark on what was discarded.
pub open spec fn drain_text(kept: Seq<char>, lost: nat) -> Seq<char> {
    if lost == 0 {
        kept
    } else {
        kept + (if kept.len() > 0 && kept.last() != '\n' {
            seq!['\n']
        } else {
            Seq::empty()
        }) + "…[bash output exceeded cap; discarded "@ + decimal_of(lost)
            + " additional bytes streamed after the "@ + decimal_of(256) + "-KiB cap]"@
    }
}

impl DrainBuffer {
    /// What the buffer has kept and how many bytes it has discarded.
    pub closed spec fn state(&self) -> (Seq<char>, nat) {
        (self.merged@, self.overflow as nat)
    }

    /// A buffer into which nothing has been drained.
    pub fn new() -> (r: DrainBuffer)
        ensures
            r.state() == drained(Seq::empty()),
    {
        let r = DrainBuffer { merged: String::new(), overflow: 0 };
        assert(r.merged@ =~= Seq::empty());
        r
    }

    /// Takes in the next line that arrived on either stream.
    pub fn push_line(&mut self, line: &str)
        ensures
            final(self).state() == drain_step(old(self).state(), line@),
    {
        if size(self.merged.as_str()) < DRAIN_CAP_BYTES {
            self.merged.append(line);
        } else {
            let n: usize = size(line);
            self.overflow = if n <= usize::MAX - self.overflow {
                self.overflow + n
            } else {
                usize::MAX
            };
        }
    }

    /// The collected output, with a remark where some was discarded.
    pub fn finish(self) -> (r: String)
        ensures
            r@ == drain_text(self.state().0, self.state().1),
    {
        let mut out = self.merged;
        if self.overflow > 0 {
            let v = to_chars(out.as_str());
            let n: usize = v.len();
            let ghost kept = out@;
            if n > 0 && v[n - 1] != '\n' {
                out.push('\n');
                assert(out@ =~= kept + seq!['\n']);
            } else {
                assert(out@ =~= kept + Seq::empty());
            }
            out.append("…[bash output exceeded cap; discarded ");
            let d = decimal(self.overflow as u128);
            out.append(d.as_str());
            out.append(" additional bytes streamed after the ");
            let k = decimal(256);
            out.append(k.as_str());
            out.append("-KiB cap]");
        }
        out
    }
}

/// The two streams of a command.
#[derive(Clone, Copy, Debug, PartialEq, Eq, Structural)]
pub enum Stream {
    Stdout,
    Stderr,
}

/// Which streams of a command may still bring something.
#[derive(Clone, Copy, Debug, PartialEq, Eq, Structural)]
pub struct OpenStreams {
    pub stdout: bool,
    pub stderr: bool,
}

/// The streams that are open after one was read from: a read that brings nothing, or
/// fails, closes its stream.
pub open spec fn streams_after(o: OpenStreams, stream: Stream, read: Option<usize>) -> OpenStreams {
    let more = read matches Some(n) && n > 0;
    match stream {
        Stream::Stdout => OpenStreams { stdout: o.stdout && more, ..o },
        Stream::Stderr => OpenStreams { stderr: o.stderr && more, ..o },
    }
}

impl OpenStreams {
    /// Whether there is still something to wait for.
    pub fn is_open(&self) -> (r: bool)
        ensures
            r == (self.stdout || self.stderr),
    {
        self.stdout || self.stderr
    }

    /// Goes by a read from a stream, `None` where it failed, else the number of bytes that
    /// it brought; says whether it brought a line.
    pub fn note(&mut self, stream: Stream, read: Option<usize>) -> (line: bool)
        ensures
            *final(self) == streams_after(*old(self), stream, read),
            line == (read matches Some(n) && n > 0),
    {
        let more: bool = match read {
            Some(n) => n > 0,
            None => false,
        };
        match stream {
            Stream::Stdout => {
                self.stdout = self.stdout && more;
            },
            Stream::Stderr => {
                self.stderr = self.stderr && more;
            },
        }
        more
    }
}

/// A hold on the process group of a running command: as long as it is armed, the
/// group is killed when the hold is given up.
#[derive(Debug)]
pub struct PgKillGuard {
    pid: u32,
    armed: bool,
}

impl PgKillGuard {
    /// The process whose group is held.
    pub closed spec fn held(&self) -> u32 {
        self.pid
    }

    /// Giving the hold up kills the group.
    pub closed spec fn is_armed(&self) -> bool {
        self.armed
    }

    /// An armed hold on the group of `pid`.
    pub fn new(pid: u32) -> (r: Self)
        ensures
            r.held() == pid,
            r.is_armed(),
    {
        PgKillGuard { pid, armed: true }
    }

    /// From now on giving the hold up does nothing.
    pub fn disarm(&mut self)
        ensures
            final(self).held() == old(self).held(),
            !final(self).is_armed(),
    {
        self.armed = false;
    }

    /// The process whose group is to be killed when the hold is given up.
    pub fn on_drop(&self) -> (r: Option<u32>)
        ensures
            r == (if self.is_armed() {
                Some(self.held())
            } else {
                None
            }),
    {
        if self.armed {
            Some(self.pid)
        } else {
            None
        }
    }
}

/// How waiting for a command ended: it ended with an exit code, or without one where
/// a signal ended it; it could not be waited for; or its time ran out.
#[derive(Debug)]
pub enum WaitEnd {
    Exited(Option<i32>),
    Failed(String),
    TimedOut,
}

/// The exit code, or minus one without one.
pub open spec fn code_of(code: Option<i32>) -> i32 {
    match code {
        Some(c) => c,
        None => -1i32,
    }
}

fn code_or_minus_one(code: Option<i32>) -> (r: i32)
    ensures
        r == code_of(code),
{
    match code {
        Some(c) => c,
        None => -1,
    }
}

/// What is done once waiting ended: the process whose group is killed at once, and the
/// one whose group is killed because the hold on it was still armed.
#[derive(Clone, Copy, Debug, PartialEq, Eq, Structural)]
pub struct Kills {
    pub now: Option<u32>,
    pub on_drop: Option<u32>,
}

/// The refusal of a command that cannot be started.
pub fn spawn_failed(reason: &str) -> (r: String)
    ensures
        r@ == "failed to spawn: "@ + reason@,
{
    cat("failed to spawn: ", reason)
}

/// What a command with a time limit comes to: its output and exit code, or the reason
/// why there are none; and which process groups are killed. The group is killed exactly
/// once unless the command ended by itself.
pub fn settle_run(merged: String, end: &WaitEnd, pid: Option<u32>, secs: u64) -> (r: (
    Result<InterleavedOutput, String>,
    Kills,
))
    ensures
        match *end {
            WaitEnd::Exited(code) => r.0 is Ok && (r.0->Ok_0).merged@ == merged@ && (
            r.0->Ok_0).exit_code == code_of(code) && r.1 == (Kills { now: None, on_drop: None }),
            WaitEnd::Failed(e) => r.0 is Err && (r.0->Err_0)@ == "wait failed: "@ + e@ && r.1 == (Kills {
                now: None,
                on_drop: pid,
            }),
            WaitEnd::TimedOut => r.0 is Err && (r.0->Err_0)@ == "Command timed out after "@
                + decimal_of(secs as nat) + "s"@ && r.1 == (Kills { now: pid, on_drop: None }),
        },
{
    let mut guard = match pid {
        Some(p) => Some(PgKillGuard::new(p)),
        None => None,
    };
    let mut now: Option<u32> = None;
    let result = match end {
        WaitEnd::Exited(code) => {
            guard = disarmed(guard);
            Ok(InterleavedOutput { merged, exit_code: code_or_minus_one(*code) })
        },
        WaitEnd::Failed(e) => Err(cat("wait failed: ", e.as_str())),
        WaitEnd::TimedOut => {
            guard = disarmed(guard);
            now = pid;
            let n = decimal(secs as u128);
            let mut out = cat("Command timed out after ", n.as_str());
            out.append("s");
            Err(out)
        },
    };
    let on_drop = match &guard {
        Some(g) => g.on_drop(),
        None => None,
    };
    (result, Kills { now, on_drop })
}

fn disarmed(guard: Option<PgKillGuard>) -> (r: Option<PgKillGuard>)
    ensures
        guard is Some <==> r is Some,
        r is Some ==> !r->0.is_armed() && r->0.held() == guard->0.held(),
{
    match guard {
        Some(g) => {
            let mut h = g;
            h.disarm();
            Some(h)
        },
        None => None,
    }
}

/// The state in which a background shell is recorded once waiting for it ended; a time
/// limit that ran out is given in `secs`.
pub open spec fn shell_end_of(end: WaitEnd, secs: u64) -> ShellStatusView {
    match end {
        WaitEnd::Exited(code) => ShellStatusView::Exited(code_of(code) as int),
        WaitEnd::Failed(e) => ShellStatusView::Failed(e@),
        WaitEnd::TimedOut => ShellStatusView::Failed(
            "auto-killed after "@ + decimal_of(secs as nat) + "s timeout"@,
        ),
    }
}

/// The state in which a background shell is recorded once waiting for it ended, and the
/// process whose group is killed: the one whose time ran out.
pub fn settle_shell(end: &WaitEnd, pid: Option<u32>, secs: u64) -> (r: (ShellStatus, Option<u32>))
    ensures
        r.0@ == shell_end_of(*end, secs),
        r.1 == (if *end is TimedOut {
            pid
        } else {
            None
        }),
{
    match end {
        WaitEnd::Exited(code) => (ShellStatus::Exited(code_or_minus_one(*code)), None),
        WaitEnd::Failed(e) => (ShellStatus::Failed(e.clone()), None),
        WaitEnd::TimedOut => {
            let n = decimal(secs as u128);
            let mut out = cat("auto-killed after ", n.as_str());
            out.append("s timeout");
            (ShellStatus::Failed(out), pid)
        },
    }
}

/// The state of a background shell that cannot be started.
pub fn shell_not_started(reason: &str) -> (r: ShellStatus)
    ensures
        r@ == ShellStatusView::Failed("failed to spawn: "@ + reason@),
{
    ShellStatus::Failed(spawn_failed(reason))
}

/// The kept output never exceeds the cap by more than the line that crossed it.
pub proof fn law_drain_is_bounded(lines: Seq<Seq<char>>, longest: nat)
    requires
        forall|i: int| 0 <= i < lines.len() ==> byte_len(#[trigger] lines[i]) <= longest,
    ensures
        byte_len(drained(lines).0) <= DRAIN_CAP_BYTES + longest,
    decreases lines.len(),
{
    if lines.len() > 0 {
        let before = lines.drop_last();
        assert forall|i: int| 0 <= i < before.len() implies byte_len(#[trigger] before[i]) <= longest by {
            assert(before[i] == lines[i]);
        }
        law_drain_is_bounded(before, longest);
        let kept = drained(before).0;
        if byte_len(kept) < DRAIN_CAP_BYTES {
            crate::text::lemma_byte_len_concat(kept, lines.last());
            assert(byte_len(lines[lines.len() - 1]) <= longest);
        }
    } else {
        crate::text::lemma_byte_len_empty();
    }
}

/// The lines one behind the other.
pub open spec fn all_of(lines: Seq<Seq<char>>) -> Seq<char>
    decreases lines.len(),
{
    if lines.len() == 0 {
        Seq::empty()
    } else {
        all_of(lines.drop_last()) + lines.last()
    }
}

/// What is kept of the output are its first lines, whole and in their order, and the bytes of
/// the others are counted: up to the cap nothing is lost, and what is kept and what is lost
/// make up everything that came, as long as that can be counted.
pub proof fn law_output_is_kept_from_its_start(lines: Seq<Seq<char>>) -> (n: int)
    requires
        byte_len(all_of(lines)) <= usize::MAX,
    ensures
        0 <= n <= lines.len(),
        drained(lines).0 == all_of(lines.take(n)),
        byte_len(drained(lines).0) + drained(lines).1 == byte_len(all_of(lines)),
        byte_len(all_of(lines)) <= DRAIN_CAP_BYTES ==> drained(lines).0 == all_of(lines) && drained(lines).1
            == 0,
        n < lines.len() ==> byte_len(all_of(lines.take(n))) >= DRAIN_CAP_BYTES,
    decreases lines.len(),
{
    if lines.len() == 0 {
        lemma_byte_len_empty();
        assert(lines.take(0) =~= Seq::empty());
        0
    } else {
        let front = lines.drop_last();
        lemma_byte_len_concat(all_of(front), lines.last());
        let n = law_output_is_kept_from_its_start(front);
        let (kept, lost) = drained(front);
        assert(lines.take(n) =~= front.take(n));
        if byte_len(kept) < DRAIN_CAP_BYTES {
            assert(n == front.len());
            assert(front.take(n) =~= front);
            assert(lines.take(lines.len() as int) =~= lines);
            lines.len() as int
        } else {
            if byte_len(all_of(lines)) <= DRAIN_CAP_BYTES {
                assert(byte_len(lines.last()) == 0);
                lemma_no_bytes(lines.last());
                assert(kept + lines.last() =~= kept);
            }
            n
        }
    }
}

proof fn lemma_no_bytes(s: Seq<char>)
    requires
        byte_len(s) == 0,
    ensures
        s.len() == 0,
{
    lemma_byte_len_empty();
    assert(vstd::utf8::encode_utf8(s) =~= vstd::utf8::encode_utf8(Seq::empty()));
    lemma_bytes_determine(s, Seq::empty());
}

/// The output that is shown begins with everything that was kept; where something was
/// discarded, the number of its bytes stands behind it, and else nothing is added.
pub proof fn law_discarded_output_is_told(kept: Seq<char>, lost: nat)
    ensures
        in_order(
            drain_text(kept, lost),
            if lost == 0 {
                seq![kept]
            } else {
                seq![kept, decimal_of(lost)]
            },
        ),
        lost == 0 ==> drain_text(kept, lost) == kept,
{
    lemma_in_order_itself(kept);
    if lost > 0 {
        let nl = if kept.len() > 0 && kept.last() != '\n' {
            seq!['\n']
        } else {
            Seq::empty()
        };
        let a = "…[bash output exceeded cap; discarded "@;
        let b = " additional bytes streamed after the "@;
        let n = decimal_of(lost);
        let ps = seq![kept].push(n);
        lemma_in_order_more(kept, seq![kept], nl);
        lemma_in_order_more(kept + nl, seq![kept], a);
        lemma_in_order_next(kept + nl + a, seq![kept], n);
        lemma_in_order_more(kept + nl + a + n, ps, b);
        lemma_in_order_more(kept + nl + a + n + b, ps, decimal_of(256));
        lemma_in_order_more(kept + nl + a + n + b + decimal_of(256), ps, "-KiB cap]"@);
        assert(ps =~= seq![kept, n]);
    }
}

} // verus!
