//! The review of a finished session in the background: how often it may run, what it
//! reads, and what is told of it.
use vstd::prelude::*;
use crate::session::{MessageRole, Session, SessionMessage, ToolCallEntry, ToolCallState};
use crate::text::{
    byte_len, cat, contains, decimal, decimal_of, has_at, head, in_order, join, join_of, lemma_in_order_concat,
    lemma_in_order_itself, lemma_in_order_more, lemma_in_order_next, lemma_in_order_none,
    lemma_in_order_occurs, occurs, same, size, take_chars, texts,
};

verus! {

/// Least time between two reviews, in seconds.
pub const MIN_REVIEW_INTERVAL_SECS: u64 = 900;

/// Bytes of a tool result above which it is shortened for the review.
pub const MAX_TOOL_RESULT: usize = 2000;

/// Tells the reviewing agent what to look for and what to write down.
pub const COMBINED_REVIEW_PROMPT: &'static str = r#"Review the conversation above and update what we know about this project and how to work on it.

**CRITICAL: You have ONLY the `memory` and `skill` tools available.** Do not attempt to use read, write, edit, bash, or any other tools — they are not loaded.

**1. Update MEMORY (project facts, conventions, pitfalls):**
- What build/test commands were discovered or confirmed?
- What naming conventions, file layout patterns, or import styles were used?
- What architecture patterns emerged (how modules relate, error handling style)?
- What library quirks or tool behaviors were discovered?
- Were there any user corrections about how things should be done?
- Was something tried and failed? Capture what was attempted and WHY it failed.

**2. Update SKILLS (procedural improvements):**
Be ACTIVE — most sessions produce at least one skill update. A pass that does nothing is a missed learning opportunity.

Preference order — prefer the earliest that fits:
  1. UPDATE A CURRENTLY-LOADED SKILL. If the conversation involved a skill that is already in the library, extend or correct it first.
  2. UPDATE AN EXISTING UMBRELLA. If the new knowledge belongs under a broader topic that already has a skill, patch it.
  3. ADD A SUPPORT FILE under an existing umbrella via the skill tool (references/, templates/, or scripts/).
  4. CREATE A NEW CLASS-LEVEL UMBRELLA SKILL only when no existing skill covers the class.

Signals that warrant action:
  • User corrected your style, approach, or workflow. Frustration signals like "stop doing X", "this is too verbose", "don't format like this", or an explicit "remember this" are FIRST-CLASS skill signals.
  • Non-trivial technique, fix, workaround, or debugging pattern emerged.
  • A skill that was loaded or consulted turned out wrong or outdated — PATCH IT NOW.
  • A pattern repeated across the session that future sessions would benefit from.

Do NOT capture:
  • Environment-dependent failures: missing binaries, "command not found", unconfigured credentials. The user can fix these — they are not durable rules.
  • Negative claims about tools ("read tool is broken", "cannot use X"). These harden into refusals long after the actual problem was fixed.
  • Session-specific transient errors that resolved before the conversation ended.
  • One-off task narratives. "Analyze this PR" is not a class of work that warrants a skill.

Target shape of the library: CLASS-LEVEL skills with a rich SKILL.md. Not a long flat list of narrow one-session-one-skill entries.

"Nothing to save." is valid but should NOT be the default. Most coding sessions produce at least one learning."#;

/// The time of the last review, in seconds since the epoch; zero before the first.
#[derive(Debug)]
pub struct ReviewSlot {
    pub last: u64,
}

/// A review may start: the last one is long enough ago.
pub open spec fn is_open(last: u64, now: u64) -> bool {
    now - last >= MIN_REVIEW_INTERVAL_SECS
}

/// Claims the slot for a review that starts now, and gives the time of the one before
/// it; `None` where the last review is too recent.
pub fn claim_review_slot(slot: &mut ReviewSlot, now: u64) -> (r: Option<u64>)
    ensures
        is_open(old(slot).last, now) ==> r == Some(old(slot).last) && final(slot).last == now,
        !is_open(old(slot).last, now) ==> r is None && final(slot).last == old(slot).last,
{
    let last: u64 = slot.last;
    let ago: u64 = if now >= last {
        now - last
    } else {
        0
    };
    if ago < MIN_REVIEW_INTERVAL_SECS {
        return None;
    }
    slot.last = now;
    Some(last)
}

/// What the slot holds after a review claimed at `ours`, with `prev` before it, gives
/// it back.
pub open spec fn released(last: u64, prev: u64, ours: u64) -> u64 {
    if last == ours {
        prev
    } else {
        last
    }
}

/// Gives the slot back after a review that did no work, unless a later review has
/// claimed it.
pub fn release_review_slot(slot: &mut ReviewSlot, prev: u64, ours: u64)
    ensures
        final(slot).last == released(old(slot).last, prev, ours),
{
    if slot.last == ours {
        slot.last = prev;
    }
}

/// A slot that is claimed and given back is as it was, and can be claimed again at once.
pub proof fn law_release_undoes_claim(last: u64, now: u64, later: u64)
    requires
        is_open(last, now),
        now <= later,
    ensures
        released(now, last, now) == last,
        is_open(released(now, last, now), later),
{
}

/// Once claimed, the slot stays closed to everyone for the length of the interval.
pub proof fn law_one_review_per_interval(now: u64, later: u64)
    requires
        later < now + MIN_REVIEW_INTERVAL_SECS,
    ensures
        !is_open(now, later),
{
}

/// The prompt for the reviewing agent: the given one, or the default.
pub fn review_prompt(review_prompt_override: Option<&str>) -> (r: String)
    ensures
        r@ == (match review_prompt_override {
            Some(p) => p@,
            None => COMBINED_REVIEW_PROMPT@,
        }),
{
    match review_prompt_override {
        Some(p) => p.to_owned(),
        None => COMBINED_REVIEW_PROMPT.to_owned(),
    }
}

/// The prompt for tidying up the skills: `None` where the list of candidates says that
/// there are none.
pub fn curator_prompt(instructions: &str, candidate_list: &str) -> (r: Option<String>)
    ensures
        match r {
            Some(p) => !occurs(candidate_list@, "No agent-created skills"@) && p@ == instructions@
                + "\n\n"@ + candidate_list@,
            None => occurs(candidate_list@, "No agent-created skills"@),
        },
{
    if contains(candidate_list, "No agent-created skills") {
        return None;
    }
    let mut out = cat(instructions, "\n\n");
    out.append(candidate_list);
    Some(out)
}

/// What the reviewing agent reports.
#[derive(Debug)]
pub enum ReviewEvent {
    Error(String),
    ToolCall(String),
    Done,
    Other,
}

/// What was seen of a running review: whether it failed, and the tools it called.
#[derive(Debug)]
pub struct ReviewRun {
    had_error: bool,
    actions: Vec<String>,
}

/// What is left to do once a review ended.
#[derive(Debug)]
pub struct ReviewEnd {
    /// The tools that were called, each once, where it did something and did not fail.
    pub summary: Option<String>,
    /// It ended without an error and without calling a tool.
    pub idle: bool,
    /// It failed before it called a tool, so that the slot is given back.
    pub release: bool,
}

/// The texts without those that stand earlier in the list.
pub open spec fn distinct_of(ts: Seq<Seq<char>>) -> Seq<Seq<char>>
    decreases ts.len(),
{
    if ts.len() == 0 {
        Seq::empty()
    } else {
        let before = distinct_of(ts.drop_last());
        if before.contains(ts.last()) {
            before
        } else {
            before.push(ts.last())
        }
    }
}

fn holds(ts: &Vec<String>, t: &str) -> (r: bool)
    ensures
        r == texts(ts@).contains(t@),
{
    let mut i: usize = 0;
    while i < ts.len()
        invariant
            i <= ts@.len(),
            forall|k: int| 0 <= k < i ==> texts(ts@)[k] != t@,
        decreases ts@.len() - i,
    {
        if same(ts[i].as_str(), t) {
            assert(texts(ts@)[i as int] == t@);
            return true;
        }
        i += 1;
    }
    false
}

fn distinct(ts: &Vec<String>) -> (r: Vec<String>)
    ensures
        texts(r@) == distinct_of(texts(ts@)),
{
    let ghost all = texts(ts@);
    let mut out: Vec<String> = Vec::new();
    let mut i: usize = 0;
    assert(all.take(0) =~= Seq::empty());
    assert(texts(out@) =~= Seq::empty());
    while i < ts.len()
        invariant
            all == texts(ts@),
            i <= ts@.len(),
            texts(out@) == distinct_of(all.take(i as int)),
        decreases ts@.len() - i,
    {
        let ghost before = texts(out@);
        proof {
            assert(all.take(i + 1).drop_last() =~= all.take(i as int));
            assert(all.take(i + 1).last() == ts@[i as int]@);
        }
        if !holds(&out, ts[i].as_str()) {
            out.push(ts[i].clone());
            assert(texts(out@) =~= before.push(ts@[i as int]@));
        }
        i += 1;
    }
    assert(all.take(i as int) =~= all);
    out
}

impl ReviewRun {
    /// An error was reported.
    pub closed spec fn failed(&self) -> bool {
        self.had_error
    }

    /// The tools that were called, in this order.
    pub closed spec fn calls(&self) -> Seq<Seq<char>> {
        texts(self.actions@)
    }

    /// A review of which nothing was seen.
    pub fn new() -> (r: Self)
        ensures
            !r.failed(),
            r.calls() == Seq::<Seq<char>>::empty(),
    {
        let r = ReviewRun { had_error: false, actions: Vec::new() };
        assert(r.calls() =~= Seq::<Seq<char>>::empty());
        r
    }

    /// Takes in what the reviewing agent reports; says whether to wait for more.
    pub fn observe(&mut self, event: &ReviewEvent) -> (more: bool)
        ensures
            more == !(*event is Done),
            final(self).failed() == (old(self).failed() || *event is Error),
            final(self).calls() == (match *event {
                ReviewEvent::ToolCall(name) => old(self).calls().push(name@),
                _ => old(self).calls(),
            }),
    {
        match event {
            ReviewEvent::Error(_) => {
                self.had_error = true;
                true
            },
            ReviewEvent::ToolCall(name) => {
                let ghost before = self.calls();
                self.actions.push(name.clone());
                assert(self.calls() =~= before.push(name@));
                true
            },
            ReviewEvent::Done => false,
            ReviewEvent::Other => true,
        }
    }

    /// What is left to do once the review ended.
    pub fn finish(&self) -> (r: ReviewEnd)
        ensures
            match r.summary {
                Some(s) => !self.failed() && self.calls().len() > 0 && s@ == join_of(
                    distinct_of(self.calls()),
                    " · "@,
                ),
                None => self.failed() || self.calls().len() == 0,
            },
            r.idle == (!self.failed() && self.calls().len() == 0),
            r.release == (self.failed() && self.calls().len() == 0),
    {
        let none: bool = self.actions.len() == 0;
        assert(self.calls().len() == self.actions@.len());
        let summary = if !self.had_error && !none {
            let names = distinct(&self.actions);
            Some(join(&names, " · "))
        } else {
            None
        };
        ReviewEnd { summary, idle: !self.had_error && none, release: self.had_error && none }
    }
}

/// A tool result as the reviewing agent sees it.
pub open spec fn shown_result(s: Seq<char>) -> Seq<char> {
    if byte_len(s) <= MAX_TOOL_RESULT {
        s
    } else {
        head(s, MAX_TOOL_RESULT as nat) + "… (truncated, "@ + decimal_of(byte_len(s))
            + " bytes total)"@
    }
}

/// The tool result, shortened where it is long.
pub fn truncate_tool_result(result: &str) -> (r: String)
    ensures
        r@ == shown_result(result@),
{
    let n: usize = size(result);
    if n <= MAX_TOOL_RESULT {
        return result.to_owned();
    }
    let mut out = take_chars(result, MAX_TOOL_RESULT);
    out.append("… (truncated, ");
    let d = decimal(n as u128);
    out.append(d.as_str());
    out.append(" bytes total)");
    out
}

/// The lines on a tool call.
pub open spec fn call_text(c: ToolCallEntry) -> Seq<char> {
    "  [Tool: "@ + c.name@ + "("@ + (match c.args {
        Some(a) => a@,
        None => "{}"@,
    }) + ")]\n"@ + (match c.state {
        ToolCallState::Completed { result } => "  [Result: "@ + shown_result(result@) + "]\n"@,
        ToolCallState::Interrupted => "  [Result: <interrupted>]\n"@,
        ToolCallState::Failed { error } => "  [Result: <failed: "@ + error@ + ">]\n"@,
    })
}

/// The lines on tool calls.
pub open spec fn calls_text(cs: Seq<ToolCallEntry>) -> Seq<char>
    decreases cs.len(),
{
    if cs.len() == 0 {
        Seq::empty()
    } else {
        calls_text(cs.drop_last()) + call_text(cs.last())
    }
}

/// The passage on a message.
pub open spec fn message_text(m: SessionMessage) -> Seq<char> {
    match m.role {
        MessageRole::User => "User: "@ + m.content@ + "\n\n"@,
        MessageRole::System => "[System: "@ + m.content@ + "]\n\n"@,
        MessageRole::Assistant => (if m.content@.len() == 0 {
            ""@
        } else {
            "Assistant: "@ + m.content@ + "\n"@
        }) + calls_text(m.tool_calls@) + (if m.content@.len() == 0 && m.tool_calls@.len() == 0 {
            ""@
        } else {
            "\n"@
        }),
    }
}

/// The conversation as the reviewing agent reads it.
pub open spec fn transcript_of(ms: Seq<SessionMessage>) -> Seq<char>
    decreases ms.len(),
{
    if ms.len() == 0 {
        Seq::empty()
    } else {
        transcript_of(ms.drop_last()) + message_text(ms.last())
    }
}

fn describe_call(c: &ToolCallEntry) -> (r: String)
    ensures
        r@ == call_text(*c),
{
    let mut out = cat("  [Tool: ", c.name.as_str());
    out.append("(");
    let args = match &c.args {
        Some(a) => a.as_str(),
        None => "{}",
    };
    out.append(args);
    out.append(")]\n");
    let end = match &c.state {
        ToolCallState::Completed { result } => {
            let shown = truncate_tool_result(result.as_str());
            let mut t = cat("  [Result: ", shown.as_str());
            t.append("]\n");
            t
        },
        ToolCallState::Interrupted => "  [Result: <interrupted>]\n".to_owned(),
        ToolCallState::Failed { error } => {
            let mut t = cat("  [Result: <failed: ", error.as_str());
            t.append(">]\n");
            t
        },
    };
    out.append(end.as_str());
    out
}

fn describe_calls(cs: &Vec<ToolCallEntry>) -> (r: String)
    ensures
        r@ == calls_text(cs@),
{
    let mut out = String::new();
    let mut i: usize = 0;
    assert(out@ =~= Seq::empty());
    assert(cs@.take(0) =~= Seq::empty());
    while i < cs.len()
        invariant
            i <= cs@.len(),
            out@ == calls_text(cs@.take(i as int)),
        decreases cs@.len() - i,
    {
        let row = describe_call(&cs[i]);
        out.append(row.as_str());
        proof {
            assert(cs@.take(i + 1).drop_last() =~= cs@.take(i as int));
        }
        i += 1;
    }
    assert(cs@.take(i as int) =~= cs@);
    out
}

fn describe_message(m: &SessionMessage) -> (r: String)
    ensures
        r@ == message_text(*m),
{
    match m.role {
        MessageRole::User => {
            let mut out = cat("User: ", m.content.as_str());
            out.append("\n\n");
            out
        },
        MessageRole::System => {
            let mut out = cat("[System: ", m.content.as_str());
            out.append("]\n\n");
            out
        },
        MessageRole::Assistant => {
            let mut out = "".to_owned();
            let silent: bool = m.content.as_str().is_empty();
            if !silent {
                out = cat("Assistant: ", m.content.as_str());
                out.append("\n");
            }
            let calls = describe_calls(&m.tool_calls);
            out.append(calls.as_str());
            out.append(
                if silent && m.tool_calls.len() == 0 {
                    ""
                } else {
                    "\n"
                },
            );
            out
        },
    }
}

/// The conversation as the reviewing agent reads it.
pub fn build_transcript(session: &Session) -> (r: String)
    ensures
        r@ == transcript_of(session.messages@),
{
    build_transcript_from_slice(&session.messages)
}

/// The messages as the reviewing agent reads them.
pub fn build_transcript_from_slice(messages: &Vec<SessionMessage>) -> (r: String)
    ensures
        r@ == transcript_of(messages@),
{
    let mut out = String::new();
    let mut i: usize = 0;
    assert(out@ =~= Seq::empty());
    assert(messages@.take(0) =~= Seq::empty());
    while i < messages.len()
        invariant
            i <= messages@.len(),
            out@ == transcript_of(messages@.take(i as int)),
        decreases messages@.len() - i,
    {
        let row = describe_message(&messages[i]);
        out.append(row.as_str());
        proof {
            assert(messages@.take(i + 1).drop_last() =~= messages@.take(i as int));
        }
        i += 1;
    }
    assert(messages@.take(i as int) =~= messages@);
    out
}

/// What is read of a conversation that goes on begins with what was read of it before.
pub proof fn law_transcript_grows(a: Seq<SessionMessage>, b: Seq<SessionMessage>)
    ensures
        transcript_of(a + b) == transcript_of(a) + transcript_of(b),
    decreases b.len(),
{
    if b.len() == 0 {
        assert(a + b =~= a);
        assert(transcript_of(a) + Seq::<char>::empty() =~= transcript_of(a));
    } else {
        law_transcript_grows(a, b.drop_last());
        assert((a + b).drop_last() =~= a + b.drop_last());
        assert((a + b).last() == b.last());
        assert(transcript_of(a) + (transcript_of(b.drop_last()) + message_text(b.last())) =~= (
        transcript_of(a) + transcript_of(b.drop_last())) + message_text(b.last()));
    }
}

/// What a reader of the conversation is to find of a tool call: its name, its arguments where
/// there are any, and its result or why it failed; a result up to the limit is whole.
pub open spec fn read_of_call(c: ToolCallEntry) -> Seq<Seq<char>> {
    seq![c.name@] + (match c.args {
        Some(a) => seq![a@],
        None => Seq::empty(),
    }) + (match c.state {
        ToolCallState::Completed { result } => if byte_len(result@) <= MAX_TOOL_RESULT {
            seq![result@]
        } else {
            seq![head(result@, MAX_TOOL_RESULT as nat), decimal_of(byte_len(result@))]
        },
        ToolCallState::Interrupted => Seq::empty(),
        ToolCallState::Failed { error } => seq![error@],
    })
}

/// What a reader is to find of tool calls.
pub open spec fn read_of_calls(cs: Seq<ToolCallEntry>) -> Seq<Seq<char>>
    decreases cs.len(),
{
    if cs.len() == 0 {
        Seq::empty()
    } else {
        read_of_calls(cs.drop_last()) + read_of_call(cs.last())
    }
}

/// What a reader is to find of a message: its text, and of the assistant's its tool calls.
pub open spec fn read_of(m: SessionMessage) -> Seq<Seq<char>> {
    if m.role == MessageRole::Assistant {
        seq![m.content@] + read_of_calls(m.tool_calls@)
    } else {
        seq![m.content@]
    }
}

/// What a reader is to find of messages.
pub open spec fn read_of_all(ms: Seq<SessionMessage>) -> Seq<Seq<char>>
    decreases ms.len(),
{
    if ms.len() == 0 {
        Seq::empty()
    } else {
        read_of_all(ms.drop_last()) + read_of(ms.last())
    }
}

proof fn lemma_call_is_read(c: ToolCallEntry)
    ensures
        in_order(call_text(c), read_of_call(c)),
{
    let none = Seq::<Seq<char>>::empty();
    let a = "  [Tool: "@;
    lemma_in_order_none(a);
    lemma_in_order_next(a, none, c.name@);
    let p1 = none.push(c.name@);
    let b = a + c.name@;
    lemma_in_order_more(b, p1, "("@);
    let d = b + "("@;
    let args = match c.args {
        Some(x) => x@,
        None => "{}"@,
    };
    lemma_in_order_next(d, p1, args);
    lemma_in_order_more(d, p1, args);
    let p2 = match c.args {
        Some(x) => p1.push(x@),
        None => p1,
    };
    let e = d + args;
    assert(in_order(e, p2));
    lemma_in_order_more(e, p2, ")]\n"@);
    let f = e + ")]\n"@;
    let all = read_of_call(c);
    match c.state {
        ToolCallState::Completed { result } => {
            let w = "  [Result: "@;
            lemma_in_order_none(w);
            let shown = shown_result(result@);
            if byte_len(result@) <= MAX_TOOL_RESULT {
                lemma_in_order_next(w, none, shown);
                lemma_in_order_more(w + shown, none.push(shown), "]\n"@);
                lemma_in_order_concat(f, w + shown + "]\n"@, p2, none.push(shown));
                assert(p2 + none.push(shown) =~= all);
            } else {
                let h = head(result@, MAX_TOOL_RESULT as nat);
                let n = decimal_of(byte_len(result@));
                lemma_in_order_none(Seq::empty());
                lemma_in_order_next(Seq::empty(), none, h);
                assert(Seq::empty() + h =~= h);
                lemma_in_order_more(h, none.push(h), "… (truncated, "@);
                lemma_in_order_next(h + "… (truncated, "@, none.push(h), n);
                let q = none.push(h).push(n);
                lemma_in_order_more(h + "… (truncated, "@ + n, q, " bytes total)"@);
                lemma_in_order_concat(w, shown, none, q);
                assert(none + q =~= q);
                lemma_in_order_more(w + shown, q, "]\n"@);
                lemma_in_order_concat(f, w + shown + "]\n"@, p2, q);
                assert(p2 + q =~= all);
            }
        },
        ToolCallState::Interrupted => {
            lemma_in_order_more(f, p2, "  [Result: <interrupted>]\n"@);
            assert(p2 =~= all);
        },
        ToolCallState::Failed { error } => {
            let w = "  [Result: <failed: "@;
            lemma_in_order_none(w);
            lemma_in_order_next(w, none, error@);
            lemma_in_order_more(w + error@, none.push(error@), ">]\n"@);
            lemma_in_order_concat(f, w + error@ + ">]\n"@, p2, none.push(error@));
            assert(p2 + none.push(error@) =~= all);
        },
    }
}

proof fn lemma_calls_are_read(cs: Seq<ToolCallEntry>)
    ensures
        in_order(calls_text(cs), read_of_calls(cs)),
    decreases cs.len(),
{
    if cs.len() == 0 {
        lemma_in_order_none(calls_text(cs));
    } else {
        lemma_calls_are_read(cs.drop_last());
        lemma_call_is_read(cs.last());
        lemma_in_order_concat(
            calls_text(cs.drop_last()),
            call_text(cs.last()),
            read_of_calls(cs.drop_last()),
            read_of_call(cs.last()),
        );
    }
}

proof fn lemma_message_is_read(m: SessionMessage)
    ensures
        in_order(message_text(m), read_of(m)),
{
    let none = Seq::<Seq<char>>::empty();
    let said = none.push(m.content@);
    assert(said =~= seq![m.content@]);
    match m.role {
        MessageRole::User => {
            lemma_in_order_none("User: "@);
            lemma_in_order_next("User: "@, none, m.content@);
            lemma_in_order_more("User: "@ + m.content@, said, "\n\n"@);
        },
        MessageRole::System => {
            lemma_in_order_none("[System: "@);
            lemma_in_order_next("[System: "@, none, m.content@);
            lemma_in_order_more("[System: "@ + m.content@, said, "]\n\n"@);
        },
        MessageRole::Assistant => {
            let opening = if m.content@.len() == 0 {
                ""@
            } else {
                "Assistant: "@ + m.content@ + "\n"@
            };
            if m.content@.len() == 0 {
                reveal_strlit("");
                assert(opening =~= m.content@);
                lemma_in_order_itself(m.content@);
            } else {
                lemma_in_order_none("Assistant: "@);
                lemma_in_order_next("Assistant: "@, none, m.content@);
                lemma_in_order_more("Assistant: "@ + m.content@, said, "\n"@);
            }
            lemma_calls_are_read(m.tool_calls@);
            lemma_in_order_concat(opening, calls_text(m.tool_calls@), said, read_of_calls(m.tool_calls@));
            lemma_in_order_more(
                opening + calls_text(m.tool_calls@),
                read_of(m),
                if m.content@.len() == 0 && m.tool_calls@.len() == 0 {
                    ""@
                } else {
                    "\n"@
                },
            );
        },
    }
}

/// The reviewing agent reads the whole conversation: the text of every message and, behind that
/// of the assistant, each tool call with its name, arguments and result, all in the order in
/// which they came.
pub proof fn law_transcript_holds_everything(ms: Seq<SessionMessage>)
    ensures
        in_order(transcript_of(ms), read_of_all(ms)),
        forall|i: int| 0 <= i < ms.len() ==> occurs(transcript_of(ms), (#[trigger] ms[i]).content@),
    decreases ms.len(),
{
    if ms.len() == 0 {
        lemma_in_order_none(transcript_of(ms));
    } else {
        let front = ms.drop_last();
        let a = transcript_of(front);
        let b = message_text(ms.last());
        law_transcript_holds_everything(front);
        lemma_message_is_read(ms.last());
        lemma_in_order_concat(a, b, read_of_all(front), read_of(ms.last()));
        assert forall|i: int| 0 <= i < ms.len() implies occurs(
            transcript_of(ms),
            (#[trigger] ms[i]).content@,
        ) by {
            if i < front.len() {
                let p = ms[i].content@;
                assert(front[i] == ms[i]);
                let at = choose|at: int| has_at(a, p, at);
                assert((a + b).subrange(at, at + p.len()) =~= a.subrange(at, at + p.len()));
                assert(has_at(a + b, p, at));
            } else {
                lemma_in_order_occurs(a + b, read_of_all(ms), read_of_all(front).len() as int);
                assert(read_of_all(ms)[read_of_all(front).len() as int] == read_of(ms.last())[0]);
            }
        }
    }
}

/// The tools that a review called are each named once and none is left out.
pub proof fn law_actions_are_named_once(ts: Seq<Seq<char>>)
    ensures
        distinct_of(ts).no_duplicates(),
        forall|i: int| 0 <= i < ts.len() ==> distinct_of(ts).contains(#[trigger] ts[i]),
        forall|k: int| 0 <= k < distinct_of(ts).len() ==> ts.contains(#[trigger] distinct_of(ts)[k]),
    decreases ts.len(),
{
    if ts.len() > 0 {
        let front = ts.drop_last();
        law_actions_are_named_once(front);
        let before = distinct_of(front);
        let all = distinct_of(ts);
        assert forall|i: int| 0 <= i < ts.len() implies all.contains(#[trigger] ts[i]) by {
            if i < front.len() {
                assert(before.contains(front[i]));
                let j = choose|j: int| 0 <= j < before.len() && before[j] == ts[i];
                assert(all[j] == ts[i]);
            } else if !before.contains(ts.last()) {
                assert(all[all.len() - 1] == ts.last());
            }
        }
        assert forall|k: int| 0 <= k < all.len() implies ts.contains(#[trigger] all[k]) by {
            if k < before.len() {
                assert(front.contains(before[k]));
                let i = choose|i: int| 0 <= i < front.len() && front[i] == before[k];
                assert(ts[i] == all[k]);
            } else {
                assert(ts[ts.len() - 1] == all[k]);
            }
        }
    }
}

} // verus!
