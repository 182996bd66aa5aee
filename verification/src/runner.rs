//! A run of the agent: the boundaries of its turns, what is shown of its stream, what
//! history it is given, and whether a failed run is tried again.
use vstd::prelude::*;
use crate::compression::tokens_of;
use crate::platform::{lowercase, lowercase_of};
use crate::recovery::{
    classify_lowered, explain_error, explanation, kind_of, law_explanation_holds_the_cause, least_wait, spread,
    ErrorKind, RecoveryPolicy,
};
use crate::session::{MessageRole, Session, SessionMessage, ToolCallEntry, ToolCallState};
use crate::text::{
    cat, copy_text, decimal, decimal_of, has_at, in_order, lemma_in_order_more, lemma_in_order_next,
    lemma_in_order_none, lemma_in_order_occurs, occurs, text_view,
};

verus! {

/// Where a stream stands between turns. A turn is one answer of the model with the tool
/// calls in it and their results.
#[derive(Clone, Copy, Debug, PartialEq, Eq, Structural)]
pub enum TurnState {
    /// No turn is open; the next one gets this number.
    Idle { next_index: u32 },
    /// The turn of this number is open.
    InTurn { index: u32 },
    /// The turn of this number is open and has a tool result; it ends with the next
    /// content or with the stream.
    AwaitingNext { index: u32 },
}

/// The start or the end of a turn.
#[derive(Clone, Copy, Debug, PartialEq, Eq, Structural)]
pub enum Boundary {
    Start { index: u32 },
    End { index: u32 },
}

/// Tells where turns start and end in a stream.
#[derive(Debug)]
pub struct TurnTracker {
    state: TurnState,
}

/// The number of the open turn, or of the next one.
pub open spec fn turn_number(t: TurnState) -> u32 {
    match t {
        TurnState::Idle { next_index } => next_index,
        TurnState::InTurn { index } => index,
        TurnState::AwaitingNext { index } => index,
    }
}

/// A number is left for the turn that content of the assistant starts.
pub open spec fn room_for_content(t: TurnState) -> bool {
    t is AwaitingNext ==> turn_number(t) < u32::MAX
}

/// A number is left for the turn after the one that the end of the stream ends.
pub open spec fn room_for_end(t: TurnState) -> bool {
    !(t is Idle) ==> turn_number(t) < u32::MAX
}

/// What content of the assistant does: the state after it, and the boundaries before it.
pub open spec fn on_content(t: TurnState) -> (TurnState, Seq<Boundary>) {
    match t {
        TurnState::Idle { next_index } => (
            TurnState::InTurn { index: next_index },
            seq![Boundary::Start { index: next_index }],
        ),
        TurnState::InTurn { index } => (t, Seq::empty()),
        TurnState::AwaitingNext { index } => (
            TurnState::InTurn { index: (index + 1) as u32 },
            seq![Boundary::End { index }, Boundary::Start { index: (index + 1) as u32 }],
        ),
    }
}

/// What a tool result does.
pub open spec fn on_result(t: TurnState) -> TurnState {
    match t {
        TurnState::Idle { next_index } => t,
        TurnState::InTurn { index } => TurnState::AwaitingNext { index },
        TurnState::AwaitingNext { index } => t,
    }
}

/// What the end of the stream does: the state after it, and the boundaries at it.
pub open spec fn on_end(t: TurnState) -> (TurnState, Seq<Boundary>) {
    match t {
        TurnState::Idle { next_index } => (t, Seq::empty()),
        TurnState::InTurn { index } => (
            TurnState::Idle { next_index: (index + 1) as u32 },
            seq![Boundary::End { index }],
        ),
        TurnState::AwaitingNext { index } => (
            TurnState::Idle { next_index: (index + 1) as u32 },
            seq![Boundary::End { index }],
        ),
    }
}

impl TurnTracker {
    /// Where the stream stands.
    pub closed spec fn now(&self) -> TurnState {
        self.state
    }

    /// A tracker before its first stream.
    pub fn new() -> (r: Self)
        ensures
            r.now() == (TurnState::Idle { next_index: 0 }),
    {
        TurnTracker { state: TurnState::Idle { next_index: 0 } }
    }

    /// The number of the open turn, or of the next one.
    pub fn turn_index(&self) -> (r: u32)
        ensures
            r == turn_number(self.now()),
    {
        match self.state {
            TurnState::Idle { next_index } => next_index,
            TurnState::InTurn { index } => index,
            TurnState::AwaitingNext { index } => index,
        }
    }

    /// Content of the assistant comes next: the boundaries to tell of before it.
    pub fn observe_assistant_content(&mut self) -> (r: Vec<Boundary>)
        requires
            room_for_content(old(self).now()),
        ensures
            final(self).now() == on_content(old(self).now()).0,
            r@ == on_content(old(self).now()).1,
    {
        let mut out: Vec<Boundary> = Vec::new();
        match self.state {
            TurnState::Idle { next_index } => {
                self.state = TurnState::InTurn { index: next_index };
                out.push(Boundary::Start { index: next_index });
            },
            TurnState::InTurn { index } => {},
            TurnState::AwaitingNext { index } => {
                let next: u32 = index + 1;
                self.state = TurnState::InTurn { index: next };
                out.push(Boundary::End { index });
                out.push(Boundary::Start { index: next });
            },
        }
        assert(out@ =~= on_content(old(self).now()).1);
        out
    }

    /// A tool result was told of.
    pub fn observe_tool_result(&mut self)
        ensures
            final(self).now() == on_result(old(self).now()),
    {
        match self.state {
            TurnState::Idle { next_index } => {},
            TurnState::InTurn { index } => {
                self.state = TurnState::AwaitingNext { index };
            },
            TurnState::AwaitingNext { index } => {},
        }
    }

    /// The stream ended: the boundaries to tell of.
    pub fn observe_stream_end(&mut self) -> (r: Vec<Boundary>)
        requires
            room_for_end(old(self).now()),
        ensures
            final(self).now() == on_end(old(self).now()).0,
            r@ == on_end(old(self).now()).1,
    {
        let mut out: Vec<Boundary> = Vec::new();
        match self.state {
            TurnState::Idle { next_index } => {},
            TurnState::InTurn { index } => {
                self.state = TurnState::Idle { next_index: index + 1 };
                out.push(Boundary::End { index });
            },
            TurnState::AwaitingNext { index } => {
                self.state = TurnState::Idle { next_index: index + 1 };
                out.push(Boundary::End { index });
            },
        }
        assert(out@ =~= on_end(old(self).now()).1);
        out
    }
}

/// What a tracker is told of.
pub enum Observed {
    Content,
    ToolResult,
    StreamEnd,
}

/// The state after what was observed, and all the boundaries told of.
pub open spec fn followed(os: Seq<Observed>) -> (TurnState, Seq<Boundary>)
    decreases os.len(),
{
    if os.len() == 0 {
        (TurnState::Idle { next_index: 0 }, Seq::empty())
    } else {
        let (t, told) = followed(os.drop_last());
        match os.last() {
            Observed::Content => (on_content(t).0, told + on_content(t).1),
            Observed::ToolResult => (on_result(t), told),
            Observed::StreamEnd => (on_end(t).0, told + on_end(t).1),
        }
    }
}

/// Whatever a tracker observes, the boundaries it tells of are the start and the end of
/// turn 0, of turn 1 and so on; a turn is open exactly while its end was not told of,
/// and none is open after the end of a stream. However much is observed, all that is bounded
/// is the number of turns: they are numbered in a `u32`.
pub proof fn law_turns_are_bracketed(os: Seq<Observed>)
    requires
        followed(os).1.len() < 2 * u32::MAX,
    ensures
        ({
            let (t, told) = followed(os);
            &&& turn_number(t) <= os.len()
            &&& told.len() == 2 * turn_number(t) + (if t is Idle {
                0int
            } else {
                1
            })
            &&& forall|k: int|
                0 <= k < told.len() ==> #[trigger] told[k] == (if k % 2 == 0 {
                    Boundary::Start { index: (k / 2) as u32 }
                } else {
                    Boundary::End { index: (k / 2) as u32 }
                })
            &&& os.len() > 0 && os.last() is StreamEnd ==> t is Idle
        }),
    decreases os.len(),
{
    if os.len() > 0 {
        law_turns_are_bracketed(os.drop_last());
        let (t0, told0) = followed(os.drop_last());
        let (t, told) = followed(os);
        assert forall|k: int| 0 <= k < told.len() implies #[trigger] told[k] == (if k % 2 == 0 {
            Boundary::Start { index: (k / 2) as u32 }
        } else {
            Boundary::End { index: (k / 2) as u32 }
        }) by {
            if k < told0.len() {
                assert(told[k] == told0[k]);
            }
        }
    }
}

/// An item of the model's stream. The arguments of a tool call are JSON text; a part of
/// a tool result that is no text is `None`.
#[derive(Debug)]
pub enum StreamItem {
    Text(String),
    Reasoning(String),
    ToolCall { id: String, name: String, args: String },
    ToolResult { id: String, parts: Vec<Option<String>> },
    FinalResponse(String),
    Error(String),
    Other,
}

/// What the user interface is told of a run.
#[derive(Debug)]
pub enum AgentEvent {
    TurnStart { index: u32 },
    TurnEnd { index: u32 },
    Token(String),
    Reasoning(String),
    ToolCall { id: String, name: String, args: String },
    ToolResult { id: String, output: String },
    Interjected { partial_response: String, tokens: u64 },
    Done { response: String, tokens: u64 },
    Error(String),
}

/// What the user interface is told of a run.
pub enum AgentEventView {
    TurnStart { index: u32 },
    TurnEnd { index: u32 },
    Token(Seq<char>),
    Reasoning(Seq<char>),
    ToolCall { id: Seq<char>, name: Seq<char>, args: Seq<char> },
    ToolResult { id: Seq<char>, output: Seq<char> },
    Interjected { partial_response: Seq<char>, tokens: int },
    Done { response: Seq<char>, tokens: int },
    Error(Seq<char>),
}

impl View for AgentEvent {
    type V = AgentEventView;

    open spec fn view(&self) -> AgentEventView {
        match self {
            AgentEvent::TurnStart { index } => AgentEventView::TurnStart { index: *index },
            AgentEvent::TurnEnd { index } => AgentEventView::TurnEnd { index: *index },
            AgentEvent::Token(s) => AgentEventView::Token(s@),
            AgentEvent::Reasoning(s) => AgentEventView::Reasoning(s@),
            AgentEvent::ToolCall { id, name, args } => AgentEventView::ToolCall {
                id: id@,
                name: name@,
                args: args@,
            },
            AgentEvent::ToolResult { id, output } => AgentEventView::ToolResult {
                id: id@,
                output: output@,
            },
            AgentEvent::Interjected { partial_response, tokens } => AgentEventView::Interjected {
                partial_response: partial_response@,
                tokens: *tokens as int,
            },
            AgentEvent::Done { response, tokens } => AgentEventView::Done {
                response: response@,
                tokens: *tokens as int,
            },
            AgentEvent::Error(s) => AgentEventView::Error(s@),
        }
    }
}

/// The events by their contents.
pub open spec fn events(v: Seq<AgentEvent>) -> Seq<AgentEventView> {
    Seq::new(v.len(), |i: int| v[i]@)
}

/// What is told of a boundary.
pub open spec fn boundary_event(b: Boundary) -> AgentEventView {
    match b {
        Boundary::Start { index } => AgentEventView::TurnStart { index },
        Boundary::End { index } => AgentEventView::TurnEnd { index },
    }
}

/// What is told of boundaries.
pub open spec fn boundary_events(bs: Seq<Boundary>) -> Seq<AgentEventView> {
    Seq::new(bs.len(), |i: int| boundary_event(bs[i]))
}

/// The parts of a result by their texts.
pub open spec fn part_texts(v: Seq<Option<String>>) -> Seq<Option<Seq<char>>> {
    Seq::new(
        v.len(),
        |i: int|
            match v[i] {
                Some(s) => Some(s@),
                None => None,
            },
    )
}

/// The texts among the parts, each on a line of its own once there is any text.
pub open spec fn result_text(ps: Seq<Option<Seq<char>>>) -> Seq<char>
    decreases ps.len(),
{
    if ps.len() == 0 {
        Seq::empty()
    } else {
        let before = result_text(ps.drop_last());
        match ps.last() {
            None => before,
            Some(t) => if before.len() == 0 {
                t
            } else {
                before + "\n"@ + t
            },
        }
    }
}

/// What to do after an item of the stream.
#[derive(Clone, Copy, Debug, PartialEq, Eq, Structural)]
pub enum Next {
    /// Take the next item.
    Go,
    /// Look whether the user has spoken up, then take the next item.
    AskInterject,
    /// The run is over.
    Stop,
}

/// What is kept of a stream: where its turns stand, the text so far, whether a tool was
/// called, what went wrong, and whether the user cut it short.
#[verifier::ext_equal]
pub struct StreamRunView {
    pub turn: TurnState,
    pub partial: Seq<char>,
    pub had_tool_calls: bool,
    pub error: Option<Seq<char>>,
    pub interjected: bool,
}

/// What an item of the stream does: what is kept after it, what is told of it, and what
/// to do next.
pub open spec fn on_item(r: StreamRunView, item: StreamItem) -> (StreamRunView, Seq<AgentEventView>, Next) {
    let (opened, before) = on_content(r.turn);
    let (closed, at_end) = on_end(r.turn);
    match item {
        StreamItem::Text(t) => (
            StreamRunView { turn: opened, partial: r.partial + t@, ..r },
            boundary_events(before).push(AgentEventView::Token(t@)),
            Next::Go,
        ),
        StreamItem::Reasoning(t) => (
            StreamRunView { turn: opened, ..r },
            boundary_events(before).push(AgentEventView::Reasoning(t@)),
            Next::Go,
        ),
        StreamItem::ToolCall { id, name, args } => (
            StreamRunView { turn: opened, had_tool_calls: true, ..r },
            boundary_events(before).push(
                AgentEventView::ToolCall { id: id@, name: name@, args: args@ },
            ),
            Next::Go,
        ),
        StreamItem::ToolResult { id, parts } => (
            StreamRunView { turn: on_result(r.turn), had_tool_calls: true, ..r },
            seq![
                AgentEventView::ToolResult { id: id@, output: result_text(part_texts(parts@)) },
            ],
            Next::AskInterject,
        ),
        StreamItem::FinalResponse(t) => (
            StreamRunView { turn: closed, ..r },
            boundary_events(at_end).push(
                AgentEventView::Done { response: t@, tokens: tokens_of(t@.len()) as int },
            ),
            Next::Stop,
        ),
        StreamItem::Error(e) => (
            StreamRunView { turn: closed, error: Some(e@), ..r },
            boundary_events(at_end),
            Next::Stop,
        ),
        StreamItem::Other => (r, Seq::empty(), Next::Go),
    }
}

/// A number is left for the turn that an item of the stream starts or ends.
pub open spec fn room_for_item(t: TurnState, item: StreamItem) -> bool {
    match item {
        StreamItem::Text(_) => room_for_content(t),
        StreamItem::Reasoning(_) => room_for_content(t),
        StreamItem::ToolCall { .. } => room_for_content(t),
        StreamItem::FinalResponse(_) => room_for_end(t),
        StreamItem::Error(_) => room_for_end(t),
        _ => true,
    }
}

/// A run over one stream of the model.
#[derive(Debug)]
pub struct StreamRun {
    turns: TurnTracker,
    partial: String,
    had_tool_calls: bool,
    error: Option<String>,
    interjected: bool,
}

impl View for StreamRun {
    type V = StreamRunView;

    closed spec fn view(&self) -> StreamRunView {
        StreamRunView {
            turn: self.turns.now(),
            partial: self.partial@,
            had_tool_calls: self.had_tool_calls,
            error: match self.error {
                Some(e) => Some(e@),
                None => None,
            },
            interjected: self.interjected,
        }
    }
}

fn tell(bs: &Vec<Boundary>) -> (r: Vec<AgentEvent>)
    ensures
        events(r@) == boundary_events(bs@),
{
    let mut out: Vec<AgentEvent> = Vec::new();
    let mut i: usize = 0;
    assert(events(out@) =~= boundary_events(bs@).take(0));
    while i < bs.len()
        invariant
            i <= bs@.len(),
            events(out@) == boundary_events(bs@).take(i as int),
        decreases bs@.len() - i,
    {
        let ghost before = events(out@);
        let e = match bs[i] {
            Boundary::Start { index } => AgentEvent::TurnStart { index },
            Boundary::End { index } => AgentEvent::TurnEnd { index },
        };
        out.push(e);
        proof {
            assert(events(out@) =~= before.push(e@));
            assert(boundary_events(bs@).take(i + 1) =~= boundary_events(bs@).take(i as int).push(
                boundary_event(bs@[i as int]),
            ));
        }
        i += 1;
    }
    assert(boundary_events(bs@).take(i as int) =~= boundary_events(bs@));
    out
}

fn tell_then(bs: &Vec<Boundary>, e: AgentEvent) -> (r: Vec<AgentEvent>)
    ensures
        events(r@) == boundary_events(bs@).push(e@),
{
    let mut out = tell(bs);
    let ghost before = events(out@);
    out.push(e);
    assert(events(out@) =~= before.push(e@));
    out
}

/// The texts among the parts of a tool result, each on a line of its own once there is
/// any text.
pub fn tool_result_text(parts: &Vec<Option<String>>) -> (r: String)
    ensures
        r@ == result_text(part_texts(parts@)),
{
    let ghost all = part_texts(parts@);
    let mut out = String::new();
    let mut i: usize = 0;
    assert(all.take(0) =~= Seq::empty());
    assert(out@ =~= Seq::empty());
    while i < parts.len()
        invariant
            all == part_texts(parts@),
            i <= parts@.len(),
            out@ == result_text(all.take(i as int)),
        decreases parts@.len() - i,
    {
        proof {
            assert(all.take(i + 1).drop_last() =~= all.take(i as int));
            assert(all.take(i + 1).last() == all[i as int]);
        }
        match &parts[i] {
            Some(t) => {
                if out.as_str().is_empty() {
                    out = t.clone();
                } else {
                    out.append("\n");
                    out.append(t.as_str());
                }
            },
            None => {},
        }
        i += 1;
    }
    assert(all.take(i as int) =~= all);
    out
}

impl StreamRun {
    /// A run before its first item.
    pub fn new() -> (r: Self)
        ensures
            r@ == (StreamRunView {
                turn: TurnState::Idle { next_index: 0 },
                partial: Seq::empty(),
                had_tool_calls: false,
                error: None,
                interjected: false,
            }),
    {
        let r = StreamRun {
            turns: TurnTracker::new(),
            partial: String::new(),
            had_tool_calls: false,
            error: None,
            interjected: false,
        };
        assert(r.partial@ =~= Seq::empty());
        r
    }

    /// The number of the open turn, or of the next one.
    pub fn turn_index(&self) -> (r: u32)
        ensures
            r == turn_number(self@.turn),
    {
        self.turns.turn_index()
    }

    /// Takes in the next item of the stream: what to tell of it, and what to do next.
    pub fn step(&mut self, item: &StreamItem) -> (r: (Vec<AgentEvent>, Next))
        requires
            room_for_item(old(self)@.turn, *item),
        ensures
            final(self)@ == on_item(old(self)@, *item).0,
            events(r.0@) == on_item(old(self)@, *item).1,
            r.1 == on_item(old(self)@, *item).2,
    {
        match item {
            StreamItem::Text(t) => {
                let bs = self.turns.observe_assistant_content();
                self.partial.append(t.as_str());
                (tell_then(&bs, AgentEvent::Token(t.clone())), Next::Go)
            },
            StreamItem::Reasoning(t) => {
                let bs = self.turns.observe_assistant_content();
                (tell_then(&bs, AgentEvent::Reasoning(t.clone())), Next::Go)
            },
            StreamItem::ToolCall { id, name, args } => {
                let bs = self.turns.observe_assistant_content();
                self.had_tool_calls = true;
                let e = AgentEvent::ToolCall {
                    id: id.clone(),
                    name: name.clone(),
                    args: args.clone(),
                };
                (tell_then(&bs, e), Next::Go)
            },
            StreamItem::ToolResult { id, parts } => {
                self.had_tool_calls = true;
                let output = tool_result_text(parts);
                let mut out: Vec<AgentEvent> = Vec::new();
                let e = AgentEvent::ToolResult { id: id.clone(), output };
                out.push(e);
                assert(events(out@) =~= seq![e@]);
                self.turns.observe_tool_result();
                (out, Next::AskInterject)
            },
            StreamItem::FinalResponse(t) => {
                let bs = self.turns.observe_stream_end();
                let tokens: u64 = Session::estimate_tokens(t.as_str());
                (tell_then(&bs, AgentEvent::Done { response: t.clone(), tokens }), Next::Stop)
            },
            StreamItem::Error(e) => {
                let bs = self.turns.observe_stream_end();
                self.error = Some(e.clone());
                (tell(&bs), Next::Stop)
            },
            StreamItem::Other => {
                let out: Vec<AgentEvent> = Vec::new();
                assert(events(out@) =~= Seq::empty());
                (out, Next::Go)
            },
        }
    }

    /// The user has spoken up: closes the turn and hands the text so far back.
    pub fn interject(&mut self) -> (r: Vec<AgentEvent>)
        requires
            room_for_end(old(self)@.turn),
        ensures
            final(self)@ == (StreamRunView {
                turn: on_end(old(self)@.turn).0,
                interjected: true,
                ..old(self)@
            }),
            events(r@) == boundary_events(on_end(old(self)@.turn).1).push(
                AgentEventView::Interjected {
                    partial_response: old(self)@.partial,
                    tokens: tokens_of(old(self)@.partial.len()) as int,
                },
            ),
    {
        let bs = self.turns.observe_stream_end();
        self.interjected = true;
        let tokens: u64 = Session::estimate_tokens(self.partial.as_str());
        tell_then(&bs, AgentEvent::Interjected { partial_response: self.partial.clone(), tokens })
    }

    /// The stream ended without a final response: closes the turn.
    pub fn close(&mut self) -> (r: Vec<AgentEvent>)
        requires
            room_for_end(old(self)@.turn),
        ensures
            final(self)@ == (StreamRunView { turn: on_end(old(self)@.turn).0, ..old(self)@ }),
            events(r@) == boundary_events(on_end(old(self)@.turn).1),
    {
        let bs = self.turns.observe_stream_end();
        tell(&bs)
    }
}

/// Name of a kind of failure.
pub open spec fn kind_name(k: ErrorKind) -> Seq<char> {
    match k {
        ErrorKind::ContextLength => "ContextLength"@,
        ErrorKind::RateLimit => "RateLimit"@,
        ErrorKind::Network => "Network"@,
        ErrorKind::Auth => "Auth"@,
        ErrorKind::Other => "Other"@,
    }
}

/// What follows a run over a stream.
#[derive(Debug)]
pub enum RetryStep {
    /// Nothing more.
    Stop,
    /// The user is told of the failure.
    Fail(String),
    /// The user is told that the run is tried again, after a wait.
    Retry(String),
}

/// What follows a run over a stream.
pub enum RetryStepView {
    Stop,
    Fail(Seq<char>),
    Retry(Seq<char>),
}

impl View for RetryStep {
    type V = RetryStepView;

    open spec fn view(&self) -> RetryStepView {
        match self {
            RetryStep::Stop => RetryStepView::Stop,
            RetryStep::Fail(s) => RetryStepView::Fail(s@),
            RetryStep::Retry(s) => RetryStepView::Retry(s@),
        }
    }
}

/// What follows a run after `attempts` failed ones, of which at most `limit` are retried;
/// `lower` is the failure's message in lower case.
pub open spec fn after_run(r: StreamRunView, lower: Seq<char>, attempts: nat, limit: nat) -> RetryStepView {
    match r.error {
        None => RetryStepView::Stop,
        Some(m) => {
            let kind = kind_of(lower);
            let told = explanation(m, lower, attempts + 1);
            if r.interjected {
                RetryStepView::Stop
            } else if kind == ErrorKind::Auth || kind == ErrorKind::Other || kind
                == ErrorKind::ContextLength {
                RetryStepView::Fail(told)
            } else if r.had_tool_calls {
                RetryStepView::Fail(
                    told + "\n  ↳ note: tool side effects already applied; not retrying."@,
                )
            } else if attempts >= limit {
                RetryStepView::Fail(told + "\n  ↳ note: retries exhausted."@)
            } else {
                RetryStepView::Retry(
                    "retrying ("@ + kind_name(kind) + " error, attempt "@ + decimal_of(attempts + 1)
                        + "/"@ + decimal_of(limit) + ")..."@,
                )
            }
        },
    }
}

/// Counts the failed runs for one prompt.
pub struct RetryLoop {
    policy: RecoveryPolicy,
    attempts: usize,
}

impl RetryLoop {
    /// Failed runs so far.
    pub closed spec fn attempts(&self) -> nat {
        self.attempts as nat
    }

    /// Failed runs that are tried again.
    pub closed spec fn limit(&self) -> nat {
        self.policy.limit() as nat
    }

    /// No more runs failed than are tried again, which is but a few, and the first wait is
    /// a second.
    pub closed spec fn wf(&self) -> bool {
        self.attempts <= self.policy.limit() <= 3 && self.policy.base() == 1000
    }

    /// A count before the first run, with the usual policy.
    pub fn new() -> (r: Self)
        ensures
            r.wf(),
            r.attempts() == 0,
            r.limit() == 3,
    {
        RetryLoop { policy: RecoveryPolicy::default(), attempts: 0 }
    }

    /// What follows a run whose failure's message reads `lower` in lower case.
    pub fn decide_lowered(&mut self, run: &StreamRun, lower: &str) -> (r: RetryStep)
        requires
            old(self).wf(),
        ensures
            final(self).wf(),
            r@ == after_run(run@, lower@, old(self).attempts(), old(self).limit()),
            final(self).limit() == old(self).limit(),
            final(self).attempts() == old(self).attempts() + (if r@ is Retry {
                1nat
            } else {
                0nat
            }),
    {
        if run.interjected {
            return RetryStep::Stop;
        }
        let msg = match &run.error {
            Some(m) => m,
            None => {
                return RetryStep::Stop;
            },
        };
        let kind = classify_lowered(lower);
        let n: usize = self.attempts + 1;
        if kind == ErrorKind::Auth || kind == ErrorKind::Other || kind == ErrorKind::ContextLength {
            return RetryStep::Fail(explain_error(msg.as_str(), lower, n));
        }
        if run.had_tool_calls {
            let mut told = explain_error(msg.as_str(), lower, n);
            told.append("\n  ↳ note: tool side effects already applied; not retrying.");
            return RetryStep::Fail(told);
        }
        if !self.policy.should_retry(self.attempts, kind) {
            let mut told = explain_error(msg.as_str(), lower, n);
            told.append("\n  ↳ note: retries exhausted.");
            return RetryStep::Fail(told);
        }
        let name = match kind {
            ErrorKind::ContextLength => "ContextLength",
            ErrorKind::RateLimit => "RateLimit",
            ErrorKind::Network => "Network",
            ErrorKind::Auth => "Auth",
            ErrorKind::Other => "Other",
        };
        let mut out = cat("retrying (", name);
        out.append(" error, attempt ");
        let k = decimal(n as u128);
        out.append(k.as_str());
        out.append("/");
        let m = decimal(self.policy.max_retries() as u128);
        out.append(m.as_str());
        out.append(")...");
        self.attempts = n;
        RetryStep::Retry(out)
    }

    /// What follows a run.
    pub fn decide(&mut self, run: &StreamRun) -> (r: RetryStep)
        requires
            old(self).wf(),
        ensures
            final(self).wf(),
            r@ == after_run(
                run@,
                lowercase_of(
                    match run@.error {
                        Some(m) => m,
                        None => ""@,
                    },
                ),
                old(self).attempts(),
                old(self).limit(),
            ),
            final(self).limit() == old(self).limit(),
            final(self).attempts() == old(self).attempts() + (if r@ is Retry {
                1nat
            } else {
                0nat
            }),
    {
        let msg = match &run.error {
            Some(m) => m.as_str(),
            None => "",
        };
        let lower = lowercase(msg);
        self.decide_lowered(run, lower.as_str())
    }

    /// Milliseconds to wait before the next run, after one that is tried again: a second
    /// doubled with each earlier failure, and up to a quarter more.
    pub fn delay(&self) -> (r: u64)
        requires
            self.wf(),
            self.attempts() > 0,
        ensures
            ({
                let least = least_wait(1000, (self.attempts() - 1) as usize);
                least <= r < least + spread(least)
            }),
    {
        self.policy.backoff_duration(self.attempts - 1)
    }
}

/// A run that called a tool, that the user cut short or that did not fail is never tried
/// again, and no run is once the limit is reached.
pub proof fn law_no_retry_after_side_effects(r: StreamRunView, lower: Seq<char>, attempts: nat, limit: nat)
    ensures
        after_run(r, lower, attempts, limit) is Retry ==> !r.had_tool_calls && !r.interjected
            && r.error is Some && attempts < limit,
        r.interjected || r.error is None ==> after_run(r, lower, attempts, limit) is Stop,
{
}

/// What is told of an item besides the boundaries of turns; of an error and of what is of no
/// interest nothing.
pub open spec fn told_of(item: StreamItem, e: AgentEventView) -> bool {
    match item {
        StreamItem::Text(t) => e == AgentEventView::Token(t@),
        StreamItem::Reasoning(t) => e == AgentEventView::Reasoning(t@),
        StreamItem::ToolCall { id, name, args } => e == (AgentEventView::ToolCall {
            id: id@,
            name: name@,
            args: args@,
        }),
        StreamItem::ToolResult { id, parts } => e is ToolResult && e->ToolResult_id == id@ && in_order(
            e->output,
            given(part_texts(parts@)),
        ),
        StreamItem::FinalResponse(t) => e is Done && e->response == t@,
        _ => false,
    }
}

/// The texts among the parts.
pub open spec fn given(ps: Seq<Option<Seq<char>>>) -> Seq<Seq<char>>
    decreases ps.len(),
{
    if ps.len() == 0 {
        Seq::empty()
    } else {
        match ps.last() {
            Some(t) => given(ps.drop_last()).push(t),
            None => given(ps.drop_last()),
        }
    }
}

/// Every text among the parts of a tool result stands in what is told of it, in their order;
/// one text alone is told as it is.
pub proof fn law_result_parts_are_told(ps: Seq<Option<Seq<char>>>)
    ensures
        in_order(result_text(ps), given(ps)),
        given(ps).len() == 1 ==> result_text(ps) == given(ps)[0],
        given(ps).len() == 0 ==> result_text(ps).len() == 0,
    decreases ps.len(),
{
    if ps.len() == 0 {
        lemma_in_order_none(result_text(ps));
    } else {
        let front = ps.drop_last();
        law_result_parts_are_told(front);
        match ps.last() {
            Some(t) => {
                let before = result_text(front);
                if before.len() == 0 {
                    lemma_in_order_next(before, given(front), t);
                    assert(before + t =~= t);
                } else {
                    lemma_in_order_more(before, given(front), "\n"@);
                    lemma_in_order_next(before + "\n"@, given(front), t);
                }
            },
            None => {},
        }
    }
}

/// Every item of the stream is passed on with its contents: it is the last thing told of,
/// behind nothing but the boundaries of turns, and only an error and what is of no interest are
/// not told of. The text so far grows by each text and by nothing else; a run counts as having
/// called tools from the first call or result on; an error is kept with its message and ends the
/// run, as a final response does; and after a tool result, and only then, the user is heard.
pub proof fn law_stream_is_passed_on(r: StreamRunView, item: StreamItem)
    ensures
        ({
            let (after, told, next) = on_item(r, item);
            &&& !(item is Error || item is Other) ==> told.len() > 0 && told_of(item, told.last())
            &&& forall|k: int|
                0 <= k < told.len() - 1 ==> (#[trigger] told[k]) is TurnStart || told[k] is TurnEnd
            &&& item is Error ==> forall|k: int| 0 <= k < told.len() ==> (#[trigger] told[k]) is TurnEnd
            &&& item is Other ==> told.len() == 0 && after == r
            &&& after.partial == r.partial + (match item {
                StreamItem::Text(t) => t@,
                _ => Seq::empty(),
            })
            &&& after.had_tool_calls == (r.had_tool_calls || item is ToolCall || item is ToolResult)
            &&& after.error == (match item {
                StreamItem::Error(e) => Some(e@),
                _ => r.error,
            })
            &&& after.interjected == r.interjected
            &&& (next is Stop <==> item is FinalResponse || item is Error)
            &&& (next is AskInterject <==> item is ToolResult)
            &&& next is Stop ==> after.turn is Idle
            &&& item is Text || item is Reasoning || item is ToolCall ==> after.turn is InTurn
        }),
{
    let (after, told, next) = on_item(r, item);
    match item {
        StreamItem::ToolResult { id, parts } => {
            law_result_parts_are_told(part_texts(parts@));
        },
        _ => {},
    }
    assert(r.partial + Seq::<char>::empty() =~= r.partial);
}

/// A failed run is tried again exactly where the failure passes by itself, nothing was done by
/// tools, the user did not cut the run short and attempts are left. Where the user is told of a
/// failure, the message says what the provider said; where they are told of another attempt, it
/// says which one and of how many.
pub proof fn law_failures_are_told(r: StreamRunView, lower: Seq<char>, attempts: nat, limit: nat)
    ensures
        ({
            let step = after_run(r, lower, attempts, limit);
            let passing = kind_of(lower) == ErrorKind::RateLimit || kind_of(lower) == ErrorKind::Network;
            &&& (step is Stop <==> r.interjected || r.error is None)
            &&& (step is Retry <==> !r.interjected && r.error is Some && passing && !r.had_tool_calls && attempts
                < limit)
            &&& step matches RetryStepView::Fail(told) ==> occurs(told, r.error->0)
            &&& step matches RetryStepView::Retry(told) ==> in_order(
                told,
                seq![kind_name(kind_of(lower)), decimal_of(attempts + 1), decimal_of(limit)],
            )
        }),
{
    let step = after_run(r, lower, attempts, limit);
    match r.error {
        Some(m) => {
            let told = explanation(m, lower, attempts + 1);
            law_explanation_holds_the_cause(m, lower, attempts + 1);
            let ps = seq![m];
            let none = Seq::<Seq<char>>::empty();
            lemma_in_order_more(told, ps, "\n  ↳ note: tool side effects already applied; not retrying."@);
            lemma_in_order_more(told, ps, "\n  ↳ note: retries exhausted."@);
            match step {
                RetryStepView::Fail(t) => {
                    assert(in_order(t, ps));
                    lemma_in_order_occurs(t, ps, 0);
                },
                RetryStepView::Retry(t) => {
                    let k = kind_name(kind_of(lower));
                    let n = decimal_of(attempts + 1);
                    let l = decimal_of(limit);
                    let a = "retrying ("@;
                    lemma_in_order_none(a);
                    lemma_in_order_next(a, none, k);
                    let b = a + k;
                    lemma_in_order_more(b, none.push(k), " error, attempt "@);
                    let c = b + " error, attempt "@;
                    lemma_in_order_next(c, none.push(k), n);
                    lemma_in_order_more(c + n, none.push(k).push(n), "/"@);
                    let d = c + n + "/"@;
                    lemma_in_order_next(d, none.push(k).push(n), l);
                    lemma_in_order_more(d + l, none.push(k).push(n).push(l), ")..."@);
                    assert(none.push(k).push(n).push(l) =~= seq![k, n, l]);
                },
                RetryStepView::Stop => {},
            }
        },
        None => {},
    }
}

/// A tool call in the history given to the model.
#[derive(Debug)]
pub struct HistoryCall {
    pub id: String,
    pub name: String,
    pub args: Option<String>,
}

/// A message in the history given to the model.
#[derive(Debug)]
pub enum HistoryMessage {
    System(String),
    User(String),
    Assistant(String),
    /// Tool calls of the assistant, behind what it said, where it said something.
    Calls { text: Option<String>, calls: Vec<HistoryCall> },
    ToolResult { id: String, body: String },
}

/// A tool call in the history given to the model.
pub struct HistoryCallView {
    pub id: Seq<char>,
    pub name: Seq<char>,
    pub args: Option<Seq<char>>,
}

/// A message in the history given to the model.
pub enum HistoryView {
    System(Seq<char>),
    User(Seq<char>),
    Assistant(Seq<char>),
    Calls { text: Option<Seq<char>>, calls: Seq<HistoryCallView> },
    ToolResult { id: Seq<char>, body: Seq<char> },
}

impl View for HistoryCall {
    type V = HistoryCallView;

    open spec fn view(&self) -> HistoryCallView {
        HistoryCallView { id: self.id@, name: self.name@, args: text_view(self.args) }
    }
}

/// The calls by their contents.
pub open spec fn call_views(v: Seq<HistoryCall>) -> Seq<HistoryCallView> {
    Seq::new(v.len(), |i: int| v[i]@)
}

impl View for HistoryMessage {
    type V = HistoryView;

    open spec fn view(&self) -> HistoryView {
        match self {
            HistoryMessage::System(s) => HistoryView::System(s@),
            HistoryMessage::User(s) => HistoryView::User(s@),
            HistoryMessage::Assistant(s) => HistoryView::Assistant(s@),
            HistoryMessage::Calls { text, calls } => HistoryView::Calls {
                text: text_view(*text),
                calls: call_views(calls@),
            },
            HistoryMessage::ToolResult { id, body } => HistoryView::ToolResult {
                id: id@,
                body: body@,
            },
        }
    }
}

/// The messages by their contents.
pub open spec fn history_views(v: Seq<HistoryMessage>) -> Seq<HistoryView> {
    Seq::new(v.len(), |i: int| v[i]@)
}

/// What the model is told of the end of a tool call.
pub open spec fn end_text(s: ToolCallState) -> Seq<char> {
    match s {
        ToolCallState::Completed { result } => result@,
        ToolCallState::Interrupted => "[Tool execution was interrupted]"@,
        ToolCallState::Failed { error } => "[Tool error: "@ + error@ + "]"@,
    }
}

/// A tool call as the model is told of it.
pub open spec fn told_call(c: ToolCallEntry) -> HistoryCallView {
    HistoryCallView { id: c.id@, name: c.name@, args: text_view(c.args) }
}

/// Tool calls as the model is told of them.
pub open spec fn told_calls(cs: Seq<ToolCallEntry>) -> Seq<HistoryCallView> {
    Seq::new(cs.len(), |i: int| told_call(cs[i]))
}

/// The results of tool calls as the model is told of them.
pub open spec fn told_results(cs: Seq<ToolCallEntry>) -> Seq<HistoryView> {
    Seq::new(cs.len(), |i: int| HistoryView::ToolResult { id: cs[i].id@, body: end_text(cs[i].state) })
}

/// What a message of the session becomes in the history.
pub open spec fn entries_of(m: SessionMessage) -> Seq<HistoryView> {
    match m.role {
        MessageRole::User => seq![HistoryView::User(m.content@)],
        MessageRole::System => seq![HistoryView::System(m.content@)],
        MessageRole::Assistant => if m.tool_calls@.len() == 0 {
            seq![HistoryView::Assistant(m.content@)]
        } else {
            seq![
                HistoryView::Calls {
                    text: if m.content@.len() == 0 {
                        None
                    } else {
                        Some(m.content@)
                    },
                    calls: told_calls(m.tool_calls@),
                },
            ] + told_results(m.tool_calls@)
        },
    }
}

/// What messages of the session become in the history.
pub open spec fn entries_of_all(ms: Seq<SessionMessage>) -> Seq<HistoryView>
    decreases ms.len(),
{
    if ms.len() == 0 {
        Seq::empty()
    } else {
        entries_of_all(ms.drop_last()) + entries_of(ms.last())
    }
}

/// The history given to the model: the summary of what was compacted, then the messages
/// that were not.
pub open spec fn history_of(s: Session) -> Seq<HistoryView> {
    (match s.compaction {
        Some(c) => seq![
            HistoryView::System("[Previous conversation summary]\n"@ + c.summary@),
        ],
        None => Seq::empty(),
    }) + entries_of_all(s.messages@.skip(s.first_kept()))
}

fn tell_calls(cs: &Vec<ToolCallEntry>) -> (r: Vec<HistoryCall>)
    ensures
        call_views(r@) == told_calls(cs@),
{
    let mut out: Vec<HistoryCall> = Vec::new();
    let mut i: usize = 0;
    assert(call_views(out@) =~= told_calls(cs@).take(0));
    while i < cs.len()
        invariant
            i <= cs@.len(),
            call_views(out@) == told_calls(cs@).take(i as int),
        decreases cs@.len() - i,
    {
        let ghost before = call_views(out@);
        let c = HistoryCall {
            id: cs[i].id.clone(),
            name: cs[i].name.clone(),
            args: copy_text(&cs[i].args),
        };
        out.push(c);
        proof {
            assert(call_views(out@) =~= before.push(c@));
            assert(told_calls(cs@).take(i + 1) =~= told_calls(cs@).take(i as int).push(
                told_call(cs@[i as int]),
            ));
        }
        i += 1;
    }
    assert(told_calls(cs@).take(i as int) =~= told_calls(cs@));
    out
}

fn add_results(out: &mut Vec<HistoryMessage>, cs: &Vec<ToolCallEntry>)
    ensures
        history_views(final(out)@) == history_views(old(out)@) + told_results(cs@),
{
    let ghost start = history_views(out@);
    let mut i: usize = 0;
    assert(start + told_results(cs@).take(0) =~= start);
    while i < cs.len()
        invariant
            i <= cs@.len(),
            history_views(out@) == start + told_results(cs@).take(i as int),
        decreases cs@.len() - i,
    {
        let ghost before = history_views(out@);
        let body = match &cs[i].state {
            ToolCallState::Completed { result } => result.clone(),
            ToolCallState::Interrupted => "[Tool execution was interrupted]".to_owned(),
            ToolCallState::Failed { error } => {
                let mut t = cat("[Tool error: ", error.as_str());
                t.append("]");
                t
            },
        };
        let m = HistoryMessage::ToolResult { id: cs[i].id.clone(), body };
        out.push(m);
        proof {
            assert(history_views(out@) =~= before.push(m@));
            assert(start + told_results(cs@).take(i + 1) =~= (start + told_results(cs@).take(
                i as int,
            )).push(m@));
        }
        i += 1;
    }
    assert(told_results(cs@).take(i as int) =~= told_results(cs@));
}

fn add_entries(out: &mut Vec<HistoryMessage>, m: &SessionMessage)
    ensures
        history_views(final(out)@) == history_views(old(out)@) + entries_of(*m),
{
    let ghost start = history_views(out@);
    match m.role {
        MessageRole::User => {
            out.push(HistoryMessage::User(m.content.clone()));
            assert(history_views(out@) =~= start + entries_of(*m));
        },
        MessageRole::System => {
            out.push(HistoryMessage::System(m.content.clone()));
            assert(history_views(out@) =~= start + entries_of(*m));
        },
        MessageRole::Assistant => {
            if m.tool_calls.len() == 0 {
                out.push(HistoryMessage::Assistant(m.content.clone()));
                assert(history_views(out@) =~= start + entries_of(*m));
            } else {
                let text = if m.content.as_str().is_empty() {
                    None
                } else {
                    Some(m.content.clone())
                };
                let calls = tell_calls(&m.tool_calls);
                let first = HistoryMessage::Calls { text, calls };
                out.push(first);
                assert(history_views(out@) =~= start.push(first@));
                add_results(out, &m.tool_calls);
                assert(start.push(first@) + told_results(m.tool_calls@) =~= start + entries_of(*m));
            }
        },
    }
}

/// The history given to the model: the summary of what was compacted, then the messages
/// that were not, each tool call followed by its result.
pub fn convert_history(session: &Session) -> (r: Vec<HistoryMessage>)
    requires
        session.wf(),
    ensures
        history_views(r@) == history_of(*session),
{
    let (summary, first_kept) = session.compacted_context();
    let mut out: Vec<HistoryMessage> = Vec::new();
    let ghost kept = session.messages@.skip(session.first_kept());
    assert(history_views(out@) =~= Seq::empty());
    match summary {
        Some(s) => {
            let first = HistoryMessage::System(cat("[Previous conversation summary]\n", s));
            out.push(first);
            assert(history_views(out@) =~= seq![first@]);
        },
        None => {},
    }
    let ghost start = history_views(out@);
    let mut i: usize = first_kept;
    assert(kept.take(0) =~= Seq::empty());
    assert(start + Seq::<HistoryView>::empty() =~= start);
    while i < session.messages.len()
        invariant
            first_kept == session.first_kept(),
            first_kept <= i <= session.messages@.len(),
            kept == session.messages@.skip(session.first_kept()),
            history_views(out@) == start + entries_of_all(kept.take(i - first_kept)),
        decreases session.messages@.len() - i,
    {
        let ghost before = entries_of_all(kept.take(i - first_kept));
        add_entries(&mut out, &session.messages[i]);
        proof {
            let t = kept.take(i + 1 - first_kept);
            assert(t.drop_last() =~= kept.take(i - first_kept));
            assert(t.last() == session.messages@[i as int]);
            assert(start + before + entries_of(t.last()) =~= start + (before + entries_of(t.last())));
        }
        i += 1;
    }
    assert(kept.take(i - first_kept) =~= kept);
    out
}

/// Each list of calls is followed at once by one result per call, in the same order, and
/// there are no other results.
pub open spec fn is_paired(hs: Seq<HistoryView>) -> bool
    decreases hs.len(),
{
    if hs.len() == 0 {
        true
    } else {
        match hs[0] {
            HistoryView::ToolResult { id, body } => false,
            HistoryView::Calls { text, calls } => {
                &&& calls.len() < hs.len()
                &&& forall|i: int|
                    0 <= i < calls.len() ==> (#[trigger] hs[1 + i]) is ToolResult && hs[1 + i]->id
                        == calls[i].id
                &&& is_paired(hs.skip(1 + calls.len() as int))
            },
            _ => is_paired(hs.drop_first()),
        }
    }
}

proof fn lemma_paired_concat(a: Seq<HistoryView>, b: Seq<HistoryView>)
    requires
        is_paired(a),
        is_paired(b),
    ensures
        is_paired(a + b),
    decreases a.len(),
{
    let all = a + b;
    if a.len() == 0 {
        assert(all =~= b);
    } else {
        assert(all[0] == a[0]);
        match a[0] {
            HistoryView::ToolResult { id, body } => {},
            HistoryView::Calls { text, calls } => {
                let n = 1 + calls.len() as int;
                lemma_paired_concat(a.skip(n), b);
                assert(all.skip(n) =~= a.skip(n) + b);
                assert forall|i: int| 0 <= i < calls.len() implies (#[trigger] all[1 + i]) is ToolResult
                    && all[1 + i]->id == calls[i].id by {
                    assert(all[1 + i] == a[1 + i]);
                }
            },
            _ => {
                lemma_paired_concat(a.drop_first(), b);
                assert(all.drop_first() =~= a.drop_first() + b);
            },
        }
    }
}

proof fn lemma_entries_paired(m: SessionMessage)
    ensures
        is_paired(entries_of(m)),
{
    let es = entries_of(m);
    reveal_with_fuel(is_paired, 2);
    if m.role == MessageRole::Assistant && m.tool_calls@.len() > 0 {
        let n = m.tool_calls@.len();
        assert(es[0]->calls.len() == n);
        assert(es.skip(1 + n as int) =~= Seq::empty());
        assert forall|i: int| 0 <= i < n implies (#[trigger] es[1 + i]) is ToolResult && es[1 + i]->id
            == es[0]->calls[i].id by {
            assert(es[1 + i] == told_results(m.tool_calls@)[i]);
        }
    } else {
        assert(es.drop_first() =~= Seq::empty());
    }
}

proof fn lemma_all_paired(ms: Seq<SessionMessage>)
    ensures
        is_paired(entries_of_all(ms)),
    decreases ms.len(),
{
    if ms.len() > 0 {
        lemma_all_paired(ms.drop_last());
        lemma_entries_paired(ms.last());
        lemma_paired_concat(entries_of_all(ms.drop_last()), entries_of(ms.last()));
    }
}

/// In the history given to the model no tool call stands without its result and no result
/// without its call, however the call ended and whatever was compacted.
pub proof fn law_history_pairs_calls_with_results(s: Session)
    ensures
        is_paired(history_of(s)),
{
    let ms = s.messages@.skip(s.first_kept());
    lemma_all_paired(ms);
    match s.compaction {
        Some(c) => {
            let first = seq![HistoryView::System("[Previous conversation summary]\n"@ + c.summary@)];
            reveal_with_fuel(is_paired, 2);
            assert(first.drop_first() =~= Seq::empty());
            assert(is_paired(first));
            lemma_paired_concat(first, entries_of_all(ms));
        },
        None => {
            assert(history_of(s) =~= entries_of_all(ms));
        },
    }
}

/// The entry at `at` says what the message says: it is of the message's role and has exactly
/// its text, and where the assistant called tools, it lists each call with its id, name and
/// arguments, and the entries behind it say how each call ended.
pub open spec fn says(hs: Seq<HistoryView>, at: int, m: SessionMessage) -> bool {
    &&& 0 <= at < hs.len()
    &&& match m.role {
        MessageRole::User => hs[at] == HistoryView::User(m.content@),
        MessageRole::System => hs[at] == HistoryView::System(m.content@),
        MessageRole::Assistant => if m.tool_calls@.len() == 0 {
            hs[at] == HistoryView::Assistant(m.content@)
        } else {
            &&& hs[at] is Calls
            &&& m.content@.len() > 0 ==> hs[at]->text == Some(m.content@)
            &&& m.content@.len() == 0 ==> hs[at]->text is None
            &&& hs[at]->calls.len() == m.tool_calls@.len()
            &&& at + m.tool_calls@.len() < hs.len()
            &&& forall|k: int|
                0 <= k < m.tool_calls@.len() ==> {
                    let c = #[trigger] m.tool_calls@[k];
                    &&& hs[at]->calls[k].id == c.id@
                    &&& hs[at]->calls[k].name == c.name@
                    &&& hs[at]->calls[k].args == text_view(c.args)
                    &&& hs[at + 1 + k] is ToolResult
                    &&& hs[at + 1 + k]->id == c.id@
                    &&& c.state matches ToolCallState::Completed { result } ==> hs[at + 1 + k]->body == result@
                    &&& c.state matches ToolCallState::Failed { error } ==> occurs(
                        hs[at + 1 + k]->body,
                        error@,
                    ) && hs[at + 1 + k]->body != error@
                    &&& c.state is Interrupted ==> hs[at + 1 + k]->body == "[Tool execution was interrupted]"@
                }
        },
    }
}

/// Number of entries that a message takes: one, and one for the end of each tool call.
pub open spec fn taken(m: SessionMessage) -> int {
    if m.role == MessageRole::Assistant {
        1 + m.tool_calls@.len() as int
    } else {
        1
    }
}

proof fn lemma_entries_say(m: SessionMessage)
    ensures
        says(entries_of(m), 0, m),
        entries_of(m).len() == taken(m),
{
    let es = entries_of(m);
    if m.role == MessageRole::Assistant && m.tool_calls@.len() > 0 {
        assert forall|k: int| 0 <= k < m.tool_calls@.len() implies ({
            let c = #[trigger] m.tool_calls@[k];
            &&& es[0]->calls[k].id == c.id@
            &&& es[0]->calls[k].name == c.name@
            &&& es[0]->calls[k].args == text_view(c.args)
            &&& es[1 + k] is ToolResult
            &&& es[1 + k]->id == c.id@
            &&& c.state matches ToolCallState::Completed { result } ==> es[1 + k]->body == result@
            &&& c.state matches ToolCallState::Failed { error } ==> occurs(es[1 + k]->body, error@)
                && es[1 + k]->body != error@
            &&& c.state is Interrupted ==> es[1 + k]->body == "[Tool execution was interrupted]"@
        }) by {
            let c = m.tool_calls@[k];
            assert(es[1 + k] == told_results(m.tool_calls@)[k]);
            match c.state {
                ToolCallState::Failed { error } => {
                    let p = "[Tool error: "@;
                    reveal_strlit("]");
                    let body = p + error@ + "]"@;
                    assert(body.len() > error@.len());
                    assert(body.subrange(p.len() as int, (p.len() + error@.len()) as int) =~= error@);
                    assert(has_at(body, error@, p.len() as int));
                },
                _ => {},
            }
        }
    }
}

proof fn lemma_says_around(a: Seq<HistoryView>, hs: Seq<HistoryView>, b: Seq<HistoryView>, at: int, m: SessionMessage)
    requires
        says(hs, at, m),
    ensures
        says(a + hs + b, a.len() + at, m),
{
    let all = a + hs + b;
    assert(all[a.len() + at] == hs[at]);
    if m.role == MessageRole::Assistant {
        assert forall|k: int| 0 <= k < m.tool_calls@.len() implies #[trigger] all[a.len() + at + 1 + k]
            == hs[at + 1 + k] by {}
        assert forall|k: int| 0 <= k < m.tool_calls@.len() implies ({
            let c = #[trigger] m.tool_calls@[k];
            all[a.len() + at + 1 + k] == hs[at + 1 + k]
        }) by {}
    }
}

/// Position of the entry of the message at `i`, where the entries begin at 0.
pub open spec fn entry_at(ms: Seq<SessionMessage>, i: int) -> int
    decreases i,
{
    if i <= 0 {
        0
    } else {
        entry_at(ms, i - 1) + taken(ms[i - 1])
    }
}

proof fn lemma_all_say(ms: Seq<SessionMessage>)
    ensures
        entries_of_all(ms).len() == entry_at(ms, ms.len() as int),
        forall|i: int| 0 <= i < ms.len() ==> says(entries_of_all(ms), #[trigger] entry_at(ms, i), ms[i]),
    decreases ms.len(),
{
    if ms.len() > 0 {
        let front = ms.drop_last();
        let n = ms.len() - 1;
        lemma_all_say(front);
        lemma_entries_say(ms.last());
        lemma_entry_at_prefix(front, ms, n);
        let a = entries_of_all(front);
        assert forall|i: int| 0 <= i < ms.len() implies says(
            entries_of_all(ms),
            #[trigger] entry_at(ms, i),
            ms[i],
        ) by {
            if i < n {
                lemma_entry_at_prefix(front, ms, i);
                assert(says(a, entry_at(front, i), front[i]));
                lemma_says_around(Seq::empty(), a, entries_of(ms.last()), entry_at(front, i), ms[i]);
                assert(Seq::empty() + a + entries_of(ms.last()) =~= entries_of_all(ms));
            } else {
                lemma_says_around(a, entries_of(ms.last()), Seq::empty(), 0, ms[i]);
                assert(a + entries_of(ms.last()) + Seq::empty() =~= entries_of_all(ms));
            }
        }
    }
}

proof fn lemma_entry_at_prefix(a: Seq<SessionMessage>, b: Seq<SessionMessage>, i: int)
    requires
        i <= a.len() <= b.len(),
        forall|k: int| 0 <= k < a.len() ==> #[trigger] a[k] == b[k],
    ensures
        entry_at(a, i) == entry_at(b, i),
    decreases i,
{
    if i > 0 {
        lemma_entry_at_prefix(a, b, i - 1);
        assert(a[i - 1] == b[i - 1]);
    }
}

/// The history given to the model keeps everything that was said: it opens with the summary
/// of what was compacted, where something was; each message that was kept has its entry, of its
/// role and with exactly its text, its tool calls and how they ended; the entries stand in the
/// order of the messages, and there are no others.
pub proof fn law_history_keeps_what_was_said(s: Session)
    requires
        s.wf(),
    ensures
        ({
            let first: int = if s.compaction is Some {
                1
            } else {
                0
            };
            let ms = s.messages@.skip(s.first_kept());
            &&& s.compaction matches Some(c) ==> history_of(s)[0] is System && occurs(
                history_of(s)[0]->System_0,
                c.summary@,
            )
            &&& forall|i: int|
                s.first_kept() <= i < s.messages@.len() ==> says(
                    history_of(s),
                    first + entry_at(ms, i - s.first_kept()),
                    #[trigger] s.messages@[i],
                )
            &&& forall|i: int, j: int|
                0 <= i < j < ms.len() ==> #[trigger] entry_at(ms, i) < #[trigger] entry_at(ms, j)
            &&& history_of(s).len() == first + entry_at(ms, ms.len() as int)
        }),
{
    let first: int = if s.compaction is Some {
        1
    } else {
        0
    };
    let ms = s.messages@.skip(s.first_kept());
    let es = entries_of_all(ms);
    let head = match s.compaction {
        Some(c) => seq![HistoryView::System("[Previous conversation summary]\n"@ + c.summary@)],
        None => Seq::<HistoryView>::empty(),
    };
    lemma_all_say(ms);
    match s.compaction {
        Some(c) => {
            let p = "[Previous conversation summary]\n"@;
            let t = p + c.summary@;
            assert(t.subrange(p.len() as int, t.len() as int) =~= c.summary@);
            assert(has_at(t, c.summary@, p.len() as int));
        },
        None => {},
    }
    assert forall|i: int| s.first_kept() <= i < s.messages@.len() implies says(
        history_of(s),
        first + entry_at(ms, i - s.first_kept()),
        #[trigger] s.messages@[i],
    ) by {
        let k = i - s.first_kept();
        assert(ms[k] == s.messages@[i]);
        assert(says(es, entry_at(ms, k), ms[k]));
        lemma_says_around(head, es, Seq::empty(), entry_at(ms, k), ms[k]);
        assert(head + es + Seq::empty() =~= history_of(s));
    }
    assert forall|i: int, j: int| 0 <= i < j < ms.len() implies #[trigger] entry_at(ms, i)
        < #[trigger] entry_at(ms, j) by {
        lemma_entries_rise(ms, i, j);
    }
}

proof fn lemma_entries_rise(ms: Seq<SessionMessage>, i: int, j: int)
    requires
        0 <= i < j,
    ensures
        entry_at(ms, i) < entry_at(ms, j),
    decreases j,
{
    if i < j - 1 {
        lemma_entries_rise(ms, i, j - 1);
    }
}

/// What a run without a user interface prints of an item of the stream.
#[derive(Debug)]
pub enum Printed {
    /// Goes to the standard output and into the response.
    Answer(String),
    /// Goes to the standard error.
    Aside(String),
    Nothing,
    /// The run is over.
    Stop,
    /// The run is over; the message goes to the standard error.
    Failed(String),
}

/// Collects the response of a run without a user interface.
#[derive(Debug)]
pub struct PrintRun {
    full_response: String,
}

impl PrintRun {
    /// The response so far.
    pub closed spec fn response(&self) -> Seq<char> {
        self.full_response@
    }

    /// A run before its first item.
    pub fn new() -> (r: Self)
        ensures
            r.response() == Seq::<char>::empty(),
    {
        let r = PrintRun { full_response: String::new() };
        assert(r.full_response@ =~= Seq::empty());
        r
    }

    /// Takes in the next item of the stream: what to print of it.
    pub fn step(&mut self, item: &StreamItem) -> (r: Printed)
        ensures
            final(self).response() == (match *item {
                StreamItem::Text(t) => old(self).response() + t@,
                _ => old(self).response(),
            }),
            match *item {
                StreamItem::Text(t) => r is Answer && r->Answer_0@ == t@,
                StreamItem::Reasoning(t) => r is Aside && r->Aside_0@ == t@,
                StreamItem::FinalResponse(_) => r is Stop,
                StreamItem::Error(e) => r is Failed && r->Failed_0@ == "Error: "@ + e@,
                _ => r is Nothing,
            },
    {
        match item {
            StreamItem::Text(t) => {
                self.full_response.append(t.as_str());
                Printed::Answer(t.clone())
            },
            StreamItem::Reasoning(t) => Printed::Aside(t.clone()),
            StreamItem::FinalResponse(_) => Printed::Stop,
            StreamItem::Error(e) => Printed::Failed(cat("Error: ", e.as_str())),
            _ => Printed::Nothing,
        }
    }

    /// The whole response.
    pub fn finish(self) -> (r: String)
        ensures
            r@ == self.response(),
    {
        self.full_response
    }
}

} // verus!
