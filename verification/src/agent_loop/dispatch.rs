//! How a batch of tool calls runs: the stages of one call, and the order of the calls of a
//! batch. Tools, hooks and the check of arguments are outside; what they come to is handed
//! in.
use vstd::prelude::*;
use crate::agent_loop::message::{
    answers, loop_events, result_blocks, LoopEvent, LoopEventView, LoopToolResultView, ResultBlockView, ToolCall,
    ToolResultMessage, ToolResultMessageView,
};
use crate::agent_loop::tools::{
    after_result, all_terminate, answer_of, answers_of, all_message_events, armed, check_arguments,
    conclude_prepare, create_tool_result_message, distinct_numbers, drain_truncation_notes, end_event,
    executed_outcome, failure, finalize_executed_tool_call, find_tool, finish_parallel, hook_refusal,
    law_first_tool_of_a_name, law_notes_take_nothing_away,
    maybe_arm_escalation_for_syntactic_failure, message_events, prepend_notes_to_result,
    should_terminate_tool_batch, start_event, tell_message, tool_at, tool_execution_end, with_notes,
    AfterToolCallResult, Checked, Escalation, EscalationReasonView, EscalationView, ExecuteEnd,
    ExecutedOutcome, ExecutedToolCallBatch, FinalizedOutcome, HookReply, KeptNotes, PrepareOutcome, Validation,
};
use crate::text::{in_order, lemma_occurs_between, occurs, texts};

verus! {

/// Where a call stands; every stage but the last names what is to be done next.
#[derive(Debug)]
pub enum CallStage {
    /// The arguments are to be prepared for the tool at this position, and checked.
    Check { tool: usize },
    /// The hook before the call is to be asked, where there is one.
    Ask { tool: usize, args: String, notes: Vec<String> },
    /// The tool is to run.
    Run { tool: usize, args: String, notes: Vec<String> },
    /// The hook after the call is to be asked, where there is one.
    After { args: String, notes: Vec<String>, executed: ExecutedOutcome },
    /// The call has its result.
    Done { finalized: FinalizedOutcome },
}

/// What was done for a call.
#[derive(Debug)]
pub enum CallEvent {
    Checked { prepared_args: String, validation: Validation },
    Asked { hook: Option<HookReply>, cancelled: bool },
    Ran { end: ExecuteEnd },
    AskedAfter { after: Option<AfterToolCallResult> },
}

/// What is counted of the check of a call's arguments: the kinds of repair, each once, and
/// whether they were beyond repair.
#[derive(Debug)]
pub struct Counted {
    pub kinds: Vec<u32>,
    pub invalid: bool,
}

/// The call was answered with a failure.
pub open spec fn refused(s: CallStage, call: ToolCall, why: Seq<char>) -> bool {
    match s {
        CallStage::Done { finalized } => {
            &&& finalized.tool_call@ == call@
            &&& finalized.result@ == failure(why)
            &&& finalized.is_error
        },
        _ => false,
    }
}

/// The first stage of a call.
pub open spec fn first_stage(names: Seq<Seq<char>>, call: ToolCall, s: CallStage) -> bool {
    let k = tool_at(names, call.name@);
    if k < names.len() {
        s == (CallStage::Check { tool: k as usize })
    } else {
        refused(s, call, "Tool "@ + call.name@ + " not found"@)
    }
}

/// Begins a call: what to tell of it, and its first stage. A call for a tool that there is
/// not is answered at once.
pub fn begin_call(names: &Vec<String>, call: &ToolCall) -> (r: (LoopEvent, CallStage))
    ensures
        r.0@ == (LoopEventView::ToolExecutionStart { call: call@ }),
        first_stage(texts(names@), *call, r.1),
{
    let e = start_event(call);
    match find_tool(names, call) {
        Ok(tool) => (e, CallStage::Check { tool }),
        Err(result) => (
            e,
            CallStage::Done {
                finalized: FinalizedOutcome { tool_call: call.clone(), result, is_error: true },
            },
        ),
    }
}

/// The notes that were kept for a call.
pub open spec fn kept_for(kept: Map<Seq<char>, Vec<String>>, id: Seq<char>) -> Seq<Seq<char>> {
    if kept.contains_key(id) {
        texts(kept[id]@)
    } else {
        Seq::empty()
    }
}

/// The result of a tool whose work ended so.
pub open spec fn ran(end: ExecuteEnd, o: ExecutedOutcome) -> bool {
    match end {
        ExecuteEnd::Cancelled => o.is_error && o.result@ == failure(
            "tool execution aborted by cancellation signal"@,
        ),
        ExecuteEnd::Done(result) => !o.is_error && o.result == result,
        ExecuteEnd::Failed(e) => o.is_error && o.result@ == failure(e@),
    }
}

/// A tool's result in which the parts that the hook gives stand in the place of its own.
pub open spec fn merged(o: ExecutedOutcome, after: Option<AfterToolCallResult>) -> LoopToolResultView {
    match after {
        None => o.result@,
        Some(a) => LoopToolResultView {
            content: match a.content {
                Some(c) => result_blocks(c@),
                None => o.result@.content,
            },
            details: match a.details {
                Some(d) => d@,
                None => o.result@.details,
            },
            terminate: match a.terminate {
                Some(t) => Some(t),
                None => o.result@.terminate,
            },
        },
    }
}

/// Whether the result is a failure, once the hook was asked.
pub open spec fn merged_error(o: ExecutedOutcome, after: Option<AfterToolCallResult>) -> bool {
    match after {
        Some(a) => match a.is_error {
            Some(e) => e,
            None => o.is_error,
        },
        None => o.is_error,
    }
}

/// The stage that follows.
pub open spec fn next_stage(
    call: ToolCall,
    s: CallStage,
    event: CallEvent,
    kept: Map<Seq<char>, Vec<String>>,
    t: CallStage,
) -> bool {
    match (s, event) {
        (CallStage::Check { tool }, CallEvent::Checked { prepared_args, validation }) => {
            match validation {
                Validation::Valid => {
                    &&& t matches CallStage::Ask { tool: k, args, notes }
                    &&& k == tool
                    &&& args == prepared_args
                    &&& texts(notes@) == kept_for(kept, call.id@)
                },
                Validation::Repaired { args: repaired, kinds, notes: why } => {
                    &&& t matches CallStage::Ask { tool: k, args, notes }
                    &&& k == tool
                    &&& args == repaired
                    &&& texts(notes@) == texts(why@) + kept_for(kept, call.id@)
                },
                Validation::Invalid { message } => refused(t, call, message@),
            }
        },
        (CallStage::Ask { tool, args, notes }, CallEvent::Asked { hook, cancelled }) => {
            match hook_refusal(hook, cancelled) {
                Some(why) => refused(t, call, why),
                None => t == (CallStage::Run {
                    tool,
                    args: match hook {
                        Some(h) => h.args,
                        None => args,
                    },
                    notes,
                }),
            }
        },
        (CallStage::Run { tool, args, notes }, CallEvent::Ran { end }) => {
            &&& t matches CallStage::After { args: a, notes: n, executed }
            &&& a == args
            &&& n == notes
            &&& ran(end, executed)
        },
        (CallStage::After { args, notes, executed }, CallEvent::AskedAfter { after }) => {
            &&& t matches CallStage::Done { finalized }
            &&& finalized.tool_call@ == call@
            &&& finalized.result@ == with_notes(merged(executed, after), texts(notes@))
            &&& finalized.is_error == merged_error(executed, after)
        },
        _ => t == s,
    }
}

/// What a step does to the choice of the model for the next request.
pub open spec fn next_escalation(
    call: ToolCall,
    s: CallStage,
    event: CallEvent,
    e: EscalationView,
) -> EscalationView {
    match (s, event) {
        (
            CallStage::Check { .. },
            CallEvent::Checked { validation: Validation::Invalid { .. }, .. },
        ) => armed(e, EscalationReasonView::RepairExhausted { tool: call.name@ }),
        (CallStage::After { notes, executed, .. }, CallEvent::AskedAfter { after }) => after_result(
            e,
            call.name@,
            with_notes(merged(executed, after), texts(notes@)),
            merged_error(executed, after),
        ),
        _ => e,
    }
}

/// The notes that were kept for a call are used up when its arguments are accepted.
pub open spec fn next_kept(
    call: ToolCall,
    s: CallStage,
    event: CallEvent,
    kept: Map<Seq<char>, Vec<String>>,
) -> Map<Seq<char>, Vec<String>> {
    match (s, event) {
        (CallStage::Check { .. }, CallEvent::Checked { validation, .. }) => match validation {
            Validation::Invalid { .. } => kept,
            _ => kept.remove(call.id@),
        },
        _ => kept,
    }
}

/// What a step counts.
pub open spec fn counted_of(s: CallStage, event: CallEvent) -> (Seq<u32>, bool) {
    match (s, event) {
        (CallStage::Check { .. }, CallEvent::Checked { validation, .. }) => match validation {
            Validation::Valid => (Seq::empty(), false),
            Validation::Repaired { kinds, .. } => (distinct_numbers(kinds@), false),
            Validation::Invalid { .. } => (Seq::empty(), true),
        },
        _ => (Seq::empty(), false),
    }
}

fn no_count() -> (r: Counted)
    ensures
        r.kinds@ == Seq::<u32>::empty(),
        !r.invalid,
{
    Counted { kinds: Vec::new(), invalid: false }
}

/// Takes a call one stage further. What does not belong to the stage changes nothing.
pub fn advance_call(
    call: &ToolCall,
    stage: CallStage,
    event: CallEvent,
    escalation: &mut Escalation,
    kept: &mut KeptNotes,
) -> (r: (CallStage, Counted))
    ensures
        next_stage(*call, stage, event, old(kept)@, r.0),
        final(escalation)@ == next_escalation(*call, stage, event, old(escalation)@),
        final(kept)@ == next_kept(*call, stage, event, old(kept)@),
        (r.1.kinds@, r.1.invalid) == counted_of(stage, event),
{
    match (stage, event) {
        (CallStage::Check { tool }, CallEvent::Checked { prepared_args, validation }) => {
            match check_arguments(escalation, call, prepared_args, validation) {
                Checked::Refused { result } => {
                    let finalized = FinalizedOutcome { tool_call: call.clone(), result, is_error: true };
                    (CallStage::Done { finalized }, Counted { kinds: Vec::new(), invalid: true })
                },
                Checked::Accepted { args, notes, recorded } => {
                    let mut all = notes;
                    drain_truncation_notes(kept, call.id.as_str(), &mut all);
                    assert(texts(all@) =~= texts(notes@) + kept_for(old(kept)@, call.id@));
                    (CallStage::Ask { tool, args, notes: all }, Counted { kinds: recorded, invalid: false })
                },
            }
        },
        (CallStage::Ask { tool, args, notes }, CallEvent::Asked { hook, cancelled }) => {
            match conclude_prepare(args, notes, hook, cancelled) {
                PrepareOutcome::Immediate { result, is_error } => (
                    CallStage::Done {
                        finalized: FinalizedOutcome { tool_call: call.clone(), result, is_error },
                    },
                    no_count(),
                ),
                PrepareOutcome::Prepared { args, notes } => (
                    CallStage::Run { tool, args, notes },
                    no_count(),
                ),
            }
        },
        (CallStage::Run { tool, args, notes }, CallEvent::Ran { end }) => {
            let executed = executed_outcome(end);
            (CallStage::After { args, notes, executed }, no_count())
        },
        (CallStage::After { args, notes, executed }, CallEvent::AskedAfter { after }) => {
            let ghost want = merged(executed, after);
            let mut finalized = finalize_executed_tool_call(call.clone(), executed, after);
            assert(finalized.result@ == want);
            prepend_notes_to_result(&mut finalized.result, &notes);
            maybe_arm_escalation_for_syntactic_failure(
                escalation,
                call,
                &finalized.result,
                finalized.is_error,
            );
            (CallStage::Done { finalized }, no_count())
        },
        (s, _) => (s, no_count()),
    }
}

/// A call runs only where its arguments were accepted, and neither the hook nor a
/// cancelled run is against it; a call that has its result keeps it.
pub proof fn law_only_admitted_calls_run(
    call: ToolCall,
    s: CallStage,
    event: CallEvent,
    kept: Map<Seq<char>, Vec<String>>,
    t: CallStage,
)
    requires
        next_stage(call, s, event, kept, t),
    ensures
        t is Ask && !(s is Ask) ==> s is Check && (event matches CallEvent::Checked { validation, .. } ==> !(
        validation is Invalid)),
        t is Run && !(s is Run) ==> s is Ask && (event matches CallEvent::Asked { hook, cancelled } ==> (
        hook_refusal(hook, cancelled) is None && !cancelled)),
        s is Done ==> t == s,
{
}

/// The calls whose results these are, in this order.
pub open spec fn results_of(fs: Seq<FinalizedOutcome>, cs: Seq<ToolCall>) -> bool {
    &&& fs.len() <= cs.len()
    &&& forall|i: int| 0 <= i < fs.len() ==> (#[trigger] fs[i]).tool_call@ == cs[i]@
}

/// A result at hand is that of the call.
pub open spec fn stage_of(s: CallStage, call: ToolCall) -> bool {
    s matches CallStage::Done { finalized } ==> finalized.tool_call@ == call@
}

/// What is told when the call at `k` begins, where there is one.
pub open spec fn begin_events(cs: Seq<ToolCall>, k: int) -> Seq<LoopEventView> {
    if k < cs.len() {
        seq![LoopEventView::ToolExecutionStart { call: cs[k]@ }]
    } else {
        Seq::empty()
    }
}

/// A batch of calls that are carried out one after the other: the next begins when the one
/// before it is answered.
#[derive(Debug)]
pub struct SequentialRun {
    names: Vec<String>,
    calls: Vec<ToolCall>,
    stage: Option<CallStage>,
    finalized: Vec<FinalizedOutcome>,
    messages: Vec<ToolResultMessage>,
}

impl SequentialRun {
    /// The names of the tools.
    pub closed spec fn tools(&self) -> Seq<Seq<char>> {
        texts(self.names@)
    }

    /// The calls of the batch.
    pub closed spec fn batch(&self) -> Seq<ToolCall> {
        self.calls@
    }

    /// Where the current call stands; `None` once the batch is over.
    pub closed spec fn at(&self) -> Option<CallStage> {
        self.stage
    }

    /// The answered calls with their results.
    pub closed spec fn done(&self) -> Seq<FinalizedOutcome> {
        self.finalized@
    }

    /// The answers so far.
    pub closed spec fn answered(&self) -> Seq<ToolResultMessageView> {
        answers(self.messages@)
    }

    /// The results are those of the first calls, in their order, and the current call is the
    /// one after them.
    pub open spec fn wf(&self) -> bool {
        &&& results_of(self.done(), self.batch())
        &&& self.answered().len() == self.done().len()
        &&& forall|i: int|
            0 <= i < self.answered().len() ==> (#[trigger] self.answered()[i]).tool_call_id
                == self.batch()[i].id@
        &&& self.at() matches Some(s) ==> self.done().len() < self.batch().len() && stage_of(
            s,
            self.batch()[self.done().len() as int],
        )
    }

    /// Begins the batch with its first call.
    pub fn begin(names: Vec<String>, calls: Vec<ToolCall>) -> (r: (Self, Vec<LoopEvent>))
        ensures
            r.0.wf(),
            r.0.tools() == texts(names@),
            r.0.batch() == calls@,
            r.0.done().len() == 0,
            match r.0.at() {
                Some(s) => calls@.len() > 0 && first_stage(texts(names@), calls@[0], s),
                None => calls@.len() == 0,
            },
            loop_events(r.1@) == begin_events(calls@, 0),
    {
        let mut run = SequentialRun {
            names,
            calls,
            stage: None,
            finalized: Vec::new(),
            messages: Vec::new(),
        };
        let mut out: Vec<LoopEvent> = Vec::new();
        assert(loop_events(out@) =~= Seq::empty());
        assert(run.answered() =~= Seq::<ToolResultMessageView>::empty());
        if run.calls.len() > 0 {
            let (e, s) = begin_call(&run.names, &run.calls[0]);
            out.push(e);
            assert(loop_events(out@) =~= seq![e@]);
            run.stage = Some(s);
        }
        (run, out)
    }

    /// Where the current call stands.
    pub fn stage(&self) -> (r: Option<&CallStage>)
        ensures
            match r {
                Some(s) => self.at() == Some(*s),
                None => self.at() is None,
            },
    {
        match &self.stage {
            Some(s) => Some(s),
            None => None,
        }
    }

    /// The current call.
    pub fn current(&self) -> (r: Option<&ToolCall>)
        requires
            self.wf(),
        ensures
            match r {
                Some(c) => self.at() is Some && *c == self.batch()[self.done().len() as int],
                None => self.at() is None,
            },
    {
        match &self.stage {
            Some(_) => Some(&self.calls[self.finalized.len()]),
            None => None,
        }
    }

    /// Takes the current call one stage further.
    pub fn step(
        &mut self,
        event: CallEvent,
        escalation: &mut Escalation,
        kept: &mut KeptNotes,
    ) -> (r: Counted)
        requires
            old(self).wf(),
        ensures
            final(self).wf(),
            final(self).tools() == old(self).tools(),
            final(self).batch() == old(self).batch(),
            final(self).done() == old(self).done(),
            final(self).answered() == old(self).answered(),
            match old(self).at() {
                Some(s) => {
                    let c = old(self).batch()[old(self).done().len() as int];
                    &&& final(self).at() is Some
                    &&& next_stage(c, s, event, old(kept)@, final(self).at()->0)
                    &&& final(escalation)@ == next_escalation(c, s, event, old(escalation)@)
                    &&& final(kept)@ == next_kept(c, s, event, old(kept)@)
                    &&& (r.kinds@, r.invalid) == counted_of(s, event)
                },
                None => {
                    &&& final(self).at() is None
                    &&& final(escalation)@ == old(escalation)@
                    &&& final(kept)@ == old(kept)@
                    &&& r.kinds@.len() == 0
                    &&& !r.invalid
                },
            },
    {
        match self.stage.take() {
            Some(s) => {
                let (t, counted) = advance_call(
                    &self.calls[self.finalized.len()],
                    s,
                    event,
                    escalation,
                    kept,
                );
                self.stage = Some(t);
                counted
            },
            None => no_count(),
        }
    }

    /// Answers the current call, which has its result, and begins the next one unless the
    /// run was cancelled: what to tell of both. `shown` are the texts of the result's blocks
    /// without secrets.
    pub fn settle(&mut self, shown: &Vec<String>, cancelled: bool) -> (r: Vec<LoopEvent>)
        requires
            old(self).wf(),
            old(self).at() matches Some(CallStage::Done { finalized })
                && finalized.result.content@.len() == shown@.len(),
        ensures
            final(self).wf(),
            final(self).tools() == old(self).tools(),
            final(self).batch() == old(self).batch(),
            ({
                let f = (old(self).at()->0)->finalized;
                let m = answer_of(f.tool_call@, f.result@, f.is_error, texts(shown@));
                let k = old(self).done().len() + 1;
                &&& final(self).done() == old(self).done().push(f)
                &&& final(self).answered() == old(self).answered().push(m)
                &&& match final(self).at() {
                    Some(s) => !cancelled && k < old(self).batch().len() && first_stage(
                        old(self).tools(),
                        old(self).batch()[k as int],
                        s,
                    ),
                    None => cancelled || k >= old(self).batch().len(),
                }
                &&& loop_events(r@) == seq![end_event(f.tool_call@, f.result@, f.is_error)]
                    + message_events(m) + (if cancelled {
                    Seq::empty()
                } else {
                    begin_events(old(self).batch(), k as int)
                })
            }),
    {
        let ghost before = self.answered();
        let mut out: Vec<LoopEvent> = Vec::new();
        assert(loop_events(out@) =~= Seq::empty());
        match self.stage.take() {
            Some(CallStage::Done { finalized }) => {
                let e = tool_execution_end(&finalized);
                out.push(e);
                assert(loop_events(out@) =~= seq![e@]);
                let m = create_tool_result_message(&finalized, shown);
                tell_message(&mut out, &m);
                self.finalized.push(finalized);
                self.messages.push(m);
                assert(self.answered() =~= before.push(m@));
                let ghost told = loop_events(out@);
                let k: usize = self.finalized.len();
                if !cancelled && k < self.calls.len() {
                    let (e, s) = begin_call(&self.names, &self.calls[k]);
                    out.push(e);
                    assert(loop_events(out@) =~= told + seq![e@]);
                    self.stage = Some(s);
                } else {
                    assert(told + Seq::<LoopEventView>::empty() =~= told);
                }
            },
            _ => {},
        }
        out
    }

    /// The results of the batch.
    pub fn finish(self) -> (r: ExecutedToolCallBatch)
        ensures
            answers(r.messages@) == self.answered(),
            r.terminate == all_terminate(self.done()),
    {
        let terminate: bool = should_terminate_tool_batch(&self.finalized);
        ExecutedToolCallBatch { messages: self.messages, terminate }
    }
}

/// The stages stand for the first calls, in their order.
pub open spec fn stages_of(ss: Seq<CallStage>, cs: Seq<ToolCall>) -> bool {
    &&& ss.len() <= cs.len()
    &&& forall|i: int| 0 <= i < ss.len() ==> stage_of(#[trigger] ss[i], cs[i])
}

/// The call is not yet admitted or refused.
pub open spec fn is_pending(s: CallStage) -> bool {
    s is Check || s is Ask
}

/// What is told of a call that came from one stage to another.
pub open spec fn stage_events(s: CallStage, t: CallStage) -> Seq<LoopEventView> {
    match t {
        CallStage::Done { finalized } => if s is Done {
            Seq::empty()
        } else {
            seq![end_event(finalized.tool_call@, finalized.result@, finalized.is_error)]
        },
        _ => Seq::empty(),
    }
}

/// The results of calls that all have one.
pub open spec fn outcomes(ss: Seq<CallStage>) -> Seq<FinalizedOutcome> {
    Seq::new(ss.len(), |i: int| ss[i]->finalized)
}

/// What is told of a call that is refused as it begins.
pub open spec fn first_events(cs: Seq<ToolCall>, k: int, s: CallStage) -> Seq<LoopEventView> {
    begin_events(cs, k) + stage_events(CallStage::Check { tool: 0 }, s)
}

fn tell_stage(out: &mut Vec<LoopEvent>, stage: &CallStage)
    ensures
        loop_events(final(out)@) == loop_events(old(out)@) + stage_events(
            CallStage::Check { tool: 0 },
            *stage,
        ),
{
    let ghost before = loop_events(out@);
    match stage {
        CallStage::Done { finalized } => {
            let e = tool_execution_end(finalized);
            out.push(e);
            assert(loop_events(out@) =~= before + seq![e@]);
        },
        _ => {
            assert(before + Seq::<LoopEventView>::empty() =~= before);
        },
    }
}

/// A batch of calls that run side by side. They are admitted one after the other, in their
/// order; those that are admitted run at the same time, and each is told of when it is done;
/// the answers come in the order of the calls.
#[derive(Debug)]
pub struct ParallelRun {
    names: Vec<String>,
    calls: Vec<ToolCall>,
    stages: Vec<CallStage>,
    closed: bool,
}

impl ParallelRun {
    /// The names of the tools.
    pub closed spec fn tools(&self) -> Seq<Seq<char>> {
        texts(self.names@)
    }

    /// The calls of the batch.
    pub closed spec fn batch(&self) -> Seq<ToolCall> {
        self.calls@
    }

    /// Where the calls stand that were begun.
    pub closed spec fn at(&self) -> Seq<CallStage> {
        self.stages@
    }

    /// No further call begins.
    pub closed spec fn is_closed(&self) -> bool {
        self.closed
    }

    /// Every stage is that of its call, and only the last call that was begun can be
    /// pending.
    pub open spec fn wf(&self) -> bool {
        &&& stages_of(self.at(), self.batch())
        &&& forall|i: int| 0 <= i < self.at().len() - 1 ==> !is_pending(#[trigger] self.at()[i])
        &&& self.is_closed() && self.at().len() > 0 ==> !is_pending(self.at().last())
        &&& !self.is_closed() ==> self.at().len() > 0
    }

    /// Begins the batch with its first call.
    pub fn begin(names: Vec<String>, calls: Vec<ToolCall>) -> (r: (Self, Vec<LoopEvent>))
        ensures
            r.0.wf(),
            r.0.tools() == texts(names@),
            r.0.batch() == calls@,
            r.0.is_closed() == (calls@.len() == 0),
            if calls@.len() == 0 {
                r.0.at().len() == 0 && r.1@.len() == 0
            } else {
                &&& r.0.at().len() == 1
                &&& first_stage(texts(names@), calls@[0], r.0.at()[0])
                &&& loop_events(r.1@) == first_events(calls@, 0, r.0.at()[0])
            },
    {
        let mut run = ParallelRun { names, calls, stages: Vec::new(), closed: true };
        let mut out: Vec<LoopEvent> = Vec::new();
        if run.calls.len() > 0 {
            let (e, s) = begin_call(&run.names, &run.calls[0]);
            out.push(e);
            assert(loop_events(out@) =~= begin_events(run.calls@, 0));
            tell_stage(&mut out, &s);
            run.stages.push(s);
            run.closed = false;
        }
        (run, out)
    }

    /// Number of calls that were begun.
    pub fn begun(&self) -> (r: usize)
        ensures
            r == self.at().len(),
    {
        self.stages.len()
    }

    /// Where a call stands.
    pub fn stage(&self, i: usize) -> (r: Option<&CallStage>)
        ensures
            match r {
                Some(s) => i < self.at().len() && *s == self.at()[i as int],
                None => i >= self.at().len(),
            },
    {
        if i < self.stages.len() {
            Some(&self.stages[i])
        } else {
            None
        }
    }

    /// Takes a call one stage further: what is counted and what is told of it.
    pub fn step(
        &mut self,
        i: usize,
        event: CallEvent,
        escalation: &mut Escalation,
        kept: &mut KeptNotes,
    ) -> (r: (Counted, Vec<LoopEvent>))
        requires
            old(self).wf(),
            i < old(self).at().len(),
        ensures
            final(self).wf(),
            final(self).tools() == old(self).tools(),
            final(self).batch() == old(self).batch(),
            final(self).is_closed() == old(self).is_closed(),
            ({
                let c = old(self).batch()[i as int];
                let s = old(self).at()[i as int];
                let t = final(self).at()[i as int];
                &&& final(self).at() == old(self).at().update(i as int, t)
                &&& next_stage(c, s, event, old(kept)@, t)
                &&& final(escalation)@ == next_escalation(c, s, event, old(escalation)@)
                &&& final(kept)@ == next_kept(c, s, event, old(kept)@)
                &&& ((r.0).kinds@, (r.0).invalid) == counted_of(s, event)
                &&& loop_events(r.1@) == stage_events(s, t)
            }),
    {
        let ghost before = self.stages@;
        let mut out: Vec<LoopEvent> = Vec::new();
        assert(loop_events(out@) =~= Seq::empty());
        let s = self.stages.remove(i);
        let was_done: bool = match &s {
            CallStage::Done { .. } => true,
            _ => false,
        };
        let (t, counted) = advance_call(&self.calls[i], s, event, escalation, kept);
        if !was_done {
            tell_stage(&mut out, &t);
            assert(loop_events(out@) =~= stage_events(s, t));
        }
        self.stages.insert(i, t);
        assert(self.stages@ =~= before.update(i as int, t));
        (counted, out)
    }

    /// Begins the next call, once the last that was begun is admitted or refused, unless the
    /// run was cancelled: what to tell of it.
    pub fn begin_next(&mut self, cancelled: bool) -> (r: Vec<LoopEvent>)
        requires
            old(self).wf(),
            !old(self).is_closed() ==> !is_pending(old(self).at().last()),
        ensures
            final(self).wf(),
            final(self).tools() == old(self).tools(),
            final(self).batch() == old(self).batch(),
            ({
                let k = old(self).at().len();
                if old(self).is_closed() || cancelled || k >= old(self).batch().len() {
                    &&& final(self).is_closed()
                    &&& final(self).at() == old(self).at()
                    &&& r@.len() == 0
                } else {
                    &&& !final(self).is_closed()
                    &&& final(self).at() == old(self).at().push(final(self).at().last())
                    &&& first_stage(old(self).tools(), old(self).batch()[k as int], final(self).at().last())
                    &&& loop_events(r@) == first_events(
                        old(self).batch(),
                        k as int,
                        final(self).at().last(),
                    )
                }
            }),
    {
        let mut out: Vec<LoopEvent> = Vec::new();
        let k: usize = self.stages.len();
        if self.closed || cancelled || k >= self.calls.len() {
            self.closed = true;
            return out;
        }
        let (e, s) = begin_call(&self.names, &self.calls[k]);
        out.push(e);
        assert(loop_events(out@) =~= begin_events(self.calls@, k as int));
        tell_stage(&mut out, &s);
        self.stages.push(s);
        out
    }

    /// The results of the batch, in the order of its calls, and what to tell of the answers;
    /// `None` while a call is not done. `shown` has the texts of the blocks of each result
    /// without secrets.
    pub fn finish(self, shown: &Vec<Vec<String>>) -> (r: Option<(ExecutedToolCallBatch, Vec<LoopEvent>)>)
        requires
            self.wf(),
            shown@.len() == self.at().len(),
            forall|i: int|
                0 <= i < self.at().len() ==> (#[trigger] self.at()[i] is Done ==> shown@[i]@.len()
                    == self.at()[i]->finalized.result.content@.len()),
        ensures
            match r {
                Some((b, es)) => {
                    &&& forall|i: int| 0 <= i < self.at().len() ==> #[trigger] self.at()[i] is Done
                    &&& answers(b.messages@) == answers_of(outcomes(self.at()), shown@)
                    &&& b.terminate == all_terminate(outcomes(self.at()))
                    &&& loop_events(es@) == all_message_events(
                        answers_of(outcomes(self.at()), shown@),
                    )
                    &&& results_of(outcomes(self.at()), self.batch())
                },
                None => exists|i: int| 0 <= i < self.at().len() && !(#[trigger] self.at()[i] is Done),
            },
    {
        let ghost all = self.stages@;
        let mut rest = self.stages;
        let mut finalized: Vec<FinalizedOutcome> = Vec::new();
        while rest.len() > 0
            invariant
                all == self.at(),
                rest@.len() <= all.len(),
                rest@ == all.take(rest@.len() as int),
                finalized@.len() + rest@.len() == all.len(),
                forall|i: int| rest@.len() <= i < all.len() ==> #[trigger] all[i] is Done,
                forall|i: int|
                    0 <= i < finalized@.len() ==> #[trigger] finalized@[i] == all[i
                        + rest@.len()]->finalized,
            decreases rest@.len(),
        {
            let ghost n = rest@.len() - 1;
            let ghost kept = finalized@;
            let last = rest.pop();
            assert(rest@ =~= all.take(n as int));
            assert(last == Some(all[n as int]));
            match last {
                Some(CallStage::Done { finalized: f }) => {
                    finalized.insert(0, f);
                    assert forall|i: int| 0 <= i < finalized@.len() implies #[trigger] finalized@[i]
                        == all[i + n]->finalized by {
                        if i > 0 {
                            assert(finalized@[i] == kept[i - 1]);
                            assert(kept[i - 1] == all[i - 1 + (n + 1)]->finalized);
                        }
                    }
                },
                _ => {
                    assert(!(self.at()[n as int] is Done));
                    return None;
                },
            }
        }
        assert(finalized@ =~= outcomes(all));
        assert forall|i: int| 0 <= i < finalized@.len() implies (#[trigger] shown@[i])@.len()
            == finalized@[i].result.content@.len() by {
            assert(self.at()[i] is Done);
        }
        assert forall|i: int| 0 <= i < outcomes(all).len() implies (#[trigger] outcomes(all)[i]).tool_call@
            == self.batch()[i]@ by {
            assert(all[i] is Done);
            assert(stage_of(self.at()[i], self.batch()[i]));
        }
        Some(finish_parallel(&finalized, shown))
    }
}

/// Whichever call is done first, the answers stand in the order of the calls: the one at a
/// position is that to the call at the same position.
pub proof fn law_answers_follow_the_calls(
    fs: Seq<FinalizedOutcome>,
    shown: Seq<Vec<String>>,
    cs: Seq<ToolCall>,
    i: int,
)
    requires
        results_of(fs, cs),
        0 <= i < fs.len(),
    ensures
        answers_of(fs, shown).len() == fs.len(),
        answers_of(fs, shown)[i].tool_call_id == cs[i].id@,
        answers_of(fs, shown)[i].tool_name == cs[i].name@,
        answers_of(fs, shown)[i].is_error == fs[i].is_error,
{
    assert(fs[i].tool_call@ == cs[i]@);
}

/// A call that nothing speaks against runs with its own arguments, and its tool's result is what
/// it comes to: with arguments that are good and no hooks, the tool that was found for it runs
/// with exactly the prepared arguments, and the blocks of what it returns stand unchanged behind
/// the notes that were kept for the call; it is a failure exactly where the tool failed or was
/// cut off, and a tool that failed has its message told. `s` to `v` are the stages.
pub proof fn law_a_call_comes_to_its_result(
    call: ToolCall,
    tool: usize,
    prepared_args: String,
    end: ExecuteEnd,
    kept: Map<Seq<char>, Vec<String>>,
    s: CallStage,
    t: CallStage,
    u: CallStage,
    v: CallStage,
)
    requires
        next_stage(
            call,
            CallStage::Check { tool },
            CallEvent::Checked { prepared_args, validation: Validation::Valid },
            kept,
            s,
        ),
        next_stage(call, s, CallEvent::Asked { hook: None, cancelled: false }, kept, t),
        next_stage(call, t, CallEvent::Ran { end }, kept, u),
        next_stage(call, u, CallEvent::AskedAfter { after: None }, kept, v),
    ensures
        t matches CallStage::Run { tool: k, args, .. } && k == tool && args == prepared_args,
        v is Done,
        ({
            let f = v->finalized;
            let noted = kept.contains_key(call.id@) && kept[call.id@]@.len() > 0;
            let more: int = if noted {
                1
            } else {
                0
            };
            &&& f.tool_call@ == call@
            &&& f.is_error == !(end is Done)
            &&& end matches ExecuteEnd::Done(r) ==> f.result@.content.skip(more) == r@.content
                && f.result@.content.len() == r@.content.len() + more && f.result@.details == r@.details
                && f.result@.terminate == r@.terminate
            &&& end matches ExecuteEnd::Failed(e) ==> f.result@.content.last() == ResultBlockView::Text(e@)
            &&& noted ==> f.result@.content[0] is Text && in_order(
                f.result@.content[0]->Text_0,
                texts(kept[call.id@]@),
            )
        }),
{
    let notes = s->Ask_notes;
    assert(t->Run_notes == notes);
    assert(u->After_notes == notes);
    let o = u->executed;
    law_notes_take_nothing_away(o.result@, texts(notes@));
    assert(texts(notes@).len() == notes@.len());
    assert(v->finalized.result@ == with_notes(o.result@, texts(notes@)));
    assert(kept_for(kept, call.id@) == texts(notes@));
    match end {
        ExecuteEnd::Failed(e) => {
            let c = v->finalized.result@.content;
            assert(o.result@.content.len() == 1);
            assert(o.result@.content[0] == ResultBlockView::Text(e@));
            assert(c.last() == with_notes(o.result@, texts(notes@)).content.last());
        },
        _ => {},
    }
}

/// The hook after a call decides over each part of the result that it gives, and over no
/// other: where it gives content, that is the content whatever the tool returned, and what it
/// leaves out stays as the tool returned it.
pub proof fn law_hook_replaces_what_it_gives(o: ExecutedOutcome, p: ExecutedOutcome, a: AfterToolCallResult)
    ensures
        a.content matches Some(c) ==> merged(o, Some(a)).content == result_blocks(c@),
        a.content is None ==> merged(o, Some(a)).content == o.result@.content,
        a.details matches Some(d) ==> merged(o, Some(a)).details == d@,
        a.details is None ==> merged(o, Some(a)).details == o.result@.details,
        a.terminate is Some ==> merged(o, Some(a)).terminate == a.terminate,
        a.terminate is None ==> merged(o, Some(a)).terminate == o.result@.terminate,
        a.is_error matches Some(e) ==> merged_error(o, Some(a)) == e,
        a.is_error is None ==> merged_error(o, Some(a)) == o.is_error,
        merged(o, None) == o.result@,
        merged_error(o, None) == o.is_error,
        a.content is Some && a.details is Some && a.terminate is Some ==> merged(o, Some(a)) == merged(
            p,
            Some(a),
        ),
{
}

/// A call for a tool that there is not is refused by name and never runs; a call whose arguments
/// are beyond repair is refused with the message of the check, sends the next request to a
/// stronger model where one is left, and keeps its notes.
pub proof fn law_bad_calls_are_refused(
    names: Seq<Seq<char>>,
    call: ToolCall,
    s: CallStage,
    tool: usize,
    prepared_args: String,
    message: String,
    kept: Map<Seq<char>, Vec<String>>,
    t: CallStage,
    e: EscalationView,
)
    requires
        names.len() <= usize::MAX,
        first_stage(names, call, s),
        next_stage(
            call,
            CallStage::Check { tool },
            CallEvent::Checked { prepared_args, validation: Validation::Invalid { message } },
            kept,
            t,
        ),
    ensures
        s is Done <==> !names.contains(call.name@),
        s is Done ==> s->finalized.is_error && s->finalized.result@.content.len() == 1
            && s->finalized.result@.content[0] is Text && occurs(
            s->finalized.result@.content[0]->Text_0,
            call.name@,
        ),
        s matches CallStage::Check { tool: k } ==> k < names.len() && names[k as int] == call.name@,
        t is Done && t->finalized.is_error,
        t->finalized.result@.content == seq![ResultBlockView::Text(message@)],
        ({
            let after = next_escalation(
                call,
                CallStage::Check { tool },
                CallEvent::Checked { prepared_args, validation: Validation::Invalid { message } },
                e,
            );
            e.remaining > 0 ==> after.remaining == e.remaining - 1 && after.pending is Some
        }),
{
    law_first_tool_of_a_name(names, call.name@);
    let k = tool_at(names, call.name@);
    if k < names.len() {
        assert(names[k] == call.name@);
    }
    lemma_occurs_between("Tool "@, call.name@, " not found"@);
}

} // verus!
