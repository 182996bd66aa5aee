//! Carrying out tool calls: which are refused, how results are put together, in what
//! order they are told of, and how each call gets an answer.
use vstd::hash_map::StringHashMap;
use vstd::prelude::*;
use crate::agent_loop::message::{
    answers, blocks, calls, loop_events, result_blocks, AssistantMessage, ContentBlock,
    ContentBlockView, LoopEvent, LoopEventView, LoopToolResult, LoopToolResultView, ResultBlock,
    ResultBlockView, ToolCall, ToolCallView, ToolResultMessage, ToolResultMessageView,
};
use crate::text::{
    begins, cat, find_char, has_no, in_order, join, join_of, law_joining_keeps_the_parts, lemma_find_char,
    lemma_find_char_is, part, same, starts_with, texts, to_chars,
};

verus! {

/// Stands at the start of the refusal of code that cannot be parsed.
pub const SYNTAX_CHECK_PREFIX: &'static str = "Syntax check failed for ";

/// The answer to a call that was never carried out.
pub const NOT_EXECUTED: &'static str = "[tool call not executed: it was suppressed as a repeated/looping call, or the run was interrupted. Do NOT repeat it — try a different approach.]";

/// Whether a tool may run beside others.
#[derive(Clone, Copy, Debug, PartialEq, Eq, Structural)]
pub enum ToolExecutionMode {
    Sequential,
    Parallel,
}

/// Why the next request goes to a stronger model.
#[derive(Debug)]
pub enum EscalationReason {
    RepairExhausted { tool: String },
    SyntacticFailure { tool: String, path: String },
}

/// Why the next request goes to a stronger model.
pub enum EscalationReasonView {
    RepairExhausted { tool: Seq<char> },
    SyntacticFailure { tool: Seq<char>, path: Seq<char> },
}

impl View for EscalationReason {
    type V = EscalationReasonView;

    open spec fn view(&self) -> EscalationReasonView {
        match self {
            EscalationReason::RepairExhausted { tool } => EscalationReasonView::RepairExhausted {
                tool: tool@,
            },
            EscalationReason::SyntacticFailure { tool, path } => {
                EscalationReasonView::SyntacticFailure { tool: tool@, path: path@ }
            },
        }
    }
}

/// How many more requests of a session may go to a stronger model, and whether the next
/// one does.
#[derive(Debug)]
pub struct Escalation {
    pub remaining: u32,
    pub pending: Option<EscalationReason>,
}

/// How many more requests may go to a stronger model, and whether the next one does.
pub struct EscalationView {
    pub remaining: u32,
    pub pending: Option<EscalationReasonView>,
}

impl View for Escalation {
    type V = EscalationView;

    open spec fn view(&self) -> EscalationView {
        EscalationView {
            remaining: self.remaining,
            pending: match self.pending {
                Some(r) => Some(r@),
                None => None,
            },
        }
    }
}

/// The next request is sent to a stronger model, unless none is left.
pub open spec fn armed(e: EscalationView, reason: EscalationReasonView) -> EscalationView {
    if e.remaining == 0 {
        e
    } else {
        EscalationView { remaining: (e.remaining - 1) as u32, pending: Some(reason) }
    }
}

/// Sends the next request to a stronger model, unless none is left.
pub fn try_arm_escalation(escalation: &mut Escalation, reason: EscalationReason)
    ensures
        final(escalation)@ == armed(old(escalation)@, reason@),
{
    if escalation.remaining == 0 {
        return;
    }
    escalation.remaining = escalation.remaining - 1;
    escalation.pending = Some(reason);
}

/// The results of a batch of tool calls, and whether the run ends with it.
#[derive(Debug)]
pub struct ExecutedToolCallBatch {
    pub messages: Vec<ToolResultMessage>,
    pub terminate: bool,
}

/// The result that stands for a failure.
pub open spec fn failure(message: Seq<char>) -> LoopToolResultView {
    LoopToolResultView {
        content: seq![ResultBlockView::Text(message)],
        details: "{}"@,
        terminate: None,
    }
}

/// The result that stands for a failure.
pub fn create_error_tool_result(message: &str) -> (r: LoopToolResult)
    ensures
        r@ == failure(message@),
{
    let mut content: Vec<ResultBlock> = Vec::new();
    content.push(ResultBlock::Text(message.to_owned()));
    assert(result_blocks(content@) =~= seq![ResultBlockView::Text(message@)]);
    LoopToolResult { content, details: "{}".to_owned(), terminate: None }
}

/// Position of the first tool of that name, or the number of tools.
pub open spec fn tool_at(names: Seq<Seq<char>>, name: Seq<char>) -> int
    decreases names.len(),
{
    if names.len() == 0 {
        0
    } else if names[0] == name {
        0
    } else {
        1 + tool_at(names.drop_first(), name)
    }
}

proof fn lemma_tool_at(names: Seq<Seq<char>>, name: Seq<char>, i: int)
    requires
        0 <= i <= names.len(),
        forall|k: int| 0 <= k < i ==> names[k] != name,
        i < names.len() ==> names[i] == name,
    ensures
        tool_at(names, name) == i,
    decreases names.len(),
{
    if i > 0 {
        assert(names[0] != name);
        let t = names.drop_first();
        assert forall|k: int| 0 <= k < i - 1 implies t[k] != name by {
            assert(t[k] == names[k + 1]);
        }
        lemma_tool_at(t, name, i - 1);
    }
}

/// Position of the tool that a call is for; a failure where there is none of that name.
pub fn find_tool(names: &Vec<String>, call: &ToolCall) -> (r: Result<usize, LoopToolResult>)
    ensures
        match r {
            Ok(i) => i == tool_at(texts(names@), call.name@) && i < names@.len(),
            Err(e) => tool_at(texts(names@), call.name@) == names@.len() && e@ == failure(
                "Tool "@ + call.name@ + " not found"@,
            ),
        },
{
    let ghost all = texts(names@);
    let mut i: usize = 0;
    while i < names.len()
        invariant
            all == texts(names@),
            i <= names@.len(),
            forall|k: int| 0 <= k < i ==> all[k] != call.name@,
        decreases names@.len() - i,
    {
        if same(names[i].as_str(), call.name.as_str()) {
            proof {
                assert(all[i as int] == call.name@);
                lemma_tool_at(all, call.name@, i as int);
            }
            return Ok(i);
        }
        i += 1;
    }
    proof {
        lemma_tool_at(all, call.name@, i as int);
    }
    let mut msg = cat("Tool ", call.name.as_str());
    msg.append(" not found");
    Err(create_error_tool_result(msg.as_str()))
}

/// What the check of a call's arguments came to. Kinds of repair are numbered.
#[derive(Debug)]
pub enum Validation {
    /// The arguments are good as they are.
    Valid,
    /// The arguments were repaired.
    Repaired { args: String, kinds: Vec<u32>, notes: Vec<String> },
    /// The arguments cannot be repaired; `message` says why.
    Invalid { message: String },
}

/// Each number once, in the order in which it first comes.
pub open spec fn distinct_numbers(ks: Seq<u32>) -> Seq<u32>
    decreases ks.len(),
{
    if ks.len() == 0 {
        Seq::empty()
    } else {
        let before = distinct_numbers(ks.drop_last());
        if before.contains(ks.last()) {
            before
        } else {
            before.push(ks.last())
        }
    }
}

fn has_number(v: &Vec<u32>, k: u32) -> (r: bool)
    ensures
        r == v@.contains(k),
{
    let mut i: usize = 0;
    while i < v.len()
        invariant
            i <= v@.len(),
            forall|j: int| 0 <= j < i ==> v@[j] != k,
        decreases v@.len() - i,
    {
        if v[i] == k {
            assert(v@[i as int] == k);
            return true;
        }
        i += 1;
    }
    false
}

/// Each kind of repair once, so that a call counts once for each.
pub fn distinct_kinds(kinds: &Vec<u32>) -> (r: Vec<u32>)
    ensures
        r@ == distinct_numbers(kinds@),
{
    let mut out: Vec<u32> = Vec::new();
    let mut i: usize = 0;
    assert(kinds@.take(0) =~= Seq::empty());
    while i < kinds.len()
        invariant
            i <= kinds@.len(),
            out@ == distinct_numbers(kinds@.take(i as int)),
        decreases kinds@.len() - i,
    {
        let k: u32 = kinds[i];
        let seen: bool = has_number(&out, k);
        proof {
            assert(kinds@.take(i + 1).drop_last() =~= kinds@.take(i as int));
            assert(kinds@.take(i + 1).last() == k);
        }
        if !seen {
            out.push(k);
        }
        i += 1;
    }
    assert(kinds@.take(i as int) =~= kinds@);
    out
}

/// What a call comes to once its arguments are checked: refused with a result, or to be
/// carried out with these arguments and these notes for the model. `recorded` are the
/// kinds of repair to count.
#[derive(Debug)]
pub enum Checked {
    Refused { result: LoopToolResult },
    Accepted { args: String, notes: Vec<String>, recorded: Vec<u32> },
}

/// Goes by the check of a call's arguments. Arguments that cannot be repaired send the
/// next request to a stronger model.
pub fn check_arguments(
    escalation: &mut Escalation,
    call: &ToolCall,
    prepared_args: String,
    validation: Validation,
) -> (r: Checked)
    ensures
        match validation {
            Validation::Valid => r is Accepted && r->args == prepared_args && r->notes@.len() == 0
                && r->recorded@.len() == 0 && final(escalation)@ == old(escalation)@,
            Validation::Repaired { args, kinds, notes } => r is Accepted && r->args == args && r->notes
                == notes && r->recorded@ == distinct_numbers(kinds@) && final(escalation)@ == old(escalation)@,
            Validation::Invalid { message } => r is Refused && r->result@ == failure(message@) && final(escalation)@ == armed(
                old(escalation)@,
                EscalationReasonView::RepairExhausted { tool: call.name@ },
            ),
        },
{
    match validation {
        Validation::Valid => Checked::Accepted {
            args: prepared_args,
            notes: Vec::new(),
            recorded: Vec::new(),
        },
        Validation::Repaired { args, kinds, notes } => {
            let recorded = distinct_kinds(&kinds);
            Checked::Accepted { args, notes, recorded }
        },
        Validation::Invalid { message } => {
            try_arm_escalation(
                escalation,
                EscalationReason::RepairExhausted { tool: call.name.clone() },
            );
            Checked::Refused { result: create_error_tool_result(message.as_str()) }
        },
    }
}

/// Notes that are kept for calls until they are carried out.
pub struct KeptNotes {
    notes: StringHashMap<Vec<String>>,
}

impl View for KeptNotes {
    type V = Map<Seq<char>, Vec<String>>;

    closed spec fn view(&self) -> Map<Seq<char>, Vec<String>> {
        self.notes@
    }
}

impl KeptNotes {
    /// No notes.
    pub fn new() -> (r: Self)
        ensures
            r@ == Map::<Seq<char>, Vec<String>>::empty(),
    {
        KeptNotes { notes: StringHashMap::new() }
    }

    /// Keeps notes for a call, in the place of those kept before.
    pub fn keep(&mut self, call_id: String, notes: Vec<String>)
        ensures
            final(self)@ == old(self)@.insert(call_id@, notes),
    {
        self.notes.insert(call_id, notes);
    }
}

/// Adds the notes that were kept for a call, which are then kept no longer.
pub fn drain_truncation_notes(
    kept: &mut KeptNotes,
    call_id: &str,
    notes: &mut Vec<String>,
)
    ensures
        final(kept)@ == old(kept)@.remove(call_id@),
        texts(final(notes)@) == texts(old(notes)@) + (if old(kept)@.contains_key(call_id@) {
            texts(old(kept)@[call_id@]@)
        } else {
            Seq::empty()
        }),
{
    let ghost before = texts(notes@);
    match kept.notes.get(call_id) {
        Some(v) => {
            let mut i: usize = 0;
            assert(before + texts(v@).take(0) =~= before);
            while i < v.len()
                invariant
                    i <= v@.len(),
                    texts(notes@) == before + texts(v@).take(i as int),
                decreases v@.len() - i,
            {
                let ghost now = texts(notes@);
                notes.push(v[i].clone());
                proof {
                    assert(texts(notes@) =~= now.push(v@[i as int]@));
                    assert(before + texts(v@).take(i + 1) =~= now.push(v@[i as int]@));
                }
                i += 1;
            }
            assert(texts(v@).take(i as int) =~= texts(v@));
        },
        None => {
            assert(before + Seq::<Seq<char>>::empty() =~= before);
        },
    }
    kept.notes.remove(call_id);
}

/// What a hook before a tool call says: the arguments to go on with, whether the call is
/// blocked and why; `cancelled` tells whether the run was cancelled meanwhile.
#[derive(Debug)]
pub struct HookReply {
    pub args: String,
    pub block: Option<bool>,
    pub reason: Option<String>,
    pub cancelled: bool,
}

/// A call that is refused, or one that is to be carried out.
#[derive(Debug)]
pub enum PrepareOutcome {
    Immediate { result: LoopToolResult, is_error: bool },
    Prepared { args: String, notes: Vec<String> },
}

/// Why a call is refused after its hook: the run was cancelled, or the hook blocks it.
pub open spec fn hook_refusal(hook: Option<HookReply>, cancelled: bool) -> Option<Seq<char>> {
    match hook {
        Some(h) => if h.cancelled {
            Some("Operation aborted"@)
        } else if h.block == Some(true) {
            Some(
                match h.reason {
                    Some(r) => r@,
                    None => "Tool execution was blocked"@,
                },
            )
        } else if cancelled {
            Some("Operation aborted"@)
        } else {
            None
        },
        None => if cancelled {
            Some("Operation aborted"@)
        } else {
            None
        },
    }
}

/// Goes by what the hook before a call says, where there is one, and by whether the run
/// was cancelled.
pub fn conclude_prepare(args: String, notes: Vec<String>, hook: Option<HookReply>, cancelled: bool) -> (r:
    PrepareOutcome)
    ensures
        match hook_refusal(hook, cancelled) {
            Some(why) => r is Immediate && r->result@ == failure(why) && r->is_error,
            None => r is Prepared && r->notes == notes && r->args == (match hook {
                Some(h) => h.args,
                None => args,
            }),
        },
{
    let mut args = args;
    match hook {
        Some(h) => {
            if h.cancelled {
                return PrepareOutcome::Immediate {
                    result: create_error_tool_result("Operation aborted"),
                    is_error: true,
                };
            }
            let blocked: bool = match h.block {
                Some(b) => b,
                None => false,
            };
            if blocked {
                let result = match &h.reason {
                    Some(reason) => create_error_tool_result(reason.as_str()),
                    None => create_error_tool_result("Tool execution was blocked"),
                };
                return PrepareOutcome::Immediate { result, is_error: true };
            }
            args = h.args;
        },
        None => {},
    }
    if cancelled {
        return PrepareOutcome::Immediate {
            result: create_error_tool_result("Operation aborted"),
            is_error: true,
        };
    }
    PrepareOutcome::Prepared { args, notes }
}

/// How a tool's work ended.
#[derive(Debug)]
pub enum ExecuteEnd {
    /// The run was cancelled before the tool was done.
    Cancelled,
    Done(LoopToolResult),
    Failed(String),
}

/// The result of a tool and whether it is a failure.
#[derive(Debug)]
pub struct ExecutedOutcome {
    pub result: LoopToolResult,
    pub is_error: bool,
}

/// The result of a tool whose work ended.
pub fn executed_outcome(end: ExecuteEnd) -> (r: ExecutedOutcome)
    ensures
        match end {
            ExecuteEnd::Cancelled => r.is_error && r.result@ == failure(
                "tool execution aborted by cancellation signal"@,
            ),
            ExecuteEnd::Done(result) => !r.is_error && r.result == result,
            ExecuteEnd::Failed(e) => r.is_error && r.result@ == failure(e@),
        },
{
    match end {
        ExecuteEnd::Cancelled => ExecutedOutcome {
            result: create_error_tool_result("tool execution aborted by cancellation signal"),
            is_error: true,
        },
        ExecuteEnd::Done(result) => ExecutedOutcome { result, is_error: false },
        ExecuteEnd::Failed(e) => ExecutedOutcome {
            result: create_error_tool_result(e.as_str()),
            is_error: true,
        },
    }
}

/// What a hook after a tool call puts in the place of parts of the result.
#[derive(Debug)]
pub struct AfterToolCallResult {
    pub content: Option<Vec<ResultBlock>>,
    pub details: Option<String>,
    pub terminate: Option<bool>,
    pub is_error: Option<bool>,
}

/// A call with its result.
#[derive(Debug)]
pub struct FinalizedOutcome {
    pub tool_call: ToolCall,
    pub result: LoopToolResult,
    pub is_error: bool,
}

/// A call with its result, in which the hook's parts stand in the place of the tool's.
pub fn finalize_executed_tool_call(
    tool_call: ToolCall,
    executed: ExecutedOutcome,
    after: Option<AfterToolCallResult>,
) -> (r: FinalizedOutcome)
    ensures
        r.tool_call == tool_call,
        match after {
            None => r.result == executed.result && r.is_error == executed.is_error,
            Some(a) => {
                &&& r.result.content == (match a.content {
                    Some(c) => c,
                    None => executed.result.content,
                })
                &&& r.result.details == (match a.details {
                    Some(d) => d,
                    None => executed.result.details,
                })
                &&& r.result.terminate == (match a.terminate {
                    Some(t) => Some(t),
                    None => executed.result.terminate,
                })
                &&& r.is_error == (match a.is_error {
                    Some(e) => e,
                    None => executed.is_error,
                })
            },
        },
{
    match after {
        None => FinalizedOutcome { tool_call, result: executed.result, is_error: executed.is_error },
        Some(a) => {
            let content = match a.content {
                Some(c) => c,
                None => executed.result.content,
            };
            let details = match a.details {
                Some(d) => d,
                None => executed.result.details,
            };
            let terminate = match a.terminate {
                Some(t) => Some(t),
                None => executed.result.terminate,
            };
            let is_error = match a.is_error {
                Some(e) => e,
                None => executed.is_error,
            };
            FinalizedOutcome {
                tool_call,
                result: LoopToolResult { content, details, terminate },
                is_error,
            }
        },
    }
}

/// A result with the notes in a block of their own before it.
pub open spec fn with_notes(r: LoopToolResultView, notes: Seq<Seq<char>>) -> LoopToolResultView {
    if notes.len() == 0 {
        r
    } else {
        LoopToolResultView {
            content: seq![ResultBlockView::Text(join_of(notes, "\n"@))] + r.content,
            ..r
        }
    }
}

/// Puts the notes in a block of their own before the result.
pub fn prepend_notes_to_result(result: &mut LoopToolResult, notes: &Vec<String>)
    ensures
        final(result)@ == with_notes(old(result)@, texts(notes@)),
{
    assert(texts(notes@).len() == notes@.len());
    if notes.len() == 0 {
        return;
    }
    let joined = join(notes, "\n");
    let ghost before = result_blocks(result.content@);
    result.content.insert(0, ResultBlock::Text(joined));
    assert(result_blocks(result.content@) =~= seq![ResultBlockView::Text(joined@)] + before);
}

/// The first text among the blocks of a result that refuses code that cannot be parsed.
pub open spec fn first_refusal(bs: Seq<ResultBlockView>) -> Option<Seq<char>>
    decreases bs.len(),
{
    if bs.len() == 0 {
        None
    } else {
        match bs[0] {
            ResultBlockView::Text(t) => if begins(t, SYNTAX_CHECK_PREFIX@) {
                Some(t)
            } else {
                first_refusal(bs.drop_first())
            },
            ResultBlockView::Json(_) => first_refusal(bs.drop_first()),
        }
    }
}

/// The path that a refusal of code that cannot be parsed speaks of.
pub open spec fn refused_path(t: Seq<char>) -> Seq<char> {
    let after = t.skip(SYNTAX_CHECK_PREFIX@.len() as int);
    let k = find_char(after, ':');
    if k < after.len() {
        after.take(k)
    } else {
        Seq::empty()
    }
}

/// What a result does to the choice of the model for the next request: code that cannot
/// be parsed sends it to a stronger one.
pub open spec fn after_result(e: EscalationView, tool: Seq<char>, r: LoopToolResultView, is_error: bool) -> EscalationView {
    match first_refusal(r.content) {
        Some(t) => if is_error {
            armed(e, EscalationReasonView::SyntacticFailure { tool, path: refused_path(t) })
        } else {
            e
        },
        None => e,
    }
}

fn find_refusal<'a>(bs: &'a Vec<ResultBlock>) -> (r: Option<&'a String>)
    ensures
        match r {
            Some(t) => first_refusal(result_blocks(bs@)) == Some(t@) && begins(
                t@,
                SYNTAX_CHECK_PREFIX@,
            ),
            None => first_refusal(result_blocks(bs@)) is None,
        },
{
    let ghost all = result_blocks(bs@);
    let mut i: usize = 0;
    assert(all.skip(0) =~= all);
    while i < bs.len()
        invariant
            all == result_blocks(bs@),
            i <= bs@.len(),
            first_refusal(all.skip(i as int)) == first_refusal(all),
        decreases bs@.len() - i,
    {
        proof {
            assert(all.skip(i as int)[0] == bs@[i as int]@);
            assert(all.skip(i as int).drop_first() =~= all.skip(i + 1));
        }
        match &bs[i] {
            ResultBlock::Text(t) => {
                if starts_with(t.as_str(), SYNTAX_CHECK_PREFIX) {
                    return Some(t);
                }
            },
            ResultBlock::Json(_) => {},
        }
        i += 1;
    }
    None
}

/// Sends the next request to a stronger model where a tool refused code that cannot be
/// parsed.
pub fn maybe_arm_escalation_for_syntactic_failure(
    escalation: &mut Escalation,
    tool_call: &ToolCall,
    result: &LoopToolResult,
    is_error: bool,
)
    ensures
        final(escalation)@ == after_result(old(escalation)@, tool_call.name@, result@, is_error),
{
    if !is_error {
        return;
    }
    let text = match find_refusal(&result.content) {
        Some(t) => t,
        None => {
            return;
        },
    };
    let v = to_chars(text.as_str());
    let p = to_chars(SYNTAX_CHECK_PREFIX);
    let start: usize = p.len();
    let n: usize = v.len();
    let ghost after = text@.skip(start as int);
    let mut i: usize = start;
    while i < n && v[i] != ':'
        invariant
            v@ == text@,
            n == v@.len(),
            start <= i <= n,
            after == text@.skip(start as int),
            forall|k: int| 0 <= k < i - start ==> after[k] != ':',
        decreases n - i,
    {
        assert(after[i - start] == v@[i as int]);
        i += 1;
    }
    proof {
        if i < n {
            assert(after[i - start] == v@[i as int]);
        }
        lemma_find_char_is(after, ':', i - start);
    }
    let path = if i < n {
        let q = part(&v, start, i);
        assert(q@ =~= after.take(i - start));
        q
    } else {
        let q = String::new();
        assert(q@ =~= Seq::empty());
        q
    };
    try_arm_escalation(
        escalation,
        EscalationReason::SyntacticFailure { tool: tool_call.name.clone(), path },
    );
}

/// Every result asks for the run to end, and there is one.
pub open spec fn all_terminate(fs: Seq<FinalizedOutcome>) -> bool {
    &&& fs.len() > 0
    &&& forall|i: int| 0 <= i < fs.len() ==> (#[trigger] fs[i]).result.terminate == Some(true)
}

/// Whether the run ends with the batch.
pub fn should_terminate_tool_batch(finalized: &Vec<FinalizedOutcome>) -> (r: bool)
    ensures
        r == all_terminate(finalized@),
{
    if finalized.len() == 0 {
        return false;
    }
    let mut i: usize = 0;
    while i < finalized.len()
        invariant
            i <= finalized@.len(),
            forall|k: int|
                0 <= k < i ==> (#[trigger] finalized@[k]).result.terminate == Some(true),
        decreases finalized@.len() - i,
    {
        let ends: bool = match finalized[i].result.terminate {
            Some(t) => t,
            None => false,
        };
        if !ends {
            assert(finalized@[i as int].result.terminate != Some(true));
            return false;
        }
        i += 1;
    }
    true
}

/// The text that is shown of a block of a result.
pub open spec fn shown_of(b: ResultBlockView) -> Seq<char> {
    match b {
        ResultBlockView::Text(t) => t,
        ResultBlockView::Json(t) => t,
    }
}

/// The text that is shown of a block of a result, before secrets are taken out of it.
pub fn block_text(block: &ResultBlock) -> (r: String)
    ensures
        r@ == shown_of(block@),
{
    match block {
        ResultBlock::Text(t) => t.clone(),
        ResultBlock::Json(t) => t.clone(),
    }
}

/// The answer to a call; `shown` are the texts of its blocks without secrets.
pub open spec fn answer_of(call: ToolCallView, r: LoopToolResultView, is_error: bool, shown: Seq<Seq<char>>) -> ToolResultMessageView {
    ToolResultMessageView {
        tool_call_id: call.id,
        tool_name: call.name,
        content: Seq::new(shown.len(), |i: int| ContentBlockView::Text { text: shown[i] }),
        details: r.details,
        is_error,
    }
}

/// The answer to a call; `shown` are the texts of its blocks without secrets.
pub fn create_tool_result_message(finalized: &FinalizedOutcome, shown: &Vec<String>) -> (r:
    ToolResultMessage)
    requires
        shown@.len() == finalized.result.content@.len(),
    ensures
        r@ == answer_of(
            finalized.tool_call@,
            finalized.result@,
            finalized.is_error,
            texts(shown@),
        ),
{
    let ghost want = answer_of(
        finalized.tool_call@,
        finalized.result@,
        finalized.is_error,
        texts(shown@),
    ).content;
    let mut content: Vec<ContentBlock> = Vec::new();
    let mut i: usize = 0;
    assert(blocks(content@) =~= want.take(0));
    while i < shown.len()
        invariant
            i <= shown@.len(),
            want == Seq::new(
                texts(shown@).len(),
                |i: int| ContentBlockView::Text { text: texts(shown@)[i] },
            ),
            blocks(content@) == want.take(i as int),
        decreases shown@.len() - i,
    {
        let ghost before = blocks(content@);
        let b = ContentBlock::Text { text: shown[i].clone() };
        content.push(b);
        proof {
            assert(blocks(content@) =~= before.push(b@));
            assert(want.take(i + 1) =~= want.take(i as int).push(want[i as int]));
        }
        i += 1;
    }
    assert(want.take(i as int) =~= want);
    ToolResultMessage {
        tool_call_id: finalized.tool_call.id.clone(),
        tool_name: finalized.tool_call.name.clone(),
        content,
        details: finalized.result.details.clone(),
        is_error: finalized.is_error,
    }
}

/// What is told of the end of a call.
pub open spec fn end_event(call: ToolCallView, r: LoopToolResultView, is_error: bool) -> LoopEventView {
    LoopEventView::ToolExecutionEnd {
        tool_call_id: call.id,
        tool_name: call.name,
        result: r,
        is_error,
    }
}

/// What is told of the start of a call.
pub fn start_event(call: &ToolCall) -> (r: LoopEvent)
    ensures
        r@ == (LoopEventView::ToolExecutionStart { call: call@ }),
{
    LoopEvent::ToolExecutionStart { call: call.clone() }
}

/// What is told of the end of a call.
pub fn tool_execution_end(finalized: &FinalizedOutcome) -> (r: LoopEvent)
    ensures
        r@ == end_event(finalized.tool_call@, finalized.result@, finalized.is_error),
{
    LoopEvent::ToolExecutionEnd {
        tool_call_id: finalized.tool_call.id.clone(),
        tool_name: finalized.tool_call.name.clone(),
        result: finalized.result.clone(),
        is_error: finalized.is_error,
    }
}

/// What is told of an answer.
pub open spec fn message_events(m: ToolResultMessageView) -> Seq<LoopEventView> {
    seq![LoopEventView::MessageStart { message: m }, LoopEventView::MessageEnd { message: m }]
}

/// What is told of answers, in this order.
pub open spec fn all_message_events(ms: Seq<ToolResultMessageView>) -> Seq<LoopEventView>
    decreases ms.len(),
{
    if ms.len() == 0 {
        Seq::empty()
    } else {
        all_message_events(ms.drop_last()) + message_events(ms.last())
    }
}

/// Tells of an answer.
pub fn tell_message(out: &mut Vec<LoopEvent>, m: &ToolResultMessage)
    ensures
        loop_events(final(out)@) == loop_events(old(out)@) + message_events(m@),
{
    let ghost before = loop_events(out@);
    out.push(LoopEvent::MessageStart { message: m.clone() });
    out.push(LoopEvent::MessageEnd { message: m.clone() });
    assert(loop_events(out@) =~= before + message_events(m@));
}

/// The answers to calls that were carried out side by side, in the order of the calls.
pub open spec fn answers_of(fs: Seq<FinalizedOutcome>, shown: Seq<Vec<String>>) -> Seq<ToolResultMessageView> {
    Seq::new(
        fs.len(),
        |i: int| answer_of(fs[i].tool_call@, fs[i].result@, fs[i].is_error, texts(shown[i]@)),
    )
}

/// The results of calls that were carried out side by side, and what to tell of their
/// answers: both in the order of the calls, whichever was done first. `finalized` is in
/// the order of the calls and `shown` has one entry per call.
pub fn finish_parallel(finalized: &Vec<FinalizedOutcome>, shown: &Vec<Vec<String>>) -> (r: (
    ExecutedToolCallBatch,
    Vec<LoopEvent>,
))
    requires
        shown@.len() == finalized@.len(),
        forall|i: int|
            0 <= i < finalized@.len() ==> (#[trigger] shown@[i])@.len()
                == finalized@[i].result.content@.len(),
    ensures
        answers(r.0.messages@) == answers_of(finalized@, shown@),
        r.0.terminate == all_terminate(finalized@),
        loop_events(r.1@) == all_message_events(answers_of(finalized@, shown@)),
{
    let ghost want = answers_of(finalized@, shown@);
    let mut messages: Vec<ToolResultMessage> = Vec::new();
    let mut out: Vec<LoopEvent> = Vec::new();
    let mut i: usize = 0;
    assert(answers(messages@) =~= want.take(0));
    assert(loop_events(out@) =~= Seq::empty());
    while i < finalized.len()
        invariant
            shown@.len() == finalized@.len(),
            forall|i: int|
                0 <= i < finalized@.len() ==> (#[trigger] shown@[i])@.len()
                    == finalized@[i].result.content@.len(),
            want == answers_of(finalized@, shown@),
            i <= finalized@.len(),
            answers(messages@) == want.take(i as int),
            loop_events(out@) == all_message_events(want.take(i as int)),
        decreases finalized@.len() - i,
    {
        let ghost before = answers(messages@);
        let m = create_tool_result_message(&finalized[i], &shown[i]);
        tell_message(&mut out, &m);
        messages.push(m);
        proof {
            assert(answers(messages@) =~= before.push(m@));
            assert(want[i as int] == m@);
            assert(want.take(i + 1) =~= want.take(i as int).push(want[i as int]));
            assert(want.take(i + 1).drop_last() =~= want.take(i as int));
        }
        i += 1;
    }
    assert(want.take(i as int) =~= want);
    (ExecutedToolCallBatch { messages, terminate: should_terminate_tool_batch(finalized) }, out)
}

/// Nothing of a result is lost in its answer: the answer is to the call by its id and name,
/// it has one text block for each block of the result, in the same order, each saying what
/// is shown of it, and it carries the details of the result and whether it is a failure.
pub proof fn law_answers_show_every_block(
    call: ToolCallView,
    r: LoopToolResultView,
    is_error: bool,
    shown: Seq<Seq<char>>,
)
    ensures
        ({
            let m = answer_of(call, r, is_error, shown);
            &&& m.tool_call_id == call.id
            &&& m.tool_name == call.name
            &&& m.content.len() == shown.len()
            &&& forall|i: int|
                0 <= i < shown.len() ==> #[trigger] m.content[i] == (ContentBlockView::Text {
                    text: shown[i],
                })
            &&& m.details == r.details
            &&& m.is_error == is_error
        }),
{
}

/// The calls that ran side by side are answered one for one and in their order: the answer at
/// a position is to the call at that position and says what is shown of its result, block for
/// block.
pub proof fn law_batch_shows_every_block(fs: Seq<FinalizedOutcome>, shown: Seq<Vec<String>>)
    requires
        shown.len() == fs.len(),
    ensures
        answers_of(fs, shown).len() == fs.len(),
        forall|i: int, k: int|
            0 <= i < fs.len() && 0 <= k < shown[i]@.len() ==> #[trigger] answers_of(
                fs,
                shown,
            )[i].content[k] == (ContentBlockView::Text { text: shown[i]@[k]@ }),
        forall|i: int|
            0 <= i < fs.len() ==> {
                let m = #[trigger] answers_of(fs, shown)[i];
                &&& m.tool_call_id == fs[i].tool_call.id@
                &&& m.tool_name == fs[i].tool_call.name@
                &&& m.content.len() == shown[i]@.len()
                &&& m.details == fs[i].result.details@
                &&& m.is_error == fs[i].is_error
            },
{
}

/// Every answer of a batch is told of, once as it starts and once as it ends, in their order.
pub proof fn law_answers_are_told(ms: Seq<ToolResultMessageView>)
    ensures
        all_message_events(ms).len() == 2 * ms.len(),
        forall|i: int|
            0 <= i < ms.len() ==> #[trigger] all_message_events(ms)[2 * i] == (
            LoopEventView::MessageStart { message: ms[i] }),
        forall|i: int|
            0 <= i < ms.len() ==> #[trigger] all_message_events(ms)[2 * i + 1] == (
            LoopEventView::MessageEnd { message: ms[i] }),
    decreases ms.len(),
{
    if ms.len() > 0 {
        let before = all_message_events(ms.drop_last());
        law_answers_are_told(ms.drop_last());
        assert forall|i: int| 0 <= i < ms.len() implies #[trigger] all_message_events(ms)[2 * i] == (
        LoopEventView::MessageStart { message: ms[i] }) by {
            if i < ms.len() - 1 {
                assert(all_message_events(ms)[2 * i] == before[2 * i]);
                assert(ms.drop_last()[i] == ms[i]);
            }
        }
        assert forall|i: int| 0 <= i < ms.len() implies #[trigger] all_message_events(ms)[2 * i + 1]
            == (LoopEventView::MessageEnd { message: ms[i] }) by {
            if i < ms.len() - 1 {
                assert(all_message_events(ms)[2 * i + 1] == before[2 * i + 1]);
                assert(ms.drop_last()[i] == ms[i]);
            }
        }
    }
}

/// The call has an answer among these.
pub open spec fn is_answered(id: Seq<char>, ms: Seq<ToolResultMessageView>) -> bool {
    exists|k: int| 0 <= k < ms.len() && (#[trigger] ms[k]).tool_call_id == id
}

/// The answer to a call that was never carried out.
pub open spec fn unexecuted(c: ToolCallView) -> ToolResultMessageView {
    ToolResultMessageView {
        tool_call_id: c.id,
        tool_name: c.name,
        content: seq![ContentBlockView::Text { text: NOT_EXECUTED@ }],
        details: "null"@,
        is_error: true,
    }
}

/// Answers for the calls that have none, in the order of the calls.
pub open spec fn backfill_of(cs: Seq<ToolCallView>, ms: Seq<ToolResultMessageView>) -> Seq<ToolResultMessageView>
    decreases cs.len(),
{
    if cs.len() == 0 {
        Seq::empty()
    } else {
        let before = backfill_of(cs.drop_last(), ms);
        if is_answered(cs.last().id, ms) {
            before
        } else {
            before.push(unexecuted(cs.last()))
        }
    }
}

fn has_answer(id: &str, results: &Vec<ToolResultMessage>) -> (r: bool)
    ensures
        r == is_answered(id@, answers(results@)),
{
    let ghost all = answers(results@);
    let mut i: usize = 0;
    while i < results.len()
        invariant
            all == answers(results@),
            i <= results@.len(),
            forall|k: int| 0 <= k < i ==> (#[trigger] all[k]).tool_call_id != id@,
        decreases results@.len() - i,
    {
        if same(results[i].tool_call_id.as_str(), id) {
            assert(all[i as int].tool_call_id == id@);
            return true;
        }
        i += 1;
    }
    false
}

/// Answers for the calls that have none, in the order of the calls: a call can be left
/// out because it was repeated too often or because the run was interrupted.
pub fn backfill_missing_tool_results(tool_calls: &Vec<ToolCall>, results: &Vec<ToolResultMessage>) -> (r:
    Vec<ToolResultMessage>)
    ensures
        answers(r@) == backfill_of(calls(tool_calls@), answers(results@)),
{
    let ghost cs = calls(tool_calls@);
    let mut out: Vec<ToolResultMessage> = Vec::new();
    let mut i: usize = 0;
    assert(cs.take(0) =~= Seq::empty());
    assert(answers(out@) =~= Seq::empty());
    while i < tool_calls.len()
        invariant
            cs == calls(tool_calls@),
            i <= tool_calls@.len(),
            answers(out@) == backfill_of(cs.take(i as int), answers(results@)),
        decreases tool_calls@.len() - i,
    {
        let ghost before = answers(out@);
        proof {
            assert(cs.take(i + 1).drop_last() =~= cs.take(i as int));
            assert(cs.take(i + 1).last() == tool_calls@[i as int]@);
        }
        if !has_answer(tool_calls[i].id.as_str(), results) {
            let mut content: Vec<ContentBlock> = Vec::new();
            content.push(ContentBlock::Text { text: NOT_EXECUTED.to_owned() });
            assert(blocks(content@) =~= seq![ContentBlockView::Text { text: NOT_EXECUTED@ }]);
            let m = ToolResultMessage {
                tool_call_id: tool_calls[i].id.clone(),
                tool_name: tool_calls[i].name.clone(),
                content,
                details: "null".to_owned(),
                is_error: true,
            };
            out.push(m);
            assert(answers(out@) =~= before.push(m@));
        }
        i += 1;
    }
    assert(cs.take(i as int) =~= cs);
    out
}

/// With the answers that were filled in every call has one, and only calls without one
/// were given one.
pub proof fn law_every_call_is_answered(cs: Seq<ToolCallView>, ms: Seq<ToolResultMessageView>)
    ensures
        forall|i: int|
            0 <= i < cs.len() ==> is_answered((#[trigger] cs[i]).id, ms + backfill_of(cs, ms)),
        forall|k: int|
            0 <= k < backfill_of(cs, ms).len() ==> !is_answered(
                (#[trigger] backfill_of(cs, ms)[k]).tool_call_id,
                ms,
            ) && backfill_of(cs, ms)[k].is_error,
    decreases cs.len(),
{
    if cs.len() > 0 {
        let t = cs.drop_last();
        law_every_call_is_answered(t, ms);
        let before = backfill_of(t, ms);
        let all = backfill_of(cs, ms);
        assert forall|i: int| 0 <= i < cs.len() implies is_answered(
            (#[trigger] cs[i]).id,
            ms + all,
        ) by {
            if i < t.len() {
                assert(t[i] == cs[i]);
                assert(is_answered(t[i].id, ms + before));
                let k = choose|k: int|
                    0 <= k < (ms + before).len() && (#[trigger] (ms + before)[k]).tool_call_id
                        == cs[i].id;
                assert((ms + all)[k] == (ms + before)[k]);
            } else if is_answered(cs[i].id, ms) {
                let k = choose|k: int|
                    0 <= k < ms.len() && (#[trigger] ms[k]).tool_call_id == cs[i].id;
                assert((ms + all)[k] == ms[k]);
            } else {
                assert((ms + all)[(ms.len() + before.len()) as int] == unexecuted(cs[i]));
            }
        }
        assert forall|k: int| 0 <= k < all.len() implies !is_answered(
            (#[trigger] all[k]).tool_call_id,
            ms,
        ) && all[k].is_error by {
            if k < before.len() {
                assert(all[k] == before[k]);
            }
        }
    }
}

proof fn lemma_nothing_to_fill_in(cs: Seq<ToolCallView>, ms: Seq<ToolResultMessageView>)
    requires
        forall|i: int| 0 <= i < cs.len() ==> is_answered((#[trigger] cs[i]).id, ms),
    ensures
        backfill_of(cs, ms) == Seq::<ToolResultMessageView>::empty(),
    decreases cs.len(),
{
    if cs.len() > 0 {
        let t = cs.drop_last();
        assert forall|i: int| 0 <= i < t.len() implies is_answered((#[trigger] t[i]).id, ms) by {
            assert(t[i] == cs[i]);
        }
        lemma_nothing_to_fill_in(t, ms);
        assert(is_answered(cs[cs.len() - 1].id, ms));
    }
}

/// Where every call has an answer none is filled in; so filling in a second time, with the
/// answers of the first among the results, adds nothing.
pub proof fn law_backfilling_twice_adds_nothing(cs: Seq<ToolCallView>, ms: Seq<ToolResultMessageView>)
    ensures
        backfill_of(cs, ms + backfill_of(cs, ms)) == Seq::<ToolResultMessageView>::empty(),
        (forall|i: int| 0 <= i < cs.len() ==> is_answered((#[trigger] cs[i]).id, ms)) ==> backfill_of(
            cs,
            ms,
        ) == Seq::<ToolResultMessageView>::empty(),
{
    law_every_call_is_answered(cs, ms);
    lemma_nothing_to_fill_in(cs, ms + backfill_of(cs, ms));
    if forall|i: int| 0 <= i < cs.len() ==> is_answered((#[trigger] cs[i]).id, ms) {
        lemma_nothing_to_fill_in(cs, ms);
    }
}

/// The modes of the tools of which some are called: of the first tool of each name.
pub open spec fn called_mode(names: Seq<Seq<char>>, modes: Seq<Option<ToolExecutionMode>>, name: Seq<char>) -> Option<ToolExecutionMode> {
    let k = tool_at(names, name);
    if k < names.len() {
        modes[k]
    } else {
        None
    }
}

/// The calls are carried out one after the other: the loop is set to that, or one of the
/// called tools asks for it.
pub open spec fn is_sequential(
    setting: ToolExecutionMode,
    names: Seq<Seq<char>>,
    modes: Seq<Option<ToolExecutionMode>>,
    cs: Seq<ToolCallView>,
) -> bool {
    ||| setting == ToolExecutionMode::Sequential
    ||| exists|i: int|
        0 <= i < cs.len() && called_mode(names, modes, (#[trigger] cs[i]).name) == Some(
            ToolExecutionMode::Sequential,
        )
}

/// Whether the calls are carried out one after the other rather than side by side.
/// `modes` has one entry per tool.
pub fn runs_sequentially(
    setting: ToolExecutionMode,
    names: &Vec<String>,
    modes: &Vec<Option<ToolExecutionMode>>,
    tool_calls: &Vec<ToolCall>,
) -> (r: bool)
    requires
        modes@.len() == names@.len(),
    ensures
        r == is_sequential(setting, texts(names@), modes@, calls(tool_calls@)),
{
    if setting == ToolExecutionMode::Sequential {
        return true;
    }
    let ghost cs = calls(tool_calls@);
    let mut i: usize = 0;
    while i < tool_calls.len()
        invariant
            setting != ToolExecutionMode::Sequential,
            modes@.len() == names@.len(),
            cs == calls(tool_calls@),
            i <= tool_calls@.len(),
            forall|k: int|
                0 <= k < i ==> called_mode(texts(names@), modes@, (#[trigger] cs[k]).name) != Some(
                    ToolExecutionMode::Sequential,
                ),
        decreases tool_calls@.len() - i,
    {
        assert(cs[i as int].name == tool_calls@[i as int].name@);
        match find_tool(names, &tool_calls[i]) {
            Ok(k) => {
                let mode = modes[k];
                match mode {
                    Some(ToolExecutionMode::Sequential) => {
                        assert(called_mode(texts(names@), modes@, cs[i as int].name) == Some(
                            ToolExecutionMode::Sequential,
                        ));
                        return true;
                    },
                    _ => {},
                }
            },
            Err(_) => {},
        }
        i += 1;
    }
    false
}

/// One tool that may not run beside others is enough for the whole batch to be carried
/// out in order.
pub proof fn law_one_sequential_tool_decides(
    setting: ToolExecutionMode,
    names: Seq<Seq<char>>,
    modes: Seq<Option<ToolExecutionMode>>,
    cs: Seq<ToolCallView>,
    i: int,
)
    requires
        0 <= i < cs.len(),
        called_mode(names, modes, cs[i].name) == Some(ToolExecutionMode::Sequential),
    ensures
        is_sequential(setting, names, modes, cs),
{
}

/// What any number of reasons comes to.
pub open spec fn armed_all(e: EscalationView, reasons: Seq<EscalationReasonView>) -> EscalationView
    decreases reasons.len(),
{
    if reasons.len() == 0 {
        e
    } else {
        armed(armed_all(e, reasons.drop_last()), reasons.last())
    }
}

/// However many reasons come up in a session, no more requests go to a stronger model
/// than it started with: each one uses one up, and then they are passed over.
pub proof fn law_escalations_are_bounded(e: EscalationView, reasons: Seq<EscalationReasonView>)
    ensures
        armed_all(e, reasons).remaining == (if reasons.len() < e.remaining {
            e.remaining - reasons.len()
        } else {
            0
        }),
        0 < reasons.len() <= e.remaining ==> armed_all(e, reasons).pending == Some(reasons.last()),
        e.remaining == 0 ==> armed_all(e, reasons) == e,
    decreases reasons.len(),
{
    if reasons.len() > 0 {
        law_escalations_are_bounded(e, reasons.drop_last());
    }
}

/// The tool calls among blocks, in this order.
pub open spec fn calls_in(bs: Seq<ContentBlockView>) -> Seq<ToolCallView>
    decreases bs.len(),
{
    if bs.len() == 0 {
        Seq::empty()
    } else {
        let before = calls_in(bs.drop_last());
        match bs.last() {
            ContentBlockView::ToolCall { id, name, arguments } => before.push(
                ToolCallView { id, name, arguments },
            ),
            _ => before,
        }
    }
}

/// The tool calls of a message, in this order.
pub fn extract_tool_calls(msg: &AssistantMessage) -> (r: Vec<ToolCall>)
    ensures
        calls(r@) == calls_in(blocks(msg.content@)),
{
    let ghost bs = blocks(msg.content@);
    let mut out: Vec<ToolCall> = Vec::new();
    let mut i: usize = 0;
    assert(bs.take(0) =~= Seq::empty());
    assert(calls(out@) =~= Seq::empty());
    while i < msg.content.len()
        invariant
            bs == blocks(msg.content@),
            i <= msg.content@.len(),
            calls(out@) == calls_in(bs.take(i as int)),
        decreases msg.content@.len() - i,
    {
        let ghost before = calls(out@);
        proof {
            assert(bs.take(i + 1).drop_last() =~= bs.take(i as int));
            assert(bs.take(i + 1).last() == msg.content@[i as int]@);
        }
        match &msg.content[i] {
            ContentBlock::ToolCall { id, name, arguments } => {
                let c = ToolCall {
                    id: id.clone(),
                    name: name.clone(),
                    arguments: arguments.clone(),
                };
                out.push(c);
                assert(calls(out@) =~= before.push(c@));
            },
            _ => {},
        }
        i += 1;
    }
    assert(bs.take(i as int) =~= bs);
    out
}

/// A tool is found by its name and only so: at the position there is a tool of that name and
/// none before it, or there is none at all.
pub proof fn law_first_tool_of_a_name(names: Seq<Seq<char>>, name: Seq<char>)
    ensures
        0 <= tool_at(names, name) <= names.len(),
        tool_at(names, name) < names.len() ==> names[tool_at(names, name)] == name,
        forall|k: int| 0 <= k < tool_at(names, name) ==> #[trigger] names[k] != name,
    decreases names.len(),
{
    if names.len() > 0 && names[0] != name {
        let t = names.drop_first();
        law_first_tool_of_a_name(t, name);
        assert forall|k: int| 0 <= k < tool_at(names, name) implies #[trigger] names[k] != name by {
            if k > 0 {
                assert(t[k - 1] == names[k]);
            }
        }
    }
}

/// Each kind of repair is counted once and none is left out.
pub proof fn law_kinds_count_once(ks: Seq<u32>)
    ensures
        distinct_numbers(ks).no_duplicates(),
        forall|k: u32| #[trigger] distinct_numbers(ks).contains(k) <==> ks.contains(k),
    decreases ks.len(),
{
    if ks.len() > 0 {
        let front = ks.drop_last();
        law_kinds_count_once(front);
        let before = distinct_numbers(front);
        assert(ks =~= front.push(ks.last()));
        let all = distinct_numbers(ks);
        assert forall|k: u32| #[trigger] all.contains(k) <==> ks.contains(k) by {
            if ks.contains(k) {
                let i = choose|i: int| 0 <= i < ks.len() && ks[i] == k;
                if i < front.len() {
                    assert(front[i] == k);
                    assert(front.contains(k));
                    assert(before.contains(k));
                    let j = choose|j: int| 0 <= j < before.len() && before[j] == k;
                    assert(all[j] == k);
                } else if !before.contains(k) {
                    assert(all[all.len() - 1] == k);
                }
            }
            if all.contains(k) {
                let j = choose|j: int| 0 <= j < all.len() && all[j] == k;
                if j < before.len() {
                    assert(before[j] == k);
                    assert(before.contains(k));
                    let i = choose|i: int| 0 <= i < front.len() && front[i] == k;
                    assert(ks[i] == k);
                } else {
                    assert(ks[ks.len() - 1] == k);
                }
            }
        }
    }
}

/// A call is refused after its hook exactly where the run was cancelled, before or while the
/// hook was asked, or the hook blocks it; a hook that blocks with a reason and was not cancelled
/// has that reason told.
pub proof fn law_hooks_decide(hook: Option<HookReply>, cancelled: bool)
    ensures
        hook_refusal(hook, cancelled) is Some <==> cancelled || (hook matches Some(h) && (h.cancelled
            || h.block == Some(true))),
        hook is Some && !hook->0.cancelled && hook->0.block == Some(true) && hook->0.reason is Some
            ==> hook_refusal(hook, cancelled) == Some(hook->0.reason->0@),
{
}

/// Notes are added to a result and nothing of it is lost: its blocks stay in their order at the
/// end, its details and what it says of the end of the run stay, and where there are notes one
/// block before them holds every note in its order.
pub proof fn law_notes_take_nothing_away(r: LoopToolResultView, notes: Seq<Seq<char>>)
    ensures
        ({
            let n = with_notes(r, notes);
            let more: int = if notes.len() == 0 {
                0
            } else {
                1
            };
            &&& n.details == r.details
            &&& n.terminate == r.terminate
            &&& n.content.len() == r.content.len() + more
            &&& n.content.skip(more) == r.content
            &&& notes.len() > 0 ==> n.content[0] is Text && in_order(n.content[0]->Text_0, notes)
        }),
{
    law_joining_keeps_the_parts(notes, "\n"@);
    let n = with_notes(r, notes);
    if notes.len() > 0 {
        assert(n.content.skip(1) =~= r.content);
    } else {
        assert(n.content.skip(0) =~= r.content);
    }
}

/// A result sends the next request to a stronger model exactly where it is a failure and one of
/// its texts refuses code that cannot be parsed, as long as such requests are left; what is
/// remembered is the tool and the path between the prefix and the first colon of the first such
/// text.
pub proof fn law_refused_code_escalates(e: EscalationView, tool: Seq<char>, r: LoopToolResultView, is_error: bool)
    ensures
        ({
            let refusals = exists|i: int|
                0 <= i < r.content.len() && (#[trigger] r.content[i]) is Text && begins(
                    r.content[i]->Text_0,
                    SYNTAX_CHECK_PREFIX@,
                );
            let after = after_result(e, tool, r, is_error);
            &&& !(is_error && refusals && e.remaining > 0) ==> after == e
            &&& is_error && refusals && e.remaining > 0 ==> {
                &&& after.remaining == e.remaining - 1
                &&& after.pending matches Some(EscalationReasonView::SyntacticFailure { tool: t, path })
                    && t == tool && has_no(path, ':')
            }
        }),
        forall|path: Seq<char>, why: Seq<char>|
            has_no(path, ':') ==> #[trigger] refused_path(SYNTAX_CHECK_PREFIX@ + path + (seq![':'] + why))
                == path,
{
    lemma_first_refusal(r.content);
    match first_refusal(r.content) {
        Some(t) => {
            lemma_find_char(t.skip(SYNTAX_CHECK_PREFIX@.len() as int), ':');
            assert(has_no(refused_path(t), ':'));
        },
        None => {},
    }
    assert forall|path: Seq<char>, why: Seq<char>|
        has_no(path, ':') implies #[trigger] refused_path(SYNTAX_CHECK_PREFIX@ + path + (seq![':'] + why))
        == path by {
        let t = SYNTAX_CHECK_PREFIX@ + path + (seq![':'] + why);
        let after = t.skip(SYNTAX_CHECK_PREFIX@.len() as int);
        assert(after =~= path + (seq![':'] + why));
        assert(after[path.len() as int] == ':');
        lemma_find_char_is(after, ':', path.len() as int);
        assert(after.take(path.len() as int) =~= path);
    }
}

proof fn lemma_first_refusal(bs: Seq<ResultBlockView>)
    ensures
        match first_refusal(bs) {
            Some(t) => begins(t, SYNTAX_CHECK_PREFIX@) && exists|i: int|
                0 <= i < bs.len() && #[trigger] bs[i] == ResultBlockView::Text(t),
            None => forall|i: int|
                0 <= i < bs.len() && (#[trigger] bs[i]) is Text ==> !begins(
                    bs[i]->Text_0,
                    SYNTAX_CHECK_PREFIX@,
                ),
        },
    decreases bs.len(),
{
    if bs.len() > 0 {
        let rest = bs.drop_first();
        lemma_first_refusal(rest);
        let here = bs[0] is Text && begins(bs[0]->Text_0, SYNTAX_CHECK_PREFIX@);
        if !here {
            match first_refusal(rest) {
                Some(t) => {
                    let i = choose|i: int| 0 <= i < rest.len() && #[trigger] rest[i] == ResultBlockView::Text(t);
                    assert(bs[i + 1] == rest[i]);
                },
                None => {
                    assert forall|i: int| 0 <= i < bs.len() && (#[trigger] bs[i]) is Text implies !begins(
                        bs[i]->Text_0,
                        SYNTAX_CHECK_PREFIX@,
                    ) by {
                        if i > 0 {
                            assert(bs[i] == rest[i - 1]);
                        }
                    }
                },
            }
        } else {
            assert(bs[0] == ResultBlockView::Text(bs[0]->Text_0));
        }
    }
}

/// A failure says why in its one block, and its answer is to be shown as a failure; the answer to
/// a call that was never carried out is a failure too, and says something.
pub proof fn law_failures_say_why(message: Seq<char>, c: ToolCallView)
    ensures
        failure(message).content.len() == 1,
        failure(message).content[0] == ResultBlockView::Text(message),
        failure(message).terminate is None,
        shown_of(failure(message).content[0]) == message,
        unexecuted(c).is_error,
        unexecuted(c).tool_call_id == c.id,
        unexecuted(c).tool_name == c.name,
        unexecuted(c).content.len() == 1,
{
}

/// Where the loop is set to it and none of the tools asks for order, calls run side by side.
pub proof fn law_calls_run_side_by_side(
    names: Seq<Seq<char>>,
    modes: Seq<Option<ToolExecutionMode>>,
    cs: Seq<ToolCallView>,
)
    requires
        modes.len() == names.len(),
        forall|k: int| 0 <= k < modes.len() ==> #[trigger] modes[k] != Some(ToolExecutionMode::Sequential),
    ensures
        !is_sequential(ToolExecutionMode::Parallel, names, modes, cs),
        is_sequential(ToolExecutionMode::Sequential, names, modes, cs),
{
    assert forall|i: int| 0 <= i < cs.len() implies called_mode(names, modes, (#[trigger] cs[i]).name)
        != Some(ToolExecutionMode::Sequential) by {
        law_first_tool_of_a_name(names, cs[i].name);
    }
}

/// Each block that is a tool call gives that call, with its id, name and arguments, and nothing
/// else gives one; the calls of blocks one behind the other are those of the first, then those
/// of the others.
pub proof fn law_calls_are_taken_as_they_come(a: Seq<ContentBlockView>, b: Seq<ContentBlockView>)
    ensures
        calls_in(a + b) == calls_in(a) + calls_in(b),
        forall|id: Seq<char>, name: Seq<char>, arguments: Seq<char>| #[trigger]
            calls_in(seq![ContentBlockView::ToolCall { id, name, arguments }]) == seq![
                ToolCallView { id, name, arguments },
            ],
        forall|x: ContentBlockView| !(x is ToolCall) ==> #[trigger] calls_in(seq![x]).len() == 0,
    decreases b.len(),
{
    assert forall|x: ContentBlockView| (#[trigger] calls_in(seq![x])) == (match x {
        ContentBlockView::ToolCall { id, name, arguments } => seq![ToolCallView { id, name, arguments }],
        _ => Seq::empty(),
    }) by {
        assert(seq![x].drop_last() =~= Seq::empty());
        assert(calls_in(seq![x].drop_last()) =~= Seq::empty());
    }
    if b.len() == 0 {
        assert(a + b =~= a);
        assert(calls_in(a) + calls_in(b) =~= calls_in(a));
    } else {
        law_calls_are_taken_as_they_come(a, b.drop_last());
        assert((a + b).drop_last() =~= a + b.drop_last());
        assert((a + b).last() == b.last());
        assert(calls_in(a + b) =~= calls_in(a) + calls_in(b));
    }
}

/// A batch ends the run only where each of its results asks for it: one that does not is
/// enough to go on, and a batch without calls never does.
pub proof fn law_every_result_must_ask_for_the_end(fs: Seq<FinalizedOutcome>, f: FinalizedOutcome)
    ensures
        !all_terminate(Seq::empty()),
        all_terminate(seq![f]) <==> f.result.terminate == Some(true),
        fs.len() > 0 ==> (all_terminate(fs.push(f)) <==> all_terminate(fs) && f.result.terminate == Some(
            true,
        )),
{
    assert(seq![f][0] == f);
    if fs.len() > 0 {
        let all = fs.push(f);
        assert(all[fs.len() as int] == f);
        if all_terminate(all) {
            assert forall|i: int| 0 <= i < fs.len() implies (#[trigger] fs[i]).result.terminate == Some(
                true,
            ) by {
                assert(all[i] == fs[i]);
            }
        }
    }
}

} // verus!
