//! What passes through the loop: the blocks of messages, tool calls and their results.
//! Values that the loop only hands on are JSON text.
use vstd::prelude::*;

verus! {

/// A block of a message.
#[derive(Debug)]
pub enum ContentBlock {
    Text { text: String },
    ToolCall { id: String, name: String, arguments: String },
    Other,
}

/// A block of a message.
pub enum ContentBlockView {
    Text { text: Seq<char> },
    ToolCall { id: Seq<char>, name: Seq<char>, arguments: Seq<char> },
    Other,
}

impl View for ContentBlock {
    type V = ContentBlockView;

    open spec fn view(&self) -> ContentBlockView {
        match self {
            ContentBlock::Text { text } => ContentBlockView::Text { text: text@ },
            ContentBlock::ToolCall { id, name, arguments } => ContentBlockView::ToolCall {
                id: id@,
                name: name@,
                arguments: arguments@,
            },
            ContentBlock::Other => ContentBlockView::Other,
        }
    }
}

impl Clone for ContentBlock {
    fn clone(&self) -> (r: Self)
        ensures
            r@ == self@,
    {
        match self {
            ContentBlock::Text { text } => ContentBlock::Text { text: text.clone() },
            ContentBlock::ToolCall { id, name, arguments } => ContentBlock::ToolCall {
                id: id.clone(),
                name: name.clone(),
                arguments: arguments.clone(),
            },
            ContentBlock::Other => ContentBlock::Other,
        }
    }
}

/// Blocks by their contents.
pub open spec fn blocks(v: Seq<ContentBlock>) -> Seq<ContentBlockView> {
    Seq::new(v.len(), |i: int| v[i]@)
}

/// A copy of the blocks.
pub fn copy_blocks(v: &Vec<ContentBlock>) -> (r: Vec<ContentBlock>)
    ensures
        blocks(r@) == blocks(v@),
{
    let mut out: Vec<ContentBlock> = Vec::new();
    let mut i: usize = 0;
    assert(blocks(out@) =~= blocks(v@).take(0));
    while i < v.len()
        invariant
            i <= v@.len(),
            blocks(out@) == blocks(v@).take(i as int),
        decreases v@.len() - i,
    {
        let ghost before = blocks(out@);
        let b = v[i].clone();
        out.push(b);
        proof {
            assert(blocks(out@) =~= before.push(b@));
            assert(blocks(v@).take(i + 1) =~= blocks(v@).take(i as int).push(v@[i as int]@));
        }
        i += 1;
    }
    assert(blocks(v@).take(i as int) =~= blocks(v@));
    out
}

/// A message of the assistant.
#[derive(Debug)]
pub struct AssistantMessage {
    pub content: Vec<ContentBlock>,
}

/// A tool call of the assistant.
#[derive(Debug)]
pub struct ToolCall {
    pub id: String,
    pub name: String,
    pub arguments: String,
}

/// A tool call of the assistant.
pub struct ToolCallView {
    pub id: Seq<char>,
    pub name: Seq<char>,
    pub arguments: Seq<char>,
}

impl View for ToolCall {
    type V = ToolCallView;

    open spec fn view(&self) -> ToolCallView {
        ToolCallView { id: self.id@, name: self.name@, arguments: self.arguments@ }
    }
}

impl Clone for ToolCall {
    fn clone(&self) -> (r: Self)
        ensures
            r@ == self@,
    {
        ToolCall { id: self.id.clone(), name: self.name.clone(), arguments: self.arguments.clone() }
    }
}

/// Tool calls by their contents.
pub open spec fn calls(v: Seq<ToolCall>) -> Seq<ToolCallView> {
    Seq::new(v.len(), |i: int| v[i]@)
}

/// A block of a tool's result: a text, or anything else as JSON text.
#[derive(Debug)]
pub enum ResultBlock {
    Text(String),
    Json(String),
}

/// A block of a tool's result.
pub enum ResultBlockView {
    Text(Seq<char>),
    Json(Seq<char>),
}

impl View for ResultBlock {
    type V = ResultBlockView;

    open spec fn view(&self) -> ResultBlockView {
        match self {
            ResultBlock::Text(s) => ResultBlockView::Text(s@),
            ResultBlock::Json(s) => ResultBlockView::Json(s@),
        }
    }
}

impl Clone for ResultBlock {
    fn clone(&self) -> (r: Self)
        ensures
            r@ == self@,
    {
        match self {
            ResultBlock::Text(s) => ResultBlock::Text(s.clone()),
            ResultBlock::Json(s) => ResultBlock::Json(s.clone()),
        }
    }
}

/// Blocks of a result by their contents.
pub open spec fn result_blocks(v: Seq<ResultBlock>) -> Seq<ResultBlockView> {
    Seq::new(v.len(), |i: int| v[i]@)
}

/// A tool's result; with `terminate` it asks for the run to end.
#[derive(Debug)]
pub struct LoopToolResult {
    pub content: Vec<ResultBlock>,
    pub details: String,
    pub terminate: Option<bool>,
}

/// A tool's result.
#[verifier::ext_equal]
pub struct LoopToolResultView {
    pub content: Seq<ResultBlockView>,
    pub details: Seq<char>,
    pub terminate: Option<bool>,
}

impl View for LoopToolResult {
    type V = LoopToolResultView;

    open spec fn view(&self) -> LoopToolResultView {
        LoopToolResultView {
            content: result_blocks(self.content@),
            details: self.details@,
            terminate: self.terminate,
        }
    }
}

impl Clone for LoopToolResult {
    fn clone(&self) -> (r: Self)
        ensures
            r@ == self@,
    {
        let mut content: Vec<ResultBlock> = Vec::new();
        let mut i: usize = 0;
        assert(result_blocks(content@) =~= result_blocks(self.content@).take(0));
        while i < self.content.len()
            invariant
                i <= self.content@.len(),
                result_blocks(content@) == result_blocks(self.content@).take(i as int),
            decreases self.content@.len() - i,
        {
            let ghost before = result_blocks(content@);
            let b = self.content[i].clone();
            content.push(b);
            proof {
                assert(result_blocks(content@) =~= before.push(b@));
                assert(result_blocks(self.content@).take(i + 1) =~= result_blocks(
                    self.content@,
                ).take(i as int).push(self.content@[i as int]@));
            }
            i += 1;
        }
        assert(result_blocks(self.content@).take(i as int) =~= result_blocks(self.content@));
        LoopToolResult { content, details: self.details.clone(), terminate: self.terminate }
    }
}

/// The message with which a tool call is answered.
#[derive(Debug)]
pub struct ToolResultMessage {
    pub tool_call_id: String,
    pub tool_name: String,
    pub content: Vec<ContentBlock>,
    pub details: String,
    pub is_error: bool,
}

/// The message with which a tool call is answered.
#[verifier::ext_equal]
pub struct ToolResultMessageView {
    pub tool_call_id: Seq<char>,
    pub tool_name: Seq<char>,
    pub content: Seq<ContentBlockView>,
    pub details: Seq<char>,
    pub is_error: bool,
}

impl View for ToolResultMessage {
    type V = ToolResultMessageView;

    open spec fn view(&self) -> ToolResultMessageView {
        ToolResultMessageView {
            tool_call_id: self.tool_call_id@,
            tool_name: self.tool_name@,
            content: blocks(self.content@),
            details: self.details@,
            is_error: self.is_error,
        }
    }
}

impl Clone for ToolResultMessage {
    fn clone(&self) -> (r: Self)
        ensures
            r@ == self@,
    {
        ToolResultMessage {
            tool_call_id: self.tool_call_id.clone(),
            tool_name: self.tool_name.clone(),
            content: copy_blocks(&self.content),
            details: self.details.clone(),
            is_error: self.is_error,
        }
    }
}

/// Answers by their contents.
pub open spec fn answers(v: Seq<ToolResultMessage>) -> Seq<ToolResultMessageView> {
    Seq::new(v.len(), |i: int| v[i]@)
}

/// What is told of a batch of tool calls.
#[derive(Debug)]
pub enum LoopEvent {
    ToolExecutionStart { call: ToolCall },
    ToolExecutionEnd { tool_call_id: String, tool_name: String, result: LoopToolResult, is_error: bool },
    MessageStart { message: ToolResultMessage },
    MessageEnd { message: ToolResultMessage },
}

/// What is told of a batch of tool calls.
pub enum LoopEventView {
    ToolExecutionStart { call: ToolCallView },
    ToolExecutionEnd {
        tool_call_id: Seq<char>,
        tool_name: Seq<char>,
        result: LoopToolResultView,
        is_error: bool,
    },
    MessageStart { message: ToolResultMessageView },
    MessageEnd { message: ToolResultMessageView },
}

impl View for LoopEvent {
    type V = LoopEventView;

    open spec fn view(&self) -> LoopEventView {
        match self {
            LoopEvent::ToolExecutionStart { call } => LoopEventView::ToolExecutionStart {
                call: call@,
            },
            LoopEvent::ToolExecutionEnd { tool_call_id, tool_name, result, is_error } => {
                LoopEventView::ToolExecutionEnd {
                    tool_call_id: tool_call_id@,
                    tool_name: tool_name@,
                    result: result@,
                    is_error: *is_error,
                }
            },
            LoopEvent::MessageStart { message } => LoopEventView::MessageStart {
                message: message@,
            },
            LoopEvent::MessageEnd { message } => LoopEventView::MessageEnd { message: message@ },
        }
    }
}

/// Events by their contents.
pub open spec fn loop_events(v: Seq<LoopEvent>) -> Seq<LoopEventView> {
    Seq::new(v.len(), |i: int| v[i]@)
}

} // verus!
