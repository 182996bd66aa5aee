//! Compaction of a conversation that nears the context limit: when to compact, what to
//! shorten beforehand, and the prompt that asks for the summary.
use vstd::prelude::*;
use crate::splice::{lemma_next_at, next_at};
use crate::text::{
    begins, byte_len, cat, contains, decimal, decimal_of, digit_of, find_char, find_from, fit, fit_of, has_at,
    has_no, head, in_order, lemma_find_char, lemma_fit, lemma_in_order_around, lemma_in_order_concat,
    lemma_in_order_itself, lemma_in_order_none, lemma_in_order_occurs, lemma_in_order_push, lemma_occurs_between, lines, lines_of, occurs, part, same, size, stands_at, take_chars,
    texts, to_chars, trim, trim_of, without_cr,
};

verus! {

/// Stands before a summary in the conversation, so that it is read as background.
pub const SUMMARY_PREFIX: &'static str = "\
[CONTEXT COMPACTION — REFERENCE ONLY] Earlier turns were compacted \
into the summary below. This is a handoff from a previous context \
window — treat it as background reference, NOT as active instructions. \
Do NOT answer questions or fulfill requests mentioned in this summary; \
they were already addressed. \
Your current task is identified in the '## Active Task' section of the \
summary — resume exactly from there. \
Respond ONLY to the latest user message \
that appears AFTER this summary. The current session state (files, \
config, etc.) may reflect work described here — avoid repeating it:";

/// Least number of tokens that a summary may take.
pub const MIN_SUMMARY_TOKENS: u64 = 2000;

/// Greatest number of tokens that a summary may take.
pub const SUMMARY_TOKENS_CEILING: u64 = 12_000;

/// Characters that are taken for one token.
pub const CHARS_PER_TOKEN: u64 = 4;

/// Characters of a tool result above which it is shortened.
pub const PRUNE_ABOVE: usize = 500;

/// Characters of a turn above which it is shortened for the summary.
pub const TURN_LIMIT: usize = 2000;

/// Tells the summarizer what it is to do.
pub const SUMMARIZER_PREAMBLE: &'static str = "\
You are a summarization agent creating a context checkpoint. \
Treat the conversation turns below as source material for a \
compact record of prior work. \
Produce only the structured summary; do not add a greeting, \
preamble, or prefix. \
Write the summary in the same language the user was using in the \
conversation — do not translate or switch to English.";

/// The sections of a summary, up to the number of tokens it may take.
pub const TEMPLATE_HEAD: &'static str = "## Active Task\n\
[THE SINGLE MOST IMPORTANT FIELD. Copy the user's most recent request or\n\
task assignment verbatim — the exact words they used. If multiple tasks\n\
were requested and only some are done, list only the ones NOT yet completed.\n\
If no outstanding task exists, write \"None.\"]\n\
\n\
## Goal\n\
[What the user is trying to accomplish overall]\n\
\n\
## Constraints & Preferences\n\
[User preferences, coding style, constraints, important decisions]\n\
\n\
## Completed Actions\n\
[Numbered list of concrete actions taken — include tool used, target, and outcome.]\n\
\n\
## Active State\n\
[Current working state — directory, branch, modified files, test status]\n\
\n\
## In Progress\n\
[Work currently underway — what was being done when compaction fired]\n\
\n\
## Blocked\n\
[Any blockers, errors, or issues not yet resolved. Include exact error messages.]\n\
\n\
## Key Decisions\n\
[Important technical decisions and WHY they were made]\n\
\n\
## Resolved Questions\n\
[Questions already answered — include the answer]\n\
\n\
## Pending User Asks\n\
[Questions or requests NOT yet answered. If none, write \"None.\"]\n\
\n\
## Relevant Files\n\
[Files read, modified, or created — with brief note on each]\n\
\n\
## Remaining Work\n\
[What remains to be done — framed as context, not instructions]\n\
\n\
## Critical Context\n\
[Specific values, error messages, config details that would be lost\n\
without explicit preservation]\n\
\n\
Target ~";

/// What follows the number of tokens.
pub const TEMPLATE_TAIL: &'static str = " tokens. Be CONCRETE — include file paths,\n\
command outputs, error messages, line numbers, and specific values.\n\
Write only the summary body. Do not include any preamble or prefix.";

/// Stands before the earlier summary.
pub const UPDATE_INTRO: &'static str = "\n\n\
You are updating a context compaction summary. A previous compaction \
produced the summary below. New conversation turns have occurred since \
then and need to be incorporated.\n\n\
PREVIOUS SUMMARY:\n";

/// Stands before the turns that an earlier summary lacks.
pub const UPDATE_TURNS: &'static str = "\n\n\
NEW TURNS TO INCORPORATE:\n";

/// Stands behind the turns that an earlier summary lacks.
pub const UPDATE_CLOSE: &'static str = "\n\n\
Update the summary using this exact structure. PRESERVE all existing \
information that is still relevant. CRITICAL: Update \"## Active Task\" \
to reflect the user's most recent unfulfilled request.\n\n\
";

/// Stands before the turns of a first summary.
pub const FRESH_INTRO: &'static str = "\n\n\
Create a structured checkpoint summary for the conversation after earlier \
turns are compacted. The summary should preserve enough detail for \
continuity without re-reading the original turns.\n\n\
TURNS TO SUMMARIZE:\n";

/// Stands behind the turns of a first summary.
pub const FRESH_CLOSE: &'static str = "\n\n\
Use this exact structure:\n\n\
";

/// What a compaction came to.
#[derive(Debug)]
pub struct CompressionResult {
    pub summary: String,
    pub new_session_id: String,
    pub parent_session_id: String,
    pub tokens_before: u64,
    pub tokens_after: u64,
    pub pruned_count: usize,
    pub compressed_messages: usize,
}

/// A field of a message: not there, a text, or something else.
#[derive(Debug)]
pub enum Field {
    Absent,
    Text(String),
    Other,
}

/// A field of a message.
pub enum FieldView {
    Absent,
    Text(Seq<char>),
    Other,
}

impl View for Field {
    type V = FieldView;

    open spec fn view(&self) -> FieldView {
        match self {
            Field::Absent => FieldView::Absent,
            Field::Text(s) => FieldView::Text(s@),
            Field::Other => FieldView::Other,
        }
    }
}

impl Clone for Field {
    fn clone(&self) -> (r: Self)
        ensures
            r@ == self@,
    {
        match self {
            Field::Absent => Field::Absent,
            Field::Text(s) => Field::Text(s.clone()),
            Field::Other => Field::Other,
        }
    }
}

/// The text of a field, or `default` where it holds none.
pub open spec fn text_or(f: FieldView, default: Seq<char>) -> Seq<char> {
    match f {
        FieldView::Text(s) => s,
        _ => default,
    }
}

impl Field {
    /// The text of the field, or `default` where it holds none.
    pub fn text_or<'a>(&'a self, default: &'a str) -> (r: &'a str)
        ensures
            r@ == text_or(self@, default@),
    {
        match self {
            Field::Text(s) => s.as_str(),
            _ => default,
        }
    }
}

/// The fields of a message that compaction looks at. The name of a tool stands in
/// either of two fields.
#[derive(Debug)]
pub struct Turn {
    pub role: Field,
    pub content: Field,
    pub tool_name: Field,
    pub tool_name_camel: Field,
}

/// The fields of a message.
pub struct TurnView {
    pub role: FieldView,
    pub content: FieldView,
    pub tool_name: FieldView,
    pub tool_name_camel: FieldView,
}

impl View for Turn {
    type V = TurnView;

    open spec fn view(&self) -> TurnView {
        TurnView {
            role: self.role@,
            content: self.content@,
            tool_name: self.tool_name@,
            tool_name_camel: self.tool_name_camel@,
        }
    }
}

impl Clone for Turn {
    fn clone(&self) -> (r: Self)
        ensures
            r@ == self@,
    {
        Turn {
            role: self.role.clone(),
            content: self.content.clone(),
            tool_name: self.tool_name.clone(),
            tool_name_camel: self.tool_name_camel.clone(),
        }
    }
}

/// The messages by their fields.
pub open spec fn turns(v: Seq<Turn>) -> Seq<TurnView> {
    Seq::new(v.len(), |i: int| v[i]@)
}

/// Whether compaction is due: the prompt takes more than three quarters of the window.
pub fn should_compress(prompt_tokens: u64, context_window: u64) -> (r: bool)
    ensures
        r == (4 * prompt_tokens > 3 * context_window),
{
    let threshold: u128 = 3 * (context_window as u128) / 4;
    prompt_tokens as u128 > threshold
}

/// Tokens that a number of characters is taken for.
pub open spec fn tokens_of(chars: nat) -> nat {
    (chars + 3) / 4
}

/// Tokens that a text is taken for.
pub fn approx_tokens(text: &str) -> (r: u64)
    ensures
        r == tokens_of(text@.len()),
{
    let n: u64 = text.unicode_len() as u64;
    n / CHARS_PER_TOKEN + if n % CHARS_PER_TOKEN == 0 {
        0
    } else {
        1
    }
}

/// Characters of the contents of the messages.
pub open spec fn content_chars(ts: Seq<TurnView>) -> nat
    decreases ts.len(),
{
    if ts.len() == 0 {
        0
    } else {
        content_chars(ts.drop_last()) + text_or(ts.last().content, ""@).len()
    }
}

/// Tokens that the messages are taken for.
pub fn estimate_messages_tokens(messages: &Vec<Turn>) -> (r: u64)
    requires
        content_chars(turns(messages@)) <= u64::MAX,
    ensures
        r == tokens_of(content_chars(turns(messages@))),
{
    let ghost all = turns(messages@);
    let mut total: u64 = 0;
    let mut i: usize = 0;
    assert(all.take(0) =~= Seq::empty());
    while i < messages.len()
        invariant
            all == turns(messages@),
            i <= messages@.len(),
            content_chars(all) <= u64::MAX,
            total == content_chars(all.take(i as int)),
        decreases messages@.len() - i,
    {
        proof {
            assert(all.take(i + 1).drop_last() =~= all.take(i as int));
            assert(all.take(i + 1).last() == messages@[i as int]@);
            lemma_content_chars_take(all, i + 1);
        }
        let n: u64 = messages[i].content.text_or("").unicode_len() as u64;
        total = total + n;
        i += 1;
    }
    assert(all.take(i as int) =~= all);
    total / CHARS_PER_TOKEN + if total % CHARS_PER_TOKEN == 0 {
        0
    } else {
        1
    }
}

proof fn lemma_content_chars_take(ts: Seq<TurnView>, n: int)
    requires
        0 <= n <= ts.len(),
    ensures
        content_chars(ts.take(n)) <= content_chars(ts),
    decreases ts.len() - n,
{
    if n < ts.len() {
        lemma_content_chars_take(ts, n + 1);
        assert(ts.take(n + 1).drop_last() =~= ts.take(n));
    } else {
        assert(ts.take(n) =~= ts);
    }
}

/// A numeral with a comma before each group of three digits but the first.
pub open spec fn grouped_of(d: Seq<char>) -> Seq<char>
    decreases d.len(),
{
    if d.len() <= 3 {
        d
    } else {
        grouped_of(d.take(d.len() - 3)) + ","@ + d.skip(d.len() - 3)
    }
}

/// The first `i` digits of `d` with the commas that belong before and between them.
spec fn grouped_up_to(d: Seq<char>, i: int) -> Seq<char>
    decreases i,
{
    if i <= 0 {
        Seq::empty()
    } else {
        let before = grouped_up_to(d, i - 1);
        (if i - 1 > 0 && (d.len() - (i - 1)) % 3 == 0 {
            before.push(',')
        } else {
            before
        }).push(d[i - 1])
    }
}

proof fn lemma_grouped_prefix(d: Seq<char>, i: int)
    requires
        d.len() > 3,
        0 <= i <= d.len() - 3,
    ensures
        grouped_up_to(d, i) == grouped_up_to(d.take(d.len() - 3), i),
    decreases i,
{
    if i > 0 {
        lemma_grouped_prefix(d, i - 1);
    }
}

proof fn lemma_grouped(d: Seq<char>)
    ensures
        grouped_up_to(d, d.len() as int) == grouped_of(d),
    decreases d.len(),
{
    reveal_strlit(",");
    reveal_with_fuel(grouped_up_to, 4);
    let n = d.len() as int;
    if n <= 3 {
        assert(grouped_up_to(d, n) =~= d);
    } else {
        let h = d.take(n - 3);
        lemma_grouped_prefix(d, n - 3);
        lemma_grouped(h);
        assert(grouped_up_to(d, n) =~= grouped_up_to(d, n - 3) + ","@ + d.skip(n - 3));
    }
}

/// The numeral of `n` in groups of three digits.
pub fn fmt_count(n: usize) -> (r: String)
    ensures
        r@ == grouped_of(decimal_of(n as nat)),
{
    let d = decimal(n as u128);
    let v = to_chars(d.as_str());
    let len: usize = v.len();
    let mut out = String::new();
    let mut i: usize = 0;
    assert(out@ =~= Seq::empty());
    while i < len
        invariant
            len == v@.len(),
            i <= len,
            out@ == grouped_up_to(v@, i as int),
        decreases len - i,
    {
        if i > 0 && (len - i) % 3 == 0 {
            out.push(',');
        }
        out.push(v[i]);
        i += 1;
    }
    proof {
        lemma_grouped(v@);
    }
    out
}

/// The text without the copies of `p` at its start.
pub open spec fn strip_all_of(s: Seq<char>, p: Seq<char>) -> Seq<char>
    decreases s.len(),
{
    if p.len() == 0 || !begins(s, p) {
        s
    } else {
        strip_all_of(s.skip(p.len() as int), p)
    }
}

fn strip_all(s: &str, p: &str) -> (r: String)
    requires
        p@.len() > 0,
    ensures
        r@ == strip_all_of(s@, p@),
{
    let v = to_chars(s);
    let pv = to_chars(p);
    let n: usize = v.len();
    let mut i: usize = 0;
    assert(s@.skip(0) =~= s@);
    while stands_at(&v, &pv, i)
        invariant
            v@ == s@,
            pv@ == p@,
            p@.len() > 0,
            n == v@.len(),
            i <= n,
            strip_all_of(s@.skip(i as int), p@) == strip_all_of(s@, p@),
        decreases n - i,
    {
        proof {
            let t = s@.skip(i as int);
            assert(t.subrange(0, p@.len() as int) =~= s@.subrange(i as int, i + p@.len()));
            assert(begins(t, p@));
            assert(t.skip(p@.len() as int) =~= s@.skip(i + p@.len()));
        }
        i = i + pv.len();
    }
    proof {
        let t = s@.skip(i as int);
        if begins(t, p@) {
            assert(t.subrange(0, p@.len() as int) =~= s@.subrange(i as int, i + p@.len()));
            assert(has_at(s@, p@, i as int));
        }
        assert(!begins(t, p@));
        assert(s@.subrange(i as int, n as int) =~= t);
    }
    part(&v, i, n)
}

/// The first line of a text.
pub open spec fn first_line_of(s: Seq<char>) -> Option<Seq<char>> {
    if lines_of(s).len() == 0 {
        None
    } else {
        Some(lines_of(s)[0])
    }
}

/// The command at the start of a shell's output, cut to the bytes that are shown.
pub open spec fn command_of(s: Seq<char>) -> Seq<char> {
    match first_line_of(s) {
        None => "?"@,
        Some(l) => {
            let cmd = strip_all_of(strip_all_of(l, "$ "@), "> "@);
            if byte_len(cmd) > 80 {
                fit_of(cmd, 77) + "…"@
            } else {
                cmd
            }
        },
    }
}

/// A text on one line: a space in the place of each line feed.
pub open spec fn on_one_line(s: Seq<char>) -> Seq<char> {
    Seq::new(
        s.len(),
        |i: int|
            if s[i] == '\n' {
                ' '
            } else {
                s[i]
            },
    )
}

fn put_on_one_line(s: &str) -> (r: String)
    ensures
        r@ == on_one_line(s@),
{
    let v = to_chars(s);
    let mut out = String::new();
    let mut i: usize = 0;
    assert(out@ =~= on_one_line(s@).take(0));
    while i < v.len()
        invariant
            i <= v@.len(),
            v@ == s@,
            out@ == on_one_line(s@).take(i as int),
        decreases v@.len() - i,
    {
        out.push(
            if v[i] == '\n' {
                ' '
            } else {
                v[i]
            },
        );
        assert(out@ =~= on_one_line(s@).take(i + 1));
        i += 1;
    }
    assert(on_one_line(s@).take(i as int) =~= on_one_line(s@));
    out
}

/// One line that stands for a tool result.
pub open spec fn summary_of(tool: Seq<char>, s: Seq<char>) -> Seq<char> {
    let length = grouped_of(decimal_of(s.len()));
    let count = decimal_of(lines_of(s).len());
    if tool == "bash"@ {
        "[bash] ran `"@ + command_of(s) + "` -> "@ + count + " lines, "@ + length + " chars"@
    } else if tool == "read"@ {
        "[read] "@ + length + " chars, "@ + count + " lines"@
    } else if tool == "write"@ {
        "[write] wrote "@ + length + " chars"@
    } else if tool == "edit"@ {
        "[edit] patched "@ + length + " chars"@
    } else if tool == "grep"@ {
        "[grep] "@ + count + " matches, "@ + length + " chars"@
    } else if tool == "glob"@ || tool == "find_files"@ || tool == "list_dir"@ {
        "["@ + tool + "] "@ + (match first_line_of(s) {
            Some(l) => l,
            None => ""@,
        })
    } else if tool == "task"@ || tool == "task_status"@ {
        "["@ + tool + "] "@ + length + " chars result"@
    } else {
        "["@ + tool + "] "@ + on_one_line(head(s, 80)) + (if s.len() > 80 {
            "…"@
        } else {
            ""@
        }) + " ("@ + length + " chars)"@
    }
}

fn shown_command(ls: &Vec<String>) -> (r: String)
    ensures
        r@ == (if ls@.len() == 0 {
            "?"@
        } else {
            let cmd = strip_all_of(strip_all_of(ls@[0]@, "$ "@), "> "@);
            if byte_len(cmd) > 80 {
                fit_of(cmd, 77) + "…"@
            } else {
                cmd
            }
        }),
{
    if ls.len() == 0 {
        return "?".to_owned();
    }
    proof {
        reveal_strlit("$ ");
        reveal_strlit("> ");
    }
    let a = strip_all(ls[0].as_str(), "$ ");
    let cmd = strip_all(a.as_str(), "> ");
    if size(cmd.as_str()) > 80 {
        let mut out = fit(cmd.as_str(), 77);
        out.append("…");
        out
    } else {
        cmd
    }
}

/// One line that stands for a tool result.
pub fn summarize_tool_result(tool_name: &str, content: &str) -> (r: String)
    ensures
        r@ == summary_of(tool_name@, content@),
{
    let ls = lines(content);
    assert(texts(ls@).len() == ls@.len());
    assert(ls@.len() > 0 ==> texts(ls@)[0] == ls@[0]@);
    let n: usize = content.unicode_len();
    let length = fmt_count(n);
    let count = decimal(ls.len() as u128);
    let mut out = String::new();
    if same(tool_name, "bash") {
        out.append("[bash] ran `");
        let cmd = shown_command(&ls);
        out.append(cmd.as_str());
        out.append("` -> ");
        out.append(count.as_str());
        out.append(" lines, ");
        out.append(length.as_str());
        out.append(" chars");
    } else if same(tool_name, "read") {
        out.append("[read] ");
        out.append(length.as_str());
        out.append(" chars, ");
        out.append(count.as_str());
        out.append(" lines");
    } else if same(tool_name, "write") {
        out.append("[write] wrote ");
        out.append(length.as_str());
        out.append(" chars");
    } else if same(tool_name, "edit") {
        out.append("[edit] patched ");
        out.append(length.as_str());
        out.append(" chars");
    } else if same(tool_name, "grep") {
        out.append("[grep] ");
        out.append(count.as_str());
        out.append(" matches, ");
        out.append(length.as_str());
        out.append(" chars");
    } else if same(tool_name, "glob") || same(tool_name, "find_files") || same(tool_name, "list_dir") {
        out.append("[");
        out.append(tool_name);
        out.append("] ");
        let first = if ls.len() > 0 {
            ls[0].as_str()
        } else {
            ""
        };
        out.append(first);
    } else if same(tool_name, "task") || same(tool_name, "task_status") {
        out.append("[");
        out.append(tool_name);
        out.append("] ");
        out.append(length.as_str());
        out.append(" chars result");
    } else {
        out.append("[");
        out.append(tool_name);
        out.append("] ");
        let start = take_chars(content, 80);
        let preview = put_on_one_line(start.as_str());
        out.append(preview.as_str());
        out.append(
            if n > 80 {
                "…"
            } else {
                ""
            },
        );
        out.append(" (");
        out.append(length.as_str());
        out.append(" chars)");
    }
    out
}

proof fn lemma_decimal_on_one_line(n: nat)
    ensures
        has_no(decimal_of(n), '\n'),
    decreases n,
{
    if n >= 10 {
        lemma_decimal_on_one_line(n / 10);
        assert(digit_of(n % 10) as int == 48 + n % 10);
    } else {
        assert(digit_of(n) as int == 48 + n);
    }
}

proof fn lemma_grouped_on_one_line(d: Seq<char>)
    requires
        has_no(d, '\n'),
    ensures
        has_no(grouped_of(d), '\n'),
    decreases d.len(),
{
    if d.len() > 3 {
        reveal_strlit(",");
        lemma_grouped_on_one_line(d.take(d.len() - 3));
    }
}

proof fn lemma_first_line_on_one_line(s: Seq<char>)
    ensures
        first_line_of(s) is Some ==> has_no(first_line_of(s)->0, '\n'),
{
    lemma_find_char(s, '\n');
    let k = find_char(s, '\n');
    if s.len() > 0 && k < s.len() {
        assert(lines_of(s)[0] == without_cr(s.take(k)));
    }
}

proof fn lemma_strip_on_one_line(s: Seq<char>, p: Seq<char>)
    requires
        has_no(s, '\n'),
    ensures
        has_no(strip_all_of(s, p), '\n'),
    decreases s.len(),
{
    if p.len() > 0 && begins(s, p) {
        lemma_strip_on_one_line(s.skip(p.len() as int), p);
    }
}

proof fn lemma_command_on_one_line(s: Seq<char>)
    ensures
        has_no(command_of(s), '\n'),
{
    reveal_strlit("?");
    reveal_strlit("…");
    lemma_first_line_on_one_line(s);
    match first_line_of(s) {
        Some(l) => {
            lemma_strip_on_one_line(l, "$ "@);
            lemma_strip_on_one_line(strip_all_of(l, "$ "@), "> "@);
            let cmd = strip_all_of(strip_all_of(l, "$ "@), "> "@);
            lemma_fit(cmd, 77);
        },
        None => {},
    }
}

proof fn lemma_cat_on_one_line(a: Seq<char>, b: Seq<char>)
    requires
        has_no(a, '\n'),
        has_no(b, '\n'),
    ensures
        has_no(a + b, '\n'),
{
}

/// What stands for a tool result is one line, whatever the result holds, as long as the name
/// of the tool is one.
pub proof fn law_summary_is_one_line(tool: Seq<char>, s: Seq<char>)
    requires
        has_no(tool, '\n'),
    ensures
        has_no(summary_of(tool, s), '\n'),
{
    let length = grouped_of(decimal_of(s.len()));
    let count = decimal_of(lines_of(s).len());
    lemma_decimal_on_one_line(s.len());
    lemma_grouped_on_one_line(decimal_of(s.len()));
    lemma_decimal_on_one_line(lines_of(s).len());
    lemma_command_on_one_line(s);
    lemma_first_line_on_one_line(s);
    if tool == "bash"@ {
        reveal_strlit("[bash] ran `");
        reveal_strlit("` -> ");
        reveal_strlit(" lines, ");
        reveal_strlit(" chars");
        lemma_cat_on_one_line("[bash] ran `"@, command_of(s));
        let a = "[bash] ran `"@ + command_of(s);
        lemma_cat_on_one_line(a, "` -> "@);
        lemma_cat_on_one_line(a + "` -> "@, count);
        let b = a + "` -> "@ + count;
        lemma_cat_on_one_line(b, " lines, "@);
        lemma_cat_on_one_line(b + " lines, "@, length);
        lemma_cat_on_one_line(b + " lines, "@ + length, " chars"@);
    } else if tool == "read"@ {
        reveal_strlit("[read] ");
        reveal_strlit(" chars, ");
        reveal_strlit(" lines");
        lemma_cat_on_one_line("[read] "@, length);
        let a = "[read] "@ + length;
        lemma_cat_on_one_line(a, " chars, "@);
        lemma_cat_on_one_line(a + " chars, "@, count);
        lemma_cat_on_one_line(a + " chars, "@ + count, " lines"@);
    } else if tool == "write"@ {
        reveal_strlit("[write] wrote ");
        reveal_strlit(" chars");
        lemma_cat_on_one_line("[write] wrote "@, length);
        lemma_cat_on_one_line("[write] wrote "@ + length, " chars"@);
    } else if tool == "edit"@ {
        reveal_strlit("[edit] patched ");
        reveal_strlit(" chars");
        lemma_cat_on_one_line("[edit] patched "@, length);
        lemma_cat_on_one_line("[edit] patched "@ + length, " chars"@);
    } else if tool == "grep"@ {
        reveal_strlit("[grep] ");
        reveal_strlit(" matches, ");
        reveal_strlit(" chars");
        lemma_cat_on_one_line("[grep] "@, count);
        let a = "[grep] "@ + count;
        lemma_cat_on_one_line(a, " matches, "@);
        lemma_cat_on_one_line(a + " matches, "@, length);
        lemma_cat_on_one_line(a + " matches, "@ + length, " chars"@);
    } else {
        reveal_strlit("[");
        reveal_strlit("] ");
        lemma_cat_on_one_line("["@, tool);
        lemma_cat_on_one_line("["@ + tool, "] "@);
        let a = "["@ + tool + "] "@;
        if tool == "glob"@ || tool == "find_files"@ || tool == "list_dir"@ {
            reveal_strlit("");
            let l = match first_line_of(s) {
                Some(l) => l,
                None => ""@,
            };
            lemma_cat_on_one_line(a, l);
        } else if tool == "task"@ || tool == "task_status"@ {
            reveal_strlit(" chars result");
            lemma_cat_on_one_line(a, length);
            lemma_cat_on_one_line(a + length, " chars result"@);
        } else {
            reveal_strlit("");
            reveal_strlit("…");
            reveal_strlit(" (");
            reveal_strlit(" chars)");
            let shown = on_one_line(head(s, 80));
            let dots = if s.len() > 80 {
                "…"@
            } else {
                ""@
            };
            assert(has_no(shown, '\n'));
            lemma_cat_on_one_line(a, shown);
            lemma_cat_on_one_line(a + shown, dots);
            lemma_cat_on_one_line(a + shown + dots, " ("@);
            lemma_cat_on_one_line(a + shown + dots + " ("@, length);
            lemma_cat_on_one_line(a + shown + dots + " ("@ + length, " chars)"@);
        }
    }
}

/// The name of the tool whose result a message is: from the first of the two fields
/// that is there, or `tool` where that holds no text.
pub open spec fn tool_of(t: TurnView) -> Seq<char> {
    match t.tool_name {
        FieldView::Absent => text_or(t.tool_name_camel, "tool"@),
        _ => text_or(t.tool_name, "tool"@),
    }
}

/// The message is a tool result that is long enough to be shortened.
pub open spec fn is_prunable(t: TurnView) -> bool {
    let role = text_or(t.role, ""@);
    (role == "tool"@ || role == "toolResult"@) && text_or(t.content, ""@).len()
        > PRUNE_ABOVE
}

/// A message with a long tool result shortened to one line.
pub open spec fn pruned_of(t: TurnView) -> TurnView {
    if is_prunable(t) {
        TurnView {
            content: FieldView::Text(summary_of(tool_of(t), text_or(t.content, ""@))),
            ..t
        }
    } else {
        t
    }
}

/// The messages with long tool results shortened, except among the last `protect`.
pub open spec fn all_pruned(ts: Seq<TurnView>, protect: nat) -> Seq<TurnView> {
    Seq::new(
        ts.len(),
        |i: int|
            if i + protect < ts.len() {
                pruned_of(ts[i])
            } else {
                ts[i]
            },
    )
}

fn prune(t: &Turn) -> (r: Turn)
    ensures
        r@ == pruned_of(t@),
{
    let role = t.role.text_or("");
    if !same(role, "tool") && !same(role, "toolResult") {
        return t.clone();
    }
    let content = t.content.text_or("");
    if content.unicode_len() <= PRUNE_ABOVE {
        return t.clone();
    }
    let tool = match &t.tool_name {
        Field::Absent => t.tool_name_camel.text_or("tool"),
        _ => t.tool_name.text_or("tool"),
    };
    let summary = summarize_tool_result(tool, content);
    Turn {
        role: t.role.clone(),
        content: Field::Text(summary),
        tool_name: t.tool_name.clone(),
        tool_name_camel: t.tool_name_camel.clone(),
    }
}

/// The messages with long tool results shortened to one line each, except among the
/// last `protect_tail`.
pub fn prune_tool_outputs(messages: &Vec<Turn>, protect_tail: usize) -> (r: Vec<Turn>)
    ensures
        turns(r@) == all_pruned(turns(messages@), protect_tail as nat),
{
    let n: usize = messages.len();
    let end: usize = if n <= protect_tail {
        0
    } else {
        n - protect_tail
    };
    let ghost want = all_pruned(turns(messages@), protect_tail as nat);
    let mut out: Vec<Turn> = Vec::new();
    let mut i: usize = 0;
    assert(turns(out@) =~= want.take(0));
    while i < n
        invariant
            n == messages@.len(),
            i <= n,
            end == (if n <= protect_tail {
                0
            } else {
                n - protect_tail
            }),
            want == all_pruned(turns(messages@), protect_tail as nat),
            turns(out@) == want.take(i as int),
        decreases n - i,
    {
        let t = if i >= end {
            messages[i].clone()
        } else {
            prune(&messages[i])
        };
        let ghost before = turns(out@);
        out.push(t);
        proof {
            assert(t@ == want[i as int]);
            assert(turns(out@) =~= before.push(t@));
            assert(want.take(i + 1) =~= want.take(i as int).push(want[i as int]));
        }
        i += 1;
    }
    assert(want.take(i as int) =~= want);
    out
}

/// A turn as the summarizer sees it.
pub open spec fn turn_line(t: TurnView, i: int) -> Seq<char> {
    let content = text_or(t.content, ""@);
    "["@ + decimal_of(i as nat) + "] "@ + text_or(t.role, "?"@) + ": "@ + (if content.len()
        > TURN_LIMIT {
        head(content, TURN_LIMIT as nat) + "… [truncated, "@ + decimal_of(content.len())
            + " total chars]\n"@
    } else {
        content + "\n"@
    })
}

/// The first `n` turns as the summarizer sees them.
pub open spec fn turn_lines(ts: Seq<TurnView>, n: int) -> Seq<char>
    decreases n,
{
    if n <= 0 {
        Seq::empty()
    } else {
        turn_lines(ts, n - 1) + turn_line(ts[n - 1], n - 1)
    }
}

fn describe_turn(t: &Turn, i: usize) -> (r: String)
    ensures
        r@ == turn_line(t@, i as int),
{
    let content = t.content.text_or("");
    let n: usize = content.unicode_len();
    let mut out = String::new();
    out.append("[");
    let k = decimal(i as u128);
    out.append(k.as_str());
    out.append("] ");
    out.append(t.role.text_or("?"));
    out.append(": ");
    if n > TURN_LIMIT {
        let mut body = take_chars(content, TURN_LIMIT);
        body.append("… [truncated, ");
        let total = decimal(n as u128);
        body.append(total.as_str());
        body.append(" total chars]\n");
        out.append(body.as_str());
    } else {
        let body = cat(content, "\n");
        out.append(body.as_str());
    }
    out
}

/// The turns as the summarizer sees them.
pub fn serialize_turns_for_summary(turns_to_summarize: &Vec<Turn>) -> (r: String)
    ensures
        r@ == turn_lines(turns(turns_to_summarize@), turns_to_summarize@.len() as int),
{
    let mut out = String::new();
    let mut i: usize = 0;
    assert(out@ =~= Seq::empty());
    while i < turns_to_summarize.len()
        invariant
            i <= turns_to_summarize@.len(),
            out@ == turn_lines(turns(turns_to_summarize@), i as int),
        decreases turns_to_summarize@.len() - i,
    {
        let row = describe_turn(&turns_to_summarize[i], i);
        out.append(row.as_str());
        i += 1;
    }
    out
}

/// The sections that a summary is to have, with the number of tokens it may take.
pub open spec fn sections_of(budget: nat) -> Seq<char> {
    TEMPLATE_HEAD@ + decimal_of(budget) + TEMPLATE_TAIL@
}

/// The prompt that asks for a summary of the turns, one that continues `previous`
/// where there is one.
pub open spec fn prompt_of(ts: Seq<TurnView>, budget: nat, previous: Option<Seq<char>>) -> Seq<char> {
    let body = turn_lines(ts, ts.len() as int);
    match previous {
        Some(prev) => SUMMARIZER_PREAMBLE@ + UPDATE_INTRO@ + prev + UPDATE_TURNS@ + body
            + UPDATE_CLOSE@ + sections_of(budget),
        None => SUMMARIZER_PREAMBLE@ + FRESH_INTRO@ + body + FRESH_CLOSE@ + sections_of(budget),
    }
}

/// The prompt that asks for a summary of the turns; `focus_topic` is not used yet.
pub fn build_summary_prompt(
    turns_to_summarize: &Vec<Turn>,
    summary_budget: u64,
    previous_summary: Option<&str>,
    focus_topic: Option<&str>,
) -> (r: String)
    ensures
        r@ == prompt_of(
            turns(turns_to_summarize@),
            summary_budget as nat,
            match previous_summary {
                Some(p) => Some(p@),
                None => None,
            },
        ),
{
    let body = serialize_turns_for_summary(turns_to_summarize);
    let n = decimal(summary_budget as u128);
    let mut sections = cat(TEMPLATE_HEAD, n.as_str());
    sections.append(TEMPLATE_TAIL);
    assert(sections@ == sections_of(summary_budget as nat));
    let mut out = SUMMARIZER_PREAMBLE.to_owned();
    match previous_summary {
        Some(prev) => {
            out.append(UPDATE_INTRO);
            out.append(prev);
            out.append(UPDATE_TURNS);
            out.append(body.as_str());
            out.append(UPDATE_CLOSE);
            out.append(sections.as_str());
        },
        None => {
            out.append(FRESH_INTRO);
            out.append(body.as_str());
            out.append(FRESH_CLOSE);
            out.append(sections.as_str());
        },
    }
    out
}

/// Tokens that a summary of so many tokens may take: a fifth, within the limits.
pub fn summary_budget(compressed_tokens: u64) -> (r: u64)
    ensures
        r == (if compressed_tokens / 5 < MIN_SUMMARY_TOKENS {
            MIN_SUMMARY_TOKENS
        } else if compressed_tokens / 5 > SUMMARY_TOKENS_CEILING {
            SUMMARY_TOKENS_CEILING
        } else {
            compressed_tokens / 5
        }),
        MIN_SUMMARY_TOKENS <= r <= SUMMARY_TOKENS_CEILING,
{
    let fifth: u64 = compressed_tokens / 5;
    if fifth < MIN_SUMMARY_TOKENS {
        MIN_SUMMARY_TOKENS
    } else if fifth > SUMMARY_TOKENS_CEILING {
        SUMMARY_TOKENS_CEILING
    } else {
        fifth
    }
}

/// Whether a summary has at least one of the sections that matter most.
pub fn validate_summary(summary: &str) -> (r: bool)
    ensures
        r == (occurs(summary@, "Active Task"@) || occurs(summary@, "Goal"@) || occurs(
            summary@,
            "Completed Actions"@,
        ) || occurs(summary@, "Remaining Work"@)),
{
    contains(summary, "Active Task") || contains(summary, "Goal") || contains(
        summary,
        "Completed Actions",
    ) || contains(summary, "Remaining Work")
}

/// The message holds an earlier summary.
pub open spec fn holds_summary(t: TurnView) -> bool {
    text_or(t.role, ""@) == "system"@ && occurs(text_or(t.content, ""@), SUMMARY_PREFIX@)
}

/// The summary that a message holds: what stands behind the first prefix.
pub open spec fn held_summary(t: TurnView) -> Seq<char> {
    let content = text_or(t.content, ""@);
    trim_of(content.skip(next_at(content, SUMMARY_PREFIX@, 0) + SUMMARY_PREFIX@.len()))
}

/// The last of the first `n` messages that holds a summary, and that summary.
pub open spec fn previous_of(ts: Seq<TurnView>, n: int) -> Option<(int, Seq<char>)>
    decreases n,
{
    if n <= 0 {
        None
    } else if holds_summary(ts[n - 1]) {
        Some((n - 1, held_summary(ts[n - 1])))
    } else {
        previous_of(ts, n - 1)
    }
}

/// The last message that holds a summary, and that summary.
pub fn find_previous_summary(messages: &Vec<Turn>) -> (r: Option<(usize, String)>)
    ensures
        match r {
            Some((i, body)) => previous_of(turns(messages@), messages@.len() as int) == Some(
                (i as int, body@),
            ),
            None => previous_of(turns(messages@), messages@.len() as int) is None,
        },
{
    let mut n: usize = messages.len();
    while n > 0
        invariant
            n <= messages@.len(),
            previous_of(turns(messages@), n as int) == previous_of(
                turns(messages@),
                messages@.len() as int,
            ),
        decreases n,
    {
        let t = &messages[n - 1];
        assert(turns(messages@)[n - 1] == t@);
        let content = t.content.text_or("");
        if same(t.role.text_or(""), "system") {
            let v = to_chars(content);
            let p = to_chars(SUMMARY_PREFIX);
            match find_from(&v, &p, 0) {
                Some(i) => {
                    proof {
                        lemma_next_at(content@, SUMMARY_PREFIX@, 0);
                        assert(has_at(content@, SUMMARY_PREFIX@, i as int));
                        assert(i == next_at(content@, SUMMARY_PREFIX@, 0));
                    }
                    let end: usize = v.len();
                    let rest = part(&v, i + p.len(), end);
                    assert(rest@ =~= content@.skip(i + SUMMARY_PREFIX@.len()));
                    let body = trim(rest.as_str());
                    return Some((n - 1, body));
                },
                None => {
                    assert(!occurs(content@, SUMMARY_PREFIX@));
                },
            }
        }
        n = n - 1;
    }
    None
}

/// A summary that is put into the conversation behind its prefix is found again, as
/// long as no later message holds one.
pub proof fn law_summary_is_found_again(before: Seq<TurnView>, t: TurnView, body: Seq<char>, after: Seq<TurnView>)
    requires
        t.role == FieldView::Text("system"@),
        t.content == FieldView::Text(SUMMARY_PREFIX@ + body),
        forall|i: int| 0 <= i < after.len() ==> !holds_summary(#[trigger] after[i]),
    ensures
        ({
            let all = before.push(t) + after;
            previous_of(all, all.len() as int) == Some((before.len() as int, trim_of(body)))
        }),
    decreases after.len(),
{
    let all = before.push(t) + after;
    let whole = SUMMARY_PREFIX@ + body;
    if after.len() == 0 {
        assert(all.last() == t);
        assert(whole.subrange(0, SUMMARY_PREFIX@.len() as int) =~= SUMMARY_PREFIX@);
        assert(has_at(whole, SUMMARY_PREFIX@, 0));
        assert(next_at(whole, SUMMARY_PREFIX@, 0) == 0);
        assert(whole.skip(SUMMARY_PREFIX@.len() as int) =~= body);
    } else {
        let rest = after.drop_last();
        assert forall|i: int| 0 <= i < rest.len() implies !holds_summary(#[trigger] rest[i]) by {
            assert(rest[i] == after[i]);
        }
        law_summary_is_found_again(before, t, body, rest);
        let shorter = before.push(t) + rest;
        assert(all.last() == after.last());
        assert(!holds_summary(after[after.len() - 1]));
        lemma_previous_prefix(all, shorter, shorter.len() as int);
    }
}

proof fn lemma_previous_prefix(a: Seq<TurnView>, b: Seq<TurnView>, n: int)
    requires
        0 <= n <= a.len(),
        n <= b.len(),
        forall|i: int| 0 <= i < n ==> #[trigger] a[i] == b[i],
    ensures
        previous_of(a, n) == previous_of(b, n),
    decreases n,
{
    if n > 0 {
        assert(a[n - 1] == b[n - 1]);
        lemma_previous_prefix(a, b, n - 1);
    }
}

/// Shortening keeps every message in its place and with its role, leaves the last ones
/// and everything that is not a long tool result as it was.
pub proof fn law_pruning_is_limited(ts: Seq<TurnView>, protect: nat, i: int)
    requires
        0 <= i < ts.len(),
    ensures
        all_pruned(ts, protect).len() == ts.len(),
        all_pruned(ts, protect)[i].role == ts[i].role,
        tool_of(all_pruned(ts, protect)[i]) == tool_of(ts[i]),
        i + protect >= ts.len() ==> all_pruned(ts, protect)[i] == ts[i],
        !is_prunable(ts[i]) ==> all_pruned(ts, protect)[i] == ts[i],
{
}

/// What the summarizer is to see of the first `n` turns: the role and the content of each, the
/// content up to the limit.
pub open spec fn heard(ts: Seq<TurnView>, n: int) -> Seq<Seq<char>>
    decreases n,
{
    if n <= 0 {
        Seq::empty()
    } else {
        let content = text_or(ts[n - 1].content, ""@);
        heard(ts, n - 1).push(text_or(ts[n - 1].role, "?"@)).push(
            if content.len() <= TURN_LIMIT {
                content
            } else {
                content.take(TURN_LIMIT as int)
            },
        )
    }
}

proof fn lemma_heard_len(ts: Seq<TurnView>, n: int)
    requires
        0 <= n,
    ensures
        heard(ts, n).len() == 2 * n,
    decreases n,
{
    if n > 0 {
        lemma_heard_len(ts, n - 1);
    }
}

proof fn lemma_heard_at(ts: Seq<TurnView>, n: int, i: int)
    requires
        0 <= i < n,
    ensures
        heard(ts, n).len() == 2 * n,
        heard(ts, n)[2 * i] == text_or(ts[i].role, "?"@),
        text_or(ts[i].content, ""@).len() <= TURN_LIMIT ==> heard(ts, n)[2 * i + 1] == text_or(
            ts[i].content,
            ""@,
        ),
    decreases n,
{
    lemma_heard_len(ts, n - 1);
    if i < n - 1 {
        lemma_heard_at(ts, n - 1, i);
    }
}

/// The turns stand in what is made of them for the summarizer in their order, each with its
/// role and its content.
pub proof fn law_turns_are_written_in_order(ts: Seq<TurnView>, n: int)
    requires
        0 <= n <= ts.len(),
    ensures
        in_order(turn_lines(ts, n), heard(ts, n)),
    decreases n,
{
    if n == 0 {
        lemma_in_order_none(turn_lines(ts, 0));
    } else {
        law_turns_are_written_in_order(ts, n - 1);
        let before = turn_lines(ts, n - 1);
        let content = text_or(ts[n - 1].content, ""@);
        let role = text_or(ts[n - 1].role, "?"@);
        let a = "["@ + decimal_of((n - 1) as nat) + "] "@;
        let last = heard(ts, n).last();
        let z = if content.len() > TURN_LIMIT {
            "… [truncated, "@ + decimal_of(content.len()) + " total chars]\n"@
        } else {
            "\n"@
        };
        lemma_in_order_push(before, heard(ts, n - 1), a, role, Seq::empty());
        lemma_in_order_push(
            before + a + role + Seq::empty(),
            heard(ts, n - 1).push(role),
            ": "@,
            last,
            z,
        );
        assert(before + a + role + Seq::empty() + ": "@ + last + z =~= turn_lines(ts, n));
    }
}

/// The prompt for a summary leaves nothing out, with or without an earlier summary: it holds
/// the earlier one where there is one, behind it the turns in their order with role and
/// content, and the number of tokens that the summary may take. The content of a turn stands
/// in it whole up to the limit, and up to the limit where it is longer.
pub proof fn law_prompt_holds_every_turn(ts: Seq<TurnView>, budget: nat, previous: Option<Seq<char>>)
    ensures
        in_order(
            prompt_of(ts, budget, previous),
            (match previous {
                Some(prev) => seq![prev],
                None => Seq::empty(),
            }) + heard(ts, ts.len() as int) + seq![decimal_of(budget)],
        ),
        previous matches Some(prev) ==> occurs(prompt_of(ts, budget, previous), prev),
        occurs(prompt_of(ts, budget, previous), decimal_of(budget)),
        forall|i: int, c: Seq<char>|
            0 <= i < ts.len() && #[trigger] ts[i].content == (FieldView::Text(c)) && c.len() <= TURN_LIMIT
                ==> #[trigger] occurs(prompt_of(ts, budget, previous), c),
        forall|i: int, c: Seq<char>|
            0 <= i < ts.len() && #[trigger] ts[i].role == (FieldView::Text(c)) ==> #[trigger] occurs(
                prompt_of(ts, budget, previous),
                c,
            ),
{
    let p = prompt_of(ts, budget, previous);
    let n = ts.len() as int;
    let body = turn_lines(ts, n);
    let mid = heard(ts, n);
    let number = decimal_of(budget);
    law_turns_are_written_in_order(ts, n);
    lemma_heard_len(ts, n);
    let first = match previous {
        Some(prev) => seq![prev],
        None => Seq::<Seq<char>>::empty(),
    };
    let all = first + mid + seq![number];
    match previous {
        Some(prev) => {
            let a = SUMMARIZER_PREAMBLE@ + UPDATE_INTRO@;
            lemma_in_order_itself(prev);
            lemma_in_order_around(a, prev, UPDATE_TURNS@, seq![prev]);
            lemma_in_order_concat(a + prev + UPDATE_TURNS@, body, first, mid);
            let b = a + prev + UPDATE_TURNS@ + body;
            lemma_in_order_push(b, first + mid, UPDATE_CLOSE@ + TEMPLATE_HEAD@, number, TEMPLATE_TAIL@);
            assert((first + mid).push(number) =~= all);
            assert(b + (UPDATE_CLOSE@ + TEMPLATE_HEAD@) + number + TEMPLATE_TAIL@ =~= p);
        },
        None => {
            let a = SUMMARIZER_PREAMBLE@ + FRESH_INTRO@;
            lemma_in_order_around(a, body, Seq::empty(), mid);
            let b = a + body + Seq::empty();
            lemma_in_order_push(b, mid, FRESH_CLOSE@ + TEMPLATE_HEAD@, number, TEMPLATE_TAIL@);
            assert(mid.push(number) =~= all);
            assert(b + (FRESH_CLOSE@ + TEMPLATE_HEAD@) + number + TEMPLATE_TAIL@ =~= p);
        },
    }
    lemma_in_order_occurs(p, all, all.len() - 1);
    if previous is Some {
        lemma_in_order_occurs(p, all, 0);
    }
    assert forall|i: int, c: Seq<char>|
        0 <= i < ts.len() && #[trigger] ts[i].content == (FieldView::Text(c)) && c.len() <= TURN_LIMIT implies #[trigger] occurs(
        p,
        c,
    ) by {
        lemma_heard_at(ts, n, i);
        lemma_in_order_occurs(p, all, first.len() + 2 * i + 1);
        assert(all[first.len() + 2 * i + 1] == mid[2 * i + 1]);
    }
    assert forall|i: int, c: Seq<char>|
        0 <= i < ts.len() && #[trigger] ts[i].role == (FieldView::Text(c)) implies #[trigger] occurs(p, c) by {
        lemma_heard_at(ts, n, i);
        lemma_in_order_occurs(p, all, first.len() + 2 * i);
        assert(all[first.len() + 2 * i] == mid[2 * i]);
    }
}

/// The earlier summary is that of the last message of the system that holds the prefix: what
/// stands behind the first prefix in it, without the white space around it. There is none
/// exactly where no message of the system holds the prefix.
pub proof fn law_last_summary_counts(ts: Seq<TurnView>, n: int)
    requires
        0 <= n <= ts.len(),
    ensures
        match previous_of(ts, n) {
            None => forall|i: int, c: Seq<char>|
                0 <= i < n && #[trigger] ts[i].role == FieldView::Text("system"@) && ts[i].content == (
                FieldView::Text(c)) ==> !#[trigger] occurs(c, SUMMARY_PREFIX@),
            Some((k, body)) => {
                &&& 0 <= k < n
                &&& ts[k].role == FieldView::Text("system"@)
                &&& ({
                    let c = text_or(ts[k].content, ""@);
                    exists|at: int| #[trigger]
                        has_at(c, SUMMARY_PREFIX@, at) && body == trim_of(
                            c.skip(at + SUMMARY_PREFIX@.len()),
                        ) && forall|j: int| 0 <= j < at ==> !#[trigger] has_at(c, SUMMARY_PREFIX@, j)
                })
                &&& forall|i: int, c: Seq<char>|
                    k < i < n && #[trigger] ts[i].role == FieldView::Text("system"@) && ts[i].content == (
                    FieldView::Text(c)) ==> !#[trigger] occurs(c, SUMMARY_PREFIX@)
            },
        },
    decreases n,
{
    if n > 0 {
        let t = ts[n - 1];
        reveal_strlit("system");
        reveal_strlit("");
        if holds_summary(t) {
            let c = text_or(t.content, ""@);
            lemma_next_at(c, SUMMARY_PREFIX@, 0);
            let w = choose|i: int| has_at(c, SUMMARY_PREFIX@, i);
            assert(has_at(c, SUMMARY_PREFIX@, w));
            let at = next_at(c, SUMMARY_PREFIX@, 0);
            assert(has_at(c, SUMMARY_PREFIX@, at));
            assert("system"@.len() == 6 && ""@.len() == 0);
            assert(t.role is Text);
        } else {
            law_last_summary_counts(ts, n - 1);
        }
    }
}

/// A numeral with its commas has the same digits in the same order, and a comma exactly at
/// every fourth place from the right.
pub proof fn law_commas_group_by_three(d: Seq<char>)
    requires
        d.len() > 0,
        has_no(d, ','),
    ensures
        grouped_of(d).filter(|c: char| c != ',') == d,
        forall|i: int|
            0 <= i < grouped_of(d).len() ==> ((#[trigger] grouped_of(d)[i] == ',') <==> (
            grouped_of(d).len() - i) % 4 == 0),
    decreases d.len(),
{
    let g = grouped_of(d);
    let kept = |c: char| c != ',';
    reveal_strlit(",");
    if d.len() > 3 {
        let n = d.len() - 3;
        let front = d.take(n);
        let rest = d.skip(n);
        assert(has_no(front, ','));
        assert(has_no(rest, ',')) by {
            assert forall|i: int| 0 <= i < rest.len() implies #[trigger] rest[i] != ',' by {
                assert(rest[i] == d[n + i]);
            }
        }
        law_commas_group_by_three(front);
        let h = grouped_of(front);
        assert(g == h + ","@ + rest);
        lemma_commas_behind(h, rest);
        lemma_nothing_dropped(rest, kept);
        assert((","@).filter(kept) =~= Seq::empty()) by {
            reveal(Seq::filter);
            assert((","@).drop_last() =~= Seq::empty());
            assert((","@).drop_last().filter(kept) =~= Seq::empty());
        }
        Seq::filter_distributes_over_add(h, ","@, kept);
        Seq::filter_distributes_over_add(h + ","@, rest, kept);
        assert(front + Seq::empty() + rest =~= d);
    } else {
        lemma_nothing_dropped(d, kept);
    }
}

proof fn lemma_commas_behind(h: Seq<char>, rest: Seq<char>)
    requires
        rest.len() == 3,
        has_no(rest, ','),
        forall|i: int| 0 <= i < h.len() ==> ((#[trigger] h[i] == ',') <==> (h.len() - i) % 4 == 0),
    ensures
        ({
            let g = h + ","@ + rest;
            forall|i: int| 0 <= i < g.len() ==> ((#[trigger] g[i] == ',') <==> (g.len() - i) % 4 == 0)
        }),
{
    reveal_strlit(",");
    let g = h + ","@ + rest;
    assert forall|i: int| 0 <= i < g.len() implies ((#[trigger] g[i] == ',') <==> (g.len() - i) % 4 == 0) by {
        if i < h.len() {
            assert(g[i] == h[i]);
            assert(g.len() - i == (h.len() - i) + 4);
        } else if i > h.len() {
            assert(g[i] == rest[i - h.len() - 1]);
        }
    }
}

proof fn lemma_nothing_dropped(s: Seq<char>, kept: spec_fn(char) -> bool)
    requires
        forall|i: int| 0 <= i < s.len() ==> kept(#[trigger] s[i]),
    ensures
        s.filter(kept) == s,
    decreases s.len(),
{
    reveal(Seq::filter);
    if s.len() > 0 {
        let front = s.drop_last();
        assert forall|i: int| 0 <= i < front.len() implies kept(#[trigger] front[i]) by {
            assert(front[i] == s[i]);
        }
        lemma_nothing_dropped(front, kept);
        assert(kept(s[s.len() - 1]));
        assert(front.push(s.last()) =~= s);
    }
}

/// A tool whose results are shown by their first line.
pub open spec fn is_listing(tool: Seq<char>) -> bool {
    tool == "glob"@ || tool == "find_files"@ || tool == "list_dir"@
}

/// What stands for a tool result begins with the name of the tool in brackets, and says of
/// every tool but those that list files how many characters the result had; of those that list
/// files it holds the first line.
pub proof fn law_summary_says_what_was_there(tool: Seq<char>, s: Seq<char>)
    ensures
        begins(summary_of(tool, s), "["@ + tool + "]"@),
        !is_listing(tool) ==> occurs(summary_of(tool, s), grouped_of(decimal_of(s.len()))),
        is_listing(tool) && s.len() > 0 ==> occurs(summary_of(tool, s), lines_of(s)[0]),
        tool == "bash"@ ==> occurs(summary_of(tool, s), command_of(s)),
{
    let length = grouped_of(decimal_of(s.len()));
    let count = decimal_of(lines_of(s).len());
    let r = summary_of(tool, s);
    let opening = "["@ + tool + "]"@;
    reveal_strlit("[");
    reveal_strlit("]");
    reveal_strlit("] ");
    reveal_strlit("bash");
    reveal_strlit("read");
    reveal_strlit("write");
    reveal_strlit("edit");
    reveal_strlit("grep");
    reveal_strlit("glob");
    reveal_strlit("find_files");
    reveal_strlit("list_dir");
    reveal_strlit("task");
    reveal_strlit("task_status");
    assert("glob"@[0] == 'g' && "glob"@[1] == 'l' && "grep"@[1] == 'r' && "bash"@[0] == 'b');
    assert("read"@[0] == 'r' && "edit"@[0] == 'e' && "task"@[0] == 't');
    if tool == "bash"@ {
        reveal_strlit("[bash] ran `");
        assert(r.subrange(0, opening.len() as int) =~= opening);
        let a = "[bash] ran `"@;
        lemma_occurs_between(a, command_of(s), "` -> "@ + count + " lines, "@ + length + " chars"@);
        assert(a + command_of(s) + ("` -> "@ + count + " lines, "@ + length + " chars"@) =~= r);
        lemma_occurs_between(a + command_of(s) + "` -> "@ + count + " lines, "@, length, " chars"@);
    } else if tool == "read"@ {
        reveal_strlit("[read] ");
        assert(r.subrange(0, opening.len() as int) =~= opening);
        lemma_occurs_between("[read] "@, length, " chars, "@ + count + " lines"@);
        assert("[read] "@ + length + (" chars, "@ + count + " lines"@) =~= r);
    } else if tool == "write"@ {
        reveal_strlit("[write] wrote ");
        assert(r.subrange(0, opening.len() as int) =~= opening);
        lemma_occurs_between("[write] wrote "@, length, " chars"@);
    } else if tool == "edit"@ {
        reveal_strlit("[edit] patched ");
        assert(r.subrange(0, opening.len() as int) =~= opening);
        lemma_occurs_between("[edit] patched "@, length, " chars"@);
    } else if tool == "grep"@ {
        reveal_strlit("[grep] ");
        assert(r.subrange(0, opening.len() as int) =~= opening);
        lemma_occurs_between("[grep] "@ + count + " matches, "@, length, " chars"@);
    } else if is_listing(tool) {
        assert(r.subrange(0, opening.len() as int) =~= opening);
        if s.len() > 0 {
            lemma_find_char(s, '\n');
            let l = lines_of(s)[0];
            assert(first_line_of(s) == Some(l));
            lemma_occurs_between("["@ + tool + "] "@, l, Seq::empty());
            assert("["@ + tool + "] "@ + l + Seq::empty() =~= r);
        }
    } else if tool == "task"@ || tool == "task_status"@ {
        assert(r.subrange(0, opening.len() as int) =~= opening);
        lemma_occurs_between("["@ + tool + "] "@, length, " chars result"@);
    } else {
        assert(r.subrange(0, opening.len() as int) =~= opening);
        lemma_occurs_between(
            "["@ + tool + "] "@ + on_one_line(head(s, 80)) + (if s.len() > 80 {
                "…"@
            } else {
                ""@
            }) + " ("@,
            length,
            " chars)"@,
        );
    }
}

/// A long tool result before the last messages gives way to one line that names its tool; a
/// message that is not one keeps its content to the letter.
pub proof fn law_long_results_give_way(ts: Seq<TurnView>, protect: nat, i: int)
    requires
        0 <= i < ts.len(),
    ensures
        ({
            let t = ts[i];
            let u = all_pruned(ts, protect)[i];
            let is_result = t.role == FieldView::Text("tool"@) || t.role == FieldView::Text(
                "toolResult"@,
            );
            &&& is_result && t.content is Text && t.content->Text_0.len() > PRUNE_ABOVE && i + protect
                < ts.len() ==> {
                &&& u.content is Text
                &&& begins(u.content->Text_0, "["@ + tool_of(t) + "]"@)
                &&& has_no(tool_of(t), '\n') ==> has_no(u.content->Text_0, '\n')
            }
            &&& !(is_result && t.content is Text && t.content->Text_0.len() > PRUNE_ABOVE && i + protect
                < ts.len()) ==> u.content == t.content
            &&& u.role == t.role && u.tool_name == t.tool_name && u.tool_name_camel == t.tool_name_camel
        }),
{
    let t = ts[i];
    reveal_strlit("");
    reveal_strlit("tool");
    reveal_strlit("toolResult");
    assert(""@.len() == 0 && "tool"@.len() == 4 && "toolResult"@.len() == 10);
    law_summary_says_what_was_there(tool_of(t), text_or(t.content, ""@));
    if has_no(tool_of(t), '\n') {
        law_summary_is_one_line(tool_of(t), text_or(t.content, ""@));
    }
}

/// The tokens that a text is taken for are enough for its characters at four each, and one
/// fewer would not be.
pub proof fn law_tokens_round_up(chars: nat)
    ensures
        4 * tokens_of(chars) >= chars,
        tokens_of(chars) > 0 ==> 4 * (tokens_of(chars) - 1) < chars,
{
}

/// The characters of two conversations one behind the other are those of both.
pub proof fn law_contents_add_up(a: Seq<TurnView>, b: Seq<TurnView>)
    ensures
        content_chars(a + b) == content_chars(a) + content_chars(b),
        forall|c: Seq<char>, t: TurnView|
            t.content == (FieldView::Text(c)) ==> #[trigger] content_chars(a.push(t)) == content_chars(a)
                + #[trigger] c.len(),
    decreases b.len(),
{
    if b.len() == 0 {
        assert(a + b =~= a);
    } else {
        law_contents_add_up(a, b.drop_last());
        assert((a + b).drop_last() =~= a + b.drop_last());
        assert((a + b).last() == b.last());
    }
    assert forall|c: Seq<char>, t: TurnView|
        t.content == (FieldView::Text(c)) implies #[trigger] content_chars(a.push(t)) == content_chars(a)
        + #[trigger] c.len() by {
        assert(a.push(t).drop_last() =~= a);
    }
}

} // verus!
