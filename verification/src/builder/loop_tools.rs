//! The tools of an agent: which ones there are, in what order, and which may run beside
//! others.
use vstd::hash_set::StringHashSet;
use vstd::prelude::*;
use crate::agent_loop::tools::ToolExecutionMode;
use crate::text::{cat, same, texts};

verus! {

/// Where a tool comes from.
#[derive(Clone, Copy, Debug, PartialEq, Eq, Structural)]
pub enum ToolSource {
    BuiltIn,
    Mcp,
    Semantic,
    Plugin,
}

/// A tool of the agent; without a mode of its own it goes by the loop's.
#[derive(Debug)]
pub struct LoopTool {
    pub name: String,
    pub mode: Option<ToolExecutionMode>,
    pub source: ToolSource,
}

/// A tool of the agent.
#[verifier::ext_equal]
pub struct LoopToolView {
    pub name: Seq<char>,
    pub mode: Option<ToolExecutionMode>,
    pub source: ToolSource,
}

impl View for LoopTool {
    type V = LoopToolView;

    open spec fn view(&self) -> LoopToolView {
        LoopToolView { name: self.name@, mode: self.mode, source: self.source }
    }
}

/// Tools by their contents.
pub open spec fn tool_views(v: Seq<LoopTool>) -> Seq<LoopToolView> {
    Seq::new(v.len(), |i: int| v[i]@)
}

/// A tool that a server offers.
#[derive(Debug)]
pub struct ServerTool {
    pub server_name: String,
    pub name: String,
}

/// What a search over the tools knows of one.
#[derive(Debug)]
pub struct ToolMeta {
    pub name: String,
}

/// State of the search over the tools: the names of those whose full definitions are
/// sent, and all that can be found.
pub struct DynamicToolSearch {
    pub filter: StringHashSet,
    pub registry: Vec<ToolMeta>,
}

/// What the tools of an agent depend on.
#[derive(Debug)]
pub struct ToolOptions {
    /// The agent has no tools.
    pub no_tools: bool,
    /// The user can be asked questions.
    pub question: bool,
    /// The user can be asked to switch to planning and back.
    pub plan: bool,
    pub websearch: bool,
    pub webfetch: bool,
    /// Work can be handed to other agents: there is a model for them and a store for
    /// their results.
    pub parent_model: bool,
    pub bg_store: bool,
    pub lsp: bool,
    /// Tools that servers offer, in this order.
    pub mcp: Vec<ServerTool>,
    /// Tools that search the code by its meaning.
    pub semantic: Vec<String>,
    /// Tools that plugins offer, in this order.
    pub plugin: Vec<String>,
    /// The tools can be searched rather than all be sent.
    pub dynamic_tool_search: bool,
}

/// The names that no server and no plugin can take.
pub open spec fn builtin_names() -> Seq<Seq<char>> {
    seq![
        "read"@,
        "write"@,
        "edit"@,
        "bash"@,
        "bash_output"@,
        "kill_shell"@,
        "grep"@,
        "find_files"@,
        "glob"@,
        "list_dir"@,
        "repo_overview"@,
        "write_todo_list"@,
        "session_search"@,
        "skill"@,
        "memory"@,
        "apply_patch"@,
        "question"@,
        "plan_enter"@,
        "plan_exit"@,
        "websearch"@,
        "webfetch"@,
        "task"@,
        "task_status"@,
        "lsp"@,
        "debug"@,
        "tool_search"@,
        "mcp_tool"@,
    ]
}

/// The name is taken by a tool of the agent's own.
pub open spec fn is_builtin(name: Seq<char>) -> bool {
    builtin_names().contains(name)
}

/// The names that no server and no plugin can take.
pub fn builtin_tool_names() -> (r: Vec<&'static str>)
    ensures
        r@.len() == builtin_names().len(),
        forall|i: int| 0 <= i < r@.len() ==> (#[trigger] r@[i])@ == builtin_names()[i],
{
    vec![
        "read",
        "write",
        "edit",
        "bash",
        "bash_output",
        "kill_shell",
        "grep",
        "find_files",
        "glob",
        "list_dir",
        "repo_overview",
        "write_todo_list",
        "session_search",
        "skill",
        "memory",
        "apply_patch",
        "question",
        "plan_enter",
        "plan_exit",
        "websearch",
        "webfetch",
        "task",
        "task_status",
        "lsp",
        "debug",
        "tool_search",
        "mcp_tool",
    ]
}

/// Whether the name is taken by a tool of the agent's own.
pub fn is_builtin_name(name: &str) -> (r: bool)
    ensures
        r == is_builtin(name@),
{
    let names = builtin_tool_names();
    let mut i: usize = 0;
    while i < names.len()
        invariant
            names@.len() == builtin_names().len(),
            forall|i: int| 0 <= i < names@.len() ==> (#[trigger] names@[i])@ == builtin_names()[i],
            i <= names@.len(),
            forall|k: int| 0 <= k < i ==> builtin_names()[k] != name@,
        decreases names@.len() - i,
    {
        assert(names@[i as int]@ == builtin_names()[i as int]);
        if same(names[i], name) {
            assert(builtin_names()[i as int] == name@);
            return true;
        }
        i += 1;
    }
    false
}

/// A tool of the agent's own that may run beside others.
pub open spec fn free(name: Seq<char>) -> LoopToolView {
    LoopToolView { name, mode: None, source: ToolSource::BuiltIn }
}

/// A tool of the agent's own that changes something, so that nothing runs beside it.
pub open spec fn lone(name: Seq<char>) -> LoopToolView {
    LoopToolView {
        name,
        mode: Some(ToolExecutionMode::Sequential),
        source: ToolSource::BuiltIn,
    }
}

/// The tools that every agent with tools has.
pub open spec fn core_tools() -> Seq<LoopToolView> {
    seq![
        free("read"@),
        lone("write"@),
        lone("edit"@),
        lone("bash"@),
        free("bash_output"@),
        free("kill_shell"@),
        free("grep"@),
        free("find_files"@),
        free("glob"@),
        free("list_dir"@),
        free("repo_overview"@),
        lone("write_todo_list"@),
        free("session_search"@),
        lone("skill"@),
        lone("memory"@),
        lone("apply_patch"@),
    ]
}

/// The tools, where the condition holds.
pub open spec fn only_if(b: bool, ts: Seq<LoopToolView>) -> Seq<LoopToolView> {
    if b {
        ts
    } else {
        Seq::empty()
    }
}

/// The tools of an agent that come with it.
pub open spec fn own_tools(o: ToolOptions) -> Seq<LoopToolView> {
    core_tools() + only_if(o.question, seq![lone("question"@)]) + only_if(
        o.plan,
        seq![lone("plan_enter"@), lone("plan_exit"@)],
    ) + only_if(o.websearch, seq![free("websearch"@)]) + only_if(
        o.webfetch,
        seq![free("webfetch"@)],
    ) + only_if(
        o.parent_model && o.bg_store,
        seq![lone("task"@), free("task_status"@)],
    ) + only_if(o.lsp, seq![free("lsp"@)])
}

/// The offered tools whose names are not taken, in this order.
pub open spec fn admitted(names: Seq<Seq<char>>, source: ToolSource) -> Seq<LoopToolView>
    decreases names.len(),
{
    if names.len() == 0 {
        Seq::empty()
    } else {
        let before = admitted(names.drop_last(), source);
        if is_builtin(names.last()) {
            before
        } else {
            before.push(LoopToolView { name: names.last(), mode: None, source })
        }
    }
}

/// The names of the tools that servers offer.
pub open spec fn server_names(ts: Seq<ServerTool>) -> Seq<Seq<char>> {
    Seq::new(ts.len(), |i: int| ts[i].name@)
}

/// Tools that are taken as they are offered.
pub open spec fn all_of(names: Seq<Seq<char>>, source: ToolSource) -> Seq<LoopToolView> {
    Seq::new(names.len(), |i: int| LoopToolView { name: names[i], mode: None, source })
}

/// The tools of an agent without those of plugins.
pub open spec fn agent_tools_of(o: ToolOptions) -> Seq<LoopToolView> {
    if o.no_tools {
        Seq::empty()
    } else {
        own_tools(o) + admitted(server_names(o.mcp@), ToolSource::Mcp) + all_of(
            texts(o.semantic@),
            ToolSource::Semantic,
        )
    }
}

/// The tools of an agent that a search can find.
pub open spec fn found_tools(o: ToolOptions) -> Seq<LoopToolView> {
    if o.no_tools {
        Seq::empty()
    } else {
        agent_tools_of(o) + admitted(texts(o.plugin@), ToolSource::Plugin)
    }
}

/// The tools of an agent.
pub open spec fn loop_tools_of(o: ToolOptions) -> Seq<LoopToolView> {
    if o.no_tools {
        Seq::empty()
    } else {
        found_tools(o) + only_if(o.dynamic_tool_search, seq![free("tool_search"@)])
    }
}

fn add_tool(out: &mut Vec<LoopTool>, name: &str, mode: Option<ToolExecutionMode>, source: ToolSource)
    ensures
        tool_views(final(out)@) == tool_views(old(out)@).push(
            LoopToolView { name: name@, mode, source },
        ),
{
    let ghost before = tool_views(out@);
    out.push(LoopTool { name: name.to_owned(), mode, source });
    assert(tool_views(out@) =~= before.push(LoopToolView { name: name@, mode, source }));
}

fn add_free(out: &mut Vec<LoopTool>, name: &str)
    ensures
        tool_views(final(out)@) == tool_views(old(out)@).push(free(name@)),
{
    add_tool(out, name, None, ToolSource::BuiltIn);
}

fn add_lone(out: &mut Vec<LoopTool>, name: &str)
    ensures
        tool_views(final(out)@) == tool_views(old(out)@).push(lone(name@)),
{
    add_tool(out, name, Some(ToolExecutionMode::Sequential), ToolSource::BuiltIn);
}

fn add_core(out: &mut Vec<LoopTool>)
    requires
        old(out)@.len() == 0,
    ensures
        tool_views(final(out)@) == core_tools(),
{
    add_free(out, "read");
    add_lone(out, "write");
    add_lone(out, "edit");
    add_lone(out, "bash");
    add_free(out, "bash_output");
    add_free(out, "kill_shell");
    add_free(out, "grep");
    add_free(out, "find_files");
    add_free(out, "glob");
    add_free(out, "list_dir");
    add_free(out, "repo_overview");
    add_lone(out, "write_todo_list");
    add_free(out, "session_search");
    add_lone(out, "skill");
    add_lone(out, "memory");
    add_lone(out, "apply_patch");
    assert(tool_views(out@) =~= core_tools());
}

/// The warning about a tool of a server whose name is taken.
pub fn server_warning(server_name: &str, name: &str) -> (r: String)
    ensures
        r@ == "warning: MCP server '"@ + server_name@ + "' exports tool '"@ + name@
            + "' which collides with a dirge built-in; skipping MCP version"@,
{
    let mut out = cat("warning: MCP server '", server_name);
    out.append("' exports tool '");
    out.append(name);
    out.append("' which collides with a dirge built-in; skipping MCP version");
    out
}

/// The warning about a tool of a plugin whose name is taken.
pub fn plugin_warning(name: &str) -> (r: String)
    ensures
        r@ == "warning: plugin tool '"@ + name@
            + "' collides with a dirge built-in; skipping plugin version"@,
{
    let mut out = cat("warning: plugin tool '", name);
    out.append("' collides with a dirge built-in; skipping plugin version");
    out
}

/// The tools that servers offer whose names are not taken, in this order.
pub fn wrap_mcp_tools(mcp_tools: &Vec<ServerTool>) -> (r: Vec<LoopTool>)
    ensures
        tool_views(r@) == admitted(server_names(mcp_tools@), ToolSource::Mcp),
{
    let ghost names = server_names(mcp_tools@);
    let mut out: Vec<LoopTool> = Vec::new();
    let mut i: usize = 0;
    assert(names.take(0) =~= Seq::empty());
    assert(tool_views(out@) =~= Seq::empty());
    while i < mcp_tools.len()
        invariant
            names == server_names(mcp_tools@),
            i <= mcp_tools@.len(),
            tool_views(out@) == admitted(names.take(i as int), ToolSource::Mcp),
        decreases mcp_tools@.len() - i,
    {
        proof {
            assert(names.take(i + 1).drop_last() =~= names.take(i as int));
            assert(names.take(i + 1).last() == mcp_tools@[i as int].name@);
        }
        if !is_builtin_name(mcp_tools[i].name.as_str()) {
            add_tool(&mut out, mcp_tools[i].name.as_str(), None, ToolSource::Mcp);
        }
        i += 1;
    }
    assert(names.take(i as int) =~= names);
    out
}

fn admit_plugins(plugins: &Vec<String>) -> (r: Vec<LoopTool>)
    ensures
        tool_views(r@) == admitted(texts(plugins@), ToolSource::Plugin),
{
    let ghost names = texts(plugins@);
    let mut out: Vec<LoopTool> = Vec::new();
    let mut i: usize = 0;
    assert(names.take(0) =~= Seq::empty());
    assert(tool_views(out@) =~= Seq::empty());
    while i < plugins.len()
        invariant
            names == texts(plugins@),
            i <= plugins@.len(),
            tool_views(out@) == admitted(names.take(i as int), ToolSource::Plugin),
        decreases plugins@.len() - i,
    {
        proof {
            assert(names.take(i + 1).drop_last() =~= names.take(i as int));
            assert(names.take(i + 1).last() == plugins@[i as int]@);
        }
        if !is_builtin_name(plugins[i].as_str()) {
            add_tool(&mut out, plugins[i].as_str(), None, ToolSource::Plugin);
        }
        i += 1;
    }
    assert(names.take(i as int) =~= names);
    out
}

fn add_semantic(out: &mut Vec<LoopTool>, names: &Vec<String>)
    ensures
        tool_views(final(out)@) == tool_views(old(out)@) + all_of(
            texts(names@),
            ToolSource::Semantic,
        ),
{
    let ghost start = tool_views(out@);
    let ghost all = all_of(texts(names@), ToolSource::Semantic);
    let mut i: usize = 0;
    assert(start + all.take(0) =~= start);
    while i < names.len()
        invariant
            i <= names@.len(),
            all == all_of(texts(names@), ToolSource::Semantic),
            tool_views(out@) == start + all.take(i as int),
        decreases names@.len() - i,
    {
        let ghost before = tool_views(out@);
        add_tool(out, names[i].as_str(), None, ToolSource::Semantic);
        assert(start + all.take(i + 1) =~= before.push(all[i as int]));
        i += 1;
    }
    assert(all.take(i as int) =~= all);
}

fn add_own(out: &mut Vec<LoopTool>, o: &ToolOptions)
    requires
        old(out)@.len() == 0,
    ensures
        tool_views(final(out)@) == own_tools(*o),
{
    add_core(out);
    if o.question {
        add_lone(out, "question");
    }
    let ghost s1 = core_tools() + only_if(o.question, seq![lone("question"@)]);
    assert(tool_views(out@) =~= s1);
    if o.plan {
        add_lone(out, "plan_enter");
        add_lone(out, "plan_exit");
    }
    let ghost s2 = s1 + only_if(o.plan, seq![lone("plan_enter"@), lone("plan_exit"@)]);
    assert(tool_views(out@) =~= s2);
    if o.websearch {
        add_free(out, "websearch");
    }
    let ghost s3 = s2 + only_if(o.websearch, seq![free("websearch"@)]);
    assert(tool_views(out@) =~= s3);
    if o.webfetch {
        add_free(out, "webfetch");
    }
    let ghost s4 = s3 + only_if(o.webfetch, seq![free("webfetch"@)]);
    assert(tool_views(out@) =~= s4);
    if o.parent_model && o.bg_store {
        add_lone(out, "task");
        add_free(out, "task_status");
    }
    let ghost s5 = s4 + only_if(
        o.parent_model && o.bg_store,
        seq![lone("task"@), free("task_status"@)],
    );
    assert(tool_views(out@) =~= s5);
    if o.lsp {
        add_free(out, "lsp");
    }
    assert(tool_views(out@) =~= s5 + only_if(o.lsp, seq![free("lsp"@)]));
}

/// The tools of an agent without those of plugins.
pub fn agent_tools(o: &ToolOptions) -> (r: Vec<LoopTool>)
    ensures
        tool_views(r@) == agent_tools_of(*o),
{
    let mut out: Vec<LoopTool> = Vec::new();
    assert(tool_views(out@) =~= Seq::empty());
    if o.no_tools {
        return out;
    }
    add_own(&mut out, o);
    let mut offered = wrap_mcp_tools(&o.mcp);
    let ghost own = tool_views(out@);
    let ghost more = tool_views(offered@);
    out.append(&mut offered);
    assert(tool_views(out@) =~= own + more);
    add_semantic(&mut out, &o.semantic);
    out
}

/// The names of tools.
pub open spec fn tool_names(ts: Seq<LoopToolView>) -> Seq<Seq<char>> {
    Seq::new(ts.len(), |i: int| ts[i].name)
}

/// The names that a search knows.
pub open spec fn meta_names(ms: Seq<ToolMeta>) -> Seq<Seq<char>> {
    Seq::new(ms.len(), |i: int| ms[i].name@)
}

fn metas(tools: &Vec<LoopTool>) -> (r: Vec<ToolMeta>)
    ensures
        meta_names(r@) == tool_names(tool_views(tools@)),
{
    let ghost want = tool_names(tool_views(tools@));
    let mut out: Vec<ToolMeta> = Vec::new();
    let mut i: usize = 0;
    assert(meta_names(out@) =~= want.take(0));
    while i < tools.len()
        invariant
            i <= tools@.len(),
            want == tool_names(tool_views(tools@)),
            meta_names(out@) == want.take(i as int),
        decreases tools@.len() - i,
    {
        let ghost before = meta_names(out@);
        out.push(ToolMeta { name: tools[i].name.clone() });
        proof {
            assert(meta_names(out@) =~= before.push(want[i as int]));
            assert(want.take(i + 1) =~= want.take(i as int).push(want[i as int]));
        }
        i += 1;
    }
    assert(want.take(i as int) =~= want);
    out
}

/// The tools of an agent, and the state of the search over them where they can be
/// searched: nothing is loaded yet, and everything but the search itself can be found.
pub fn build_loop_tools(o: &ToolOptions) -> (r: (Vec<LoopTool>, Option<DynamicToolSearch>))
    ensures
        tool_views(r.0@) == loop_tools_of(*o),
        match r.1 {
            Some(s) => !o.no_tools && o.dynamic_tool_search && s.filter@ == Set::<Seq<char>>::empty()
                && meta_names(s.registry@) == tool_names(found_tools(*o)),
            None => o.no_tools || !o.dynamic_tool_search,
        },
{
    let mut out = agent_tools(o);
    if o.no_tools {
        return (out, None);
    }
    let mut plugins = admit_plugins(&o.plugin);
    let ghost first = tool_views(out@);
    let ghost more = tool_views(plugins@);
    out.append(&mut plugins);
    assert(tool_views(out@) =~= first + more);
    if !o.dynamic_tool_search {
        assert(found_tools(*o) + Seq::<LoopToolView>::empty() =~= found_tools(*o));
        return (out, None);
    }
    let registry = metas(&out);
    add_free(&mut out, "tool_search");
    assert(found_tools(*o) + seq![free("tool_search"@)] =~= found_tools(*o).push(
        free("tool_search"@),
    ));
    (out, Some(DynamicToolSearch { filter: StringHashSet::new(), registry }))
}

proof fn lemma_admitted(names: Seq<Seq<char>>, source: ToolSource)
    ensures
        forall|i: int|
            0 <= i < admitted(names, source).len() ==> !is_builtin(
                (#[trigger] admitted(names, source)[i]).name,
            ) && admitted(names, source)[i].source == source && admitted(names, source)[i].mode is None,
    decreases names.len(),
{
    if names.len() > 0 {
        lemma_admitted(names.drop_last(), source);
    }
}

/// No tool of a server or of a plugin takes the place of one of the agent's own: none has
/// a name that is taken.
pub proof fn law_no_builtin_is_replaced(o: ToolOptions, i: int)
    requires
        0 <= i < loop_tools_of(o).len(),
        loop_tools_of(o)[i].source == ToolSource::Mcp || loop_tools_of(o)[i].source
            == ToolSource::Plugin,
    ensures
        !is_builtin(loop_tools_of(o)[i].name),
{
    let own = own_tools(o);
    let mcp = admitted(server_names(o.mcp@), ToolSource::Mcp);
    let sem = all_of(texts(o.semantic@), ToolSource::Semantic);
    let plug = admitted(texts(o.plugin@), ToolSource::Plugin);
    lemma_admitted(server_names(o.mcp@), ToolSource::Mcp);
    lemma_admitted(texts(o.plugin@), ToolSource::Plugin);
    let t = loop_tools_of(o)[i];
    if i < own.len() {
        assert(t == own[i]);
        lemma_own_are_builtin(o, i);
    } else if i < own.len() + mcp.len() {
        assert(t == mcp[i - own.len()]);
    } else if i < own.len() + mcp.len() + sem.len() {
        assert(t == sem[i - own.len() - mcp.len()]);
    } else if i < own.len() + mcp.len() + sem.len() + plug.len() {
        assert(t == plug[i - own.len() - mcp.len() - sem.len()]);
    } else {
        assert(t == free("tool_search"@));
    }
}

proof fn lemma_own_are_builtin(o: ToolOptions, i: int)
    requires
        0 <= i < own_tools(o).len(),
    ensures
        own_tools(o)[i].source == ToolSource::BuiltIn,
{
}

/// The tool of the agent's own of that name changes something or asks the user.
pub open spec fn changes_things(name: Seq<char>) -> bool {
    ||| name == "write"@
    ||| name == "edit"@
    ||| name == "bash"@
    ||| name == "write_todo_list"@
    ||| name == "skill"@
    ||| name == "memory"@
    ||| name == "apply_patch"@
    ||| name == "question"@
    ||| name == "plan_enter"@
    ||| name == "plan_exit"@
    ||| name == "task"@
}

proof fn lemma_looking_changes_nothing()
    ensures
        !changes_things("read"@),
        !changes_things("bash_output"@),
        !changes_things("kill_shell"@),
        !changes_things("grep"@),
        !changes_things("find_files"@),
        !changes_things("glob"@),
        !changes_things("list_dir"@),
        !changes_things("repo_overview"@),
        !changes_things("session_search"@),
        !changes_things("websearch"@),
        !changes_things("webfetch"@),
        !changes_things("task_status"@),
        !changes_things("lsp"@),
        !changes_things("tool_search"@),
{
    reveal_strlit("write");
    reveal_strlit("edit");
    reveal_strlit("bash");
    reveal_strlit("write_todo_list");
    reveal_strlit("skill");
    reveal_strlit("memory");
    reveal_strlit("apply_patch");
    reveal_strlit("question");
    reveal_strlit("plan_enter");
    reveal_strlit("plan_exit");
    reveal_strlit("task");
    reveal_strlit("read");
    reveal_strlit("bash_output");
    reveal_strlit("kill_shell");
    reveal_strlit("grep");
    reveal_strlit("find_files");
    reveal_strlit("glob");
    reveal_strlit("list_dir");
    reveal_strlit("repo_overview");
    reveal_strlit("session_search");
    reveal_strlit("websearch");
    reveal_strlit("webfetch");
    reveal_strlit("task_status");
    reveal_strlit("lsp");
    reveal_strlit("tool_search");
    assert("write"@.len() == 5);
    assert("edit"@.len() == 4);
    assert("bash"@.len() == 4);
    assert("write_todo_list"@.len() == 15);
    assert("skill"@.len() == 5);
    assert("memory"@.len() == 6);
    assert("apply_patch"@.len() == 11);
    assert("question"@.len() == 8);
    assert("plan_enter"@.len() == 10);
    assert("plan_exit"@.len() == 9);
    assert("task"@.len() == 4);
    assert("read"@.len() == 4);
    assert("bash_output"@.len() == 11);
    assert("kill_shell"@.len() == 10);
    assert("grep"@.len() == 4);
    assert("find_files"@.len() == 10);
    assert("glob"@.len() == 4);
    assert("list_dir"@.len() == 8);
    assert("repo_overview"@.len() == 13);
    assert("session_search"@.len() == 14);
    assert("websearch"@.len() == 9);
    assert("webfetch"@.len() == 8);
    assert("task_status"@.len() == 11);
    assert("lsp"@.len() == 3);
    assert("tool_search"@.len() == 11);
    assert("edit"@[0] == 'e');
    assert("bash"@[0] == 'b');
    assert("apply_patch"@[0] == 'a');
    assert("question"@[0] == 'q');
    assert("plan_enter"@[0] == 'p');
    assert("plan_exit"@[0] == 'p');
    assert("task"@[0] == 't');
    assert("read"@[0] == 'r');
    assert("bash_output"@[0] == 'b');
    assert("kill_shell"@[0] == 'k');
    assert("grep"@[0] == 'g');
    assert("find_files"@[0] == 'f');
    assert("glob"@[0] == 'g');
    assert("list_dir"@[0] == 'l');
    assert("websearch"@[0] == 'w');
    assert("webfetch"@[0] == 'w');
    assert("task_status"@[0] == 't');
    assert("tool_search"@[0] == 't');
}

/// The tool has the mode that its name asks for.
pub open spec fn mode_fits(t: LoopToolView) -> bool {
    t.mode == (if changes_things(t.name) {
        Some(ToolExecutionMode::Sequential)
    } else {
        None
    })
}

proof fn lemma_mode_of_own(o: ToolOptions, i: int)
    requires
        0 <= i < own_tools(o).len(),
    ensures
        mode_fits(own_tools(o)[i]),
{
    lemma_looking_changes_nothing();
    let core = core_tools();
    assert forall|k: int| 0 <= k < core.len() implies #[trigger] mode_fits(core[k]) by {}
    let s1 = core + only_if(o.question, seq![lone("question"@)]);
    assert forall|k: int| 0 <= k < s1.len() implies #[trigger] mode_fits(s1[k]) by {
        if k < core.len() {
            assert(s1[k] == core[k]);
        }
    }
    let s2 = s1 + only_if(o.plan, seq![lone("plan_enter"@), lone("plan_exit"@)]);
    assert forall|k: int| 0 <= k < s2.len() implies #[trigger] mode_fits(s2[k]) by {
        if k < s1.len() {
            assert(s2[k] == s1[k]);
        }
    }
    let s3 = s2 + only_if(o.websearch, seq![free("websearch"@)]);
    assert forall|k: int| 0 <= k < s3.len() implies #[trigger] mode_fits(s3[k]) by {
        if k < s2.len() {
            assert(s3[k] == s2[k]);
        }
    }
    let s4 = s3 + only_if(o.webfetch, seq![free("webfetch"@)]);
    assert forall|k: int| 0 <= k < s4.len() implies #[trigger] mode_fits(s4[k]) by {
        if k < s3.len() {
            assert(s4[k] == s3[k]);
        }
    }
    let s5 = s4 + only_if(o.parent_model && o.bg_store, seq![lone("task"@), free("task_status"@)]);
    assert forall|k: int| 0 <= k < s5.len() implies #[trigger] mode_fits(s5[k]) by {
        if k < s4.len() {
            assert(s5[k] == s4[k]);
        }
    }
    let s6 = s5 + only_if(o.lsp, seq![free("lsp"@)]);
    assert forall|k: int| 0 <= k < s6.len() implies #[trigger] mode_fits(s6[k]) by {
        if k < s5.len() {
            assert(s6[k] == s5[k]);
        }
    }
    assert(own_tools(o) == s6);
}

/// The tools of the agent's own that change something are the ones beside which nothing
/// runs; every other tool, whoever offers it, goes by the loop's mode.
pub proof fn law_tools_that_change_things_run_alone(o: ToolOptions, i: int)
    requires
        0 <= i < loop_tools_of(o).len(),
    ensures
        loop_tools_of(o)[i].mode == (if loop_tools_of(o)[i].source == ToolSource::BuiltIn
            && changes_things(loop_tools_of(o)[i].name) {
            Some(ToolExecutionMode::Sequential)
        } else {
            None
        }),
{
    let own = own_tools(o);
    let mcp = admitted(server_names(o.mcp@), ToolSource::Mcp);
    let sem = all_of(texts(o.semantic@), ToolSource::Semantic);
    let plug = admitted(texts(o.plugin@), ToolSource::Plugin);
    lemma_admitted(server_names(o.mcp@), ToolSource::Mcp);
    lemma_admitted(texts(o.plugin@), ToolSource::Plugin);
    let t = loop_tools_of(o)[i];
    if i < own.len() {
        assert(t == own[i]);
        lemma_own_are_builtin(o, i);
        lemma_mode_of_own(o, i);
    } else if i < own.len() + mcp.len() {
        assert(t == mcp[i - own.len()]);
    } else if i < own.len() + mcp.len() + sem.len() {
        assert(t == sem[i - own.len() - mcp.len()]);
    } else if i < own.len() + mcp.len() + sem.len() + plug.len() {
        assert(t == plug[i - own.len() - mcp.len() - sem.len()]);
    } else {
        assert(t == free("tool_search"@));
        lemma_looking_changes_nothing();
    }
}

proof fn lemma_all_admitted(names: Seq<Seq<char>>, source: ToolSource, i: int)
    requires
        0 <= i < names.len(),
        !is_builtin(names[i]),
    ensures
        admitted(names, source).contains(LoopToolView { name: names[i], mode: None, source }),
    decreases names.len(),
{
    let t = LoopToolView { name: names[i], mode: None, source };
    let all = admitted(names, source);
    let before = admitted(names.drop_last(), source);
    if i == names.len() - 1 {
        assert(all[all.len() - 1] == t);
    } else {
        lemma_all_admitted(names.drop_last(), source, i);
        let k = choose|k: int| 0 <= k < before.len() && before[k] == t;
        assert(all[k] == t);
    }
}

/// An agent that has tools has all that it is offered: every tool of a server and of a plugin
/// whose name is free, every tool for the code, and those of its own that every agent has, those
/// first and in their order. An agent without tools has none.
pub proof fn law_offered_tools_are_there(o: ToolOptions)
    ensures
        o.no_tools ==> loop_tools_of(o).len() == 0,
        !o.no_tools ==> core_tools().is_prefix_of(loop_tools_of(o)),
        !o.no_tools ==> forall|i: int|
            0 <= i < o.mcp@.len() && !is_builtin((#[trigger] o.mcp@[i]).name@) ==> loop_tools_of(o).contains(
                LoopToolView { name: o.mcp@[i].name@, mode: None, source: ToolSource::Mcp },
            ),
        !o.no_tools ==> forall|i: int|
            0 <= i < o.plugin@.len() && !is_builtin((#[trigger] o.plugin@[i])@) ==> loop_tools_of(o).contains(
                LoopToolView { name: o.plugin@[i]@, mode: None, source: ToolSource::Plugin },
            ),
        !o.no_tools ==> forall|i: int|
            0 <= i < o.semantic@.len() ==> loop_tools_of(o).contains(
                LoopToolView { name: (#[trigger] o.semantic@[i])@, mode: None, source: ToolSource::Semantic },
            ),
{
    if !o.no_tools {
        let own = own_tools(o);
        let mcp = admitted(server_names(o.mcp@), ToolSource::Mcp);
        let sem = all_of(texts(o.semantic@), ToolSource::Semantic);
        let plug = admitted(texts(o.plugin@), ToolSource::Plugin);
        let last = only_if(o.dynamic_tool_search, seq![free("tool_search"@)]);
        let all = loop_tools_of(o);
        lemma_core_first(o);
        lemma_still_first(core_tools(), own, mcp);
        lemma_still_first(core_tools(), own + mcp, sem);
        lemma_still_first(core_tools(), own + mcp + sem, plug);
        lemma_still_first(core_tools(), own + mcp + sem + plug, last);
        assert forall|i: int| 0 <= i < o.mcp@.len() && !is_builtin((#[trigger] o.mcp@[i]).name@) implies all.contains(
            LoopToolView { name: o.mcp@[i].name@, mode: None, source: ToolSource::Mcp },
        ) by {
            let t = LoopToolView { name: o.mcp@[i].name@, mode: None, source: ToolSource::Mcp };
            assert(server_names(o.mcp@)[i] == o.mcp@[i].name@);
            lemma_all_admitted(server_names(o.mcp@), ToolSource::Mcp, i);
            lemma_still_there(own, mcp, t);
            lemma_still_there(own + mcp, sem, t);
            lemma_still_there(own + mcp + sem, plug, t);
            lemma_still_there(own + mcp + sem + plug, last, t);
        }
        assert forall|i: int| 0 <= i < o.plugin@.len() && !is_builtin((#[trigger] o.plugin@[i])@) implies all.contains(
            LoopToolView { name: o.plugin@[i]@, mode: None, source: ToolSource::Plugin },
        ) by {
            let t = LoopToolView { name: o.plugin@[i]@, mode: None, source: ToolSource::Plugin };
            assert(texts(o.plugin@)[i] == o.plugin@[i]@);
            lemma_all_admitted(texts(o.plugin@), ToolSource::Plugin, i);
            lemma_still_there(own + mcp + sem, plug, t);
            lemma_still_there(own + mcp + sem + plug, last, t);
        }
        assert forall|i: int| 0 <= i < o.semantic@.len() implies all.contains(
            LoopToolView { name: (#[trigger] o.semantic@[i])@, mode: None, source: ToolSource::Semantic },
        ) by {
            let t = LoopToolView { name: o.semantic@[i]@, mode: None, source: ToolSource::Semantic };
            assert(sem[i] == t);
            lemma_still_there(own + mcp, sem, t);
            lemma_still_there(own + mcp + sem, plug, t);
            lemma_still_there(own + mcp + sem + plug, last, t);
        }
    }
}

proof fn lemma_still_there(a: Seq<LoopToolView>, b: Seq<LoopToolView>, t: LoopToolView)
    requires
        a.contains(t) || b.contains(t),
    ensures
        (a + b).contains(t),
{
    if a.contains(t) {
        let k = choose|k: int| 0 <= k < a.len() && a[k] == t;
        assert((a + b)[k] == t);
    } else {
        let k = choose|k: int| 0 <= k < b.len() && b[k] == t;
        assert((a + b)[a.len() + k] == t);
    }
}

proof fn lemma_still_first(p: Seq<LoopToolView>, a: Seq<LoopToolView>, b: Seq<LoopToolView>)
    requires
        p.is_prefix_of(a),
    ensures
        p.is_prefix_of(a + b),
{
    assert(p =~= a.subrange(0, p.len() as int));
    assert((a + b).subrange(0, p.len() as int) =~= a.subrange(0, p.len() as int));
}

proof fn lemma_core_first(o: ToolOptions)
    ensures
        core_tools().is_prefix_of(own_tools(o)),
{
    let c = core_tools();
    let q = only_if(o.question, seq![lone("question"@)]);
    let p = only_if(o.plan, seq![lone("plan_enter"@), lone("plan_exit"@)]);
    let s = only_if(o.websearch, seq![free("websearch"@)]);
    let f = only_if(o.webfetch, seq![free("webfetch"@)]);
    let t = only_if(o.parent_model && o.bg_store, seq![lone("task"@), free("task_status"@)]);
    let l = only_if(o.lsp, seq![free("lsp"@)]);
    assert(c =~= c.subrange(0, c.len() as int));
    lemma_still_first(c, c, q);
    lemma_still_first(c, c + q, p);
    lemma_still_first(c, c + q + p, s);
    lemma_still_first(c, c + q + p + s, f);
    lemma_still_first(c, c + q + p + s + f, t);
    lemma_still_first(c, c + q + p + s + f + t, l);
}

} // verus!
