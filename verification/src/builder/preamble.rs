//! The instructions of an agent, put together from fixed texts, the project and the
//! surroundings.
use vstd::prelude::*;
use crate::platform::{lossy, lossy_of, lowercase, lowercase_of};
use crate::prompt::{
    DEEPSEEK_GUIDANCE, MEMORY_GUIDANCE, PROJECT_SKILLS_PREAMBLE, SESSION_SEARCH_GUIDANCE,
    SKILLS_GUIDANCE, SYSTEM_PROMPT, TODO_TOOLS_PROMPT,
};
use crate::text::{
    cat, contains, in_order, lemma_in_order_concat, lemma_in_order_more, lemma_in_order_next,
    lemma_in_order_none, lemma_in_order_push, occurs, same, texts, trim, trim_of,
};

verus! {

/// Family of a model, as far as the instructions depend on it.
#[derive(Clone, Copy, Debug, PartialEq, Eq, Structural)]
pub enum ModelFamily {
    DeepSeekChat,
    DeepSeekReasoner,
    Other,
}

/// The family of a model whose provider and name read so in lower case.
pub open spec fn family_of(provider: Seq<char>, model: Seq<char>) -> ModelFamily {
    if !occurs(provider, "deepseek"@) && !occurs(model, "deepseek"@) {
        ModelFamily::Other
    } else if occurs(model, "reasoner"@) || occurs(model, "-r1"@) {
        ModelFamily::DeepSeekReasoner
    } else {
        ModelFamily::DeepSeekChat
    }
}

/// The family of a model whose provider and name read so in lower case.
pub fn family_of_lowered(provider: &str, model: &str) -> (r: ModelFamily)
    ensures
        r == family_of(provider@, model@),
{
    if !contains(provider, "deepseek") && !contains(model, "deepseek") {
        ModelFamily::Other
    } else if contains(model, "reasoner") || contains(model, "-r1") {
        ModelFamily::DeepSeekReasoner
    } else {
        ModelFamily::DeepSeekChat
    }
}

/// The family of a model.
pub fn resolve_family(provider: &str, model: &str) -> (r: ModelFamily)
    ensures
        r == family_of(lowercase_of(provider@), lowercase_of(model@)),
{
    let p = lowercase(provider);
    let m = lowercase(model);
    family_of_lowered(p.as_str(), m.as_str())
}

/// Guidance for models of the family, if any.
pub fn model_steering_fragment(family: ModelFamily) -> (r: Option<&'static str>)
    ensures
        match r {
            Some(f) => family == ModelFamily::DeepSeekChat && f@ == DEEPSEEK_GUIDANCE@,
            None => family != ModelFamily::DeepSeekChat,
        },
{
    match family {
        ModelFamily::DeepSeekChat => Some(DEEPSEEK_GUIDANCE),
        _ => None,
    }
}

/// Adds what the memory has for the model, where it has something.
pub fn append_memory_to_preamble(preamble: &mut String, block: &str)
    ensures
        final(preamble)@ == old(preamble)@ + block@,
{
    if !block.is_empty() {
        preamble.append(block);
    } else {
        assert(preamble@ + block@ =~= preamble@);
    }
}

/// What every agent is instructed with.
pub open spec fn base_preamble() -> Seq<char> {
    SYSTEM_PROMPT@ + "\n"@ + TODO_TOOLS_PROMPT@ + SKILLS_GUIDANCE@ + MEMORY_GUIDANCE@
        + SESSION_SEARCH_GUIDANCE@
}

/// What every agent is instructed with.
pub fn assemble_base_preamble() -> (r: String)
    ensures
        r@ == base_preamble(),
{
    let mut p = SYSTEM_PROMPT.to_owned();
    p.append("\n");
    p.append(TODO_TOOLS_PROMPT);
    p.append(SKILLS_GUIDANCE);
    p.append(MEMORY_GUIDANCE);
    p.append(SESSION_SEARCH_GUIDANCE);
    p
}

/// The reminder of the mode that the prompt of that name stands for.
pub open spec fn reminder_of(prompt_name: Seq<char>, plan_exists: bool) -> Seq<char> {
    if prompt_name == "plan"@ {
        "\n\n---\n\nYou are now in PLAN mode. Create a detailed implementation plan. Save it to PLAN.md in the current directory. Analyze the task, break it into concrete steps, consider edge cases and trade-offs. Do NOT write any code or run any commands until the user reviews and approves the plan."@
    } else if prompt_name == "review"@ || prompt_name == "review-security"@ {
        "\n\n---\n\nYou are now in REVIEW mode. Review the code or plan carefully. Identify bugs, security issues, performance problems, and design flaws. Be thorough and specific. Provide actionable feedback."@
    } else if prompt_name == "code"@ && plan_exists {
        "\n\n---\n\nA plan file exists at PLAN.md. Execute the plan step by step. Write and test code following the plan. Report progress after each step. The plan is your guide — follow it closely."@
    } else {
        ""@
    }
}

/// Adds the reminder of the mode that the prompt of that name stands for; other prompts
/// have none.
pub fn append_mode_reminder(preamble: &mut String, prompt_name: &str, plan_exists: bool)
    ensures
        final(preamble)@ == old(preamble)@ + reminder_of(prompt_name@, plan_exists),
{
    if same(prompt_name, "plan") {
        preamble.append("\n\n---\n\nYou are now in PLAN mode. Create a detailed implementation plan. Save it to PLAN.md in the current directory. Analyze the task, break it into concrete steps, consider edge cases and trade-offs. Do NOT write any code or run any commands until the user reviews and approves the plan.");
    } else if same(prompt_name, "review") || same(prompt_name, "review-security") {
        preamble.append("\n\n---\n\nYou are now in REVIEW mode. Review the code or plan carefully. Identify bugs, security issues, performance problems, and design flaws. Be thorough and specific. Provide actionable feedback.");
    } else if same(prompt_name, "code") && plan_exists {
        preamble.append("\n\n---\n\nA plan file exists at PLAN.md. Execute the plan step by step. Write and test code following the plan. Report progress after each step. The plan is your guide — follow it closely.");
    } else {
        preamble.append("");
    }
}

/// The branch that git names.
pub open spec fn branch_of(success: bool, stdout: Seq<char>) -> Option<Seq<char>> {
    if success && trim_of(stdout).len() > 0 {
        Some(trim_of(stdout))
    } else {
        None
    }
}

/// The branch that git names in this output.
pub fn git_branch_text(success: bool, stdout: &str) -> (r: Option<String>)
    ensures
        match r {
            Some(b) => branch_of(success, stdout@) == Some(b@),
            None => branch_of(success, stdout@) is None,
        },
{
    if !success {
        return None;
    }
    let b = trim(stdout);
    if b.as_str().is_empty() {
        None
    } else {
        Some(b)
    }
}

/// The branch that git names in these bytes of output.
pub fn git_branch(success: bool, stdout: &Vec<u8>) -> (r: Option<String>)
    ensures
        match r {
            Some(b) => branch_of(success, lossy_of(stdout@)) == Some(b@),
            None => branch_of(success, lossy_of(stdout@)) is None,
        },
{
    let text = lossy(stdout);
    git_branch_text(success, text.as_str())
}

/// A skill of the project. A skill whose file cannot be read or understood has no
/// description.
#[derive(Debug)]
pub struct ListedSkill {
    pub name: String,
    pub description: Option<String>,
}

/// The lines on the skills that can be described.
pub open spec fn skill_lines(ss: Seq<ListedSkill>) -> Seq<char>
    decreases ss.len(),
{
    if ss.len() == 0 {
        Seq::empty()
    } else {
        let before = skill_lines(ss.drop_last());
        match ss.last().description {
            Some(d) => before + "  - **"@ + ss.last().name@ + "**: "@ + (if d@.len() == 0 {
                "(no description)"@
            } else {
                d@
            }) + "\n"@,
            None => before,
        }
    }
}

/// A skill can be described.
pub open spec fn any_described(ss: Seq<ListedSkill>) -> bool {
    exists|i: int| 0 <= i < ss.len() && (#[trigger] ss[i]).description is Some
}

/// The passage on the skills, where there are any to describe.
pub open spec fn skills_block(ss: Seq<ListedSkill>) -> Seq<char> {
    if any_described(ss) {
        PROJECT_SKILLS_PREAMBLE@ + skill_lines(ss)
    } else {
        ""@
    }
}

/// Adds the passage on the skills; says whether they were listed, so that each counts as
/// seen.
pub fn append_skills(preamble: &mut String, skills: &Vec<ListedSkill>) -> (listed: bool)
    ensures
        listed == any_described(skills@),
        final(preamble)@ == old(preamble)@ + skills_block(skills@),
{
    let mut rows = String::new();
    let mut any: bool = false;
    let mut i: usize = 0;
    assert(rows@ =~= Seq::empty());
    assert(skills@.take(0) =~= Seq::empty());
    while i < skills.len()
        invariant
            i <= skills@.len(),
            rows@ == skill_lines(skills@.take(i as int)),
            any == any_described(skills@.take(i as int)),
        decreases skills@.len() - i,
    {
        let ghost before = skills@.take(i as int);
        let ghost now = skills@.take(i + 1);
        proof {
            assert(now.drop_last() =~= before);
            assert(now.last() == skills@[i as int]);
            if any_described(before) {
                let k = choose|k: int| 0 <= k < before.len() && (#[trigger] before[k]).description is Some;
                assert(now[k] == before[k]);
            }
            if any_described(now) && !any_described(before) {
                let k = choose|k: int| 0 <= k < now.len() && (#[trigger] now[k]).description is Some;
                if k < before.len() {
                    assert(before[k] == now[k]);
                }
            }
        }
        match &skills[i].description {
            Some(d) => {
                rows.append("  - **");
                rows.append(skills[i].name.as_str());
                rows.append("**: ");
                rows.append(
                    if d.as_str().is_empty() {
                        "(no description)"
                    } else {
                        d.as_str()
                    },
                );
                rows.append("\n");
                any = true;
                assert(now[i as int].description is Some);
            },
            None => {},
        }
        i += 1;
    }
    assert(skills@.take(i as int) =~= skills@);
    let mut block = "".to_owned();
    if any {
        block = cat(PROJECT_SKILLS_PREAMBLE, rows.as_str());
    }
    preamble.append(block.as_str());
    any
}

/// What the instructions of an agent depend on.
#[derive(Debug)]
pub struct Surroundings {
    /// The project's own instructions.
    pub agents: Option<String>,
    /// The prompt that the user chose.
    pub current_prompt: Option<String>,
    pub current_prompt_name: Option<String>,
    pub cwd: Option<String>,
    pub os: String,
    pub shell: Option<String>,
    pub git_branch: Option<String>,
    /// What the memory has for the model; `None` where it cannot be loaded.
    pub memory: Option<String>,
    pub skills: Vec<ListedSkill>,
    pub plan_exists: bool,
    pub family: ModelFamily,
}

/// A text behind its heading, where there is one.
pub open spec fn headed(heading: Seq<char>, t: Option<String>) -> Seq<char> {
    match t {
        Some(s) => heading + s@,
        None => ""@,
    }
}

/// The instructions of an agent.
pub open spec fn preamble_of(s: Surroundings) -> Seq<char> {
    base_preamble() + headed("\n\n"@, s.agents) + headed("\n\n---\n\n"@, s.current_prompt) + headed(
        "\n\nCurrent working directory: "@,
        s.cwd,
    ) + ("\nOS: "@ + s.os@) + headed("\nShell: "@, s.shell) + headed(
        "\nGit branch: "@,
        s.git_branch,
    ) + headed(""@, s.memory) + skills_block(s.skills@) + (match s.current_prompt_name {
        Some(n) => reminder_of(n@, s.plan_exists),
        None => ""@,
    }) + (if s.family == ModelFamily::DeepSeekChat {
        "\n\n---\n\n"@ + DEEPSEEK_GUIDANCE@
    } else {
        ""@
    })
}

fn add_headed(out: &mut String, heading: &str, t: &Option<String>)
    ensures
        final(out)@ == old(out)@ + headed(heading@, *t),
{
    let block = match t {
        Some(s) => cat(heading, s.as_str()),
        None => "".to_owned(),
    };
    out.append(block.as_str());
}

/// The instructions of an agent, and whether its skills were listed in them.
pub fn assemble_preamble(s: &Surroundings) -> (r: (String, bool))
    ensures
        r.0@ == preamble_of(*s),
        r.1 == any_described(s.skills@),
{
    let mut out = assemble_base_preamble();
    add_headed(&mut out, "\n\n", &s.agents);
    add_headed(&mut out, "\n\n---\n\n", &s.current_prompt);
    add_headed(&mut out, "\n\nCurrent working directory: ", &s.cwd);
    let os = cat("\nOS: ", s.os.as_str());
    out.append(os.as_str());
    add_headed(&mut out, "\nShell: ", &s.shell);
    add_headed(&mut out, "\nGit branch: ", &s.git_branch);
    let memory = match &s.memory {
        Some(m) => cat("", m.as_str()),
        None => "".to_owned(),
    };
    append_memory_to_preamble(&mut out, memory.as_str());
    let listed: bool = append_skills(&mut out, &s.skills);
    match &s.current_prompt_name {
        Some(n) => append_mode_reminder(&mut out, n.as_str(), s.plan_exists),
        None => out.append(""),
    }
    let mut steering = "".to_owned();
    match model_steering_fragment(s.family) {
        Some(f) => {
            steering = cat("\n\n---\n\n", f);
        },
        None => {},
    }
    out.append(steering.as_str());
    (out, listed)
}

/// Whatever the surroundings, the instructions begin with what every agent is instructed
/// with, and guidance for the model stands last.
pub proof fn law_preamble_frames_the_surroundings(s: Surroundings)
    ensures
        base_preamble().is_prefix_of(preamble_of(s)),
        s.family == ModelFamily::DeepSeekChat ==> exists|before: Seq<char>|
            preamble_of(s) == #[trigger] (before + ("\n\n---\n\n"@ + DEEPSEEK_GUIDANCE@)),
{
    let base = base_preamble();
    let tail = preamble_of(s);
    assert(tail.take(base.len() as int) =~= base);
    if s.family == ModelFamily::DeepSeekChat {
        let before = base + headed("\n\n"@, s.agents) + headed("\n\n---\n\n"@, s.current_prompt)
            + headed("\n\nCurrent working directory: "@, s.cwd) + ("\nOS: "@ + s.os@) + headed(
            "\nShell: "@,
            s.shell,
        ) + headed("\nGit branch: "@, s.git_branch) + headed(""@, s.memory) + skills_block(s.skills@)
            + (match s.current_prompt_name {
            Some(n) => reminder_of(n@, s.plan_exists),
            None => ""@,
        });
        assert(tail == before + ("\n\n---\n\n"@ + DEEPSEEK_GUIDANCE@));
    }
}

/// What the model is to be told of skills: name and description of each that has one.
pub open spec fn described(ss: Seq<ListedSkill>) -> Seq<Seq<char>>
    decreases ss.len(),
{
    if ss.len() == 0 {
        Seq::empty()
    } else {
        match ss.last().description {
            Some(d) => described(ss.drop_last()).push(ss.last().name@).push(d@),
            None => described(ss.drop_last()),
        }
    }
}

/// Every skill that can be described is listed with its name and its description, in their
/// order.
pub proof fn law_skills_are_listed(ss: Seq<ListedSkill>)
    ensures
        in_order(skill_lines(ss), described(ss)),
        in_order(skills_block(ss), described(ss)),
    decreases ss.len(),
{
    if ss.len() == 0 {
        lemma_in_order_none(skill_lines(ss));
        lemma_in_order_none(skills_block(ss));
    } else {
        let front = ss.drop_last();
        let before = skill_lines(front);
        law_skills_are_listed(front);
        match ss.last().description {
            Some(d) => {
                let name = ss.last().name@;
                let ps = described(front);
                lemma_in_order_more(before, ps, "  - **"@);
                lemma_in_order_next(before + "  - **"@, ps, name);
                let b = before + "  - **"@ + name;
                lemma_in_order_more(b, ps.push(name), "**: "@);
                let c = b + "**: "@;
                if d@.len() == 0 {
                    lemma_in_order_next(c, ps.push(name), d@);
                    lemma_in_order_more(c + d@, ps.push(name).push(d@), "(no description)"@);
                    assert(c + d@ + "(no description)"@ =~= c + "(no description)"@);
                    lemma_in_order_more(c + "(no description)"@, ps.push(name).push(d@), "\n"@);
                } else {
                    lemma_in_order_next(c, ps.push(name), d@);
                    lemma_in_order_more(c + d@, ps.push(name).push(d@), "\n"@);
                }
            },
            None => {},
        }
        let none = Seq::<Seq<char>>::empty();
        if any_described(ss) {
            lemma_in_order_none(PROJECT_SKILLS_PREAMBLE@);
            lemma_in_order_concat(PROJECT_SKILLS_PREAMBLE@, skill_lines(ss), none, described(ss));
            assert(none + described(ss) =~= described(ss));
        } else {
            lemma_none_described(ss);
            lemma_in_order_none(skills_block(ss));
        }
    }
}

proof fn lemma_none_described(ss: Seq<ListedSkill>)
    requires
        !any_described(ss),
    ensures
        described(ss) == Seq::<Seq<char>>::empty(),
    decreases ss.len(),
{
    if ss.len() > 0 {
        let front = ss.drop_last();
        assert(!any_described(front)) by {
            if any_described(front) {
                let i = choose|i: int| 0 <= i < front.len() && (#[trigger] front[i]).description is Some;
                assert(ss[i] == front[i]);
            }
        }
        lemma_none_described(front);
        assert(ss[ss.len() - 1].description is None);
    }
}

/// The text, where there is one, as a list.
pub open spec fn listed(t: Option<String>) -> Seq<Seq<char>> {
    match t {
        Some(s) => seq![s@],
        None => Seq::empty(),
    }
}

proof fn lemma_add_headed(s: Seq<char>, ps: Seq<Seq<char>>, heading: Seq<char>, t: Option<String>)
    requires
        in_order(s, ps),
    ensures
        in_order(s + headed(heading, t), ps + listed(t)),
{
    match t {
        Some(x) => {
            lemma_in_order_push(s, ps, heading, x@, Seq::empty());
            assert(s + heading + x@ + Seq::empty() =~= s + headed(heading, t));
            assert(ps.push(x@) =~= ps + listed(t));
        },
        None => {
            lemma_in_order_more(s, ps, ""@);
            assert(ps + listed(t) =~= ps);
        },
    }
}

/// The instructions of an agent hold everything that the surroundings give: the project's own
/// instructions, the chosen prompt, the directory, the system, the shell, the branch, the memory
/// and each skill that can be described, in this order and to the letter.
pub proof fn law_preamble_holds_the_surroundings(s: Surroundings)
    ensures
        in_order(
            preamble_of(s),
            listed(s.agents) + listed(s.current_prompt) + listed(s.cwd) + seq![s.os@] + listed(s.shell)
                + listed(s.git_branch) + listed(s.memory) + described(s.skills@),
        ),
{
    let none = Seq::<Seq<char>>::empty();
    let a = base_preamble();
    lemma_in_order_none(a);
    lemma_add_headed(a, none, "\n\n"@, s.agents);
    let b = a + headed("\n\n"@, s.agents);
    let pb = listed(s.agents);
    assert(none + pb =~= pb);
    lemma_add_headed(b, pb, "\n\n---\n\n"@, s.current_prompt);
    let c = b + headed("\n\n---\n\n"@, s.current_prompt);
    let pc = pb + listed(s.current_prompt);
    lemma_add_headed(c, pc, "\n\nCurrent working directory: "@, s.cwd);
    let d = c + headed("\n\nCurrent working directory: "@, s.cwd);
    let pd = pc + listed(s.cwd);
    lemma_in_order_none("\nOS: "@);
    lemma_in_order_next("\nOS: "@, none, s.os@);
    assert(none.push(s.os@) =~= seq![s.os@]);
    lemma_in_order_concat(d, "\nOS: "@ + s.os@, pd, seq![s.os@]);
    let e = d + ("\nOS: "@ + s.os@);
    let pe = pd + seq![s.os@];
    lemma_add_headed(e, pe, "\nShell: "@, s.shell);
    let f = e + headed("\nShell: "@, s.shell);
    let pf = pe + listed(s.shell);
    lemma_add_headed(f, pf, "\nGit branch: "@, s.git_branch);
    let g = f + headed("\nGit branch: "@, s.git_branch);
    let pg = pf + listed(s.git_branch);
    lemma_add_headed(g, pg, ""@, s.memory);
    let h = g + headed(""@, s.memory);
    let ph = pg + listed(s.memory);
    law_skills_are_listed(s.skills@);
    lemma_in_order_concat(h, skills_block(s.skills@), ph, described(s.skills@));
    let i = h + skills_block(s.skills@);
    let pi = ph + described(s.skills@);
    let reminder = match s.current_prompt_name {
        Some(n) => reminder_of(n@, s.plan_exists),
        None => ""@,
    };
    lemma_in_order_more(i, pi, reminder);
    lemma_in_order_more(
        i + reminder,
        pi,
        if s.family == ModelFamily::DeepSeekChat {
            "\n\n---\n\n"@ + DEEPSEEK_GUIDANCE@
        } else {
            ""@
        },
    );
}

} // verus!
