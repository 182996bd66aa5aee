//! The `bash` tool.
use vstd::prelude::*;
use crate::platform::{lossy, lossy_of};
use crate::splice::{pieces, pieces_of};
use crate::text::{
    cat, contains, in_order, lemma_in_order_itself, lemma_in_order_more, lemma_in_order_next, occurs, signed,
    signed_of, split, split_of, texts, trim, trim_of,
};
use crate::tools::cache::ToolCache;
use crate::tools::{AskSender, PermCheck};

pub mod check;
pub mod exec;
pub mod paths;
pub mod words;

verus! {

/// Seconds that a command may run where the call sets no limit.
pub const DEFAULT_TIMEOUT_SECS: u64 = 120;

/// Names the sandbox that commands run in.
#[derive(Clone, Copy, Debug, PartialEq, Eq, Structural)]
pub struct Sandbox {
    pub id: u64,
}

/// Arguments of the `bash` tool.
#[derive(Debug)]
pub struct BashArgs {
    pub command: String,
    pub timeout: Option<u64>,
}

/// The `bash` tool.
pub struct BashTool {
    pub permission: Option<PermCheck>,
    pub ask_tx: Option<AskSender>,
    pub sandbox: Sandbox,
    pub cache: Option<ToolCache>,
}

/// The seconds that a command may run.
pub open spec fn timeout_of(timeout: Option<u64>) -> u64 {
    match timeout {
        Some(secs) => secs,
        None => DEFAULT_TIMEOUT_SECS,
    }
}

/// The answer to a command with the given output and exit code; without a code the
/// command ended otherwise than by itself.
pub open spec fn answer_of(stdout: Seq<char>, stderr: Seq<char>, code: Option<i32>) -> Seq<char> {
    let exit = match code {
        Some(c) => c as int,
        None => -1,
    };
    stdout + (if stderr.len() == 0 {
        ""@
    } else if stdout.len() == 0 {
        stderr
    } else {
        "\n"@ + stderr
    }) + (if exit == 0 {
        ""@
    } else {
        "\nExit code: "@ + signed_of(exit)
    })
}

impl BashTool {
    /// The tool without a cache.
    pub fn new(permission: Option<PermCheck>, ask_tx: Option<AskSender>, sandbox: Sandbox) -> (r: Self)
        ensures
            r.permission == permission,
            r.ask_tx == ask_tx,
            r.sandbox == sandbox,
            r.cache is None,
    {
        BashTool { permission, ask_tx, sandbox, cache: None }
    }

    /// The tool with a cache that its commands clear.
    pub fn with_cache(
        permission: Option<PermCheck>,
        ask_tx: Option<AskSender>,
        sandbox: Sandbox,
        cache: ToolCache,
    ) -> (r: Self)
        ensures
            r.permission == permission,
            r.ask_tx == ask_tx,
            r.sandbox == sandbox,
            r.cache == Some(cache),
    {
        BashTool { permission, ask_tx, sandbox, cache: Some(cache) }
    }

    /// The seconds that the command may run; zero is refused.
    pub fn time_limit(&self, args: &BashArgs) -> (r: Result<u64, String>)
        ensures
            match r {
                Ok(secs) => secs == timeout_of(args.timeout) && secs > 0,
                Err(e) => timeout_of(args.timeout) == 0 && e@ == "timeout must be > 0"@,
            },
    {
        let secs: u64 = match args.timeout {
            Some(secs) => secs,
            None => DEFAULT_TIMEOUT_SECS,
        };
        if secs == 0 {
            return Err("timeout must be > 0".to_owned());
        }
        Ok(secs)
    }

    /// The answer to a command that ran. It may have changed files, so the remembered
    /// results are forgotten.
    pub fn finish(&mut self, stdout: &Vec<u8>, stderr: &Vec<u8>, code: Option<i32>) -> (r: String)
        ensures
            r@ == answer_of(lossy_of(stdout@), lossy_of(stderr@), code),
            final(self).permission == old(self).permission,
            final(self).ask_tx == old(self).ask_tx,
            final(self).sandbox == old(self).sandbox,
            final(self).cache is Some <==> old(self).cache is Some,
            old(self).cache is Some ==> final(self).cache->0.results() == Map::<
                Seq<char>,
                Seq<char>,
            >::empty() && final(self).cache->0.read_set() == old(self).cache->0.read_set(),
    {
        let out = lossy(stdout);
        let err = lossy(stderr);
        let r = bash_answer(out.as_str(), err.as_str(), code);
        match &mut self.cache {
            Some(cache) => {
                cache.clear();
            },
            None => {},
        }
        r
    }
}

/// The answer to a command with the given output and exit code.
pub fn bash_answer(stdout: &str, stderr: &str, code: Option<i32>) -> (r: String)
    ensures
        r@ == answer_of(stdout@, stderr@, code),
{
    let exit: i32 = match code {
        Some(c) => c,
        None => -1,
    };
    let mut out = stdout.to_owned();
    let mut middle = "".to_owned();
    if !stderr.is_empty() {
        if stdout.is_empty() {
            middle = stderr.to_owned();
        } else {
            middle = cat("\n", stderr);
        }
    }
    out.append(middle.as_str());
    let mut tail = "".to_owned();
    if exit != 0 {
        let n = signed(exit as i64);
        tail = cat("\nExit code: ", n.as_str());
    }
    out.append(tail.as_str());
    out
}

/// The parts of each of the texts between `sep`.
pub open spec fn cut_all(ts: Seq<Seq<char>>, sep: Seq<char>) -> Seq<Seq<char>>
    decreases ts.len(),
{
    if ts.len() == 0 {
        Seq::empty()
    } else {
        cut_all(ts.drop_last(), sep) + pieces_of(ts.last(), sep)
    }
}

/// The texts without the white space around them, those without anything else left out.
pub open spec fn trimmed_nonempty(ts: Seq<Seq<char>>) -> Seq<Seq<char>>
    decreases ts.len(),
{
    if ts.len() == 0 {
        Seq::empty()
    } else {
        let t = trim_of(ts.last());
        if t.len() == 0 {
            trimmed_nonempty(ts.drop_last())
        } else {
            trimmed_nonempty(ts.drop_last()).push(t)
        }
    }
}

/// The line substitutes the output of a command.
pub open spec fn substitutes(s: Seq<char>) -> bool {
    occurs(s, "$("@) || occurs(s, "`"@) || occurs(s, "<("@) || occurs(s, ">("@)
}

/// What permission is asked for before a line runs, where no parser is at hand: the
/// parts of the line between `;`, `&&` and `||`, or the whole line where it
/// substitutes the output of a command.
pub open spec fn coarse_checks_of(s: Seq<char>) -> Seq<Seq<char>> {
    if substitutes(s) {
        seq![s]
    } else {
        trimmed_nonempty(cut_all(cut_all(split_of(s, ';'), "&&"@), "||"@))
    }
}

fn cut_each(ts: &Vec<String>, sep: &str) -> (r: Vec<String>)
    requires
        sep@.len() > 0,
    ensures
        texts(r@) == cut_all(texts(ts@), sep@),
{
    let mut out: Vec<String> = Vec::new();
    let mut i: usize = 0;
    let ghost all = texts(ts@);
    assert(all.take(0) =~= Seq::empty());
    assert(texts(out@) =~= Seq::empty());
    while i < ts.len()
        invariant
            sep@.len() > 0,
            all == texts(ts@),
            i <= ts@.len(),
            texts(out@) == cut_all(all.take(i as int), sep@),
        decreases ts@.len() - i,
    {
        let ghost before = texts(out@);
        let mut more = pieces(ts[i].as_str(), sep);
        let ghost added = texts(more@);
        out.append(&mut more);
        proof {
            assert(texts(out@) =~= before + added);
            assert(all.take(i + 1).drop_last() =~= all.take(i as int));
            assert(all.take(i + 1).last() == ts@[i as int]@);
        }
        i += 1;
    }
    assert(all.take(i as int) =~= all);
    out
}

fn trim_each(ts: &Vec<String>) -> (r: Vec<String>)
    ensures
        texts(r@) == trimmed_nonempty(texts(ts@)),
{
    let mut out: Vec<String> = Vec::new();
    let mut i: usize = 0;
    let ghost all = texts(ts@);
    assert(all.take(0) =~= Seq::empty());
    assert(texts(out@) =~= Seq::empty());
    while i < ts.len()
        invariant
            all == texts(ts@),
            i <= ts@.len(),
            texts(out@) == trimmed_nonempty(all.take(i as int)),
        decreases ts@.len() - i,
    {
        let ghost before = texts(out@);
        let t = trim(ts[i].as_str());
        proof {
            assert(all.take(i + 1).drop_last() =~= all.take(i as int));
            assert(all.take(i + 1).last() == ts@[i as int]@);
        }
        if !t.as_str().is_empty() {
            out.push(t);
            assert(texts(out@) =~= before.push(t@));
        }
        i += 1;
    }
    assert(all.take(i as int) =~= all);
    out
}

/// What permission is asked for before a line runs, in this order, where no parser is
/// at hand.
pub fn coarse_bash_checks(command: &str) -> (r: Vec<String>)
    ensures
        texts(r@) == coarse_checks_of(command@),
{
    if contains(command, "$(") || contains(command, "`") || contains(command, "<(") || contains(
        command,
        ">(",
    ) {
        let mut one: Vec<String> = Vec::new();
        one.push(command.to_owned());
        assert(texts(one@) =~= seq![command@]);
        return one;
    }
    proof {
        reveal_strlit("&&");
        reveal_strlit("||");
    }
    let a = split(command, ';');
    let b = cut_each(&a, "&&");
    let c = cut_each(&b, "||");
    trim_each(&c)
}

/// What permission is asked for where a parser is at hand: each command that it found,
/// or the whole line where the line is too involved to be split or cannot be parsed.
pub open spec fn parsed_checks_of(s: Seq<char>, parsed: Option<(Seq<Seq<char>>, bool)>) -> Seq<Seq<char>> {
    match parsed {
        Some((segments, complex)) => if complex {
            seq![s]
        } else {
            segments
        },
        None => seq![s],
    }
}

/// What permission is asked for before a line runs, in this order, where a parser is at
/// hand.
pub fn parsed_bash_checks(command: &str, parsed: Option<(Vec<String>, bool)>) -> (r: Vec<String>)
    ensures
        texts(r@) == parsed_checks_of(
            command@,
            match parsed {
                Some((segments, complex)) => Some((texts(segments@), complex)),
                None => None,
            },
        ),
{
    match parsed {
        Some((segments, complex)) => {
            if !complex {
                return segments;
            }
        },
        None => {},
    }
    let mut one: Vec<String> = Vec::new();
    one.push(command.to_owned());
    assert(texts(one@) =~= seq![command@]);
    one
}

/// The answer to a command leaves nothing out: the whole of its output and behind it the whole
/// of its errors; a command that failed has its code told behind both, and one that succeeded
/// without errors is answered with its output alone.
pub proof fn law_answer_holds_all_output(stdout: Seq<char>, stderr: Seq<char>, code: Option<i32>)
    ensures
        in_order(answer_of(stdout, stderr, code), seq![stdout, stderr]),
        code == Some(0i32) && stderr.len() == 0 ==> answer_of(stdout, stderr, code) == stdout,
        code is Some && code->0 != 0 ==> in_order(
            answer_of(stdout, stderr, code),
            seq![stdout, stderr, signed_of(code->0 as int)],
        ),
        code is None ==> in_order(
            answer_of(stdout, stderr, code),
            seq![stdout, stderr, signed_of(-1)],
        ),
        stdout.len() == 0 && code == Some(0i32) ==> answer_of(stdout, stderr, code) == stderr,
{
    reveal_strlit("");
    let exit = match code {
        Some(c) => c as int,
        None => -1,
    };
    let both = seq![stdout, stderr];
    let mid = if stderr.len() == 0 {
        ""@
    } else if stdout.len() == 0 {
        stderr
    } else {
        "\n"@ + stderr
    };
    lemma_in_order_itself(stdout);
    if stderr.len() > 0 && stdout.len() > 0 {
        lemma_in_order_more(stdout, seq![stdout], "\n"@);
        lemma_in_order_next(stdout + "\n"@, seq![stdout], stderr);
        assert(stdout + "\n"@ + stderr =~= stdout + mid);
    } else {
        lemma_in_order_next(stdout, seq![stdout], stderr);
        assert(stdout + stderr =~= stdout + mid);
    }
    assert(seq![stdout].push(stderr) =~= both);
    let end = if exit == 0 {
        ""@
    } else {
        "\nExit code: "@ + signed_of(exit)
    };
    lemma_in_order_more(stdout + mid, both, end);
    if exit != 0 {
        lemma_in_order_more(stdout + mid, both, "\nExit code: "@);
        lemma_in_order_next(stdout + mid + "\nExit code: "@, both, signed_of(exit));
        assert(stdout + mid + "\nExit code: "@ + signed_of(exit) =~= answer_of(stdout, stderr, code));
        assert(both.push(signed_of(exit)) =~= seq![stdout, stderr, signed_of(exit)]);
    } else {
        assert(stderr.len() == 0 ==> answer_of(stdout, stderr, code) =~= stdout);
        assert(stdout.len() == 0 ==> answer_of(stdout, stderr, code) =~= stderr);
    }
}

/// A line that substitutes the output of a command, or that a parser cannot split, is asked about
/// whole; one that a parser splits is asked about by the parts that it found.
pub proof fn law_whole_lines_where_unsure(s: Seq<char>, parsed: Option<(Seq<Seq<char>>, bool)>)
    ensures
        occurs(s, "$("@) || occurs(s, "`"@) || occurs(s, "<("@) || occurs(s, ">("@) ==> coarse_checks_of(s)
            == seq![s],
        parsed is None || (parsed->0).1 ==> parsed_checks_of(s, parsed) == seq![s],
        parsed is Some && !(parsed->0).1 ==> parsed_checks_of(s, parsed) == (parsed->0).0,
{
}

/// Of texts without the white space around them none is left out that has anything else, and no
/// other is kept.
pub proof fn law_only_blank_parts_are_left_out(ts: Seq<Seq<char>>)
    ensures
        forall|i: int|
            0 <= i < ts.len() && trim_of(#[trigger] ts[i]).len() > 0 ==> trimmed_nonempty(ts).contains(
                trim_of(ts[i]),
            ),
        forall|k: int| 0 <= k < trimmed_nonempty(ts).len() ==> (#[trigger] trimmed_nonempty(ts)[k]).len() > 0,
        trimmed_nonempty(ts).len() <= ts.len(),
    decreases ts.len(),
{
    if ts.len() > 0 {
        let front = ts.drop_last();
        law_only_blank_parts_are_left_out(front);
        let before = trimmed_nonempty(front);
        let all = trimmed_nonempty(ts);
        assert forall|i: int| 0 <= i < ts.len() && trim_of(#[trigger] ts[i]).len() > 0 implies all.contains(
            trim_of(ts[i]),
        ) by {
            if i < front.len() {
                assert(front[i] == ts[i]);
                assert(before.contains(trim_of(front[i])));
                let k = choose|k: int| 0 <= k < before.len() && before[k] == trim_of(ts[i]);
                assert(all[k] == trim_of(ts[i]));
            } else {
                assert(all[all.len() - 1] == trim_of(ts[i]));
            }
        }
    }
}

} // verus!
