//! The `grep` tool: lines that match a regular expression, with context around
//! them.
use vstd::prelude::*;
use crate::pattern::{regex_error, regex_hit, regex_hits};
use crate::platform::{lossy, lossy_of, quoted, quoted_of};
use crate::text::{
    cat, decimal, decimal_of, in_order, join, join_of, law_joining_keeps_the_parts, lemma_in_order_around,
    lemma_in_order_concat, lemma_in_order_itself, lemma_in_order_occurs, lines, lines_of, occurs, texts,
    to_chars,
};
use crate::tools::cache::ToolCache;
use crate::tools::glob::{
    first_of, flag, flag_of, hit_positions, law_hits_are_found_in_order, path_arg, path_or_here,
};
use crate::tools::{AskSender, PermCheck};

verus! {

/// Bytes of the largest file that is searched.
pub const MAX_GREP_FILE_BYTES: u64 = 10485760;

/// Bytes at the start of a file that are looked at to tell whether it is binary.
pub const BINARY_PROBE: usize = 8192;

/// The `grep` tool.
pub struct GrepTool {
    pub permission: Option<PermCheck>,
    pub ask_tx: Option<AskSender>,
    pub cache: Option<ToolCache>,
}

/// The regular expression for one character of a file name pattern.
pub open spec fn include_char(c: char) -> Seq<char> {
    if c == '.' {
        "\\."@
    } else if c == '*' {
        ".*"@
    } else if c == '?' {
        "."@
    } else if c == '{' {
        "(?:"@
    } else if c == '}' {
        ")"@
    } else if c == ',' {
        "|"@
    } else {
        seq![c]
    }
}

/// The regular expression for a file name pattern.
pub open spec fn include_source(glob: Seq<char>) -> Seq<char>
    decreases glob.len(),
{
    if glob.len() == 0 {
        Seq::empty()
    } else {
        include_source(glob.drop_last()) + include_char(glob.last())
    }
}

/// The regular expression that a whole file name has to match.
pub open spec fn include_regex(glob: Seq<char>) -> Seq<char> {
    "^(?:"@ + include_source(glob) + ")$"@
}

/// A zero byte stands near the start.
pub open spec fn looks_binary(data: Seq<u8>) -> bool {
    exists|i: int| 0 <= i < data.len() && i < BINARY_PROBE && #[trigger] data[i] == 0
}

impl GrepTool {
    /// The tool without a cache.
    pub fn new(permission: Option<PermCheck>, ask_tx: Option<AskSender>) -> (r: Self)
        ensures
            r.permission == permission,
            r.ask_tx == ask_tx,
            r.cache is None,
    {
        GrepTool { permission, ask_tx, cache: None }
    }

    /// The tool with a cache for its results.
    pub fn with_cache(
        permission: Option<PermCheck>,
        ask_tx: Option<AskSender>,
        cache: ToolCache,
    ) -> (r: Self)
        ensures
            r.permission == permission,
            r.ask_tx == ask_tx,
            r.cache == Some(cache),
    {
        GrepTool { permission, ask_tx, cache: Some(cache) }
    }

    /// The regular expression for a file name pattern with `*`, `?` and
    /// `{one,other}`.
    pub fn glob_to_regex(glob: &str) -> (r: String)
        ensures
            r@ == include_source(glob@),
    {
        let v = to_chars(glob);
        let mut out = String::new();
        let mut i: usize = 0;
        assert(glob@.take(0) =~= Seq::empty());
        while i < v.len()
            invariant
                i <= v@.len(),
                v@ == glob@,
                out@ == include_source(glob@.take(i as int)),
            decreases v@.len() - i,
        {
            let c: char = v[i];
            let ghost before = out@;
            assert(glob@.take(i + 1).drop_last() =~= glob@.take(i as int));
            if c == '.' {
                out.append("\\.");
            } else if c == '*' {
                out.append(".*");
            } else if c == '?' {
                out.append(".");
            } else if c == '{' {
                out.append("(?:");
            } else if c == '}' {
                out.append(")");
            } else if c == ',' {
                out.append("|");
            } else {
                out.push(c);
            }
            assert(out@ =~= before + include_char(c));
            i += 1;
        }
        assert(glob@.take(i as int) =~= glob@);
        out
    }

    /// Whether the data looks binary: a zero byte near the start.
    pub fn is_binary(data: &Vec<u8>) -> (r: bool)
        ensures
            r == looks_binary(data@),
    {
        let mut i: usize = 0;
        while i < data.len() && i < BINARY_PROBE
            invariant
                i <= data@.len(),
                i <= BINARY_PROBE,
                forall|k: int| 0 <= k < i ==> #[trigger] data@[k] != 0,
            decreases data@.len() - i,
        {
            if data[i] == 0 {
                return true;
            }
            i += 1;
        }
        false
    }
}

/// Arguments of the `grep` tool.
#[derive(Debug)]
pub struct GrepArgs {
    pub pattern: String,
    pub path: Option<String>,
    pub include_glob: Option<String>,
    pub context_lines: Option<usize>,
    pub include_hidden: bool,
}

/// Number of context lines that a call asks for.
pub open spec fn context_of(args: GrepArgs) -> usize {
    match args.context_lines {
        Some(n) => n,
        None => 0,
    }
}

/// Number of context lines that a call asks for.
pub fn context_arg(args: &GrepArgs) -> (r: usize)
    ensures
        r == context_of(*args),
{
    match args.context_lines {
        Some(n) => n,
        None => 0,
    }
}

/// The key under which the result of a call is remembered.
pub fn grep_cache_key(args: &GrepArgs) -> (r: String)
    ensures
        r@ == "grep:"@ + args.pattern@ + ":"@ + path_or_here(args.path) + ":"@ + (
        match args.include_glob {
            Some(g) => g@,
            None => ""@,
        }) + ":"@ + decimal_of(context_of(*args) as nat) + ":hidden="@ + flag_of(args.include_hidden),
{
    let mut out = cat("grep:", args.pattern.as_str());
    out.append(":");
    let p = path_arg(&args.path);
    out.append(p.as_str());
    out.append(":");
    let g = match &args.include_glob {
        Some(g) => g.clone(),
        None => "".to_owned(),
    };
    out.append(g.as_str());
    out.append(":");
    let n = decimal(context_arg(args) as u128);
    out.append(n.as_str());
    out.append(":hidden=");
    out.append(flag(args.include_hidden));
    out
}

/// The refusal of a call whose patterns are not valid, the pattern first.
pub open spec fn pattern_refusal(args: GrepArgs) -> Option<Seq<char>> {
    match regex_error(args.pattern@) {
        Some(e) => Some("Invalid regex pattern: "@ + e),
        None => match args.include_glob {
            Some(g) => match regex_error(include_regex(g@)) {
                Some(e) => Some(
                    "Invalid include glob "@ + quoted_of(g@) + ": "@ + e
                        + ". Use forms like \"*.rs\" or \"*.{ts,tsx}\"."@,
                ),
                None => None,
            },
            None => None,
        },
    }
}

fn full_include(glob: &str) -> (r: String)
    ensures
        r@ == include_regex(glob@),
{
    let body = GrepTool::glob_to_regex(glob);
    let mut out = cat("^(?:", body.as_str());
    out.append(")$");
    out
}

/// Refuses patterns that are not valid.
pub fn check_patterns(args: &GrepArgs) -> (r: Result<(), String>)
    ensures
        match r {
            Ok(_) => pattern_refusal(*args) is None,
            Err(e) => pattern_refusal(*args) == Some(e@),
        },
{
    let none: Vec<String> = Vec::new();
    match regex_hits(args.pattern.as_str(), &none) {
        Err(e) => Err(cat("Invalid regex pattern: ", e.as_str())),
        Ok(_) => match &args.include_glob {
            None => Ok(()),
            Some(g) => {
                let source = full_include(g.as_str());
                match regex_hits(source.as_str(), &none) {
                    Ok(_) => Ok(()),
                    Err(e) => {
                        let q = quoted(g.as_str());
                        let mut out = cat("Invalid include glob ", q.as_str());
                        out.append(": ");
                        out.append(e.as_str());
                        out.append(". Use forms like \"*.rs\" or \"*.{ts,tsx}\".");
                        Err(out)
                    },
                }
            },
        },
    }
}

/// Whether a file of that name is to be searched: where a name pattern is given, a
/// valid one that matches the name.
pub fn wants_file(args: &GrepArgs, name: &str) -> (r: bool)
    ensures
        r == (match args.include_glob {
            Some(g) => regex_error(include_regex(g@)) is None && regex_hit(
                include_regex(g@),
                name@,
            ),
            None => true,
        }),
{
    match &args.include_glob {
        None => true,
        Some(g) => {
            let source = full_include(g.as_str());
            let mut list: Vec<String> = Vec::new();
            list.push(name.to_owned());
            match regex_hits(source.as_str(), &list) {
                Ok(v) => v[0],
                Err(_) => false,
            }
        },
    }
}

/// Whether a file of that many bytes is too large to be searched.
pub fn is_too_large(len: u64) -> (r: bool)
    ensures
        r == (len > MAX_GREP_FILE_BYTES),
{
    len > MAX_GREP_FILE_BYTES
}

/// Output line for a match without context.
pub open spec fn hit_line(path: Seq<char>, i: int, line: Seq<char>) -> Seq<char> {
    path + ":"@ + decimal_of((i + 1) as nat) + ":"@ + line
}

/// Output line within context: a colon marks a match, a dash a line around one.
pub open spec fn context_line(path: Seq<char>, i: int, hit: bool, line: Seq<char>) -> Seq<char> {
    path + "-"@ + decimal_of((i + 1) as nat) + (if hit {
        ":"@
    } else {
        "-"@
    }) + " "@ + line
}

/// Output lines for the matches of a file without context.
pub open spec fn hit_lines(path: Seq<char>, ls: Seq<Seq<char>>, hits: Seq<bool>) -> Seq<Seq<char>> {
    let at = hit_positions(hits, hits.len() as int);
    Seq::new(at.len(), |k: int| hit_line(path, at[k] as int, ls[at[k] as int]))
}

/// A match lies at most `context` lines away from line `i`.
pub open spec fn near_hit(hits: Seq<bool>, i: int, context: int) -> bool {
    exists|m: int| 0 <= m < hits.len() && #[trigger] hits[m] && m - context <= i <= m + context
}

/// The output `res` with the context lines of a file from line `i` on added, as far
/// as `max` lines allow; a separator stands between groups that do not touch.
pub open spec fn context_from(
    res: Seq<Seq<char>>,
    path: Seq<char>,
    ls: Seq<Seq<char>>,
    hits: Seq<bool>,
    context: int,
    max: int,
    i: int,
    in_group: bool,
) -> Seq<Seq<char>>
    decreases ls.len() - i,
{
    if i < 0 || i >= ls.len() || res.len() >= max {
        res
    } else if !near_hit(hits, i, context) {
        context_from(res, path, ls, hits, context, max, i + 1, false)
    } else {
        let sep = if !in_group && res.len() > 0 {
            res.push("--"@)
        } else {
            res
        };
        if sep.len() >= max {
            sep
        } else {
            context_from(
                sep.push(context_line(path, i, hits[i], ls[i])),
                path,
                ls,
                hits,
                context,
                max,
                i + 1,
                true,
            )
        }
    }
}

/// The output after a file with the given lines and matches.
pub open spec fn searched(
    res: Seq<Seq<char>>,
    path: Seq<char>,
    ls: Seq<Seq<char>>,
    hits: Seq<bool>,
    context: usize,
    max: usize,
) -> Seq<Seq<char>> {
    if context == 0 {
        res + first_of(hit_lines(path, ls, hits), (max - res.len()) as nat)
    } else {
        context_from(res, path, ls, hits, context as int, max as int, 0, false)
    }
}

/// What a search has found after a file with the given lines.
pub open spec fn after_file(
    v: GrepView,
    path: Seq<char>,
    ls: Seq<Seq<char>>,
    pattern: Seq<char>,
    context: usize,
) -> GrepView {
    let hits = line_hits(pattern, ls);
    GrepView {
        results: searched(v.results, path, ls, hits, context, v.max),
        matches: v.matches + hit_positions(hits, hits.len() as int).len(),
        files: v.files + 1,
        max: v.max,
    }
}

/// A search in progress: output lines, matches and files so far, and the number of
/// output lines at which it ends.
pub struct GrepRun {
    results: Vec<String>,
    matches: u128,
    files: u64,
    max: usize,
}

/// What a search has found so far.
pub struct GrepView {
    pub results: Seq<Seq<char>>,
    pub matches: nat,
    pub files: nat,
    pub max: usize,
}

impl View for GrepRun {
    type V = GrepView;

    closed spec fn view(&self) -> GrepView {
        GrepView {
            results: texts(self.results@),
            matches: self.matches as nat,
            files: self.files as nat,
            max: self.max,
        }
    }
}

/// The report on a search.
pub open spec fn grep_report(v: GrepView) -> Seq<char> {
    let n = v.results.len();
    if n == 0 {
        "No matches found."@
    } else if n >= v.max {
        decimal_of(v.matches) + " matches (showing first "@ + decimal_of(v.max as nat)
            + " output lines, searched "@ + decimal_of(v.files) + " files):\n"@ + join_of(
            v.results,
            "\n"@,
        ) + "\n\n... and "@ + decimal_of((n - v.max) as nat) + " more"@
    } else {
        decimal_of(v.matches) + " matches ("@ + decimal_of(n) + " output lines, searched "@
            + decimal_of(v.files) + " files):\n"@ + join_of(v.results, "\n"@)
    }
}

impl GrepRun {
    /// No more lines matched than the searched files can have.
    pub closed spec fn wf(&self) -> bool {
        self.matches <= self.files * usize::MAX
    }

    /// A search that ends at `max` output lines.
    pub fn new(max: usize) -> (r: GrepRun)
        ensures
            r.wf(),
            r@ == (GrepView { results: Seq::empty(), matches: 0, files: 0, max }),
    {
        let r = GrepRun { results: Vec::new(), matches: 0, files: 0, max };
        assert(texts(r.results@) =~= Seq::empty());
        r
    }

    /// Whether another file is to be searched.
    pub fn wants_more(&self) -> (r: bool)
        ensures
            r == (self@.results.len() < self@.max),
    {
        assert(texts(self.results@).len() == self.results@.len());
        self.results.len() < self.max
    }

    fn push_hits(&mut self, path: &str, ls: &Vec<String>, hits: &Vec<bool>)
        requires
            old(self).wf(),
            hits@.len() == ls@.len(),
            old(self)@.results.len() < old(self)@.max,
        ensures
            final(self).wf(),
            final(self)@ == (GrepView {
                results: old(self)@.results + first_of(
                    hit_lines(path@, texts(ls@), hits@),
                    (old(self)@.max - old(self)@.results.len()) as nat,
                ),
                ..old(self)@
            }),
    {
        let ghost start = self@;
        let ghost lsv = texts(ls@);
        let ghost room = (start.max - start.results.len()) as nat;
        let total: usize = hits.len();
        let mut i: usize = 0;
        proof {
            assert(hit_positions(hits@, 0) =~= Seq::empty());
            assert(self@.results =~= start.results + first_of(
                shown_hits(path@, lsv, hits@, 0),
                room,
            ));
        }
        while i < total
            invariant
                i <= total,
                total == hits@.len(),
                hits@.len() == ls@.len(),
                lsv == texts(ls@),
                start.results.len() < start.max,
                room == start.max - start.results.len(),
                self.wf(),
                self@ == (GrepView { results: self@.results, ..start }),
                self@.results == start.results + first_of(
                    shown_hits(path@, lsv, hits@, i as int),
                    room,
                ),
            decreases total - i,
        {
            let ghost before = shown_hits(path@, lsv, hits@, i as int);
            let ghost after = shown_hits(path@, lsv, hits@, i + 1);
            assert(texts(self.results@).len() == self.results@.len());
            assert(total <= usize::MAX);
            if hits[i] {
                proof {
                    assert(hit_positions(hits@, i + 1) == hit_positions(hits@, i as int).push(i));
                    assert(after =~= before.push(hit_line(path@, i as int, lsv[i as int])));
                }
                if self.results.len() < self.max {
                    let mut line = cat(path, ":");
                    let n = decimal(i as u128 + 1);
                    line.append(n.as_str());
                    line.append(":");
                    line.append(ls[i].as_str());
                    let ghost old_results = self@.results;
                    self.results.push(line);
                    assert(self@.results =~= old_results.push(line@));
                    assert(self@.results =~= start.results + first_of(after, room));
                } else {
                    assert(first_of(after, room) =~= first_of(before, room));
                }
            } else {
                assert(after =~= before);
            }
            i += 1;
        }
        assert(shown_hits(path@, lsv, hits@, i as int) =~= hit_lines(path@, lsv, hits@));
    }

    fn push_context(&mut self, path: &str, ls: &Vec<String>, hits: &Vec<bool>, context: usize)
        requires
            old(self).wf(),
            hits@.len() == ls@.len(),
        ensures
            final(self).wf(),
            final(self)@ == (GrepView {
                results: context_from(
                    old(self)@.results,
                    path@,
                    texts(ls@),
                    hits@,
                    context as int,
                    old(self)@.max as int,
                    0,
                    false,
                ),
                ..old(self)@
            }),
    {
        let ghost start = self@;
        let ghost lsv = texts(ls@);
        let ghost whole = context_from(
            start.results,
            path@,
            lsv,
            hits@,
            context as int,
            start.max as int,
            0,
            false,
        );
        let total: usize = ls.len();
        let shown = mark_near(hits, context);
        let mut in_group: bool = false;
        let mut i: usize = 0;
        while i < total && self.results.len() < self.max
            invariant
                i <= total,
                total == ls@.len(),
                hits@.len() == ls@.len(),
                shown@.len() == ls@.len(),
                lsv == texts(ls@),
                forall|k: int|
                    0 <= k < shown@.len() ==> #[trigger] shown@[k] == near_hit(
                        hits@,
                        k,
                        context as int,
                    ),
                self.wf(),
                self@ == (GrepView { results: self@.results, ..start }),
                self@.results.len() == self.results@.len(),
                start == old(self)@,
                whole == context_from(
                    start.results,
                    path@,
                    lsv,
                    hits@,
                    context as int,
                    start.max as int,
                    0,
                    false,
                ),
                whole == context_from(
                    self@.results,
                    path@,
                    lsv,
                    hits@,
                    context as int,
                    start.max as int,
                    i as int,
                    in_group,
                ),
            decreases total - i,
        {
            if !shown[i] {
                in_group = false;
            } else {
                if !in_group && self.results.len() > 0 {
                    let ghost old_results = self@.results;
                    self.results.push("--".to_owned());
                    assert(self@.results =~= old_results.push("--"@));
                }
                if self.results.len() >= self.max {
                    assert(whole == self@.results);
                    assert(self@ == (GrepView { results: whole, ..start }));
                    return ;
                }
                let mut line = cat(path, "-");
                let n = decimal(i as u128 + 1);
                line.append(n.as_str());
                line.append(
                    if hits[i] {
                        ":"
                    } else {
                        "-"
                    },
                );
                line.append(" ");
                line.append(ls[i].as_str());
                let ghost old_results = self@.results;
                self.results.push(line);
                assert(line@ == context_line(path@, i as int, hits@[i as int], lsv[i as int]));
                assert(self@.results =~= old_results.push(line@));
                in_group = true;
            }
            i += 1;
        }
    }

    /// Takes in a file with the given lines, of which the marked ones match.
    pub fn scan_lines(&mut self, path: &str, ls: &Vec<String>, hits: &Vec<bool>, context: usize)
        requires
            old(self).wf(),
            hits@.len() == ls@.len(),
            old(self)@.results.len() < old(self)@.max,
            old(self)@.files < u64::MAX,
        ensures
            final(self).wf(),
            final(self)@ == (GrepView {
                results: searched(
                    old(self)@.results,
                    path@,
                    texts(ls@),
                    hits@,
                    context,
                    old(self)@.max,
                ),
                matches: old(self)@.matches + hit_positions(hits@, hits@.len() as int).len(),
                files: old(self)@.files + 1,
                max: old(self)@.max,
            }),
    {
        let mut n: u128 = 0;
        let mut i: usize = 0;
        while i < hits.len()
            invariant
                i <= hits@.len(),
                n <= i,
                n == hit_positions(hits@, i as int).len(),
            decreases hits@.len() - i,
        {
            if hits[i] {
                n += 1;
            }
            i += 1;
        }
        proof {
            let f = self.files as int;
            assert((f + 1) * usize::MAX == f * usize::MAX + usize::MAX) by (nonlinear_arith);
            assert((f + 1) * usize::MAX <= 0xffff_ffff_ffff_ffff * 0xffff_ffff_ffff_ffff)
                by (nonlinear_arith)
                requires
                    0 <= f + 1 <= 0xffff_ffff_ffff_ffff,
                    0 <= usize::MAX <= 0xffff_ffff_ffff_ffff,
            ;
        }
        self.matches = self.matches + n;
        self.files = self.files + 1;
        if context == 0 {
            self.push_hits(path, ls, hits);
        } else {
            self.push_context(path, ls, hits, context);
        }
    }

    /// Takes in a file with the given contents; a binary one is passed over. Refuses
    /// an invalid pattern.
    pub fn scan(&mut self, path: &str, data: &Vec<u8>, pattern: &str, context: usize) -> (r: Result<
        (),
        String,
    >)
        requires
            old(self).wf(),
            old(self)@.results.len() < old(self)@.max,
            old(self)@.files < u64::MAX,
        ensures
            final(self).wf(),
            looks_binary(data@) ==> r is Ok && final(self)@ == old(self)@,
            !looks_binary(data@) ==> match r {
                Ok(_) => regex_error(pattern@) is None && final(self)@ == after_file(
                    old(self)@,
                    path@,
                    lines_of(lossy_of(data@)),
                    pattern@,
                    context,
                ),
                Err(e) => regex_error(pattern@) == Some(e@) && final(self)@ == old(self)@,
            },
    {
        if GrepTool::is_binary(data) {
            return Ok(());
        }
        let content = lossy(data);
        let ls = lines(content.as_str());
        match regex_hits(pattern, &ls) {
            Ok(hits) => {
                assert(texts(ls@).len() == ls@.len());
                assert(hits@ =~= line_hits(pattern@, texts(ls@)));
                self.scan_lines(path, &ls, &hits, context);
                Ok(())
            },
            Err(e) => Err(e),
        }
    }

    /// The report on the search.
    pub fn report(&self) -> (r: String)
        ensures
            r@ == grep_report(self@),
    {
        assert(texts(self.results@).len() == self.results@.len());
        let n: usize = self.results.len();
        if n == 0 {
            return "No matches found.".to_owned();
        }
        let list = join(&self.results, "\n");
        let mut out = decimal(self.matches);
        if n >= self.max {
            out.append(" matches (showing first ");
            let m = decimal(self.max as u128);
            out.append(m.as_str());
            out.append(" output lines, searched ");
            let f = decimal(self.files as u128);
            out.append(f.as_str());
            out.append(" files):\n");
            out.append(list.as_str());
            out.append("\n\n... and ");
            let more = decimal((n - self.max) as u128);
            out.append(more.as_str());
            out.append(" more");
        } else {
            out.append(" matches (");
            let m = decimal(n as u128);
            out.append(m.as_str());
            out.append(" output lines, searched ");
            let f = decimal(self.files as u128);
            out.append(f.as_str());
            out.append(" files):\n");
            out.append(list.as_str());
        }
        out
    }
}

/// Which of the lines the pattern matches.
pub open spec fn line_hits(pattern: Seq<char>, ls: Seq<Seq<char>>) -> Seq<bool> {
    Seq::new(ls.len(), |i: int| regex_hit(pattern, ls[i]))
}

spec fn shown_hits(path: Seq<char>, ls: Seq<Seq<char>>, hits: Seq<bool>, upto: int) -> Seq<Seq<char>> {
    let at = hit_positions(hits, upto);
    Seq::new(at.len(), |k: int| hit_line(path, at[k] as int, ls[at[k] as int]))
}

/// Which lines lie near a match.
fn mark_near(hits: &Vec<bool>, context: usize) -> (r: Vec<bool>)
    ensures
        r@.len() == hits@.len(),
        forall|k: int| 0 <= k < r@.len() ==> #[trigger] r@[k] == near_hit(hits@, k, context as int),
{
    let total: usize = hits.len();
    let mut shown: Vec<bool> = Vec::new();
    let mut i: usize = 0;
    while i < total
        invariant
            i <= total,
            shown@.len() == i,
            forall|k: int| 0 <= k < i ==> !#[trigger] shown@[k],
        decreases total - i,
    {
        shown.push(false);
        i += 1;
    }
    let mut m: usize = 0;
    while m < total
        invariant
            m <= total,
            total == hits@.len(),
            shown@.len() == total,
            forall|k: int|
                0 <= k < total ==> #[trigger] shown@[k] == (exists|j: int|
                    0 <= j < m && #[trigger] hits@[j] && j - context <= k <= j + context),
        decreases total - m,
    {
        let ghost before = shown@;
        if hits[m] {
            let start: usize = if m > context {
                m - context
            } else {
                0
            };
            let end: usize = if context >= total - m - 1 {
                total
            } else {
                m + 1 + context
            };
            let mut k: usize = start;
            while k < end
                invariant
                    start <= k <= end <= total,
                    total == shown@.len(),
                    before.len() == total,
                    forall|x: int|
                        0 <= x < total ==> #[trigger] shown@[x] == (before[x] || start <= x < k),
                decreases end - k,
            {
                shown.set(k, true);
                k += 1;
            }
            assert forall|x: int| 0 <= x < total implies #[trigger] shown@[x] == (exists|j: int|
                0 <= j < m + 1 && #[trigger] hits@[j] && j - context <= x <= j + context) by {
                if start <= x < end {
                    assert(hits@[m as int] && m - context <= x <= m + context);
                }
                assert(before[x] == (exists|j: int|
                    0 <= j < m && #[trigger] hits@[j] && j - context <= x <= j + context));
            }
        }
        m += 1;
    }
    assert forall|k: int| 0 <= k < shown@.len() implies #[trigger] shown@[k] == near_hit(
        hits@,
        k,
        context as int,
    ) by {}
    shown
}

/// A search never shows more lines than it may; without context it shows one line
/// per match as far as there is room.
pub proof fn law_output_is_capped(
    res: Seq<Seq<char>>,
    path: Seq<char>,
    ls: Seq<Seq<char>>,
    hits: Seq<bool>,
    context: usize,
    max: usize,
)
    requires
        res.len() <= max,
    ensures
        searched(res, path, ls, hits, context, max).len() <= max,
        context == 0 ==> searched(res, path, ls, hits, context, max).len() == res.len() + if hit_positions(
            hits,
            hits.len() as int,
        ).len() <= max - res.len() {
            hit_positions(hits, hits.len() as int).len()
        } else {
            (max - res.len()) as nat
        },
{
    if context > 0 {
        lemma_context_len(res, path, ls, hits, context as int, max as int, 0, false);
    }
}

/// What a search has found after files with the given paths and lines.
pub open spec fn after_files(
    v: GrepView,
    files: Seq<(Seq<char>, Seq<Seq<char>>)>,
    pattern: Seq<char>,
    context: usize,
) -> GrepView
    decreases files.len(),
{
    if files.len() == 0 {
        v
    } else {
        after_file(
            after_files(v, files.drop_last(), pattern, context),
            files.last().0,
            files.last().1,
            pattern,
            context,
        )
    }
}

/// The lines of a file that match are counted the same however many lines around them are
/// shown, and so are those of any files that are searched.
pub proof fn law_matches_do_not_depend_on_context(
    v: GrepView,
    files: Seq<(Seq<char>, Seq<Seq<char>>)>,
    pattern: Seq<char>,
    a: usize,
    b: usize,
)
    ensures
        after_files(v, files, pattern, a).matches == after_files(v, files, pattern, b).matches,
        after_files(v, files, pattern, a).files == v.files + files.len(),
    decreases files.len(),
{
    if files.len() > 0 {
        law_matches_do_not_depend_on_context(v, files.drop_last(), pattern, a, b);
    }
}

proof fn lemma_context_len(
    res: Seq<Seq<char>>,
    path: Seq<char>,
    ls: Seq<Seq<char>>,
    hits: Seq<bool>,
    context: int,
    max: int,
    i: int,
    in_group: bool,
)
    requires
        res.len() <= max,
        0 <= i,
    ensures
        context_from(res, path, ls, hits, context, max, i, in_group).len() <= max,
    decreases ls.len() - i,
{
    if i < ls.len() && res.len() < max {
        if !near_hit(hits, i, context) {
            lemma_context_len(res, path, ls, hits, context, max, i + 1, false);
        } else {
            let sep = if !in_group && res.len() > 0 {
                res.push("--"@)
            } else {
                res
            };
            if sep.len() < max {
                lemma_context_len(
                    sep.push(context_line(path, i, hits[i], ls[i])),
                    path,
                    ls,
                    hits,
                    context,
                    max,
                    i + 1,
                    true,
                );
            }
        }
    }
}

/// Without context a file adds, behind what was found before, one line for each line of it
/// that matches, in their order and as far as there is room: the path, the number of the line
/// from 1 on, and that line itself, with a colon between them. `ns` are the numbers.
pub proof fn law_matching_lines_are_shown(
    v: GrepView,
    path: Seq<char>,
    ls: Seq<Seq<char>>,
    pattern: Seq<char>,
) -> (ns: Seq<int>)
    requires
        ls.len() <= usize::MAX,
        v.results.len() <= v.max,
    ensures
        ({
            let out = after_file(v, path, ls, pattern, 0).results;
            &&& out.len() == v.results.len() + ns.len()
            &&& forall|k: int| 0 <= k < v.results.len() ==> #[trigger] out[k] == v.results[k]
            &&& forall|k: int|
                0 <= k < ns.len() ==> {
                    let n = #[trigger] ns[k];
                    &&& 1 <= n <= ls.len()
                    &&& regex_hit(pattern, ls[n - 1])
                    &&& out[v.results.len() + k] == path + ":"@ + decimal_of(n as nat) + ":"@ + ls[n - 1]
                }
            &&& forall|j: int, k: int| 0 <= j < k < ns.len() ==> #[trigger] ns[j] < #[trigger] ns[k]
            &&& out.len() <= v.max
            &&& out.len() < v.max ==> forall|n: int|
                1 <= n <= ls.len() && regex_hit(pattern, #[trigger] ls[n - 1]) ==> ns.contains(n)
        }),
{
    let hits = line_hits(pattern, ls);
    let at = hit_positions(hits, hits.len() as int);
    law_hits_are_found_in_order(hits, hits.len() as int);
    let room = (v.max - v.results.len()) as nat;
    let shown = first_of(at, room);
    let ns = Seq::new(shown.len(), |k: int| shown[k] + 1);
    let out = after_file(v, path, ls, pattern, 0).results;
    assert forall|k: int| 0 <= k < ns.len() implies ({
        let n = #[trigger] ns[k];
        &&& 1 <= n <= ls.len()
        &&& regex_hit(pattern, ls[n - 1])
        &&& out[v.results.len() + k] == path + ":"@ + decimal_of(n as nat) + ":"@ + ls[n - 1]
    }) by {
        assert(shown[k] == at[k]);
        assert(hits[at[k] as int]);
        assert(hit_lines(path, ls, hits)[k] == hit_line(path, at[k] as int, ls[at[k] as int]));
    }
    if out.len() < v.max {
        assert forall|n: int| 1 <= n <= ls.len() && regex_hit(pattern, #[trigger] ls[n - 1]) implies ns.contains(
            n,
        ) by {
            assert(hits[n - 1]);
            let k = choose|k: int| 0 <= k < at.len() && #[trigger] at[k] == n - 1;
            assert(ns[k] == n);
        }
    }
    ns
}

/// The line `s` of the output stands for line `n` of the file, counted from 1: it holds the
/// path, the number and the line itself, and marks whether the line matches.
pub open spec fn stands_for(s: Seq<char>, path: Seq<char>, ls: Seq<Seq<char>>, hits: Seq<bool>, n: int) -> bool {
    &&& 1 <= n <= ls.len()
    &&& s == path + "-"@ + decimal_of(n as nat) + (if hits[n - 1] {
        ":"@
    } else {
        "-"@
    }) + " "@ + ls[n - 1]
}

/// The numbers of lines rise, with 0 between those that are not neighbours and nowhere else
/// but before the first.
pub open spec fn spaced(ns: Seq<int>) -> bool {
    &&& forall|j: int, k: int|
        0 <= j < k < ns.len() && #[trigger] ns[j] != 0 && #[trigger] ns[k] != 0 ==> ns[j] < ns[k]
    &&& forall|j: int, k: int|
        0 <= j < ns.len() && k == j + 1 && k < ns.len() && #[trigger] ns[j] != 0 && #[trigger] ns[k] != 0
            ==> ns[k] == ns[j] + 1
    &&& forall|j: int, k: int|
        0 <= j < ns.len() && k == j + 2 && k < ns.len() && #[trigger] ns[j] != 0 && ns[j + 1] == 0
            ==> #[trigger] ns[k] > ns[j] + 1
}

proof fn lemma_spaced_behind(ns: Seq<int>, n: int)
    requires
        spaced(ns),
        n > 0,
        forall|k: int| 0 <= k < ns.len() && #[trigger] ns[k] != 0 ==> ns[k] > n,
        ns.len() > 0 && ns[0] != 0 ==> ns[0] == n + 1,
        ns.len() > 1 && ns[0] == 0 ==> ns[1] > n + 1,
    ensures
        spaced(seq![n] + ns),
        spaced(seq![0int, n] + ns),
{
    let one = seq![n] + ns;
    let two = seq![0int, n] + ns;
    assert forall|k: int| 1 <= k < one.len() implies #[trigger] one[k] == ns[k - 1] by {}
    assert forall|k: int| 1 <= k < two.len() implies #[trigger] two[k] == one[k - 1] by {}
    assert(spaced(one)) by {
        assert forall|j: int, k: int|
            0 <= j < k < one.len() && #[trigger] one[j] != 0 && #[trigger] one[k] != 0 implies one[j] < one[k] by {
            if j > 0 {
                assert(ns[j - 1] < ns[k - 1]);
            }
        }
        assert forall|j: int, k: int|
            0 <= j < one.len() && k == j + 2 && k < one.len() && #[trigger] one[j] != 0 && one[j + 1] == 0 implies #[trigger] one[k]
            > one[j] + 1 by {
            if j > 0 {
                assert(ns[j] == 0);
                assert(ns[k - 1] > ns[j - 1] + 1);
            }
        }
    }
    assert forall|j: int, k: int|
        0 <= j < k < two.len() && #[trigger] two[j] != 0 && #[trigger] two[k] != 0 implies two[j] < two[k] by {
        assert(one[j - 1] < one[k - 1]);
    }
    assert forall|j: int, k: int|
        0 <= j < two.len() && k == j + 2 && k < two.len() && #[trigger] two[j] != 0 && two[j + 1] == 0 implies #[trigger] two[k]
        > two[j] + 1 by {
        assert(one[j] == 0);
        assert(one[k - 1] > one[j - 1] + 1);
    }
}

/// Of the output `out` what stands behind its first `start` lines are lines of the file near a
/// match, each as it stands there, and separators; `ns` are the numbers of the lines, counted
/// from 1, with 0 for a separator.
pub open spec fn shows(
    out: Seq<Seq<char>>,
    start: int,
    path: Seq<char>,
    ls: Seq<Seq<char>>,
    hits: Seq<bool>,
    context: int,
    ns: Seq<int>,
) -> bool {
    &&& out.len() == start + ns.len()
    &&& forall|k: int|
        0 <= k < ns.len() ==> if #[trigger] ns[k] == 0 {
            out[start + k] == "--"@
        } else {
            stands_for(out[start + k], path, ls, hits, ns[k]) && near_hit(hits, ns[k] - 1, context)
        }
}

proof fn lemma_shows_behind(
    out: Seq<Seq<char>>,
    start: int,
    path: Seq<char>,
    ls: Seq<Seq<char>>,
    hits: Seq<bool>,
    context: int,
    n: int,
    apart: bool,
    rest: Seq<int>,
)
    requires
        n > 0,
        ({
            let m: int = if apart {
                2
            } else {
                1
            };
            &&& shows(out, start + m, path, ls, hits, context, rest)
            &&& stands_for(out[start + m - 1], path, ls, hits, n)
            &&& near_hit(hits, n - 1, context)
            &&& apart ==> out[start] == "--"@
        }),
    ensures
        !apart ==> shows(out, start, path, ls, hits, context, seq![n] + rest),
        apart ==> shows(out, start, path, ls, hits, context, seq![0int, n] + rest),
{
    let ns = if apart {
        seq![0int, n] + rest
    } else {
        seq![n] + rest
    };
    let m: int = if apart {
        2
    } else {
        1
    };
    assert forall|k: int| 0 <= k < ns.len() implies if #[trigger] ns[k] == 0 {
        out[start + k] == "--"@
    } else {
        stands_for(out[start + k], path, ls, hits, ns[k]) && near_hit(hits, ns[k] - 1, context)
    } by {
        if k >= m {
            assert(ns[k] == rest[k - m]);
            assert(start + k == start + m + (k - m));
        }
    }
}

/// With context the lines from `i` on add to the output only lines of the file that lie near
/// a match, each as it stands there, and separators. `ns` are the numbers of the lines,
/// counted from 1, with 0 for a separator: the numbers rise, two lines without a separator
/// between them are neighbours, those with one are not, and every line near a match is shown
/// where there is room.
#[verifier::rlimit(40)]
pub proof fn law_lines_around_matches_are_shown(
    res: Seq<Seq<char>>,
    path: Seq<char>,
    ls: Seq<Seq<char>>,
    hits: Seq<bool>,
    context: int,
    max: int,
    i: int,
    in_group: bool,
) -> (ns: Seq<int>)
    requires
        res.len() <= max,
        0 <= i <= ls.len(),
        hits.len() == ls.len(),
        in_group ==> res.len() > 0,
    ensures
        ({
            let out = context_from(res, path, ls, hits, context, max, i, in_group);
            &&& shows(out, res.len() as int, path, ls, hits, context, ns)
            &&& spaced(ns)
            &&& out.len() <= max
            &&& out.take(res.len() as int) == res
            &&& out.len() < max ==> forall|n: int|
                i < n <= ls.len() && #[trigger] near_hit(hits, n - 1, context) ==> ns.contains(n)
        }),
        forall|k: int| 0 <= k < ns.len() && #[trigger] ns[k] != 0 ==> ns[k] > i,
        ns.len() > 0 && !in_group ==> (ns[0] == 0 <==> res.len() > 0),
        ns.len() > 0 && in_group && ns[0] != 0 ==> ns[0] == i + 1,
        ns.len() > 1 && ns[0] == 0 ==> ns[1] > i,
        ns.len() > 1 && in_group && ns[0] == 0 ==> ns[1] > i + 1,
    decreases ls.len() - i,
{
    let out = context_from(res, path, ls, hits, context, max, i, in_group);
    let start = res.len() as int;
    if i >= ls.len() || res.len() >= max {
        assert(out.take(start) =~= res);
        Seq::empty()
    } else if !near_hit(hits, i, context) {
        let rest = law_lines_around_matches_are_shown(res, path, ls, hits, context, max, i + 1, false);
        if out.len() < max {
            assert forall|n: int| i < n <= ls.len() && #[trigger] near_hit(hits, n - 1, context) implies rest.contains(
                n,
            ) by {
                assert(n != i + 1);
            }
        }
        rest
    } else {
        let apart = !in_group && res.len() > 0;
        let sep = if apart {
            res.push("--"@)
        } else {
            res
        };
        if sep.len() >= max {
            assert(out.take(start) =~= res);
            assert(spaced(seq![0int]));
            seq![0int]
        } else {
            let line = context_line(path, i, hits[i], ls[i]);
            let next = sep.push(line);
            let rest = law_lines_around_matches_are_shown(next, path, ls, hits, context, max, i + 1, true);
            lemma_spaced_behind(rest, i + 1);
            let first = if apart {
                seq![0int, i + 1]
            } else {
                seq![i + 1]
            };
            let m = first.len() as int;
            let ns = first + rest;
            assert(out == context_from(next, path, ls, hits, context, max, i + 1, true));
            assert(out.take(start) =~= out.take(next.len() as int).take(start));
            assert(next.take(start) =~= res);
            assert forall|k: int| 0 <= k < next.len() implies out[k] == #[trigger] next[k] by {
                assert(out.take(next.len() as int)[k] == out[k]);
            }
            assert(next[start + m - 1] == line);
            assert(apart ==> next[start] == "--"@);
            lemma_shows_behind(out, start, path, ls, hits, context, i + 1, apart, rest);
            if out.len() < max {
                assert forall|n: int|
                    i < n <= ls.len() && #[trigger] near_hit(hits, n - 1, context) implies ns.contains(n) by {
                    if n == i + 1 {
                        assert(ns[m - 1] == n);
                    } else {
                        assert(rest.contains(n));
                        let k = choose|k: int| 0 <= k < rest.len() && rest[k] == n;
                        assert(ns[m + k] == n);
                    }
                }
            }
            ns
        }
    }
}

/// The report on a search that found something holds every line that was found, in their
/// order, behind the number of matches and before nothing but the note on what is not shown;
/// a search that found nothing says so.
pub proof fn law_report_shows_what_was_found(v: GrepView)
    ensures
        v.results.len() == 0 ==> grep_report(v) == "No matches found."@,
        v.results.len() > 0 ==> in_order(grep_report(v), seq![decimal_of(v.matches)] + v.results),
        v.results.len() > 0 ==> occurs(grep_report(v), decimal_of(v.files)),
{
    if v.results.len() > 0 {
        let n = v.results.len();
        let count = decimal_of(v.matches);
        let files = decimal_of(v.files);
        let body = join_of(v.results, "\n"@);
        law_joining_keeps_the_parts(v.results, "\n"@);
        lemma_in_order_itself(count);
        let a = if n >= v.max {
            " matches (showing first "@ + decimal_of(v.max as nat) + " output lines, searched "@
        } else {
            " matches ("@ + decimal_of(n) + " output lines, searched "@
        };
        let z = if n >= v.max {
            "\n\n... and "@ + decimal_of((n - v.max) as nat) + " more"@
        } else {
            Seq::empty()
        };
        let b = a + files + " files):\n"@;
        lemma_in_order_around(b, body, z, v.results);
        lemma_in_order_concat(count, b + body + z, seq![count], v.results);
        assert(count + (b + body + z) =~= grep_report(v));
        lemma_in_order_itself(files);
        lemma_in_order_around(count + a, files, " files):\n"@ + body + z, seq![files]);
        assert(count + a + files + (" files):\n"@ + body + z) =~= grep_report(v));
        lemma_in_order_occurs(grep_report(v), seq![files], 0);
    }
}

} // verus!
