//! The `glob` tool: path patterns, and the listing of the files that match one.
use regex::Regex;
use vstd::prelude::*;
use crate::order::{
    is_order, keys_view, lemma_distinct_is_complete, lemma_order_is_complete, lemma_text_less_total, lemma_text_less_transitive, less_text, sorted_order, text_less,
    SortKey,
};
use crate::pattern::{regex_error, regex_hit, regex_hits, regex_is_match, regex_new, source_of};
use crate::text::{
    cat, join, join_of, law_joining_keeps_the_parts, lemma_in_order_occurs, texts, to_chars,
};
use crate::tools::cache::ToolCache;
use crate::tools::{AskSender, PermCheck};

verus! {

/// The `glob` tool.
pub struct GlobTool {
    pub permission: Option<PermCheck>,
    pub ask_tx: Option<AskSender>,
    pub cache: Option<ToolCache>,
}

impl GlobTool {
    /// The tool without a cache.
    pub fn new(permission: Option<PermCheck>, ask_tx: Option<AskSender>) -> (r: Self)
        ensures
            r.permission == permission,
            r.ask_tx == ask_tx,
            r.cache is None,
    {
        GlobTool { permission, ask_tx, cache: None }
    }

    /// The tool with a cache for its results.
    pub fn with_cache(
        permission: Option<PermCheck>,
        ask_tx: Option<AskSender>,
        cache: ToolCache,
    ) -> (r: Self)
        ensures
            r.permission == permission,
            r.ask_tx == ask_tx,
            r.cache == Some(cache),
    {
        GlobTool { permission, ask_tx, cache: Some(cache) }
    }
}

/// Arguments of the `glob` tool.
#[derive(Debug)]
pub struct GlobArgs {
    pub pattern: String,
    pub path: Option<String>,
    pub include_hidden: bool,
}

/// The given text, or `.` for the working directory.
pub open spec fn path_or_here(path: Option<String>) -> Seq<char> {
    match path {
        Some(p) => p@,
        None => "."@,
    }
}

/// The path argument, or `.` for the working directory.
pub fn path_arg(path: &Option<String>) -> (r: String)
    ensures
        r@ == path_or_here(*path),
{
    match path {
        Some(p) => p.clone(),
        None => ".".to_owned(),
    }
}

/// A truth value as text.
pub open spec fn flag_of(b: bool) -> Seq<char> {
    if b {
        "true"@
    } else {
        "false"@
    }
}

/// A truth value as text.
pub fn flag(b: bool) -> (r: &'static str)
    ensures
        r@ == flag_of(b),
{
    if b {
        "true"
    } else {
        "false"
    }
}

/// The key under which the result of a call is remembered.
pub fn glob_cache_key(args: &GlobArgs) -> (r: String)
    ensures
        r@ == "glob:"@ + args.pattern@ + ":"@ + path_or_here(args.path) + ":hidden="@ + flag_of(
            args.include_hidden,
        ),
{
    let mut out = cat("glob:", args.pattern.as_str());
    out.append(":");
    let p = path_arg(&args.path);
    out.append(p.as_str());
    out.append(":hidden=");
    out.append(flag(args.include_hidden));
    out
}

/// What the call asks permission for.
pub fn glob_permission_input(args: &GlobArgs) -> (r: String)
    ensures
        r@ == "pattern:"@ + args.pattern@,
{
    cat("pattern:", args.pattern.as_str())
}

/// A character with a meaning of its own in a regular expression.
pub open spec fn is_meta(c: char) -> bool {
    ||| c == '.'
    ||| c == '+'
    ||| c == '('
    ||| c == ')'
    ||| c == '['
    ||| c == ']'
    ||| c == '{'
    ||| c == '}'
    ||| c == '^'
    ||| c == '$'
    ||| c == '|'
    ||| c == '\\'
}

/// The regular expression for the path pattern `p` from position `i` on: `**/`
/// stands for any directories, `**` for anything, `*` for anything within a path
/// segment, `?` for one character of a segment, and other characters for
/// themselves.
pub open spec fn glob_from(p: Seq<char>, i: int) -> Seq<char>
    decreases p.len() - i,
{
    if i < 0 || i >= p.len() {
        "$"@
    } else if p[i] == '*' && i + 1 < p.len() && p[i + 1] == '*' {
        if i + 2 < p.len() && p[i + 2] == '/' {
            "(?:.*/)?"@ + glob_from(p, i + 3)
        } else {
            ".*"@ + glob_from(p, i + 2)
        }
    } else if p[i] == '*' {
        "[^/]*"@ + glob_from(p, i + 1)
    } else if p[i] == '?' {
        "[^/]"@ + glob_from(p, i + 1)
    } else if is_meta(p[i]) {
        seq!['\\', p[i]] + glob_from(p, i + 1)
    } else {
        seq![p[i]] + glob_from(p, i + 1)
    }
}

/// The regular expression for a path pattern.
pub open spec fn glob_regex(p: Seq<char>) -> Seq<char> {
    "^"@ + glob_from(p, 0)
}

/// The regular expression for a path pattern.
pub fn glob_source(pattern: &str) -> (r: String)
    ensures
        r@ == glob_regex(pattern@),
{
    let v = to_chars(pattern);
    let n: usize = v.len();
    let ghost p = pattern@;
    let mut out = "^".to_owned();
    let mut i: usize = 0;
    while i < n
        invariant
            i <= n,
            n == v@.len(),
            v@ == p,
            out@ + glob_from(p, i as int) == glob_regex(p),
        decreases n - i,
    {
        let c: char = v[i];
        let ghost before = out@;
        if c == '*' && i + 1 < n && v[i + 1] == '*' {
            if i + 2 < n && v[i + 2] == '/' {
                out.append("(?:.*/)?");
                assert(out@ + glob_from(p, i + 3) =~= before + glob_from(p, i as int));
                i += 3;
            } else {
                out.append(".*");
                assert(out@ + glob_from(p, i + 2) =~= before + glob_from(p, i as int));
                i += 2;
            }
        } else if c == '*' {
            out.append("[^/]*");
            assert(out@ + glob_from(p, i + 1) =~= before + glob_from(p, i as int));
            i += 1;
        } else if c == '?' {
            out.append("[^/]");
            assert(out@ + glob_from(p, i + 1) =~= before + glob_from(p, i as int));
            i += 1;
        } else {
            if c == '.' || c == '+' || c == '(' || c == ')' || c == '[' || c == ']' || c == '{' || c
                == '}' || c == '^' || c == '$' || c == '|' || c == '\\' {
                out.push('\\');
            }
            out.push(c);
            assert(out@ + glob_from(p, i + 1) =~= before + glob_from(p, i as int));
            i += 1;
        }
    }
    out.append("$");
    out
}

/// A compiled path pattern.
#[derive(Debug)]
pub struct PathPattern {
    re: Regex,
}

impl PathPattern {
    /// The regular expression of the pattern.
    pub closed spec fn source(&self) -> Seq<char> {
        source_of(self.re)
    }

    /// Whether the pattern matches a path.
    pub fn is_match(&self, path: &str) -> (r: bool)
        ensures
            r == regex_hit(self.source(), path@),
    {
        regex_is_match(&self.re, path)
    }
}

/// Compiles a path pattern.
pub fn glob_to_regex(pattern: &str) -> (r: Result<PathPattern, String>)
    ensures
        match r {
            Ok(p) => regex_error(glob_regex(pattern@)) is None && p.source() == glob_regex(pattern@),
            Err(e) => regex_error(glob_regex(pattern@)) is Some && e@ == "invalid glob pattern: "@
                + regex_error(glob_regex(pattern@))->0,
        },
{
    let source = glob_source(pattern);
    match regex_new(source.as_str()) {
        Ok(re) => Ok(PathPattern { re }),
        Err(e) => Err(cat("invalid glob pattern: ", e.as_str())),
    }
}

/// A file found by walking a directory: its path from the root of the walk, its
/// full path, and when it was last changed, where that is known.
#[derive(Debug)]
pub struct FoundFile {
    pub relative: String,
    pub path: String,
    pub modified: Option<u128>,
}

/// The positions below `upto` that are hits, in order.
pub open spec fn hit_positions(hits: Seq<bool>, upto: int) -> Seq<usize>
    decreases upto,
{
    if upto <= 0 {
        Seq::empty()
    } else if hits[upto - 1] {
        hit_positions(hits, upto - 1).push((upto - 1) as usize)
    } else {
        hit_positions(hits, upto - 1)
    }
}

/// At most the first `max` elements.
pub open spec fn first_of<T>(s: Seq<T>, max: nat) -> Seq<T> {
    if s.len() <= max {
        s
    } else {
        s.take(max as int)
    }
}

/// A path separator as a character before all others.
pub open spec fn segment_char(c: char) -> char {
    if c == '/' {
        '\0'
    } else {
        c
    }
}

/// A path by which files are ordered segment by segment.
pub open spec fn path_text(p: Seq<char>) -> Seq<char> {
    Seq::new(p.len(), |i: int| segment_char(p[i]))
}

/// The first of two chosen files is listed before the second: the newer one where the times
/// of change of both are known, else the one whose path comes first; where that decides
/// nothing, the one that was found first.
pub open spec fn file_before(files: Seq<FoundFile>, chosen: Seq<usize>, i: int, j: int) -> bool {
    let a = files[chosen[i] as int];
    let b = files[chosen[j] as int];
    if a.modified is Some && b.modified is Some {
        a.modified->0 > b.modified->0 || (a.modified->0 == b.modified->0 && i < j)
    } else {
        text_less(path_text(a.path@), path_text(b.path@)) || (path_text(a.path@) == path_text(b.path@)
            && i < j)
    }
}

/// The chosen files can be listed so that each pair is in order. Times and paths can go against
/// each other where some files have a time and some have none.
pub open spec fn consistent(files: Seq<FoundFile>, chosen: Seq<usize>) -> bool {
    forall|i: int, j: int, k: int|
        0 <= i < chosen.len() && 0 <= j < chosen.len() && 0 <= k < chosen.len()
            && #[trigger] file_before(files, chosen, i, j) && #[trigger] file_before(
            files,
            chosen,
            j,
            k,
        ) ==> file_before(files, chosen, i, k)
}

/// Each pair of the listed files is in order.
pub open spec fn in_order(files: Seq<FoundFile>, chosen: Seq<usize>, order: Seq<usize>) -> bool {
    forall|a: int, b: int|
        0 <= a < b < order.len() ==> file_before(
            files,
            chosen,
            #[trigger] order[a] as int,
            #[trigger] order[b] as int,
        )
}

/// `order` arranges the chosen files: each pair in order where that can be, else by path.
pub open spec fn arranges(files: Seq<FoundFile>, chosen: Seq<usize>, order: Seq<usize>) -> bool {
    if consistent(files, chosen) {
        &&& order.len() == chosen.len()
        &&& forall|a: int| 0 <= a < order.len() ==> #[trigger] order[a] < chosen.len()
        &&& in_order(files, chosen, order)
    } else {
        is_order(path_keys(files, chosen), order)
    }
}

/// The keys by which the chosen files are ordered by path.
pub open spec fn path_keys(files: Seq<FoundFile>, chosen: Seq<usize>) -> Seq<(u128, Seq<char>)> {
    Seq::new(chosen.len(), |i: int| (0u128, path_text(files[chosen[i] as int].path@)))
}

proof fn lemma_one_before(files: Seq<FoundFile>, chosen: Seq<usize>, i: int, j: int)
    ensures
        !(file_before(files, chosen, i, j) && file_before(files, chosen, j, i)),
        i != j ==> file_before(files, chosen, i, j) || file_before(files, chosen, j, i),
{
    lemma_text_less_total(
        path_text(files[chosen[i] as int].path@),
        path_text(files[chosen[j] as int].path@),
    );
}

proof fn lemma_in_order_is_consistent(files: Seq<FoundFile>, chosen: Seq<usize>, order: Seq<usize>)
    requires
        in_order(files, chosen, order),
        forall|v: usize| v < chosen.len() ==> #[trigger] order.contains(v),
        chosen.len() <= usize::MAX,
    ensures
        consistent(files, chosen),
{
    assert forall|i: int, j: int, k: int|
        0 <= i < chosen.len() && 0 <= j < chosen.len() && 0 <= k < chosen.len()
            && #[trigger] file_before(files, chosen, i, j) && #[trigger] file_before(
            files,
            chosen,
            j,
            k,
        ) implies file_before(files, chosen, i, k) by {
        assert(order.contains(i as usize) && order.contains(j as usize) && order.contains(k as usize));
        let a = choose|a: int| 0 <= a < order.len() && order[a] == i as usize;
        let b = choose|b: int| 0 <= b < order.len() && order[b] == j as usize;
        let c = choose|c: int| 0 <= c < order.len() && order[c] == k as usize;
        lemma_one_before(files, chosen, i, j);
        lemma_one_before(files, chosen, j, k);
        if b <= a {
            if b < a {
                assert(file_before(files, chosen, order[b] as int, order[a] as int));
            }
        }
        if c <= b {
            if c < b {
                assert(file_before(files, chosen, order[c] as int, order[b] as int));
            }
        }
        assert(file_before(files, chosen, order[a] as int, order[c] as int));
    }
}

/// Where the times of change of all the chosen files are known, or of none of them, each pair
/// of the listed files is in order: the newest first, or by path.
pub proof fn law_known_times_decide(files: Seq<FoundFile>, chosen: Seq<usize>)
    requires
        (forall|i: int| 0 <= i < chosen.len() ==> files[#[trigger] chosen[i] as int].modified is Some)
            || (forall|i: int|
            0 <= i < chosen.len() ==> files[#[trigger] chosen[i] as int].modified is None),
    ensures
        consistent(files, chosen),
{
    assert forall|i: int, j: int, k: int|
        0 <= i < chosen.len() && 0 <= j < chosen.len() && 0 <= k < chosen.len()
            && #[trigger] file_before(files, chosen, i, j) && #[trigger] file_before(
            files,
            chosen,
            j,
            k,
        ) implies file_before(files, chosen, i, k) by {
        let a = path_text(files[chosen[i] as int].path@);
        let b = path_text(files[chosen[j] as int].path@);
        let c = path_text(files[chosen[k] as int].path@);
        lemma_text_less_transitive(a, b, c);
        lemma_text_less_total(a, b);
        lemma_text_less_total(b, c);
        lemma_text_less_total(a, c);
    }
}

fn path_letters(p: &str) -> (r: Vec<char>)
    ensures
        r@ == path_text(p@),
{
    let v = to_chars(p);
    let mut text: Vec<char> = Vec::new();
    let mut i: usize = 0;
    while i < v.len()
        invariant
            i <= v@.len(),
            v@ == p@,
            text@.len() == i,
            forall|k: int| 0 <= k < i ==> #[trigger] text@[k] == segment_char(p@[k]),
        decreases v@.len() - i,
    {
        let c: char = if v[i] == '/' {
            '\0'
        } else {
            v[i]
        };
        text.push(c);
        i += 1;
    }
    assert(text@ =~= path_text(p@));
    text
}

/// Whether the file at position `i` of the chosen ones is listed before that at `j`.
fn stands_before(files: &Vec<FoundFile>, chosen: &Vec<usize>, keys: &Vec<SortKey>, i: usize, j: usize) -> (r:
    bool)
    requires
        i < chosen@.len(),
        j < chosen@.len(),
        forall|k: int| 0 <= k < chosen@.len() ==> #[trigger] chosen@[k] < files@.len(),
        keys_view(keys@) == path_keys(files@, chosen@),
    ensures
        r == file_before(files@, chosen@, i as int, j as int),
{
    proof {
        let ks = path_keys(files@, chosen@);
        assert(keys_view(keys@).len() == keys@.len());
        assert(keys_view(keys@)[i as int] == ks[i as int]);
        assert(keys_view(keys@)[j as int] == ks[j as int]);
        lemma_text_less_total(ks[i as int].1, ks[j as int].1);
    }
    match (files[chosen[i]].modified, files[chosen[j]].modified) {
        (Some(a), Some(b)) => a > b || (a == b && i < j),
        _ => less_text(&keys[i].text, &keys[j].text) || (!less_text(&keys[j].text, &keys[i].text)
            && i < j),
    }
}

/// Puts each of the chosen files behind the last one that is listed before it.
fn pair_order(files: &Vec<FoundFile>, chosen: &Vec<usize>, keys: &Vec<SortKey>) -> (r: Vec<usize>)
    requires
        forall|k: int| 0 <= k < chosen@.len() ==> #[trigger] chosen@[k] < files@.len(),
        keys_view(keys@) == path_keys(files@, chosen@),
    ensures
        r@.len() == chosen@.len(),
        forall|a: int| 0 <= a < r@.len() ==> #[trigger] r@[a] < chosen@.len(),
        forall|v: usize| v < chosen@.len() ==> #[trigger] r@.contains(v),
        consistent(files@, chosen@) ==> in_order(files@, chosen@, r@),
{
    let mut out: Vec<usize> = Vec::new();
    let mut n: usize = 0;
    while n < chosen.len()
        invariant
            n <= chosen@.len(),
            forall|k: int| 0 <= k < chosen@.len() ==> #[trigger] chosen@[k] < files@.len(),
            keys_view(keys@) == path_keys(files@, chosen@),
            out@.len() == n,
            forall|a: int| 0 <= a < out@.len() ==> #[trigger] out@[a] < n,
            forall|v: usize| v < n ==> #[trigger] out@.contains(v),
            consistent(files@, chosen@) ==> in_order(files@, chosen@, out@),
        decreases chosen@.len() - n,
    {
        let mut k: usize = out.len();
        while k > 0 && stands_before(files, chosen, keys, n, out[k - 1])
            invariant
                k <= out@.len(),
                n < chosen@.len(),
                forall|k: int| 0 <= k < chosen@.len() ==> #[trigger] chosen@[k] < files@.len(),
                keys_view(keys@) == path_keys(files@, chosen@),
                forall|a: int| 0 <= a < out@.len() ==> #[trigger] out@[a] < n,
                forall|a: int|
                    k <= a < out@.len() ==> file_before(
                        files@,
                        chosen@,
                        n as int,
                        #[trigger] out@[a] as int,
                    ),
            decreases k,
        {
            k -= 1;
        }
        let ghost before = out@;
        out.insert(k, n);
        proof {
            assert forall|v: usize| v < n + 1 implies #[trigger] out@.contains(v) by {
                if v == n {
                    assert(out@[k as int] == v);
                } else {
                    assert(before.contains(v));
                    let m = choose|m: int| 0 <= m < before.len() && before[m] == v;
                    if m < k {
                        assert(out@[m] == v);
                    } else {
                        assert(out@[m + 1] == v);
                    }
                }
            }
            if consistent(files@, chosen@) {
                if k > 0 {
                    lemma_one_before(files@, chosen@, n as int, before[k - 1] as int);
                }
                assert forall|a: int, b: int| 0 <= a < b < out@.len() implies file_before(
                    files@,
                    chosen@,
                    #[trigger] out@[a] as int,
                    #[trigger] out@[b] as int,
                ) by {
                    if b < k {
                        assert(file_before(files@, chosen@, before[a] as int, before[b] as int));
                    } else if b == k {
                        if a < k - 1 {
                            assert(file_before(files@, chosen@, before[a] as int, before[k - 1] as int));
                        }
                    } else if a < k {
                        assert(file_before(files@, chosen@, before[a] as int, before[b - 1] as int));
                    } else if a == k {
                        assert(file_before(files@, chosen@, n as int, before[b - 1] as int));
                    } else {
                        assert(file_before(files@, chosen@, before[a - 1] as int, before[b - 1] as int));
                    }
                }
            }
        }
        n += 1;
    }
    out
}

/// Whether each pair of the listed files is in order.
fn all_in_order(files: &Vec<FoundFile>, chosen: &Vec<usize>, keys: &Vec<SortKey>, order: &Vec<usize>) -> (r:
    bool)
    requires
        forall|k: int| 0 <= k < chosen@.len() ==> #[trigger] chosen@[k] < files@.len(),
        forall|a: int| 0 <= a < order@.len() ==> #[trigger] order@[a] < chosen@.len(),
        keys_view(keys@) == path_keys(files@, chosen@),
    ensures
        r == in_order(files@, chosen@, order@),
{
    let mut b: usize = 0;
    while b < order.len()
        invariant
            b <= order@.len(),
            forall|k: int| 0 <= k < chosen@.len() ==> #[trigger] chosen@[k] < files@.len(),
            forall|a: int| 0 <= a < order@.len() ==> #[trigger] order@[a] < chosen@.len(),
            keys_view(keys@) == path_keys(files@, chosen@),
            forall|x: int, y: int|
                0 <= x < y < b ==> file_before(
                    files@,
                    chosen@,
                    #[trigger] order@[x] as int,
                    #[trigger] order@[y] as int,
                ),
        decreases order@.len() - b,
    {
        let mut a: usize = 0;
        while a < b
            invariant
                a <= b < order@.len(),
                forall|k: int| 0 <= k < chosen@.len() ==> #[trigger] chosen@[k] < files@.len(),
                forall|a: int| 0 <= a < order@.len() ==> #[trigger] order@[a] < chosen@.len(),
                keys_view(keys@) == path_keys(files@, chosen@),
                forall|x: int|
                    0 <= x < a ==> file_before(
                        files@,
                        chosen@,
                        #[trigger] order@[x] as int,
                        order@[b as int] as int,
                    ),
            decreases b - a,
        {
            if !stands_before(files, chosen, keys, order[a], order[b]) {
                assert(!file_before(files@, chosen@, order@[a as int] as int, order@[b as int] as int));
                return false;
            }
            a += 1;
        }
        b += 1;
    }
    true
}

/// The relative paths of the chosen files in the given order.
pub open spec fn listed_names(files: Seq<FoundFile>, chosen: Seq<usize>, order: Seq<usize>) -> Seq<
    Seq<char>,
> {
    Seq::new(order.len(), |i: int| files[chosen[order[i] as int] as int].relative@)
}

/// `out` lists the paths of the chosen files as they are arranged.
pub open spec fn is_listing(files: Seq<FoundFile>, chosen: Seq<usize>, out: Seq<char>) -> bool {
    exists|order: Seq<usize>|
        #[trigger] arranges(files, chosen, order) && out == join_of(
            listed_names(files, chosen, order),
            "\n"@,
        )
}

/// The positions of hits, at most `max` of them.
pub fn choose_hits(hits: &Vec<bool>, max: usize) -> (r: Vec<usize>)
    ensures
        r@ == first_of(hit_positions(hits@, hits@.len() as int), max as nat),
{
    let mut out: Vec<usize> = Vec::new();
    let mut i: usize = 0;
    while i < hits.len()
        invariant
            i <= hits@.len(),
            out@ == first_of(hit_positions(hits@, i as int), max as nat),
        decreases hits@.len() - i,
    {
        let ghost before = hit_positions(hits@, i as int);
        if hits[i] && out.len() < max {
            out.push(i);
        }
        proof {
            let after = hit_positions(hits@, i + 1);
            if hits@[i as int] {
                assert(after == before.push(i));
                if before.len() < max {
                    assert(out@ =~= first_of(after, max as nat));
                } else {
                    assert(first_of(after, max as nat) =~= first_of(before, max as nat));
                }
            }
        }
        i += 1;
    }
    out
}

/// The listing of the files that the hits name: at most `max` of them, in the order
/// of the walk, are taken and then ordered.
pub fn glob_listing(files: &Vec<FoundFile>, hits: &Vec<bool>, max: usize) -> (r: String)
    requires
        hits@.len() == files@.len(),
    ensures
        is_listing(
            files@,
            first_of(hit_positions(hits@, hits@.len() as int), max as nat),
            r@,
        ),
{
    let chosen = choose_hits(hits, max);
    let total: usize = hits.len();
    proof {
        lemma_hit_positions(hits@, hits@.len() as int);
        let all = hit_positions(hits@, hits@.len() as int);
        assert forall|k: int| 0 <= k < chosen@.len() implies #[trigger] chosen@[k] < files@.len() by {
            assert(chosen@[k] == all[k]);
        }
    }
    let mut keys: Vec<SortKey> = Vec::new();
    let mut i: usize = 0;
    while i < chosen.len()
        invariant
            i <= chosen@.len(),
            forall|k: int| 0 <= k < chosen@.len() ==> #[trigger] chosen@[k] < files@.len(),
            keys@.len() == i,
            forall|k: int|
                0 <= k < i ==> crate::order::key_view(#[trigger] keys@[k]) == path_keys(
                    files@,
                    chosen@,
                )[k],
        decreases chosen@.len() - i,
    {
        let text = path_letters(files[chosen[i]].path.as_str());
        keys.push(SortKey { rank: 0, text });
        i += 1;
    }
    assert(keys_view(keys@) =~= path_keys(files@, chosen@));
    let pairs = pair_order(files, &chosen, &keys);
    let order = if all_in_order(files, &chosen, &keys, &pairs) {
        proof {
            lemma_in_order_is_consistent(files@, chosen@, pairs@);
        }
        pairs
    } else {
        sorted_order(&keys)
    };
    assert(arranges(files@, chosen@, order@));
    let mut names: Vec<String> = Vec::new();
    let ghost listed = listed_names(files@, chosen@, order@);
    let mut k: usize = 0;
    assert(texts(names@) =~= listed.take(0));
    while k < order.len()
        invariant
            k <= order@.len(),
            order@.len() == chosen@.len(),
            forall|k: int| 0 <= k < chosen@.len() ==> #[trigger] chosen@[k] < files@.len(),
            forall|k: int| 0 <= k < order@.len() ==> #[trigger] order@[k] < chosen@.len(),
            listed == listed_names(files@, chosen@, order@),
            texts(names@) == listed.take(k as int),
        decreases order@.len() - k,
    {
        let ghost before = texts(names@);
        let name = files[chosen[order[k]]].relative.clone();
        names.push(name);
        assert(texts(names@) =~= before.push(listed[k as int]));
        assert(listed.take(k + 1) =~= listed.take(k as int).push(listed[k as int]));
        k += 1;
    }
    assert(listed.take(k as int) =~= listed);
    let out = join(&names, "\n");
    out
}

/// The hit positions are hits, ascending and in range.
pub proof fn lemma_hit_positions(hits: Seq<bool>, upto: int)
    requires
        0 <= upto <= hits.len(),
        hits.len() <= usize::MAX,
    ensures
        forall|k: int|
            0 <= k < hit_positions(hits, upto).len() ==> (#[trigger] hit_positions(hits, upto)[k])
                < upto && hits[hit_positions(hits, upto)[k] as int],
    decreases upto,
{
    if upto > 0 {
        lemma_hit_positions(hits, upto - 1);
        let before = hit_positions(hits, upto - 1);
        let all = hit_positions(hits, upto);
        assert forall|k: int| 0 <= k < all.len() implies (#[trigger] all[k]) < upto
            && hits[all[k] as int] by {
            if k < before.len() {
                assert(all[k] == before[k]);
            }
        }
    }
}

/// The answer to a call: which files the pattern hits among those found, listed.
pub fn glob_answer(args: &GlobArgs, files: &Vec<FoundFile>, max: usize) -> (r: Result<String, String>)
    ensures
        match r {
            Ok(out) => {
                &&& regex_error(glob_regex(args.pattern@)) is None
                &&& is_listing(
                    files@,
                    first_of(
                        hit_positions(
                            Seq::new(
                                files@.len(),
                                |i: int|
                                    regex_hit(glob_regex(args.pattern@), files@[i].relative@),
                            ),
                            files@.len() as int,
                        ),
                        max as nat,
                    ),
                    out@,
                )
            },
            Err(e) => regex_error(glob_regex(args.pattern@)) is Some && e@
                == "invalid glob pattern: "@ + regex_error(glob_regex(args.pattern@))->0,
        },
{
    let source = glob_source(args.pattern.as_str());
    let mut names: Vec<String> = Vec::new();
    let mut i: usize = 0;
    while i < files.len()
        invariant
            i <= files@.len(),
            names@.len() == i,
            forall|k: int| 0 <= k < i ==> (#[trigger] names@[k])@ == files@[k].relative@,
        decreases files@.len() - i,
    {
        names.push(files[i].relative.clone());
        i += 1;
    }
    match regex_hits(source.as_str(), &names) {
        Ok(hits) => {
            assert(hits@ =~= Seq::new(
                files@.len(),
                |i: int| regex_hit(glob_regex(args.pattern@), files@[i].relative@),
            ));
            Ok(glob_listing(files, &hits, max))
        },
        Err(e) => Err(cat("invalid glob pattern: ", e.as_str())),
    }
}

/// The positions of hits are those of all hits and of nothing else, each once and ascending.
pub proof fn law_hits_are_found_in_order(hits: Seq<bool>, upto: int)
    requires
        0 <= upto <= hits.len(),
        hits.len() <= usize::MAX,
    ensures
        forall|k: int|
            0 <= k < hit_positions(hits, upto).len() ==> (#[trigger] hit_positions(hits, upto)[k])
                < upto && hits[hit_positions(hits, upto)[k] as int],
        forall|j: int, k: int|
            0 <= j < k < hit_positions(hits, upto).len() ==> #[trigger] hit_positions(hits, upto)[j]
                < #[trigger] hit_positions(hits, upto)[k],
        forall|i: int|
            0 <= i < upto && #[trigger] hits[i] ==> exists|k: int|
                0 <= k < hit_positions(hits, upto).len() && #[trigger] hit_positions(hits, upto)[k] == i,
    decreases upto,
{
    if upto > 0 {
        law_hits_are_found_in_order(hits, upto - 1);
        let before = hit_positions(hits, upto - 1);
        let all = hit_positions(hits, upto);
        assert forall|i: int| 0 <= i < upto && #[trigger] hits[i] implies exists|k: int|
            0 <= k < all.len() && #[trigger] all[k] == i by {
            if i == upto - 1 {
                assert(all[all.len() - 1] == i);
            } else {
                let k = choose|k: int| 0 <= k < before.len() && #[trigger] before[k] == i;
                assert(all[k] == before[k]);
            }
        }
    }
}

/// A listing holds the relative path of each of the chosen files, each once, and nothing but
/// them: on a line of its own, as many as were chosen. `order` says which file stands where; no
/// file stands behind an older one where the times of change of all of them are known.
pub proof fn law_listing_holds_every_file(files: Seq<FoundFile>, chosen: Seq<usize>, out: Seq<char>) -> (order:
    Seq<usize>)
    requires
        is_listing(files, chosen, out),
        chosen.len() <= usize::MAX,
    ensures
        order.len() == chosen.len(),
        order.no_duplicates(),
        forall|v: usize| v < chosen.len() ==> #[trigger] order.contains(v),
        out == join_of(
            Seq::new(order.len(), |k: int| files[chosen[order[k] as int] as int].relative@),
            "\n"@,
        ),
        forall|i: int|
            0 <= i < chosen.len() ==> crate::text::occurs(
                out,
                files[#[trigger] chosen[i] as int].relative@,
            ),
        (forall|i: int| 0 <= i < chosen.len() ==> files[#[trigger] chosen[i] as int].modified is Some)
            ==> forall|a: int, b: int|
            0 <= a < b < order.len() ==> files[chosen[#[trigger] order[a] as int] as int].modified->0
                >= files[chosen[#[trigger] order[b] as int] as int].modified->0,
{
    let order = choose|order: Seq<usize>|
        #[trigger] arranges(files, chosen, order) && out == join_of(
            listed_names(files, chosen, order),
            "\n"@,
        );
    if consistent(files, chosen) {
        assert forall|i: int, j: int| 0 <= i < order.len() && 0 <= j < order.len() && i != j implies order[i]
            != order[j] by {
            if order[i] == order[j] {
                lemma_one_before(files, chosen, order[i] as int, order[i] as int);
                if i < j {
                    assert(file_before(files, chosen, order[i] as int, order[j] as int));
                } else {
                    assert(file_before(files, chosen, order[j] as int, order[i] as int));
                }
            }
        }
        lemma_distinct_is_complete(order, chosen.len());
    } else {
        lemma_order_is_complete(path_keys(files, chosen), order);
    }
    let names = listed_names(files, chosen, order);
    assert(names =~= Seq::new(order.len(), |k: int| files[chosen[order[k] as int] as int].relative@));
    law_joining_keeps_the_parts(names, "\n"@);
    assert forall|i: int| 0 <= i < chosen.len() implies crate::text::occurs(
        out,
        files[#[trigger] chosen[i] as int].relative@,
    ) by {
        let v = i as usize;
        assert(order.contains(v));
        let k = choose|k: int| 0 <= k < order.len() && order[k] == v;
        lemma_in_order_occurs(out, names, k);
        assert(names[k] == files[chosen[i] as int].relative@);
    }
    if forall|i: int| 0 <= i < chosen.len() ==> files[#[trigger] chosen[i] as int].modified is Some {
        law_known_times_decide(files, chosen);
        assert forall|a: int, b: int| 0 <= a < b < order.len() implies files[chosen[#[trigger] order[a] as int] as int].modified->0
            >= files[chosen[#[trigger] order[b] as int] as int].modified->0 by {
            assert(file_before(files, chosen, order[a] as int, order[b] as int));
            assert(files[chosen[order[a] as int] as int].modified is Some);
            assert(files[chosen[order[b] as int] as int].modified is Some);
        }
    }
    order
}

/// The regular expression of a path pattern is anchored at both ends, and a pattern of plain
/// characters stands in it as it is.
pub proof fn law_plain_patterns_stand_for_themselves(p: Seq<char>)
    requires
        forall|i: int|
            0 <= i < p.len() ==> !is_meta(#[trigger] p[i]) && p[i] != '*' && p[i] != '?',
    ensures
        glob_regex(p) == "^"@ + p + "$"@,
{
    lemma_plain_from(p, 0);
    assert(p.skip(0) =~= p);
    assert("^"@ + (p + "$"@) =~= "^"@ + p + "$"@);
}

proof fn lemma_plain_from(p: Seq<char>, i: int)
    requires
        0 <= i <= p.len(),
        forall|i: int|
            0 <= i < p.len() ==> !is_meta(#[trigger] p[i]) && p[i] != '*' && p[i] != '?',
    ensures
        glob_from(p, i) == p.skip(i) + "$"@,
    decreases p.len() - i,
{
    if i < p.len() {
        lemma_plain_from(p, i + 1);
        assert(!is_meta(p[i]));
        assert(seq![p[i]] + (p.skip(i + 1) + "$"@) =~= p.skip(i) + "$"@);
    } else {
        assert(p.skip(i) + "$"@ =~= "$"@);
    }
}

} // verus!
