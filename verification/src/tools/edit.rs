//! The `edit` tool: finding the text to replace, exactly or with tolerance for
//! white space, replacing it, and telling what was done.
use vstd::prelude::*;
use vstd::string::StrSliceExecFns;
use crate::splice::{
    lemma_occurrences, lemma_occurrences_exist, occurrences, occurrences_from, replace, replace_of,
    spans, splice, splice_from,
};
use crate::platform::{lossy, lossy_of};
use crate::text::{
    byte_len, count_before, count_of, decimal, decimal_of, find_char, fit, fit_of, head, join, join_of,
    lemma_count_take, lemma_find_char, lemma_fit, lemma_split_len,
    lines, lines_of, part, prefixed, prefixed_of, same, split, split_of, take_chars, texts, to_chars,
    trim, trim_of, words, words_of,
};
use crate::tools::bash::paths::is_absolute_of;
use crate::tools::cache::{check_read, may_change, unread_text, ToolCache};
use crate::tools::{require_absolute_path, AskSender, LspManager, PermCheck};
use crate::tools::ranges::{
    byte_spans, disjoint_of, keep_disjoint_ranges, lemma_disjoint_well_spaced, to_bytes,
};

verus! {

/// The `edit` tool.
pub struct EditTool {
    pub permission: Option<PermCheck>,
    pub ask_tx: Option<AskSender>,
    pub cache: Option<ToolCache>,
    pub lsp_manager: Option<LspManager>,
}

impl EditTool {
    /// The tool without a cache and without language servers.
    pub fn new(permission: Option<PermCheck>, ask_tx: Option<AskSender>) -> (r: Self)
        ensures
            r.permission == permission,
            r.ask_tx == ask_tx,
            r.cache is None,
            r.lsp_manager is None,
    {
        EditTool { permission, ask_tx, cache: None, lsp_manager: None }
    }

    /// The tool with a cache that its edits clear, and with the language servers to
    /// tell of them.
    pub fn with_cache(
        permission: Option<PermCheck>,
        ask_tx: Option<AskSender>,
        cache: ToolCache,
        lsp_manager: Option<LspManager>,
    ) -> (r: Self)
        ensures
            r.permission == permission,
            r.ask_tx == ask_tx,
            r.cache == Some(cache),
            r.lsp_manager == lsp_manager,
    {
        EditTool { permission, ask_tx, cache: Some(cache), lsp_manager }
    }
}

/// Position at which line `i` starts, for lines joined by one separator each.
pub open spec fn line_start(ls: Seq<Seq<char>>, i: int) -> int
    decreases i,
{
    if i <= 0 {
        0
    } else {
        line_start(ls, i - 1) + ls[i - 1].len() + 1
    }
}

/// The stretch of the `n` lines from line `i` on, without the line feed after
/// the last of them.
pub open spec fn block_of(ls: Seq<Seq<char>>, i: int, n: int) -> (int, int) {
    (line_start(ls, i), line_start(ls, i + n - 1) + ls[i + n - 1].len())
}

/// The text of the `n` lines from line `i` on.
pub open spec fn block_text(ls: Seq<Seq<char>>, i: int, n: int) -> Seq<char> {
    join_of(ls.subrange(i, i + n), seq!['\n'])
}

/// From line `i` on, the lines agree with `fs` up to white space around them.
pub open spec fn trimmed_hit(ls: Seq<Seq<char>>, fs: Seq<Seq<char>>, i: int) -> bool {
    &&& i + fs.len() <= ls.len()
    &&& forall|k: int| 0 <= k < fs.len() ==> trim_of(ls[i + k]) == trim_of(#[trigger] fs[k])
}

/// The blocks that start before line `upto` and agree with `fs` line by line up
/// to white space around each line.
pub open spec fn trimmed_blocks(ls: Seq<Seq<char>>, fs: Seq<Seq<char>>, upto: int) -> Seq<(int, int)>
    decreases upto,
{
    if upto <= 0 {
        Seq::empty()
    } else if trimmed_hit(ls, fs, upto - 1) {
        trimmed_blocks(ls, fs, upto - 1).push(block_of(ls, upto - 1, fs.len() as int))
    } else {
        trimmed_blocks(ls, fs, upto - 1)
    }
}

/// The words of a text with one space between neighbours.
pub open spec fn normal_of(s: Seq<char>) -> Seq<char> {
    join_of(words_of(s), seq![' '])
}

/// The block of `n` lines from line `i` on has the words `target`.
pub open spec fn normal_hit(ls: Seq<Seq<char>>, target: Seq<char>, i: int, n: int) -> bool {
    i + n <= ls.len() && normal_of(block_text(ls, i, n)) == target
}

/// The least number of lines from `n` up to `last` with which the block at line
/// `i` has the words `target`.
pub open spec fn shortest_hit(ls: Seq<Seq<char>>, target: Seq<char>, i: int, n: int, last: int) -> Option<
    int,
>
    decreases last - n + 1,
{
    if n > last {
        None
    } else if normal_hit(ls, target, i, n) {
        Some(n)
    } else {
        shortest_hit(ls, target, i, n + 1, last)
    }
}

/// For each line before `upto`, the shortest block of `m` to `m + 5` lines there
/// that has the words `target`.
pub open spec fn normal_blocks(ls: Seq<Seq<char>>, m: int, target: Seq<char>, upto: int) -> Seq<(int, int)>
    decreases upto,
{
    if upto <= 0 {
        Seq::empty()
    } else {
        match shortest_hit(ls, target, upto - 1, m, m + 5) {
            Some(n) => normal_blocks(ls, m, target, upto - 1).push(block_of(ls, upto - 1, n)),
            None => normal_blocks(ls, m, target, upto - 1),
        }
    }
}

/// Number of white space characters that a line starts with.
pub open spec fn indent_of(l: Seq<char>) -> nat {
    (l.len() - crate::text::trim_start_of(l).len()) as nat
}

/// A line of white space alone.
pub open spec fn is_blank(l: Seq<char>) -> bool {
    trim_of(l).len() == 0
}

/// The least indentation among the lines that are not blank.
pub open spec fn least_indent(ls: Seq<Seq<char>>) -> Option<nat>
    decreases ls.len(),
{
    if ls.len() == 0 {
        None
    } else {
        let before = least_indent(ls.drop_last());
        let here = indent_of(ls.last());
        if is_blank(ls.last()) {
            before
        } else {
            match before {
                Some(b) if b <= here => Some(b),
                _ => Some(here),
            }
        }
    }
}

/// A line without its first `n` characters; a blank line as it is.
pub open spec fn outdented(l: Seq<char>, n: nat) -> Seq<char> {
    if is_blank(l) {
        l
    } else {
        l.skip(n as int)
    }
}

/// The text with the indentation that its lines share taken away.
pub open spec fn flush_of(s: Seq<char>) -> Seq<char> {
    let ls = split_of(s, '\n');
    let n = match least_indent(ls) {
        Some(n) => n,
        None => 0,
    };
    join_of(Seq::new(ls.len(), |i: int| outdented(ls[i], n)), seq!['\n'])
}

/// The blocks of `m` lines that start before line `upto` and equal `target` once
/// shared indentation is taken away.
pub open spec fn flush_blocks(ls: Seq<Seq<char>>, m: int, target: Seq<char>, upto: int) -> Seq<(int, int)>
    decreases upto,
{
    if upto <= 0 {
        Seq::empty()
    } else if flush_of(block_text(ls, upto - 1, m)) == target {
        flush_blocks(ls, m, target, upto - 1).push(block_of(ls, upto - 1, m))
    } else {
        flush_blocks(ls, m, target, upto - 1)
    }
}

/// What the line-trimmed search finds for `old` in `s`.
pub open spec fn line_trimmed(s: Seq<char>, old: Seq<char>) -> Seq<(int, int)> {
    let ls = split_of(s, '\n');
    let fs = split_of(old, '\n');
    trimmed_blocks(ls, fs, ls.len() - fs.len() + 1)
}

/// What the whitespace-normalized search finds; `old` has at least one word.
pub open spec fn whitespace_normalized(s: Seq<char>, old: Seq<char>) -> Seq<(int, int)> {
    let ls = split_of(s, '\n');
    normal_blocks(ls, split_of(old, '\n').len() as int, normal_of(old), ls.len() as int)
}

/// What the indentation-flexible search finds for `old` in `s`.
pub open spec fn indentation_flexible(s: Seq<char>, old: Seq<char>) -> Seq<(int, int)> {
    let ls = split_of(s, '\n');
    let m = split_of(old, '\n').len() as int;
    flush_blocks(ls, m, flush_of(old), ls.len() - m + 1)
}

proof fn lemma_line_start_shift(head: Seq<char>, rest: Seq<Seq<char>>, i: int)
    requires
        0 <= i <= rest.len(),
    ensures
        line_start(seq![head] + rest, i + 1) == head.len() + 1 + line_start(rest, i),
    decreases i,
{
    if i > 0 {
        lemma_line_start_shift(head, rest, i - 1);
        assert((seq![head] + rest)[i] == rest[i - 1]);
    } else {
        assert(line_start(seq![head] + rest, 0) == 0);
        assert((seq![head] + rest)[0] == head);
    }
}

/// Each piece of a split text lies in the text where `line_start` says.
pub proof fn lemma_split_positions(s: Seq<char>, c: char, i: int)
    requires
        0 <= i < split_of(s, c).len(),
    ensures
        0 <= line_start(split_of(s, c), i),
        line_start(split_of(s, c), i) + split_of(s, c)[i].len() <= s.len(),
        s.subrange(
            line_start(split_of(s, c), i),
            line_start(split_of(s, c), i) + split_of(s, c)[i].len(),
        ) == split_of(s, c)[i],
        i + 1 < split_of(s, c).len() ==> line_start(split_of(s, c), i) + split_of(s, c)[i].len()
            < s.len() && s[line_start(split_of(s, c), i) + split_of(s, c)[i].len()] == c,
    decreases s.len(),
{
    lemma_find_char(s, c);
    let k = find_char(s, c);
    let ls = split_of(s, c);
    if k >= s.len() {
        assert(ls == seq![s]);
        assert(s.subrange(0, s.len() as int) =~= s);
    } else {
        let t = s.skip(k + 1);
        let rest = split_of(t, c);
        assert(ls == seq![s.take(k)] + rest);
        if i == 0 {
            assert(s.subrange(0, k) =~= s.take(k));
        } else {
            lemma_split_positions(t, c, i - 1);
            lemma_line_start_shift(s.take(k), rest, i - 1);
            assert(ls[i] == rest[i - 1]);
            let a = line_start(rest, i - 1);
            let b = a + rest[i - 1].len();
            assert(s.subrange(k + 1 + a, k + 1 + b) =~= t.subrange(a, b));
            if i < rest.len() {
                assert(s[k + 1 + b] == t[b]);
            }
        }
    }
}

proof fn lemma_line_start_mono(ls: Seq<Seq<char>>, i: int, j: int)
    requires
        0 <= i <= j,
    ensures
        line_start(ls, i) <= line_start(ls, j),
        0 <= line_start(ls, i),
        i < j ==> line_start(ls, i) + ls[i].len() < line_start(ls, j),
    decreases j,
{
    if i < j {
        lemma_line_start_mono(ls, i, j - 1);
    } else if i > 0 {
        lemma_line_start_mono(ls, i - 1, j - 1);
    }
}

/// A block of lines is a stretch of the text and holds those lines.
pub proof fn lemma_block(s: Seq<char>, i: int, n: int)
    requires
        0 <= i,
        0 < n,
        i + n <= split_of(s, '\n').len(),
    ensures
        0 <= block_of(split_of(s, '\n'), i, n).0 <= block_of(split_of(s, '\n'), i, n).1 <= s.len(),
        s.subrange(
            block_of(split_of(s, '\n'), i, n).0,
            block_of(split_of(s, '\n'), i, n).1,
        ) == block_text(split_of(s, '\n'), i, n),
    decreases n,
{
    let ls = split_of(s, '\n');
    let sep = seq!['\n'];
    lemma_split_positions(s, '\n', i + n - 1);
    lemma_line_start_mono(ls, i, i + n - 1);
    let all = ls.subrange(i, i + n);
    let (a, b) = block_of(ls, i, n);
    if n == 1 {
        assert(all =~= seq![ls[i]]);
    } else {
        lemma_block(s, i, n - 1);
        lemma_split_positions(s, '\n', i + n - 2);
        assert(all.drop_last() =~= ls.subrange(i, i + n - 1));
        let e = block_of(ls, i, n - 1).1;
        assert(line_start(ls, i + n - 1) == e + 1);
        assert(s.subrange(a, b) =~= s.subrange(a, e) + sep + s.subrange(e + 1, b));
    }
}

/// Starting positions of the lines of a split text.
fn line_starts(ls: &Vec<String>, s: Ghost<Seq<char>>) -> (r: Vec<usize>)
    requires
        texts(ls@) == split_of(s@, '\n'),
        s@.len() <= usize::MAX,
    ensures
        r@.len() == ls@.len(),
        forall|i: int| 0 <= i < r@.len() ==> #[trigger] r@[i] == line_start(texts(ls@), i),
{
    let mut out: Vec<usize> = Vec::new();
    let mut acc: usize = 0;
    let mut i: usize = 0;
    while i < ls.len()
        invariant
            i <= ls@.len(),
            out@.len() == i,
            texts(ls@) == split_of(s@, '\n'),
            s@.len() <= usize::MAX,
            i < ls@.len() ==> acc == line_start(texts(ls@), i as int),
            forall|k: int| 0 <= k < i ==> #[trigger] out@[k] == line_start(texts(ls@), k),
        decreases ls@.len() - i,
    {
        out.push(acc);
        if i + 1 < ls.len() {
            proof {
                lemma_split_positions(s@, '\n', i as int);
            }
            acc = acc + ls[i].as_str().unicode_len() + 1;
        }
        i += 1;
    }
    out
}

/// The stretch of `n` lines from line `i` on, and its bounds in the text.
fn block(ls: &Vec<String>, starts: &Vec<usize>, s: Ghost<Seq<char>>, i: usize, n: usize) -> (r: (
    usize,
    usize,
))
    requires
        texts(ls@) == split_of(s@, '\n'),
        s@.len() <= usize::MAX,
        starts@.len() == ls@.len(),
        forall|k: int| 0 <= k < starts@.len() ==> #[trigger] starts@[k] == line_start(texts(ls@), k),
        0 < n,
        i + n <= ls@.len(),
    ensures
        (r.0 as int, r.1 as int) == block_of(texts(ls@), i as int, n as int),
        r.0 <= r.1 <= s@.len(),
        s@.subrange(r.0 as int, r.1 as int) == block_text(texts(ls@), i as int, n as int),
{
    let total: usize = ls.len();
    assert(i + n <= total);
    let last: usize = i + (n - 1);
    proof {
        lemma_block(s@, i as int, n as int);
    }
    let m: usize = ls[last].as_str().unicode_len();
    let end: usize = starts[last] + m;
    (starts[i], end)
}

/// Blocks of the text whose lines agree with the lines of `find` up to white
/// space around each line, as stretches of characters.
pub fn line_trimmed_spans(content: &str, find: &str) -> (r: Vec<(usize, usize)>)
    ensures
        spans(r@) == line_trimmed(content@, find@),
        forall|i: int| 0 <= i < r@.len() ==> (#[trigger] r@[i]).0 <= r@[i].1 <= content@.len(),
{
    let v = to_chars(content);
    let total: usize = v.len();
    let ls = split(content, '\n');
    let fs = split(find, '\n');
    let starts = line_starts(&ls, Ghost(content@));
    let ghost lsv = texts(ls@);
    let ghost fsv = texts(fs@);
    let count: usize = ls.len();
    let stop: usize = if fs.len() <= count {
        count - (fs.len() - 1)
    } else {
        0
    };
    let mut out: Vec<(usize, usize)> = Vec::new();
    let mut i: usize = 0;
    while i < stop
        invariant
            i <= stop,
            count == ls@.len(),
            stop > 0 ==> stop + fs@.len() == count + 1,
            stop == 0 ==> fs@.len() > count,
            fs@.len() > 0,
            total == content@.len(),
            lsv == texts(ls@),
            fsv == texts(fs@),
            lsv == split_of(content@, '\n'),
            starts@.len() == ls@.len(),
            forall|k: int| 0 <= k < starts@.len() ==> #[trigger] starts@[k] == line_start(lsv, k),
            spans(out@) == trimmed_blocks(lsv, fsv, i as int),
            forall|i: int|
                0 <= i < out@.len() ==> (#[trigger] out@[i]).0 <= out@[i].1 <= content@.len(),
        decreases stop - i,
    {
        let mut k: usize = 0;
        let mut hit: bool = true;
        while k < fs.len() && hit
            invariant
                k <= fs@.len(),
                count == ls@.len(),
                i + fs@.len() <= count,
                lsv == texts(ls@),
                fsv == texts(fs@),
                hit ==> forall|m: int|
                    0 <= m < k ==> trim_of(lsv[i + m]) == trim_of(#[trigger] fsv[m]),
                !hit ==> !trimmed_hit(lsv, fsv, i as int),
            decreases fs@.len() - k,
        {
            let a = trim(ls[i + k].as_str());
            let b = trim(fs[k].as_str());
            if !same(a.as_str(), b.as_str()) {
                proof {
                    assert(trim_of(lsv[i + k]) != trim_of(fsv[k as int]));
                }
                hit = false;
            }
            k += 1;
        }
        if hit {
            let ghost before = spans(out@);
            let r = block(&ls, &starts, Ghost(content@), i, fs.len());
            out.push(r);
            assert(trimmed_hit(lsv, fsv, i as int));
            assert(spans(out@) =~= before.push((r.0 as int, r.1 as int)));
        }
        i += 1;
    }
    out
}

/// Copy of the text with its words separated by single spaces.
fn normalize(s: &str) -> (r: String)
    ensures
        r@ == normal_of(s@),
{
    let ws = words(s);
    proof {
        reveal_strlit(" ");
        assert(" "@ =~= seq![' ']);
    }
    join(&ws, " ")
}

/// Blocks of the text with the same words as `find`, the shortest one at each
/// line; `None` where `find` has no word.
pub fn whitespace_normalized_spans(content: &str, find: &str) -> (r: Option<Vec<(usize, usize)>>)
    ensures
        r is None <==> normal_of(find@).len() == 0,
        r is Some ==> spans(r->0@) == whitespace_normalized(content@, find@),
        r is Some ==> forall|i: int|
            0 <= i < r->0@.len() ==> (#[trigger] r->0@[i]).0 <= r->0@[i].1 <= content@.len(),
{
    let target = normalize(find);
    if target.as_str().is_empty() {
        return None;
    }
    let v = to_chars(content);
    let total: usize = v.len();
    let ls = split(content, '\n');
    let fs = split(find, '\n');
    let m: usize = fs.len();
    let count: usize = ls.len();
    let starts = line_starts(&ls, Ghost(content@));
    let ghost lsv = texts(ls@);
    let mut out: Vec<(usize, usize)> = Vec::new();
    let mut i: usize = 0;
    while i < count
        invariant
            i <= count,
            count == ls@.len(),
            m > 0,
            total == content@.len(),
            v@ == content@,
            lsv == texts(ls@),
            lsv == split_of(content@, '\n'),
            starts@.len() == ls@.len(),
            forall|k: int| 0 <= k < starts@.len() ==> #[trigger] starts@[k] == line_start(lsv, k),
            spans(out@) == normal_blocks(lsv, m as int, target@, i as int),
            forall|i: int|
                0 <= i < out@.len() ==> (#[trigger] out@[i]).0 <= out@[i].1 <= content@.len(),
        decreases count - i,
    {
        let ghost sought = shortest_hit(lsv, target@, i as int, m as int, m + 5);
        let mut found: bool = false;
        let mut extra: usize = 0;
        let ghost before = spans(out@);
        while extra <= 5 && !found && m <= count - i && extra <= count - i - m
            invariant
                extra <= 6,
                i < count,
                count == ls@.len(),
                m > 0,
                total == content@.len(),
                v@ == content@,
                lsv == texts(ls@),
                lsv == split_of(content@, '\n'),
                starts@.len() == ls@.len(),
                forall|k: int|
                    0 <= k < starts@.len() ==> #[trigger] starts@[k] == line_start(lsv, k),
                sought == shortest_hit(lsv, target@, i as int, m as int, m + 5),
                !found ==> spans(out@) == before,
                !found ==> sought == shortest_hit(
                    lsv,
                    target@,
                    i as int,
                    m + extra,
                    m + 5,
                ),
                found ==> sought is Some && spans(out@) == before.push(
                    block_of(lsv, i as int, sought->0),
                ),
                forall|i: int|
                    0 <= i < out@.len() ==> (#[trigger] out@[i]).0 <= out@[i].1 <= content@.len(),
            decreases 6 - extra,
        {
            let n: usize = m + extra;
            let r = block(&ls, &starts, Ghost(content@), i, n);
            let piece = part(&v, r.0, r.1);
            let words_here = normalize(piece.as_str());
            if same(words_here.as_str(), target.as_str()) {
                out.push(r);
                found = true;
                assert(spans(out@) =~= before.push((r.0 as int, r.1 as int)));
            }
            extra += 1;
        }
        proof {
            if !found {
                lemma_no_hit(lsv, target@, i as int, m + extra, m + 5);
            }
        }
        i += 1;
    }
    Some(out)
}

/// Blocks that run past the last line hold nothing that is sought.
proof fn lemma_no_hit(ls: Seq<Seq<char>>, target: Seq<char>, i: int, n: int, last: int)
    requires
        n > last || i + n > ls.len(),
    ensures
        shortest_hit(ls, target, i, n, last) is None,
    decreases last - n + 1,
{
    if n <= last {
        lemma_no_hit(ls, target, i, n + 1, last);
    }
}

/// The shared indentation is at most that of each line that is not blank.
pub proof fn lemma_least_indent(ls: Seq<Seq<char>>, i: int)
    requires
        0 <= i < ls.len(),
        !is_blank(ls[i]),
    ensures
        least_indent(ls) is Some,
        least_indent(ls)->0 <= indent_of(ls[i]),
    decreases ls.len(),
{
    if i < ls.len() - 1 {
        lemma_least_indent(ls.drop_last(), i);
    }
}

fn indent(l: &str) -> (n: usize)
    ensures
        n == indent_of(l@),
        n <= l@.len(),
{
    let v = to_chars(l);
    let mut i: usize = 0;
    while i < v.len() && crate::text::is_space(v[i])
        invariant
            i <= v@.len(),
            v@ == l@,
            forall|k: int| 0 <= k < i ==> crate::text::is_white_space(l@[k]),
        decreases v@.len() - i,
    {
        i += 1;
    }
    proof {
        crate::text::lemma_trim_start(l@, i as int);
    }
    i
}

fn blank(l: &str) -> (r: bool)
    ensures
        r == is_blank(l@),
{
    let t = trim(l);
    t.as_str().is_empty()
}

/// Copy of the text with the indentation that its lines share taken away.
fn strip_min_indent(s: &str) -> (r: String)
    ensures
        r@ == flush_of(s@),
{
    let ls = split(s, '\n');
    let ghost lsv = texts(ls@);
    let mut least: Option<usize> = None;
    let mut i: usize = 0;
    assert(lsv.take(0) =~= Seq::empty());
    while i < ls.len()
        invariant
            i <= ls@.len(),
            lsv == texts(ls@),
            least is None <==> least_indent(lsv.take(i as int)) is None,
            least is Some ==> least->0 == least_indent(lsv.take(i as int))->0,
        decreases ls@.len() - i,
    {
        assert(lsv.take(i + 1).drop_last() =~= lsv.take(i as int));
        assert(lsv.take(i + 1).last() == ls@[i as int]@);
        let l = ls[i].as_str();
        if !blank(l) {
            let n: usize = indent(l);
            least = match least {
                Some(b) => if b <= n {
                    Some(b)
                } else {
                    Some(n)
                },
                None => Some(n),
            };
        }
        i += 1;
    }
    assert(lsv.take(i as int) =~= lsv);
    let n: usize = match least {
        Some(n) => n,
        None => 0,
    };
    let mut out: Vec<String> = Vec::new();
    let ghost want = Seq::new(lsv.len(), |i: int| outdented(lsv[i], n as nat));
    let mut k: usize = 0;
    while k < ls.len()
        invariant
            k <= ls@.len(),
            lsv == texts(ls@),
            want == Seq::new(lsv.len(), |i: int| outdented(lsv[i], n as nat)),
            n == (match least_indent(lsv) {
                Some(n) => n,
                None => 0,
            }),
            texts(out@) == want.take(k as int),
        decreases ls@.len() - k,
    {
        let l = ls[k].as_str();
        let ghost before = texts(out@);
        if blank(l) {
            out.push(l.to_owned());
        } else {
            let v = to_chars(l);
            proof {
                lemma_least_indent(lsv, k as int);
            }
            let m: usize = indent(l);
            let piece = part(&v, n, v.len());
            assert(l@.skip(n as int) =~= piece@);
            out.push(piece);
        }
        assert(texts(out@) =~= before.push(outdented(lsv[k as int], n as nat)));
        assert(want.take(k + 1) =~= want.take(k as int).push(want[k as int]));
        k += 1;
    }
    assert(want.take(k as int) =~= want);
    proof {
        reveal_strlit("\n");
        assert("\n"@ =~= seq!['\n']);
    }
    join(&out, "\n")
}

/// Blocks of the text that equal `find` once shared indentation is taken away.
pub fn indentation_flexible_spans(content: &str, find: &str) -> (r: Vec<(usize, usize)>)
    ensures
        spans(r@) == indentation_flexible(content@, find@),
        forall|i: int| 0 <= i < r@.len() ==> (#[trigger] r@[i]).0 <= r@[i].1 <= content@.len(),
{
    let target = strip_min_indent(find);
    let v = to_chars(content);
    let total: usize = v.len();
    let ls = split(content, '\n');
    let fs = split(find, '\n');
    let m: usize = fs.len();
    let starts = line_starts(&ls, Ghost(content@));
    let ghost lsv = texts(ls@);
    let count: usize = ls.len();
    let stop: usize = if m <= count {
        count - (m - 1)
    } else {
        0
    };
    let mut out: Vec<(usize, usize)> = Vec::new();
    let mut i: usize = 0;
    while i < stop
        invariant
            i <= stop,
            count == ls@.len(),
            stop > 0 ==> stop + m == count + 1,
            stop == 0 ==> m > count,
            m > 0,
            total == content@.len(),
            v@ == content@,
            lsv == texts(ls@),
            lsv == split_of(content@, '\n'),
            starts@.len() == ls@.len(),
            forall|k: int| 0 <= k < starts@.len() ==> #[trigger] starts@[k] == line_start(lsv, k),
            spans(out@) == flush_blocks(lsv, m as int, target@, i as int),
            forall|i: int|
                0 <= i < out@.len() ==> (#[trigger] out@[i]).0 <= out@[i].1 <= content@.len(),
        decreases stop - i,
    {
        let r = block(&ls, &starts, Ghost(content@), i, m);
        let piece = part(&v, r.0, r.1);
        let flush = strip_min_indent(piece.as_str());
        if same(flush.as_str(), target.as_str()) {
            let ghost before = spans(out@);
            out.push(r);
            assert(spans(out@) =~= before.push((r.0 as int, r.1 as int)));
        }
        i += 1;
    }
    out
}

/// Line-trimmed matches of `find`, as stretches of bytes.
pub fn find_line_trimmed_matches(content: &str, find: &str) -> (r: Option<Vec<(usize, usize)>>)
    ensures
        r is Some,
        spans(r->0@) == byte_spans(content@, line_trimmed(content@, find@)),
{
    let found = line_trimmed_spans(content, find);
    let v = to_chars(content);
    Some(to_bytes(&v, &found))
}

/// Whitespace-normalized matches of `find`, as stretches of bytes; `None` where
/// `find` has no word.
pub fn find_whitespace_normalized_matches(content: &str, find: &str) -> (r: Option<
    Vec<(usize, usize)>,
>)
    ensures
        r is None <==> normal_of(find@).len() == 0,
        r is Some ==> spans(r->0@) == byte_spans(
            content@,
            whitespace_normalized(content@, find@),
        ),
{
    match whitespace_normalized_spans(content, find) {
        Some(found) => {
            let v = to_chars(content);
            Some(to_bytes(&v, &found))
        },
        None => None,
    }
}

/// Indentation-flexible matches of `find`, as stretches of bytes.
pub fn find_indentation_flexible_matches(content: &str, find: &str) -> (r: Option<
    Vec<(usize, usize)>,
>)
    ensures
        r is Some,
        spans(r->0@) == byte_spans(content@, indentation_flexible(content@, find@)),
{
    let found = indentation_flexible_spans(content, find);
    let v = to_chars(content);
    Some(to_bytes(&v, &found))
}

/// Arguments of the `edit` tool.
#[derive(Debug)]
pub struct EditArgs {
    pub path: String,
    pub old_text: String,
    pub new_text: String,
    pub replace_all: Option<bool>,
}

/// A computed edit: the new contents of the file and the report on it.
#[derive(Debug)]
pub struct Edited {
    pub output: String,
    pub message: String,
}

/// Largest file, in bytes, that the tool edits.
pub const MAX_EDIT_BYTES: u64 = 104857600;

/// Most matches that an ambiguity report lists.
pub const MAX_AMBIGUOUS_MATCHES: usize = 20;

/// What the searches find, the first that finds anything winning, and the name
/// of the search where it is not the exact one.
pub open spec fn located(s: Seq<char>, old: Seq<char>) -> (Seq<(int, int)>, Option<Seq<char>>) {
    if occurrences_from(s, old, 0).len() > 0 {
        (occurrences_from(s, old, 0), None)
    } else if line_trimmed(s, old).len() > 0 {
        (line_trimmed(s, old), Some("line-trimmed"@))
    } else if normal_of(old).len() > 0 && whitespace_normalized(s, old).len() > 0 {
        (whitespace_normalized(s, old), Some("whitespace-normalized"@))
    } else if indentation_flexible(s, old).len() > 0 {
        (indentation_flexible(s, old), Some("indentation-flexible"@))
    } else {
        (Seq::empty(), None)
    }
}

/// Mathematical stretches as machine positions.
pub open spec fn machine(rs: Seq<(int, int)>) -> Seq<(usize, usize)> {
    Seq::new(rs.len(), |i: int| (rs[i].0 as usize, rs[i].1 as usize))
}

/// The stretches that an edit replaces.
pub open spec fn targets(s: Seq<char>, old: Seq<char>) -> Seq<(usize, usize)> {
    disjoint_of(machine(located(s, old).0))
}

/// The lesser of two numbers.
pub open spec fn least(a: int, b: int) -> int {
    if a <= b {
        a
    } else {
        b
    }
}

/// A unified diff hunk around position `pos` that takes `old` out and puts `new`
/// in, with up to three lines of context on either side.
pub open spec fn diff_of(path: Seq<char>, s: Seq<char>, pos: int, old: Seq<char>, new: Seq<char>) -> Seq<
    char,
> {
    let ls = lines_of(s);
    let olds = lines_of(old);
    let news = lines_of(new);
    let at = count_of(s.take(pos), '\n') as int;
    let start = if at > 3 {
        at - 3
    } else {
        0
    };
    let after = least(at + olds.len(), ls.len() as int);
    let end = least(after + 3, ls.len() as int);
    let around = at - start + end - after;
    "\n--- a/"@ + path + "\n+++ b/"@ + path + "\n"@ + "@@ -"@ + decimal_of((start + 1) as nat) + ","@
        + decimal_of((around + olds.len()) as nat) + " +"@ + decimal_of((start + 1) as nat) + ","@
        + decimal_of((around + news.len()) as nat) + " @@\n"@ + prefixed_of(
        " "@,
        ls.subrange(least(start, ls.len() as int), least(at, ls.len() as int)),
    ) + prefixed_of("-"@, olds) + prefixed_of("+"@, news) + prefixed_of(" "@, ls.subrange(after, end))
}

impl EditTool {
    /// A diff hunk for the replacement of `old_text` at byte `byte_pos` of `content`, which is
    /// the first byte of a character or the end.
    pub fn show_diff(path: &str, content: &str, byte_pos: usize, old_text: &str, new_text: &str) -> (r: String)
        requires
            byte_len(fit_of(content@, byte_pos as int)) == byte_pos,
        ensures
            r@ == diff_of(
                path@,
                content@,
                fit_of(content@, byte_pos as int).len() as int,
                old_text@,
                new_text@,
            ),
    {
        let before = fit(content, byte_pos);
        proof {
            lemma_fit(content@, byte_pos as int);
        }
        Self::diff_at(path, content, before.as_str().unicode_len(), old_text, new_text)
    }

    fn diff_at(path: &str, content: &str, pos: usize, old_text: &str, new_text: &str) -> (r: String)
        requires
            pos <= content@.len(),
        ensures
            r@ == diff_of(path@, content@, pos as int, old_text@, new_text@),
    {
        let v = to_chars(content);
        let ls = lines(content);
        let olds = lines(old_text);
        let news = lines(new_text);
        let total: usize = ls.len();
        let at: usize = count_before(&v, pos, '\n');
        let start: usize = if at > 3 {
            at - 3
        } else {
            0
        };
        let after: usize = if at >= total || olds.len() >= total - at {
            total
        } else {
            at + olds.len()
        };
        let end: usize = if total - after <= 3 {
            total
        } else {
            after + 3
        };
        let from: usize = if start <= total {
            start
        } else {
            total
        };
        let upto: usize = if at <= total {
            at
        } else {
            total
        };
        let around: u128 = (at - start) as u128 + (end - after) as u128;
        let mut out = String::new();
        out.append("\n--- a/");
        out.append(path);
        out.append("\n+++ b/");
        out.append(path);
        out.append("\n");
        out.append("@@ -");
        let first = decimal(start as u128 + 1);
        out.append(first.as_str());
        out.append(",");
        let old_count = decimal(around + olds.len() as u128);
        out.append(old_count.as_str());
        out.append(" +");
        out.append(first.as_str());
        out.append(",");
        let new_count = decimal(around + news.len() as u128);
        out.append(new_count.as_str());
        out.append(" @@\n");
        let before = prefixed(" ", &ls, from, upto);
        out.append(before.as_str());
        let taken = prefixed("-", &olds, 0, olds.len());
        out.append(taken.as_str());
        let put = prefixed("+", &news, 0, news.len());
        out.append(put.as_str());
        let behind = prefixed(" ", &ls, after, end);
        out.append(behind.as_str());
        proof {
            assert(texts(olds@).subrange(0, olds@.len() as int) =~= texts(olds@));
            assert(texts(news@).subrange(0, news@.len() as int) =~= texts(news@));
        }
        out
    }
}

/// The searches for `old` in `content`, tried in order of tolerance.
pub fn locate(content: &str, old: &str) -> (r: (Vec<(usize, usize)>, Option<String>))
    requires
        old@.len() > 0,
    ensures
        spans(r.0@) == located(content@, old@).0,
        r.1 is None <==> located(content@, old@).1 is None,
        r.1 is Some ==> r.1->0@ == located(content@, old@).1->0,
        forall|i: int| 0 <= i < r.0@.len() ==> (#[trigger] r.0@[i]).0 <= r.0@[i].1 <= content@.len(),
{
    let v = to_chars(content);
    let p = to_chars(old);
    let exact = occurrences(&v, &p);
    proof {
        lemma_occurrences(content@, old@, 0);
        lemma_occurrences_exist(content@, old@);
    }
    if exact.len() > 0 {
        proof {
            assert forall|i: int| 0 <= i < exact@.len() implies (#[trigger] exact@[i]).0 <= exact@[i].1
                <= content@.len() by {
                let r = occurrences_from(content@, old@, 0)[i];
                assert(spans(exact@)[i] == r);
            }
        }
        return (exact, None);
    }
    let trimmed = line_trimmed_spans(content, old);
    if trimmed.len() > 0 {
        assert(spans(trimmed@).len() > 0);
        return (trimmed, Some("line-trimmed".to_owned()));
    }
    assert(spans(trimmed@).len() == 0);
    match whitespace_normalized_spans(content, old) {
        Some(normal) => {
            if normal.len() > 0 {
                assert(spans(normal@).len() > 0);
                return (normal, Some("whitespace-normalized".to_owned()));
            }
            assert(spans(normal@).len() == 0);
        },
        None => {},
    }
    let flush = indentation_flexible_spans(content, old);
    if flush.len() > 0 {
        assert(spans(flush@).len() > 0);
        return (flush, Some("indentation-flexible".to_owned()));
    }
    assert(spans(flush@).len() == 0);
    let none: Vec<(usize, usize)> = Vec::new();
    assert(spans(none@) =~= Seq::empty());
    (none, None)
}

/// Report line for the match at character `pos`: its line number and the start
/// of the line.
pub open spec fn match_line(s: Seq<char>, pos: int) -> Seq<char> {
    let at = count_of(s.take(pos), '\n');
    "  Line "@ + decimal_of(at + 1) + ": "@ + head(split_of(s, '\n')[at as int], 100)
}

/// Report line for `n` matches that are not listed.
pub open spec fn more_line(n: nat) -> Seq<char> {
    "  ... and "@ + decimal_of(n) + " more match"@ + (if n == 1 {
        ""@
    } else {
        "es"@
    })
}

/// Report lines for the matches: the first twenty and a count of the others.
pub open spec fn match_list(s: Seq<char>, rs: Seq<(usize, usize)>) -> Seq<Seq<char>> {
    if rs.len() <= MAX_AMBIGUOUS_MATCHES {
        Seq::new(rs.len(), |i: int| match_line(s, rs[i].0 as int))
    } else {
        Seq::new(MAX_AMBIGUOUS_MATCHES as nat, |i: int| match_line(s, rs[i].0 as int)).push(
            more_line((rs.len() - MAX_AMBIGUOUS_MATCHES) as nat),
        )
    }
}

/// The answer to an edit that matches more than once without `replace_all`.
pub open spec fn ambiguous_text(s: Seq<char>, rs: Seq<(usize, usize)>, path: Seq<char>) -> Seq<char> {
    "old_text matched "@ + decimal_of(rs.len()) + " times in "@ + path + ":\n"@ + join_of(
        match_list(s, rs),
        "\n"@,
    )
        + "\n\nUse replace_all: true to replace all occurrences, or provide more surrounding context in old_text to narrow the match."@
}

/// The answer to an edit whose text is found by none of the searches.
pub open spec fn not_found_text(path: Seq<char>) -> Seq<char> {
    "old_text not found in '"@ + path
        + "'.\nEnsure the exact text matches including whitespace and line endings. Tried exact match, line-trimmed match, whitespace-normalized match, and indentation-flexible match."@
}

/// Remark on the change in the number of lines, empty where there is none.
pub open spec fn delta_text(old_lines: nat, new_lines: nat, count: nat) -> Seq<char> {
    if new_lines == old_lines || count == 0 {
        Seq::empty()
    } else if new_lines > old_lines {
        " ("@ + "+"@ + decimal_of(((new_lines - old_lines) * count) as nat) + " lines)"@
    } else {
        " ("@ + "-"@ + decimal_of(((old_lines - new_lines) * count) as nat) + " lines)"@
    }
}

/// Remark on a search that was not exact.
pub open spec fn fallback_text(via: Option<Seq<char>>) -> Seq<char> {
    match via {
        Some(label) => " (matched via "@ + label
            + " fallback — exact text not found; whitespace/indent tolerated)"@,
        None => Seq::empty(),
    }
}

/// The report on an edit that replaced the stretches `rs` of `s`.
pub open spec fn report_text(s: Seq<char>, rs: Seq<(usize, usize)>, via: Option<Seq<char>>, a: EditArgs) -> Seq<
    char,
> {
    let old_lines = lines_of(a.old_text@).len();
    let new_lines = lines_of(a.new_text@).len();
    let all = a.replace_all == Some(true);
    (if all {
        "Applied edit ("@ + decimal_of(rs.len()) + " replacements)"@
    } else {
        "Applied edit"@
    }) + fallback_text(via) + delta_text(
        old_lines,
        new_lines,
        if all {
            rs.len()
        } else {
            1
        },
    ) + (if old_lines <= 200 && new_lines <= 200 {
        diff_of(a.path@, s, rs[0].0 as int, a.old_text@, a.new_text@)
    } else {
        Seq::empty()
    })
}

/// The text that an edit looks for: line endings as in a normalized file.
pub open spec fn sought(a: EditArgs) -> Seq<char> {
    replace_of(a.old_text@, "\r\n"@, "\n"@)
}

/// The refusal of an edit with nothing to look for.
pub open spec fn empty_old_text() -> Seq<char> {
    "old_text must not be empty. Provide the exact text to replace."@
}

/// What an edit makes of a file with normalized contents `s`: the new contents,
/// with carriage returns where the file had them, and the report; or the refusal.
pub open spec fn edited(s: Seq<char>, has_crlf: bool, a: EditArgs) -> Result<
    (Seq<char>, Seq<char>),
    Seq<char>,
> {
    let rs = targets(s, sought(a));
    let changed = splice_from(s, spans(rs), 0, a.new_text@);
    if a.old_text@.len() == 0 {
        Err(empty_old_text())
    } else if rs.len() == 0 {
        Err(not_found_text(a.path@))
    } else if rs.len() > 1 && a.replace_all != Some(true) {
        Err(ambiguous_text(s, rs, a.path@))
    } else {
        Ok(
            (
                if has_crlf {
                    replace_of(changed, "\n"@, "\r\n"@)
                } else {
                    changed
                },
                report_text(s, rs, located(s, sought(a)).1, a),
            ),
        )
    }
}

/// The refusal of an edit by its arguments alone: an empty `old_text`, or a path that is not
/// absolute.
pub open spec fn refused_args(a: EditArgs) -> Option<Seq<char>> {
    if a.old_text@.len() == 0 {
        Some(empty_old_text())
    } else if !is_absolute_of(a.path@) {
        Some("the edit path must be absolute, got: "@ + a.path@)
    } else {
        None
    }
}

/// The refusal of an edit before its file is looked at: by its arguments, or because the file
/// at the canonical path was not read.
pub open spec fn refused_edit(a: EditArgs, cache: Option<&ToolCache>, resolved: Seq<char>) -> Option<Seq<char>> {
    match refused_args(a) {
        Some(e) => Some(e),
        None => if may_change(cache, resolved) {
            None
        } else {
            Some(unread_text(resolved))
        },
    }
}

/// Refuses an edit of a file that was not read, after what [`check_edit_args`] refuses.
/// `resolved` is the canonical path of the file.
pub fn check_edit(args: &EditArgs, cache: Option<&ToolCache>, resolved: &str) -> (r: Result<(), String>)
    ensures
        match r {
            Ok(_) => refused_edit(*args, cache, resolved@) is None,
            Err(e) => refused_edit(*args, cache, resolved@) == Some(e@),
        },
{
    match check_edit_args(args) {
        Ok(_) => check_read(cache, resolved),
        Err(e) => Err(e),
    }
}

/// Refuses an edit with an empty `old_text`, then one of a path that is not absolute.
pub fn check_edit_args(args: &EditArgs) -> (r: Result<(), String>)
    ensures
        match r {
            Ok(_) => refused_args(*args) is None,
            Err(e) => refused_args(*args) == Some(e@),
        },
{
    if args.old_text.as_str().is_empty() {
        return Err("old_text must not be empty. Provide the exact text to replace.".to_owned());
    }
    proof {
        reveal_strlit("the edit path");
        reveal_strlit(" must be absolute, got: ");
        reveal_strlit("the edit path must be absolute, got: ");
        assert("the edit path"@ + " must be absolute, got: "@
            =~= "the edit path must be absolute, got: "@);
    }
    require_absolute_path(args.path.as_str(), "the edit path")
}

/// The refusal of a file of `len` bytes.
pub open spec fn too_large_text(len: u64) -> Seq<char> {
    "file too large for edit: "@ + decimal_of(len as nat) + " bytes (cap "@ + decimal_of(
        MAX_EDIT_BYTES as nat,
    ) + " bytes); use bash with sed/awk for huge files"@
}

/// Refuses a file that is larger than the cap.
pub fn check_edit_size(len: u64) -> (r: Result<(), String>)
    ensures
        r is Err <==> len > MAX_EDIT_BYTES,
        r is Err ==> r->Err_0@ == too_large_text(len),
{
    if len > MAX_EDIT_BYTES {
        let mut out = String::new();
        out.append("file too large for edit: ");
        let n = decimal(len as u128);
        out.append(n.as_str());
        out.append(" bytes (cap ");
        let cap = decimal(MAX_EDIT_BYTES as u128);
        out.append(cap.as_str());
        out.append(" bytes); use bash with sed/awk for huge files");
        Err(out)
    } else {
        Ok(())
    }
}

fn describe_match(v: &Vec<char>, ls: &Vec<String>, pos: usize) -> (r: String)
    requires
        pos <= v@.len(),
        texts(ls@) == split_of(v@, '\n'),
    ensures
        r@ == match_line(v@, pos as int),
{
    let at: usize = count_before(v, pos, '\n');
    proof {
        lemma_split_len(v@, '\n');
        lemma_count_take(v@, pos as int, '\n');
    }
    let mut out = String::new();
    out.append("  Line ");
    let n = decimal(at as u128 + 1);
    out.append(n.as_str());
    out.append(": ");
    let start = take_chars(ls[at].as_str(), 100);
    out.append(start.as_str());
    out
}

fn describe_ambiguity(content: &str, rs: &Vec<(usize, usize)>, path: &str) -> (r: String)
    requires
        forall|i: int| 0 <= i < rs@.len() ==> (#[trigger] rs@[i]).0 <= content@.len(),
    ensures
        r@ == ambiguous_text(content@, rs@, path@),
{
    let v = to_chars(content);
    let ls = split(content, '\n');
    let shown: usize = if rs.len() <= MAX_AMBIGUOUS_MATCHES {
        rs.len()
    } else {
        MAX_AMBIGUOUS_MATCHES
    };
    let mut info: Vec<String> = Vec::new();
    let mut i: usize = 0;
    while i < shown
        invariant
            i <= shown <= rs@.len(),
            v@ == content@,
            texts(ls@) == split_of(v@, '\n'),
            forall|i: int| 0 <= i < rs@.len() ==> (#[trigger] rs@[i]).0 <= content@.len(),
            texts(info@) =~= Seq::new(i as nat, |k: int| match_line(content@, rs@[k].0 as int)),
        decreases shown - i,
    {
        let ghost before = texts(info@);
        let line = describe_match(&v, &ls, rs[i].0);
        info.push(line);
        assert(texts(info@) =~= before.push(line@));
        i += 1;
    }
    if rs.len() > MAX_AMBIGUOUS_MATCHES {
        let rest: usize = rs.len() - MAX_AMBIGUOUS_MATCHES;
        let ghost before = texts(info@);
        let mut more = String::new();
        more.append("  ... and ");
        let n = decimal(rest as u128);
        more.append(n.as_str());
        more.append(" more match");
        more.append(
            if rest == 1 {
                ""
            } else {
                "es"
            },
        );
        info.push(more);
        assert(texts(info@) =~= before.push(more@));
    }
    assert(texts(info@) =~= match_list(content@, rs@));
    let mut out = String::new();
    out.append("old_text matched ");
    let n = decimal(rs.len() as u128);
    out.append(n.as_str());
    out.append(" times in ");
    out.append(path);
    out.append(":\n");
    let list = join(&info, "\n");
    out.append(list.as_str());
    out.append(
        "\n\nUse replace_all: true to replace all occurrences, or provide more surrounding context in old_text to narrow the match.",
    );
    out
}

proof fn lemma_product_fits(a: int, b: int)
    requires
        0 <= a <= 0xffff_ffff_ffff_ffff,
        0 <= b <= 0xffff_ffff_ffff_ffff,
    ensures
        0 <= a * b <= 0xffff_ffff_ffff_ffff_ffff_ffff_ffff_ffff,
{
    assert(0 <= a * b <= 0xffff_ffff_ffff_ffff * 0xffff_ffff_ffff_ffff) by (nonlinear_arith)
        requires
            0 <= a <= 0xffff_ffff_ffff_ffff,
            0 <= b <= 0xffff_ffff_ffff_ffff,
    ;
}

fn describe_delta(old_lines: usize, new_lines: usize, count: usize) -> (r: String)
    ensures
        r@ == delta_text(old_lines as nat, new_lines as nat, count as nat),
{
    let mut out = String::new();
    if new_lines != old_lines && count != 0 {
        out.append(" (");
        let size: u128;
        if new_lines > old_lines {
            out.append("+");
            proof {
                lemma_product_fits(new_lines - old_lines, count as int);
            }
            size = ((new_lines - old_lines) as u128) * (count as u128);
        } else {
            out.append("-");
            proof {
                lemma_product_fits(old_lines - new_lines, count as int);
            }
            size = ((old_lines - new_lines) as u128) * (count as u128);
        }
        let n = decimal(size);
        out.append(n.as_str());
        out.append(" lines)");
    }
    out
}

fn describe_edit(content: &str, rs: &Vec<(usize, usize)>, via: &Option<String>, args: &EditArgs) -> (r:
    String)
    requires
        rs@.len() > 0,
        rs@[0].0 <= content@.len(),
    ensures
        r@ == report_text(
            content@,
            rs@,
            match via {
                Some(label) => Some(label@),
                None => None,
            },
            *args,
        ),
{
    let all: bool = match args.replace_all {
        Some(b) => b,
        None => false,
    };
    let olds = lines(args.old_text.as_str());
    let news = lines(args.new_text.as_str());
    assert(texts(olds@).len() == olds@.len());
    assert(texts(news@).len() == news@.len());
    let mut out = String::new();
    if all {
        out.append("Applied edit (");
        let n = decimal(rs.len() as u128);
        out.append(n.as_str());
        out.append(" replacements)");
    } else {
        out.append("Applied edit");
    }
    let mut note = String::new();
    match via {
        Some(label) => {
            note.append(" (matched via ");
            note.append(label.as_str());
            note.append(" fallback — exact text not found; whitespace/indent tolerated)");
        },
        None => {},
    }
    out.append(note.as_str());
    let count: usize = if all {
        rs.len()
    } else {
        1
    };
    let delta = describe_delta(olds.len(), news.len(), count);
    out.append(delta.as_str());
    let mut diff = String::new();
    if olds.len() <= 200 && news.len() <= 200 {
        diff = EditTool::diff_at(
            args.path.as_str(),
            content,
            rs[0].0,
            args.old_text.as_str(),
            args.new_text.as_str(),
        );
    }
    out.append(diff.as_str());
    out
}

/// Computes an edit of a file with normalized contents; `has_crlf` says whether
/// the file itself uses carriage returns.
pub fn edit_text(content: &str, has_crlf: bool, args: &EditArgs) -> (r: Result<Edited, String>)
    ensures
        match r {
            Ok(e) => edited(content@, has_crlf, *args) == Ok::<(Seq<char>, Seq<char>), Seq<char>>(
                (e.output@, e.message@),
            ),
            Err(m) => edited(content@, has_crlf, *args) == Err::<(Seq<char>, Seq<char>), Seq<char>>(
                m@,
            ),
        },
{
    if args.old_text.as_str().is_empty() {
        return Err("old_text must not be empty. Provide the exact text to replace.".to_owned());
    }
    proof {
        reveal_strlit("\r\n");
        reveal_strlit("\n");
        crate::splice::lemma_replace_nonempty(args.old_text@, "\r\n"@, "\n"@);
    }
    let old = replace(args.old_text.as_str(), "\r\n", "\n");
    let (found, via) = locate(content, old.as_str());
    assert(machine(spans(found@)) =~= found@);
    proof {
        lemma_disjoint_well_spaced(found@, content@.len() as int);
    }
    let rs = keep_disjoint_ranges(found);
    assert(rs@ == targets(content@, sought(*args)));
    if rs.len() == 0 {
        let mut out = String::new();
        out.append("old_text not found in '");
        out.append(args.path.as_str());
        out.append(
            "'.\nEnsure the exact text matches including whitespace and line endings. Tried exact match, line-trimmed match, whitespace-normalized match, and indentation-flexible match.",
        );
        return Err(out);
    }
    proof {
        assert forall|i: int| 0 <= i < rs@.len() implies (#[trigger] rs@[i]).0 <= content@.len() by {
            crate::splice::lemma_well_spaced_at(spans(rs@), 0, content@.len() as int, i);
            assert(spans(rs@)[i].0 == rs@[i].0);
        }
    }
    let all: bool = match args.replace_all {
        Some(b) => b,
        None => false,
    };
    if rs.len() > 1 && !all {
        return Err(describe_ambiguity(content, &rs, args.path.as_str()));
    }
    let v = to_chars(content);
    let changed = splice(&v, &rs, args.new_text.as_str());
    let message = describe_edit(content, &rs, &via, args);
    let output = if has_crlf {
        replace(changed.as_str(), "\n", "\r\n")
    } else {
        changed
    };
    Ok(Edited { output, message })
}

/// A carriage return stands directly before a line feed.
pub open spec fn uses_crlf(bytes: Seq<u8>) -> bool {
    exists|i: int| 0 <= i < bytes.len() - 1 && #[trigger] bytes[i] == 13 && bytes[i + 1] == 10
}

/// Whether the bytes hold a carriage return directly before a line feed.
pub fn has_crlf(bytes: &Vec<u8>) -> (r: bool)
    ensures
        r == uses_crlf(bytes@),
{
    let n: usize = bytes.len();
    let mut i: usize = 0;
    while n > 0 && i < n - 1
        invariant
            n == bytes@.len(),
            n > 0 ==> i <= n - 1,
            forall|k: int| 0 <= k < i ==> !(#[trigger] bytes@[k] == 13 && bytes@[k + 1] == 10),
        decreases n - i,
    {
        if bytes[i] == 13 && bytes[i + 1] == 10 {
            return true;
        }
        i += 1;
    }
    false
}

/// Contents of a file with every line ending a line feed.
pub open spec fn normalized(bytes: Seq<u8>) -> Seq<char> {
    replace_of(lossy_of(bytes), "\r\n"@, "\n"@)
}

/// Computes an edit of a file with the given contents.
pub fn edit_bytes(bytes: &Vec<u8>, args: &EditArgs) -> (r: Result<Edited, String>)
    ensures
        match r {
            Ok(e) => edited(normalized(bytes@), uses_crlf(bytes@), *args) == Ok::<
                (Seq<char>, Seq<char>),
                Seq<char>,
            >((e.output@, e.message@)),
            Err(m) => edited(normalized(bytes@), uses_crlf(bytes@), *args) == Err::<
                (Seq<char>, Seq<char>),
                Seq<char>,
            >(m@),
        },
{
    proof {
        reveal_strlit("\r\n");
    }
    let raw = lossy(bytes);
    let content = replace(raw.as_str(), "\r\n", "\n");
    edit_text(content.as_str(), has_crlf(bytes), args)
}

/// What an edit makes of the file at the canonical path `resolved`, whose contents are
/// `bytes`: a refused one makes nothing of it.
pub open spec fn edited_file(
    a: EditArgs,
    cache: Option<&ToolCache>,
    resolved: Seq<char>,
    bytes: Seq<u8>,
) -> Result<(Seq<char>, Seq<char>), Seq<char>> {
    match refused_edit(a, cache, resolved) {
        Some(e) => Err(e),
        None => edited(normalized(bytes), uses_crlf(bytes), a),
    }
}

/// Computes an edit of the file at the canonical path `resolved`, whose contents are `bytes`.
/// A file that the cache does not know as read is not edited.
pub fn edit_file(args: &EditArgs, cache: Option<&ToolCache>, resolved: &str, bytes: &Vec<u8>) -> (r: Result<
    Edited,
    String,
>)
    ensures
        match r {
            Ok(e) => edited_file(*args, cache, resolved@, bytes@) == Ok::<
                (Seq<char>, Seq<char>),
                Seq<char>,
            >((e.output@, e.message@)),
            Err(m) => edited_file(*args, cache, resolved@, bytes@) == Err::<
                (Seq<char>, Seq<char>),
                Seq<char>,
            >(m@),
        },
{
    match check_edit(args, cache, resolved) {
        Ok(_) => edit_bytes(bytes, args),
        Err(e) => Err(e),
    }
}

} // verus!
