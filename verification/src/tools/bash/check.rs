//! What a shell command asks permission for: the commands it runs and the files
//! it writes, read off its text.
use vstd::prelude::*;
use crate::text::{
    begins, contains, occurs, part, same, split, split_of, starts_with, texts, to_chars, trim,
    trim_of, words, words_of, is_white_space,
};
use crate::tools::bash::paths::{
    is_absolute, is_absolute_of, join_path, joined, normalize_lexical, normalize_of,
};
use crate::tools::bash::words::{
    changed_by, changed_files, pieces_in, read_line, redirect_targets, redirected,
};

verus! {

/// The trimmed text of `s` from `a` up to `b`, where there is any.
pub open spec fn segment(s: Seq<char>, a: int, b: int) -> Seq<Seq<char>> {
    if a < b && trim_of(s.subrange(a, b)).len() > 0 {
        seq![trim_of(s.subrange(a, b))]
    } else {
        Seq::empty()
    }
}

/// The two characters at `i` are `&&` or `||`.
pub open spec fn pair_at(s: Seq<char>, i: int) -> bool {
    i + 1 < s.len() && ((s[i] == '&' && s[i + 1] == '&') || (s[i] == '|' && s[i + 1] == '|'))
}

/// A character that separates commands by itself.
pub open spec fn separates(c: char) -> bool {
    c == ';' || c == '|' || c == '&'
}

/// The commands of `s` when the scan stands at `i`, the current command began at
/// `start`, and the flags say whether `i` is inside single quotes, inside double
/// quotes, or behind a backslash.
pub open spec fn segments_from(
    s: Seq<char>,
    i: int,
    start: int,
    single: bool,
    double: bool,
    escaped: bool,
) -> Seq<Seq<char>>
    decreases s.len() - i,
{
    if i < 0 || i >= s.len() {
        segment(s, start, s.len() as int)
    } else if escaped {
        segments_from(s, i + 1, start, single, double, false)
    } else if s[i] == '\\' && !single {
        segments_from(s, i + 1, start, single, double, true)
    } else if s[i] == '\'' && !double {
        segments_from(s, i + 1, start, !single, double, false)
    } else if s[i] == '"' && !single {
        segments_from(s, i + 1, start, single, !double, false)
    } else if single || double {
        segments_from(s, i + 1, start, single, double, false)
    } else if pair_at(s, i) {
        segment(s, start, i) + segments_from(s, i + 2, i + 2, false, false, false)
    } else if separates(s[i]) {
        segment(s, start, i) + segments_from(s, i + 1, i + 1, false, false, false)
    } else {
        segments_from(s, i + 1, start, false, false, false)
    }
}

/// The commands that a shell line runs, split at `;`, `|`, `&`, `&&` and `||`
/// outside quotes and escapes.
pub open spec fn segments_of(s: Seq<char>) -> Seq<Seq<char>> {
    segments_from(s, 0, 0, false, false, false)
}

fn push_segment(v: &Vec<char>, a: usize, b: usize, out: &mut Vec<String>)
    requires
        b <= v@.len(),
    ensures
        texts(final(out)@) == texts(old(out)@) + segment(v@, a as int, b as int),
{
    if a >= b {
        assert(texts(out@) + segment(v@, a as int, b as int) =~= texts(out@));
        return ;
    }
    let raw = part(v, a, b);
    let t = trim(raw.as_str());
    let ghost before = texts(out@);
    if !t.as_str().is_empty() {
        out.push(t);
        assert(texts(out@) =~= before + seq![t@]);
    } else {
        assert(texts(out@) + segment(v@, a as int, b as int) =~= texts(out@));
    }
}

/// The commands of a shell line, each trimmed; empty ones are dropped.
pub fn quote_aware_split(command: &str) -> (r: Vec<String>)
    ensures
        texts(r@) == segments_of(command@),
{
    let v = to_chars(command);
    let n: usize = v.len();
    let mut out: Vec<String> = Vec::new();
    let mut start: usize = 0;
    let mut i: usize = 0;
    let mut single = false;
    let mut double = false;
    let mut escaped = false;
    assert(texts(out@) + segments_of(command@) =~= segments_of(command@));
    while i < n
        invariant
            i <= n,
            n == v@.len(),
            v@ == command@,
            texts(out@) + segments_from(command@, i as int, start as int, single, double, escaped)
                == segments_of(command@),
        decreases n - i,
    {
        let c: char = v[i];
        let ghost before = texts(out@);
        if escaped {
            escaped = false;
            i += 1;
        } else if c == '\\' && !single {
            escaped = true;
            i += 1;
        } else if c == '\'' && !double {
            single = !single;
            i += 1;
        } else if c == '"' && !single {
            double = !double;
            i += 1;
        } else if single || double {
            i += 1;
        } else if i + 1 < n && ((c == '&' && v[i + 1] == '&') || (c == '|' && v[i + 1] == '|')) {
            push_segment(&v, start, i, &mut out);
            proof {
                assert(texts(out@) + segments_from(command@, i + 2, i + 2, false, false, false)
                    =~= before + segments_from(command@, i as int, start as int, false, false, false));
            }
            i += 2;
            start = i;
        } else if c == ';' || c == '|' || c == '&' {
            push_segment(&v, start, i, &mut out);
            proof {
                assert(texts(out@) + segments_from(command@, i + 1, i + 1, false, false, false)
                    =~= before + segments_from(command@, i as int, start as int, false, false, false));
            }
            i += 1;
            start = i;
        } else {
            i += 1;
        }
    }
    push_segment(&v, start, n, &mut out);
    out
}

/// A quotation mark.
pub open spec fn is_quote(c: char) -> bool {
    c == '"' || c == '\''
}

/// `s` without quotation marks at its start.
pub open spec fn unquote_start(s: Seq<char>) -> Seq<char>
    decreases s.len(),
{
    if s.len() == 0 || !is_quote(s[0]) {
        s
    } else {
        unquote_start(s.drop_first())
    }
}

/// `s` without quotation marks at its end.
pub open spec fn unquote_end(s: Seq<char>) -> Seq<char>
    decreases s.len(),
{
    if s.len() == 0 || !is_quote(s.last()) {
        s
    } else {
        unquote_end(s.drop_last())
    }
}

/// `s` without quotation marks on either side.
pub open spec fn unquoted(s: Seq<char>) -> Seq<char> {
    unquote_end(unquote_start(s))
}

proof fn lemma_unquote_start(s: Seq<char>, i: int)
    requires
        0 <= i <= s.len(),
        forall|k: int| 0 <= k < i ==> is_quote(s[k]),
        i < s.len() ==> !is_quote(s[i]),
    ensures
        unquote_start(s) == s.skip(i),
    decreases i,
{
    if i > 0 {
        let t = s.drop_first();
        assert(forall|k: int| 0 <= k < i - 1 ==> t[k] == s[k + 1]);
        lemma_unquote_start(t, i - 1);
        assert(t.skip(i - 1) =~= s.skip(i));
    } else {
        assert(s.skip(0) =~= s);
    }
}

proof fn lemma_unquote_end(s: Seq<char>, j: int)
    requires
        0 <= j <= s.len(),
        forall|k: int| j <= k < s.len() ==> is_quote(s[k]),
        j > 0 ==> !is_quote(s[j - 1]),
    ensures
        unquote_end(s) == s.take(j),
    decreases s.len() - j,
{
    if j < s.len() {
        let t = s.drop_last();
        assert(is_quote(s[s.len() - 1]));
        lemma_unquote_end(t, j);
        assert(t.take(j) =~= s.take(j));
    } else {
        assert(s.take(j) =~= s);
    }
}

/// The characters from `a` up to `b` without quotation marks on either side.
fn unquote(v: &Vec<char>, a: usize, b: usize) -> (r: String)
    requires
        a <= b <= v@.len(),
    ensures
        r@ == unquoted(v@.subrange(a as int, b as int)),
{
    let ghost s = v@.subrange(a as int, b as int);
    let mut i: usize = a;
    while i < b && (v[i] == '"' || v[i] == '\'')
        invariant
            a <= i <= b <= v@.len(),
            forall|k: int| a <= k < i ==> is_quote(v@[k]),
        decreases b - i,
    {
        i += 1;
    }
    proof {
        assert(forall|k: int| 0 <= k < s.len() ==> s[k] == v@[k + a]);
        lemma_unquote_start(s, i - a);
    }
    let mut j: usize = b;
    while i < j && (v[j - 1] == '"' || v[j - 1] == '\'')
        invariant
            i <= j <= b <= v@.len(),
            forall|k: int| j <= k < b ==> is_quote(v@[k]),
        decreases j,
    {
        j -= 1;
    }
    proof {
        let t = s.skip(i - a);
        assert(forall|k: int| 0 <= k < t.len() ==> t[k] == v@[k + i]);
        lemma_unquote_end(t, j - i);
        assert(t.take(j - i) =~= v@.subrange(i as int, j as int));
    }
    part(v, i, j)
}

/// White space of one byte, which ends a redirect target.
pub open spec fn is_gap(c: char) -> bool {
    c == ' ' || ('\t' <= c && c <= '\r')
}

/// Whether the character is white space of one byte.
pub fn gap(c: char) -> (r: bool)
    ensures
        r == is_gap(c),
{
    c == ' ' || ('\t' <= c && c <= '\r')
}

/// A character that ends a redirect target.
pub open spec fn ends_target(c: char) -> bool {
    is_gap(c) || c == ';' || c == '|' || c == '&' || c == '>' || c == '<' || c == '(' || c == ')'
}

/// First position from `i` on that holds no white space.
pub open spec fn past_gap(s: Seq<char>, i: int) -> int
    decreases s.len() - i,
{
    if i < 0 || i >= s.len() || !is_gap(s[i]) {
        i
    } else {
        past_gap(s, i + 1)
    }
}

/// First position from `i` on that ends a redirect target.
pub open spec fn target_end(s: Seq<char>, i: int) -> int
    decreases s.len() - i,
{
    if i < 0 || i >= s.len() || ends_target(s[i]) {
        i
    } else {
        target_end(s, i + 1)
    }
}

/// Where the target of the redirect whose `>` stands before `i` begins: behind a
/// second `>`, a `|` and white space.
pub open spec fn target_start(s: Seq<char>, i: int) -> int {
    let a = if i < s.len() && s[i] == '>' {
        i + 1
    } else {
        i
    };
    let b = if a < s.len() && s[a] == '|' {
        a + 1
    } else {
        a
    };
    past_gap(s, b)
}

/// The target without surrounding quotation marks, where anything is left.
pub open spec fn target_of(s: Seq<char>, a: int, b: int) -> Seq<Seq<char>> {
    if a < b && unquoted(s.subrange(a, b)).len() > 0 {
        seq![unquoted(s.subrange(a, b))]
    } else {
        Seq::empty()
    }
}

proof fn lemma_past_gap(s: Seq<char>, i: int)
    requires
        0 <= i <= s.len(),
    ensures
        i <= past_gap(s, i) <= s.len(),
    decreases s.len() - i,
{
    if i < s.len() && is_gap(s[i]) {
        lemma_past_gap(s, i + 1);
    }
}

proof fn lemma_target_end(s: Seq<char>, i: int)
    requires
        0 <= i <= s.len(),
    ensures
        i <= target_end(s, i) <= s.len(),
    decreases s.len() - i,
{
    if i < s.len() && !ends_target(s[i]) {
        lemma_target_end(s, i + 1);
    }
}

/// The files that the redirects of `s` from `i` on write to; the flags say
/// whether `i` is inside single or double quotes.
pub open spec fn redirects_from(s: Seq<char>, i: int, single: bool, double: bool) -> Seq<Seq<char>>
    decreases s.len() + 1 - i,
    via redirects_from_decreases
{
    if i < 0 || i >= s.len() {
        Seq::empty()
    } else if single {
        redirects_from(s, i + 1, s[i] != '\'', double)
    } else if double {
        redirects_from(s, i + 1, false, s[i] != '"')
    } else if s[i] == '\\' {
        redirects_from(s, i + 2, false, false)
    } else if s[i] == '\'' {
        redirects_from(s, i + 1, true, false)
    } else if s[i] == '"' {
        redirects_from(s, i + 1, false, true)
    } else if s[i] == '>' {
        let a = target_start(s, i + 1);
        let b = target_end(s, a);
        target_of(s, a, b) + redirects_from(s, b, false, false)
    } else {
        redirects_from(s, i + 1, false, false)
    }
}

#[via_fn]
proof fn redirects_from_decreases(s: Seq<char>, i: int, single: bool, double: bool) {
    if 0 <= i < s.len() {
        lemma_target(s, i + 1);
    }
}

proof fn lemma_target(s: Seq<char>, i: int)
    requires
        0 <= i <= s.len(),
    ensures
        i <= target_start(s, i) <= target_end(s, target_start(s, i)) <= s.len(),
{
    let a = if i < s.len() && s[i] == '>' {
        i + 1
    } else {
        i
    };
    let b = if a < s.len() && s[a] == '|' {
        a + 1
    } else {
        a
    };
    lemma_past_gap(s, b);
    lemma_target_end(s, past_gap(s, b));
}

/// The files that a shell line writes to by redirection, found outside quotes.
pub fn coarse_redirect_targets(command: &str) -> (r: Vec<String>)
    ensures
        texts(r@) == redirects_from(command@, 0, false, false),
{
    let v = to_chars(command);
    let n: usize = v.len();
    let ghost s = command@;
    let mut out: Vec<String> = Vec::new();
    let mut i: usize = 0;
    let mut single = false;
    let mut double = false;
    assert(texts(out@) + redirects_from(s, 0, false, false) =~= redirects_from(s, 0, false, false));
    while i < n
        invariant
            i <= n,
            n == v@.len(),
            v@ == s,
            texts(out@) + redirects_from(s, i as int, single, double) == redirects_from(
                s,
                0,
                false,
                false,
            ),
        decreases n - i,
    {
        let c: char = v[i];
        if single {
            single = c != '\'';
            i += 1;
        } else if double {
            double = c != '"';
            i += 1;
        } else if c == '\\' {
            if i + 1 < n {
                i += 2;
            } else {
                i = n;
                assert(redirects_from(s, n + 1, false, false) =~= redirects_from(
                    s,
                    n as int,
                    false,
                    false,
                ));
            }
        } else if c == '\'' {
            single = true;
            i += 1;
        } else if c == '"' {
            double = true;
            i += 1;
        } else if c == '>' {
            let ghost before = texts(out@);
            let ghost from = i as int;
            i += 1;
            proof {
                lemma_target(s, i as int);
            }
            let ghost a = target_start(s, i as int);
            let ghost b = target_end(s, a);
            if i < n && v[i] == '>' {
                i += 1;
            }
            if i < n && v[i] == '|' {
                i += 1;
            }
            while i < n && gap(v[i])
                invariant
                    i <= n,
                    n == v@.len(),
                    v@ == s,
                    past_gap(s, i as int) == a,
                decreases n - i,
            {
                i += 1;
            }
            let start: usize = i;
            while i < n && !(gap(v[i]) || v[i] == ';' || v[i] == '|' || v[i] == '&' || v[i] == '>'
                || v[i] == '<' || v[i] == '(' || v[i] == ')')
                invariant
                    start <= i <= n,
                    n == v@.len(),
                    v@ == s,
                    target_end(s, i as int) == b,
                decreases n - i,
            {
                i += 1;
            }
            assert(a == start && b == i);
            if i > start {
                let tok = unquote(&v, start, i);
                if !tok.as_str().is_empty() {
                    out.push(tok);
                    assert(texts(out@) =~= before + seq![tok@]);
                }
            }
            assert(texts(out@) =~= before + target_of(s, a, b));
            assert(texts(out@) + redirects_from(s, b, false, false) =~= before + redirects_from(
                s,
                from,
                false,
                false,
            ));
        } else {
            i += 1;
        }
    }
    assert(texts(out@) + Seq::empty() =~= texts(out@));
    out
}

/// Commands whose operands are files that they change.
pub open spec fn is_mutator(name: Seq<char>) -> bool {
    ||| name == "rm"@
    ||| name == "cp"@
    ||| name == "mv"@
    ||| name == "mkdir"@
    ||| name == "rmdir"@
    ||| name == "touch"@
    ||| name == "chmod"@
    ||| name == "chown"@
    ||| name == "ln"@
    ||| name == "dd"@
    ||| name == "truncate"@
    ||| name == "tee"@
    ||| name == "install"@
    ||| name == "shred"@
}

/// Whether the command changes the files that are its operands.
pub fn mutator(name: &str) -> (r: bool)
    ensures
        r == is_mutator(name@),
{
    same(name, "rm") || same(name, "cp") || same(name, "mv") || same(name, "mkdir") || same(
        name,
        "rmdir",
    ) || same(name, "touch") || same(name, "chmod") || same(name, "chown") || same(name, "ln") || same(
        name,
        "dd",
    ) || same(name, "truncate") || same(name, "tee") || same(name, "install") || same(name, "shred")
}

/// The file that an operand of the command `name` has it change, where it does:
/// flags name none, and `dd` names one only with `of=`.
pub open spec fn operand_path(name: Seq<char>, t: Seq<char>) -> Seq<Seq<char>> {
    if begins(t, "-"@) {
        Seq::empty()
    } else if name == "dd"@ {
        if begins(t, "of="@) && t.len() > 3 {
            seq![t.skip(3)]
        } else {
            Seq::empty()
        }
    } else {
        seq![t]
    }
}

/// The files that the operands of the command `name` have it change.
pub open spec fn operand_paths(name: Seq<char>, ts: Seq<Seq<char>>) -> Seq<Seq<char>>
    decreases ts.len(),
{
    if ts.len() == 0 {
        Seq::empty()
    } else {
        operand_paths(name, ts.drop_last()) + operand_path(name, ts.last())
    }
}

/// The files that a single command changes through its operands.
pub open spec fn mutated_by(seg: Seq<char>) -> Seq<Seq<char>> {
    let ws = words_of(seg);
    if ws.len() == 0 {
        Seq::empty()
    } else {
        let name = split_of(ws[0], '/').last();
        if is_mutator(name) {
            operand_paths(name, ws.drop_first())
        } else {
            Seq::empty()
        }
    }
}

/// The files that the commands change through their operands, in order.
pub open spec fn mutated_by_all(segs: Seq<Seq<char>>) -> Seq<Seq<char>>
    decreases segs.len(),
{
    if segs.len() == 0 {
        Seq::empty()
    } else {
        mutated_by_all(segs.drop_last()) + mutated_by(segs.last())
    }
}

fn push_operands(name: &str, ws: &Vec<String>, out: &mut Vec<String>)
    requires
        ws@.len() > 0,
    ensures
        texts(final(out)@) == texts(old(out)@) + operand_paths(name@, texts(ws@).drop_first()),
{
    let ghost first = texts(out@);
    let ghost rest = texts(ws@).drop_first();
    let mut i: usize = 1;
    proof {
        reveal_strlit("of=");
        assert(rest.take(0) =~= Seq::empty());
        assert(texts(out@) =~= first + Seq::empty());
    }
    while i < ws.len()
        invariant
            1 <= i <= ws@.len(),
            rest == texts(ws@).drop_first(),
            "of="@.len() == 3,
            texts(out@) == first + operand_paths(name@, rest.take(i - 1)),
        decreases ws@.len() - i,
    {
        let t = ws[i].as_str();
        let ghost before = texts(out@);
        proof {
            assert(rest.take(i as int).drop_last() =~= rest.take(i - 1));
            assert(rest.take(i as int).last() == t@);
        }
        if starts_with(t, "-") {
            assert(texts(out@) =~= before + operand_path(name@, t@));
        } else if same(name, "dd") {
            if starts_with(t, "of=") {
                let v = to_chars(t);
                if v.len() > 3 {
                    let rest_of = part(&v, 3, v.len());
                    assert(t@.skip(3) =~= rest_of@);
                    out.push(rest_of);
                }
            }
            assert(texts(out@) =~= before + operand_path(name@, t@));
        } else {
            out.push(t.to_owned());
            assert(texts(out@) =~= before + operand_path(name@, t@));
        }
        assert(texts(out@) =~= first + operand_paths(name@, rest.take(i as int)));
        i += 1;
    }
    assert(rest.take(i - 1) =~= rest);
}

/// The files that the commands of a shell line change through their operands.
pub fn coarse_mutation_paths(command: &str) -> (r: Vec<String>)
    ensures
        texts(r@) == mutated_by_all(segments_of(command@)),
{
    let segs = quote_aware_split(command);
    let ghost all = texts(segs@);
    let mut out: Vec<String> = Vec::new();
    let mut i: usize = 0;
    proof {
        assert(all.take(0) =~= Seq::empty());
        assert(texts(out@) =~= Seq::empty());
    }
    while i < segs.len()
        invariant
            i <= segs@.len(),
            all == texts(segs@),
            texts(out@) == mutated_by_all(all.take(i as int)),
        decreases segs@.len() - i,
    {
        let ghost before = texts(out@);
        proof {
            assert(all.take(i + 1).drop_last() =~= all.take(i as int));
            assert(all.take(i + 1).last() == segs@[i as int]@);
        }
        let ws = words(segs[i].as_str());
        assert(texts(ws@).len() == ws@.len());
        if ws.len() > 0 {
            let pieces = split(ws[0].as_str(), '/');
            let name = pieces[pieces.len() - 1].as_str();
            assert(name@ == texts(pieces@).last());
            if mutator(name) {
                push_operands(name, &ws, &mut out);
            }
        }
        assert(texts(out@) =~= before + mutated_by(segs@[i as int]@));
        i += 1;
    }
    assert(all.take(i as int) =~= all);
    out
}

/// The files that a shell line changes: the targets of its redirects, then the operands of
/// its commands that are files. What stands in the body of a here-document is no part of the
/// line.
pub fn bash_mutation_targets(command: &str) -> (r: Vec<String>)
    ensures
        texts(r@) == redirected(pieces_in(command@)) + changed_by(pieces_in(command@)),
{
    let ps = read_line(command);
    let mut out = redirect_targets(&ps);
    let ghost first = texts(out@);
    let mut more = changed_files(&ps);
    let ghost second = texts(more@);
    out.append(&mut more);
    assert(texts(out@) =~= first + second);
    out
}

/// One thing that a tool call asks permission for.
#[derive(Debug)]
pub enum Claim {
    /// Running a command; `head` is its first word.
    Execute { raw: String, head: String },
    /// Writing a file.
    Edit { path: String },
}

/// The text of a claim.
pub enum ClaimView {
    Execute { raw: Seq<char>, head: Seq<char> },
    Edit { path: Seq<char> },
}

impl View for Claim {
    type V = ClaimView;

    open spec fn view(&self) -> ClaimView {
        match self {
            Claim::Execute { raw, head } => ClaimView::Execute { raw: raw@, head: head@ },
            Claim::Edit { path } => ClaimView::Edit { path: path@ },
        }
    }
}

/// The texts of a list of claims.
pub open spec fn claims_view(v: Seq<Claim>) -> Seq<ClaimView> {
    Seq::new(v.len(), |i: int| v[i]@)
}

/// The claim to run a command.
pub open spec fn run_claim(raw: Seq<char>) -> ClaimView {
    ClaimView::Execute {
        raw,
        head: if words_of(raw).len() > 0 {
            words_of(raw)[0]
        } else {
            ""@
        },
    }
}

/// The claims to run each of the commands.
pub open spec fn run_claims(segs: Seq<Seq<char>>) -> Seq<ClaimView> {
    Seq::new(segs.len(), |i: int| run_claim(segs[i]))
}

/// The claims to write each of the files.
pub open spec fn write_claims(paths: Seq<Seq<char>>) -> Seq<ClaimView> {
    Seq::new(paths.len(), |i: int| ClaimView::Edit { path: paths[i] })
}

/// The line holds a construct that is not split: a substitution, a here-document
/// or a quoted escape.
pub open spec fn has_substitution_of(s: Seq<char>) -> bool {
    ||| occurs(s, "$("@)
    ||| occurs(s, "`"@)
    ||| occurs(s, "<("@)
    ||| occurs(s, ">("@)
    ||| occurs(s, "$'"@)
    ||| occurs(s, "<<"@)
}

fn has_substitution(command: &str) -> (r: bool)
    ensures
        r == has_substitution_of(command@),
{
    contains(command, "$(") || contains(command, "`") || contains(command, "<(") || contains(
        command,
        ">(",
    ) || contains(command, "$'") || contains(command, "<<")
}

/// What a shell line asks permission for: one claim for the whole line where it
/// cannot be split, else one per command, per redirect target and per changed
/// file, in that order.
pub open spec fn claims_of(s: Seq<char>) -> Seq<ClaimView> {
    let parts = run_claims(segments_of(s)) + write_claims(redirects_from(s, 0, false, false))
        + write_claims(mutated_by_all(segments_of(s)));
    if has_substitution_of(s) || parts.len() == 0 {
        seq![run_claim(s)]
    } else {
        parts
    }
}

fn run(raw: &str) -> (r: Claim)
    ensures
        r@ == run_claim(raw@),
{
    let ws = words(raw);
    assert(texts(ws@).len() == ws@.len());
    let head = if ws.len() > 0 {
        ws[0].as_str().to_owned()
    } else {
        "".to_owned()
    };
    Claim::Execute { raw: raw.to_owned(), head }
}

fn push_runs(segs: &Vec<String>, out: &mut Vec<Claim>)
    ensures
        claims_view(final(out)@) == claims_view(old(out)@) + run_claims(texts(segs@)),
{
    let ghost first = claims_view(out@);
    let ghost all = run_claims(texts(segs@));
    let mut i: usize = 0;
    assert(claims_view(out@) =~= first + all.take(0));
    while i < segs.len()
        invariant
            i <= segs@.len(),
            all == run_claims(texts(segs@)),
            claims_view(out@) == first + all.take(i as int),
        decreases segs@.len() - i,
    {
        let ghost before = claims_view(out@);
        let c = run(segs[i].as_str());
        out.push(c);
        assert(claims_view(out@) =~= before.push(all[i as int]));
        assert(all.take(i + 1) =~= all.take(i as int).push(all[i as int]));
        assert(claims_view(out@) =~= first + all.take(i + 1));
        i += 1;
    }
    assert(all.take(i as int) =~= all);
}

fn push_writes(paths: &Vec<String>, out: &mut Vec<Claim>)
    ensures
        claims_view(final(out)@) == claims_view(old(out)@) + write_claims(texts(paths@)),
{
    let ghost first = claims_view(out@);
    let ghost all = write_claims(texts(paths@));
    let mut i: usize = 0;
    assert(claims_view(out@) =~= first + all.take(0));
    while i < paths.len()
        invariant
            i <= paths@.len(),
            all == write_claims(texts(paths@)),
            claims_view(out@) == first + all.take(i as int),
        decreases paths@.len() - i,
    {
        let ghost before = claims_view(out@);
        let c = Claim::Edit { path: paths[i].as_str().to_owned() };
        out.push(c);
        assert(claims_view(out@) =~= before.push(all[i as int]));
        assert(all.take(i + 1) =~= all.take(i as int).push(all[i as int]));
        assert(claims_view(out@) =~= first + all.take(i + 1));
        i += 1;
    }
    assert(all.take(i as int) =~= all);
}

/// What a shell line asks permission for, read off its text alone.
pub fn bash_claims(command: &str) -> (r: Vec<Claim>)
    ensures
        claims_view(r@) == claims_of(command@),
{
    let whole = has_substitution(command);
    let mut out: Vec<Claim> = Vec::new();
    let ghost parts = run_claims(segments_of(command@)) + write_claims(
        redirects_from(command@, 0, false, false),
    ) + write_claims(mutated_by_all(segments_of(command@)));
    assert(claims_view(out@) =~= Seq::empty());
    if !whole {
        let segs = quote_aware_split(command);
        push_runs(&segs, &mut out);
        let redirects = coarse_redirect_targets(command);
        push_writes(&redirects, &mut out);
        let changed = coarse_mutation_paths(command);
        push_writes(&changed, &mut out);
        assert(claims_view(out@) =~= parts);
    }
    assert(claims_view(out@).len() == out@.len());
    if out.len() == 0 {
        out.push(run(command));
        assert(claims_view(out@) =~= seq![run_claim(command@)]);
    }
    out
}

/// The directory in which a command line leaves the shell that starts in `base`:
/// each `cd` or `pushd` among the commands moves it.
pub open spec fn moved_by(dir: Seq<char>, seg: Seq<char>) -> Seq<char> {
    let ws = words_of(seg);
    if ws.len() > 0 && (ws[0] == "cd"@ || ws[0] == "pushd"@) {
        match first_operand(ws.drop_first()) {
            Some(t) => if unquoted(t).len() == 0 {
                dir
            } else if is_absolute_of(unquoted(t)) {
                unquoted(t)
            } else {
                normalize_of(joined(dir, unquoted(t)))
            },
            None => dir,
        }
    } else {
        dir
    }
}

/// The first word that is not a flag.
pub open spec fn first_operand(ws: Seq<Seq<char>>) -> Option<Seq<char>>
    decreases ws.len(),
{
    if ws.len() == 0 {
        None
    } else if begins(ws[0], "-"@) {
        first_operand(ws.drop_first())
    } else {
        Some(ws[0])
    }
}

/// The directory after all the commands.
pub open spec fn moved_by_all(base: Seq<char>, segs: Seq<Seq<char>>) -> Seq<char>
    decreases segs.len(),
{
    if segs.len() == 0 {
        base
    } else {
        moved_by(moved_by_all(base, segs.drop_last()), segs.last())
    }
}

fn move_dir(dir: &str, seg: &str) -> (r: String)
    ensures
        r@ == moved_by(dir@, seg@),
{
    let ws = words(seg);
    let ghost all = texts(ws@);
    assert(all.len() == ws@.len());
    if ws.len() > 0 && (same(ws[0].as_str(), "cd") || same(ws[0].as_str(), "pushd")) {
        let mut i: usize = 1;
        assert(all.drop_first() =~= all.skip(1));
        while i < ws.len()
            invariant
                1 <= i <= ws@.len(),
                all == texts(ws@),
                ws@.len() > 0,
                all[0] == "cd"@ || all[0] == "pushd"@,
                all == words_of(seg@),
                first_operand(all.drop_first()) == first_operand(all.skip(i as int)),
            decreases ws@.len() - i,
        {
            let w = ws[i].as_str();
            assert(all.skip(i as int)[0] == w@);
            assert(all.skip(i as int).drop_first() =~= all.skip(i + 1));
            if !starts_with(w, "-") {
                let v = to_chars(w);
                let t = unquote(&v, 0, v.len());
                assert(v@.subrange(0, v@.len() as int) =~= v@);
                if t.as_str().is_empty() {
                    return dir.to_owned();
                }
                if is_absolute(t.as_str()) {
                    return t;
                }
                let j = join_path(dir, t.as_str());
                return normalize_lexical(j.as_str());
            }
            i += 1;
        }
        assert(all.skip(i as int) =~= Seq::empty());
    }
    dir.to_owned()
}

/// The directory in which the commands leave a shell that starts in `base`.
pub fn fold_cd_dirs(base: &str, segments: &Vec<String>) -> (r: String)
    ensures
        r@ == moved_by_all(base@, texts(segments@)),
{
    let ghost all = texts(segments@);
    let mut dir = base.to_owned();
    let mut i: usize = 0;
    assert(all.take(0) =~= Seq::empty());
    while i < segments.len()
        invariant
            i <= segments@.len(),
            all == texts(segments@),
            dir@ == moved_by_all(base@, all.take(i as int)),
        decreases segments@.len() - i,
    {
        assert(all.take(i + 1).drop_last() =~= all.take(i as int));
        assert(all.take(i + 1).last() == segments@[i as int]@);
        dir = move_dir(dir.as_str(), segments[i].as_str());
        i += 1;
    }
    assert(all.take(i as int) =~= all);
    dir
}

/// The absolute path of a target that is written from the directory `dir`.
pub open spec fn resolved(dir: Seq<char>, target: Seq<char>) -> Seq<char> {
    if is_absolute_of(target) {
        target
    } else {
        normalize_of(joined(dir, target))
    }
}

/// The absolute path of a target that is written from the given directory.
pub fn resolve_target(effective_dir: &str, target: &str) -> (r: String)
    ensures
        r@ == resolved(effective_dir@, target@),
{
    if is_absolute(target) {
        target.to_owned()
    } else {
        let j = join_path(effective_dir, target);
        normalize_lexical(j.as_str())
    }
}

proof fn lemma_joined_is_absolute(dir: Seq<char>, target: Seq<char>)
    requires
        is_absolute_of(dir),
    ensures
        is_absolute_of(normalize_of(joined(dir, target))),
{
    reveal_strlit("/");
    let j = joined(dir, target);
    if !is_absolute_of(target) {
        assert(dir.subrange(0, 1)[0] == dir[0]);
        assert(j[0] == '/');
        assert(j.subrange(0, 1) =~= "/"@);
    }
    let n = normalize_of(j);
    assert(n[0] == '/');
    assert(n.subrange(0, 1) =~= "/"@);
}

/// From an absolute directory, however the commands move it, the shell ends in an absolute
/// directory, and what is written there resolves to an absolute path; a target that is absolute
/// already stays as it is.
pub proof fn law_targets_are_absolute(base: Seq<char>, segs: Seq<Seq<char>>, target: Seq<char>)
    requires
        is_absolute_of(base),
    ensures
        is_absolute_of(moved_by_all(base, segs)),
        is_absolute_of(resolved(moved_by_all(base, segs), target)),
        is_absolute_of(target) ==> resolved(moved_by_all(base, segs), target) == target,
    decreases segs.len(),
{
    if segs.len() > 0 {
        law_targets_are_absolute(base, segs.drop_last(), target);
        let dir = moved_by_all(base, segs.drop_last());
        match first_operand(words_of(segs.last()).drop_first()) {
            Some(t) => {
                lemma_joined_is_absolute(dir, unquoted(t));
            },
            None => {},
        }
    }
    lemma_joined_is_absolute(moved_by_all(base, segs), target);
}

/// The targets resolved against a directory.
pub open spec fn all_resolved(dir: Seq<char>, targets: Seq<Seq<char>>) -> Seq<Seq<char>> {
    Seq::new(targets.len(), |i: int| resolved(dir, targets[i]))
}

fn resolve_all(dir: &str, targets: &Vec<String>) -> (r: Vec<String>)
    ensures
        texts(r@) == all_resolved(dir@, texts(targets@)),
{
    let mut out: Vec<String> = Vec::new();
    let ghost all = all_resolved(dir@, texts(targets@));
    let mut i: usize = 0;
    assert(texts(out@) =~= all.take(0));
    while i < targets.len()
        invariant
            i <= targets@.len(),
            all == all_resolved(dir@, texts(targets@)),
            texts(out@) == all.take(i as int),
        decreases targets@.len() - i,
    {
        let ghost before = texts(out@);
        let t = resolve_target(dir, targets[i].as_str());
        out.push(t);
        assert(texts(out@) =~= before.push(all[i as int]));
        assert(all.take(i + 1) =~= all.take(i as int).push(all[i as int]));
        i += 1;
    }
    assert(all.take(i as int) =~= all);
    out
}

/// What a parsed shell line asks permission for, given the commands, redirect
/// targets and changed files that a shell grammar found in it. A line that the
/// grammar declines to split is claimed as a whole; files are written from the
/// directory to which the commands have moved.
pub open spec fn parsed_claims_of(
    command: Seq<char>,
    segments: Seq<Seq<char>>,
    complex: bool,
    redirects: Seq<Seq<char>>,
    changed: Seq<Seq<char>>,
    working_dir: Seq<char>,
) -> Seq<ClaimView> {
    let dir = moved_by_all(working_dir, segments);
    let runs = if complex {
        seq![run_claim(command)]
    } else {
        run_claims(segments)
    };
    let all = runs + write_claims(all_resolved(dir, redirects)) + write_claims(
        all_resolved(dir, changed),
    );
    if all.len() == 0 {
        seq![run_claim(command)]
    } else {
        all
    }
}

/// What a shell line asks permission for, from what a shell grammar found in it.
pub fn parsed_bash_claims(
    command: &str,
    segments: &Vec<String>,
    complex: bool,
    redirects: &Vec<String>,
    changed: &Vec<String>,
    working_dir: &str,
) -> (r: Vec<Claim>)
    ensures
        claims_view(r@) == parsed_claims_of(
            command@,
            texts(segments@),
            complex,
            texts(redirects@),
            texts(changed@),
            working_dir@,
        ),
{
    let dir = fold_cd_dirs(working_dir, segments);
    let mut out: Vec<Claim> = Vec::new();
    let ghost none = claims_view(out@);
    assert(none =~= Seq::empty());
    if complex {
        let c = run(command);
        out.push(c);
        assert(claims_view(out@) =~= seq![run_claim(command@)]);
    } else {
        push_runs(segments, &mut out);
        assert(claims_view(out@) =~= run_claims(texts(segments@)));
    }
    let r = resolve_all(dir.as_str(), redirects);
    push_writes(&r, &mut out);
    let m = resolve_all(dir.as_str(), changed);
    push_writes(&m, &mut out);
    assert(claims_view(out@).len() == out@.len());
    if out.len() == 0 {
        out.push(run(command));
        assert(claims_view(out@) =~= seq![run_claim(command@)]);
    }
    out
}

/// The text from `i` on with each line feed outside quotes as a semicolon: both end a command.
/// The flags are as for the split into commands.
pub open spec fn joined_from(s: Seq<char>, i: int, single: bool, double: bool, escaped: bool) -> Seq<char>
    decreases s.len() - i,
{
    if i < 0 || i >= s.len() {
        Seq::empty()
    } else if escaped {
        seq![s[i]] + joined_from(s, i + 1, single, double, false)
    } else if s[i] == '\\' && !single {
        seq![s[i]] + joined_from(s, i + 1, single, double, true)
    } else if s[i] == '\'' && !double {
        seq![s[i]] + joined_from(s, i + 1, !single, double, false)
    } else if s[i] == '"' && !single {
        seq![s[i]] + joined_from(s, i + 1, single, !double, false)
    } else if s[i] == '\n' && !single && !double {
        seq![';'] + joined_from(s, i + 1, single, double, false)
    } else {
        seq![s[i]] + joined_from(s, i + 1, single, double, false)
    }
}

/// The commands of a text of one or more lines.
pub open spec fn commands_of(s: Seq<char>) -> Seq<Seq<char>> {
    segments_of(joined_from(s, 0, false, false, false))
}

fn split_commands(command: &str) -> (r: Vec<String>)
    ensures
        texts(r@) == commands_of(command@),
{
    let v = to_chars(command);
    let ghost s = command@;
    let ghost whole = joined_from(s, 0, false, false, false);
    let mut out = String::new();
    let mut single = false;
    let mut double = false;
    let mut escaped = false;
    let mut i: usize = 0;
    assert(out@ + whole =~= whole);
    while i < v.len()
        invariant
            v@ == s,
            i <= v@.len(),
            out@ + joined_from(s, i as int, single, double, escaped) == whole,
        decreases v@.len() - i,
    {
        let c: char = v[i];
        let ghost before = out@;
        let ghost rest = joined_from(s, i as int, single, double, escaped);
        if escaped {
            escaped = false;
            out.push(c);
        } else if c == '\\' && !single {
            escaped = true;
            out.push(c);
        } else if c == '\'' && !double {
            single = !single;
            out.push(c);
        } else if c == '"' && !single {
            double = !double;
            out.push(c);
        } else if c == '\n' && !single && !double {
            out.push(';');
        } else {
            out.push(c);
        }
        i += 1;
        assert(out@ + joined_from(s, i as int, single, double, escaped) =~= before + rest);
    }
    assert(out@ + Seq::empty() =~= out@);
    quote_aware_split(out.as_str())
}

/// What a shell line asks permission for when it runs in the given directory: to run each of
/// its commands, or the line as a whole where it is too involved to be split, and to write
/// each file that it changes, seen from where its `cd` commands lead.
pub fn read_bash_claims(command: &str, working_dir: &str) -> (r: Vec<Claim>)
    ensures
        claims_view(r@) == parsed_claims_of(
            command@,
            commands_of(command@),
            has_substitution_of(command@),
            redirected(pieces_in(command@)),
            changed_by(pieces_in(command@)),
            working_dir@,
        ),
{
    let segments = split_commands(command);
    let ps = read_line(command);
    let redirects = redirect_targets(&ps);
    let changed = changed_files(&ps);
    let complex = has_substitution(command);
    parsed_bash_claims(command, &segments, complex, &redirects, &changed, working_dir)
}

/// A file under `/dev` or `/proc`, which no command really changes.
pub open spec fn is_device(p: Seq<char>) -> bool {
    begins(p, "/dev/"@) || begins(p, "/proc/"@)
}

/// The files to record as changed: those among the targets that are no device
/// files, relative ones seen from the base directory where there is one.
pub open spec fn recorded(targets: Seq<Seq<char>>, base: Option<Seq<char>>) -> Seq<Seq<char>>
    decreases targets.len(),
{
    if targets.len() == 0 {
        Seq::empty()
    } else {
        let before = recorded(targets.drop_last(), base);
        let t = targets.last();
        if is_device(t) {
            before
        } else {
            match base {
                Some(b) => before.push(joined(b, t)),
                None => before.push(t),
            }
        }
    }
}

/// The files that a finished shell line has changed.
pub fn mark_bash_mutations(targets: &Vec<String>, base: &Option<String>) -> (r: Vec<String>)
    ensures
        texts(r@) == recorded(
            texts(targets@),
            match base {
                Some(b) => Some(b@),
                None => None,
            },
        ),
{
    let ghost all = texts(targets@);
    let ghost from: Option<Seq<char>> = match base {
        Some(b) => Some(b@),
        None => None,
    };
    let mut out: Vec<String> = Vec::new();
    let mut i: usize = 0;
    proof {
        assert(all.take(0) =~= Seq::empty());
        assert(texts(out@) =~= Seq::empty());
    }
    while i < targets.len()
        invariant
            i <= targets@.len(),
            all == texts(targets@),
            from == (match base {
                Some(b) => Some(b@),
                None => None,
            }),
            texts(out@) == recorded(all.take(i as int), from),
        decreases targets@.len() - i,
    {
        let t = targets[i].as_str();
        let ghost before = texts(out@);
        proof {
            assert(all.take(i + 1).drop_last() =~= all.take(i as int));
            assert(all.take(i + 1).last() == t@);
        }
        if !(starts_with(t, "/dev/") || starts_with(t, "/proc/")) {
            let p = match base {
                Some(b) => join_path(b.as_str(), t),
                None => t.to_owned(),
            };
            out.push(p);
            assert(texts(out@) =~= before.push(p@));
        }
        i += 1;
    }
    assert(all.take(i as int) =~= all);
    out
}

/// The quoting state after the first `n` characters of `s`: inside single quotes,
/// inside double quotes, behind a backslash. `None` where one of them separates
/// commands.
pub open spec fn quoting(s: Seq<char>, n: int) -> Option<(bool, bool, bool)>
    decreases n,
{
    if n <= 0 {
        Some((false, false, false))
    } else {
        match quoting(s, n - 1) {
            None => None,
            Some((single, double, escaped)) => {
                let c = s[n - 1];
                if escaped {
                    Some((single, double, false))
                } else if c == '\\' && !single {
                    Some((single, double, true))
                } else if c == '\'' && !double {
                    Some((!single, double, false))
                } else if c == '"' && !single {
                    Some((single, !double, false))
                } else if !single && !double && separates(c) {
                    None
                } else {
                    Some((single, double, false))
                }
            },
        }
    }
}

/// A trimmed text that is one command: nothing in it separates commands.
pub open spec fn is_single_command(t: Seq<char>) -> bool {
    t.len() > 0 && trim_of(t) == t && quoting(t, t.len() as int) is Some
}

proof fn lemma_quoting_prefix(s: Seq<char>, m: int, n: int)
    requires
        0 <= n <= m <= s.len(),
    ensures
        quoting(s.take(m), n) == quoting(s, n),
        quoting(s, m) is Some ==> quoting(s, n) is Some,
    decreases m + n,
{
    if n > 0 {
        lemma_quoting_prefix(s, m, n - 1);
        assert(s.take(m)[n - 1] == s[n - 1]);
    }
    if n < m {
        lemma_quoting_prefix(s, m - 1, n);
        assert(quoting(s, m) is Some ==> quoting(s, m - 1) is Some);
    }
}

proof fn lemma_quoting_behind_gap(s: Seq<char>, a: int, n: int)
    requires
        0 <= a <= s.len(),
        0 <= n <= s.len() - a,
        forall|k: int| 0 <= k < a ==> is_white_space(s[k]),
    ensures
        quoting(s.skip(a), n) == quoting(s, a + n),
    decreases a + n,
{
    if n > 0 {
        lemma_quoting_behind_gap(s, a, n - 1);
        assert(s.skip(a)[n - 1] == s[a + n - 1]);
    } else if a > 0 {
        lemma_quoting_behind_gap(s, a - 1, 0);
        assert(is_white_space(s[a - 1]));
    }
}

proof fn lemma_one_segment(t: Seq<char>, i: int)
    requires
        0 <= i <= t.len(),
        quoting(t, t.len() as int) is Some,
    ensures
        ({
            let q = quoting(t, i)->0;
            segments_from(t, i, 0, q.0, q.1, q.2) == segment(t, 0, t.len() as int)
        }),
    decreases t.len() - i,
{
    lemma_quoting_prefix(t, t.len() as int, i);
    if i < t.len() {
        lemma_quoting_prefix(t, t.len() as int, i + 1);
        lemma_one_segment(t, i + 1);
    }
}

proof fn lemma_trimmed_piece(s: Seq<char>, a: int, b: int)
    requires
        0 <= a < b <= s.len(),
        quoting(s.subrange(a, b), b - a) is Some,
        trim_of(s.subrange(a, b)).len() > 0,
    ensures
        is_single_command(trim_of(s.subrange(a, b))),
{
    let u = s.subrange(a, b);
    let t = trim_of(u);
    let (x, y) = crate::text::lemma_trim_range(u);
    crate::text::lemma_trim_twice(u);
    lemma_quoting_prefix(u, u.len() as int, y);
    lemma_quoting_behind_gap(u, x, y - x);
    let v = u.skip(x);
    lemma_quoting_prefix(v, y - x, y - x);
    assert(v.take(y - x) =~= t);
}

proof fn lemma_segments_single(
    s: Seq<char>,
    i: int,
    start: int,
    single: bool,
    double: bool,
    escaped: bool,
)
    requires
        0 <= start <= i <= s.len(),
        quoting(s.subrange(start, i), i - start) == Some((single, double, escaped)),
    ensures
        forall|k: int|
            0 <= k < segments_from(s, i, start, single, double, escaped).len() ==> is_single_command(
                #[trigger] segments_from(s, i, start, single, double, escaped)[k],
            ),
    decreases s.len() - i,
{
    let all = segments_from(s, i, start, single, double, escaped);
    if i >= s.len() {
        if start < s.len() && trim_of(s.subrange(start, i)).len() > 0 {
            lemma_trimmed_piece(s, start, i);
        }
        assert(all == segment(s, start, i));
    } else {
        let u = s.subrange(start, i + 1);
        assert(u.take(i - start) =~= s.subrange(start, i));
        lemma_quoting_prefix(u, i - start, i - start);
        assert(u[i - start] == s[i]);
        let plain = !single && !double && !escaped;
        if plain && (pair_at(s, i) || separates(s[i])) {
            let next = if pair_at(s, i) {
                i + 2
            } else {
                i + 1
            };
            lemma_segments_single(s, next, next, false, false, false);
            if start < i && trim_of(s.subrange(start, i)).len() > 0 {
                lemma_trimmed_piece(s, start, i);
            }
            let first = segment(s, start, i);
            let rest = segments_from(s, next, next, false, false, false);
            assert(all == first + rest);
            assert forall|k: int| 0 <= k < all.len() implies is_single_command(#[trigger] all[k]) by {
                if k >= first.len() {
                    assert(all[k] == rest[k - first.len()]);
                }
            }
        } else {
            assert(quoting(u, i - start) == Some((single, double, escaped)));
            assert(quoting(u, i + 1 - start) is Some);
            let q = quoting(u, i + 1 - start)->0;
            lemma_segments_single(s, i + 1, start, q.0, q.1, q.2);
            assert(all == segments_from(s, i + 1, start, q.0, q.1, q.2));
        }
    }
}

/// No command hides in another: each command that a shell line is split into is
/// trimmed and, split again, is itself its only command.
pub proof fn law_segments_are_single_commands(s: Seq<char>, k: int)
    requires
        0 <= k < segments_of(s).len(),
    ensures
        is_single_command(segments_of(s)[k]),
        segments_of(segments_of(s)[k]) == seq![segments_of(s)[k]],
{
    assert(s.subrange(0, 0) =~= Seq::empty());
    lemma_segments_single(s, 0, 0, false, false, false);
    let t = segments_of(s)[k];
    lemma_one_segment(t, 0);
    assert(t.subrange(0, t.len() as int) =~= t);
}

/// Every shell line asks for something; one that can be split asks to run each
/// of its commands and to write each redirect target and each changed file.
pub proof fn law_claims_cover_the_line(s: Seq<char>)
    ensures
        claims_of(s).len() > 0,
        has_substitution_of(s) ==> claims_of(s) == seq![run_claim(s)],
        !has_substitution_of(s) ==> forall|k: int|
            0 <= k < segments_of(s).len() ==> claims_of(s).contains(
                run_claim(#[trigger] segments_of(s)[k]),
            ),
        !has_substitution_of(s) ==> forall|k: int|
            0 <= k < redirects_from(s, 0, false, false).len() ==> claims_of(s).contains(
                ClaimView::Edit { path: #[trigger] redirects_from(s, 0, false, false)[k] },
            ),
        !has_substitution_of(s) ==> forall|k: int|
            0 <= k < mutated_by_all(segments_of(s)).len() ==> claims_of(s).contains(
                ClaimView::Edit { path: #[trigger] mutated_by_all(segments_of(s))[k] },
            ),
{
    if !has_substitution_of(s) {
        let segs = segments_of(s);
        let reds = redirects_from(s, 0, false, false);
        let muts = mutated_by_all(segs);
        let all = run_claims(segs) + write_claims(reds) + write_claims(muts);
        assert forall|k: int| 0 <= k < segs.len() implies claims_of(s).contains(
            run_claim(#[trigger] segs[k]),
        ) by {
            assert(all[k] == run_claim(segs[k]));
        }
        assert forall|k: int| 0 <= k < reds.len() implies claims_of(s).contains(
            ClaimView::Edit { path: #[trigger] reds[k] },
        ) by {
            assert(all[segs.len() + k] == ClaimView::Edit { path: reds[k] });
        }
        assert forall|k: int| 0 <= k < muts.len() implies claims_of(s).contains(
            ClaimView::Edit { path: #[trigger] muts[k] },
        ) by {
            assert(all[segs.len() + reds.len() + k] == ClaimView::Edit { path: muts[k] });
        }
    }
}

} // verus!
