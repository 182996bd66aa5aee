//! The `apply_patch` tool: several file operations in one call, done in order until
//! one fails.
use vstd::prelude::*;
use crate::splice::{
    lemma_next_at, lemma_occurrences, lemma_replace_absent, lemma_replace_step, next_at, occurrences,
    occurrences_from, replace, replace_of, spans,
};
use crate::text::{
    begins, byte_len, cat, contains, decimal, decimal_of, has_at, join, join_of, lemma_occurs_between, occurs,
    part, size, texts, to_chars,
};
use crate::tools::cache::{check_read, may_change, unread_text, ToolCache};
use crate::tools::{AskSender, PermCheck};

verus! {

/// Bytes that a created file may have.
pub const MAX_CREATE_SIZE: usize = 1048576;

/// One file operation.
#[derive(Debug)]
pub enum PatchOp {
    Create { path: String, content: String },
    Update { path: String, old_text: String, new_text: String },
    Delete { path: String },
    Rename { path: String, new_path: String },
}

/// Arguments of the `apply_patch` tool.
#[derive(Debug)]
pub struct ApplyPatchArgs {
    pub operations: Vec<PatchOp>,
}

/// The `apply_patch` tool.
pub struct ApplyPatchTool {
    pub permission: Option<PermCheck>,
    pub ask_tx: Option<AskSender>,
    pub cache: Option<ToolCache>,
}

impl ApplyPatchTool {
    /// The tool without a cache.
    pub fn new(permission: Option<PermCheck>, ask_tx: Option<AskSender>) -> (r: Self)
        ensures
            r.permission == permission,
            r.ask_tx == ask_tx,
            r.cache is None,
    {
        ApplyPatchTool { permission, ask_tx, cache: None }
    }

    /// The tool with a cache that its changes clear.
    pub fn with_cache(
        permission: Option<PermCheck>,
        ask_tx: Option<AskSender>,
        cache: ToolCache,
    ) -> (r: Self)
        ensures
            r.permission == permission,
            r.ask_tx == ask_tx,
            r.cache == Some(cache),
    {
        ApplyPatchTool { permission, ask_tx, cache: Some(cache) }
    }
}

/// Number of places at which `p` stands in `s`, counted from left to right without
/// overlap; the empty text stands before, between and behind all characters.
pub open spec fn match_count(s: Seq<char>, p: Seq<char>) -> nat {
    if p.len() == 0 {
        s.len() + 1
    } else {
        occurrences_from(s, p, 0).len()
    }
}

/// Contents with line feeds alone as line endings, where there are others.
pub open spec fn plain_endings(s: Seq<char>) -> Seq<char> {
    if occurs(s, "\r\n"@) {
        replace_of(s, "\r\n"@, "\n"@)
    } else {
        s
    }
}

/// Position in `original` of what stands at `k` once each carriage return directly before a
/// line feed is left out.
pub open spec fn raw_at(original: Seq<char>, k: int) -> int
    decreases k,
{
    if k <= 0 {
        0
    } else if begins(original, "\r\n"@) {
        2 + raw_at(original.skip(2), k - 1)
    } else {
        1 + raw_at(original.skip(1), k - 1)
    }
}

/// A replacement as it is written into a file: with the line endings of a file that has
/// carriage returns in some.
pub open spec fn written(new_text: Seq<char>, crlf: bool) -> Seq<char> {
    if crlf {
        replace_of(replace_of(new_text, "\r\n"@, "\n"@), "\n"@, "\r\n"@)
    } else {
        new_text
    }
}

/// What an update of one place makes of a file: the text is looked for with plain
/// line endings, must stand there exactly once, and all that is around it stays as it is.
pub open spec fn updated(original: Seq<char>, path: Seq<char>, old_text: Seq<char>, new_text: Seq<char>) -> Result<
    Seq<char>,
    Seq<char>,
> {
    let s = plain_endings(original);
    let p = replace_of(old_text, "\r\n"@, "\n"@);
    let n = match_count(s, p);
    if n == 0 {
        Err("text not found in "@ + path)
    } else if n > 1 {
        Err(
            "text matches "@ + decimal_of(n) + " locations in "@ + path
                + " — provide more context to make unique"@,
        )
    } else {
        let at = if p.len() == 0 {
            0
        } else {
            occurrences_from(s, p, 0)[0].0
        };
        Ok(
            original.take(raw_at(original, at)) + written(new_text, occurs(original, "\r\n"@))
                + original.skip(raw_at(original, at + p.len())),
        )
    }
}

proof fn lemma_plain_endings(s: Seq<char>)
    ensures
        plain_endings(s) == replace_of(s, "\r\n"@, "\n"@),
{
    reveal_strlit("\r\n");
    if !occurs(s, "\r\n"@) {
        lemma_replace_absent(s, "\r\n"@, "\n"@);
    }
}

proof fn lemma_plain_step(s: Seq<char>)
    requires
        s.len() > 0,
    ensures
        replace_of(s, "\r\n"@, "\n"@) == (if begins(s, "\r\n"@) {
            "\n"@ + replace_of(s.skip(2), "\r\n"@, "\n"@)
        } else {
            s.take(1) + replace_of(s.skip(1), "\r\n"@, "\n"@)
        }),
{
    reveal_strlit("\r\n");
    let p = "\r\n"@;
    let lf = "\n"@;
    let t = s.skip(1);
    if begins(s, p) {
        lemma_replace_step(s, p, lf, 0);
        assert(s.take(0) + lf =~= lf);
    } else if occurs(s, p) {
        lemma_next_at(s, p, 0);
        let w = choose|w: int| has_at(s, p, w);
        assert(has_at(s, p, w));
        let i = next_at(s, p, 0);
        lemma_replace_step(s, p, lf, i);
        assert(t.subrange(i - 1, i + 1) =~= s.subrange(i, i + 2));
        assert forall|j: int| 0 <= j < i - 1 implies !has_at(t, p, j) by {
            if has_at(t, p, j) {
                assert(s.subrange(j + 1, j + 3) =~= t.subrange(j, j + 2));
                assert(has_at(s, p, j + 1));
            }
        }
        lemma_replace_step(t, p, lf, i - 1);
        assert(t.skip(i + 1) =~= s.skip(i + 2));
        assert(s.take(1) + t.take(i - 1) =~= s.take(i));
        let rest = replace_of(s.skip(i + 2), p, lf);
        assert(s.take(i) + lf + rest =~= s.take(1) + (t.take(i - 1) + lf + rest));
    } else {
        if occurs(t, p) {
            let j = choose|j: int| has_at(t, p, j);
            assert(s.subrange(j + 1, j + 3) =~= t.subrange(j, j + 2));
            assert(has_at(s, p, j + 1));
        }
        lemma_replace_absent(s, p, lf);
        lemma_replace_absent(t, p, lf);
        assert(s.take(1) + t =~= s);
    }
}

proof fn lemma_raw(s: Seq<char>, k: int)
    requires
        0 <= k <= replace_of(s, "\r\n"@, "\n"@).len(),
    ensures
        0 <= raw_at(s, k) <= s.len(),
        replace_of(s.take(raw_at(s, k)), "\r\n"@, "\n"@) == replace_of(s, "\r\n"@, "\n"@).take(k),
        replace_of(s.skip(raw_at(s, k)), "\r\n"@, "\n"@) == replace_of(s, "\r\n"@, "\n"@).skip(k),
    decreases k,
{
    reveal_strlit("\r\n");
    reveal_strlit("\n");
    let p = "\r\n"@;
    let lf = "\n"@;
    let all = replace_of(s, p, lf);
    let none = Seq::<char>::empty();
    assert(!occurs(none, p)) by {
        if occurs(none, p) {
            let j = choose|j: int| has_at(none, p, j);
            assert(has_at(none, p, j));
        }
    }
    lemma_replace_absent(none, p, lf);
    if k == 0 {
        assert(s.take(0) =~= none);
        assert(all.take(0) =~= none);
        assert(s.skip(0) =~= s);
        assert(all.skip(0) =~= all);
    } else {
        if s.len() == 0 {
            assert(s =~= none);
        }
        lemma_plain_step(s);
        let n: int = if begins(s, p) {
            2
        } else {
            1
        };
        let t = s.skip(n);
        let rest = replace_of(t, p, lf);
        let first = if begins(s, p) {
            lf
        } else {
            s.take(1)
        };
        assert(all =~= first + rest);
        lemma_raw(t, k - 1);
        let m = raw_at(t, k - 1);
        assert(raw_at(s, k) == n + m);
        let head = s.take(n + m);
        assert(head.skip(n) =~= t.take(m));
        if begins(s, p) {
            assert(head.subrange(0, 2) =~= s.subrange(0, 2));
            assert(begins(head, p));
        } else if begins(head, p) {
            assert(head.subrange(0, 2) =~= s.subrange(0, 2));
        }
        lemma_plain_step(head);
        assert(head.take(1) =~= s.take(1));
        assert(first + rest.take(k - 1) =~= all.take(k));
        assert(s.skip(n + m) =~= t.skip(m));
        assert(rest.skip(k - 1) =~= all.skip(k));
    }
}

proof fn lemma_raw_sum(s: Seq<char>, j: int, k: int)
    requires
        0 <= j,
        0 <= k,
        j + k <= replace_of(s, "\r\n"@, "\n"@).len(),
    ensures
        raw_at(s, j + k) == raw_at(s, j) + raw_at(s.skip(raw_at(s, j)), k),
    decreases j,
{
    if j == 0 {
        assert(s.skip(0) =~= s);
    } else {
        reveal_strlit("\r\n");
        reveal_strlit("\n");
        lemma_raw(s, j);
        let n: int = if begins(s, "\r\n"@) {
            2
        } else {
            1
        };
        if s.len() == 0 {
            assert(raw_at(s, j) >= 1) by {
                lemma_raw_grows(s.skip(n), j - 1);
            }
        }
        lemma_plain_step(s);
        let t = s.skip(n);
        lemma_raw(t, j - 1);
        lemma_raw_sum(t, j - 1, k);
        assert(t.skip(raw_at(t, j - 1)) =~= s.skip(raw_at(s, j)));
    }
}

proof fn lemma_raw_grows(s: Seq<char>, k: int)
    ensures
        raw_at(s, k) >= 0,
    decreases k,
{
    if k > 0 {
        if begins(s, "\r\n"@) {
            lemma_raw_grows(s.skip(2), k - 1);
        } else {
            lemma_raw_grows(s.skip(1), k - 1);
        }
    }
}

/// Position in the text of what stands at `k` once its line endings are plain.
fn raw_position(v: &Vec<char>, k: usize) -> (r: usize)
    requires
        k <= replace_of(v@, "\r\n"@, "\n"@).len(),
    ensures
        r == raw_at(v@, k as int),
        r <= v@.len(),
{
    proof {
        reveal_strlit("\r\n");
        reveal_strlit("\n");
        lemma_raw(v@, k as int);
        assert(v@.skip(0) =~= v@);
    }
    let n: usize = v.len();
    let mut i: usize = 0;
    let mut left: usize = k;
    while left > 0
        invariant
            n == v@.len(),
            i <= n,
            left <= k,
            raw_at(v@, k as int) == i + raw_at(v@.skip(i as int), left as int),
            raw_at(v@, k as int) <= n,
        decreases left,
    {
        let ghost rest = v@.skip(i as int);
        proof {
            reveal_strlit("\r\n");
            if begins(rest, "\r\n"@) {
                lemma_raw_grows(rest.skip(2), left - 1);
                assert(rest.subrange(0, 2)[0] == '\r' && rest.subrange(0, 2)[1] == '\n');
                assert(rest.skip(2) =~= v@.skip(i + 2));
            } else {
                lemma_raw_grows(rest.skip(1), left - 1);
                assert(rest.skip(1) =~= v@.skip(i + 1));
            }
        }
        if n - i >= 2 && v[i] == '\r' && v[i + 1] == '\n' {
            assert(rest.subrange(0, 2) =~= "\r\n"@);
            i += 2;
        } else {
            i += 1;
        }
        left -= 1;
    }
    i
}

/// An update changes one stretch of the file, which is the text looked for but for its line
/// endings; all that stands before and behind it stays as it is, line endings too.
pub proof fn law_update_keeps_the_rest(original: Seq<char>, path: Seq<char>, old_text: Seq<char>, new_text: Seq<char>)
    requires
        updated(original, path, old_text, new_text) is Ok,
    ensures
        exists|a: int, b: int|
            0 <= a <= b <= original.len() && updated(original, path, old_text, new_text)->Ok_0
                == #[trigger] original.take(a) + written(new_text, occurs(original, "\r\n"@))
                + #[trigger] original.skip(b) && replace_of(original.subrange(a, b), "\r\n"@, "\n"@)
                == replace_of(old_text, "\r\n"@, "\n"@),
{
    reveal_strlit("\r\n");
    reveal_strlit("\n");
    lemma_plain_endings(original);
    let s = plain_endings(original);
    let p = replace_of(old_text, "\r\n"@, "\n"@);
    let at = if p.len() == 0 {
        0
    } else {
        occurrences_from(s, p, 0)[0].0
    };
    if p.len() > 0 {
        lemma_occurrences(s, p, 0);
        let first = occurrences_from(s, p, 0)[0];
        assert(has_at(s, p, first.0));
    }
    let m = at + p.len();
    assert(s.subrange(at, m) =~= p);
    lemma_raw(original, at);
    lemma_raw(original, m);
    lemma_raw_sum(original, at, p.len() as int);
    let a = raw_at(original, at);
    let b = raw_at(original, m);
    let rest = original.skip(a);
    lemma_raw(rest, p.len() as int);
    assert(rest.take(b - a) =~= original.subrange(a, b));
    assert(s.skip(at).take(p.len() as int) =~= p);
    assert(updated(original, path, old_text, new_text)->Ok_0 == original.take(a) + written(
        new_text,
        occurs(original, "\r\n"@),
    ) + original.skip(b));
}

/// The new contents of a file in which one place is updated.
pub fn update_text(original: &str, path: &str, old_text: &str, new_text: &str) -> (r: Result<
    String,
    String,
>)
    ensures
        match r {
            Ok(t) => updated(original@, path@, old_text@, new_text@) == Ok::<Seq<char>, Seq<char>>(t@),
            Err(e) => updated(original@, path@, old_text@, new_text@) == Err::<Seq<char>, Seq<char>>(
                e@,
            ),
        },
{
    proof {
        reveal_strlit("\r\n");
        reveal_strlit("\n");
    }
    let crlf = contains(original, "\r\n");
    let normalized = if crlf {
        replace(original, "\r\n", "\n")
    } else {
        original.to_owned()
    };
    let needle = replace(old_text, "\r\n", "\n");
    let ghost s = normalized@;
    let ghost p = needle@;
    let v = to_chars(normalized.as_str());
    let pv = to_chars(needle.as_str());
    let total: usize = v.len();
    let mut at: usize = 0;
    let count: u128;
    if pv.len() == 0 {
        count = total as u128 + 1;
    } else {
        let rs = occurrences(&v, &pv);
        assert(spans(rs@).len() == rs@.len());
        count = rs.len() as u128;
        if rs.len() > 0 {
            at = rs[0].0;
            proof {
                lemma_occurrences(s, p, 0);
                assert(spans(rs@)[0].0 == at);
                let first = occurrences_from(s, p, 0)[0];
                assert(has_at(s, p, first.0));
            }
        }
    }
    assert(count == match_count(s, p));
    if count == 0 {
        return Err(cat("text not found in ", path));
    }
    if count > 1 {
        let mut out = String::new();
        out.append("text matches ");
        let n = decimal(count);
        out.append(n.as_str());
        out.append(" locations in ");
        out.append(path);
        out.append(" — provide more context to make unique");
        return Err(out);
    }
    let put = if crlf {
        let plain = replace(new_text, "\r\n", "\n");
        replace(plain.as_str(), "\n", "\r\n")
    } else {
        new_text.to_owned()
    };
    proof {
        lemma_plain_endings(original@);
    }
    let raw = to_chars(original);
    let from: usize = raw_position(&raw, at);
    let to: usize = raw_position(&raw, at + pv.len());
    let mut out = part(&raw, 0, from);
    let tail = part(&raw, to, raw.len());
    out.append(put.as_str());
    out.append(tail.as_str());
    proof {
        assert(original@.subrange(0, from as int) =~= original@.take(from as int));
        assert(original@.subrange(to as int, original@.len() as int) =~= original@.skip(to as int));
    }
    Ok(out)
}

/// Computes an update of the file at the canonical path `resolved`, whose contents are
/// `original`. A file that the cache does not know as read is not updated.
pub fn update_file(
    cache: Option<&ToolCache>,
    resolved: &str,
    original: &str,
    path: &str,
    old_text: &str,
    new_text: &str,
) -> (r: Result<String, String>)
    ensures
        outcome_view(r) == (if may_change(cache, resolved@) {
            updated(original@, path@, old_text@, new_text@)
        } else {
            Err(unread_text(resolved@))
        }),
{
    match check_read(cache, resolved) {
        Ok(_) => update_text(original, path, old_text, new_text),
        Err(e) => Err(e),
    }
}

/// The paths that an operation needs permission for.
pub open spec fn guarded_paths(op: PatchOp) -> Seq<Seq<char>> {
    match op {
        PatchOp::Create { path, .. } => seq![path@],
        PatchOp::Update { path, .. } => seq![path@],
        PatchOp::Delete { path } => seq![path@],
        PatchOp::Rename { path, new_path } => seq![path@, new_path@],
    }
}

/// The path that an operation that succeeded has changed.
pub open spec fn changed_path(op: PatchOp) -> Seq<char> {
    match op {
        PatchOp::Create { path, .. } => path@,
        PatchOp::Update { path, .. } => path@,
        PatchOp::Delete { path } => path@,
        PatchOp::Rename { path, new_path } => new_path@,
    }
}

/// The remark on an operation that succeeded.
pub open spec fn success_of(op: PatchOp) -> Seq<char> {
    match op {
        PatchOp::Create { path, .. } => "created "@ + path@,
        PatchOp::Update { path, .. } => "updated "@ + path@,
        PatchOp::Delete { path } => "deleted "@ + path@,
        PatchOp::Rename { path, new_path } => "renamed "@ + path@ + " -> "@ + new_path@,
    }
}

/// The refusal to create a file that is too large.
pub open spec fn oversize_of(op: PatchOp) -> Option<Seq<char>> {
    match op {
        PatchOp::Create { path, content } => if byte_len(content@) > MAX_CREATE_SIZE {
            Some(
                "create content exceeds "@ + decimal_of(MAX_CREATE_SIZE as nat) + " bytes ("@
                    + decimal_of(byte_len(content@)) + " bytes provided)"@,
            )
        } else {
            None
        },
        _ => None,
    }
}

impl PatchOp {
    /// The paths that the operation needs permission for, in order.
    pub fn paths(&self) -> (r: Vec<String>)
        ensures
            texts(r@) == guarded_paths(*self),
    {
        let mut out: Vec<String> = Vec::new();
        match self {
            PatchOp::Create { path, .. } => {
                out.push(path.clone());
            },
            PatchOp::Update { path, .. } => {
                out.push(path.clone());
            },
            PatchOp::Delete { path } => {
                out.push(path.clone());
            },
            PatchOp::Rename { path, new_path } => {
                out.push(path.clone());
                out.push(new_path.clone());
            },
        }
        assert(texts(out@) =~= guarded_paths(*self));
        out
    }

    /// The path to record as changed once the operation has succeeded.
    pub fn touched(&self) -> (r: String)
        ensures
            r@ == changed_path(*self),
    {
        match self {
            PatchOp::Create { path, .. } => path.clone(),
            PatchOp::Update { path, .. } => path.clone(),
            PatchOp::Delete { path } => path.clone(),
            PatchOp::Rename { path, new_path } => new_path.clone(),
        }
    }

    /// The remark on the operation once it has succeeded.
    pub fn success(&self) -> (r: String)
        ensures
            r@ == success_of(*self),
    {
        match self {
            PatchOp::Create { path, .. } => cat("created ", path.as_str()),
            PatchOp::Update { path, .. } => cat("updated ", path.as_str()),
            PatchOp::Delete { path } => cat("deleted ", path.as_str()),
            PatchOp::Rename { path, new_path } => {
                let mut out = cat("renamed ", path.as_str());
                out.append(" -> ");
                out.append(new_path.as_str());
                out
            },
        }
    }

    /// Refuses to create a file that is too large.
    pub fn check_size(&self) -> (r: Result<(), String>)
        ensures
            match r {
                Ok(_) => oversize_of(*self) is None,
                Err(e) => oversize_of(*self) == Some(e@),
            },
    {
        match self {
            PatchOp::Create { path, content } => {
                let n: usize = size(content.as_str());
                if n > MAX_CREATE_SIZE {
                    let mut out = String::new();
                    out.append("create content exceeds ");
                    let cap = decimal(MAX_CREATE_SIZE as u128);
                    out.append(cap.as_str());
                    out.append(" bytes (");
                    let got = decimal(n as u128);
                    out.append(got.as_str());
                    out.append(" bytes provided)");
                    Err(out)
                } else {
                    Ok(())
                }
            },
            _ => Ok(()),
        }
    }
}

/// The refusal to create a file over an existing one.
pub fn already_exists(path: &str) -> (r: String)
    ensures
        r@ == "file already exists: "@ + path@,
{
    cat("file already exists: ", path)
}

/// What has been reported of a batch so far, and whether a failure has ended it.
pub struct PatchRun {
    results: Vec<String>,
    stopped: bool,
}

/// A batch after the next operation: its remark, or its failure, which ends the
/// batch.
pub open spec fn patch_step(state: (Seq<Seq<char>>, bool), outcome: Result<Seq<char>, Seq<char>>) -> (
    Seq<Seq<char>>,
    bool,
) {
    match outcome {
        Ok(m) => (state.0.push(m), state.1),
        Err(e) => (state.0.push("FAILED: "@ + e), true),
    }
}

/// The text of the outcome of an operation.
pub open spec fn outcome_view(o: Result<String, String>) -> Result<Seq<char>, Seq<char>> {
    match o {
        Ok(m) => Ok(m@),
        Err(e) => Err(e@),
    }
}

impl PatchRun {
    /// The remarks so far and whether the batch has ended.
    pub closed spec fn state(&self) -> (Seq<Seq<char>>, bool) {
        (texts(self.results@), self.stopped)
    }

    /// Starts a batch; refuses one without operations.
    pub fn begin(args: &ApplyPatchArgs) -> (r: Result<PatchRun, String>)
        ensures
            r is Err <==> args.operations@.len() == 0,
            r is Err ==> r->Err_0@ == "no operations provided"@,
            r is Ok ==> r->Ok_0.state() == (Seq::<Seq<char>>::empty(), false),
    {
        if args.operations.len() == 0 {
            Err("no operations provided".to_owned())
        } else {
            let run = PatchRun { results: Vec::new(), stopped: false };
            assert(texts(run.results@) =~= Seq::empty());
            Ok(run)
        }
    }

    /// Whether a failure has ended the batch.
    pub fn is_stopped(&self) -> (r: bool)
        ensures
            r == self.state().1,
    {
        self.stopped
    }

    /// Takes in the outcome of the next operation.
    pub fn record(&mut self, outcome: Result<String, String>)
        requires
            !old(self).state().1,
        ensures
            final(self).state() == patch_step(old(self).state(), outcome_view(outcome)),
    {
        let ghost before = texts(self.results@);
        match outcome {
            Ok(m) => {
                self.results.push(m);
                assert(texts(self.results@) =~= before.push(m@));
            },
            Err(e) => {
                let line = cat("FAILED: ", e.as_str());
                self.results.push(line);
                self.stopped = true;
                assert(texts(self.results@) =~= before.push(line@));
            },
        }
    }

    /// The remarks, one per line.
    pub fn report(&self) -> (r: String)
        ensures
            r@ == join_of(self.state().0, "\n"@),
    {
        join(&self.results, "\n")
    }
}

/// A batch whose operations would come out like this: it goes on until one fails.
pub open spec fn patch_run(outcomes: Seq<Result<Seq<char>, Seq<char>>>) -> (Seq<Seq<char>>, bool)
    decreases outcomes.len(),
{
    if outcomes.len() == 0 {
        (Seq::empty(), false)
    } else {
        let before = patch_run(outcomes.drop_last());
        if before.1 {
            before
        } else {
            patch_step(before, outcomes.last())
        }
    }
}

/// The first failure ends a batch: what came before it is reported as done, the failure
/// last, and nothing after it is attempted; a batch without a failure is carried out
/// whole.
pub proof fn law_batch_ends_at_first_failure(outcomes: Seq<Result<Seq<char>, Seq<char>>>, k: int)
    requires
        0 <= k <= outcomes.len(),
        forall|i: int| 0 <= i < k ==> (#[trigger] outcomes[i]) is Ok,
        k < outcomes.len() ==> outcomes[k] is Err,
    ensures
        patch_run(outcomes).1 == (k < outcomes.len()),
        patch_run(outcomes).0.len() == (if k < outcomes.len() {
            k + 1
        } else {
            k
        }),
        forall|i: int| 0 <= i < k ==> (#[trigger] patch_run(outcomes).0[i]) == outcomes[i]->Ok_0,
        k < outcomes.len() ==> patch_run(outcomes).0[k] == "FAILED: "@ + outcomes[k]->Err_0,
    decreases outcomes.len(),
{
    if outcomes.len() > 0 {
        let t = outcomes.drop_last();
        assert forall|i: int| 0 <= i < k && i < t.len() implies (#[trigger] t[i]) is Ok by {
            assert(t[i] == outcomes[i]);
        }
        if k < outcomes.len() {
            law_batch_ends_at_first_failure(t, k);
            if k < t.len() {
                assert(t[k] == outcomes[k]);
            }
        } else {
            law_batch_ends_at_first_failure(t, k - 1);
            assert(outcomes[k - 1] is Ok);
        }
        assert forall|i: int| 0 <= i < k implies (#[trigger] patch_run(outcomes).0[i])
            == outcomes[i]->Ok_0 by {
            if i < t.len() {
                assert(t[i] == outcomes[i]);
                assert(patch_run(t).0[i] == t[i]->Ok_0);
            }
        }
    }
}

/// An update is made exactly where the text to replace stands in the file once, line endings
/// aside; a refusal names the file, and one for several places says how many.
pub proof fn law_update_needs_one_place(original: Seq<char>, path: Seq<char>, old_text: Seq<char>, new_text: Seq<char>)
    requires
        replace_of(old_text, "\r\n"@, "\n"@).len() > 0,
    ensures
        ({
            let s = plain_endings(original);
            let p = replace_of(old_text, "\r\n"@, "\n"@);
            let n = occurrences_from(s, p, 0).len();
            let r = updated(original, path, old_text, new_text);
            &&& (r is Ok <==> n == 1)
            &&& !occurs(s, p) ==> r is Err
            &&& r matches Err(e) ==> occurs(e, path)
            &&& n > 1 ==> occurs(r->Err_0, decimal_of(n))
        }),
{
    let s = plain_endings(original);
    let p = replace_of(old_text, "\r\n"@, "\n"@);
    let n = occurrences_from(s, p, 0).len();
    crate::splice::lemma_occurrences_exist(s, p);
    lemma_occurs_between("text not found in "@, path, Seq::empty());
    assert("text not found in "@ + path + Seq::empty() =~= "text not found in "@ + path);
    let z = " — provide more context to make unique"@;
    let a = "text matches "@ + decimal_of(n) + " locations in "@;
    lemma_occurs_between(a, path, z);
    lemma_occurs_between("text matches "@, decimal_of(n), " locations in "@ + path + z);
    assert("text matches "@ + decimal_of(n) + (" locations in "@ + path + z) =~= a + path + z);
}

/// Permission is asked for every path that an operation touches, and the remark on it names
/// each of them; the path that a rename has changed is the new one.
pub proof fn law_operations_name_their_paths(op: PatchOp)
    ensures
        guarded_paths(op).contains(changed_path(op)),
        forall|i: int| 0 <= i < guarded_paths(op).len() ==> occurs(success_of(op), #[trigger] guarded_paths(op)[i]),
        op matches PatchOp::Rename { path, new_path } ==> guarded_paths(op).contains(path@)
            && guarded_paths(op).contains(new_path@) && changed_path(op) == new_path@,
        oversize_of(op) is Some <==> (op matches PatchOp::Create { path, content } && byte_len(content@)
            > MAX_CREATE_SIZE),
{
    let ps = guarded_paths(op);
    match op {
        PatchOp::Create { path, .. } => {
            assert(ps[0] == path@);
            lemma_occurs_between("created "@, path@, Seq::empty());
            assert("created "@ + path@ + Seq::empty() =~= success_of(op));
        },
        PatchOp::Update { path, .. } => {
            assert(ps[0] == path@);
            lemma_occurs_between("updated "@, path@, Seq::empty());
            assert("updated "@ + path@ + Seq::empty() =~= success_of(op));
        },
        PatchOp::Delete { path } => {
            assert(ps[0] == path@);
            lemma_occurs_between("deleted "@, path@, Seq::empty());
            assert("deleted "@ + path@ + Seq::empty() =~= success_of(op));
        },
        PatchOp::Rename { path, new_path } => {
            assert(ps[0] == path@ && ps[1] == new_path@);
            lemma_occurs_between("renamed "@, path@, " -> "@ + new_path@);
            assert("renamed "@ + path@ + (" -> "@ + new_path@) =~= success_of(op));
            lemma_occurs_between("renamed "@ + path@ + " -> "@, new_path@, Seq::empty());
            assert("renamed "@ + path@ + " -> "@ + new_path@ + Seq::empty() =~= success_of(op));
        },
    }
}

} // verus!
