//! The agent's tools: argument checks, search and edit logic, result texts.
use vstd::prelude::*;
use crate::tools::bash::paths::{is_absolute, is_absolute_of};
use crate::text::{
    byte_len, cat, decimal, decimal_of, fit, fit_of, in_order, lemma_fit, lemma_in_order_itself,
    lemma_in_order_more, lemma_in_order_next, same, size, trim, trim_of,
};

pub mod apply_patch;
pub mod background;
pub mod bash;
pub mod bg_shell;
pub mod cache;
pub mod debug;
pub mod edit;
pub mod edit_laws;
pub mod find_files;
pub mod glob;
pub mod grep;
pub mod list_dir;
pub mod lsp;
pub mod memory;
pub mod ranges;

verus! {

/// Names the permission checker that decides on a tool's calls.
#[derive(Clone, Copy, Debug, PartialEq, Eq, Structural)]
pub struct PermCheck {
    pub id: u64,
}

/// Names the channel over which the user is asked for permission.
#[derive(Clone, Copy, Debug, PartialEq, Eq, Structural)]
pub struct AskSender {
    pub id: u64,
}

/// Names the language server manager that a tool reports changes to.
#[derive(Clone, Copy, Debug, PartialEq, Eq, Structural)]
pub struct LspManager {
    pub id: u64,
}

/// Whether a search passes over directories of that name: what is built or fetched, not
/// written.
pub fn is_skip_dir(name: &str) -> (r: bool)
    ensures
        r == (name@ == "node_modules"@ || name@ == "target"@),
{
    same(name, "node_modules") || same(name, "target")
}

/// A text of white space alone.
pub open spec fn is_blank_text(s: Seq<char>) -> bool {
    trim_of(s).len() == 0
}

/// The refusal of a call without a needed argument.
pub open spec fn required_text(field: Seq<char>, action: Seq<char>) -> Seq<char> {
    "`"@ + field + "` is required for "@ + action
}

/// The refusal of a call without a needed argument.
pub fn required(field: &str, action: &str) -> (r: String)
    ensures
        r@ == required_text(field@, action@),
{
    let mut out = cat("`", field);
    out.append("` is required for ");
    out.append(action);
    out
}

/// The text of an argument that must be given and not blank.
pub open spec fn nonblank_of(value: Option<String>) -> Option<Seq<char>> {
    match value {
        Some(s) => if is_blank_text(s@) {
            None
        } else {
            Some(s@)
        },
        None => None,
    }
}

/// The argument, refused where it is missing or blank.
pub fn required_nonblank(value: &Option<String>, field: &str, action: &str) -> (r: Result<String, String>)
    ensures
        match r {
            Ok(s) => nonblank_of(*value) == Some(s@),
            Err(e) => nonblank_of(*value) is None && e@ == required_text(field@, action@),
        },
{
    match value {
        Some(s) => {
            let t = trim(s.as_str());
            if t.as_str().is_empty() {
                Err(required(field, action))
            } else {
                Ok(s.clone())
            }
        },
        None => Err(required(field, action)),
    }
}

/// Refuses a path that does not start at the root; `what` names the path.
pub fn require_absolute_path(path: &str, what: &str) -> (r: Result<(), String>)
    ensures
        r is Ok <==> is_absolute_of(path@),
        r is Err ==> r->Err_0@ == what@ + " must be absolute, got: "@ + path@,
{
    if is_absolute(path) {
        Ok(())
    } else {
        let mut out = cat(what, " must be absolute, got: ");
        out.append(path);
        Err(out)
    }
}

/// A text cut to at most `max` bytes, with a remark on the cut.
pub open spec fn capped_of(s: Seq<char>, max: nat, label: Seq<char>) -> Seq<char> {
    if byte_len(s) <= max {
        s
    } else {
        fit_of(s, max as int) + "\n…["@ + label + " truncated: first "@ + decimal_of(max) + " of "@
            + decimal_of(byte_len(s)) + " bytes shown]"@
    }
}

/// The text cut to at most `max` bytes, with a remark where it was cut.
pub fn head_cap(s: &str, max: usize, label: &str) -> (r: String)
    ensures
        r@ == capped_of(s@, max as nat, label@),
{
    let n: usize = size(s);
    if n <= max {
        return s.to_owned();
    }
    let mut out = fit(s, max);
    out.append("\n…[");
    out.append(label);
    out.append(" truncated: first ");
    let m = decimal(max as u128);
    out.append(m.as_str());
    out.append(" of ");
    let k = decimal(n as u128);
    out.append(k.as_str());
    out.append(" bytes shown]");
    out
}

/// A text that fits is shown as it is; of one that does not, the first characters that fit are,
/// and behind them what it is and how many bytes there were.
pub proof fn law_caps_keep_the_start(s: Seq<char>, max: nat, label: Seq<char>)
    ensures
        byte_len(s) <= max ==> capped_of(s, max, label) == s,
        byte_len(s) > max ==> exists|k: int|
            0 <= k <= s.len() && byte_len(#[trigger] s.take(k)) <= max && in_order(
                capped_of(s, max, label),
                seq![s.take(k), label, decimal_of(max), decimal_of(byte_len(s))],
            ),
{
    if byte_len(s) > max {
        lemma_fit(s, max as int);
        let h = fit_of(s, max as int);
        let k = h.len() as int;
        assert(h == s.take(k));
        let m = decimal_of(max);
        let n = decimal_of(byte_len(s));
        let p1 = seq![h];
        lemma_in_order_itself(h);
        lemma_in_order_more(h, p1, "\n…["@);
        let a = h + "\n…["@;
        lemma_in_order_next(a, p1, label);
        lemma_in_order_more(a + label, p1.push(label), " truncated: first "@);
        let b = a + label + " truncated: first "@;
        lemma_in_order_next(b, p1.push(label), m);
        lemma_in_order_more(b + m, p1.push(label).push(m), " of "@);
        let c = b + m + " of "@;
        lemma_in_order_next(c, p1.push(label).push(m), n);
        lemma_in_order_more(c + n, p1.push(label).push(m).push(n), " bytes shown]"@);
        assert(p1.push(label).push(m).push(n) =~= seq![s.take(k), label, m, n]);
    }
}

} // verus!
