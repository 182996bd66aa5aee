//! The `find_files` tool: files whose name matches a regular expression.
use vstd::prelude::*;
use crate::order::{is_order, keys_view, lemma_order_is_complete, sorted_order, SortKey};
use crate::pattern::{regex_error, regex_hit, regex_hits};
use crate::text::{
    cat, decimal, decimal_of, join, join_of, law_joining_keeps_the_parts, lemma_in_order_concat,
    lemma_in_order_itself, lemma_in_order_more, lemma_in_order_occurs, occurs, texts, to_chars,
};
use crate::tools::cache::ToolCache;
use crate::tools::glob::{
    choose_hits, first_of, flag, flag_of, hit_positions, law_hits_are_found_in_order, lemma_hit_positions,
    path_arg, path_or_here,
};
use crate::tools::{AskSender, PermCheck};

verus! {

/// The `find_files` tool.
pub struct FindFilesTool {
    pub permission: Option<PermCheck>,
    pub ask_tx: Option<AskSender>,
    pub cache: Option<ToolCache>,
}

impl FindFilesTool {
    /// The tool without a cache.
    pub fn new(permission: Option<PermCheck>, ask_tx: Option<AskSender>) -> (r: Self)
        ensures
            r.permission == permission,
            r.ask_tx == ask_tx,
            r.cache is None,
    {
        FindFilesTool { permission, ask_tx, cache: None }
    }

    /// The tool with a cache for its results.
    pub fn with_cache(
        permission: Option<PermCheck>,
        ask_tx: Option<AskSender>,
        cache: ToolCache,
    ) -> (r: Self)
        ensures
            r.permission == permission,
            r.ask_tx == ask_tx,
            r.cache == Some(cache),
    {
        FindFilesTool { permission, ask_tx, cache: Some(cache) }
    }
}

/// Arguments of the `find_files` tool.
#[derive(Debug)]
pub struct FindFilesArgs {
    pub pattern: String,
    pub path: Option<String>,
    pub include_hidden: bool,
}

/// The key under which the result of a call is remembered while the directory has
/// the given stamp.
pub fn find_files_cache_key(args: &FindFilesArgs, stamp: &str) -> (r: String)
    ensures
        r@ == "find_files:"@ + args.pattern@ + ":"@ + path_or_here(args.path) + ":hidden="@ + flag_of(
            args.include_hidden,
        ) + ":"@ + stamp@,
{
    let mut out = cat("find_files:", args.pattern.as_str());
    out.append(":");
    let p = path_arg(&args.path);
    out.append(p.as_str());
    out.append(":hidden=");
    out.append(flag(args.include_hidden));
    out.append(":");
    out.append(stamp);
    out
}

/// A file met on the walk: its name and its path.
#[derive(Debug)]
pub struct WalkedFile {
    pub name: String,
    pub path: String,
}

/// Matches past which counting stops.
pub open spec fn count_ceiling(max: usize) -> int {
    if max * 10 <= usize::MAX {
        max * 10
    } else {
        usize::MAX as int
    }
}

/// Number of matches as far as they are counted.
pub open spec fn counted(hits: Seq<bool>, max: usize) -> int {
    let n = hit_positions(hits, hits.len() as int).len() as int;
    if n < count_ceiling(max) {
        n
    } else {
        count_ceiling(max)
    }
}

/// Mark behind a count that stopped at the ceiling.
pub open spec fn open_mark(n: int, max: usize) -> Seq<char> {
    if n >= count_ceiling(max) {
        "+"@
    } else {
        ""@
    }
}

/// The answer for `n` counted matches whose listed paths are `paths`.
pub open spec fn found_text(paths: Seq<Seq<char>>, n: int, max: usize) -> Seq<char> {
    if paths.len() == 0 {
        "No files found matching the pattern."@
    } else if n > max {
        decimal_of(n as nat) + open_mark(n, max) + " files found (showing first "@ + decimal_of(
            max as nat,
        ) + "):\n"@ + join_of(paths, "\n"@) + "\n\n... and "@ + decimal_of((n - max) as nat)
            + open_mark(n, max) + " more"@
    } else {
        decimal_of(n as nat) + " files found:\n"@ + join_of(paths, "\n"@)
    }
}

/// The keys by which the chosen files are ordered: their paths.
pub open spec fn path_keys(files: Seq<WalkedFile>, chosen: Seq<usize>) -> Seq<(u128, Seq<char>)> {
    Seq::new(chosen.len(), |i: int| (0u128, files[chosen[i] as int].path@))
}

/// The paths of the chosen files in the given order.
pub open spec fn ordered_paths(files: Seq<WalkedFile>, chosen: Seq<usize>, order: Seq<usize>) -> Seq<
    Seq<char>,
> {
    Seq::new(order.len(), |i: int| files[chosen[order[i] as int] as int].path@)
}

/// `out` is the answer for the hits: the first `max` of them, ordered by path, and
/// the count of all.
pub open spec fn is_found_answer(files: Seq<WalkedFile>, hits: Seq<bool>, max: usize, out: Seq<char>) -> bool {
    let chosen = first_of(hit_positions(hits, hits.len() as int), max as nat);
    exists|order: Seq<usize>|
        #[trigger] is_order(path_keys(files, chosen), order) && out == found_text(
            ordered_paths(files, chosen, order),
            counted(hits, max),
            max,
        )
}

fn count_hits(hits: &Vec<bool>, ceiling: usize) -> (r: usize)
    ensures
        r == (if hit_positions(hits@, hits@.len() as int).len() < ceiling {
            hit_positions(hits@, hits@.len() as int).len() as int
        } else {
            ceiling as int
        }),
{
    let mut r: usize = 0;
    let mut i: usize = 0;
    while i < hits.len()
        invariant
            i <= hits@.len(),
            r <= i,
            r == (if hit_positions(hits@, i as int).len() < ceiling {
                hit_positions(hits@, i as int).len() as int
            } else {
                ceiling as int
            }),
        decreases hits@.len() - i,
    {
        if hits[i] && r < ceiling {
            r += 1;
        }
        i += 1;
    }
    r
}

/// The answer to a call, given which of the files met on the walk are hits.
pub fn find_files_listing(files: &Vec<WalkedFile>, hits: &Vec<bool>, max: usize) -> (r: String)
    requires
        hits@.len() == files@.len(),
    ensures
        is_found_answer(files@, hits@, max, r@),
{
    let ceiling: usize = if max <= usize::MAX / 10 {
        max * 10
    } else {
        usize::MAX
    };
    assert(ceiling == count_ceiling(max));
    let total: usize = count_hits(hits, ceiling);
    let chosen = choose_hits(hits, max);
    let walked: usize = hits.len();
    proof {
        lemma_hit_positions(hits@, hits@.len() as int);
        let all = hit_positions(hits@, hits@.len() as int);
        assert forall|k: int| 0 <= k < chosen@.len() implies #[trigger] chosen@[k] < files@.len() by {
            assert(chosen@[k] == all[k]);
        }
    }
    let mut keys: Vec<SortKey> = Vec::new();
    let mut i: usize = 0;
    while i < chosen.len()
        invariant
            i <= chosen@.len(),
            forall|k: int| 0 <= k < chosen@.len() ==> #[trigger] chosen@[k] < files@.len(),
            keys@.len() == i,
            forall|k: int|
                0 <= k < i ==> crate::order::key_view(#[trigger] keys@[k]) == (
                    0u128,
                    files@[chosen@[k] as int].path@,
                ),
        decreases chosen@.len() - i,
    {
        let text = to_chars(files[chosen[i]].path.as_str());
        keys.push(SortKey { rank: 0, text });
        i += 1;
    }
    assert(keys_view(keys@) =~= path_keys(files@, chosen@));
    let order = sorted_order(&keys);
    let mut paths: Vec<String> = Vec::new();
    let ghost listed = ordered_paths(files@, chosen@, order@);
    let mut k: usize = 0;
    assert(texts(paths@) =~= listed.take(0));
    while k < order.len()
        invariant
            k <= order@.len(),
            order@.len() == chosen@.len(),
            forall|k: int| 0 <= k < chosen@.len() ==> #[trigger] chosen@[k] < files@.len(),
            forall|k: int| 0 <= k < order@.len() ==> #[trigger] order@[k] < chosen@.len(),
            listed == ordered_paths(files@, chosen@, order@),
            texts(paths@) == listed.take(k as int),
        decreases order@.len() - k,
    {
        let ghost before = texts(paths@);
        paths.push(files[chosen[order[k]]].path.clone());
        assert(texts(paths@) =~= before.push(listed[k as int]));
        assert(listed.take(k + 1) =~= listed.take(k as int).push(listed[k as int]));
        k += 1;
    }
    assert(listed.take(k as int) =~= listed);
    assert(is_order(path_keys(files@, chosen@), order@));
    assert(texts(paths@).len() == paths@.len());
    if paths.len() == 0 {
        return "No files found matching the pattern.".to_owned();
    }
    let list = join(&paths, "\n");
    let mark = if total >= ceiling {
        "+"
    } else {
        ""
    };
    let n = decimal(total as u128);
    let mut out = String::new();
    out.append(n.as_str());
    if total > max {
        out.append(mark);
        out.append(" files found (showing first ");
        let m = decimal(max as u128);
        out.append(m.as_str());
        out.append("):\n");
        out.append(list.as_str());
        out.append("\n\n... and ");
        let more = decimal((total - max) as u128);
        out.append(more.as_str());
        out.append(mark);
        out.append(" more");
    } else {
        out.append(" files found:\n");
        out.append(list.as_str());
    }
    out
}

/// Which of the files have a name that the pattern matches.
pub open spec fn name_hits(pattern: Seq<char>, files: Seq<WalkedFile>) -> Seq<bool> {
    Seq::new(files.len(), |i: int| regex_hit(pattern, files[i].name@))
}

/// The answer to a call on the files met on the walk; refuses an invalid pattern.
pub fn find_files_answer(args: &FindFilesArgs, files: &Vec<WalkedFile>, max: usize) -> (r: Result<
    String,
    String,
>)
    ensures
        match r {
            Ok(out) => regex_error(args.pattern@) is None && is_found_answer(
                files@,
                name_hits(args.pattern@, files@),
                max,
                out@,
            ),
            Err(e) => regex_error(args.pattern@) is Some && e@ == "Invalid regex: "@ + regex_error(
                args.pattern@,
            )->0,
        },
{
    let mut names: Vec<String> = Vec::new();
    let mut i: usize = 0;
    while i < files.len()
        invariant
            i <= files@.len(),
            names@.len() == i,
            forall|k: int| 0 <= k < i ==> (#[trigger] names@[k])@ == files@[k].name@,
        decreases files@.len() - i,
    {
        names.push(files[i].name.clone());
        i += 1;
    }
    match regex_hits(args.pattern.as_str(), &names) {
        Ok(hits) => {
            assert(hits@ =~= name_hits(args.pattern@, files@));
            Ok(find_files_listing(files, &hits, max))
        },
        Err(e) => Err(cat("Invalid regex: ", e.as_str())),
    }
}

/// The answer lists files whose names match and no others: where there is room for all, the path
/// of each file that matches is in it; where there is not, the paths of the first ones are; and
/// the number of matches is told, as far as they are counted. Without a match it says so.
pub proof fn law_answer_lists_the_matches(files: Seq<WalkedFile>, hits: Seq<bool>, max: usize, out: Seq<char>)
    requires
        is_found_answer(files, hits, max, out),
        hits.len() == files.len(),
        files.len() <= usize::MAX,
        max > 0,
    ensures
        (forall|i: int| 0 <= i < hits.len() ==> !#[trigger] hits[i]) ==> out
            == "No files found matching the pattern."@,
        hit_positions(hits, hits.len() as int).len() <= max ==> forall|i: int|
            0 <= i < files.len() && #[trigger] hits[i] ==> occurs(out, files[i].path@),
        forall|k: int|
            0 <= k < max && k < hit_positions(hits, hits.len() as int).len() ==> occurs(
                out,
                files[#[trigger] hit_positions(hits, hits.len() as int)[k] as int].path@,
            ),
        hit_positions(hits, hits.len() as int).len() > 0 ==> occurs(
            out,
            decimal_of(counted(hits, max) as nat),
        ),
{
    let at = hit_positions(hits, hits.len() as int);
    let chosen = first_of(at, max as nat);
    let n = counted(hits, max);
    law_hits_are_found_in_order(hits, hits.len() as int);
    let order = choose|order: Seq<usize>|
        #[trigger] is_order(path_keys(files, chosen), order) && out == found_text(
            ordered_paths(files, chosen, order),
            counted(hits, max),
            max,
        );
    lemma_order_is_complete(path_keys(files, chosen), order);
    let paths = ordered_paths(files, chosen, order);
    let body = join_of(paths, "\n"@);
    law_joining_keeps_the_parts(paths, "\n"@);
    if at.len() == 0 {
        assert(paths.len() == 0);
    } else {
        if forall|i: int| 0 <= i < hits.len() ==> !#[trigger] hits[i] {
            assert(hits[at[0] as int]);
        }
        let count = decimal_of(n as nat);
        lemma_in_order_itself(count);
        let a = if n > max {
            open_mark(n, max) + " files found (showing first "@ + decimal_of(max as nat) + "):\n"@
        } else {
            " files found:\n"@
        };
        let z = if n > max {
            "\n\n... and "@ + decimal_of((n - max) as nat) + open_mark(n, max) + " more"@
        } else {
            Seq::empty()
        };
        lemma_in_order_more(count, seq![count], a);
        lemma_in_order_concat(count + a, body, seq![count], paths);
        lemma_in_order_more(count + a + body, seq![count] + paths, z);
        let all = seq![count] + paths;
        assert(count + a + body + z =~= out);
        lemma_in_order_occurs(out, all, 0);
        assert forall|k: int| 0 <= k < max && k < at.len() implies occurs(
            out,
            files[#[trigger] at[k] as int].path@,
        ) by {
            assert(chosen[k] == at[k]);
            let v = k as usize;
            assert(order.contains(v));
            let j = choose|j: int| 0 <= j < order.len() && order[j] == v;
            assert(all[1 + j] == paths[j]);
            lemma_in_order_occurs(out, all, 1 + j);
        }
        if at.len() <= max {
            assert forall|i: int| 0 <= i < files.len() && #[trigger] hits[i] implies occurs(
                out,
                files[i].path@,
            ) by {
                let k = choose|k: int| 0 <= k < at.len() && #[trigger] at[k] == i;
                assert(occurs(out, files[at[k] as int].path@));
            }
        }
    }
}

} // verus!
