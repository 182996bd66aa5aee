//! The `list_dir` tool: the entries of a directory as an aligned listing.
use vstd::prelude::*;
use vstd::string::StrSliceExecFns;
use crate::order::{comes_before, is_order, keys_view, lemma_order_is_complete, sorted_order, SortKey};
use crate::text::{
    byte_len, cat, decimal, decimal_of, in_order, lemma_in_order_concat, lemma_in_order_more,
    lemma_in_order_next, lemma_in_order_none, lemma_in_order_occurs, occurs, size, to_chars,
};
use crate::tools::cache::ToolCache;
use crate::tools::glob::{flag, flag_of, path_arg, path_or_here};
use crate::tools::{AskSender, PermCheck};

verus! {

/// The `list_dir` tool.
pub struct ListDirTool {
    pub permission: Option<PermCheck>,
    pub ask_tx: Option<AskSender>,
    pub cache: Option<ToolCache>,
}

impl ListDirTool {
    /// The tool without a cache.
    pub fn new(permission: Option<PermCheck>, ask_tx: Option<AskSender>) -> (r: Self)
        ensures
            r.permission == permission,
            r.ask_tx == ask_tx,
            r.cache is None,
    {
        ListDirTool { permission, ask_tx, cache: None }
    }

    /// The tool with a cache for its results.
    pub fn with_cache(
        permission: Option<PermCheck>,
        ask_tx: Option<AskSender>,
        cache: ToolCache,
    ) -> (r: Self)
        ensures
            r.permission == permission,
            r.ask_tx == ask_tx,
            r.cache == Some(cache),
    {
        ListDirTool { permission, ask_tx, cache: Some(cache) }
    }
}

/// Arguments of the `list_dir` tool.
#[derive(Debug)]
pub struct ListDirArgs {
    pub path: Option<String>,
    pub include_hidden: bool,
}

/// The key under which the result of a call is remembered.
pub fn list_dir_cache_key(args: &ListDirArgs) -> (r: String)
    ensures
        r@ == "list_dir:"@ + path_or_here(args.path) + ":hidden="@ + flag_of(args.include_hidden),
{
    let p = path_arg(&args.path);
    let mut out = cat("list_dir:", p.as_str());
    out.append(":hidden=");
    out.append(flag(args.include_hidden));
    out
}

/// The quotient rounded to the nearest whole number, and to the even one where two are
/// equally near.
pub open spec fn nearest(n: nat, d: nat) -> nat {
    let q = n / d;
    let r = n % d;
    if 2 * r > d || (2 * r == d && q % 2 == 1) {
        q + 1
    } else {
        q
    }
}

/// How far apart the whole numbers of 53 significant bits stand around `n`.
pub open spec fn significant_step(n: nat) -> nat
    decreases n,
{
    if n < 0x20_0000_0000_0000 {
        1
    } else {
        2 * significant_step(n / 2)
    }
}

/// The whole number of 53 significant bits that is nearest to `n`.
pub open spec fn significant(n: nat) -> nat {
    nearest(n, significant_step(n)) * significant_step(n)
}

/// A number of tenths as text.
pub open spec fn tenths_text(t: nat) -> Seq<char> {
    decimal_of(t / 10) + "."@ + decimal_of(t % 10)
}

/// The size of a file for people to read: in bytes, or in the largest unit that it fills
/// once, with one decimal. Sizes are taken with 53 significant bits.
pub open spec fn size_text(bytes: u64) -> Seq<char> {
    let b = significant(bytes as nat);
    if b < 1024 {
        decimal_of(bytes as nat) + " B"@
    } else if b < 1048576 {
        tenths_text(nearest(10 * b, 1024)) + " KB"@
    } else if b < 1073741824 {
        tenths_text(nearest(10 * b, 1048576)) + " MB"@
    } else {
        tenths_text(nearest(10 * b, 1073741824)) + " GB"@
    }
}

fn step_of(n: u64) -> (r: u64)
    ensures
        r == significant_step(n as nat),
        r == 1 || r <= n,
        1 <= r,
    decreases n,
{
    if n < 0x20_0000_0000_0000 {
        1
    } else {
        2 * step_of(n / 2)
    }
}

fn round_div(n: u128, d: u128) -> (r: u128)
    requires
        0 < d <= u64::MAX,
        n < u128::MAX,
    ensures
        r == nearest(n as nat, d as nat),
{
    let q: u128 = n / d;
    let rest: u128 = n % d;
    assert(q <= n) by (nonlinear_arith)
        requires
            q == n / d,
            d > 0,
    ;
    if 2 * rest > d || (2 * rest == d && q % 2 == 1) {
        q + 1
    } else {
        q
    }
}

fn describe_tenths(t: u128) -> (r: String)
    ensures
        r@ == tenths_text(t as nat),
{
    let whole = decimal(t / 10);
    let tenth = decimal(t % 10);
    let mut out = cat(whole.as_str(), ".");
    out.append(tenth.as_str());
    out
}

/// The size of a file for people to read.
pub fn format_size(bytes: u64) -> (r: String)
    ensures
        r@ == size_text(bytes),
{
    let step: u64 = step_of(bytes);
    let k: u128 = round_div(bytes as u128, step as u128);
    assert(k * step <= 2 * bytes + 2) by {
        lemma_nearest_is_near(bytes as nat, step as nat);
    }
    let b: u128 = k * step as u128;
    let (t, unit): (u128, &str) = if b < 1024 {
        return cat(decimal(bytes as u128).as_str(), " B");
    } else if b < 1048576 {
        (round_div(10 * b, 1024), " KB")
    } else if b < 1073741824 {
        (round_div(10 * b, 1048576), " MB")
    } else {
        (round_div(10 * b, 1073741824), " GB")
    };
    let mut out = describe_tenths(t);
    out.append(unit);
    out
}

proof fn lemma_nearest_is_near(n: nat, d: nat)
    requires
        d == 1 || 1 <= d <= n,
    ensures
        nearest(n, d) * d <= 2 * n + 2,
{
    let q = n / d;
    assert(q * d <= n) by (nonlinear_arith)
        requires
            q == n / d,
            d > 0,
    ;
    assert((q + 1) * d == q * d + d) by (nonlinear_arith);
}

/// What an entry is: a directory with so many entries, a link, or a file.
#[derive(Clone, Copy, Debug, PartialEq, Eq, Structural)]
pub enum EntryKind {
    Dir(u64),
    Link,
    File,
}

/// An entry of a directory; the size is given as text and empty where there is none.
#[derive(Debug)]
pub struct DirEntry {
    pub name: String,
    pub kind: EntryKind,
    pub size: String,
}

/// What an entry is, from what the file system tells of it.
pub fn entry_kind(is_dir: bool, is_symlink: bool, count: u64) -> (r: EntryKind)
    ensures
        r == (if is_dir {
            EntryKind::Dir(count)
        } else if is_symlink {
            EntryKind::Link
        } else {
            EntryKind::File
        }),
{
    if is_dir {
        EntryKind::Dir(count)
    } else if is_symlink {
        EntryKind::Link
    } else {
        EntryKind::File
    }
}

/// The kind as text.
pub open spec fn kind_text(k: EntryKind) -> Seq<char> {
    match k {
        EntryKind::Dir(n) => "dir("@ + decimal_of(n as nat) + ")"@,
        EntryKind::Link => "link"@,
        EntryKind::File => "file"@,
    }
}

fn describe_kind(k: EntryKind) -> (r: String)
    ensures
        r@ == kind_text(k),
{
    match k {
        EntryKind::Dir(n) => {
            let d = decimal(n as u128);
            let mut out = cat("dir(", d.as_str());
            out.append(")");
            out
        },
        EntryKind::Link => "link".to_owned(),
        EntryKind::File => "file".to_owned(),
    }
}

/// What entries are ordered by: directories first, then by name.
pub open spec fn entry_keys(es: Seq<DirEntry>) -> Seq<(u128, Seq<char>)> {
    Seq::new(
        es.len(),
        |i: int|
            (
                if es[i].kind is Dir {
                    0u128
                } else {
                    1u128
                },
                es[i].name@,
            ),
    )
}

/// `n` spaces.
pub open spec fn spaces(n: nat) -> Seq<char> {
    Seq::new(n, |i: int| ' ')
}

/// The name with spaces behind it up to the given width in characters.
pub open spec fn padded(name: Seq<char>, width: nat) -> Seq<char> {
    if name.len() < width {
        name + spaces((width - name.len()) as nat)
    } else {
        name
    }
}

/// The line for an entry.
pub open spec fn entry_line(e: DirEntry, width: nat) -> Seq<char> {
    "  ["@ + kind_text(e.kind) + "]  "@ + padded(e.name@, width) + (if e.size@.len() == 0 {
        ""@
    } else {
        "  "@ + e.size@
    }) + "\n"@
}

/// The lines for the entries in the given order, of which the first `upto`.
pub open spec fn entry_lines(es: Seq<DirEntry>, order: Seq<usize>, width: nat, upto: int) -> Seq<char>
    decreases upto,
{
    if upto <= 0 {
        Seq::empty()
    } else {
        entry_lines(es, order, width, upto - 1) + entry_line(es[order[upto - 1] as int], width)
    }
}

/// Bytes of the longest of the first `upto` names.
pub open spec fn widest(es: Seq<DirEntry>, upto: int) -> nat
    decreases upto,
{
    if upto <= 0 {
        0
    } else {
        let before = widest(es, upto - 1);
        let here = byte_len(es[upto - 1].name@);
        if here > before {
            here
        } else {
            before
        }
    }
}

/// `out` is the listing of the entries of the directory at `path`.
pub open spec fn is_dir_listing(path: Seq<char>, es: Seq<DirEntry>, out: Seq<char>) -> bool {
    if es.len() == 0 {
        out == "Listing "@ + path + ":\n(empty directory)"@
    } else {
        exists|order: Seq<usize>|
            #[trigger] is_order(entry_keys(es), order) && out == "Listing "@ + path + ":\n"@
                + entry_lines(es, order, widest(es, es.len() as int), es.len() as int)
    }
}

fn pad(name: &str, width: usize) -> (r: String)
    ensures
        r@ == padded(name@, width as nat),
{
    let mut out = name.to_owned();
    let n: usize = name.unicode_len();
    let mut i: usize = n;
    assert(name@ + spaces(0) =~= name@);
    while i < width
        invariant
            n <= i,
            n == name@.len(),
            i <= width || i == n,
            out@ == name@ + spaces((i - n) as nat),
        decreases width - i,
    {
        out.push(' ');
        assert(out@ =~= name@ + spaces((i + 1 - n) as nat));
        i += 1;
    }
    assert(out@ =~= padded(name@, width as nat));
    out
}

fn describe_entry(e: &DirEntry, width: usize) -> (r: String)
    ensures
        r@ == entry_line(*e, width as nat),
{
    let mut out = String::new();
    out.append("  [");
    let k = describe_kind(e.kind);
    out.append(k.as_str());
    out.append("]  ");
    let p = pad(e.name.as_str(), width);
    out.append(p.as_str());
    let mut s = "".to_owned();
    if !e.size.as_str().is_empty() {
        s = cat("  ", e.size.as_str());
    }
    out.append(s.as_str());
    out.append("\n");
    out
}

/// The listing of a directory: directories first, then the rest, each group by name.
pub fn list_dir_text(path: &str, entries: &Vec<DirEntry>) -> (r: String)
    ensures
        is_dir_listing(path@, entries@, r@),
{
    let ghost es = entries@;
    if entries.len() == 0 {
        let mut out = cat("Listing ", path);
        out.append(":\n(empty directory)");
        return out;
    }
    let mut keys: Vec<SortKey> = Vec::new();
    let mut width: usize = 0;
    let mut i: usize = 0;
    while i < entries.len()
        invariant
            i <= entries@.len(),
            es == entries@,
            keys@.len() == i,
            keys_view(keys@) =~= entry_keys(es).take(i as int),
            width == widest(es, i as int),
        decreases entries@.len() - i,
    {
        let rank: u128 = match entries[i].kind {
            EntryKind::Dir(_) => 0,
            _ => 1,
        };
        let text = to_chars(entries[i].name.as_str());
        let ghost before = keys_view(keys@);
        keys.push(SortKey { rank, text });
        proof {
            let all = entry_keys(es);
            assert(keys_view(keys@) =~= before.push(all[i as int]));
            assert(all.take(i + 1) =~= all.take(i as int).push(all[i as int]));
        }
        let n: usize = size(entries[i].name.as_str());
        if n > width {
            width = n;
        }
        i += 1;
    }
    assert(entry_keys(es).take(i as int) =~= entry_keys(es));
    let order = sorted_order(&keys);
    let mut body = String::new();
    let mut k: usize = 0;
    assert(body@ =~= Seq::empty());
    while k < order.len()
        invariant
            k <= order@.len(),
            es == entries@,
            order@.len() == es.len(),
            forall|i: int| 0 <= i < order@.len() ==> 0 <= #[trigger] order@[i] < es.len(),
            body@ == entry_lines(es, order@, width as nat, k as int),
        decreases order@.len() - k,
    {
        let line = describe_entry(&entries[order[k]], width);
        body.append(line.as_str());
        k += 1;
    }
    let mut out = cat("Listing ", path);
    out.append(":\n");
    out.append(body.as_str());
    assert(is_order(entry_keys(es), order@));
    out
}

/// What a listing is to hold of the first `upto` entries: kind, name and size of each.
pub open spec fn told_entries(es: Seq<DirEntry>, order: Seq<usize>, upto: int) -> Seq<Seq<char>>
    decreases upto,
{
    if upto <= 0 {
        Seq::empty()
    } else {
        let e = es[order[upto - 1] as int];
        told_entries(es, order, upto - 1).push(kind_text(e.kind)).push(e.name@).push(e.size@)
    }
}

proof fn lemma_lines_tell(es: Seq<DirEntry>, order: Seq<usize>, width: nat, upto: int)
    requires
        0 <= upto <= order.len(),
    ensures
        in_order(entry_lines(es, order, width, upto), told_entries(es, order, upto)),
        told_entries(es, order, upto).len() == 3 * upto,
        forall|k: int|
            0 <= k < upto ==> #[trigger] told_entries(es, order, upto)[3 * k + 1] == es[order[k] as int].name@,
    decreases upto,
{
    if upto == 0 {
        lemma_in_order_none(entry_lines(es, order, width, 0));
    } else {
        lemma_lines_tell(es, order, width, upto - 1);
        let e = es[order[upto - 1] as int];
        let before = entry_lines(es, order, width, upto - 1);
        let ps = told_entries(es, order, upto - 1);
        let none = Seq::<Seq<char>>::empty();
        let kind = kind_text(e.kind);
        let name = e.name@;
        let pad = if name.len() < width {
            spaces((width - name.len()) as nat)
        } else {
            Seq::empty()
        };
        assert(padded(name, width) =~= name + pad);
        lemma_in_order_none("  ["@);
        lemma_in_order_next("  ["@, none, kind);
        lemma_in_order_more("  ["@ + kind, none.push(kind), "]  "@);
        let a = "  ["@ + kind + "]  "@;
        lemma_in_order_next(a, none.push(kind), name);
        lemma_in_order_more(a + name, none.push(kind).push(name), pad);
        assert(a + name + pad =~= a + padded(name, width));
        let b = a + padded(name, width);
        let two = none.push(kind).push(name);
        let size_part = if e.size@.len() == 0 {
            ""@
        } else {
            "  "@ + e.size@
        };
        if e.size@.len() == 0 {
            reveal_strlit("");
            lemma_in_order_next(b, two, e.size@);
            assert(b + e.size@ =~= b + size_part);
        } else {
            lemma_in_order_more(b, two, "  "@);
            lemma_in_order_next(b + "  "@, two, e.size@);
            assert(b + "  "@ + e.size@ =~= b + size_part);
        }
        let three = two.push(e.size@);
        lemma_in_order_more(b + size_part, three, "\n"@);
        lemma_in_order_concat(before, entry_line(e, width), ps, three);
        let all = told_entries(es, order, upto);
        assert(ps + three =~= all);
        assert forall|k: int| 0 <= k < upto implies #[trigger] all[3 * k + 1] == es[order[k] as int].name@ by {
            if k < upto - 1 {
                assert(all[3 * k + 1] == ps[3 * k + 1]);
            }
        }
    }
}

/// The listing of a directory holds its path and every entry, each with its kind, name and
/// size, and no directory stands behind anything else. `order` says which entry stands where.
pub proof fn law_every_entry_is_listed(path: Seq<char>, es: Seq<DirEntry>, out: Seq<char>) -> (order: Seq<usize>)
    requires
        is_dir_listing(path, es, out),
        es.len() <= usize::MAX,
        es.len() > 0,
    ensures
        order.len() == es.len(),
        order.no_duplicates(),
        in_order(out, seq![path] + told_entries(es, order, es.len() as int)),
        forall|i: int| 0 <= i < es.len() ==> occurs(out, (#[trigger] es[i]).name@),
        forall|a: int, b: int|
            0 <= a < b < order.len() && es[#[trigger] order[b] as int].kind is Dir ==> es[#[trigger] order[a] as int].kind is Dir,
{
    let n = es.len() as int;
    let order = choose|order: Seq<usize>|
        #[trigger] is_order(entry_keys(es), order) && out == "Listing "@ + path + ":\n"@ + entry_lines(
            es,
            order,
            widest(es, es.len() as int),
            es.len() as int,
        );
    lemma_order_is_complete(entry_keys(es), order);
    lemma_lines_tell(es, order, widest(es, n), n);
    let none = Seq::<Seq<char>>::empty();
    let told = told_entries(es, order, n);
    lemma_in_order_none("Listing "@);
    lemma_in_order_next("Listing "@, none, path);
    lemma_in_order_more("Listing "@ + path, none.push(path), ":\n"@);
    lemma_in_order_concat(
        "Listing "@ + path + ":\n"@,
        entry_lines(es, order, widest(es, n), n),
        none.push(path),
        told,
    );
    let all = seq![path] + told;
    assert(none.push(path) + told =~= all);
    assert forall|i: int| 0 <= i < es.len() implies occurs(out, (#[trigger] es[i]).name@) by {
        let v = i as usize;
        assert(order.contains(v));
        let k = choose|k: int| 0 <= k < order.len() && order[k] == v;
        assert(all[1 + (3 * k + 1)] == told[3 * k + 1]);
        lemma_in_order_occurs(out, all, 1 + (3 * k + 1));
    }
    assert forall|a: int, b: int|
        0 <= a < b < order.len() && es[#[trigger] order[b] as int].kind is Dir implies es[#[trigger] order[a] as int].kind is Dir by {
        assert(comes_before(entry_keys(es), order[a] as int, order[b] as int));
    }
    order
}

} // verus!
