//! Occurrences of a pattern and replacement of disjoint stretches of a text.
use vstd::prelude::*;
use crate::text::{find_from, has_at, part, texts, to_chars};

verus! {

/// First position at or after `from` at which `p` stands in `s`; one past the
/// length of `s` where there is none.
pub open spec fn next_at(s: Seq<char>, p: Seq<char>, from: int) -> int
    decreases s.len() + 1 - from,
{
    if from < 0 || from + p.len() > s.len() {
        s.len() as int + 1
    } else if has_at(s, p, from) {
        from
    } else {
        next_at(s, p, from + 1)
    }
}

/// The stretches of `s` that hold `p`, found from left to right and without
/// overlap, starting the search at `from`.
pub open spec fn occurrences_from(s: Seq<char>, p: Seq<char>, from: int) -> Seq<(int, int)>
    decreases s.len() - from,
    via occurrences_from_decreases
{
    let i = next_at(s, p, from);
    if p.len() == 0 || i > s.len() {
        Seq::empty()
    } else {
        seq![(i, i + p.len())] + occurrences_from(s, p, i + p.len())
    }
}

#[via_fn]
proof fn occurrences_from_decreases(s: Seq<char>, p: Seq<char>, from: int) {
    lemma_next_at(s, p, from);
}

/// `next_at` gives the first occurrence, or one past the end without one.
pub proof fn lemma_next_at(s: Seq<char>, p: Seq<char>, from: int)
    ensures
        next_at(s, p, from) <= s.len() ==> {
            &&& 0 <= from <= next_at(s, p, from)
            &&& has_at(s, p, next_at(s, p, from))
            &&& forall|j: int| from <= j < next_at(s, p, from) ==> !has_at(s, p, j)
        },
        next_at(s, p, from) > s.len() ==> next_at(s, p, from) == s.len() + 1 && (from >= 0
            ==> forall|j: int| from <= j ==> !has_at(s, p, j)),
    decreases s.len() + 1 - from,
{
    if from < 0 || from + p.len() > s.len() {
    } else if has_at(s, p, from) {
    } else {
        lemma_next_at(s, p, from + 1);
    }
}

proof fn lemma_next_at_is(s: Seq<char>, p: Seq<char>, from: int, i: int)
    requires
        0 <= from <= i,
        has_at(s, p, i),
        forall|j: int| from <= j < i ==> !has_at(s, p, j),
    ensures
        next_at(s, p, from) == i,
{
    lemma_next_at(s, p, from);
}

/// The stretches lie in order inside the first `len` positions, none before
/// `pos`, and do not overlap.
pub open spec fn well_spaced(rs: Seq<(int, int)>, pos: int, len: int) -> bool
    decreases rs.len(),
{
    if rs.len() == 0 {
        0 <= pos <= len
    } else {
        &&& 0 <= pos <= rs[0].0 <= rs[0].1 <= len
        &&& well_spaced(rs.drop_first(), rs[0].1, len)
    }
}

/// `s` from `pos` on with every stretch of `rs` replaced by `new`.
pub open spec fn splice_from(s: Seq<char>, rs: Seq<(int, int)>, pos: int, new: Seq<char>) -> Seq<char>
    decreases rs.len(),
{
    if rs.len() == 0 {
        s.skip(pos)
    } else {
        s.subrange(pos, rs[0].0) + new + splice_from(s, rs.drop_first(), rs[0].1, new)
    }
}

/// `s` with every occurrence of `p`, taken from left to right, replaced by `r`.
pub open spec fn replace_of(s: Seq<char>, p: Seq<char>, r: Seq<char>) -> Seq<char> {
    splice_from(s, occurrences_from(s, p, 0), 0, r)
}

/// Stretches of machine positions as mathematical ones.
pub open spec fn spans(v: Seq<(usize, usize)>) -> Seq<(int, int)> {
    Seq::new(v.len(), |i: int| (v[i].0 as int, v[i].1 as int))
}

/// The stretches found by `occurrences_from` are disjoint, in order and inside
/// the text, and each holds the pattern.
pub proof fn lemma_occurrences(s: Seq<char>, p: Seq<char>, from: int)
    requires
        0 <= from <= s.len(),
    ensures
        well_spaced(occurrences_from(s, p, from), from, s.len() as int),
        forall|i: int|
            0 <= i < occurrences_from(s, p, from).len() ==> {
                let r = #[trigger] occurrences_from(s, p, from)[i];
                has_at(s, p, r.0) && r.1 == r.0 + p.len()
            },
    decreases s.len() - from,
{
    lemma_next_at(s, p, from);
    let i = next_at(s, p, from);
    if p.len() == 0 || i > s.len() {
    } else {
        lemma_occurrences(s, p, i + p.len());
        let rest = occurrences_from(s, p, i + p.len());
        let all = occurrences_from(s, p, from);
        assert(all == seq![(i, i + p.len())] + rest);
        assert(all.drop_first() =~= rest);
        assert forall|k: int| 0 <= k < all.len() implies {
            let r = #[trigger] all[k];
            has_at(s, p, r.0) && r.1 == r.0 + p.len()
        } by {
            if k > 0 {
                assert(all[k] == rest[k - 1]);
            }
        }
    }
}

/// A text has an occurrence to replace exactly when the pattern stands in it.
pub proof fn lemma_occurrences_exist(s: Seq<char>, p: Seq<char>)
    requires
        p.len() > 0,
    ensures
        (occurrences_from(s, p, 0).len() > 0) == crate::text::occurs(s, p),
{
    lemma_next_at(s, p, 0);
    if crate::text::occurs(s, p) {
        let i = choose|i: int| has_at(s, p, i);
        assert(has_at(s, p, i));
    }
}

/// Replacing stretches by a text that each of them already holds changes nothing.
pub proof fn lemma_splice_same(s: Seq<char>, rs: Seq<(int, int)>, pos: int, new: Seq<char>)
    requires
        well_spaced(rs, pos, s.len() as int),
        forall|i: int| 0 <= i < rs.len() ==> s.subrange((#[trigger] rs[i]).0, rs[i].1) == new,
    ensures
        splice_from(s, rs, pos, new) == s.skip(pos),
    decreases rs.len(),
{
    if rs.len() > 0 {
        let rest = rs.drop_first();
        assert forall|i: int| 0 <= i < rest.len() implies s.subrange((#[trigger] rest[i]).0, rest[i].1)
            == new by {
            assert(rest[i] == rs[i + 1]);
        }
        lemma_splice_same(s, rest, rs[0].1, new);
        assert(s.subrange(rs[0].0, rs[0].1) == new);
        assert(s.subrange(pos, rs[0].0) + s.subrange(rs[0].0, rs[0].1) + s.skip(rs[0].1)
            =~= s.skip(pos));
    }
}

/// Replacing a pattern by itself changes nothing.
pub proof fn lemma_replace_same(s: Seq<char>, p: Seq<char>)
    ensures
        replace_of(s, p, p) == s,
{
    let rs = occurrences_from(s, p, 0);
    lemma_occurrences(s, p, 0);
    assert forall|i: int| 0 <= i < rs.len() implies s.subrange((#[trigger] rs[i]).0, rs[i].1)
        == p by {
        assert(has_at(s, p, rs[i].0));
    }
    lemma_splice_same(s, rs, 0, p);
    assert(s.skip(0) =~= s);
}

/// A text without the pattern is not changed by replacing it.
pub proof fn lemma_replace_absent(s: Seq<char>, p: Seq<char>, r: Seq<char>)
    requires
        p.len() > 0,
        !crate::text::occurs(s, p),
    ensures
        replace_of(s, p, r) == s,
{
    lemma_occurrences_exist(s, p);
    assert(s.skip(0) =~= s);
}

/// Replacing by a text that is not empty leaves no text empty that was not.
pub proof fn lemma_replace_nonempty(s: Seq<char>, p: Seq<char>, r: Seq<char>)
    requires
        s.len() > 0,
        r.len() > 0,
    ensures
        replace_of(s, p, r).len() > 0,
{
    let rs = occurrences_from(s, p, 0);
    lemma_occurrences(s, p, 0);
    if rs.len() > 0 {
        assert(well_spaced(rs, 0, s.len() as int));
    }
}

/// The occurrences of `p` in `s` from left to right, without overlap.
pub fn occurrences(s: &Vec<char>, p: &Vec<char>) -> (r: Vec<(usize, usize)>)
    requires
        p@.len() > 0,
    ensures
        spans(r@) == occurrences_from(s@, p@, 0),
{
    let n: usize = s.len();
    let mut out: Vec<(usize, usize)> = Vec::new();
    let mut pos: usize = 0;
    assert(spans(out@) + occurrences_from(s@, p@, 0) =~= occurrences_from(s@, p@, 0));
    loop
        invariant_except_break
            p@.len() > 0,
            n == s@.len(),
            pos <= n,
            spans(out@) + occurrences_from(s@, p@, pos as int) == occurrences_from(s@, p@, 0),
        ensures
            spans(out@) == occurrences_from(s@, p@, 0),
        decreases n - pos,
    {
        match find_from(s, p, pos) {
            Some(i) => {
                let ghost before = spans(out@);
                let end: usize = i + p.len();
                proof {
                    lemma_next_at_is(s@, p@, pos as int, i as int);
                    assert(occurrences_from(s@, p@, pos as int) == seq![(i as int, end as int)]
                        + occurrences_from(s@, p@, end as int));
                }
                out.push((i, end));
                proof {
                    assert(spans(out@) =~= before + seq![(i as int, end as int)]);
                    assert(spans(out@) + occurrences_from(s@, p@, end as int) =~= before
                        + occurrences_from(s@, p@, pos as int));
                }
                pos = end;
            },
            None => {
                proof {
                    lemma_next_at(s@, p@, pos as int);
                    assert(occurrences_from(s@, p@, pos as int) =~= Seq::empty());
                    assert(spans(out@) + Seq::empty() =~= spans(out@));
                }
                break;
            },
        }
    }
    out
}

/// Each stretch of a well-spaced list lies inside the text and behind the one
/// before it.
pub proof fn lemma_well_spaced_at(rs: Seq<(int, int)>, pos: int, len: int, i: int)
    requires
        well_spaced(rs, pos, len),
        0 <= i < rs.len(),
    ensures
        pos <= rs[i].0 <= rs[i].1 <= len,
        well_spaced(rs.skip(i + 1), rs[i].1, len),
        i > 0 ==> rs[i - 1].1 <= rs[i].0,
    decreases i,
{
    if i > 0 {
        let t = rs.drop_first();
        lemma_well_spaced_at(t, rs[0].1, len, i - 1);
        assert(t.skip(i) =~= rs.skip(i + 1));
        if i > 1 {
            assert(t[i - 2] == rs[i - 1]);
        }
        assert(t[i - 1] == rs[i]);
    } else {
        assert(rs.skip(1) =~= rs.drop_first());
    }
}

/// The text with every stretch replaced by `new`.
pub fn splice(s: &Vec<char>, rs: &Vec<(usize, usize)>, new: &str) -> (r: String)
    requires
        well_spaced(spans(rs@), 0, s@.len() as int),
    ensures
        r@ == splice_from(s@, spans(rs@), 0, new@),
{
    let ghost all = spans(rs@);
    let mut out = String::new();
    let mut pos: usize = 0;
    let mut i: usize = 0;
    proof {
        assert(all.skip(0) =~= all);
        assert(out@ + splice_from(s@, all, 0, new@) =~= splice_from(s@, all, 0, new@));
    }
    while i < rs.len()
        invariant
            i <= rs@.len(),
            all == spans(rs@),
            well_spaced(all, 0, s@.len() as int),
            pos <= s@.len(),
            pos == (if i == 0 {
                0
            } else {
                all[i - 1].1
            }),
            out@ + splice_from(s@, all.skip(i as int), pos as int, new@) == splice_from(
                s@,
                all,
                0,
                new@,
            ),
        decreases rs@.len() - i,
    {
        proof {
            lemma_well_spaced_at(all, 0, s@.len() as int, i as int);
        }
        let (a, b) = rs[i];
        assert(all[i as int] == (a as int, b as int));
        let ghost before = out@;
        let gap = part(s, pos, a);
        out.append(gap.as_str());
        out.append(new);
        proof {
            let rest = all.skip(i as int);
            assert(rest.drop_first() =~= all.skip(i + 1));
            assert(rest[0] == all[i as int]);
            assert(out@ + splice_from(s@, all.skip(i + 1), b as int, new@) =~= before
                + splice_from(s@, rest, pos as int, new@));
        }
        pos = b;
        i += 1;
    }
    let tail = part(s, pos, s.len());
    out.append(tail.as_str());
    proof {
        assert(all.skip(i as int) =~= Seq::empty());
        assert(s@.skip(pos as int) =~= tail@);
    }
    out
}

/// The text with every occurrence of `p` replaced by `r`.
pub fn replace(s: &str, p: &str, r: &str) -> (out: String)
    requires
        p@.len() > 0,
    ensures
        out@ == replace_of(s@, p@, r@),
{
    let sv = to_chars(s);
    let pv = to_chars(p);
    let rs = occurrences(&sv, &pv);
    proof {
        lemma_occurrences(s@, p@, 0);
    }
    splice(&sv, &rs, r)
}

/// The pieces of `s` from `from` on between the occurrences of `p`.
pub open spec fn pieces_from(s: Seq<char>, p: Seq<char>, from: int) -> Seq<Seq<char>>
    decreases s.len() - from,
    via pieces_from_decreases
{
    let i = next_at(s, p, from);
    if p.len() == 0 || i > s.len() {
        seq![s.skip(from)]
    } else {
        seq![s.subrange(from, i)] + pieces_from(s, p, i + p.len())
    }
}

#[via_fn]
proof fn pieces_from_decreases(s: Seq<char>, p: Seq<char>, from: int) {
    lemma_next_at(s, p, from);
}

/// The pieces of `s` between the separators `p`.
pub open spec fn pieces_of(s: Seq<char>, p: Seq<char>) -> Seq<Seq<char>> {
    pieces_from(s, p, 0)
}

/// The pieces of the text between the separators `p`.
pub fn pieces(s: &str, p: &str) -> (r: Vec<String>)
    requires
        p@.len() > 0,
    ensures
        texts(r@) == pieces_of(s@, p@),
{
    let sv = to_chars(s);
    let pv = to_chars(p);
    let n: usize = sv.len();
    let mut out: Vec<String> = Vec::new();
    let mut pos: usize = 0;
    assert(texts(out@) + pieces_from(s@, p@, 0) =~= pieces_from(s@, p@, 0));
    loop
        invariant_except_break
            p@.len() > 0,
            sv@ == s@,
            pv@ == p@,
            n == s@.len(),
            pos <= n,
            texts(out@) + pieces_from(s@, p@, pos as int) == pieces_from(s@, p@, 0),
        ensures
            texts(out@) == pieces_from(s@, p@, 0),
        decreases n - pos,
    {
        let ghost before = texts(out@);
        match find_from(&sv, &pv, pos) {
            Some(i) => {
                let end: usize = i + pv.len();
                proof {
                    lemma_next_at_is(s@, p@, pos as int, i as int);
                }
                let piece = part(&sv, pos, i);
                out.push(piece);
                proof {
                    assert(texts(out@) =~= before.push(piece@));
                    assert(texts(out@) + pieces_from(s@, p@, end as int) =~= before + pieces_from(
                        s@,
                        p@,
                        pos as int,
                    ));
                }
                pos = end;
            },
            None => {
                proof {
                    lemma_next_at(s@, p@, pos as int);
                }
                let piece = part(&sv, pos, n);
                out.push(piece);
                proof {
                    assert(piece@ =~= s@.skip(pos as int));
                    assert(texts(out@) =~= before + seq![piece@]);
                }
                break;
            },
        }
    }
    out
}

/// The stretches moved `k` positions to the right.
pub open spec fn shifted(rs: Seq<(int, int)>, k: int) -> Seq<(int, int)> {
    Seq::new(rs.len(), |i: int| (rs[i].0 + k, rs[i].1 + k))
}

proof fn lemma_next_at_shift(s: Seq<char>, p: Seq<char>, k: int, from: int)
    requires
        0 <= k <= from,
        k <= s.len(),
    ensures
        next_at(s, p, from) == next_at(s.skip(k), p, from - k) + k,
    decreases s.len() + 1 - from,
{
    let t = s.skip(k);
    if from + p.len() <= s.len() {
        assert(t.subrange(from - k, from - k + p.len()) =~= s.subrange(from, from + p.len()));
        if !has_at(s, p, from) {
            lemma_next_at_shift(s, p, k, from + 1);
        }
    }
}

proof fn lemma_occurrences_shift(s: Seq<char>, p: Seq<char>, k: int, from: int)
    requires
        0 <= k <= from <= s.len(),
    ensures
        occurrences_from(s, p, from) == shifted(occurrences_from(s.skip(k), p, from - k), k),
    decreases s.len() - from,
{
    let t = s.skip(k);
    lemma_next_at_shift(s, p, k, from);
    lemma_next_at(s, p, from);
    let i = next_at(s, p, from);
    if p.len() == 0 || i > s.len() {
        assert(occurrences_from(s, p, from) =~= shifted(occurrences_from(t, p, from - k), k));
    } else {
        lemma_occurrences_shift(s, p, k, i + p.len());
        let rest = occurrences_from(t, p, i - k + p.len());
        assert(occurrences_from(t, p, from - k) == seq![(i - k, i - k + p.len())] + rest);
        assert(occurrences_from(s, p, from) == seq![(i, i + p.len())] + shifted(rest, k));
        assert(shifted(seq![(i - k, i - k + p.len())] + rest, k) =~= seq![(i, i + p.len())] + shifted(
            rest,
            k,
        ));
    }
}

proof fn lemma_splice_shift(s: Seq<char>, rs: Seq<(int, int)>, k: int, pos: int, new: Seq<char>)
    requires
        0 <= k <= s.len(),
        well_spaced(rs, pos, s.len() - k),
    ensures
        splice_from(s, shifted(rs, k), pos + k, new) == splice_from(s.skip(k), rs, pos, new),
    decreases rs.len(),
{
    let t = s.skip(k);
    if rs.len() == 0 {
        assert(t.skip(pos) =~= s.skip(pos + k));
    } else {
        let rest = rs.drop_first();
        lemma_well_spaced_at(rs, pos, s.len() - k, 0);
        assert(shifted(rs, k).drop_first() =~= shifted(rest, k));
        lemma_splice_shift(s, rest, k, rs[0].1, new);
        assert(t.subrange(pos, rs[0].0) =~= s.subrange(pos + k, rs[0].0 + k));
    }
}

/// Replacing goes on behind the first occurrence as it does on the rest of the text.
pub proof fn lemma_replace_step(s: Seq<char>, p: Seq<char>, r: Seq<char>, i: int)
    requires
        p.len() > 0,
        has_at(s, p, i),
        forall|j: int| 0 <= j < i ==> !has_at(s, p, j),
    ensures
        replace_of(s, p, r) == s.take(i) + r + replace_of(s.skip(i + p.len()), p, r),
{
    lemma_next_at_is(s, p, 0, i);
    let k = i + p.len();
    let all = occurrences_from(s, p, 0);
    let rest = occurrences_from(s.skip(k), p, 0);
    lemma_occurrences_shift(s, p, k, k);
    assert(all == seq![(i, k)] + shifted(rest, k));
    assert(all.drop_first() =~= shifted(rest, k));
    lemma_occurrences(s.skip(k), p, 0);
    lemma_splice_shift(s, rest, k, 0, r);
    assert(s.subrange(0, i) =~= s.take(i));
}

} // verus!
