//! Reduction of a list of stretches to a disjoint one, and stretches in bytes.
use vstd::prelude::*;
use crate::splice::{spans, well_spaced};
use crate::text::{byte_len, part, size};

verus! {

/// `r` put behind the last stretch that starts at or before it.
pub open spec fn insert_by_start(sorted: Seq<(usize, usize)>, r: (usize, usize)) -> Seq<(usize, usize)>
    decreases sorted.len(),
{
    if sorted.len() == 0 || sorted.last().0 <= r.0 {
        sorted.push(r)
    } else {
        insert_by_start(sorted.drop_last(), r).push(sorted.last())
    }
}

/// The stretches ordered by start; those with the same start keep their order.
pub open spec fn sorted_of(rs: Seq<(usize, usize)>) -> Seq<(usize, usize)>
    decreases rs.len(),
{
    if rs.len() == 0 {
        rs
    } else {
        insert_by_start(sorted_of(rs.drop_last()), rs.last())
    }
}

/// The stretches that remain when, from left to right, each one that starts
/// before the end of the last kept one is dropped.
pub open spec fn kept_of(rs: Seq<(usize, usize)>) -> Seq<(usize, usize)>
    decreases rs.len(),
{
    if rs.len() == 0 {
        rs
    } else {
        let kept = kept_of(rs.drop_last());
        if kept.len() > 0 && rs.last().0 < kept.last().1 {
            kept
        } else {
            kept.push(rs.last())
        }
    }
}

/// The disjoint part of a list of stretches, earliest start first.
pub open spec fn disjoint_of(rs: Seq<(usize, usize)>) -> Seq<(usize, usize)> {
    kept_of(sorted_of(rs))
}

/// Starts never decrease.
pub open spec fn by_start(rs: Seq<(usize, usize)>) -> bool {
    forall|i: int, j: int| 0 <= i <= j < rs.len() ==> (#[trigger] rs[i]).0 <= (#[trigger] rs[j]).0
}

proof fn lemma_insert_at(sorted: Seq<(usize, usize)>, r: (usize, usize), k: int)
    requires
        0 <= k <= sorted.len(),
        forall|j: int| k <= j < sorted.len() ==> (#[trigger] sorted[j]).0 > r.0,
        k > 0 ==> sorted[k - 1].0 <= r.0,
    ensures
        insert_by_start(sorted, r) == sorted.insert(k, r),
    decreases sorted.len() - k,
{
    if k < sorted.len() {
        let t = sorted.drop_last();
        assert(sorted[sorted.len() - 1].0 > r.0);
        lemma_insert_at(t, r, k);
        assert(t.insert(k, r).push(sorted.last()) =~= sorted.insert(k, r));
    } else {
        assert(sorted.push(r) =~= sorted.insert(k, r));
    }
}

proof fn lemma_insert_sorted(sorted: Seq<(usize, usize)>, r: (usize, usize))
    requires
        by_start(sorted),
    ensures
        by_start(insert_by_start(sorted, r)),
        insert_by_start(sorted, r).len() == sorted.len() + 1,
        forall|x: (usize, usize)| #[trigger]
            insert_by_start(sorted, r).contains(x) <==> x == r || sorted.contains(x),
    decreases sorted.len(),
{
    let out = insert_by_start(sorted, r);
    if sorted.len() == 0 || sorted.last().0 <= r.0 {
        assert forall|x: (usize, usize)| #[trigger] out.contains(x) <==> x == r || sorted.contains(x) by {
            if x == r {
                assert(out[sorted.len() as int] == x);
            }
            if sorted.contains(x) {
                let i = choose|i: int| 0 <= i < sorted.len() && sorted[i] == x;
                assert(out[i] == x);
            }
        }
    } else {
        let t = sorted.drop_last();
        assert(by_start(t));
        lemma_insert_sorted(t, r);
        let u = insert_by_start(t, r);
        let last = sorted.last();
        assert forall|i: int, j: int| 0 <= i <= j < out.len() implies (#[trigger] out[i]).0 <= (
        #[trigger] out[j]).0 by {
            if j == out.len() - 1 && i < j {
                assert(u.contains(u[i]));
                if u[i] != r {
                    assert(t.contains(u[i]));
                    let m = choose|m: int| 0 <= m < t.len() && t[m] == u[i];
                    assert(sorted[m].0 <= sorted[sorted.len() - 1].0);
                }
            }
        }
        assert forall|x: (usize, usize)| #[trigger] out.contains(x) <==> x == r || sorted.contains(x) by {
            if out.contains(x) {
                let i = choose|i: int| 0 <= i < out.len() && out[i] == x;
                if i == out.len() - 1 {
                    assert(sorted[sorted.len() - 1] == x);
                } else {
                    assert(u[i] == x);
                    assert(u.contains(x));
                    if x != r {
                        let m = choose|m: int| 0 <= m < t.len() && t[m] == x;
                        assert(sorted[m] == x);
                    }
                }
            }
            if x == r {
                assert(u.contains(r));
                let i = choose|i: int| 0 <= i < u.len() && u[i] == r;
                assert(out[i] == r);
            }
            if sorted.contains(x) {
                let m = choose|m: int| 0 <= m < sorted.len() && sorted[m] == x;
                if m == sorted.len() - 1 {
                    assert(out[out.len() - 1] == x);
                } else {
                    assert(t[m] == x);
                    assert(u.contains(x));
                    let i = choose|i: int| 0 <= i < u.len() && u[i] == x;
                    assert(out[i] == x);
                }
            }
        }
    }
}

/// Sorting by start orders the stretches and keeps exactly the given ones.
pub proof fn lemma_sorted(rs: Seq<(usize, usize)>)
    ensures
        by_start(sorted_of(rs)),
        sorted_of(rs).len() == rs.len(),
        forall|x: (usize, usize)| #[trigger] sorted_of(rs).contains(x) <==> rs.contains(x),
    decreases rs.len(),
{
    if rs.len() > 0 {
        let t = rs.drop_last();
        lemma_sorted(t);
        lemma_insert_sorted(sorted_of(t), rs.last());
        assert forall|x: (usize, usize)| #[trigger] sorted_of(rs).contains(x) <==> rs.contains(x) by {
            if rs.contains(x) {
                let i = choose|i: int| 0 <= i < rs.len() && rs[i] == x;
                if i < rs.len() - 1 {
                    assert(t[i] == x);
                    assert(t.contains(x));
                }
            }
            if t.contains(x) {
                let i = choose|i: int| 0 <= i < t.len() && t[i] == x;
                assert(rs[i] == x);
            }
            assert(rs[rs.len() - 1] == rs.last());
        }
    }
}

/// Keeping from left to right: the kept stretches are among the given ones, each
/// starts at or after the end of the one before it, and a dropped one starts
/// inside a kept one.
pub proof fn lemma_kept(rs: Seq<(usize, usize)>)
    requires
        by_start(rs),
    ensures
        forall|x: (usize, usize)| #[trigger] kept_of(rs).contains(x) ==> rs.contains(x),
        forall|i: int|
            0 < i < kept_of(rs).len() ==> kept_of(rs)[i - 1].1 <= (#[trigger] kept_of(rs)[i]).0,
        rs.len() > 0 ==> kept_of(rs).len() > 0 && kept_of(rs).last().0 <= rs.last().0,
        forall|x: (usize, usize)| #[trigger]
            rs.contains(x) && !kept_of(rs).contains(x) ==> exists|k: (usize, usize)| #[trigger]
                kept_of(rs).contains(k) && k.0 <= x.0 < k.1,
    decreases rs.len(),
{
    if rs.len() > 0 {
        let t = rs.drop_last();
        assert(by_start(t));
        lemma_kept(t);
        let kt = kept_of(t);
        let kr = kept_of(rs);
        let last = rs.last();
        assert forall|x: (usize, usize)| #[trigger] kr.contains(x) implies rs.contains(x) by {
            let i = choose|i: int| 0 <= i < kr.len() && kr[i] == x;
            if i < kt.len() {
                assert(kt[i] == x);
                assert(kt.contains(x));
                let m = choose|m: int| 0 <= m < t.len() && t[m] == x;
                assert(rs[m] == x);
            } else {
                assert(rs[rs.len() - 1] == x);
            }
        }
        assert forall|i: int| 0 < i < kr.len() implies kr[i - 1].1 <= (#[trigger] kr[i]).0 by {
            if i < kt.len() {
                assert(kt[i - 1].1 <= kt[i].0);
            }
        }
        if t.len() > 0 {
            assert(rs[t.len() - 1].0 <= rs[rs.len() - 1].0);
        }
        assert forall|x: (usize, usize)| #[trigger] rs.contains(x) && !kr.contains(x) implies exists|
            k: (usize, usize),
        | #[trigger] kr.contains(k) && k.0 <= x.0 < k.1 by {
            let m = choose|m: int| 0 <= m < rs.len() && rs[m] == x;
            if m == rs.len() - 1 {
                assert(x == last);
                if !(kt.len() > 0 && last.0 < kt.last().1) {
                    assert(kr[kr.len() - 1] == last);
                }
                assert(kr[kr.len() - 1] == kt.last());
                assert(kr.contains(kt.last()));
            } else {
                assert(t[m] == x);
                assert(t.contains(x));
                if kt.contains(x) {
                    let i = choose|i: int| 0 <= i < kt.len() && kt[i] == x;
                    assert(kr[i] == x);
                }
                let k = choose|k: (usize, usize)| #[trigger] kt.contains(k) && k.0 <= x.0 < k.1;
                let i = choose|i: int| 0 <= i < kt.len() && kt[i] == k;
                assert(kr[i] == k);
                assert(kr.contains(k));
            }
        }
    }
}

/// Every stretch ends before the next one starts.
pub open spec fn in_order(rs: Seq<(usize, usize)>) -> bool {
    forall|i: int, j: int| 0 <= i < j < rs.len() ==> (#[trigger] rs[i]).1 <= (#[trigger] rs[j]).0
}

/// Stretches that are in order by start stay as they are when they are ordered.
pub proof fn lemma_sorted_is_same(rs: Seq<(usize, usize)>)
    requires
        by_start(rs),
    ensures
        sorted_of(rs) == rs,
    decreases rs.len(),
{
    if rs.len() > 0 {
        let t = rs.drop_last();
        lemma_sorted_is_same(t);
        if t.len() > 0 {
            assert(t.last() == rs[rs.len() - 2]);
            assert(rs[rs.len() - 2].0 <= rs[rs.len() - 1].0);
        }
        assert(t.push(rs.last()) =~= rs);
    }
}

/// Of stretches that do not overlap none is dropped.
pub proof fn lemma_kept_is_same(rs: Seq<(usize, usize)>)
    requires
        in_order(rs),
    ensures
        kept_of(rs) == rs,
    decreases rs.len(),
{
    if rs.len() > 0 {
        let t = rs.drop_last();
        assert forall|i: int, j: int| 0 <= i < j < t.len() implies (#[trigger] t[i]).1 <= (
        #[trigger] t[j]).0 by {
            assert(t[i] == rs[i] && t[j] == rs[j]);
        }
        lemma_kept_is_same(t);
        if t.len() > 0 {
            assert(t.last() == rs[rs.len() - 2]);
            assert(rs[rs.len() - 2].1 <= rs[rs.len() - 1].0);
        }
        assert(t.push(rs.last()) =~= rs);
    }
}

proof fn lemma_neighbours(rs: Seq<(usize, usize)>)
    requires
        forall|i: int| 0 <= i < rs.len() ==> (#[trigger] rs[i]).0 < rs[i].1,
        forall|i: int| 0 < i < rs.len() ==> rs[i - 1].1 <= (#[trigger] rs[i]).0,
    ensures
        in_order(rs),
        by_start(rs),
{
    assert forall|i: int, j: int| 0 <= i < j < rs.len() implies (#[trigger] rs[i]).1 <= (
    #[trigger] rs[j]).0 by {
        lemma_ends_before(rs, i, j);
    }
    assert forall|i: int, j: int| 0 <= i <= j < rs.len() implies (#[trigger] rs[i]).0 <= (
    #[trigger] rs[j]).0 by {
        if i < j {
            lemma_ends_before(rs, i, j);
            assert(rs[i].0 < rs[i].1);
        }
    }
}

proof fn lemma_ends_before(rs: Seq<(usize, usize)>, i: int, j: int)
    requires
        0 <= i < j < rs.len(),
        forall|i: int| 0 <= i < rs.len() ==> (#[trigger] rs[i]).0 < rs[i].1,
        forall|i: int| 0 < i < rs.len() ==> rs[i - 1].1 <= (#[trigger] rs[i]).0,
    ensures
        rs[i].1 <= rs[j].0,
    decreases j - i,
{
    assert(rs[j - 1].1 <= rs[j].0);
    if i < j - 1 {
        lemma_ends_before(rs, i, j - 1);
        assert(rs[j - 1].0 < rs[j - 1].1);
    }
}

/// The disjoint part of a list of stretches holds only given ones, none of which
/// overlaps the next, and every given stretch is kept or starts inside a kept one
/// that starts no later. Where no stretch is empty, the disjoint part of it is the same again.
pub proof fn law_disjoint_part(rs: Seq<(usize, usize)>)
    ensures
        forall|x: (usize, usize)| #[trigger] disjoint_of(rs).contains(x) ==> rs.contains(x),
        forall|i: int|
            0 < i < disjoint_of(rs).len() ==> disjoint_of(rs)[i - 1].1 <= (#[trigger] disjoint_of(
                rs,
            )[i]).0,
        forall|x: (usize, usize)| #[trigger]
            rs.contains(x) && !disjoint_of(rs).contains(x) ==> exists|k: (usize, usize)| #[trigger]
                disjoint_of(rs).contains(k) && k.0 <= x.0 < k.1,
        (forall|i: int| 0 <= i < rs.len() ==> (#[trigger] rs[i]).0 < rs[i].1) ==> disjoint_of(
            disjoint_of(rs),
        ) == disjoint_of(rs),
{
    lemma_sorted(rs);
    lemma_kept(sorted_of(rs));
    if forall|i: int| 0 <= i < rs.len() ==> (#[trigger] rs[i]).0 < rs[i].1 {
        let d = disjoint_of(rs);
        assert forall|i: int| 0 <= i < d.len() implies (#[trigger] d[i]).0 < d[i].1 by {
            assert(d.contains(d[i]));
            assert(sorted_of(rs).contains(d[i]));
            let m = choose|m: int| 0 <= m < rs.len() && rs[m] == d[i];
            assert(rs[m].0 < rs[m].1);
        }
        lemma_neighbours(d);
        lemma_sorted_is_same(d);
        lemma_kept_is_same(d);
    }
    assert forall|x: (usize, usize)| #[trigger] disjoint_of(rs).contains(x) implies rs.contains(x) by {
        assert(sorted_of(rs).contains(x));
    }
    assert forall|x: (usize, usize)| #[trigger] rs.contains(x) && !disjoint_of(rs).contains(x) implies exists|
        k: (usize, usize),
    | #[trigger] disjoint_of(rs).contains(k) && k.0 <= x.0 < k.1 by {
        assert(sorted_of(rs).contains(x));
    }
}

proof fn lemma_pairs_well_spaced(rs: Seq<(usize, usize)>, pos: int, len: int)
    requires
        0 <= pos <= len,
        rs.len() > 0 ==> pos <= rs[0].0,
        forall|i: int| 0 <= i < rs.len() ==> (#[trigger] rs[i]).0 <= rs[i].1 <= len,
        forall|i: int| 0 < i < rs.len() ==> rs[i - 1].1 <= (#[trigger] rs[i]).0,
    ensures
        well_spaced(spans(rs), pos, len),
    decreases rs.len(),
{
    if rs.len() > 0 {
        let t = rs.drop_first();
        assert forall|i: int| 0 <= i < t.len() implies (#[trigger] t[i]).0 <= t[i].1 <= len by {
            assert(t[i] == rs[i + 1]);
        }
        assert forall|i: int| 0 < i < t.len() implies t[i - 1].1 <= (#[trigger] t[i]).0 by {
            assert(rs[i + 1 - 1].1 <= rs[i + 1].0);
        }
        if t.len() > 0 {
            assert(rs[1 - 1].1 <= rs[1].0);
        }
        assert(rs[0].0 <= rs[0].1);
        lemma_pairs_well_spaced(t, rs[0].1 as int, len);
        assert(spans(rs).drop_first() =~= spans(t));
    }
}

/// The disjoint part of stretches inside a text can be spliced.
pub proof fn lemma_disjoint_well_spaced(rs: Seq<(usize, usize)>, len: int)
    requires
        0 <= len,
        forall|i: int| 0 <= i < rs.len() ==> (#[trigger] rs[i]).0 <= rs[i].1 <= len,
    ensures
        well_spaced(spans(disjoint_of(rs)), 0, len),
        rs.len() > 0 ==> disjoint_of(rs).len() > 0,
{
    law_disjoint_part(rs);
    lemma_sorted(rs);
    lemma_kept(sorted_of(rs));
    let d = disjoint_of(rs);
    assert forall|i: int| 0 <= i < d.len() implies (#[trigger] d[i]).0 <= d[i].1 <= len by {
        assert(d.contains(d[i]));
        let m = choose|m: int| 0 <= m < rs.len() && rs[m] == d[i];
        assert(rs[m].0 <= rs[m].1);
    }
    lemma_pairs_well_spaced(d, 0, len);
}

fn sort_by_start(rs: &Vec<(usize, usize)>) -> (r: Vec<(usize, usize)>)
    ensures
        r@ == sorted_of(rs@),
{
    let mut out: Vec<(usize, usize)> = Vec::new();
    let mut i: usize = 0;
    assert(rs@.take(0) =~= Seq::empty());
    while i < rs.len()
        invariant
            i <= rs@.len(),
            out@ == sorted_of(rs@.take(i as int)),
            out@.len() == i,
        decreases rs@.len() - i,
    {
        let r = rs[i];
        let mut k: usize = out.len();
        while k > 0 && out[k - 1].0 > r.0
            invariant
                k <= out@.len(),
                forall|j: int| k <= j < out@.len() ==> (#[trigger] out@[j]).0 > r.0,
            decreases k,
        {
            k -= 1;
        }
        proof {
            lemma_insert_at(out@, r, k as int);
            assert(rs@.take(i + 1).drop_last() =~= rs@.take(i as int));
        }
        out.insert(k, r);
        i += 1;
    }
    assert(rs@.take(i as int) =~= rs@);
    out
}

/// Reduces stretches to a disjoint list: they are ordered by start, and one that
/// starts before the end of the last kept one is dropped.
pub fn keep_disjoint_ranges(ranges: Vec<(usize, usize)>) -> (r: Vec<(usize, usize)>)
    ensures
        r@ == disjoint_of(ranges@),
{
    let sorted = sort_by_start(&ranges);
    let mut out: Vec<(usize, usize)> = Vec::new();
    let mut i: usize = 0;
    assert(sorted@.take(0) =~= Seq::empty());
    while i < sorted.len()
        invariant
            i <= sorted@.len(),
            out@ == kept_of(sorted@.take(i as int)),
        decreases sorted@.len() - i,
    {
        let r = sorted[i];
        assert(sorted@.take(i + 1).drop_last() =~= sorted@.take(i as int));
        let n: usize = out.len();
        if n > 0 && r.0 < out[n - 1].1 {
        } else {
            out.push(r);
        }
        i += 1;
    }
    assert(sorted@.take(i as int) =~= sorted@);
    out
}

/// Stretches of characters of `s` as stretches of its bytes.
pub open spec fn byte_spans(s: Seq<char>, rs: Seq<(int, int)>) -> Seq<(int, int)> {
    Seq::new(rs.len(), |i: int| (byte_len(s.take(rs[i].0)) as int, byte_len(s.take(rs[i].1)) as int))
}

/// Stretches of characters as stretches of bytes.
pub fn to_bytes(s: &Vec<char>, rs: &Vec<(usize, usize)>) -> (r: Vec<(usize, usize)>)
    requires
        forall|i: int| 0 <= i < rs@.len() ==> (#[trigger] rs@[i]).0 <= s@.len() && rs@[i].1 <= s@.len(),
    ensures
        spans(r@) == byte_spans(s@, spans(rs@)),
{
    let mut out: Vec<(usize, usize)> = Vec::new();
    let mut i: usize = 0;
    while i < rs.len()
        invariant
            i <= rs@.len(),
            forall|i: int|
                0 <= i < rs@.len() ==> (#[trigger] rs@[i]).0 <= s@.len() && rs@[i].1 <= s@.len(),
            spans(out@) =~= byte_spans(s@, spans(rs@)).take(i as int),
        decreases rs@.len() - i,
    {
        let (a, b) = rs[i];
        let before = part(s, 0, a);
        let upto = part(s, 0, b);
        assert(s@.subrange(0, a as int) =~= s@.take(a as int));
        assert(s@.subrange(0, b as int) =~= s@.take(b as int));
        let ghost done = spans(out@);
        let r = (size(before.as_str()), size(upto.as_str()));
        out.push(r);
        proof {
            let all = byte_spans(s@, spans(rs@));
            assert(spans(out@) =~= done.push((r.0 as int, r.1 as int)));
            assert(all[i as int] == (r.0 as int, r.1 as int));
            assert(all.take(i + 1) =~= all.take(i as int).push(all[i as int]));
        }
        i += 1;
    }
    assert(byte_spans(s@, spans(rs@)).take(i as int) =~= byte_spans(s@, spans(rs@)));
    out
}

} // verus!
