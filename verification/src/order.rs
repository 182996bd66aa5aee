//! Stable ordering of items by a rank and a text.
use vstd::prelude::*;

verus! {

/// What an item is ordered by: the rank, and the text among equal ranks.
pub struct SortKey {
    pub rank: u128,
    pub text: Vec<char>,
}

/// `a` comes before `b` in the order of their characters.
pub open spec fn text_less(a: Seq<char>, b: Seq<char>) -> bool
    decreases a.len(),
{
    if b.len() == 0 {
        false
    } else if a.len() == 0 {
        true
    } else if a[0] != b[0] {
        a[0] < b[0]
    } else {
        text_less(a.drop_first(), b.drop_first())
    }
}

/// Key `a` comes before key `b`.
pub open spec fn key_less(a: (u128, Seq<char>), b: (u128, Seq<char>)) -> bool {
    a.0 < b.0 || (a.0 == b.0 && text_less(a.1, b.1))
}

/// The key as rank and text.
pub open spec fn key_view(k: SortKey) -> (u128, Seq<char>) {
    (k.rank, k.text@)
}

/// Item `i` comes before item `j`: by key, and among equal keys by position.
pub open spec fn comes_before(keys: Seq<(u128, Seq<char>)>, i: int, j: int) -> bool {
    key_less(keys[i], keys[j]) || (!key_less(keys[j], keys[i]) && i < j)
}

/// `order` lists all positions of `keys` once, each behind those that come before
/// it.
pub open spec fn is_order(keys: Seq<(u128, Seq<char>)>, order: Seq<usize>) -> bool {
    &&& order.len() == keys.len()
    &&& forall|i: int| 0 <= i < order.len() ==> 0 <= #[trigger] order[i] < keys.len()
    &&& forall|i: int, j: int|
        0 <= i < j < order.len() ==> comes_before(
            keys,
            #[trigger] order[i] as int,
            #[trigger] order[j] as int,
        )
}

/// Keys as ranks and texts.
pub open spec fn keys_view(keys: Seq<SortKey>) -> Seq<(u128, Seq<char>)> {
    Seq::new(keys.len(), |i: int| key_view(keys[i]))
}

proof fn lemma_text_less_irreflexive(a: Seq<char>)
    ensures
        !text_less(a, a),
    decreases a.len(),
{
    if a.len() > 0 {
        lemma_text_less_irreflexive(a.drop_first());
    }
}

/// The order of texts is transitive, also across texts of which neither comes first.
pub proof fn lemma_text_less_transitive(a: Seq<char>, b: Seq<char>, c: Seq<char>)
    ensures
        text_less(a, b) && text_less(b, c) ==> text_less(a, c),
        !text_less(b, a) && !text_less(c, b) ==> !text_less(c, a),
        text_less(a, b) && !text_less(c, b) ==> text_less(a, c),
        !text_less(b, a) && text_less(b, c) ==> text_less(a, c),
    decreases a.len(),
{
    if a.len() > 0 && b.len() > 0 && c.len() > 0 && a[0] == b[0] && b[0] == c[0] {
        lemma_text_less_transitive(a.drop_first(), b.drop_first(), c.drop_first());
    }
}

/// Of two texts at most one comes before the other, and equal texts neither.
pub proof fn lemma_text_less_total(a: Seq<char>, b: Seq<char>)
    ensures
        text_less(a, b) ==> !text_less(b, a),
        !text_less(a, b) && !text_less(b, a) <==> a == b,
    decreases a.len(),
{
    if a.len() > 0 && b.len() > 0 && a[0] == b[0] {
        lemma_text_less_total(a.drop_first(), b.drop_first());
        if a.drop_first() == b.drop_first() {
            assert(a =~= seq![a[0]] + a.drop_first());
            assert(b =~= seq![b[0]] + b.drop_first());
        }
    } else if a.len() == 0 && b.len() == 0 {
        assert(a =~= b);
    }
    if a == b {
        lemma_text_less_irreflexive(a);
    }
}

proof fn lemma_before_transitive(keys: Seq<(u128, Seq<char>)>, i: int, j: int, k: int)
    requires
        comes_before(keys, i, j),
        comes_before(keys, j, k),
    ensures
        comes_before(keys, i, k),
{
    lemma_text_less_transitive(keys[i].1, keys[j].1, keys[k].1);
    lemma_text_less_total(keys[i].1, keys[j].1);
    lemma_text_less_total(keys[j].1, keys[k].1);
    lemma_text_less_total(keys[i].1, keys[k].1);
}

/// An order lists every position.
pub proof fn lemma_order_is_complete(keys: Seq<(u128, Seq<char>)>, order: Seq<usize>)
    requires
        is_order(keys, order),
    ensures
        order.no_duplicates(),
        forall|u: usize| u < keys.len() ==> #[trigger] order.contains(u),
{
    assert forall|i: int, j: int| 0 <= i < order.len() && 0 <= j < order.len() && i != j implies order[i]
        != order[j] by {
        if order[i] == order[j] {
            let k = order[i] as int;
            lemma_text_less_irreflexive(keys[k].1);
            if i < j {
                assert(comes_before(keys, order[i] as int, order[j] as int));
            } else {
                assert(comes_before(keys, order[j] as int, order[i] as int));
            }
        }
    }
    lemma_distinct_is_complete(order, keys.len());
}

/// As many distinct positions as there are list every one of them.
pub proof fn lemma_distinct_is_complete(order: Seq<usize>, n: nat)
    requires
        order.len() == n,
        order.no_duplicates(),
        forall|i: int| 0 <= i < order.len() ==> #[trigger] order[i] < n,
    ensures
        forall|u: usize| u < n ==> #[trigger] order.contains(u),
{
    let all = order.map_values(|u: usize| u as int);
    let s = all.to_set();
    assert(all.no_duplicates());
    all.unique_seq_to_set();
    let full = vstd::set_lib::set_int_range(0, n as int);
    vstd::set_lib::lemma_int_range(0, n as int);
    assert forall|x: int| s.contains(x) implies full.contains(x) by {
        let i = choose|i: int| 0 <= i < all.len() && all[i] == x;
        assert(order[i] < n);
    }
    assert(s.subset_of(full));
    vstd::set_lib::lemma_set_subset_finite(full, s);
    vstd::set_lib::lemma_subset_equality(s, full);
    assert forall|u: usize| u < n implies #[trigger] order.contains(u) by {
        assert(full.contains(u as int));
        let k = choose|k: int| 0 <= k < all.len() && all[k] == u as int;
        assert(order[k] == u);
    }
}

/// Keys have one order: any two orders of them are the same.
pub proof fn law_order_is_unique(keys: Seq<(u128, Seq<char>)>, a: Seq<usize>, b: Seq<usize>)
    requires
        is_order(keys, a),
        is_order(keys, b),
    ensures
        a == b,
{
    lemma_order_is_complete(keys, a);
    lemma_order_is_complete(keys, b);
    lemma_orders_agree(keys, a, b, a.len() as int);
    assert(a =~= b);
}

proof fn lemma_orders_agree(keys: Seq<(u128, Seq<char>)>, a: Seq<usize>, b: Seq<usize>, n: int)
    requires
        is_order(keys, a),
        is_order(keys, b),
        a.no_duplicates(),
        b.no_duplicates(),
        forall|u: usize| u < keys.len() ==> #[trigger] a.contains(u),
        forall|u: usize| u < keys.len() ==> #[trigger] b.contains(u),
        0 <= n <= a.len(),
    ensures
        forall|k: int| 0 <= k < n ==> a[k] == b[k],
    decreases n,
{
    if n > 0 {
        let i = n - 1;
        lemma_orders_agree(keys, a, b, i);
        if a[i] != b[i] {
            assert(b.contains(a[i]));
            let j = choose|j: int| 0 <= j < b.len() && b[j] == a[i];
            assert(a.contains(b[i]));
            let m = choose|m: int| 0 <= m < a.len() && a[m] == b[i];
            if j < i {
                assert(a[j] == b[j]);
            }
            if m < i {
                assert(a[m] == b[m]);
            }
            assert(comes_before(keys, b[i] as int, b[j] as int));
            assert(comes_before(keys, a[i] as int, a[m] as int));
            lemma_text_less_total(keys[a[i] as int].1, keys[b[i] as int].1);
        }
    }
}

/// Whether `a` comes before `b` in the order of their characters.
pub fn less_text(a: &Vec<char>, b: &Vec<char>) -> (r: bool)
    ensures
        r == text_less(a@, b@),
{
    let mut i: usize = 0;
    assert(a@.skip(0) =~= a@);
    assert(b@.skip(0) =~= b@);
    loop
        invariant
            i <= a@.len(),
            i <= b@.len(),
            text_less(a@, b@) == text_less(a@.skip(i as int), b@.skip(i as int)),
        decreases a@.len() - i,
    {
        if i >= b.len() {
            return false;
        }
        if i >= a.len() {
            return true;
        }
        let x: char = a[i];
        let y: char = b[i];
        assert(a@.skip(i as int)[0] == x && b@.skip(i as int)[0] == y);
        if x != y {
            return x < y;
        }
        assert(a@.skip(i as int).drop_first() =~= a@.skip(i + 1));
        assert(b@.skip(i as int).drop_first() =~= b@.skip(i + 1));
        i += 1;
    }
}

fn less(a: &SortKey, b: &SortKey) -> (r: bool)
    ensures
        r == key_less(key_view(*a), key_view(*b)),
{
    a.rank < b.rank || (a.rank == b.rank && less_text(&a.text, &b.text))
}

/// The positions of the keys in ascending order; equal keys keep their order.
pub fn sorted_order(keys: &Vec<SortKey>) -> (r: Vec<usize>)
    ensures
        is_order(keys_view(keys@), r@),
{
    let ghost ks = keys_view(keys@);
    let mut out: Vec<usize> = Vec::new();
    let mut n: usize = 0;
    while n < keys.len()
        invariant
            n <= keys@.len(),
            ks == keys_view(keys@),
            out@.len() == n,
            forall|i: int| 0 <= i < out@.len() ==> 0 <= #[trigger] out@[i] < n,
            forall|i: int, j: int|
                0 <= i < j < out@.len() ==> comes_before(
                    ks,
                    #[trigger] out@[i] as int,
                    #[trigger] out@[j] as int,
                ),
        decreases keys@.len() - n,
    {
        let mut k: usize = out.len();
        while k > 0 && less(&keys[n], &keys[out[k - 1]])
            invariant
                k <= out@.len(),
                n < keys@.len(),
                ks == keys_view(keys@),
                forall|i: int| 0 <= i < out@.len() ==> 0 <= #[trigger] out@[i] < n,
                forall|i: int| k <= i < out@.len() ==> key_less(ks[n as int], ks[#[trigger] out@[i] as int]),
            decreases k,
        {
            k -= 1;
        }
        let ghost before = out@;
        proof {
            if k > 0 {
                let p = before[k - 1] as int;
                assert(comes_before(ks, p, n as int));
                assert forall|i: int| 0 <= i < k implies comes_before(
                    ks,
                    #[trigger] before[i] as int,
                    n as int,
                ) by {
                    if i < k - 1 {
                        assert(comes_before(ks, before[i] as int, before[k - 1] as int));
                        lemma_before_transitive(ks, before[i] as int, p, n as int);
                    }
                }
            }
        }
        out.insert(k, n);
        proof {
            assert forall|i: int, j: int| 0 <= i < j < out@.len() implies comes_before(
                ks,
                #[trigger] out@[i] as int,
                #[trigger] out@[j] as int,
            ) by {
                if i < k && j < k {
                    assert(comes_before(ks, before[i] as int, before[j] as int));
                } else if i < k && j == k {
                    assert(comes_before(ks, before[i] as int, n as int));
                } else if i < k && j > k {
                    assert(comes_before(ks, before[i] as int, before[j - 1] as int));
                } else if i == k {
                    assert(key_less(ks[n as int], ks[before[j - 1] as int]));
                } else {
                    assert(comes_before(ks, before[i - 1] as int, before[j - 1] as int));
                }
            }
        }
        n += 1;
    }
    out
}

} // verus!
