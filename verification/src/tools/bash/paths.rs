//! Slash-separated paths, resolved by their text alone.
use vstd::prelude::*;
use crate::text::{
    begins, cat, find_char, has_no, join, join_of, lemma_find_char, lemma_find_char_is, same, split, split_of,
    starts_with, texts, to_chars,
};

verus! {

/// The path starts at the root.
pub open spec fn is_absolute_of(p: Seq<char>) -> bool {
    begins(p, "/"@)
}

/// Whether the path starts at the root.
pub fn is_absolute(p: &str) -> (r: bool)
    ensures
        r == is_absolute_of(p@),
{
    starts_with(p, "/")
}

/// The components that remain of `parts` when empty ones and `.` are dropped and
/// each `..` takes the component before it away.
pub open spec fn folded(parts: Seq<Seq<char>>) -> Seq<Seq<char>>
    decreases parts.len(),
{
    if parts.len() == 0 {
        Seq::empty()
    } else {
        let before = folded(parts.drop_last());
        let last = parts.last();
        if last.len() == 0 || last == "."@ {
            before
        } else if last == ".."@ {
            if before.len() == 0 {
                before
            } else {
                before.drop_last()
            }
        } else {
            before.push(last)
        }
    }
}

/// The path without `.`, `..` and repeated separators.
pub open spec fn normalize_of(p: Seq<char>) -> Seq<char> {
    (if is_absolute_of(p) {
        "/"@
    } else {
        ""@
    }) + join_of(folded(split_of(p, '/')), "/"@)
}

/// The path without `.`, `..` and repeated separators; nothing is looked up.
pub fn normalize_lexical(p: &str) -> (r: String)
    ensures
        r@ == normalize_of(p@),
{
    let parts = split(p, '/');
    let ghost all = texts(parts@);
    let mut kept: Vec<String> = Vec::new();
    let mut i: usize = 0;
    assert(all.take(0) =~= Seq::empty());
    assert(texts(kept@) =~= Seq::empty());
    while i < parts.len()
        invariant
            i <= parts@.len(),
            all == texts(parts@),
            texts(kept@) == folded(all.take(i as int)),
        decreases parts@.len() - i,
    {
        let c = parts[i].as_str();
        let ghost before = texts(kept@);
        assert(all.take(i + 1).drop_last() =~= all.take(i as int));
        assert(all.take(i + 1).last() == c@);
        if c.is_empty() || same(c, ".") {
        } else if same(c, "..") {
            let gone = kept.pop();
            proof {
                if before.len() == 0 {
                    assert(texts(kept@) =~= before);
                } else {
                    assert(texts(kept@) =~= before.drop_last());
                }
            }
        } else {
            kept.push(c.to_owned());
            assert(texts(kept@) =~= before.push(c@));
        }
        i += 1;
    }
    assert(all.take(i as int) =~= all);
    let body = join(&kept, "/");
    let root = if is_absolute(p) {
        "/"
    } else {
        ""
    };
    cat(root, body.as_str())
}

/// `p` seen from the directory `base`: an absolute path stands for itself.
pub open spec fn joined(base: Seq<char>, p: Seq<char>) -> Seq<char> {
    if is_absolute_of(p) {
        p
    } else if base.len() == 0 || base.last() == '/' {
        base + p
    } else {
        base + "/"@ + p
    }
}

/// `p` seen from the directory `base`.
pub fn join_path(base: &str, p: &str) -> (r: String)
    ensures
        r@ == joined(base@, p@),
{
    if is_absolute(p) {
        return p.to_owned();
    }
    let v = to_chars(base);
    let n: usize = v.len();
    if n == 0 || v[n - 1] == '/' {
        cat(base, p)
    } else {
        let b = cat(base, "/");
        cat(b.as_str(), p)
    }
}

/// A component that stands for itself: not empty, not `.` or `..`, and without separators.
pub open spec fn is_plain(c: Seq<char>) -> bool {
    &&& c.len() > 0
    &&& c != "."@
    &&& c != ".."@
    &&& has_no(c, '/')
}

proof fn lemma_split_parts(s: Seq<char>, c: char)
    ensures
        forall|i: int| 0 <= i < split_of(s, c).len() ==> has_no(#[trigger] split_of(s, c)[i], c),
    decreases s.len(),
{
    lemma_find_char(s, c);
    let k = find_char(s, c);
    if k < s.len() {
        lemma_split_parts(s.skip(k + 1), c);
        let rest = split_of(s.skip(k + 1), c);
        assert forall|i: int| 0 <= i < split_of(s, c).len() implies has_no(
            #[trigger] split_of(s, c)[i],
            c,
        ) by {
            if i == 0 {
                assert(split_of(s, c)[0] == s.take(k));
            } else {
                assert(split_of(s, c)[i] == rest[i - 1]);
            }
        }
    }
}

proof fn lemma_folded_plain(parts: Seq<Seq<char>>)
    requires
        forall|i: int| 0 <= i < parts.len() ==> has_no(#[trigger] parts[i], '/'),
    ensures
        forall|i: int| 0 <= i < folded(parts).len() ==> is_plain(#[trigger] folded(parts)[i]),
    decreases parts.len(),
{
    if parts.len() > 0 {
        let t = parts.drop_last();
        assert forall|i: int| 0 <= i < t.len() implies has_no(#[trigger] t[i], '/') by {
            assert(t[i] == parts[i]);
        }
        lemma_folded_plain(t);
        let before = folded(t);
        let all = folded(parts);
        assert(has_no(parts[parts.len() - 1], '/'));
        assert forall|i: int| 0 <= i < all.len() implies is_plain(#[trigger] all[i]) by {
            if i < before.len() {
                assert(all[i] == before[i]);
                assert(is_plain(before[i]));
            } else {
                assert(all[i] == parts.last());
            }
        }
    }
}

proof fn lemma_folded_same(parts: Seq<Seq<char>>)
    requires
        forall|i: int| 0 <= i < parts.len() ==> is_plain(#[trigger] parts[i]),
    ensures
        folded(parts) == parts,
    decreases parts.len(),
{
    if parts.len() > 0 {
        let t = parts.drop_last();
        assert forall|i: int| 0 <= i < t.len() implies is_plain(#[trigger] t[i]) by {
            assert(t[i] == parts[i]);
        }
        lemma_folded_same(t);
        assert(is_plain(parts[parts.len() - 1]));
        assert(t.push(parts.last()) =~= parts);
    }
}

proof fn lemma_folded_root(parts: Seq<Seq<char>>)
    ensures
        folded(seq![Seq::<char>::empty()] + parts) == folded(parts),
    decreases parts.len(),
{
    let all = seq![Seq::<char>::empty()] + parts;
    assert(all.len() == parts.len() + 1);
    if parts.len() == 0 {
        assert(all.drop_last() =~= Seq::<Seq<char>>::empty());
        assert(all.last().len() == 0);
        assert(folded(all.drop_last()) == Seq::<Seq<char>>::empty());
        assert(folded(parts) == Seq::<Seq<char>>::empty());
    } else {
        lemma_folded_root(parts.drop_last());
        assert(all.drop_last() =~= seq![Seq::<char>::empty()] + parts.drop_last());
        assert(all.last() == parts.last());
    }
}

proof fn lemma_join_first(parts: Seq<Seq<char>>, sep: Seq<char>)
    requires
        parts.len() >= 2,
    ensures
        join_of(parts, sep) == parts[0] + sep + join_of(parts.drop_first(), sep),
    decreases parts.len(),
{
    let t = parts.drop_last();
    let u = parts.drop_first();
    if parts.len() == 2 {
        assert(join_of(t, sep) == parts[0]);
        assert(join_of(u, sep) == parts[1]);
    } else {
        lemma_join_first(t, sep);
        assert(t.drop_first() =~= u.drop_last());
        assert(u.last() == parts.last());
        assert(join_of(parts, sep) =~= parts[0] + sep + join_of(u, sep));
    }
}

proof fn lemma_split_join(parts: Seq<Seq<char>>)
    requires
        parts.len() > 0,
        forall|i: int| 0 <= i < parts.len() ==> has_no(#[trigger] parts[i], '/'),
    ensures
        split_of(join_of(parts, "/"@), '/') == parts,
    decreases parts.len(),
{
    reveal_strlit("/");
    let s = join_of(parts, "/"@);
    let p = parts[0];
    assert(has_no(parts[0], '/'));
    if parts.len() == 1 {
        lemma_find_char_is(s, '/', s.len() as int);
        assert(seq![s] =~= parts);
    } else {
        let u = parts.drop_first();
        assert forall|i: int| 0 <= i < u.len() implies has_no(#[trigger] u[i], '/') by {
            assert(u[i] == parts[i + 1]);
        }
        lemma_join_first(parts, "/"@);
        lemma_split_join(u);
        assert forall|i: int| 0 <= i < p.len() implies s[i] != '/' by {
            assert(s[i] == p[i]);
        }
        assert(s[p.len() as int] == '/');
        lemma_find_char_is(s, '/', p.len() as int);
        assert(s.take(p.len() as int) =~= p);
        assert(s.skip(p.len() as int + 1) =~= join_of(u, "/"@));
        assert(seq![p] + u =~= parts);
    }
}

/// A normalized path has no component that is empty, `.` or `..`, and normalizing it again
/// changes nothing.
pub proof fn law_normalizing_twice(p: Seq<char>)
    ensures
        forall|i: int|
            0 <= i < folded(split_of(p, '/')).len() ==> is_plain(
                #[trigger] folded(split_of(p, '/'))[i],
            ),
        normalize_of(normalize_of(p)) == normalize_of(p),
{
    reveal_strlit("/");
    reveal_strlit("");
    let ps = folded(split_of(p, '/'));
    let n = normalize_of(p);
    let body = join_of(ps, "/"@);
    let none = Seq::<char>::empty();
    lemma_split_parts(p, '/');
    lemma_folded_plain(split_of(p, '/'));
    lemma_folded_same(ps);
    lemma_folded_root(ps);
    if is_absolute_of(p) {
        let all = seq![none] + ps;
        assert forall|i: int| 0 <= i < all.len() implies has_no(#[trigger] all[i], '/') by {
            if i > 0 {
                assert(is_plain(ps[i - 1]));
                assert(all[i] == ps[i - 1]);
            }
        }
        if ps.len() == 0 {
            let two = seq![none, none];
            assert forall|i: int| 0 <= i < two.len() implies has_no(#[trigger] two[i], '/') by {}
            lemma_split_join(two);
            assert(two.drop_last() =~= seq![none]);
            assert(join_of(seq![none], "/"@) == none);
            assert(join_of(two, "/"@) == none + "/"@ + none);
            assert(body =~= none);
            assert(join_of(two, "/"@) =~= n);
            assert(two =~= seq![none] + seq![none]);
            lemma_folded_root(seq![none]);
            lemma_folded_root(Seq::empty());
            assert(seq![none] =~= seq![none] + Seq::<Seq<char>>::empty());
        } else {
            lemma_join_first(all, "/"@);
            assert(all.drop_first() =~= ps);
            assert(join_of(all, "/"@) =~= n);
            lemma_split_join(all);
        }
        assert(n[0] == '/');
        assert(n.subrange(0, 1) =~= "/"@);
        assert(folded(split_of(n, '/')) == ps);
        assert(is_absolute_of(n));
    } else if ps.len() == 0 {
        assert(n =~= none);
        lemma_find_char_is(n, '/', 0);
        lemma_folded_root(Seq::empty());
        assert(seq![none] =~= seq![none] + Seq::<Seq<char>>::empty());
        assert(folded(split_of(n, '/')) == ps);
        assert(!is_absolute_of(n));
    } else {
        assert forall|i: int| 0 <= i < ps.len() implies has_no(#[trigger] ps[i], '/') by {
            assert(is_plain(ps[i]));
        }
        assert(is_plain(ps[0]));
        assert(n =~= body);
        lemma_split_join(ps);
        if ps.len() >= 2 {
            lemma_join_first(ps, "/"@);
        }
        assert(n[0] == ps[0][0]);
        assert(has_no(ps[0], '/'));
        assert(!is_absolute_of(n)) by {
            if is_absolute_of(n) {
                assert(n.subrange(0, 1)[0] == n[0]);
            }
        }
        assert(folded(split_of(n, '/')) == ps);
    }
}

} // verus!
