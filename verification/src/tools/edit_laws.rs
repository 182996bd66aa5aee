//! Laws of the `edit` tool.
use vstd::prelude::*;
use crate::splice::{
    lemma_occurrences, lemma_occurrences_exist, lemma_replace_absent, lemma_replace_same,
    lemma_replace_step, lemma_well_spaced_at, occurrences_from, replace_of, spans, splice_from,
    well_spaced,
};
use crate::text::{
    count_of, decimal_of, has_at, head, is_white_space, join_of, law_joining_keeps_the_parts,
    law_prefixed_lines_are_all_there, law_splitting_and_joining, law_words_are_the_text,
    lemma_in_order_around, lemma_in_order_concat, lemma_in_order_itself, lemma_in_order_more,
    lemma_in_order_next, lemma_in_order_none, lemma_in_order_occurs,
    lemma_in_order_push, lemma_join_cons, lemma_occurs_between, lemma_solid_inside, lemma_solid_join,
    lemma_solid_trim, lemma_trim_start_len, lines_of, marked, occurs, prefixed_of, solid, split_of, trim_of,
};
use crate::tools::edit::{
    ambiguous_text, block_text, delta_text, diff_of, edited, fallback_text, flush_blocks, flush_of, indent_of,
    indentation_flexible, is_blank, least, least_indent, lemma_block, lemma_least_indent, line_trimmed,
    located, machine, match_line, match_list, normal_blocks, normal_hit, normal_of, not_found_text,
    outdented, report_text, shortest_hit, sought, targets, trimmed_blocks, trimmed_hit,
    whitespace_normalized, EditArgs, MAX_AMBIGUOUS_MATCHES,
};
use crate::tools::ranges::{
    disjoint_of, in_order, law_disjoint_part, lemma_disjoint_well_spaced, lemma_kept_is_same,
    lemma_sorted_is_same,
};

verus! {

/// Where the text to replace stands in the file as it is, its occurrences from left
/// to right are what is replaced.
pub proof fn law_exact_matches_first(s: Seq<char>, old: Seq<char>)
    requires
        old.len() > 0,
        s.len() <= usize::MAX,
        occurs(s, old),
    ensures
        located(s, old) == (occurrences_from(s, old, 0), None::<Seq<char>>),
        spans(targets(s, old)) == occurrences_from(s, old, 0),
{
    let occ = occurrences_from(s, old, 0);
    lemma_occurrences_exist(s, old);
    lemma_occurrences(s, old, 0);
    let m = machine(occ);
    assert forall|i: int| 0 <= i < occ.len() implies 0 <= (#[trigger] occ[i]).0 <= occ[i].1
        <= s.len() by {
        lemma_well_spaced_at(occ, 0, s.len() as int, i);
    }
    assert forall|i: int, j: int| 0 <= i < j < m.len() implies (#[trigger] m[i]).1 <= (
    #[trigger] m[j]).0 by {
        lemma_chain(occ, s.len() as int, i, j);
        assert(occ[i].0 <= occ[i].1 <= s.len());
        assert(occ[j].0 <= occ[j].1 <= s.len());
    }
    assert(in_order(m));
    assert forall|i: int, j: int| 0 <= i <= j < m.len() implies (#[trigger] m[i]).0 <= (
    #[trigger] m[j]).0 by {
        if i < j {
            assert(occ[i].0 <= occ[i].1 <= s.len());
            assert(m[i].1 <= m[j].0);
        }
    }
    lemma_sorted_is_same(m);
    lemma_kept_is_same(m);
    assert(spans(m) =~= occ);
}

proof fn lemma_chain(rs: Seq<(int, int)>, len: int, i: int, j: int)
    requires
        crate::splice::well_spaced(rs, 0, len),
        0 <= i < j < rs.len(),
    ensures
        rs[i].1 <= rs[j].0,
    decreases j - i,
{
    lemma_well_spaced_at(rs, 0, len, j);
    if j > i + 1 {
        lemma_chain(rs, len, i, j - 1);
        lemma_well_spaced_at(rs, 0, len, j - 1);
    }
}

/// An edit of a text that stands in the file exactly once, or of every place where
/// it stands, replaces just that; any other edit of a text that stands in the file
/// is refused. `s` is the file with plain line endings; where the file has carriage returns
/// in its line endings, so has the outcome.
pub proof fn law_exact_edit(s: Seq<char>, has_crlf: bool, a: EditArgs)
    requires
        sought(a).len() > 0,
        s.len() <= usize::MAX,
        occurs(s, sought(a)),
    ensures
        edited(s, has_crlf, a) is Ok <==> occurrences_from(s, sought(a), 0).len() == 1
            || a.replace_all == Some(true),
        edited(s, has_crlf, a) is Ok ==> (edited(s, has_crlf, a)->Ok_0).0 == (if has_crlf {
            replace_of(replace_of(s, sought(a), a.new_text@), "\n"@, "\r\n"@)
        } else {
            replace_of(s, sought(a), a.new_text@)
        }),
{
    law_exact_matches_first(s, sought(a));
    lemma_occurrences_exist(s, sought(a));
    assert(spans(targets(s, sought(a))).len() == targets(s, sought(a)).len());
}

/// Each line feed of the text has a carriage return before it.
pub open spec fn crlf_only(t: Seq<char>) -> bool {
    forall|j: int| 0 <= j < t.len() && #[trigger] t[j] == '\n' ==> j > 0 && t[j - 1] == '\r'
}

/// Taking the carriage returns out of line endings and putting them back gives the
/// text again.
pub proof fn law_line_endings_come_back(t: Seq<char>)
    requires
        crlf_only(t),
    ensures
        replace_of(replace_of(t, "\r\n"@, "\n"@), "\n"@, "\r\n"@) == t,
    decreases t.len(),
{
    reveal_strlit("\r\n");
    reveal_strlit("\n");
    let crlf = "\r\n"@;
    let lf = "\n"@;
    if !occurs(t, crlf) {
        lemma_replace_absent(t, crlf, lf);
        if occurs(t, lf) {
            let j = choose|j: int| has_at(t, lf, j);
            assert(t.subrange(j, j + 1)[0] == '\n');
            assert(t[j] == '\n');
            assert(t.subrange(j - 1, j + 1) =~= crlf);
            assert(has_at(t, crlf, j - 1));
        }
        lemma_replace_absent(t, lf, crlf);
    } else {
        let i = crate::splice::next_at(t, crlf, 0);
        crate::splice::lemma_next_at(t, crlf, 0);
        let w = choose|w: int| has_at(t, crlf, w);
        assert(has_at(t, crlf, w));
        assert(t.subrange(i, i + 2) == crlf);
        assert(t.subrange(i, i + 2)[0] == '\r' && t.subrange(i, i + 2)[1] == '\n');
        let rest = t.skip(i + 2);
        assert forall|j: int| 0 <= j < rest.len() && #[trigger] rest[j] == '\n' implies j > 0
            && rest[j - 1] == '\r' by {
            assert(t[i + 2 + j] == '\n');
            assert(t[i + 2 + j - 1] == '\r');
        }
        law_line_endings_come_back(rest);
        lemma_replace_step(t, crlf, lf, i);
        let plain = replace_of(rest, crlf, lf);
        let n1 = t.take(i) + lf + plain;
        assert(n1.subrange(i, i + 1) =~= lf);
        assert forall|j: int| 0 <= j < i implies !has_at(n1, lf, j) by {
            if has_at(n1, lf, j) {
                assert(n1.subrange(j, j + 1)[0] == '\n');
                assert(t[j] == '\n');
                assert(t[j - 1] == '\r');
                assert(t.subrange(j - 1, j + 1) =~= crlf);
                assert(has_at(t, crlf, j - 1));
            }
        }
        lemma_replace_step(n1, lf, crlf, i);
        assert(n1.skip(i + 1) =~= plain);
        assert(n1.take(i) =~= t.take(i));
        assert(t.take(i) + crlf + rest =~= t);
    }
}

/// Replacing a text by itself leaves the file as it was, also where each of its
/// lines ends in a carriage return and a line feed.
pub proof fn law_edit_to_itself(t: Seq<char>, has_crlf: bool, a: EditArgs)
    requires
        sought(a).len() > 0,
        replace_of(t, "\r\n"@, "\n"@).len() <= usize::MAX,
        occurs(replace_of(t, "\r\n"@, "\n"@), sought(a)),
        a.new_text@ == sought(a),
        a.replace_all == Some(true),
        if has_crlf {
            crlf_only(t)
        } else {
            !occurs(t, "\r\n"@)
        },
    ensures
        edited(replace_of(t, "\r\n"@, "\n"@), has_crlf, a) is Ok,
        (edited(replace_of(t, "\r\n"@, "\n"@), has_crlf, a)->Ok_0).0 == t,
{
    reveal_strlit("\r\n");
    let s = replace_of(t, "\r\n"@, "\n"@);
    law_exact_edit(s, has_crlf, a);
    lemma_replace_same(s, sought(a));
    law_exact_matches_first(s, sought(a));
    lemma_occurrences_exist(s, sought(a));
    assert(spans(targets(s, sought(a))).len() == targets(s, sought(a)).len());
    if has_crlf {
        law_line_endings_come_back(t);
    } else {
        lemma_replace_absent(t, "\r\n"@, "\n"@);
    }
}

/// The stretch `r` lies in the text and differs from `old` in nothing but white space.
pub open spec fn alike(s: Seq<char>, r: (int, int), old: Seq<char>) -> bool {
    0 <= r.0 <= r.1 <= s.len() && solid(s.subrange(r.0, r.1)) == solid(old)
}

/// All stretches of the list lie in the text and differ from `old` in nothing but white space.
pub open spec fn all_alike(s: Seq<char>, rs: Seq<(int, int)>, old: Seq<char>) -> bool {
    forall|k: int| 0 <= k < rs.len() ==> alike(s, #[trigger] rs[k], old)
}

proof fn lemma_trimmed_alike(s: Seq<char>, old: Seq<char>, upto: int)
    requires
        upto <= split_of(s, '\n').len() - split_of(old, '\n').len() + 1,
    ensures
        all_alike(s, trimmed_blocks(split_of(s, '\n'), split_of(old, '\n'), upto), old),
    decreases upto,
{
    let ls = split_of(s, '\n');
    let fs = split_of(old, '\n');
    if upto > 0 {
        lemma_trimmed_alike(s, old, upto - 1);
        let i = upto - 1;
        if trimmed_hit(ls, fs, i) {
            let n = fs.len() as int;
            law_splitting_and_joining(old, '\n');
            lemma_block(s, i, n);
            let part = ls.subrange(i, i + n);
            assert forall|k: int| 0 <= k < part.len() implies solid(#[trigger] part[k]) == solid(fs[k]) by {
                assert(part[k] == ls[i + k]);
                assert(trim_of(ls[i + k]) == trim_of(fs[k]));
                lemma_solid_trim(ls[i + k]);
                lemma_solid_trim(fs[k]);
            }
            lemma_solid_join(part, fs, seq!['\n']);
        }
    }
}

proof fn lemma_shortest(ls: Seq<Seq<char>>, target: Seq<char>, i: int, n: int, last: int)
    ensures
        shortest_hit(ls, target, i, n, last) matches Some(m) ==> n <= m <= last && normal_hit(
            ls,
            target,
            i,
            m,
        ),
    decreases last - n + 1,
{
    if n <= last && !normal_hit(ls, target, i, n) {
        lemma_shortest(ls, target, i, n + 1, last);
    }
}

proof fn lemma_normal_alike(s: Seq<char>, old: Seq<char>, upto: int)
    requires
        upto <= split_of(s, '\n').len(),
    ensures
        all_alike(
            s,
            normal_blocks(
                split_of(s, '\n'),
                split_of(old, '\n').len() as int,
                normal_of(old),
                upto,
            ),
            old,
        ),
    decreases upto,
{
    let ls = split_of(s, '\n');
    let m = split_of(old, '\n').len() as int;
    if upto > 0 {
        lemma_normal_alike(s, old, upto - 1);
        let i = upto - 1;
        lemma_shortest(ls, normal_of(old), i, m, m + 5);
        law_splitting_and_joining(old, '\n');
        match shortest_hit(ls, normal_of(old), i, m, m + 5) {
            Some(n) => {
                lemma_block(s, i, n);
                law_words_are_the_text(block_text(ls, i, n));
                law_words_are_the_text(old);
            },
            None => {},
        }
    }
}

proof fn lemma_flush_solid(s: Seq<char>)
    ensures
        solid(flush_of(s)) == solid(s),
{
    let ls = split_of(s, '\n');
    let n = match least_indent(ls) {
        Some(n) => n,
        None => 0,
    };
    let out = Seq::new(ls.len(), |i: int| outdented(ls[i], n));
    law_splitting_and_joining(s, '\n');
    assert forall|i: int| 0 <= i < out.len() implies solid(#[trigger] out[i]) == solid(ls[i]) by {
        let l = ls[i];
        if !is_blank(l) {
            lemma_least_indent(ls, i);
            let k = lemma_indent(l);
            lemma_solid_inside(l, n as int, l.len() as int);
            assert(l.subrange(n as int, l.len() as int) =~= l.skip(n as int));
        }
    }
    lemma_solid_join(out, ls, seq!['\n']);
}

proof fn lemma_indent(l: Seq<char>) -> (k: int)
    ensures
        k == indent_of(l),
        0 <= k <= l.len(),
        forall|i: int| 0 <= i < k ==> is_white_space(#[trigger] l[i]),
    decreases l.len(),
{
    if l.len() == 0 || !is_white_space(l[0]) {
        0
    } else {
        let k = lemma_indent(l.drop_first());
        lemma_trim_start_len(l.drop_first());
        assert forall|i: int| 0 <= i < k + 1 implies is_white_space(#[trigger] l[i]) by {
            if i > 0 {
                assert(l.drop_first()[i - 1] == l[i]);
            }
        }
        k + 1
    }
}

proof fn lemma_flush_alike(s: Seq<char>, old: Seq<char>, upto: int)
    requires
        upto <= split_of(s, '\n').len() - split_of(old, '\n').len() + 1,
    ensures
        all_alike(
            s,
            flush_blocks(split_of(s, '\n'), split_of(old, '\n').len() as int, flush_of(old), upto),
            old,
        ),
    decreases upto,
{
    let ls = split_of(s, '\n');
    let m = split_of(old, '\n').len() as int;
    if upto > 0 {
        lemma_flush_alike(s, old, upto - 1);
        let i = upto - 1;
        if flush_of(block_text(ls, i, m)) == flush_of(old) {
            law_splitting_and_joining(old, '\n');
            lemma_block(s, i, m);
            lemma_flush_solid(block_text(ls, i, m));
            lemma_flush_solid(old);
        }
    }
}

proof fn lemma_located_alike(s: Seq<char>, old: Seq<char>)
    ensures
        all_alike(s, located(s, old).0, old),
{
    let occ = occurrences_from(s, old, 0);
    if occ.len() > 0 {
        lemma_occurrences(s, old, 0);
        assert forall|k: int| 0 <= k < occ.len() implies alike(s, #[trigger] occ[k], old) by {
            assert(has_at(s, old, occ[k].0));
        }
    } else if line_trimmed(s, old).len() > 0 {
        lemma_trimmed_alike(s, old, split_of(s, '\n').len() - split_of(old, '\n').len() + 1);
    } else if normal_of(old).len() > 0 && whitespace_normalized(s, old).len() > 0 {
        lemma_normal_alike(s, old, split_of(s, '\n').len() as int);
    } else if indentation_flexible(s, old).len() > 0 {
        lemma_flush_alike(s, old, split_of(s, '\n').len() - split_of(old, '\n').len() + 1);
    }
}

/// Whichever search finds it, what an edit replaces lies in the file, differs from the text it
/// looks for in nothing but white space, and no two of the stretches overlap.
pub proof fn law_what_is_replaced_is_alike(s: Seq<char>, old: Seq<char>)
    requires
        s.len() <= usize::MAX,
    ensures
        all_alike(s, spans(targets(s, old)), old),
        well_spaced(spans(targets(s, old)), 0, s.len() as int),
        targets(s, old).len() > 0 <==> located(s, old).0.len() > 0,
{
    let found = located(s, old).0;
    let m = machine(found);
    lemma_located_alike(s, old);
    assert forall|i: int| 0 <= i < m.len() implies (#[trigger] m[i]).0 <= m[i].1 <= s.len() && alike(
        s,
        (m[i].0 as int, m[i].1 as int),
        old,
    ) by {
        assert(alike(s, found[i], old));
        assert((m[i].0 as int, m[i].1 as int) == found[i]);
    }
    lemma_disjoint_well_spaced(m, s.len() as int);
    law_disjoint_part(m);
    let rs = targets(s, old);
    assert forall|k: int| 0 <= k < spans(rs).len() implies alike(s, #[trigger] spans(rs)[k], old) by {
        assert(disjoint_of(m).contains(rs[k]));
        let i = choose|i: int| 0 <= i < m.len() && m[i] == rs[k];
        assert(m[i] == rs[k]);
    }
    if m.len() == 0 {
        if rs.len() > 0 {
            assert(disjoint_of(m).contains(rs[0]));
        }
    }
}

/// The pieces of `s` before, between and behind the stretches.
pub open spec fn around(s: Seq<char>, rs: Seq<(int, int)>) -> Seq<Seq<char>> {
    Seq::new(
        rs.len() + 1,
        |i: int|
            s.subrange(
                if i == 0 {
                    0
                } else {
                    rs[i - 1].1
                },
                if i == rs.len() {
                    s.len() as int
                } else {
                    rs[i].0
                },
            ),
    )
}

proof fn lemma_splice_joins(s: Seq<char>, rs: Seq<(int, int)>, pos: int, new: Seq<char>)
    requires
        well_spaced(rs, pos, s.len() as int),
    ensures
        splice_from(s, rs, pos, new) == join_of(
            around(s, rs).update(
                0,
                s.subrange(
                    pos,
                    if rs.len() == 0 {
                        s.len() as int
                    } else {
                        rs[0].0
                    },
                ),
            ),
            new,
        ),
    decreases rs.len(),
{
    let all = around(s, rs);
    if rs.len() == 0 {
        let only = all.update(0, s.subrange(pos, s.len() as int));
        assert(only =~= seq![s.skip(pos)]);
    } else {
        let rest = rs.drop_first();
        lemma_splice_joins(s, rest, rs[0].1, new);
        let tail = around(s, rest).update(
            0,
            s.subrange(
                rs[0].1,
                if rest.len() == 0 {
                    s.len() as int
                } else {
                    rest[0].0
                },
            ),
        );
        let first = s.subrange(pos, rs[0].0);
        lemma_join_cons(first, tail, new);
        assert(seq![first] + tail =~= all.update(0, first));
    }
}

/// Replacing stretches leaves everything around them as it is: the outcome is the pieces
/// around them with the new text between neighbours, whatever the stretches held.
pub proof fn law_replacing_keeps_the_rest(s: Seq<char>, rs: Seq<(int, int)>, new: Seq<char>)
    requires
        well_spaced(rs, 0, s.len() as int),
    ensures
        splice_from(s, rs, 0, new) == join_of(around(s, rs), new),
{
    lemma_splice_joins(s, rs, 0, new);
    assert(around(s, rs).update(0, around(s, rs)[0]) =~= around(s, rs));
}

/// An edit is made only where it is clear what is meant, by whichever search the text is found.
/// Without `replace_all` exactly one stretch of the file is replaced by the new text and all the
/// rest is kept; where more than one is found, or none, the edit is refused. With `replace_all`
/// every stretch that was found is replaced. The stretches differ from the text that was given
/// in nothing but white space. Carriage returns come back where the file had them.
pub proof fn law_one_place_is_replaced(s: Seq<char>, has_crlf: bool, a: EditArgs)
    requires
        s.len() <= usize::MAX,
    ensures
        targets(s, sought(a)).len() > 1 && a.replace_all != Some(true) ==> edited(s, has_crlf, a) is Err,
        targets(s, sought(a)).len() == 0 ==> edited(s, has_crlf, a) is Err,
        a.old_text@.len() == 0 ==> edited(s, has_crlf, a) is Err,
        a.old_text@.len() > 0 && targets(s, sought(a)).len() == 1 ==> edited(s, has_crlf, a) is Ok,
        a.old_text@.len() > 0 && targets(s, sought(a)).len() > 0 && a.replace_all == Some(true)
            ==> edited(s, has_crlf, a) is Ok,
        edited(s, has_crlf, a) is Ok && a.replace_all != Some(true) ==> exists|x: int, y: int|
            #[trigger] alike(s, (x, y), sought(a)) && (edited(s, has_crlf, a)->Ok_0).0 == endings(
                s.take(x) + a.new_text@ + s.skip(y),
                has_crlf,
            ),
        edited(s, has_crlf, a) is Ok ==> (edited(s, has_crlf, a)->Ok_0).0 == endings(
            join_of(around(s, spans(targets(s, sought(a)))), a.new_text@),
            has_crlf,
        ),
{
    let rs = targets(s, sought(a));
    let ts = spans(rs);
    law_what_is_replaced_is_alike(s, sought(a));
    law_replacing_keeps_the_rest(s, ts, a.new_text@);
    if edited(s, has_crlf, a) is Ok && a.replace_all != Some(true) {
        assert(rs.len() == 1);
        let x = ts[0].0;
        let y = ts[0].1;
        assert(alike(s, ts[0], sought(a)));
        assert(alike(s, (x, y), sought(a)));
        let g = around(s, ts);
        assert(g =~= seq![s.take(x), s.skip(y)]);
        assert(g.drop_last() =~= seq![s.take(x)]);
        assert(join_of(g.drop_last(), a.new_text@) == s.take(x));
        assert(join_of(g, a.new_text@) == s.take(x) + a.new_text@ + s.skip(y));
    }
}

/// A text with the line endings of its file.
pub open spec fn endings(t: Seq<char>, has_crlf: bool) -> Seq<char> {
    if has_crlf {
        replace_of(t, "\n"@, "\r\n"@)
    } else {
        t
    }
}

/// The report on an edit shows the change, where it is not too long to be shown: the path, each
/// line of the old text behind a minus and then each line of the new text behind a plus, all of
/// them and in their order. With `replace_all` it says how many stretches were replaced, and it
/// names the search where it was not the exact one.
pub proof fn law_report_shows_the_change(s: Seq<char>, rs: Seq<(usize, usize)>, search: Option<Seq<char>>, a: EditArgs)
    ensures
        lines_of(a.old_text@).len() <= 200 && lines_of(a.new_text@).len() <= 200 ==> crate::text::in_order(
            report_text(s, rs, search, a),
            seq![a.path@] + marked("-"@, lines_of(a.old_text@)) + marked("+"@, lines_of(a.new_text@)),
        ),
        a.replace_all == Some(true) ==> occurs(report_text(s, rs, search, a), decimal_of(rs.len())),
        search matches Some(label) ==> occurs(report_text(s, rs, search, a), label),
{
    let old_lines = lines_of(a.old_text@).len();
    let new_lines = lines_of(a.new_text@).len();
    let all = a.replace_all == Some(true);
    let r = report_text(s, rs, search, a);
    let opening = if all {
        "Applied edit ("@ + decimal_of(rs.len()) + " replacements)"@
    } else {
        "Applied edit"@
    };
    let delta = delta_text(
        old_lines,
        new_lines,
        if all {
            rs.len()
        } else {
            1
        },
    );
    let small = old_lines <= 200 && new_lines <= 200;
    let diff = if small {
        diff_of(a.path@, s, rs[0].0 as int, a.old_text@, a.new_text@)
    } else {
        Seq::empty()
    };
    let noted = opening + fallback_text(search);
    assert(r == noted + delta + diff);
    if small {
        lemma_diff_shows(a.path@, s, rs[0].0 as int, a.old_text@, a.new_text@);
        let ps = seq![a.path@] + marked("-"@, lines_of(a.old_text@)) + marked("+"@, lines_of(a.new_text@));
        lemma_in_order_none(noted + delta);
        lemma_in_order_concat(noted + delta, diff, Seq::empty(), ps);
        assert(Seq::empty() + ps =~= ps);
    }
    let none = Seq::<Seq<char>>::empty();
    if all {
        let n = decimal_of(rs.len());
        lemma_in_order_none("Applied edit ("@);
        lemma_in_order_next("Applied edit ("@, none, n);
        lemma_in_order_more("Applied edit ("@ + n, none.push(n), " replacements)"@);
        lemma_in_order_more(opening, none.push(n), fallback_text(search));
        lemma_in_order_more(noted, none.push(n), delta);
        lemma_in_order_more(noted + delta, none.push(n), diff);
        lemma_in_order_occurs(r, none.push(n), 0);
    }
    match search {
        Some(label) => {
            let z = " fallback — exact text not found; whitespace/indent tolerated)"@;
            let w = " (matched via "@;
            lemma_in_order_none(w);
            lemma_in_order_next(w, none, label);
            lemma_in_order_more(w + label, none.push(label), z);
            lemma_in_order_none(opening);
            lemma_in_order_concat(opening, fallback_text(search), none, none.push(label));
            assert(none + none.push(label) =~= none.push(label));
            lemma_in_order_more(noted, none.push(label), delta);
            lemma_in_order_more(noted + delta, none.push(label), diff);
            lemma_in_order_occurs(r, none.push(label), 0);
        },
        None => {},
    }
}

proof fn lemma_diff_shows(path: Seq<char>, s: Seq<char>, pos: int, old: Seq<char>, new: Seq<char>)
    ensures
        crate::text::in_order(
            diff_of(path, s, pos, old, new),
            seq![path] + marked("-"@, lines_of(old)) + marked("+"@, lines_of(new)),
        ),
{
    let ls = lines_of(s);
    let olds = lines_of(old);
    let news = lines_of(new);
    let at = count_of(s.take(pos), '\n') as int;
    let start = if at > 3 {
        at - 3
    } else {
        0
    };
    let after = least(at + olds.len(), ls.len() as int);
    let end = least(after + 3, ls.len() as int);
    let around = at - start + end - after;
    let front = "\n--- a/"@ + path + "\n+++ b/"@ + path + "\n"@ + "@@ -"@ + decimal_of((start + 1) as nat)
        + ","@ + decimal_of((around + olds.len()) as nat) + " +"@ + decimal_of((start + 1) as nat) + ","@
        + decimal_of((around + news.len()) as nat) + " @@\n"@;
    let before = prefixed_of(" "@, ls.subrange(least(start, ls.len() as int), least(at, ls.len() as int)));
    let behind = prefixed_of(" "@, ls.subrange(after, end));
    let minus = prefixed_of("-"@, olds);
    let plus = prefixed_of("+"@, news);
    assert(diff_of(path, s, pos, old, new) == front + before + minus + plus + behind);
    lemma_front_names(
        path,
        decimal_of((start + 1) as nat),
        decimal_of((around + olds.len()) as nat),
        decimal_of((around + news.len()) as nat),
    );
    lemma_in_order_more(front, seq![path], before);
    law_prefixed_lines_are_all_there("-"@, olds);
    law_prefixed_lines_are_all_there("+"@, news);
    let ps = seq![path] + marked("-"@, olds);
    lemma_in_order_concat(front + before, minus, seq![path], marked("-"@, olds));
    lemma_in_order_concat(front + before + minus, plus, ps, marked("+"@, news));
    lemma_in_order_more(front + before + minus + plus, ps + marked("+"@, news), behind);
}

proof fn lemma_front_names(path: Seq<char>, n: Seq<char>, x: Seq<char>, y: Seq<char>)
    ensures
        crate::text::in_order(
            "\n--- a/"@ + path + "\n+++ b/"@ + path + "\n"@ + "@@ -"@ + n + ","@ + x + " +"@ + n + ","@ + y
                + " @@\n"@,
            seq![path],
        ),
{
    let a = "\n--- a/"@;
    lemma_in_order_itself(path);
    lemma_in_order_none(a);
    lemma_in_order_next(a, Seq::empty(), path);
    assert(Seq::<Seq<char>>::empty().push(path) =~= seq![path]);
    let ps = seq![path];
    let b = a + path;
    lemma_in_order_more(b, ps, "\n+++ b/"@);
    let c = b + "\n+++ b/"@;
    lemma_in_order_more(c, ps, path);
    lemma_in_order_more(c + path, ps, "\n"@);
    let d = c + path + "\n"@;
    lemma_in_order_more(d, ps, "@@ -"@);
    lemma_in_order_more(d + "@@ -"@, ps, n);
    let e = d + "@@ -"@ + n;
    lemma_in_order_more(e, ps, ","@);
    lemma_in_order_more(e + ","@, ps, x);
    let f = e + ","@ + x;
    lemma_in_order_more(f, ps, " +"@);
    lemma_in_order_more(f + " +"@, ps, n);
    let g = f + " +"@ + n;
    lemma_in_order_more(g, ps, ","@);
    lemma_in_order_more(g + ","@, ps, y);
    lemma_in_order_more(g + ","@ + y, ps, " @@\n"@);
}

/// The refusal of an edit that matches more than once says how often it does and in which file,
/// and then for each of the first matches the number of its line and the start of that line.
pub proof fn law_refusal_lists_the_matches(s: Seq<char>, rs: Seq<(usize, usize)>, path: Seq<char>)
    ensures
        crate::text::in_order(
            ambiguous_text(s, rs, path),
            seq![decimal_of(rs.len()), path] + match_list(s, rs),
        ),
        match_list(s, rs).len() == if rs.len() <= MAX_AMBIGUOUS_MATCHES {
            rs.len()
        } else {
            (MAX_AMBIGUOUS_MATCHES + 1) as nat
        },
        forall|i: int|
            0 <= i < rs.len() && i < MAX_AMBIGUOUS_MATCHES ==> {
                let n = count_of(s.take(rs[i].0 as int), '\n');
                crate::text::in_order(
                    #[trigger] match_list(s, rs)[i],
                    seq![decimal_of(n + 1), head(split_of(s, '\n')[n as int], 100)],
                )
            },
        rs.len() > MAX_AMBIGUOUS_MATCHES ==> occurs(
            match_list(s, rs).last(),
            decimal_of((rs.len() - MAX_AMBIGUOUS_MATCHES) as nat),
        ),
        occurs(not_found_text(path), path),
{
    let count = decimal_of(rs.len());
    let list = match_list(s, rs);
    let body = join_of(list, "\n"@);
    let z = "\n\nUse replace_all: true to replace all occurrences, or provide more surrounding context in old_text to narrow the match."@;
    law_joining_keeps_the_parts(list, "\n"@);
    lemma_in_order_none(Seq::empty());
    lemma_in_order_push(Seq::empty(), Seq::empty(), "old_text matched "@, count, Seq::empty());
    let a = Seq::empty() + "old_text matched "@ + count + Seq::empty();
    lemma_in_order_push(a, Seq::empty().push(count), " times in "@, path, ":\n"@);
    let b = a + " times in "@ + path + ":\n"@;
    let ps = Seq::empty().push(count).push(path);
    assert(ps =~= seq![count, path]);
    lemma_in_order_concat(b, body, ps, list);
    lemma_in_order_around(Seq::empty(), b + body, z, ps + list);
    assert(Seq::empty() + (b + body) + z =~= ambiguous_text(s, rs, path));
    assert forall|i: int| 0 <= i < rs.len() && i < MAX_AMBIGUOUS_MATCHES implies ({
        let n = count_of(s.take(rs[i].0 as int), '\n');
        crate::text::in_order(
            #[trigger] list[i],
            seq![decimal_of(n + 1), head(split_of(s, '\n')[n as int], 100)],
        )
    }) by {
        let n = count_of(s.take(rs[i].0 as int), '\n');
        let number = decimal_of(n + 1);
        let line = head(split_of(s, '\n')[n as int], 100);
        assert(list[i] == match_line(s, rs[i].0 as int));
        lemma_in_order_push(Seq::empty(), Seq::empty(), "  Line "@, number, Seq::empty());
        let x = Seq::empty() + "  Line "@ + number + Seq::empty();
        lemma_in_order_push(x, Seq::empty().push(number), ": "@, line, Seq::empty());
        assert(Seq::empty().push(number).push(line) =~= seq![number, line]);
        assert(x + ": "@ + line + Seq::empty() =~= list[i]);
    }
    if rs.len() > MAX_AMBIGUOUS_MATCHES {
        let n = (rs.len() - MAX_AMBIGUOUS_MATCHES) as nat;
        let w = " more match"@ + (if n == 1 {
            ""@
        } else {
            "es"@
        });
        lemma_occurs_between("  ... and "@, decimal_of(n), w);
        assert("  ... and "@ + decimal_of(n) + w =~= list.last());
    }
    lemma_occurs_between(
        "old_text not found in '"@,
        path,
        "'.\nEnsure the exact text matches including whitespace and line endings. Tried exact match, line-trimmed match, whitespace-normalized match, and indentation-flexible match."@,
    );
}

} // verus!
