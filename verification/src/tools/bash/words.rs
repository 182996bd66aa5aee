//! Shell lines read word by word: quoting, redirections, here-documents, and the files
//! that a line changes.
use vstd::prelude::*;
use crate::splice::{lemma_next_at, next_at};
use crate::text::{
    begins, find_char, find_from, has_at, lemma_find_char_is, part, same, split, split_of, starts_with, texts,
    to_chars,
};
use crate::tools::bash::check::{ends_target, gap, is_gap, is_mutator, mutator, operand_path};

verus! {

/// Whether a character stands inside quotation marks, and which.
#[derive(Clone, Copy, Debug, PartialEq, Eq, Structural)]
pub enum Quote {
    Plain,
    Single,
    Double,
}

/// A character that ends a word outside quotation marks.
pub open spec fn is_break(c: char) -> bool {
    ends_target(c) || c == '`'
}

fn breaks(c: char) -> (r: bool)
    ensures
        r == is_break(c),
{
    gap(c) || c == ';' || c == '|' || c == '&' || c == '>' || c == '<' || c == '(' || c == ')' || c == '`'
}

/// Where the word ends that is being read at `i`.
pub open spec fn word_end(s: Seq<char>, i: int, q: Quote) -> int
    decreases s.len() - i,
{
    if i < 0 || i >= s.len() {
        i
    } else if q == Quote::Single {
        word_end(
            s,
            i + 1,
            if s[i] == '\'' {
                Quote::Plain
            } else {
                q
            },
        )
    } else if s[i] == '\\' && i + 1 < s.len() {
        word_end(s, i + 2, q)
    } else if q == Quote::Double {
        word_end(
            s,
            i + 1,
            if s[i] == '"' {
                Quote::Plain
            } else {
                q
            },
        )
    } else if is_break(s[i]) {
        i
    } else {
        word_end(
            s,
            i + 1,
            if s[i] == '\'' {
                Quote::Single
            } else if s[i] == '"' {
                Quote::Double
            } else {
                q
            },
        )
    }
}

/// What a backslash and the character behind it stand for: inside double quotes the backslash
/// is dropped only before a few characters, and before a line feed both are.
pub open spec fn escaped(c: char, q: Quote) -> Seq<char> {
    if c == '\n' {
        Seq::empty()
    } else if q == Quote::Plain || c == '"' || c == '\\' || c == '$' || c == '`' {
        seq![c]
    } else {
        seq!['\\', c]
    }
}

/// What the word says that is being read at `i`: its characters without the quoting.
pub open spec fn word_text(s: Seq<char>, i: int, q: Quote) -> Seq<char>
    decreases s.len() - i,
{
    if i < 0 || i >= s.len() {
        Seq::empty()
    } else if q == Quote::Single {
        if s[i] == '\'' {
            word_text(s, i + 1, Quote::Plain)
        } else {
            seq![s[i]] + word_text(s, i + 1, q)
        }
    } else if s[i] == '\\' && i + 1 < s.len() {
        escaped(s[i + 1], q) + word_text(s, i + 2, q)
    } else if q == Quote::Double {
        if s[i] == '"' {
            word_text(s, i + 1, Quote::Plain)
        } else {
            seq![s[i]] + word_text(s, i + 1, q)
        }
    } else if is_break(s[i]) {
        Seq::empty()
    } else if s[i] == '\'' {
        word_text(s, i + 1, Quote::Single)
    } else if s[i] == '"' {
        word_text(s, i + 1, Quote::Double)
    } else {
        seq![s[i]] + word_text(s, i + 1, q)
    }
}

proof fn lemma_word_end(s: Seq<char>, i: int, q: Quote)
    requires
        0 <= i <= s.len(),
    ensures
        i <= word_end(s, i, q) <= s.len(),
        i < s.len() && !is_break(s[i]) ==> i < word_end(s, i, q),
    decreases s.len() - i,
{
    if i < s.len() {
        if q == Quote::Single {
            lemma_word_end(
                s,
                i + 1,
                if s[i] == '\'' {
                    Quote::Plain
                } else {
                    q
                },
            );
        } else if s[i] == '\\' && i + 1 < s.len() {
            lemma_word_end(s, i + 2, q);
        } else if q == Quote::Double {
            lemma_word_end(
                s,
                i + 1,
                if s[i] == '"' {
                    Quote::Plain
                } else {
                    q
                },
            );
        } else if !is_break(s[i]) {
            lemma_word_end(
                s,
                i + 1,
                if s[i] == '\'' {
                    Quote::Single
                } else if s[i] == '"' {
                    Quote::Double
                } else {
                    q
                },
            );
        }
    }
}

/// Reads the word at `start`: where it ends, and what it says.
fn read_word(v: &Vec<char>, start: usize) -> (r: (usize, String))
    requires
        start <= v@.len(),
    ensures
        r.0 == word_end(v@, start as int, Quote::Plain),
        start <= r.0 <= v@.len(),
        r.1@ == word_text(v@, start as int, Quote::Plain),
{
    let n: usize = v.len();
    let mut i: usize = start;
    let mut q = Quote::Plain;
    let mut out = String::new();
    proof {
        lemma_word_end(v@, start as int, Quote::Plain);
        assert(out@ + word_text(v@, start as int, q) =~= word_text(v@, start as int, q));
    }
    let ghost end = word_end(v@, start as int, Quote::Plain);
    let ghost text = word_text(v@, start as int, Quote::Plain);
    loop
        invariant
            n == v@.len(),
            start <= i <= n,
            end == word_end(v@, i as int, q),
            text == out@ + word_text(v@, i as int, q),
            end <= n,
        ensures
            end == i,
            text == out@,
        decreases n - i,
    {
        if i >= n {
            assert(out@ + Seq::empty() =~= out@);
            break;
        }
        let c: char = v[i];
        let ghost before = out@;
        let ghost rest = word_text(v@, i as int, q);
        if q == Quote::Single {
            if c == '\'' {
                q = Quote::Plain;
            } else {
                out.push(c);
                assert(out@ + word_text(v@, i + 1, q) =~= before + rest);
            }
            i += 1;
        } else if c == '\\' && n - i > 1 {
            let d: char = v[i + 1];
            if d == '\n' {
                assert(out@ + word_text(v@, i + 2, q) =~= before + rest);
            } else if q == Quote::Plain || d == '"' || d == '\\' || d == '$' || d == '`' {
                out.push(d);
                assert(out@ + word_text(v@, i + 2, q) =~= before + rest);
            } else {
                out.push(c);
                out.push(d);
                assert(out@ + word_text(v@, i + 2, q) =~= before + rest);
            }
            i += 2;
        } else if q == Quote::Double {
            if c == '"' {
                q = Quote::Plain;
            } else {
                out.push(c);
                assert(out@ + word_text(v@, i + 1, q) =~= before + rest);
            }
            i += 1;
        } else if breaks(c) {
            assert(out@ + Seq::empty() =~= out@);
            break;
        } else {
            if c == '\'' {
                q = Quote::Single;
            } else if c == '"' {
                q = Quote::Double;
            } else {
                out.push(c);
                assert(out@ + word_text(v@, i + 1, q) =~= before + rest);
            }
            i += 1;
        }
    }
    (i, out)
}

/// First position from `i` on that holds no white space within a line.
pub open spec fn past_blank(s: Seq<char>, i: int) -> int
    decreases s.len() - i,
{
    if i < 0 || i >= s.len() || !is_gap(s[i]) || s[i] == '\n' {
        i
    } else {
        past_blank(s, i + 1)
    }
}

fn skip_blank(v: &Vec<char>, start: usize) -> (r: usize)
    requires
        start <= v@.len(),
    ensures
        r == past_blank(v@, start as int),
        start <= r <= v@.len(),
{
    let mut i: usize = start;
    while i < v.len() && gap(v[i]) && v[i] != '\n'
        invariant
            start <= i <= v@.len(),
            past_blank(v@, i as int) == past_blank(v@, start as int),
        decreases v@.len() - i,
    {
        i += 1;
    }
    i
}

/// First position from `i` on at which a line feed stands, or the end.
pub open spec fn line_end(s: Seq<char>, i: int) -> int
    decreases s.len() - i,
{
    if i < 0 || i >= s.len() || s[i] == '\n' {
        i
    } else {
        line_end(s, i + 1)
    }
}

fn find_line_end(v: &Vec<char>, start: usize) -> (r: usize)
    requires
        start <= v@.len(),
    ensures
        r == line_end(v@, start as int),
        start <= r <= v@.len(),
        start < v@.len() && v@[start as int] != '\n' ==> start < r,
        r < v@.len() ==> v@[r as int] == '\n',
{
    let mut i: usize = start;
    while i < v.len() && v[i] != '\n'
        invariant
            start <= i <= v@.len(),
            line_end(v@, i as int) == line_end(v@, start as int),
        decreases v@.len() - i,
    {
        i += 1;
    }
    i
}

/// First position from `i` on that holds no tab.
pub open spec fn past_tabs(s: Seq<char>, i: int) -> int
    decreases s.len() - i,
{
    if i < 0 || i >= s.len() || s[i] != '\t' {
        i
    } else {
        past_tabs(s, i + 1)
    }
}

/// A here-document whose body is still to come: the line that ends it, and whether tabs
/// before that line are passed over.
#[derive(Debug)]
pub struct HereDoc {
    pub end: String,
    pub tabs: bool,
}

/// Here-documents by the lines that end them.
pub open spec fn docs_view(v: Seq<HereDoc>) -> Seq<(Seq<char>, bool)> {
    Seq::new(v.len(), |i: int| (v[i].end@, v[i].tabs))
}

/// The line from `i` up to `e` ends the here-document.
pub open spec fn ends_body(s: Seq<char>, i: int, e: int, doc: (Seq<char>, bool)) -> bool {
    let a = if doc.1 {
        past_tabs(s, i)
    } else {
        i
    };
    a <= e && s.subrange(a, e) == doc.0
}

/// Where the line begins that follows the body of a here-document whose first line begins at
/// `i`. A body without an end reaches to the end of the text.
pub open spec fn past_body(s: Seq<char>, i: int, doc: (Seq<char>, bool)) -> int
    decreases s.len() - i,
{
    let e = line_end(s, i);
    if i < 0 || i >= s.len() || e < i || e >= s.len() {
        s.len() as int
    } else if ends_body(s, i, e, doc) {
        e + 1
    } else {
        past_body(s, e + 1, doc)
    }
}

/// Where the line begins that follows the bodies of here-documents, the first of which begins
/// at `i`.
pub open spec fn past_bodies(s: Seq<char>, i: int, docs: Seq<(Seq<char>, bool)>) -> int
    decreases docs.len(),
{
    if docs.len() == 0 {
        i
    } else {
        past_bodies(s, past_body(s, i, docs[0]), docs.drop_first())
    }
}

fn at_end_line(v: &Vec<char>, i: usize, e: usize, doc: &HereDoc) -> (r: bool)
    requires
        i <= e <= v@.len(),
    ensures
        r == ends_body(v@, i as int, e as int, (doc.end@, doc.tabs)),
{
    let n: usize = v.len();
    let mut a: usize = i;
    if doc.tabs {
        while a < n && v[a] == '\t'
            invariant
                i <= a <= n,
                n == v@.len(),
                past_tabs(v@, a as int) == past_tabs(v@, i as int),
            decreases n - a,
        {
            a += 1;
        }
    }
    if a > e {
        return false;
    }
    let line = part(v, a, e);
    same(line.as_str(), doc.end.as_str())
}

fn skip_body(v: &Vec<char>, start: usize, doc: &HereDoc) -> (r: usize)
    requires
        start <= v@.len(),
    ensures
        r == past_body(v@, start as int, (doc.end@, doc.tabs)),
        start <= r <= v@.len(),
{
    let n: usize = v.len();
    let mut i: usize = start;
    while i < n
        invariant
            n == v@.len(),
            start <= i <= n,
            past_body(v@, i as int, (doc.end@, doc.tabs)) == past_body(
                v@,
                start as int,
                (doc.end@, doc.tabs),
            ),
        decreases n - i,
    {
        let e: usize = find_line_end(v, i);
        if e >= n {
            return n;
        }
        if at_end_line(v, i, e, doc) {
            return e + 1;
        }
        i = e + 1;
    }
    n
}

fn skip_bodies(v: &Vec<char>, start: usize, docs: &Vec<HereDoc>) -> (r: usize)
    requires
        start <= v@.len(),
    ensures
        r == past_bodies(v@, start as int, docs_view(docs@)),
        start <= r <= v@.len(),
{
    let ghost all = docs_view(docs@);
    let mut i: usize = start;
    let mut k: usize = 0;
    assert(all.skip(0) =~= all);
    while k < docs.len()
        invariant
            all == docs_view(docs@),
            k <= docs@.len(),
            start <= i <= v@.len(),
            past_bodies(v@, i as int, all.skip(k as int)) == past_bodies(v@, start as int, all),
        decreases docs@.len() - k,
    {
        proof {
            assert(all.skip(k as int)[0] == all[k as int]);
            assert(all.skip(k as int).drop_first() =~= all.skip(k + 1));
        }
        i = skip_body(v, i, &docs[k]);
        k += 1;
    }
    i
}

/// A part of a shell line.
#[derive(Debug)]
pub enum Piece {
    /// A word of a command.
    Word(String),
    /// A file that output is redirected into.
    Into(String),
    /// The end of a command.
    Break,
}

/// A part of a shell line.
pub enum PieceView {
    Word(Seq<char>),
    Into(Seq<char>),
    Break,
}

impl View for Piece {
    type V = PieceView;

    open spec fn view(&self) -> PieceView {
        match self {
            Piece::Word(t) => PieceView::Word(t@),
            Piece::Into(t) => PieceView::Into(t@),
            Piece::Break => PieceView::Break,
        }
    }
}

/// Parts of a shell line.
pub open spec fn pieces_view(v: Seq<Piece>) -> Seq<PieceView> {
    Seq::new(v.len(), |i: int| v[i]@)
}

/// The character at `i`, or a zero character behind the end.
pub open spec fn peek(s: Seq<char>, i: int) -> char {
    if 0 <= i < s.len() {
        s[i]
    } else {
        '\0'
    }
}

fn look(v: &Vec<char>, i: usize) -> (r: char)
    ensures
        r == peek(v@, i as int),
{
    if i < v.len() {
        v[i]
    } else {
        '\0'
    }
}

/// A text of digits.
pub open spec fn is_number(t: Seq<char>) -> bool {
    t.len() > 0 && forall|i: int| 0 <= i < t.len() ==> '0' <= #[trigger] t[i] && t[i] <= '9'
}

fn number(t: &str) -> (r: bool)
    ensures
        r == is_number(t@),
{
    let v = to_chars(t);
    let mut i: usize = 0;
    while i < v.len()
        invariant
            i <= v@.len(),
            v@ == t@,
            forall|k: int| 0 <= k < i ==> '0' <= #[trigger] v@[k] && v@[k] <= '9',
        decreases v@.len() - i,
    {
        if v[i] < '0' || v[i] > '9' {
            assert(!('0' <= t@[i as int] && t@[i as int] <= '9'));
            return false;
        }
        i += 1;
    }
    v.len() > 0
}

/// What is read at `i`, where reading goes on, and which here-documents have their body still
/// to come. At the end of a line their bodies are passed over.
pub open spec fn piece_at(s: Seq<char>, i: int, docs: Seq<(Seq<char>, bool)>) -> (
    Seq<PieceView>,
    int,
    Seq<(Seq<char>, bool)>,
) {
    let c = s[i];
    let n = peek(s, i + 1);
    if c == '\n' {
        (seq![PieceView::Break], past_bodies(s, i + 1, docs), Seq::empty())
    } else if is_gap(c) {
        (Seq::empty(), i + 1, docs)
    } else if c == '#' {
        (Seq::empty(), line_end(s, i), docs)
    } else if c == '>' {
        let b = past_blank(
            s,
            if n == '>' || n == '|' || n == '&' {
                i + 2
            } else {
                i + 1
            },
        );
        let t = word_text(s, b, Quote::Plain);
        let into = if t.len() == 0 || (n == '&' && (is_number(t) || t == "-"@)) {
            Seq::empty()
        } else {
            seq![PieceView::Into(t)]
        };
        (into, word_end(s, b, Quote::Plain), docs)
    } else if c == '<' && n == '<' && peek(s, i + 2) != '<' {
        let tabs = peek(s, i + 2) == '-';
        let b = past_blank(
            s,
            if tabs {
                i + 3
            } else {
                i + 2
            },
        );
        let e = word_end(s, b, Quote::Plain);
        (
            Seq::empty(),
            e,
            if b < e {
                docs.push((word_text(s, b, Quote::Plain), tabs))
            } else {
                docs
            },
        )
    } else if c == '<' {
        let b = past_blank(
            s,
            if n == '<' {
                i + 3
            } else if n == '&' || n == '>' {
                i + 2
            } else {
                i + 1
            },
        );
        (Seq::empty(), word_end(s, b, Quote::Plain), docs)
    } else if c == '&' && n == '>' {
        (Seq::empty(), i + 1, docs)
    } else if c == '(' && n == '(' && next_at(s, "))"@, i + 2) <= s.len() {
        (Seq::empty(), next_at(s, "))"@, i + 2) + 2, docs)
    } else if is_break(c) {
        (seq![PieceView::Break], i + 1, docs)
    } else {
        let e = word_end(s, i, Quote::Plain);
        let t = word_text(s, i, Quote::Plain);
        let word = if t.len() == 0 || (is_number(s.subrange(i, e)) && (peek(s, e) == '<' || peek(s, e)
            == '>')) {
            Seq::empty()
        } else {
            seq![PieceView::Word(t)]
        };
        (word, e, docs)
    }
}

/// The parts of a shell line from `i` on, where the bodies of some here-documents are still to
/// come. Quoting is taken off the words; the text of comments and of the bodies of
/// here-documents, what input is redirected from, and arithmetic are no part of it.
pub open spec fn pieces_from(s: Seq<char>, i: int, docs: Seq<(Seq<char>, bool)>) -> Seq<PieceView>
    decreases s.len() - i,
{
    if i < 0 || i >= s.len() {
        Seq::empty()
    } else {
        let (ps, k, later) = piece_at(s, i, docs);
        if k <= i || k > s.len() {
            ps
        } else {
            ps + pieces_from(s, k, later)
        }
    }
}

fn push_piece(out: &mut Vec<Piece>, p: Piece)
    ensures
        pieces_view(final(out)@) == pieces_view(old(out)@) + seq![p@],
{
    let ghost before = pieces_view(out@);
    out.push(p);
    assert(pieces_view(out@) =~= before + seq![p@]);
}

fn read_piece(v: &Vec<char>, i: usize, docs: &mut Vec<HereDoc>, out: &mut Vec<Piece>) -> (k: usize)
    requires
        i < v@.len(),
    ensures
        i < k <= v@.len(),
        piece_at(v@, i as int, docs_view(old(docs)@)).1 == k,
        docs_view(final(docs)@) == piece_at(v@, i as int, docs_view(old(docs)@)).2,
        pieces_view(final(out)@) == pieces_view(old(out)@) + piece_at(
            v@,
            i as int,
            docs_view(old(docs)@),
        ).0,
{
    let len: usize = v.len();
    let c: char = v[i];
    let n: char = look(v, i + 1);
    let ghost before = pieces_view(out@);
    assert(before + Seq::empty() =~= before);
    if c == '\n' {
        let k: usize = skip_bodies(v, i + 1, docs);
        *docs = Vec::new();
        assert(docs_view(docs@) =~= Seq::empty());
        push_piece(out, Piece::Break);
        return k;
    }
    if gap(c) {
        return i + 1;
    }
    if c == '#' {
        return find_line_end(v, i);
    }
    if c == '>' {
        let a: usize = if n == '>' || n == '|' || n == '&' {
            i + 2
        } else {
            i + 1
        };
        let b: usize = skip_blank(v, a);
        let (e, t) = read_word(v, b);
        if !(t.as_str().is_empty() || (n == '&' && (number(t.as_str()) || same(t.as_str(), "-")))) {
            push_piece(out, Piece::Into(t));
        }
        return e;
    }
    if c == '<' {
        if n == '<' {
            let m: char = look(v, i + 2);
            if m != '<' {
                let tabs: bool = m == '-';
                let a: usize = if tabs {
                    i + 3
                } else {
                    i + 2
                };
                let b: usize = skip_blank(v, a);
                let (e, t) = read_word(v, b);
                if b < e {
                    let ghost earlier = docs_view(docs@);
                    docs.push(HereDoc { end: t, tabs });
                    assert(docs_view(docs@) =~= earlier.push((t@, tabs)));
                }
                return e;
            }
        }
        let a: usize = if n == '<' {
            i + 3
        } else if n == '&' || n == '>' {
            i + 2
        } else {
            i + 1
        };
        let b: usize = skip_blank(v, a);
        let (e, _) = read_word(v, b);
        return e;
    }
    if c == '&' && n == '>' {
        return i + 1;
    }
    if c == '(' && n == '(' {
        let close = to_chars("))");
        proof {
            reveal_strlit("))");
            lemma_next_at(v@, "))"@, i + 2);
        }
        match find_from(v, &close, i + 2) {
            Some(k) => {
                assert(has_at(v@, "))"@, k as int));
                return k + 2;
            },
            None => {},
        }
    }
    if breaks(c) {
        push_piece(out, Piece::Break);
        return i + 1;
    }
    proof {
        lemma_word_end(v@, i as int, Quote::Plain);
    }
    let (e, t) = read_word(v, i);
    let raw = part(v, i, e);
    let m: char = look(v, e);
    if !(t.as_str().is_empty() || (number(raw.as_str()) && (m == '<' || m == '>'))) {
        push_piece(out, Piece::Word(t));
    }
    e
}

/// The parts of a shell line.
pub open spec fn pieces_in(s: Seq<char>) -> Seq<PieceView> {
    pieces_from(s, 0, Seq::empty())
}

/// Reads a shell line.
pub fn read_line(command: &str) -> (r: Vec<Piece>)
    ensures
        pieces_view(r@) == pieces_in(command@),
{
    let v = to_chars(command);
    let mut docs: Vec<HereDoc> = Vec::new();
    let mut out: Vec<Piece> = Vec::new();
    let mut i: usize = 0;
    proof {
        assert(docs_view(docs@) =~= Seq::empty());
        assert(pieces_view(out@) + pieces_in(v@) =~= pieces_in(v@));
    }
    while i < v.len()
        invariant
            i <= v@.len(),
            pieces_view(out@) + pieces_from(v@, i as int, docs_view(docs@)) == pieces_in(v@),
        decreases v@.len() - i,
    {
        let ghost before = pieces_view(out@);
        let ghost earlier = docs_view(docs@);
        let ghost at = i as int;
        i = read_piece(&v, i, &mut docs, &mut out);
        proof {
            let (ps, k, later) = piece_at(v@, at, earlier);
            let rest = pieces_from(v@, k, later);
            assert(pieces_from(v@, at, earlier) == ps + rest);
            assert(before + (ps + rest) =~= (before + ps) + rest);
        }
    }
    assert(pieces_view(out@) + Seq::empty() =~= pieces_view(out@));
    out
}

proof fn lemma_line_end(s: Seq<char>, i: int)
    requires
        0 <= i <= s.len(),
    ensures
        i <= line_end(s, i) <= s.len(),
    decreases s.len() - i,
{
    if i < s.len() && s[i] != '\n' {
        lemma_line_end(s, i + 1);
    }
}

proof fn lemma_past_body(s: Seq<char>, i: int, doc: (Seq<char>, bool))
    requires
        0 <= i <= s.len(),
    ensures
        i <= past_body(s, i, doc) <= s.len(),
        past_body(s, i, doc) == s.len() || exists|a: int|
            i <= a < past_body(s, i, doc) && #[trigger] ends_body(s, a, past_body(s, i, doc) - 1, doc),
    decreases s.len() - i,
{
    lemma_line_end(s, i);
    let e = line_end(s, i);
    if i < s.len() && e < s.len() {
        if ends_body(s, i, e, doc) {
            assert(ends_body(s, i, past_body(s, i, doc) - 1, doc));
        } else {
            lemma_past_body(s, e + 1, doc);
        }
    }
}

/// Nothing of the body of a here-document is read: behind the line that announces it, reading
/// goes on behind the line that ends it, or nowhere where no line does.
pub proof fn law_here_bodies_are_passed_over(s: Seq<char>, i: int, doc: (Seq<char>, bool))
    requires
        0 <= i < s.len(),
        s[i] == '\n',
    ensures
        pieces_from(s, i, seq![doc]) == seq![PieceView::Break] + pieces_from(
            s,
            past_body(s, i + 1, doc),
            Seq::empty(),
        ),
        i < past_body(s, i + 1, doc) <= s.len(),
        past_body(s, i + 1, doc) == s.len() || exists|a: int|
            i < a < past_body(s, i + 1, doc) && #[trigger] ends_body(
                s,
                a,
                past_body(s, i + 1, doc) - 1,
                doc,
            ),
{
    lemma_past_body(s, i + 1, doc);
    let docs = seq![doc];
    assert(docs.drop_first() =~= Seq::empty());
    reveal_with_fuel(past_bodies, 2);
    assert(past_bodies(s, i + 1, docs) == past_body(s, i + 1, doc));
}

/// The files that output is redirected into, in order.
pub open spec fn redirected(ps: Seq<PieceView>) -> Seq<Seq<char>>
    decreases ps.len(),
{
    if ps.len() == 0 {
        Seq::empty()
    } else {
        let before = redirected(ps.drop_last());
        match ps.last() {
            PieceView::Into(t) => before.push(t),
            _ => before,
        }
    }
}

/// The files that output is redirected into.
pub fn redirect_targets(ps: &Vec<Piece>) -> (r: Vec<String>)
    ensures
        texts(r@) == redirected(pieces_view(ps@)),
{
    let ghost all = pieces_view(ps@);
    let mut out: Vec<String> = Vec::new();
    let mut i: usize = 0;
    assert(all.take(0) =~= Seq::empty());
    assert(texts(out@) =~= Seq::empty());
    while i < ps.len()
        invariant
            all == pieces_view(ps@),
            i <= ps@.len(),
            texts(out@) == redirected(all.take(i as int)),
        decreases ps@.len() - i,
    {
        let ghost before = texts(out@);
        proof {
            assert(all.take(i + 1).drop_last() =~= all.take(i as int));
            assert(all.take(i + 1).last() == ps@[i as int]@);
        }
        match &ps[i] {
            Piece::Into(t) => {
                out.push(t.clone());
                assert(texts(out@) =~= before.push(t@));
            },
            _ => {},
        }
        i += 1;
    }
    assert(all.take(i as int) =~= all);
    out
}

/// A character of the name of a variable.
pub open spec fn is_name_char(c: char) -> bool {
    ('a' <= c && c <= 'z') || ('A' <= c && c <= 'Z') || ('0' <= c && c <= '9') || c == '_'
}

/// A word that sets a variable for the command behind it.
pub open spec fn is_assignment(t: Seq<char>) -> bool {
    let k = find_char(t, '=');
    &&& 0 < k < t.len()
    &&& !('0' <= t[0] && t[0] <= '9')
    &&& forall|i: int| 0 <= i < k ==> is_name_char(#[trigger] t[i])
}

/// A word that stands before the name of a command.
pub open spec fn is_lead(t: Seq<char>) -> bool {
    ||| t == "{"@
    ||| t == "!"@
    ||| t == "if"@
    ||| t == "then"@
    ||| t == "elif"@
    ||| t == "else"@
    ||| t == "while"@
    ||| t == "until"@
    ||| t == "do"@
    ||| t == "time"@
    ||| is_assignment(t)
}

fn assignment(t: &str) -> (r: bool)
    ensures
        r == is_assignment(t@),
{
    let v = to_chars(t);
    let n: usize = v.len();
    let mut i: usize = 0;
    let mut named: bool = true;
    while i < n && v[i] != '='
        invariant
            n == v@.len(),
            v@ == t@,
            i <= n,
            forall|k: int| 0 <= k < i ==> #[trigger] t@[k] != '=',
            named == (forall|k: int| 0 <= k < i ==> is_name_char(#[trigger] t@[k])),
        decreases n - i,
    {
        let c: char = v[i];
        if !(('a' <= c && c <= 'z') || ('A' <= c && c <= 'Z') || ('0' <= c && c <= '9') || c == '_') {
            named = false;
            assert(!is_name_char(t@[i as int]));
        }
        i += 1;
    }
    proof {
        lemma_find_char_is(t@, '=', i as int);
    }
    0 < i && i < n && named && !('0' <= v[0] && v[0] <= '9')
}

fn lead(t: &str) -> (r: bool)
    ensures
        r == is_lead(t@),
{
    same(t, "{") || same(t, "!") || same(t, "if") || same(t, "then") || same(t, "elif") || same(t, "else")
        || same(t, "while") || same(t, "until") || same(t, "do") || same(t, "time") || assignment(t)
}

/// A command that is being read.
#[derive(Debug)]
pub enum Reading {
    /// Its name is still to come.
    Name,
    /// Its words are read; `operand` says whether one of them was an operand.
    Words { name: String, operand: bool },
}

/// A command that is being read.
pub enum ReadingView {
    Name,
    Words { name: Seq<char>, operand: bool },
}

impl View for Reading {
    type V = ReadingView;

    open spec fn view(&self) -> ReadingView {
        match self {
            Reading::Name => ReadingView::Name,
            Reading::Words { name, operand } => ReadingView::Words { name: name@, operand: *operand },
        }
    }
}

/// The word of a command is an operand rather than a flag. For `chmod`, taking permissions
/// away looks like a flag.
pub open spec fn is_operand(name: Seq<char>, t: Seq<char>) -> bool {
    !begins(t, "-"@) || (name == "chmod"@ && t.len() > 1 && (t[1] == 'r' || t[1] == 'w' || t[1] == 'x'
        || t[1] == 'X' || t[1] == 's' || t[1] == 't'))
}

fn operand_word(name: &str, t: &str) -> (r: bool)
    ensures
        r == is_operand(name@, t@),
{
    if !starts_with(t, "-") {
        return true;
    }
    let v = to_chars(t);
    same(name, "chmod") && v.len() > 1 && (v[1] == 'r' || v[1] == 'w' || v[1] == 'x' || v[1] == 'X'
        || v[1] == 's' || v[1] == 't')
}

/// The command after its next part.
pub open spec fn reading_after(c: ReadingView, p: PieceView) -> ReadingView {
    match p {
        PieceView::Break => ReadingView::Name,
        PieceView::Into(_) => c,
        PieceView::Word(t) => match c {
            ReadingView::Name => if is_lead(t) {
                c
            } else {
                ReadingView::Words { name: split_of(t, '/').last(), operand: false }
            },
            ReadingView::Words { name, operand } => ReadingView::Words {
                name,
                operand: operand || is_operand(name, t),
            },
        },
    }
}

/// The command that is being read behind the parts.
pub open spec fn reading(ps: Seq<PieceView>) -> ReadingView
    decreases ps.len(),
{
    if ps.len() == 0 {
        ReadingView::Name
    } else {
        reading_after(reading(ps.drop_last()), ps.last())
    }
}

/// The file that the next part names as one that the command changes: an operand of a command
/// that changes files. The first operand of `chmod` and of `chown` is no file.
pub open spec fn changed_at(c: ReadingView, p: PieceView) -> Seq<Seq<char>> {
    match (c, p) {
        (ReadingView::Words { name, operand }, PieceView::Word(t)) => if !is_mutator(name) || (!operand
            && (name == "chmod"@ || name == "chown"@)) {
            Seq::empty()
        } else {
            operand_path(name, t)
        },
        _ => Seq::empty(),
    }
}

/// The files that the commands change through their operands, in order.
pub open spec fn changed_by(ps: Seq<PieceView>) -> Seq<Seq<char>>
    decreases ps.len(),
{
    if ps.len() == 0 {
        Seq::empty()
    } else {
        changed_by(ps.drop_last()) + changed_at(reading(ps.drop_last()), ps.last())
    }
}

fn push_changed(name: &str, t: &str, out: &mut Vec<String>)
    ensures
        texts(final(out)@) == texts(old(out)@) + operand_path(name@, t@),
{
    let ghost before = texts(out@);
    proof {
        reveal_strlit("of=");
        assert(before + Seq::empty() =~= before);
    }
    if starts_with(t, "-") {
        return;
    }
    if same(name, "dd") {
        if starts_with(t, "of=") {
            let v = to_chars(t);
            if v.len() > 3 {
                let file = part(&v, 3, v.len());
                assert(t@.skip(3) =~= file@);
                out.push(file);
                assert(texts(out@) =~= before + seq![t@.skip(3)]);
            }
        }
        return;
    }
    out.push(t.to_owned());
    assert(texts(out@) =~= before + seq![t@]);
}

/// The files that the commands change through their operands.
pub fn changed_files(ps: &Vec<Piece>) -> (r: Vec<String>)
    ensures
        texts(r@) == changed_by(pieces_view(ps@)),
{
    let ghost all = pieces_view(ps@);
    let mut out: Vec<String> = Vec::new();
    let mut state = Reading::Name;
    let mut i: usize = 0;
    assert(all.take(0) =~= Seq::empty());
    assert(texts(out@) =~= Seq::empty());
    while i < ps.len()
        invariant
            all == pieces_view(ps@),
            i <= ps@.len(),
            texts(out@) == changed_by(all.take(i as int)),
            state@ == reading(all.take(i as int)),
        decreases ps@.len() - i,
    {
        let ghost before = texts(out@);
        let ghost c = state@;
        proof {
            assert(all.take(i + 1).drop_last() =~= all.take(i as int));
            assert(all.take(i + 1).last() == ps@[i as int]@);
            assert(before + Seq::empty() =~= before);
        }
        match &ps[i] {
            Piece::Break => {
                state = Reading::Name;
            },
            Piece::Into(_) => {},
            Piece::Word(t) => {
                state = match state {
                    Reading::Name => {
                        if lead(t.as_str()) {
                            Reading::Name
                        } else {
                            let steps = split(t.as_str(), '/');
                            let name = steps[steps.len() - 1].clone();
                            assert(name@ == texts(steps@).last());
                            Reading::Words { name, operand: false }
                        }
                    },
                    Reading::Words { name, operand } => {
                        if mutator(name.as_str()) && (operand || !(same(name.as_str(), "chmod") || same(
                            name.as_str(),
                            "chown",
                        ))) {
                            push_changed(name.as_str(), t.as_str(), &mut out);
                        }
                        let seen: bool = operand || operand_word(name.as_str(), t.as_str());
                        Reading::Words { name, operand: seen }
                    },
                };
            },
        }
        assert(texts(out@) =~= before + changed_at(c, ps@[i as int]@));
        i += 1;
    }
    assert(all.take(i as int) =~= all);
    out
}

} // verus!
