//! Text as sequences of characters: searching, trimming, splitting into lines,
//! joining and decimal numerals, each with a specification over `Seq<char>`.
use vstd::prelude::*;
use vstd::utf8::{decode_utf8, encode_utf8, encode_utf8_decode_utf8};

verus! {

/// `String::push` appends one character at the end.
pub assume_specification[ String::push ](s: &mut String, c: char)
    ensures
        final(s)@ == old(s)@.push(c),
;

/// Number of bytes that `s` takes in UTF-8.
pub open spec fn byte_len(s: Seq<char>) -> nat {
    encode_utf8(s).len()
}

/// The views of a list of strings.
pub open spec fn texts(v: Seq<String>) -> Seq<Seq<char>> {
    Seq::new(v.len(), |i: int| v[i]@)
}

/// The text, where there is one.
pub open spec fn text_view(t: Option<String>) -> Option<Seq<char>> {
    match t {
        Some(s) => Some(s@),
        None => None,
    }
}

/// The pattern `p` stands in `s` at position `i`.
pub open spec fn has_at(s: Seq<char>, p: Seq<char>, i: int) -> bool {
    0 <= i && i + p.len() <= s.len() && s.subrange(i, i + p.len()) == p
}

/// The pattern `p` stands somewhere in `s`.
pub open spec fn occurs(s: Seq<char>, p: Seq<char>) -> bool {
    exists|i: int| has_at(s, p, i)
}

/// The text `s` begins with `p`.
pub open spec fn begins(s: Seq<char>, p: Seq<char>) -> bool {
    has_at(s, p, 0)
}

/// The character does not occur in the text.
pub open spec fn has_no(s: Seq<char>, c: char) -> bool {
    forall|i: int| 0 <= i < s.len() ==> #[trigger] s[i] != c
}

/// At most the first `n` characters of `s`.
pub open spec fn head(s: Seq<char>, n: nat) -> Seq<char> {
    if s.len() <= n {
        s
    } else {
        s.take(n as int)
    }
}

/// Position of the first `c` in `s`, or the length of `s` where there is none.
pub open spec fn find_char(s: Seq<char>, c: char) -> int
    decreases s.len(),
{
    if s.len() == 0 || s[0] == c {
        0
    } else {
        1 + find_char(s.drop_first(), c)
    }
}

/// The characters with the Unicode property `White_Space`.
pub open spec fn is_white_space(c: char) -> bool {
    let n = c as u32;
    ||| 9 <= n <= 13
    ||| n == 0x20
    ||| n == 0x85
    ||| n == 0xa0
    ||| n == 0x1680
    ||| 0x2000 <= n <= 0x200a
    ||| n == 0x2028
    ||| n == 0x2029
    ||| n == 0x202f
    ||| n == 0x205f
    ||| n == 0x3000
}

/// `s` without its leading white space.
pub open spec fn trim_start_of(s: Seq<char>) -> Seq<char>
    decreases s.len(),
{
    if s.len() == 0 || !is_white_space(s[0]) {
        s
    } else {
        trim_start_of(s.drop_first())
    }
}

/// `s` without its trailing white space.
pub open spec fn trim_end_of(s: Seq<char>) -> Seq<char>
    decreases s.len(),
{
    if s.len() == 0 || !is_white_space(s.last()) {
        s
    } else {
        trim_end_of(s.drop_last())
    }
}

/// `s` without white space on either side.
pub open spec fn trim_of(s: Seq<char>) -> Seq<char> {
    trim_end_of(trim_start_of(s))
}

/// A line without the carriage return that belongs to its line ending.
pub open spec fn without_cr(s: Seq<char>) -> Seq<char> {
    if s.len() > 0 && s.last() == '\r' {
        s.drop_last()
    } else {
        s
    }
}

/// The lines of a text: each ends at a line feed, a carriage return before the
/// line feed is part of the ending, and a final ending opens no further line.
pub open spec fn lines_of(s: Seq<char>) -> Seq<Seq<char>>
    decreases s.len(),
{
    let k = find_char(s, '\n');
    if s.len() == 0 {
        Seq::empty()
    } else if k < 0 || k >= s.len() {
        seq![s]
    } else {
        seq![without_cr(s.take(k))] + lines_of(s.skip(k + 1))
    }
}

/// The parts with `sep` between neighbours.
pub open spec fn join_of(parts: Seq<Seq<char>>, sep: Seq<char>) -> Seq<char>
    decreases parts.len(),
{
    if parts.len() == 0 {
        Seq::empty()
    } else if parts.len() == 1 {
        parts[0]
    } else {
        join_of(parts.drop_last(), sep) + sep + parts.last()
    }
}

/// The pieces of `s` between the separators `c`; there is always at least one.
pub open spec fn split_of(s: Seq<char>, c: char) -> Seq<Seq<char>>
    decreases s.len(),
{
    let k = find_char(s, c);
    if k < 0 || k >= s.len() {
        seq![s]
    } else {
        seq![s.take(k)] + split_of(s.skip(k + 1), c)
    }
}

/// Length of the longest prefix of `s` without white space.
pub open spec fn word_len(s: Seq<char>) -> int
    decreases s.len(),
{
    if s.len() == 0 || is_white_space(s[0]) {
        0
    } else {
        1 + word_len(s.drop_first())
    }
}

/// The maximal runs of `s` that hold no white space.
pub open spec fn words_of(s: Seq<char>) -> Seq<Seq<char>>
    decreases s.len(),
    via words_of_decreases
{
    let t = trim_start_of(s);
    let k = word_len(t);
    if t.len() == 0 {
        Seq::empty()
    } else {
        seq![t.take(k)] + words_of(t.skip(k))
    }
}

#[via_fn]
proof fn words_of_decreases(s: Seq<char>) {
    lemma_trim_start_len(s);
    lemma_word_len(trim_start_of(s));
}

/// Trimming at the start takes only white space away.
pub proof fn lemma_trim_start_len(s: Seq<char>)
    ensures
        trim_start_of(s).len() <= s.len(),
        trim_start_of(s).len() > 0 ==> !is_white_space(trim_start_of(s)[0]),
    decreases s.len(),
{
    if s.len() > 0 && is_white_space(s[0]) {
        lemma_trim_start_len(s.drop_first());
    }
}

/// `word_len` stops at the first white space or at the end.
pub proof fn lemma_word_len(s: Seq<char>)
    ensures
        0 <= word_len(s) <= s.len(),
        forall|i: int| 0 <= i < word_len(s) ==> !is_white_space(s[i]),
        word_len(s) < s.len() ==> is_white_space(s[word_len(s)]),
        s.len() > 0 && !is_white_space(s[0]) ==> word_len(s) > 0,
    decreases s.len(),
{
    if s.len() > 0 && !is_white_space(s[0]) {
        let t = s.drop_first();
        lemma_word_len(t);
        assert forall|i: int| 0 <= i < word_len(s) implies !is_white_space(s[i]) by {
            if i > 0 {
                assert(s[i] == t[i - 1]);
            }
        }
    }
}

proof fn lemma_word_len_is(s: Seq<char>, k: int)
    requires
        0 <= k <= s.len(),
        forall|i: int| 0 <= i < k ==> !is_white_space(s[i]),
        k < s.len() ==> is_white_space(s[k]),
    ensures
        word_len(s) == k,
{
    lemma_word_len(s);
    let f = word_len(s);
    if f < k {
        assert(is_white_space(s[f]));
    }
}

/// How often `c` stands in `s`.
pub open spec fn count_of(s: Seq<char>, c: char) -> nat
    decreases s.len(),
{
    if s.len() == 0 {
        0
    } else {
        count_of(s.drop_last(), c) + if s.last() == c {
            1nat
        } else {
            0nat
        }
    }
}

/// Each line behind the prefix `p` and with a line feed after it.
pub open spec fn prefixed_of(p: Seq<char>, ls: Seq<Seq<char>>) -> Seq<char>
    decreases ls.len(),
{
    if ls.len() == 0 {
        Seq::empty()
    } else {
        prefixed_of(p, ls.drop_last()) + p + ls.last() + seq!['\n']
    }
}

/// The decimal digit of a number below ten.
pub open spec fn digit_of(d: nat) -> char {
    (48 + d) as char
}

/// The decimal numeral of a natural number.
pub open spec fn decimal_of(n: nat) -> Seq<char>
    decreases n,
{
    if n < 10 {
        seq![digit_of(n)]
    } else {
        decimal_of(n / 10).push(digit_of(n % 10))
    }
}

/// The decimal numeral of an integer, with a leading minus sign below zero.
pub open spec fn signed_of(n: int) -> Seq<char> {
    if n < 0 {
        seq!['-'] + decimal_of((-n) as nat)
    } else {
        decimal_of(n as nat)
    }
}

/// `find_char` gives a position in the text with that character and none before
/// it, or the length where the character does not occur.
pub proof fn lemma_find_char(s: Seq<char>, c: char)
    ensures
        0 <= find_char(s, c) <= s.len(),
        forall|i: int| 0 <= i < find_char(s, c) ==> s[i] != c,
        find_char(s, c) < s.len() ==> s[find_char(s, c)] == c,
    decreases s.len(),
{
    if s.len() > 0 && s[0] != c {
        let t = s.drop_first();
        lemma_find_char(t, c);
        assert forall|i: int| 0 <= i < find_char(s, c) implies s[i] != c by {
            if i > 0 {
                assert(s[i] == t[i - 1]);
            }
        }
    }
}

/// The first position with a character is the only one `find_char` can give.
pub proof fn lemma_find_char_is(s: Seq<char>, c: char, k: int)
    requires
        0 <= k <= s.len(),
        forall|i: int| 0 <= i < k ==> s[i] != c,
        k < s.len() ==> s[k] == c,
    ensures
        find_char(s, c) == k,
{
    lemma_find_char(s, c);
    let f = find_char(s, c);
    if f < k {
        assert(s[f] == c);
    }
}

/// Where the white space at the start ends is where the trimmed text starts.
pub proof fn lemma_trim_start(s: Seq<char>, i: int)
    requires
        0 <= i <= s.len(),
        forall|k: int| 0 <= k < i ==> is_white_space(s[k]),
        i < s.len() ==> !is_white_space(s[i]),
    ensures
        trim_start_of(s) == s.skip(i),
    decreases i,
{
    if i > 0 {
        let t = s.drop_first();
        assert(forall|k: int| 0 <= k < i - 1 ==> t[k] == s[k + 1]);
        lemma_trim_start(t, i - 1);
        assert(t.skip(i - 1) =~= s.skip(i));
    } else {
        assert(s.skip(0) =~= s);
    }
}

proof fn lemma_trim_end(s: Seq<char>, j: int)
    requires
        0 <= j <= s.len(),
        forall|k: int| j <= k < s.len() ==> is_white_space(s[k]),
        j > 0 ==> !is_white_space(s[j - 1]),
    ensures
        trim_end_of(s) == s.take(j),
    decreases s.len() - j,
{
    if j < s.len() {
        let t = s.drop_last();
        assert(is_white_space(s[s.len() - 1]));
        lemma_trim_end(t, j);
        assert(t.take(j) =~= s.take(j));
    } else {
        assert(s.take(j) =~= s);
    }
}

/// Trimming takes a stretch out of the text: only white space lies outside it,
/// and none at its ends.
pub proof fn lemma_trim_range(s: Seq<char>) -> (r: (int, int))
    ensures
        0 <= r.0 <= r.1 <= s.len(),
        trim_of(s) == s.subrange(r.0, r.1),
        forall|k: int| 0 <= k < r.0 ==> is_white_space(s[k]),
        forall|k: int| r.1 <= k < s.len() ==> is_white_space(s[k]),
        r.0 < r.1 ==> !is_white_space(s[r.0]) && !is_white_space(s[r.1 - 1]),
{
    let a = lemma_trim_start_at(s, 0);
    lemma_trim_start(s, a);
    let t = s.skip(a);
    let b = lemma_trim_end_at(t, t.len() as int);
    lemma_trim_end(t, b);
    assert(t.take(b) =~= s.subrange(a, a + b));
    assert forall|k: int| a + b <= k < s.len() implies is_white_space(s[k]) by {
        assert(t[k - a] == s[k]);
    }
    if b > 0 {
        assert(t[b - 1] == s[a + b - 1]);
        if a < s.len() {
            assert(!is_white_space(s[a]));
        }
    }
    (a, a + b)
}

proof fn lemma_trim_start_at(s: Seq<char>, i: int) -> (r: int)
    requires
        0 <= i <= s.len(),
        forall|k: int| 0 <= k < i ==> is_white_space(s[k]),
    ensures
        i <= r <= s.len(),
        forall|k: int| 0 <= k < r ==> is_white_space(s[k]),
        r < s.len() ==> !is_white_space(s[r]),
    decreases s.len() - i,
{
    if i < s.len() && is_white_space(s[i]) {
        lemma_trim_start_at(s, i + 1)
    } else {
        i
    }
}

proof fn lemma_trim_end_at(s: Seq<char>, j: int) -> (r: int)
    requires
        0 <= j <= s.len(),
        forall|k: int| j <= k < s.len() ==> is_white_space(s[k]),
    ensures
        0 <= r <= j,
        forall|k: int| r <= k < s.len() ==> is_white_space(s[k]),
        r > 0 ==> !is_white_space(s[r - 1]),
    decreases j,
{
    if j > 0 && is_white_space(s[j - 1]) {
        lemma_trim_end_at(s, j - 1)
    } else {
        j
    }
}

/// Trimming twice is trimming once.
pub proof fn lemma_trim_twice(s: Seq<char>)
    ensures
        trim_of(trim_of(s)) == trim_of(s),
{
    let (a, b) = lemma_trim_range(s);
    let t = trim_of(s);
    if t.len() > 0 {
        assert(t[0] == s[a]);
        assert(t[t.len() - 1] == s[b - 1]);
    }
    lemma_trim_start(t, 0);
    assert(t.skip(0) =~= t);
    lemma_trim_end(t, t.len() as int);
    assert(t.take(t.len() as int) =~= t);
}

/// Counting is additive over concatenation.
pub proof fn lemma_count_concat(a: Seq<char>, b: Seq<char>, c: char)
    ensures
        count_of(a + b, c) == count_of(a, c) + count_of(b, c),
    decreases b.len(),
{
    if b.len() == 0 {
        assert(a + b =~= a);
    } else {
        lemma_count_concat(a, b.drop_last(), c);
        assert((a + b).drop_last() =~= a + b.drop_last());
        assert((a + b).last() == b.last());
    }
}

proof fn lemma_count_none(s: Seq<char>, c: char)
    requires
        forall|i: int| 0 <= i < s.len() ==> s[i] != c,
    ensures
        count_of(s, c) == 0,
    decreases s.len(),
{
    if s.len() > 0 {
        lemma_count_none(s.drop_last(), c);
    }
}

/// A text has one more piece than separators.
pub proof fn lemma_split_len(s: Seq<char>, c: char)
    ensures
        split_of(s, c).len() == count_of(s, c) + 1,
    decreases s.len(),
{
    lemma_find_char(s, c);
    let k = find_char(s, c);
    if k >= s.len() {
        lemma_count_none(s, c);
    } else {
        let t = s.skip(k + 1);
        lemma_split_len(t, c);
        lemma_count_none(s.take(k), c);
        lemma_count_concat(s.take(k), seq![c], c);
        lemma_count_concat(s.take(k) + seq![c], t, c);
        assert(s.take(k) + seq![c] + t =~= s);
        assert(seq![c].drop_last() =~= Seq::<char>::empty());
        reveal_with_fuel(count_of, 2);
        assert(count_of(seq![c], c) == 1);
    }
}

/// A prefix holds a character at most as often as the whole.
pub proof fn lemma_count_take(s: Seq<char>, n: int, c: char)
    requires
        0 <= n <= s.len(),
    ensures
        count_of(s.take(n), c) <= count_of(s, c),
{
    lemma_count_concat(s.take(n), s.skip(n), c);
    assert(s.take(n) + s.skip(n) =~= s);
}

/// The empty text takes no bytes.
pub proof fn lemma_byte_len_empty()
    ensures
        byte_len(Seq::<char>::empty()) == 0,
{
}

/// Byte lengths add up over concatenation.
pub proof fn lemma_byte_len_concat(a: Seq<char>, b: Seq<char>)
    ensures
        encode_utf8(a + b) == encode_utf8(a) + encode_utf8(b),
        byte_len(a + b) == byte_len(a) + byte_len(b),
    decreases a.len(),
{
    if a.len() == 0 {
        assert(a + b =~= b);
        assert(encode_utf8(a) =~= Seq::empty());
        assert(encode_utf8(a) + encode_utf8(b) =~= encode_utf8(b));
    } else {
        let t = a.drop_first();
        lemma_byte_len_concat(t, b);
        assert((a + b).drop_first() =~= t + b);
        assert((a + b)[0] == a[0]);
        assert(encode_utf8(a + b) =~= encode_utf8(a) + encode_utf8(b));
    }
}

/// Two texts with the same bytes are the same text.
pub proof fn lemma_bytes_determine(a: Seq<char>, b: Seq<char>)
    requires
        encode_utf8(a) == encode_utf8(b),
    ensures
        a == b,
{
    encode_utf8_decode_utf8(a);
    encode_utf8_decode_utf8(b);
    assert(decode_utf8(encode_utf8(a)) == a);
}

/// The characters of a string, one per element.
pub fn to_chars(s: &str) -> (r: Vec<char>)
    ensures
        r@ == s@,
{
    let mut v: Vec<char> = Vec::new();
    for c in it: s.chars()
        invariant
            v@ == it.seq().take(it.index() as int),
            it.seq() == s@,
    {
        v.push(c);
    }
    v
}

/// The characters from `a` up to `b` as a string.
pub fn part(v: &Vec<char>, a: usize, b: usize) -> (r: String)
    requires
        a <= b <= v@.len(),
    ensures
        r@ == v@.subrange(a as int, b as int),
{
    let mut s = String::new();
    let mut i: usize = a;
    while i < b
        invariant
            a <= i <= b <= v@.len(),
            s@ == v@.subrange(a as int, i as int),
        decreases b - i,
    {
        s.push(v[i]);
        i += 1;
    }
    s
}

/// Length in UTF-8 bytes.
pub fn size(s: &str) -> (n: usize)
    ensures
        n == byte_len(s@),
{
    s.as_bytes().len()
}

/// Whether two strings hold the same text.
pub fn same(a: &str, b: &str) -> (r: bool)
    ensures
        r == (a@ == b@),
{
    let x = a.as_bytes();
    let y = b.as_bytes();
    if x.len() != y.len() {
        return false;
    }
    let mut i: usize = 0;
    while i < x.len()
        invariant
            i <= x@.len(),
            x@.len() == y@.len(),
            x@ == encode_utf8(a@),
            y@ == encode_utf8(b@),
            forall|k: int| 0 <= k < i ==> x@[k] == y@[k],
        decreases x@.len() - i,
    {
        if x[i] != y[i] {
            return false;
        }
        i += 1;
    }
    proof {
        assert(x@ =~= y@);
        lemma_bytes_determine(a@, b@);
    }
    true
}

/// Whether a character has the Unicode property `White_Space`.
pub fn is_space(c: char) -> (r: bool)
    ensures
        r == is_white_space(c),
{
    let n: u32 = c as u32;
    (9 <= n && n <= 13) || n == 0x20 || n == 0x85 || n == 0xa0 || n == 0x1680 || (0x2000 <= n && n
        <= 0x200a) || n == 0x2028 || n == 0x2029 || n == 0x202f || n == 0x205f || n == 0x3000
}

/// Copy of the text without white space on either side.
pub fn trim(s: &str) -> (r: String)
    ensures
        r@ == trim_of(s@),
{
    let v = to_chars(s);
    let mut i: usize = 0;
    while i < v.len() && is_space(v[i])
        invariant
            i <= v@.len(),
            v@ == s@,
            forall|k: int| 0 <= k < i ==> is_white_space(s@[k]),
        decreases v@.len() - i,
    {
        i += 1;
    }
    proof {
        lemma_trim_start(s@, i as int);
    }
    let mut j: usize = v.len();
    while i < j && is_space(v[j - 1])
        invariant
            i <= j <= v@.len(),
            v@ == s@,
            forall|k: int| j <= k < v@.len() ==> is_white_space(s@[k]),
        decreases j,
    {
        j -= 1;
    }
    proof {
        let t = s@.skip(i as int);
        assert(forall|k: int| j - i <= k < t.len() ==> t[k] == s@[k + i]);
        lemma_trim_end(t, j - i);
        assert(t.take(j - i) =~= s@.subrange(i as int, j as int));
    }
    part(&v, i, j)
}

/// Whether `p` stands in `s` at position `i`.
pub fn stands_at(s: &Vec<char>, p: &Vec<char>, i: usize) -> (r: bool)
    ensures
        r == has_at(s@, p@, i as int),
{
    let n: usize = s.len();
    if i > n || p.len() > n - i {
        return false;
    }
    let mut k: usize = 0;
    while k < p.len()
        invariant
            k <= p@.len(),
            n == s@.len(),
            i + p@.len() <= n,
            forall|m: int| 0 <= m < k ==> s@[i + m] == p@[m],
        decreases p@.len() - k,
    {
        if s[i + k] != p[k] {
            proof {
                assert(s@.subrange(i as int, i + p@.len())[k as int] != p@[k as int]);
            }
            return false;
        }
        k += 1;
    }
    assert(s@.subrange(i as int, i + p@.len()) =~= p@);
    true
}

/// First position at or after `from` at which `p` stands in `s`.
pub fn find_from(s: &Vec<char>, p: &Vec<char>, from: usize) -> (r: Option<usize>)
    ensures
        match r {
            Some(i) => from <= i && has_at(s@, p@, i as int) && forall|j: int|
                from <= j < i ==> !has_at(s@, p@, j),
            None => forall|j: int| from <= j ==> !has_at(s@, p@, j),
        },
{
    let n: usize = s.len();
    let mut i: usize = from;
    while i <= n
        invariant
            from <= i,
            n == s@.len(),
            forall|j: int| from <= j < i ==> !has_at(s@, p@, j),
        decreases n + 1 - i,
    {
        if stands_at(s, p, i) {
            return Some(i);
        }
        if i == n {
            return None;
        }
        i += 1;
    }
    None
}

/// Whether the text `p` stands somewhere in the text `s`.
pub fn contains(s: &str, p: &str) -> (r: bool)
    ensures
        r == occurs(s@, p@),
{
    let sv = to_chars(s);
    let pv = to_chars(p);
    match find_from(&sv, &pv, 0) {
        Some(_) => true,
        None => false,
    }
}

/// Whether the text `s` begins with the text `p`.
pub fn starts_with(s: &str, p: &str) -> (r: bool)
    ensures
        r == begins(s@, p@),
{
    let sv = to_chars(s);
    let pv = to_chars(p);
    stands_at(&sv, &pv, 0)
}

/// At most the first `n` characters of the text.
pub fn take_chars(s: &str, n: usize) -> (r: String)
    ensures
        r@ == head(s@, n as nat),
{
    let v = to_chars(s);
    let m: usize = if n < v.len() {
        n
    } else {
        v.len()
    };
    assert(s@.subrange(0, m as int) =~= head(s@, n as nat));
    part(&v, 0, m)
}

/// The lines of the text, without their endings.
pub fn lines(s: &str) -> (r: Vec<String>)
    ensures
        texts(r@) == lines_of(s@),
{
    let v = to_chars(s);
    let mut out: Vec<String> = Vec::new();
    let mut start: usize = 0;
    let mut i: usize = 0;
    assert(s@.skip(0) =~= s@);
    assert(texts(out@) =~= Seq::empty());
    assert(texts(out@) + lines_of(s@.skip(0)) =~= lines_of(s@));
    while i < v.len()
        invariant
            start <= i <= v@.len(),
            v@ == s@,
            forall|k: int| start <= k < i ==> s@[k] != '\n',
            texts(out@) + lines_of(s@.skip(start as int)) == lines_of(s@),
        decreases v@.len() - i,
    {
        if v[i] == '\n' {
            let end: usize = if i > start && v[i - 1] == '\r' {
                i - 1
            } else {
                i
            };
            let ghost rest = s@.skip(start as int);
            let ghost before = texts(out@);
            let line = part(&v, start, end);
            proof {
                lemma_find_char_is(rest, '\n', i - start);
                assert(rest.take(i - start) =~= s@.subrange(start as int, i as int));
                assert(without_cr(rest.take(i - start)) =~= line@);
                assert(rest.skip(i - start + 1) =~= s@.skip(i + 1));
                assert(lines_of(rest) == seq![line@] + lines_of(s@.skip(i + 1)));
            }
            out.push(line);
            proof {
                assert(texts(out@) =~= before + seq![line@]);
                assert(texts(out@) + lines_of(s@.skip(i + 1)) =~= before + lines_of(rest));
            }
            start = i + 1;
        }
        i += 1;
    }
    let ghost rest = s@.skip(start as int);
    if start < v.len() {
        let ghost before = texts(out@);
        let line = part(&v, start, v.len());
        proof {
            lemma_find_char_is(rest, '\n', rest.len() as int);
            assert(rest =~= line@);
        }
        out.push(line);
        assert(texts(out@) =~= before + seq![rest]);
    } else {
        assert(rest.len() == 0);
        assert(texts(out@) + lines_of(rest) =~= texts(out@));
    }
    out
}

/// The pieces of the text between the separators `c`.
pub fn split(s: &str, c: char) -> (r: Vec<String>)
    ensures
        texts(r@) == split_of(s@, c),
        r@.len() > 0,
{
    let v = to_chars(s);
    let mut out: Vec<String> = Vec::new();
    let mut start: usize = 0;
    let mut i: usize = 0;
    assert(s@.skip(0) =~= s@);
    assert(texts(out@) + split_of(s@.skip(0), c) =~= split_of(s@, c));
    while i < v.len()
        invariant
            start <= i <= v@.len(),
            v@ == s@,
            forall|k: int| start <= k < i ==> s@[k] != c,
            texts(out@) + split_of(s@.skip(start as int), c) == split_of(s@, c),
        decreases v@.len() - i,
    {
        if v[i] == c {
            let ghost rest = s@.skip(start as int);
            let ghost before = texts(out@);
            let piece = part(&v, start, i);
            proof {
                lemma_find_char_is(rest, c, i - start);
                assert(rest.take(i - start) =~= piece@);
                assert(rest.skip(i - start + 1) =~= s@.skip(i + 1));
                assert(split_of(rest, c) == seq![piece@] + split_of(s@.skip(i + 1), c));
            }
            out.push(piece);
            proof {
                assert(texts(out@) =~= before + seq![piece@]);
                assert(texts(out@) + split_of(s@.skip(i + 1), c) =~= before + split_of(rest, c));
            }
            start = i + 1;
        }
        i += 1;
    }
    let ghost rest = s@.skip(start as int);
    let ghost before = texts(out@);
    let piece = part(&v, start, v.len());
    proof {
        lemma_find_char_is(rest, c, rest.len() as int);
        assert(rest =~= piece@);
    }
    out.push(piece);
    assert(texts(out@) =~= before + seq![rest]);
    out
}

/// The maximal runs of the text that hold no white space.
pub fn words(s: &str) -> (r: Vec<String>)
    ensures
        texts(r@) == words_of(s@),
{
    let v = to_chars(s);
    let mut out: Vec<String> = Vec::new();
    let mut i: usize = 0;
    assert(s@.skip(0) =~= s@);
    assert(texts(out@) + words_of(s@.skip(0)) =~= words_of(s@));
    while i < v.len()
        invariant
            i <= v@.len(),
            v@ == s@,
            texts(out@) + words_of(s@.skip(i as int)) == words_of(s@),
        decreases v@.len() - i,
    {
        let ghost rest = s@.skip(i as int);
        let mut a: usize = i;
        while a < v.len() && is_space(v[a])
            invariant
                i <= a <= v@.len(),
                v@ == s@,
                forall|k: int| i <= k < a ==> is_white_space(s@[k]),
            decreases v@.len() - a,
        {
            a += 1;
        }
        let mut b: usize = a;
        while b < v.len() && !is_space(v[b])
            invariant
                a <= b <= v@.len(),
                v@ == s@,
                forall|k: int| a <= k < b ==> !is_white_space(s@[k]),
            decreases v@.len() - b,
        {
            b += 1;
        }
        proof {
            assert(forall|k: int| 0 <= k < rest.len() ==> rest[k] == s@[k + i]);
            lemma_trim_start(rest, a - i);
            assert(rest.skip(a - i) =~= s@.skip(a as int));
            let t = s@.skip(a as int);
            assert(forall|k: int| 0 <= k < t.len() ==> t[k] == s@[k + a]);
            lemma_word_len_is(t, b - a);
            assert(t.take(b - a) =~= s@.subrange(a as int, b as int));
            assert(t.skip(b - a) =~= s@.skip(b as int));
        }
        if a < b {
            let ghost before = texts(out@);
            let word = part(&v, a, b);
            out.push(word);
            proof {
                assert(texts(out@) =~= before + seq![word@]);
                assert(words_of(rest) == seq![word@] + words_of(s@.skip(b as int)));
                assert(texts(out@) + words_of(s@.skip(b as int)) =~= before + words_of(rest));
            }
        } else {
            assert(words_of(rest) =~= words_of(s@.skip(b as int)));
        }
        i = b;
    }
    assert(s@.skip(i as int) =~= Seq::empty());
    assert(words_of(Seq::<char>::empty()) =~= Seq::empty());
    assert(texts(out@) + Seq::empty() =~= texts(out@));
    out
}

/// How often `c` stands among the first `n` characters.
pub fn count_before(v: &Vec<char>, n: usize, c: char) -> (r: usize)
    requires
        n <= v@.len(),
    ensures
        r == count_of(v@.take(n as int), c),
        r <= n,
{
    let mut r: usize = 0;
    let mut i: usize = 0;
    assert(v@.take(0) =~= Seq::empty());
    while i < n
        invariant
            i <= n <= v@.len(),
            r <= i,
            r == count_of(v@.take(i as int), c),
        decreases n - i,
    {
        assert(v@.take(i + 1).drop_last() =~= v@.take(i as int));
        if v[i] == c {
            r += 1;
        }
        i += 1;
    }
    r
}

/// Each of the lines from `a` up to `b` behind the prefix and with a line feed.
pub fn prefixed(p: &str, ls: &Vec<String>, a: usize, b: usize) -> (r: String)
    requires
        a <= b <= ls@.len(),
    ensures
        r@ == prefixed_of(p@, texts(ls@).subrange(a as int, b as int)),
{
    let mut out = String::new();
    let ghost all = texts(ls@);
    let mut i: usize = a;
    assert(all.subrange(a as int, a as int) =~= Seq::empty());
    while i < b
        invariant
            a <= i <= b <= ls@.len(),
            all == texts(ls@),
            out@ == prefixed_of(p@, all.subrange(a as int, i as int)),
        decreases b - i,
    {
        proof {
            assert(all.subrange(a as int, i + 1).drop_last() =~= all.subrange(a as int, i as int));
            assert(all.subrange(a as int, i + 1).last() == ls@[i as int]@);
        }
        out.append(p);
        out.append(ls[i].as_str());
        out.push('\n');
        assert(out@ =~= prefixed_of(p@, all.subrange(a as int, i + 1)));
        i += 1;
    }
    out
}

/// The parts in order with `sep` between neighbours.
pub fn join(parts: &Vec<String>, sep: &str) -> (r: String)
    ensures
        r@ == join_of(texts(parts@), sep@),
{
    let mut out = String::new();
    let ghost all = texts(parts@);
    let mut i: usize = 0;
    assert(all.take(0) =~= Seq::empty());
    while i < parts.len()
        invariant
            i <= parts@.len(),
            all == texts(parts@),
            out@ == join_of(all.take(i as int), sep@),
        decreases parts@.len() - i,
    {
        proof {
            assert(all.take(i + 1).drop_last() =~= all.take(i as int));
            assert(all.take(i + 1).last() == parts@[i as int]@);
        }
        if i > 0 {
            out.append(sep);
        }
        out.append(parts[i].as_str());
        assert(out@ =~= join_of(all.take(i + 1), sep@));
        i += 1;
    }
    assert(all.take(i as int) =~= all);
    out
}

fn digit(d: u128) -> (c: char)
    requires
        d < 10,
    ensures
        c == digit_of(d as nat),
{
    let b: u8 = 48u8 + d as u8;
    b as char
}

/// The decimal numeral of a number.
pub fn decimal(n: u128) -> (r: String)
    ensures
        r@ == decimal_of(n as nat),
    decreases n,
{
    if n < 10 {
        let mut s = String::new();
        s.push(digit(n));
        assert(s@ =~= seq![digit_of(n as nat)]);
        s
    } else {
        let mut s = decimal(n / 10);
        s.push(digit(n % 10));
        s
    }
}

/// The decimal numeral of a signed number.
pub fn signed(n: i64) -> (r: String)
    ensures
        r@ == signed_of(n as int),
{
    if n < 0 {
        let mut s = String::new();
        s.push('-');
        let m: i128 = -(n as i128);
        let d = decimal(m as u128);
        s.append(d.as_str());
        assert(s@ =~= signed_of(n as int));
        s
    } else {
        decimal(n as u128)
    }
}

/// An ASCII capital letter as a small one, any other character as it is.
pub open spec fn lower_char_of(c: char) -> char {
    if 'A' <= c && c <= 'Z' {
        (c as u32 + 32) as char
    } else {
        c
    }
}

/// The text with its ASCII capital letters made small.
pub open spec fn ascii_lower_of(s: Seq<char>) -> Seq<char> {
    Seq::new(s.len(), |i: int| lower_char_of(s[i]))
}

/// An ASCII capital letter as a small one, any other character as it is.
pub fn lower_char(c: char) -> (r: char)
    ensures
        r == lower_char_of(c),
{
    if 'A' <= c && c <= 'Z' {
        let b: u8 = c as u8 + 32;
        b as char
    } else {
        c
    }
}

/// Number of bytes of one character in UTF-8.
pub open spec fn char_size_of(c: char) -> nat {
    vstd::utf8::encode_scalar(c as u32).len()
}

/// Number of bytes of one character in UTF-8.
pub fn char_size(c: char) -> (n: usize)
    ensures
        n == char_size_of(c),
{
    let u: u32 = c as u32;
    if u <= 0x7f {
        1
    } else if u <= 0x7ff {
        2
    } else if u <= 0xffff {
        3
    } else {
        4
    }
}

/// The longest prefix of `s` that takes at most `room` bytes.
pub open spec fn fit_of(s: Seq<char>, room: int) -> Seq<char>
    decreases s.len(),
{
    if s.len() == 0 || char_size_of(s[0]) > room {
        Seq::empty()
    } else {
        seq![s[0]] + fit_of(s.drop_first(), room - char_size_of(s[0]))
    }
}

/// A fitting prefix keeps within its room and is a prefix.
pub proof fn lemma_fit(s: Seq<char>, room: int)
    requires
        room >= 0,
    ensures
        byte_len(fit_of(s, room)) <= room,
        fit_of(s, room).len() <= s.len(),
        fit_of(s, room) == s.take(fit_of(s, room).len() as int),
    decreases s.len(),
{
    if s.len() == 0 || char_size_of(s[0]) > room {
        lemma_byte_len_empty();
        assert(s.take(0) =~= Seq::empty());
    } else {
        let t = s.drop_first();
        let m = room - char_size_of(s[0]);
        lemma_fit(t, m);
        let f = fit_of(t, m);
        lemma_byte_len_concat(seq![s[0]], f);
        reveal_with_fuel(encode_utf8, 2);
        assert(seq![s[0]].drop_first() =~= Seq::<char>::empty());
        assert(encode_utf8(seq![s[0]]) =~= vstd::utf8::encode_scalar(s[0] as u32));
        assert(seq![s[0]] + f =~= s.take(1 + f.len() as int)) by {
            assert(forall|i: int| 0 <= i < f.len() ==> f[i] == t[i]);
        }
    }
}

/// The longest prefix of the text that takes at most `room` bytes.
pub fn fit(s: &str, room: usize) -> (r: String)
    ensures
        r@ == fit_of(s@, room as int),
{
    let v = to_chars(s);
    let mut out = String::new();
    let mut left: usize = room;
    let mut i: usize = 0;
    assert(s@.skip(0) =~= s@);
    assert(out@ + fit_of(s@, room as int) =~= fit_of(s@, room as int));
    while i < v.len() && char_size(v[i]) <= left
        invariant
            i <= v@.len(),
            v@ == s@,
            out@ + fit_of(s@.skip(i as int), left as int) == fit_of(s@, room as int),
        decreases v@.len() - i,
    {
        let ghost rest = s@.skip(i as int);
        let ghost before = out@;
        assert(rest.drop_first() =~= s@.skip(i + 1));
        assert(rest[0] == v@[i as int]);
        let n: usize = char_size(v[i]);
        out.push(v[i]);
        assert(out@ + fit_of(s@.skip(i + 1), left - n) =~= before + fit_of(rest, left as int));
        left -= n;
        i += 1;
    }
    assert(fit_of(s@.skip(i as int), left as int) =~= Seq::empty()) by {
        if i < v@.len() {
            assert(s@.skip(i as int)[0] == v@[i as int]);
        }
    }
    assert(out@ + Seq::empty() =~= out@);
    out
}

/// The two texts one after the other.
pub fn cat(a: &str, b: &str) -> (r: String)
    ensures
        r@ == a@ + b@,
{
    let mut s = String::new();
    s.append(a);
    s.append(b);
    s
}

/// A copy of the text, where there is one.
pub fn copy_text(t: &Option<String>) -> (r: Option<String>)
    ensures
        text_view(r) == text_view(*t),
{
    match t {
        Some(s) => Some(s.clone()),
        None => None,
    }
}

/// A copy of a list of strings.
pub fn copy_texts(v: &Vec<String>) -> (r: Vec<String>)
    ensures
        texts(r@) == texts(v@),
{
    let mut out: Vec<String> = Vec::new();
    let mut i: usize = 0;
    while i < v.len()
        invariant
            i <= v@.len(),
            out@.len() == i,
            forall|k: int| 0 <= k < i ==> (#[trigger] out@[k])@ == v@[k]@,
        decreases v@.len() - i,
    {
        out.push(v[i].clone());
        i += 1;
    }
    assert(texts(out@) =~= texts(v@));
    out
}

/// The texts `ps` stand in `s` at the positions `at`, one behind the other.
pub open spec fn in_order_at(s: Seq<char>, ps: Seq<Seq<char>>, at: Seq<int>) -> bool {
    &&& at.len() == ps.len()
    &&& forall|k: int| 0 <= k < ps.len() ==> has_at(s, ps[k], #[trigger] at[k])
    &&& forall|j: int, k: int|
        0 <= j < k < ps.len() ==> #[trigger] at[j] + ps[j].len() <= #[trigger] at[k]
}

/// The texts `ps` stand in `s` one behind the other, in this order and without overlap.
pub open spec fn in_order(s: Seq<char>, ps: Seq<Seq<char>>) -> bool {
    exists|at: Seq<int>| in_order_at(s, ps, at)
}

/// No texts stand in any text.
pub proof fn lemma_in_order_none(s: Seq<char>)
    ensures
        in_order(s, Seq::empty()),
{
    assert(in_order_at(s, Seq::empty(), Seq::empty()));
}

/// What stands in a text in order stands so in a text around it.
pub proof fn lemma_in_order_around(a: Seq<char>, s: Seq<char>, b: Seq<char>, ps: Seq<Seq<char>>)
    requires
        in_order(s, ps),
    ensures
        in_order(a + s + b, ps),
{
    let at = choose|at: Seq<int>| in_order_at(s, ps, at);
    let to = Seq::new(at.len(), |k: int| at[k] + a.len());
    assert forall|k: int| 0 <= k < ps.len() implies has_at(a + s + b, ps[k], #[trigger] to[k]) by {
        assert(has_at(s, ps[k], at[k]));
        assert((a + s + b).subrange(to[k], to[k] + ps[k].len()) =~= s.subrange(
            at[k],
            at[k] + ps[k].len(),
        ));
    }
    assert forall|j: int, k: int| 0 <= j < k < ps.len() implies #[trigger] to[j] + ps[j].len()
        <= #[trigger] to[k] by {
        assert(at[j] + ps[j].len() <= at[k]);
    }
    assert(in_order_at(a + s + b, ps, to));
}

/// What stands in order in two texts stands so in the one before the other.
pub proof fn lemma_in_order_concat(a: Seq<char>, b: Seq<char>, ps: Seq<Seq<char>>, qs: Seq<Seq<char>>)
    requires
        in_order(a, ps),
        in_order(b, qs),
    ensures
        in_order(a + b, ps + qs),
{
    let x = choose|at: Seq<int>| in_order_at(a, ps, at);
    let y = choose|at: Seq<int>| in_order_at(b, qs, at);
    let all = ps + qs;
    let to = Seq::new(
        all.len(),
        |k: int|
            if k < ps.len() {
                x[k]
            } else {
                y[k - ps.len()] + a.len()
            },
    );
    assert forall|k: int| 0 <= k < all.len() implies has_at(a + b, all[k], #[trigger] to[k]) by {
        if k < ps.len() {
            assert(has_at(a, ps[k], x[k]));
            assert((a + b).subrange(x[k], x[k] + ps[k].len()) =~= a.subrange(
                x[k],
                x[k] + ps[k].len(),
            ));
        } else {
            let i = k - ps.len();
            assert(has_at(b, qs[i], y[i]));
            assert((a + b).subrange(to[k], to[k] + qs[i].len()) =~= b.subrange(
                y[i],
                y[i] + qs[i].len(),
            ));
        }
    }
    assert forall|j: int, k: int| 0 <= j < k < all.len() implies #[trigger] to[j] + all[j].len()
        <= #[trigger] to[k] by {
        if k < ps.len() {
            assert(x[j] + ps[j].len() <= x[k]);
        } else if j >= ps.len() {
            assert(y[j - ps.len()] + qs[j - ps.len()].len() <= y[k - ps.len()]);
        } else {
            assert(has_at(a, ps[j], x[j]));
            assert(has_at(b, qs[k - ps.len()], y[k - ps.len()]));
        }
    }
    assert(in_order_at(a + b, all, to));
}

/// A text stands in itself.
pub proof fn lemma_in_order_itself(s: Seq<char>)
    ensures
        in_order(s, seq![s]),
{
    assert(s.subrange(0, s.len() as int) =~= s);
    assert(in_order_at(s, seq![s], seq![0int]));
}

/// A further text behind those that stand in order.
pub proof fn lemma_in_order_push(s: Seq<char>, ps: Seq<Seq<char>>, a: Seq<char>, p: Seq<char>, b: Seq<char>)
    requires
        in_order(s, ps),
    ensures
        in_order(s + a + p + b, ps.push(p)),
{
    lemma_in_order_itself(p);
    lemma_in_order_around(a, p, b, seq![p]);
    lemma_in_order_concat(s, a + p + b, ps, seq![p]);
    assert(ps + seq![p] =~= ps.push(p));
    assert(s + (a + p + b) =~= s + a + p + b);
}

/// Each of the texts that stand in order occurs.
pub proof fn lemma_in_order_occurs(s: Seq<char>, ps: Seq<Seq<char>>, k: int)
    requires
        in_order(s, ps),
        0 <= k < ps.len(),
    ensures
        occurs(s, ps[k]),
{
    let at = choose|at: Seq<int>| in_order_at(s, ps, at);
    assert(has_at(s, ps[k], at[k]));
}

/// Parts that are joined stand in order in what they are joined to, and nothing but the
/// separators is added.
pub proof fn law_joining_keeps_the_parts(parts: Seq<Seq<char>>, sep: Seq<char>)
    ensures
        in_order(join_of(parts, sep), parts),
        parts.len() > 0 ==> join_of(parts, sep).len() == total_len(parts) + (parts.len() - 1)
            * sep.len(),
        parts.len() == 0 ==> join_of(parts, sep).len() == 0,
    decreases parts.len(),
{
    if parts.len() == 0 {
        lemma_in_order_none(join_of(parts, sep));
        assert(parts =~= Seq::empty());
    } else if parts.len() == 1 {
        lemma_in_order_itself(parts[0]);
        assert(parts =~= seq![parts[0]]);
        assert(parts.drop_last() =~= Seq::empty());
        assert(total_len(parts) == total_len(parts.drop_last()) + parts.last().len());
        assert(0 * sep.len() == 0) by (nonlinear_arith);
    } else {
        let front = parts.drop_last();
        law_joining_keeps_the_parts(front, sep);
        lemma_in_order_push(join_of(front, sep), front, sep, parts.last(), Seq::empty());
        assert(front.push(parts.last()) =~= parts);
        assert(join_of(front, sep) + sep + parts.last() + Seq::empty() =~= join_of(parts, sep));
        let n = parts.len() as int;
        let m = sep.len() as int;
        assert((n - 1) * m == (n - 2) * m + m) by (nonlinear_arith);
    }
}

/// Number of characters of texts, taken together.
pub open spec fn total_len(ps: Seq<Seq<char>>) -> nat
    decreases ps.len(),
{
    if ps.len() == 0 {
        0
    } else {
        total_len(ps.drop_last()) + ps.last().len()
    }
}

/// Splitting at a character takes nothing away but that character: no piece holds it, and
/// the pieces joined by it are the text.
pub proof fn law_splitting_and_joining(s: Seq<char>, c: char)
    ensures
        split_of(s, c).len() == count_of(s, c) + 1,
        forall|i: int| 0 <= i < split_of(s, c).len() ==> has_no(#[trigger] split_of(s, c)[i], c),
        join_of(split_of(s, c), seq![c]) == s,
    decreases s.len(),
{
    lemma_split_len(s, c);
    lemma_find_char(s, c);
    let k = find_char(s, c);
    if k < s.len() {
        let rest = s.skip(k + 1);
        law_splitting_and_joining(rest, c);
        let all = split_of(s, c);
        assert forall|i: int| 0 <= i < all.len() implies has_no(#[trigger] all[i], c) by {
            if i > 0 {
                assert(all[i] == split_of(rest, c)[i - 1]);
            }
        }
        lemma_join_cons(s.take(k), split_of(rest, c), seq![c]);
        assert(s.take(k) + seq![c] + rest =~= s);
    }
}

/// Joining from the front.
pub proof fn lemma_join_cons(p: Seq<char>, ps: Seq<Seq<char>>, sep: Seq<char>)
    requires
        ps.len() > 0,
    ensures
        join_of(seq![p] + ps, sep) == p + sep + join_of(ps, sep),
    decreases ps.len(),
{
    let all = seq![p] + ps;
    assert(all.drop_last() =~= seq![p] + ps.drop_last());
    if ps.len() > 1 {
        lemma_join_cons(p, ps.drop_last(), sep);
        assert(p + sep + join_of(ps.drop_last(), sep) + sep + ps.last() =~= p + sep + (join_of(
            ps.drop_last(),
            sep,
        ) + sep + ps.last()));
    } else {
        assert(all.drop_last() =~= seq![p]);
        assert(join_of(seq![p], sep) == p);
        assert(join_of(ps, sep) == ps[0]);
    }
}

/// The lines of a text hold no line feed, and without carriage returns they are the text but
/// for its last line feed: joined by line feeds they are the text, or the text without the
/// line feed at its end.
pub proof fn law_lines_are_the_text(s: Seq<char>)
    ensures
        forall|i: int| 0 <= i < lines_of(s).len() ==> has_no(#[trigger] lines_of(s)[i], '\n'),
        has_no(s, '\r') ==> join_of(lines_of(s), seq!['\n']) == (if s.len() > 0 && s.last() == '\n' {
            s.drop_last()
        } else {
            s
        }),
        lines_of(s).len() == count_of(s, '\n') + (if s.len() > 0 && s.last() != '\n' {
            1nat
        } else {
            0nat
        }),
    decreases s.len(),
{
    lemma_find_char(s, '\n');
    let k = find_char(s, '\n');
    if s.len() == 0 {
    } else if k >= s.len() {
        lemma_count_none(s, '\n');
        assert(s.last() != '\n');
    } else {
        let rest = s.skip(k + 1);
        let first = without_cr(s.take(k));
        law_lines_are_the_text(rest);
        let all = lines_of(s);
        assert(all == seq![first] + lines_of(rest));
        assert forall|i: int| 0 <= i < all.len() implies has_no(#[trigger] all[i], '\n') by {
            if i > 0 {
                assert(all[i] == lines_of(rest)[i - 1]);
            }
        }
        assert(s =~= s.take(k) + seq!['\n'] + rest);
        lemma_count_concat(s.take(k) + seq!['\n'], rest, '\n');
        lemma_count_concat(s.take(k), seq!['\n'], '\n');
        lemma_count_none(s.take(k), '\n');
        assert(seq!['\n'].drop_last() =~= Seq::<char>::empty());
        assert(count_of(seq!['\n'], '\n') == count_of(seq!['\n'].drop_last(), '\n') + 1);
        if rest.len() > 0 {
            assert(rest.last() == s.last());
        } else {
            assert(rest =~= Seq::empty());
            assert(s.last() == '\n');
        }
        if has_no(s, '\r') {
            assert(first == s.take(k)) by {
                if k > 0 {
                    assert(s.take(k).last() == s[k - 1]);
                }
            }
            assert(has_no(rest, '\r')) by {
                assert forall|i: int| 0 <= i < rest.len() implies #[trigger] rest[i] != '\r' by {
                    assert(rest[i] == s[i + k + 1]);
                }
            }
            if rest.len() > 0 {
                assert(lines_of(rest).len() > 0) by {
                    lemma_find_char(rest, '\n');
                }
                lemma_join_cons(first, lines_of(rest), seq!['\n']);
                if s.last() == '\n' {
                    assert(first + seq!['\n'] + rest.drop_last() =~= s.drop_last());
                } else {
                    assert(first + seq!['\n'] + rest =~= s);
                }
            } else {
                assert(all =~= seq![first]);
                assert(first =~= s.drop_last());
            }
        }
    }
}

/// The number that a row of decimal digits stands for.
pub open spec fn number_of(s: Seq<char>) -> nat
    decreases s.len(),
{
    if s.len() == 0 {
        0
    } else {
        10 * number_of(s.drop_last()) + (s.last() as int - 48) as nat
    }
}

/// A numeral is digits only, and read from left to right they give the number back; so no two
/// numbers have the same numeral.
pub proof fn law_numerals_are_read_back(n: nat)
    ensures
        decimal_of(n).len() > 0,
        forall|i: int| 0 <= i < decimal_of(n).len() ==> '0' <= #[trigger] decimal_of(n)[i] <= '9',
        number_of(decimal_of(n)) == n,
        decimal_of(n).len() > 1 ==> decimal_of(n)[0] != '0',
    decreases n,
{
    let all = decimal_of(n);
    if n < 10 {
        assert(all.drop_last() =~= Seq::empty());
        assert(all.last() as int == 48 + n);
        assert(number_of(all) == 10 * number_of(all.drop_last()) + n);
    } else {
        law_numerals_are_read_back(n / 10);
        let front = decimal_of(n / 10);
        assert(all.drop_last() =~= front);
        assert(all.last() as int == 48 + n % 10);
        assert(number_of(all) == 10 * number_of(front) + n % 10);
        if front.len() == 1 {
            assert(front[0] != '0') by {
                assert(front == decimal_of(n / 10));
                if n / 10 >= 10 {
                    assert(decimal_of(n / 10 / 10).len() > 0) by {
                        law_numerals_are_read_back(n / 10 / 10);
                    }
                }
            }
        }
    }
}

/// The characters of a text that are not white space.
pub open spec fn solid(s: Seq<char>) -> Seq<char> {
    s.filter(|c: char| !is_white_space(c))
}

/// What is not white space in a text is that of its parts.
pub proof fn lemma_solid_concat(a: Seq<char>, b: Seq<char>)
    ensures
        solid(a + b) == solid(a) + solid(b),
{
    Seq::filter_distributes_over_add(a, b, |c: char| !is_white_space(c));
}

/// White space alone has nothing that is not white space.
pub proof fn lemma_solid_blank(s: Seq<char>)
    requires
        forall|i: int| 0 <= i < s.len() ==> is_white_space(#[trigger] s[i]),
    ensures
        solid(s) == Seq::<char>::empty(),
    decreases s.len(),
{
    reveal(Seq::filter);
    if s.len() > 0 {
        let front = s.drop_last();
        assert forall|i: int| 0 <= i < front.len() implies is_white_space(#[trigger] front[i]) by {
            assert(front[i] == s[i]);
        }
        lemma_solid_blank(front);
        assert(is_white_space(s[s.len() - 1]));
    }
}

/// A text without white space is all that.
pub proof fn lemma_solid_full(s: Seq<char>)
    requires
        forall|i: int| 0 <= i < s.len() ==> !is_white_space(#[trigger] s[i]),
    ensures
        solid(s) == s,
    decreases s.len(),
{
    reveal(Seq::filter);
    if s.len() > 0 {
        let front = s.drop_last();
        assert forall|i: int| 0 <= i < front.len() implies !is_white_space(#[trigger] front[i]) by {
            assert(front[i] == s[i]);
        }
        lemma_solid_full(front);
        assert(!is_white_space(s[s.len() - 1]));
        assert(front.push(s.last()) =~= s);
    }
}

/// White space around a stretch of a text takes nothing else away.
pub proof fn lemma_solid_inside(s: Seq<char>, a: int, b: int)
    requires
        0 <= a <= b <= s.len(),
        forall|i: int| 0 <= i < a ==> is_white_space(#[trigger] s[i]),
        forall|i: int| b <= i < s.len() ==> is_white_space(#[trigger] s[i]),
    ensures
        solid(s.subrange(a, b)) == solid(s),
{
    let mid = s.subrange(a, b);
    let front = s.take(a);
    let back = s.skip(b);
    assert forall|i: int| 0 <= i < back.len() implies is_white_space(#[trigger] back[i]) by {
        assert(back[i] == s[b + i]);
    }
    lemma_solid_blank(front);
    lemma_solid_blank(back);
    lemma_solid_concat(front, mid);
    lemma_solid_concat(front + mid, back);
    assert(front + mid + back =~= s);
    assert(Seq::empty() + solid(mid) + Seq::empty() =~= solid(mid));
}

/// Trimming takes only white space away.
pub proof fn lemma_solid_trim(s: Seq<char>)
    ensures
        solid(trim_of(s)) == solid(s),
{
    let r = lemma_trim_range(s);
    lemma_solid_inside(s, r.0, r.1);
}

/// Texts that agree but for white space agree so when they are joined by it.
pub proof fn lemma_solid_join(a: Seq<Seq<char>>, b: Seq<Seq<char>>, sep: Seq<char>)
    requires
        a.len() == b.len(),
        forall|i: int| 0 <= i < a.len() ==> solid(#[trigger] a[i]) == solid(b[i]),
    ensures
        solid(join_of(a, sep)) == solid(join_of(b, sep)),
    decreases a.len(),
{
    if a.len() > 1 {
        let x = a.drop_last();
        let y = b.drop_last();
        assert forall|i: int| 0 <= i < x.len() implies solid(#[trigger] x[i]) == solid(y[i]) by {
            assert(x[i] == a[i]);
        }
        lemma_solid_join(x, y, sep);
        lemma_solid_concat(join_of(x, sep), sep);
        lemma_solid_concat(join_of(x, sep) + sep, a.last());
        lemma_solid_concat(join_of(y, sep), sep);
        lemma_solid_concat(join_of(y, sep) + sep, b.last());
        assert(a[a.len() - 1] == a.last());
    } else if a.len() == 1 {
        assert(solid(a[0]) == solid(b[0]));
    }
}

/// The words of a text are the runs without white space in it, and nothing else is lost: no
/// word is empty or holds white space, and joined by spaces they have the same characters that
/// are not white space, in the same order.
pub proof fn law_words_are_the_text(s: Seq<char>)
    ensures
        forall|i: int|
            0 <= i < words_of(s).len() ==> (#[trigger] words_of(s)[i]).len() > 0 && solid(words_of(s)[i])
                == words_of(s)[i],
        solid(join_of(words_of(s), seq![' '])) == solid(s),
    decreases s.len(),
{
    let r = lemma_trim_start_at(s, 0);
    lemma_trim_start(s, r);
    let t = trim_start_of(s);
    assert(t == s.skip(r));
    lemma_solid_inside(s, r, s.len() as int);
    assert(s.subrange(r, s.len() as int) =~= t);
    if t.len() == 0 {
        assert(words_of(s) =~= Seq::empty());
        assert(join_of(words_of(s), seq![' ']) =~= t);
    } else {
        lemma_trim_start_len(s);
        lemma_word_len(t);
        let k = word_len(t);
        let word = t.take(k);
        let rest = t.skip(k);
        assert(rest.len() < s.len());
        law_words_are_the_text(rest);
        assert forall|i: int| 0 <= i < word.len() implies !is_white_space(#[trigger] word[i]) by {
            assert(word[i] == t[i]);
        }
        lemma_solid_full(word);
        let all = words_of(s);
        assert(all == seq![word] + words_of(rest));
        assert forall|i: int| 0 <= i < all.len() implies (#[trigger] all[i]).len() > 0 && solid(all[i])
            == all[i] by {
            if i > 0 {
                assert(all[i] == words_of(rest)[i - 1]);
            }
        }
        lemma_solid_concat(word, rest);
        assert(word + rest =~= t);
        lemma_solid_blank(seq![' ']);
        if words_of(rest).len() > 0 {
            lemma_join_cons(word, words_of(rest), seq![' ']);
            lemma_solid_concat(word, seq![' ']);
            lemma_solid_concat(word + seq![' '], join_of(words_of(rest), seq![' ']));
            assert(word + Seq::empty() + solid(rest) =~= word + solid(rest));
        } else {
            assert(all =~= seq![word]);
            lemma_solid_blank(Seq::empty());
            assert(solid(rest) == Seq::<char>::empty());
            assert(word + Seq::empty() =~= word);
        }
    }
}

/// A text stands in one that is made around it.
pub proof fn lemma_occurs_between(a: Seq<char>, p: Seq<char>, b: Seq<char>)
    ensures
        occurs(a + p + b, p),
{
    lemma_in_order_itself(p);
    lemma_in_order_around(a, p, b, seq![p]);
    lemma_in_order_occurs(a + p + b, seq![p], 0);
}

/// Each line with a mark before it and a line feed behind it.
pub open spec fn marked(p: Seq<char>, ls: Seq<Seq<char>>) -> Seq<Seq<char>> {
    Seq::new(ls.len(), |i: int| p + ls[i] + seq!['\n'])
}

/// Lines behind a prefix are all there, each with the prefix before it, and in their order.
pub proof fn law_prefixed_lines_are_all_there(p: Seq<char>, ls: Seq<Seq<char>>)
    ensures
        in_order(prefixed_of(p, ls), marked(p, ls)),
        prefixed_of(p, ls).len() == total_len(ls) + ls.len() * (p.len() + 1),
    decreases ls.len(),
{
    if ls.len() == 0 {
        lemma_in_order_none(prefixed_of(p, ls));
        assert(marked(p, ls) =~= Seq::empty());
        assert(0 * (p.len() + 1) == 0) by (nonlinear_arith);
    } else {
        let front = ls.drop_last();
        law_prefixed_lines_are_all_there(p, front);
        let last = p + ls.last() + seq!['\n'];
        lemma_in_order_push(prefixed_of(p, front), marked(p, front), Seq::empty(), last, Seq::empty());
        assert(marked(p, front).push(last) =~= marked(p, ls));
        assert(prefixed_of(p, front) + Seq::empty() + last + Seq::empty() =~= prefixed_of(p, ls));
        let n = ls.len() as int;
        let m = p.len() as int;
        assert(n * (m + 1) == (n - 1) * (m + 1) + m + 1) by (nonlinear_arith);
    }
}

/// What stands in order in a text stands so where more follows.
pub proof fn lemma_in_order_more(s: Seq<char>, ps: Seq<Seq<char>>, b: Seq<char>)
    requires
        in_order(s, ps),
    ensures
        in_order(s + b, ps),
{
    lemma_in_order_around(Seq::empty(), s, b, ps);
    assert(Seq::empty() + s + b =~= s + b);
}

/// A further text directly behind.
pub proof fn lemma_in_order_next(s: Seq<char>, ps: Seq<Seq<char>>, p: Seq<char>)
    requires
        in_order(s, ps),
    ensures
        in_order(s + p, ps.push(p)),
{
    lemma_in_order_itself(p);
    lemma_in_order_concat(s, p, ps, seq![p]);
    assert(ps + seq![p] =~= ps.push(p));
}

/// What is cut to fit is as long as it can be: the whole text where that fits, and else one more
/// character would not fit.
pub proof fn law_nothing_more_would_fit(s: Seq<char>, room: int)
    requires
        room >= 0,
    ensures
        byte_len(s) <= room ==> fit_of(s, room) == s,
        fit_of(s, room).len() < s.len() ==> byte_len(s.take(fit_of(s, room).len() as int + 1)) > room,
    decreases s.len(),
{
    lemma_byte_len_empty();
    if s.len() > 0 {
        let c = s[0];
        let rest = s.drop_first();
        lemma_one_char(c);
        assert(seq![c] + rest =~= s);
        lemma_byte_len_concat(seq![c], rest);
        if char_size_of(c) > room {
            assert(s.take(1) =~= seq![c]);
        } else {
            let left = room - char_size_of(c);
            law_nothing_more_would_fit(rest, left);
            let k = fit_of(rest, left).len() as int;
            if k < rest.len() {
                lemma_byte_len_concat(seq![c], rest.take(k + 1));
                assert(s.take(k + 2) =~= seq![c] + rest.take(k + 1));
            }
        }
    } else {
        assert(s =~= Seq::empty());
    }
}

proof fn lemma_one_char(c: char)
    ensures
        byte_len(seq![c]) == char_size_of(c),
{
    lemma_byte_len_empty();
    assert(seq![c].drop_first() =~= Seq::empty());
    assert(encode_utf8(seq![c]) =~= vstd::utf8::encode_scalar(c as u32) + encode_utf8(
        seq![c].drop_first(),
    ));
}

/// The numeral of an integer tells it apart from every other: below zero it begins with a minus
/// sign, and the digits are those of the number without its sign.
pub proof fn law_signed_numerals_are_read_back(n: int)
    ensures
        n >= 0 ==> number_of(signed_of(n)) == n && signed_of(n)[0] != '-',
        n < 0 ==> signed_of(n)[0] == '-' && number_of(signed_of(n).skip(1)) == -n,
{
    if n < 0 {
        law_numerals_are_read_back((-n) as nat);
        assert(signed_of(n).skip(1) =~= decimal_of((-n) as nat));
    } else {
        law_numerals_are_read_back(n as nat);
        assert('0' <= decimal_of(n as nat)[0]);
    }
}

} // verus!
