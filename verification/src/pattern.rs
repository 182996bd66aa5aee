//! Regular expressions: whether one is valid, and which texts it matches.
use regex::Regex;
use vstd::prelude::*;

verus! {

/// `regex::Regex`, a compiled pattern.
#[verifier::external_type_specification]
#[verifier::external_body]
pub struct ExRegex(Regex);

/// The pattern that a `Regex` was compiled from, which `Regex::as_str` gives back.
pub uninterp spec fn source_of(re: Regex) -> Seq<char>;

/// The message with which `Regex::new` refuses a pattern; `None` for a valid one.
pub uninterp spec fn regex_error(pattern: Seq<char>) -> Option<Seq<char>>;

/// Whether `Regex::is_match` finds a match of a valid pattern in a text.
pub uninterp spec fn regex_hit(pattern: Seq<char>, text: Seq<char>) -> bool;

/// `Regex::new`: a valid pattern is compiled, another one is refused with a message.
/// Which patterns are valid, and the messages, are only named.
#[verifier::external_body]
pub(crate) fn regex_new(pattern: &str) -> (r: Result<Regex, String>)
    ensures
        match r {
            Ok(re) => regex_error(pattern@) is None && source_of(re) == pattern@,
            Err(e) => regex_error(pattern@) == Some(e@),
        },
{
    Regex::new(pattern).map_err(|e| e.to_string())
}

/// `Regex::is_match`: whether the pattern matches somewhere in the text. What a pattern
/// matches is only named.
#[verifier::external_body]
pub(crate) fn regex_is_match(re: &Regex, text: &str) -> (r: bool)
    ensures
        r == regex_hit(source_of(*re), text@),
{
    re.is_match(text)
}

/// For a valid pattern, whether it matches somewhere in each of the texts; else the
/// refusal.
pub fn regex_hits(pattern: &str, list: &Vec<String>) -> (r: Result<Vec<bool>, String>)
    ensures
        match r {
            Ok(v) => {
                &&& regex_error(pattern@) is None
                &&& v@.len() == list@.len()
                &&& forall|i: int|
                    0 <= i < v@.len() ==> #[trigger] v@[i] == regex_hit(pattern@, list@[i]@)
            },
            Err(e) => regex_error(pattern@) == Some(e@),
        },
{
    let re = match regex_new(pattern) {
        Ok(re) => re,
        Err(e) => {
            return Err(e);
        },
    };
    let mut out: Vec<bool> = Vec::new();
    let mut i: usize = 0;
    while i < list.len()
        invariant
            source_of(re) == pattern@,
            i <= list@.len(),
            out@.len() == i,
            forall|k: int| 0 <= k < i ==> #[trigger] out@[k] == regex_hit(pattern@, list@[k]@),
        decreases list@.len() - i,
    {
        out.push(regex_is_match(&re, list[i].as_str()));
        i += 1;
    }
    Ok(out)
}

} // verus!
