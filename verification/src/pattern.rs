//! Keyword patterns: regular expressions, matched by the `regex` crate.

use vstd::prelude::*;

verus! {

/// What `regex::Regex::new(pattern)` followed by `is_match(text)` gives:
/// `None` where the pattern does not compile, else whether the compiled
/// expression matches somewhere in `text`.
pub uninterp spec fn regex_match(pattern: Seq<char>, text: Seq<char>) -> Option<bool>;

/// Compiles `pattern` with `regex::Regex::new` and, where that succeeds,
/// tests `text` with `Regex::is_match` (the pattern is compiled on each
/// call). The contract claims only that the outcome is a function of the
/// pattern and the text, named `regex_match`; what the expression language
/// means, and which patterns compile, is left to the crate.
#[verifier::external_body]
pub(crate) fn pattern_matches(pattern: &str, text: &str) -> (res: Option<bool>)
    ensures
        res == regex_match(pattern@, text@),
{
    match regex::Regex::new(pattern) {
        Ok(re) => Some(re.is_match(text)),
        Err(_) => None,
    }
}

/// The name of the keyword that the default patterns recognise.
pub open spec fn date_name() -> Seq<char> {
    "Date"@
}

/// The pattern of a date key, `YYYY-MM-DD`.
pub open spec fn date_pattern() -> Seq<char> {
    "^\\d{4}-\\d{2}-\\d{2}$"@
}

/// The default keyword patterns, by name and pattern.
pub open spec fn reserved_matchers() -> Seq<(Seq<char>, Seq<char>)> {
    seq![(date_name(), date_pattern())]
}

/// The default keyword patterns, as (name, pattern) pairs: one, which
/// recognises keys of the form `YYYY-MM-DD` as a `Date`. Callers may add
/// their own pairs to the list.
pub fn get_reserved_matchers() -> (kw: Vec<(String, String)>)
    ensures
        kw@.map_values(|p: (String, String)| (p.0@, p.1@)) == reserved_matchers(),
{
    let mut kw: Vec<(String, String)> = Vec::new();
    kw.push((String::from_str("Date"), String::from_str("^\\d{4}-\\d{2}-\\d{2}$")));
    assert(kw@.map_values(|p: (String, String)| (p.0@, p.1@)) =~= reserved_matchers());
    kw
}

/// The default keyword is named `Date`, and its pattern is the regular
/// expression `^\d{4}-\d{2}-\d{2}$`: four digits, `-`, two digits, `-`,
/// two digits, the whole key.
pub proof fn law_date_keyword()
    ensures
        date_name() == seq!['D', 'a', 't', 'e'],
        date_pattern() == seq![
            '^', '\\', 'd', '{', '4', '}', '-', '\\', 'd', '{', '2', '}', '-', '\\', 'd', '{', '2', '}', '$'
        ],
{
    reveal_strlit("Date");
    reveal_strlit("^\\d{4}-\\d{2}-\\d{2}$");
    assert(date_name() =~= seq!['D', 'a', 't', 'e']);
    assert(date_pattern() =~= seq![
        '^', '\\', 'd', '{', '4', '}', '-', '\\', 'd', '{', '2', '}', '-', '\\', 'd', '{', '2', '}', '$'
    ]);
}

} // verus!
