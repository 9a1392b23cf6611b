//! The module references that a script's text holds.
//!
//! The scan is textual: it matches a pattern against the source and never
//! runs or parses the script. The pattern matching itself is the work of
//! the `regex` crate and is named here, not described.

use vstd::prelude::*;

verus! {

/// The pattern of a call of `require` on a literal string, in single or
/// double quotes. Its first group is the literal.
pub const REQUIRE_PATTERN: &'static str = "require\\s*\\(\\s*[\"']([^\"']+)[\"']\\s*\\)";

/// Whether `regex::Regex::new` accepts `pattern`.
pub uninterp spec fn regex_compiles(pattern: Seq<char>) -> bool;

/// What the first group of `pattern` holds in each match that
/// `regex::Regex::captures_iter` finds in `text`, in the order of the
/// matches; `None` for a match in which the group took no part.
pub uninterp spec fn regex_first_groups(pattern: Seq<char>, text: Seq<char>) -> Seq<
    Option<Seq<char>>,
>;

/// What `String::from_utf8_lossy` makes of `bytes`.
pub uninterp spec fn utf8_lossy(bytes: Seq<u8>) -> Seq<char>;

/// The text of every optional string of `groups`.
pub open spec fn group_texts(groups: Seq<Option<String>>) -> Seq<Option<Seq<char>>> {
    Seq::new(
        groups.len(),
        |i: int|
            match groups[i] {
                Some(s) => Some(s@),
                None => None,
            },
    )
}

/// The values of `groups` that are there, in order.
pub open spec fn present(groups: Seq<Option<Seq<char>>>) -> Seq<Seq<char>>
    decreases groups.len(),
{
    if groups.len() == 0 {
        Seq::empty()
    } else {
        match groups.last() {
            Some(s) => present(groups.drop_last()).push(s),
            None => present(groups.drop_last()),
        }
    }
}

/// The literals that the source `bytes` hands to `require`, in order.
pub open spec fn required_literals(bytes: Seq<u8>) -> Seq<Seq<char>> {
    present(regex_first_groups(REQUIRE_PATTERN@, utf8_lossy(bytes)))
}

/// Calls `regex::Regex::new` on `pattern` and, where that gives a regex,
/// `captures_iter` on `text`, and hands out the text of group 1 of each
/// match. The contract names both results: it claims that they depend on
/// the pattern and the text alone, and says nothing of what they are.
#[verifier::external_body]
fn first_groups(pattern: &str, text: &str) -> (r: Option<Vec<Option<String>>>)
    ensures
        r is Some <==> regex_compiles(pattern@),
        r matches Some(groups) ==> group_texts(groups@) == regex_first_groups(pattern@, text@),
{
    match regex::Regex::new(pattern) {
        Ok(re) => Some(
            re.captures_iter(text).map(|c| c.get(1).map(|m| m.as_str().to_string())).collect(),
        ),
        Err(_) => None,
    }
}

/// Calls `String::from_utf8_lossy`: the text of `bytes`, with the
/// replacement character in place of what is no UTF-8. The contract
/// names the result, and says that valid UTF-8 is decoded as it stands.
#[verifier::external_body]
fn lossy_text(bytes: &Vec<u8>) -> (r: String)
    ensures
        r@ == utf8_lossy(bytes@),
        vstd::utf8::valid_utf8(bytes@) ==> r@ == vstd::utf8::decode_utf8(bytes@),
{
    String::from_utf8_lossy(bytes).into_owned()
}

/// The values of `groups` that are there, in order.
pub fn keep_present(groups: Vec<Option<String>>) -> (r: Vec<String>)
    ensures
        crate::path::texts(r@) == present(group_texts(groups@)),
{
    let mut out: Vec<String> = Vec::new();
    let mut i: usize = 0;
    assert(group_texts(groups@).take(0) =~= Seq::empty());
    while i < groups.len()
        invariant
            i <= groups@.len(),
            crate::path::texts(out@) == present(group_texts(groups@).take(i as int)),
        decreases groups@.len() - i,
    {
        let ghost before = crate::path::texts(out@);
        proof {
            let t = group_texts(groups@).take(i as int + 1);
            assert(t.drop_last() =~= group_texts(groups@).take(i as int));
            assert(t.last() == group_texts(groups@)[i as int]);
        }
        match &groups[i] {
            Some(s) => {
                out.push(s.clone());
                assert(crate::path::texts(out@) =~= before.push(s@));
            },
            None => {},
        }
        i += 1;
    }
    assert(group_texts(groups@).take(i as int) =~= group_texts(groups@));
    out
}

/// Whether the pattern of a `require` call is one that can be matched.
pub fn pattern_usable() -> (r: bool)
    ensures
        r == regex_compiles(REQUIRE_PATTERN@),
{
    first_groups(REQUIRE_PATTERN, "").is_some()
}

/// The literals that the source `bytes` hands to `require`, in order;
/// `None` where the pattern cannot be matched at all.
pub fn scan_requires(bytes: &Vec<u8>) -> (r: Option<Vec<String>>)
    ensures
        r is Some <==> regex_compiles(REQUIRE_PATTERN@),
        r matches Some(lits) ==> crate::path::texts(lits@) == required_literals(bytes@),
{
    let text = lossy_text(bytes);
    match first_groups(REQUIRE_PATTERN, text.as_str()) {
        Some(groups) => Some(keep_present(groups)),
        None => None,
    }
}

} // verus!
