//! Parsing of coordinate pairs such as `"400x600"` or `"1.0,0.5"`.

use std::str::FromStr;
use vstd::prelude::*;
use vstd::string::StrSliceExecFns;

verus! {

/// Whether `index` is the position of the first `separator` in `text`.
pub open spec fn is_first_at(text: Seq<char>, separator: char, index: int) -> bool {
    &&& 0 <= index < text.len()
    &&& text[index] == separator
    &&& forall|j: int| 0 <= j < index ==> text[j] != separator
}

/// Finds the first `separator` in `s`, counted in characters.
pub fn find_separator(s: &str, separator: char) -> (found: Option<usize>)
    ensures
        match found {
            Some(index) => is_first_at(s@, separator, index as int),
            None => !s@.contains(separator),
        },
{
    let len = s.unicode_len();
    let mut index: usize = 0;
    for c in chars: s.chars()
        invariant
            len == s@.len(),
            index == chars.index(),
            chars.seq() == s@,
            forall|j: int| 0 <= j < index ==> s@[j] != separator,
    {
        if c == separator {
            return Some(index);
        }
        index += 1;
    }
    None
}

/// Splits `s` at its first `separator` into what stands before it and what
/// stands after it; nothing where `s` holds no `separator`.
pub fn split_pair<'a>(s: &'a str, separator: char) -> (halves: Option<(&'a str, &'a str)>)
    ensures
        match halves {
            Some((left, right)) => exists|index: int|
                {
                    &&& #[trigger] is_first_at(s@, separator, index)
                    &&& left@ == s@.subrange(0, index)
                    &&& right@ == s@.subrange(index + 1, s@.len() as int)
                },
            None => !s@.contains(separator),
        },
{
    match find_separator(s, separator) {
        None => None,
        Some(index) => {
            let len = s.unicode_len();
            let left = s.substring_char(0, index);
            let right = s.substring_char(index + 1, len);
            Some((left, right))
        },
    }
}

/// Pairs two parsed values: a pair where both are there, nothing where
/// either is missing.
pub fn pair_of<T>(left: Option<T>, right: Option<T>) -> (pair: Option<(T, T)>)
    ensures
        pair == match (left, right) {
            (Some(l), Some(r)) => Some((l, r)),
            _ => None::<(T, T)>,
        },
{
    match (left, right) {
        (Some(l), Some(r)) => Some((l, r)),
        _ => None,
    }
}

/// Calls `T::from_str` on `s` and keeps the value of a successful parse.
/// Nothing is claimed of the result: what parses, and to which value, is up
/// to `T`.
#[verifier::external_body]
fn parse_value<T: FromStr>(s: &str) -> (value: Option<T>) {
    T::from_str(s).ok()
}

/// Parses `s` as a pair of values with `separator` between them: the text
/// before the first `separator` and the text after it are each parsed as a
/// `T`. Returns the pair where both parse, and nothing where `s` holds no
/// `separator` or either half does not parse.
pub fn parse_pair<T: FromStr>(s: &str, separator: char) -> (pair: Option<(T, T)>)
    ensures
        is_parsed_pair(s@, separator, pair),
{
    match split_pair(s, separator) {
        None => None,
        Some((left, right)) => {
            let first = parse_value::<T>(left);
            let second = parse_value::<T>(right);
            proof {
                let index = choose|index: int|
                    {
                        &&& #[trigger] is_first_at(s@, separator, index)
                        &&& left@ == s@.subrange(0, index)
                        &&& right@ == s@.subrange(index + 1, s@.len() as int)
                    };
                assert(s@[index] == separator);
                assert(parses_to(s@.subrange(0, index), first));
                assert(parses_to(s@.subrange(index + 1, s@.len() as int), second));
            }
            pair_of(first, second)
        },
    }
}

/// Whether `value` is what parsing `text` as a `T` can give: the parsed
/// value, or `None` where `text` does not parse. Which of them it is lies
/// with `T`'s parser alone.
pub closed spec fn parses_to<T: FromStr>(text: Seq<char>, value: Option<T>) -> bool {
    exists|s: &str| s@ == text && #[trigger] call_ensures(parse_value::<T>, (s,), value)
}

/// The pair of two parsed values: a pair where both are there, nothing
/// where either is missing.
pub open spec fn paired<T>(left: Option<T>, right: Option<T>) -> Option<(T, T)> {
    match (left, right) {
        (Some(l), Some(r)) => Some((l, r)),
        _ => None,
    }
}

/// Whether `pair` is what parsing `text` as a pair of `T`s with `separator`
/// between them gives: nothing where `text` holds no `separator`, and else
/// the pair of what parsing the text before the first `separator` and the
/// text after it give.
pub open spec fn is_parsed_pair<T: FromStr>(
    text: Seq<char>,
    separator: char,
    pair: Option<(T, T)>,
) -> bool {
    if text.contains(separator) {
        exists|index: int, left: Option<T>, right: Option<T>|
            {
                &&& is_first_at(text, separator, index)
                &&& #[trigger] parses_to(text.subrange(0, index), left)
                &&& #[trigger] parses_to(text.subrange(index + 1, text.len() as int), right)
                &&& pair == paired(left, right)
            }
    } else {
        pair is None
    }
}

} // verus!
