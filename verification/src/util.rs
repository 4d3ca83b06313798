//! Reading a slicing criterion from its written form.

use vstd::prelude::*;
use vstd::string::*;
use crate::dependency::CriterionType;
use crate::text::{find_char, index_of, same_text};

verus! {

/// The lowercase form of a text.
pub uninterp spec fn lowercase_of(s: Seq<char>) -> Seq<char>;

/// Calls `str::to_lowercase` of the standard library: the result is the
/// lowercase form of `s`, which depends on the characters of `s` alone.
#[verifier::external_body]
fn to_lowercase(s: &str) -> (r: String)
    ensures
        r@ == lowercase_of(s@),
{
    s.to_lowercase()
}

/// What the parts of a written criterion stand for: `lowered` is the kind
/// in lowercase, `kind` the kind as written, `value` the payload.
pub open spec fn criterion_of(lowered: Seq<char>, kind: Seq<char>, value: Seq<char>) -> Result<
    (bool, Seq<char>),
    Seq<char>,
> {
    if lowered == "statement"@ {
        Ok((true, value))
    } else if lowered == "signal"@ {
        Ok((false, value))
    } else {
        Err("Unknown criterion type '"@ + kind + "'"@)
    }
}

/// A criterion as a pair: whether it names a statement, and its payload.
pub open spec fn criterion_view(c: CriterionType) -> (bool, Seq<char>) {
    match c {
        CriterionType::Statement(name) => (true, name@),
        CriterionType::Signal(symbol) => (false, symbol@),
    }
}

/// Whether `r` is the outcome `model`, each side taken by its text.
pub open spec fn same_outcome(
    r: Result<CriterionType, String>,
    model: Result<(bool, Seq<char>), Seq<char>>,
) -> bool {
    match (r, model) {
        (Ok(c), Ok(m)) => criterion_view(c) == m,
        (Err(text), Err(m)) => text@ == m,
        _ => false,
    }
}

/// The criterion of a kind and a payload. The kind is given as written and
/// in lowercase: `statement` and `signal` are the kinds that exist.
pub fn criterion_from_parts(lowered: &str, kind: &str, value: &str) -> (r: Result<
    CriterionType,
    String,
>)
    ensures
        same_outcome(r, criterion_of(lowered@, kind@, value@)),
{
    if same_text(lowered, "statement") {
        Ok(CriterionType::Statement(value.to_owned()))
    } else if same_text(lowered, "signal") {
        Ok(CriterionType::Signal(value.to_owned()))
    } else {
        Err("Unknown criterion type '".to_owned().concat(kind).concat("'"))
    }
}

/// What a written criterion stands for: the text before the first colon
/// is the kind, whatever case it is written in, the text after it the
/// payload.
pub open spec fn parsed_criterion(s: Seq<char>) -> Result<(bool, Seq<char>), Seq<char>> {
    let i = index_of(s, ':', 0);
    if 0 <= i < s.len() {
        criterion_of(
            lowercase_of(s.subrange(0, i)),
            s.subrange(0, i),
            s.subrange(i + 1, s.len() as int),
        )
    } else {
        Err("Expected 'type:value' format"@)
    }
}

/// Reads a criterion written as `statement:<name>` or `signal:<symbol>`.
pub fn parse_criterion(s: &str) -> (r: Result<CriterionType, String>)
    ensures
        same_outcome(r, parsed_criterion(s@)),
{
    let n = s.unicode_len();
    let i = find_char(s, ':', 0);
    if i >= n {
        return Err("Expected 'type:value' format".to_owned());
    }
    let kind = s.substring_char(0, i);
    let value = s.substring_char(i + 1, n);
    let lowered = to_lowercase(kind);
    criterion_from_parts(lowered.as_str(), kind, value)
}

} // verus!
