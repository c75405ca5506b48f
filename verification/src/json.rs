//! JSON text, through the `serde_json` crate. A value is carried as its text.

use crate::text::{lemma_texts_push, opt_text, texts};
use vstd::prelude::*;

verus! {

/// The compact text of a JSON value, or none where the text is not JSON.
pub uninterp spec fn json_compact(json: Seq<char>) -> Option<Seq<char>>;

/// The compact text of an object's member, or none where the text is not a JSON object or has
/// no such member.
pub uninterp spec fn json_member(json: Seq<char>, field: Seq<char>) -> Option<Seq<char>>;

/// The characters of a JSON string, or none where the text is not a JSON string.
pub uninterp spec fn json_string(json: Seq<char>) -> Option<Seq<char>>;

/// The number that a JSON text writes, if it is a whole number of 64 bits without a sign.
pub uninterp spec fn json_number(json: Seq<char>) -> Option<u64>;

/// The JSON string of some characters.
pub uninterp spec fn json_quoted(s: Seq<char>) -> Seq<char>;

/// `serde_json::from_str` and `Value::to_string`: the text parsed and written again, compactly.
/// It is a function of the text, named [`json_compact`].
#[verifier::external_body]
pub(crate) fn json_parse(json: &str) -> (r: Option<String>)
    ensures
        opt_text(r) == json_compact(json@),
{
    serde_json::from_str::<serde_json::Value>(json).ok().map(|v| v.to_string())
}

/// `serde_json::Value::get`: a member of an object, written compactly. It is a function of text
/// and name, named [`json_member`].
#[verifier::external_body]
pub(crate) fn json_get(json: &str, field: &str) -> (r: Option<String>)
    ensures
        opt_text(r) == json_member(json@, field@),
{
    let value = serde_json::from_str::<serde_json::Value>(json).ok()?;
    value.get(field).map(|v| v.to_string())
}

/// `serde_json::Value::as_str`: the characters of a string. They are a function of the text,
/// named [`json_string`].
#[verifier::external_body]
pub(crate) fn json_as_str(json: &str) -> (r: Option<String>)
    ensures
        opt_text(r) == json_string(json@),
{
    let value = serde_json::from_str::<serde_json::Value>(json).ok()?;
    value.as_str().map(|s| s.to_string())
}

/// `serde_json::Value::as_u64`: the number, if it is one of 64 bits without a sign. It is a
/// function of the text, named [`json_number`].
#[verifier::external_body]
pub(crate) fn json_as_u64(json: &str) -> (r: Option<u64>)
    ensures
        r == json_number(json@),
{
    serde_json::from_str::<serde_json::Value>(json).ok().and_then(|v| v.as_u64())
}

/// `Value::to_string` of a string: the characters in quotes, escaped where need be. The text is a
/// function of the characters, named [`json_quoted`], and is read back as the same characters.
#[verifier::external_body]
pub(crate) fn json_quote(s: &str) -> (r: String)
    ensures
        r@ == json_quoted(s@),
        json_string(r@) == Some(s@),
{
    serde_json::Value::from(s).to_string()
}

/// The JSON strings of some texts.
pub open spec fn quoted_each(s: Seq<Seq<char>>) -> Seq<Seq<char>> {
    s.map_values(|t: Seq<char>| json_quoted(t))
}

/// The JSON strings of some texts.
pub(crate) fn quote_each(v: &Vec<String>) -> (r: Vec<String>)
    ensures
        texts(r@) == quoted_each(texts(v@)),
{
    let ghost all = quoted_each(texts(v@));
    let mut out: Vec<String> = Vec::new();
    assert(texts(out@) =~= all.take(0));
    for i in 0..v.len()
        invariant
            all == quoted_each(texts(v@)),
            texts(out@) == all.take(i as int),
    {
        let ghost out0 = out@;
        let q = json_quote(v[i].as_str());
        out.push(q);
        proof {
            lemma_texts_push(out0, q);
            assert(all[i as int] == q@);
            assert(all.take(i + 1) =~= all.take(i as int).push(all[i as int]));
        }
    }
    assert(all.take(v@.len() as int) =~= all);
    out
}

} // verus!
