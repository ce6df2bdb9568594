//! Conditional reads: turning a requester's cache-validation token and the
//! current revision into either a "not modified" answer or the payload,
//! tagged with the revision as a strong validation token.

use vstd::prelude::*;

use crate::json::JsonValue;

verus! {

/// Whether a quoted validation token names exactly this revision: the
/// token must be a quote character, the revision itself, and a closing
/// quote character; anything unquoted or different never matches.
pub open spec fn spec_token_matches(token: Seq<char>, revision: Seq<char>) -> bool {
    &&& token.len() > 2
    &&& token[0] == '"'
    &&& token[token.len() - 1] == '"'
    &&& token.subrange(1, token.len() - 1) == revision
}

/// A conditional answer: either "not modified" with no body, or the
/// payload; in both cases `etag` carries the current revision, which the
/// responder attaches as a strong validation token, together with
/// directives that force revalidation on every later request.
pub struct CondResponse {
    pub not_modified: bool,
    pub etag: String,
    pub body: Option<JsonValue>,
}

/// Whether `token`'s interior names `revision`.
fn token_matches(token: &String, revision: &String) -> (r: bool)
    ensures
        r == spec_token_matches(token@, revision@),
{
    let t = token.as_str();
    let rv = revision.as_str();
    let tl = t.unicode_len();
    let rl = rv.unicode_len();
    if tl <= 2 {
        return false;
    }
    if t.get_char(0) != '"' || t.get_char(tl - 1) != '"' {
        return false;
    }
    if rl != tl - 2 {
        proof {
            assert(token@.subrange(1, token@.len() - 1).len() != revision@.len());
        }
        return false;
    }
    let mut i: usize = 0;
    while i < rl
        invariant
            t@ == token@,
            rv@ == revision@,
            tl == token@.len(),
            rl == revision@.len(),
            tl > 2,
            rl == tl - 2,
            i <= rl,
            forall|k: int| 0 <= k < i ==> token@[k + 1] == revision@[k],
        decreases rl - i,
    {
        if t.get_char(i + 1) != rv.get_char(i) {
            proof {
                assert(token@.subrange(1, token@.len() - 1)[i as int] != revision@[i as int]);
            }
            return false;
        }
        i += 1;
    }
    proof {
        assert(token@.subrange(1, token@.len() - 1) =~= revision@);
    }
    true
}

/// The cache directives attached to every conditional answer: revalidate
/// always, with no freshness lifetime.
pub fn cache_control() -> (r: String)
    ensures
        r@ == "must-revalidate, max-age=0"@,
{
    "must-revalidate, max-age=0".to_owned()
}

/// Answers a conditional read: a requester whose token names exactly the
/// current revision gets "not modified" and no body; any other requester
/// gets the payload; both get the revision back as the token to cache.
pub fn compare_etag_and_response(
    if_none_match: Option<&String>,
    revision: String,
    data: JsonValue,
) -> (r: CondResponse)
    ensures
        r.etag@ == revision@,
        ({
            let matched = match if_none_match {
                Some(t) => spec_token_matches(t@, revision@),
                None => false,
            };
            &&& r.not_modified == matched
            &&& (matched ==> r.body is None)
            &&& (!matched ==> (r.body matches Some(b) && b@ == data@))
        }),
{
    let matched = match if_none_match {
        Some(t) => token_matches(t, &revision),
        None => false,
    };
    if matched {
        CondResponse { not_modified: true, etag: revision, body: None }
    } else {
        CondResponse { not_modified: false, etag: revision, body: Some(data) }
    }
}

} // verus!
