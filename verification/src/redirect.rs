//! The scheme-redirect rule: deciding from a forwarded-protocol header
//! whether a request already came over a secure channel, and building the
//! redirect target from host, path and the configured replacements.

use vstd::prelude::*;

verus! {

/// What one replacement pass over the redirect target yields; the result
/// depends on the three arguments alone.
pub uninterp spec fn replaced(s: Seq<char>, from: Seq<char>, to: Seq<char>) -> Seq<char>;

/// Relies on `str::replace`: replaces every match of `from` in `s` with
/// `to`; the result is a function of the three strings alone.
#[verifier::external_body]
fn replace_str(s: &String, from: &str, to: &str) -> (r: String)
    ensures
        r@ == replaced(s@, from@, to@),
{
    s.replace(from, to)
}

/// The redirect target: the secure scheme, the host and the request path,
/// with each configured replacement applied in order.
pub open spec fn spec_redirect_url(
    host: Seq<char>,
    uri: Seq<char>,
    reps: Seq<(String, String)>,
) -> Seq<char>
    decreases reps,
{
    if reps.len() == 0 {
        "https://"@ + host + uri
    } else {
        replaced(
            spec_redirect_url(host, uri, reps.drop_last()),
            reps.last().0@,
            reps.last().1@,
        )
    }
}

/// The middleware that redirects plain-scheme requests to the secure
/// scheme, rewriting the target with the configured replacements.
#[derive(Default, Clone)]
pub struct RedirectHTTPS {
    replacements: Vec<(String, String)>,
}

/// The per-request service form of [`RedirectHTTPS`]: the wrapped service
/// together with the same replacements.
pub struct RedirectHTTPSService<S> {
    pub service: S,
    pub replacements: Vec<(String, String)>,
}

impl RedirectHTTPS {
    /// The configured replacement pairs.
    pub closed spec fn spec_replacements(&self) -> Seq<(String, String)> {
        self.replacements@
    }

    /// A redirect middleware that applies the given replacement pairs.
    pub fn with_replacements(replacements: &[(String, String)]) -> (r: Self)
        ensures
            r.spec_replacements().len() == replacements@.len(),
            forall|i: int|
                0 <= i < replacements@.len() ==> r.spec_replacements()[i].0@
                    == replacements@[i].0@ && r.spec_replacements()[i].1@ == replacements@[i].1@,
    {
        let mut v: Vec<(String, String)> = Vec::new();
        let mut j: usize = 0;
        while j < replacements.len()
            invariant
                j <= replacements@.len(),
                v@.len() == j,
                forall|i: int|
                    0 <= i < j ==> v@[i].0@ == replacements@[i].0@ && v@[i].1@
                        == replacements@[i].1@,
            decreases replacements@.len() - j,
        {
            let pair = &replacements[j];
            v.push((pair.0.clone(), pair.1.clone()));
            j += 1;
        }
        RedirectHTTPS { replacements: v }
    }

    /// Builds the redirect target for a request that reached `host` with
    /// request path `uri`.
    pub fn redirect_url(&self, host: &str, uri: &str) -> (r: String)
        ensures
            r@ == spec_redirect_url(host@, uri@, self.spec_replacements()),
    {
        let mut url = String::from_str("https://");
        url.append(host);
        url.append(uri);
        let mut j: usize = 0;
        while j < self.replacements.len()
            invariant
                j <= self.replacements@.len(),
                url@ == spec_redirect_url(host@, uri@, self.replacements@.take(j as int)),
            decreases self.replacements@.len() - j,
        {
            let rep = &self.replacements[j];
            url = replace_str(&url, rep.0.as_str(), rep.1.as_str());
            proof {
                assert(self.replacements@.take(j + 1).drop_last() =~= self.replacements@.take(
                    j as int,
                ));
                assert(self.replacements@.take(j + 1).last() == self.replacements@[j as int]);
            }
            j += 1;
        }
        proof {
            assert(self.replacements@.take(self.replacements@.len() as int)
                =~= self.replacements@);
        }
        url
    }
}

/// Whether the forwarded-protocol header says the request already came
/// over the secure scheme.
pub fn is_https_forwarded(header: Option<&String>) -> (r: bool)
    ensures
        r == match header {
            Some(v) => v@ == "https"@,
            None => false,
        },
{
    match header {
        Some(v) => {
            let expected = String::from_str("https");
            *v == expected
        },
        None => false,
    }
}

} // verus!
