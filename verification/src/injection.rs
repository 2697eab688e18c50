//! The libinjection classifiers, as the `libinjectionrs` crate runs them.

use vstd::prelude::*;

verus! {

/// Whether libinjection takes some bytes for SQL injection, and the fingerprint
/// it read them as.
pub uninterp spec fn sqli_verdict(input: Seq<u8>) -> (bool, Option<Seq<char>>);

/// Whether libinjection takes some bytes for cross-site scripting.
pub uninterp spec fn xss_verdict(input: Seq<u8>) -> bool;

/// `libinjectionrs::detect_sqli`: the verdict and the fingerprint are named by
/// the input.
#[verifier::external_body]
pub(crate) fn detect_sqli(input: &[u8]) -> (r: (bool, Option<String>))
    ensures
        r.0 == sqli_verdict(input@).0,
        r.1.deep_view() == sqli_verdict(input@).1,
{
    let result = libinjectionrs::detect_sqli(input);
    (result.is_injection(), result.fingerprint.as_ref().map(|f| f.as_str().to_string()))
}

/// `libinjectionrs::detect_xss`: the verdict is named by the input.
#[verifier::external_body]
pub(crate) fn detect_xss(input: &[u8]) -> (r: bool)
    ensures
        r == xss_verdict(input@),
{
    libinjectionrs::detect_xss(input).is_injection()
}

} // verus!
