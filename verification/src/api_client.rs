//! The compute side of the API client: request URLs, the authorization
//! header value, and the rate-limit signal that decides between retrying
//! under backoff and failing permanently.

use vstd::prelude::*;
use vstd::string::StrSliceExecFns;
use vstd::string::StringExecFns;

verus! {

/// The HTTP status the target service signals rate limiting with.
pub const RATE_LIMIT_STATUS: u16 = 429;

/// The scheme prefix a request URL starts with: plaintext transport is a
/// test-only toggle, production is TLS.
pub open spec fn scheme_prefix(plaintext: bool) -> Seq<char> {
    if plaintext {
        seq!['h', 't', 't', 'p', ':', '/', '/']
    } else {
        seq!['h', 't', 't', 'p', 's', ':', '/', '/']
    }
}

/// Does the path ask for the account's own host (it starts with `/`)?
pub open spec fn is_local_path(path: Seq<char>) -> bool {
    path.len() > 0 && path[0] == '/'
}

/// The URL a request goes to: a path starting with `/` gets the scheme and
/// the account's host prepended; anything else (a continuation URL from a
/// `Link` header) is used as it stands.
pub fn build_request_url(plaintext: bool, host: &str, path: &str) -> (r: String)
    ensures
        is_local_path(path@) ==> r@ == scheme_prefix(plaintext) + host@ + path@,
        !is_local_path(path@) ==> r@ == path@,
{
    let n = path.unicode_len();
    if n > 0 && path.get_char(0) == '/' {
        let mut r = if plaintext {
            String::from_str("http://")
        } else {
            String::from_str("https://")
        };
        proof {
            reveal_strlit("http://");
            reveal_strlit("https://");
            assert(r@ =~= scheme_prefix(plaintext));
        }
        r.append(host);
        r.append(path);
        proof {
            assert(r@ =~= scheme_prefix(plaintext) + host@ + path@);
        }
        r
    } else {
        String::from_str(path)
    }
}

/// Is this response status the rate-limit signal, to be retried under
/// backoff?  Any other failure is permanent.
pub fn is_rate_limited(status: u16) -> (r: bool)
    ensures
        r == (status == RATE_LIMIT_STATUS),
{
    status == RATE_LIMIT_STATUS
}

/// The bearer prefix of the authorization header.
pub open spec fn bearer_prefix() -> Seq<char> {
    seq!['B', 'e', 'a', 'r', 'e', 'r', ' ']
}

/// The value of the authorization header for a bearer credential.
pub fn auth_header_value(token: &str) -> (r: String)
    ensures
        r@ == bearer_prefix() + token@,
{
    let mut r = String::from_str("Bearer ");
    proof {
        reveal_strlit("Bearer ");
        assert(r@ =~= bearer_prefix());
    }
    r.append(token);
    r
}

} // verus!
