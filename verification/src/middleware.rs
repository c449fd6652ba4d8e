//! The decisions of the dashboard's HTTP middleware: which origin
//! header a response carries and whether a request's credentials pass.
//! The HTTP layer itself lives outside and only asks.

use vstd::prelude::*;
use vstd::string::StrSliceExecFns;
use vstd::string::StringExecFns;

use crate::strtool::str_eq;

verus! {

/// Attaches the content headers the dashboard needs.
pub struct Headers;

/// The index after the last colon, or 0 when there is none.
pub open spec fn spec_after_last_colon(h: Seq<char>) -> int
    decreases h.len(),
{
    if h.len() == 0 {
        0
    } else if h.last() == ':' {
        h.len() as int
    } else {
        spec_after_last_colon(h.drop_last())
    }
}

impl Headers {
    /// The allowed origin for a request whose host header reads
    /// `host`: everything before the last colon — the host without
    /// its port — behind `http://`. Nothing when the host carries no
    /// colon at all.
    pub fn origin_value(host: &str) -> (r: Option<String>)
        ensures
            match r {
                Some(v) => spec_after_last_colon(host@) > 0 && v@ == "http://"@ + host@.take(
                    spec_after_last_colon(host@) - 1,
                ),
                None => spec_after_last_colon(host@) == 0,
            },
    {
        let n = host.unicode_len();
        let mut b: usize = n;
        proof {
            assert(host@.take(n as int) =~= host@);
        }
        while b > 0 && host.get_char(b - 1) != ':'
            invariant
                n == host@.len(),
                b <= n,
                spec_after_last_colon(host@) == spec_after_last_colon(host@.take(b as int)),
            decreases b,
        {
            proof {
                assert(host@.take(b as int).drop_last() =~= host@.take(b - 1));
            }
            b -= 1;
        }
        if b == 0 {
            proof {
                assert(host@.take(0) =~= Seq::<char>::empty());
            }
            None
        } else {
            proof {
                assert(host@.take(b as int).last() == host@[b - 1]);
            }
            let mut out = String::from_str("http://");
            let stem = host.substring_char(0, b - 1);
            out.append(stem);
            proof {
                assert(stem@ =~= host@.take(b - 1));
            }
            Some(out)
        }
    }

    /// The value of the allow-headers header the dashboard sends.
    pub fn allow_headers_value() -> (r: String)
        ensures
            r@ == "content-type"@,
    {
        String::from_str("content-type")
    }
}

/// Guards the dashboard with the single shared admin secret.
pub struct Auth;

impl Auth {
    /// Does a request pass? With no password configured everything
    /// does; otherwise only the hardcoded dashboard user presenting
    /// exactly the configured password.
    pub fn allows(
        configured: &Option<String>,
        username: &str,
        password: &Option<String>,
    ) -> (r: bool)
        ensures
            r == (match *configured {
                None => true,
                Some(ref c) => username@ == "rita"@ && (match *password {
                    Some(ref p) => p@ == c@,
                    None => false,
                }),
            }),
    {
        match configured {
            None => true,
            Some(c) => {
                if !str_eq(username, "rita") {
                    return false;
                }
                match password {
                    Some(p) => str_eq(p.as_str(), c.as_str()),
                    None => false,
                }
            },
        }
    }
}

} // verus!
