//! Request methods.
use vstd::prelude::*;

use crate::text::str_eq;

verus! {

/// The request methods this server tells apart.
#[derive(PartialEq, Eq, Structural, Debug, Clone, Copy)]
pub enum Method {
    GET,
    POST,
    PUT,
    DELETE,
    PATCH,
}

/// The method a request-line token names: any token other than the five
/// known names is taken as `GET`.
pub open spec fn method_of(token: Seq<char>) -> Method {
    if token == "POST"@ {
        Method::POST
    } else if token == "PUT"@ {
        Method::PUT
    } else if token == "DELETE"@ {
        Method::DELETE
    } else if token == "PATCH"@ {
        Method::PATCH
    } else {
        Method::GET
    }
}

impl vstd::std_specs::convert::FromSpecImpl<&str> for Method {
    open spec fn obeys_from_spec() -> bool {
        true
    }

    open spec fn from_spec(token: &str) -> Method {
        method_of(token@)
    }
}

impl From<&str> for Method {
    /// The method that `token` names, `GET` for an unknown token.
    fn from(token: &str) -> (r: Method)
        ensures
            r == method_of(token@),
    {
        if str_eq(token, "POST") {
            Method::POST
        } else if str_eq(token, "PUT") {
            Method::PUT
        } else if str_eq(token, "DELETE") {
            Method::DELETE
        } else if str_eq(token, "PATCH") {
            Method::PATCH
        } else {
            Method::GET
        }
    }
}

impl Method {
    /// Whether `token` is one of the five method names; `from` maps any
    /// other token to `GET`, which a server reports as a warning.
    pub fn is_known(token: &str) -> (r: bool)
        ensures
            r <==> (token@ == "GET"@ || token@ == "POST"@ || token@ == "PUT"@ || token@
                == "DELETE"@ || token@ == "PATCH"@),
    {
        str_eq(token, "GET") || str_eq(token, "POST") || str_eq(token, "PUT") || str_eq(
            token,
            "DELETE",
        ) || str_eq(token, "PATCH")
    }
}

} // verus!
