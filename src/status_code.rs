//! Response status codes.
use vstd::prelude::*;

verus! {

/// The statuses this server answers with.
#[derive(PartialEq, Eq, Structural, Debug, Clone, Copy)]
pub enum StatusCode {
    OK,
    REDIRECT,
    UNAVAILABLE,
    INTERNALERR,
    NOTFOUND,
}

/// The numeric code of a status.
pub open spec fn code_of(s: StatusCode) -> nat {
    match s {
        StatusCode::OK => 200,
        StatusCode::REDIRECT => 301,
        StatusCode::UNAVAILABLE => 503,
        StatusCode::INTERNALERR => 500,
        StatusCode::NOTFOUND => 404,
    }
}

/// The decimal digits of a three-digit number.
pub open spec fn digits3(n: nat) -> Seq<char> {
    seq![
        (('0' as u32) + n / 100) as char,
        (('0' as u32) + (n / 10) % 10) as char,
        (('0' as u32) + n % 10) as char,
    ]
}

impl StatusCode {
    /// The numeric code.
    pub fn code(&self) -> (r: u16)
        ensures
            r == code_of(*self),
    {
        match self {
            StatusCode::OK => 200,
            StatusCode::REDIRECT => 301,
            StatusCode::UNAVAILABLE => 503,
            StatusCode::INTERNALERR => 500,
            StatusCode::NOTFOUND => 404,
        }
    }

    /// The numeric code in decimal.
    pub fn code_text(&self) -> (r: &'static str)
        ensures
            r@ == digits3(code_of(*self)),
    {
        match self {
            StatusCode::OK => {
                proof {
                    reveal_strlit("200");
                }
                "200"
            },
            StatusCode::REDIRECT => {
                proof {
                    reveal_strlit("301");
                }
                "301"
            },
            StatusCode::UNAVAILABLE => {
                proof {
                    reveal_strlit("503");
                }
                "503"
            },
            StatusCode::INTERNALERR => {
                proof {
                    reveal_strlit("500");
                }
                "500"
            },
            StatusCode::NOTFOUND => {
                proof {
                    reveal_strlit("404");
                }
                "404"
            },
        }
    }
}

} // verus!
