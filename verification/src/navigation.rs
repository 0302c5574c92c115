//! Navigation: the routing preference passed to ESI's route solver.
//!
//! Routes are solved server-side (`GET /route/{origin}/{destination}/`); the
//! library owns the flag and its wire form.

use vstd::prelude::*;
use crate::text::str_eq;

verus! {

/// Routing preference passed to ESI's route solver.
#[derive(Debug, Clone, Copy, PartialEq, Eq, Structural)]
pub enum RouteFlag {
    Shortest,
    Secure,
    Insecure,
}

/// The wire form of a route flag.
pub open spec fn flag_name(f: RouteFlag) -> Seq<char> {
    match f {
        RouteFlag::Shortest => "shortest"@,
        RouteFlag::Secure => "secure"@,
        RouteFlag::Insecure => "insecure"@,
    }
}

/// The flag a wire string names; anything unknown means shortest.
pub open spec fn flag_of(s: Seq<char>) -> RouteFlag {
    if s == "secure"@ {
        RouteFlag::Secure
    } else if s == "insecure"@ {
        RouteFlag::Insecure
    } else {
        RouteFlag::Shortest
    }
}

impl RouteFlag {
    /// The query-string value ESI expects.
    pub fn as_str(self) -> (r: &'static str)
        ensures
            r@ == flag_name(self),
    {
        match self {
            RouteFlag::Shortest => "shortest",
            RouteFlag::Secure => "secure",
            RouteFlag::Insecure => "insecure",
        }
    }

    /// Parse the wire form; unknown values fall back to shortest.
    pub fn parse(s: &str) -> (r: RouteFlag)
        ensures
            r == flag_of(s@),
    {
        if str_eq(s, "secure") {
            RouteFlag::Secure
        } else if str_eq(s, "insecure") {
            RouteFlag::Insecure
        } else {
            RouteFlag::Shortest
        }
    }
}

/// Parsing the wire form of a flag gives that flag back.
pub proof fn lemma_flag_round_trip(f: RouteFlag)
    ensures
        flag_of(flag_name(f)) == f,
{
    reveal_strlit("shortest");
    reveal_strlit("secure");
    reveal_strlit("insecure");
    assert("secure"@.len() != "insecure"@.len());
    assert("shortest"@[0] != "insecure"@[0]);
    assert("shortest"@[1] != "secure"@[1]);
}

} // verus!
