//! HTTP request methods, modelled as a closed enumeration.

use vstd::prelude::*;
use crate::strutil::str_eq;

verus! {

/// An HTTP request method.
#[derive(Clone, Copy, Debug, PartialEq, Eq, Structural)]
pub enum Method {
    Get,
    Post,
    Put,
    Delete,
    Head,
    Options,
    Connect,
    Patch,
    Trace,
}

impl Method {
    /// The canonical upper-case name of the method, as a character sequence.
    pub open spec fn name_spec(self) -> Seq<char> {
        match self {
            Method::Get => seq!['G', 'E', 'T'],
            Method::Post => seq!['P', 'O', 'S', 'T'],
            Method::Put => seq!['P', 'U', 'T'],
            Method::Delete => seq!['D', 'E', 'L', 'E', 'T', 'E'],
            Method::Head => seq!['H', 'E', 'A', 'D'],
            Method::Options => seq!['O', 'P', 'T', 'I', 'O', 'N', 'S'],
            Method::Connect => seq!['C', 'O', 'N', 'N', 'E', 'C', 'T'],
            Method::Patch => seq!['P', 'A', 'T', 'C', 'H'],
            Method::Trace => seq!['T', 'R', 'A', 'C', 'E'],
        }
    }

    /// The method named by `name`, if any; names are matched exactly.
    pub open spec fn from_name_spec(name: Seq<char>) -> Option<Method> {
        if name == Method::Get.name_spec() {
            Some(Method::Get)
        } else if name == Method::Post.name_spec() {
            Some(Method::Post)
        } else if name == Method::Put.name_spec() {
            Some(Method::Put)
        } else if name == Method::Delete.name_spec() {
            Some(Method::Delete)
        } else if name == Method::Head.name_spec() {
            Some(Method::Head)
        } else if name == Method::Options.name_spec() {
            Some(Method::Options)
        } else if name == Method::Connect.name_spec() {
            Some(Method::Connect)
        } else if name == Method::Patch.name_spec() {
            Some(Method::Patch)
        } else if name == Method::Trace.name_spec() {
            Some(Method::Trace)
        } else {
            None
        }
    }

    /// The canonical upper-case name of the method.
    pub fn as_str(&self) -> (r: &'static str)
        ensures
            r@ == self.name_spec(),
    {
        match self {
            Method::Get => {
                proof { reveal_strlit("GET"); }
                assert("GET"@ =~= Method::Get.name_spec());
                "GET"
            },
            Method::Post => {
                proof { reveal_strlit("POST"); }
                assert("POST"@ =~= Method::Post.name_spec());
                "POST"
            },
            Method::Put => {
                proof { reveal_strlit("PUT"); }
                assert("PUT"@ =~= Method::Put.name_spec());
                "PUT"
            },
            Method::Delete => {
                proof { reveal_strlit("DELETE"); }
                assert("DELETE"@ =~= Method::Delete.name_spec());
                "DELETE"
            },
            Method::Head => {
                proof { reveal_strlit("HEAD"); }
                assert("HEAD"@ =~= Method::Head.name_spec());
                "HEAD"
            },
            Method::Options => {
                proof { reveal_strlit("OPTIONS"); }
                assert("OPTIONS"@ =~= Method::Options.name_spec());
                "OPTIONS"
            },
            Method::Connect => {
                proof { reveal_strlit("CONNECT"); }
                assert("CONNECT"@ =~= Method::Connect.name_spec());
                "CONNECT"
            },
            Method::Patch => {
                proof { reveal_strlit("PATCH"); }
                assert("PATCH"@ =~= Method::Patch.name_spec());
                "PATCH"
            },
            Method::Trace => {
                proof { reveal_strlit("TRACE"); }
                assert("TRACE"@ =~= Method::Trace.name_spec());
                "TRACE"
            },
        }
    }

    /// Parses a method from its exact upper-case name.
    pub fn from_name(name: &str) -> (r: Option<Method>)
        ensures
            r == Method::from_name_spec(name@),
    {
        let candidates: [Method; 9] = [
            Method::Get,
            Method::Post,
            Method::Put,
            Method::Delete,
            Method::Head,
            Method::Options,
            Method::Connect,
            Method::Patch,
            Method::Trace,
        ];
        let mut i: usize = 0;
        while i < 9
            invariant
                0 <= i <= 9,
                candidates@ =~= seq![
                    Method::Get, Method::Post, Method::Put, Method::Delete, Method::Head,
                    Method::Options, Method::Connect, Method::Patch, Method::Trace,
                ],
                forall|k: int| 0 <= k < i ==> candidates@[k].name_spec() != name@,
            decreases 9 - i,
        {
            let m = candidates[i];
            if str_eq(m.as_str(), name) {
                return Some(m);
            }
            i = i + 1;
        }
        None
    }
}

} // verus!
