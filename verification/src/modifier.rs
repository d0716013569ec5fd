//! Modifiers: transforms wrapped around handlers when scopes are
//! composed, applied at build time.

use vstd::prelude::*;
use crate::lifecycle::Response;
use crate::scope::{Context, Error};

verus! {

/// A transform around the handlers of a scope.  `setup` runs once while
/// the scope is configured; `modify` wraps each result a handler
/// produces.
pub trait Modifier: Sized {
    fn setup(&mut self, cx: &mut Context) -> (r: Result<(), Error>)
        requires
            old(cx).wf(),
        ensures
            final(cx).wf(),
            old(cx).app.scopes.len_spec() <= final(cx).app.scopes.len_spec(),
    ;

    fn modify(&self, result: Response) -> Response;
}

impl Modifier for () {
    fn setup(&mut self, cx: &mut Context) -> (r: Result<(), Error>) {
        Ok(())
    }

    fn modify(&self, result: Response) -> Response {
        result
    }
}

/// Two modifiers in sequence: the left one wraps the right one.
#[derive(Debug)]
pub struct Chain<M1, M2> {
    pub m1: M1,
    pub m2: M2,
}

impl<M1, M2> Chain<M1, M2> {
    pub fn new(m1: M1, m2: M2) -> (r: Chain<M1, M2>)
        ensures
            r.m1 == m1,
            r.m2 == m2,
    {
        Chain { m1, m2 }
    }
}

impl<M1: Modifier, M2: Modifier> Modifier for Chain<M1, M2> {
    fn setup(&mut self, cx: &mut Context) -> (r: Result<(), Error>) {
        match self.m1.setup(cx) {
            Ok(()) => {},
            Err(e) => {
                return Err(e);
            },
        }
        self.m2.setup(cx)
    }

    fn modify(&self, result: Response) -> Response {
        self.m1.modify(self.m2.modify(result))
    }
}

} // verus!
