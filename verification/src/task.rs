//! Units of work and the handles by which their completion is awaited.

use vstd::prelude::*;

verus! {

/// One unit of work: a handler, the parameter to call it with, and the flag
/// that says whether the call was made. The ticket names the unit in the pool
/// that issued it.
pub struct Task<H: Fn(usize)> {
    handler: H,
    param: usize,
    is_done: bool,
    ticket: usize,
}

impl<H: Fn(usize)> Task<H> {
    /// The handler accepts the parameter, and the flag is up only when the
    /// handler has returned from it.
    #[verifier::type_invariant]
    closed spec fn sound(self) -> bool {
        &&& call_requires(self.handler, (self.param,))
        &&& self.is_done ==> call_ensures(self.handler, (self.param,), ())
    }

    pub closed spec fn handler(self) -> H {
        self.handler
    }

    pub closed spec fn param(self) -> usize {
        self.param
    }

    /// The completion flag.
    pub closed spec fn done(self) -> bool {
        self.is_done
    }

    pub closed spec fn ticket(self) -> usize {
        self.ticket
    }

    /// A unit of work that has not run yet.
    pub fn new(handler: H, param: usize, ticket: usize) -> (task: Task<H>)
        requires
            call_requires(handler, (param,)),
        ensures
            task.handler() == handler,
            task.param() == param,
            task.ticket() == ticket,
            !task.done(),
    {
        Task { handler, param, is_done: false, ticket }
    }

    /// Calls the handler with the parameter, then raises the completion flag.
    pub fn invoke(&mut self)
        ensures
            final(self).done(),
            call_ensures(old(self).handler(), (old(self).param(),), ()),
            final(self).handler() == old(self).handler(),
            final(self).param() == old(self).param(),
            final(self).ticket() == old(self).ticket(),
    {
        proof {
            use_type_invariant(&*self);
        }
        (self.handler)(self.param);
        self.is_done = true;
    }

    /// Reads the completion flag. A raised flag means that the handler has
    /// returned from the call.
    pub fn is_done(&self) -> (done: bool)
        ensures
            done == self.done(),
            done ==> call_ensures(self.handler(), (self.param(),), ()),
    {
        proof {
            use_type_invariant(self);
        }
        self.is_done
    }

    /// The ticket under which the pool knows this unit.
    pub fn get_ticket(&self) -> (ticket: usize)
        ensures
            ticket == self.ticket(),
    {
        self.ticket
    }
}

} // verus!
