//! Building a chain of HTTP request handlers, one per path and method.
use vstd::prelude::*;
use vstd::string::StringSliceAdditionalSpecFns;

verus! {

/// The request methods a handler can be registered for.
#[derive(Clone, Copy, Debug, PartialEq, Eq, Structural)]
pub enum Method {
    Delete,
    Get,
    Head,
    Post,
    Put,
    Connect,
    Options,
    Trace,
    Patch,
}

/// A handler for `method` requests to `path`, followed by the rest of the chain.
pub struct HandlerChain<H, N> {
    pub path: &'static str,
    pub method: Method,
    pub handler: H,
    pub next: N,
}

impl<H, N> HandlerChain<H, N> {
    pub fn new(path: &'static str, method: Method, handler: H, next: N) -> (r: HandlerChain<H, N>)
        ensures
            r.path == path,
            r.method == method,
            r.handler == handler,
            r.next == next,
    {
        HandlerChain { path, method, handler, next }
    }

    /// A request for `path` with `method` goes to this link's handler;
    /// any other passes down the chain.
    pub fn accepts(&self, path: &str, method: Method) -> (r: bool)
        ensures
            r == (self.path.spec_bytes() == path.spec_bytes() && self.method == method),
    {
        same_bytes(self.path.as_bytes(), path.as_bytes()) && self.method == method
    }
}

fn same_bytes(a: &[u8], b: &[u8]) -> (r: bool)
    ensures
        r == (a@ == b@),
{
    if a.len() != b.len() {
        return false;
    }
    let mut i: usize = 0;
    while i < a.len()
        invariant
            i <= a@.len(),
            a@.len() == b@.len(),
            forall|j: int| 0 <= j < i ==> a@[j] == b@[j],
        decreases a.len() - i,
    {
        if a[i] != b[i] {
            return false;
        }
        i = i + 1;
    }
    assert(a@ =~= b@);
    true
}

/// Registers handlers at the current path, on top of the chain built so far.
pub struct HandlerChainBuilder<H> {
    pub path: &'static str,
    pub handler: H,
}

impl HandlerChainBuilder<()> {
    fn empty(path: &'static str) -> (r: HandlerChainBuilder<()>)
        ensures
            r.path == path,
    {
        HandlerChainBuilder { path, handler: () }
    }
}

impl<H> HandlerChainBuilder<H> {
    /// Adds `handler` for `method` at the current path, in front of the chain.
    pub fn method<H2>(self, method: Method, handler: H2) -> (r: HandlerChainBuilder<
        HandlerChain<H2, H>,
    >)
        ensures
            r.path == self.path,
            r.handler.path == self.path,
            r.handler.method == method,
            r.handler.handler == handler,
            r.handler.next == self.handler,
    {
        let path = self.path;
        HandlerChainBuilder { path, handler: HandlerChain::new(path, method, handler, self.handler) }
    }

    pub fn get<H2>(self, handler: H2) -> (r: HandlerChainBuilder<HandlerChain<H2, H>>)
        ensures
            r.path == self.path,
            r.handler == (HandlerChain { path: self.path, method: Method::Get, handler, next: self.handler }),
    {
        self.method(Method::Get, handler)
    }

    pub fn post<H2>(self, handler: H2) -> (r: HandlerChainBuilder<HandlerChain<H2, H>>)
        ensures
            r.path == self.path,
            r.handler == (HandlerChain { path: self.path, method: Method::Post, handler, next: self.handler }),
    {
        self.method(Method::Post, handler)
    }

    pub fn put<H2>(self, handler: H2) -> (r: HandlerChainBuilder<HandlerChain<H2, H>>)
        ensures
            r.path == self.path,
            r.handler == (HandlerChain { path: self.path, method: Method::Put, handler, next: self.handler }),
    {
        self.method(Method::Put, handler)
    }

    pub fn delete<H2>(self, handler: H2) -> (r: HandlerChainBuilder<HandlerChain<H2, H>>)
        ensures
            r.path == self.path,
            r.handler == (HandlerChain { path: self.path, method: Method::Delete, handler, next: self.handler }),
    {
        self.method(Method::Delete, handler)
    }

    /// Moves on to another path, keeping the chain.
    pub fn at(self, path: &'static str) -> (r: HandlerChainBuilder<H>)
        ensures
            r.path == path,
            r.handler == self.handler,
    {
        HandlerChainBuilder { path, handler: self.handler }
    }

    /// The chain built.
    pub fn create(self) -> (r: H)
        ensures
            r == self.handler,
    {
        self.handler
    }
}

/// The start of a chain: no handler yet.
pub struct RootHandlerChainBuilder<H>(pub H);

impl RootHandlerChainBuilder<()> {
    pub fn new() -> (r: RootHandlerChainBuilder<()>) {
        RootHandlerChainBuilder(())
    }

    /// Starts registering at `path`.
    pub fn at(self, path: &'static str) -> (r: HandlerChainBuilder<()>)
        ensures
            r.path == path,
    {
        HandlerChainBuilder::empty(path)
    }

    /// The empty chain.
    pub fn create(self) -> (r: ()) {
        self.0
    }
}

} // verus!
