use vstd::prelude::*;
use vstd::string::*;

verus! {

/// A request travelling through a chain: one text value that each handler
/// reads and rewrites in place.
pub struct Request(pub String);

/// The transformation of `ReqHandler`: the text twice over, then a newline.
pub open spec fn doubled_line(s: Seq<char>) -> Seq<char> {
    s + s + seq!['\n']
}

/// The text `s` after `n` rewrites by `ReqHandler`.
pub open spec fn doubled_lines(s: Seq<char>, n: nat) -> Seq<char>
    decreases n,
{
    if n == 0 {
        s
    } else {
        doubled_line(doubled_lines(s, (n - 1) as nat))
    }
}

/// One link of a chain. A handler knows the index of its successor, if it
/// has one, rewrites a request, and says whether the request goes on.
pub trait Handler: Sized {
    /// The index of the successor, if one is set.
    spec fn next_spec(&self) -> Option<usize>;

    /// What `handle` makes of the request text `s`.
    spec fn step(&self, s: Seq<char>) -> Seq<char>;

    /// Whether `handle` passes on a request whose text was `s` on arrival.
    /// A handler may stop a request although it has a successor.
    spec fn forwards(&self, s: Seq<char>) -> bool;

    /// This handler with its successor set to `next`, all else kept.
    spec fn with_next(&self, next: usize) -> Self;

    /// Sets the successor, replacing any earlier one.
    fn next_handler(&mut self, next: usize)
        ensures
            *final(self) == old(self).with_next(next),
            final(self).next_spec() == Some(next),
    ;

    /// The index of the successor, if one is set.
    fn next(&self) -> (r: Option<usize>)
        ensures
            r == self.next_spec(),
    ;

    /// Rewrites the request and returns whether it is to be passed on; a
    /// handler passes a request on only when it has a successor.
    fn handle(&self, req: &mut Request) -> (forward: bool)
        ensures
            final(req).0@ == self.step(old(req).0@),
            forward == self.forwards(old(req).0@),
            forward ==> self.next_spec() is Some,
    ;
}

/// The handler of this library: it doubles the text, appends a newline and
/// forwards whenever a successor is set.
#[derive(Clone, Copy, Debug, PartialEq, Eq)]
pub struct ReqHandler {
    pub next: Option<usize>,
}

impl ReqHandler {
    /// A handler with no successor.
    pub fn new() -> (r: ReqHandler)
        ensures
            r.next is None,
    {
        ReqHandler { next: None }
    }
}

impl Handler for ReqHandler {
    open spec fn next_spec(&self) -> Option<usize> {
        self.next
    }

    open spec fn step(&self, s: Seq<char>) -> Seq<char> {
        doubled_line(s)
    }

    open spec fn forwards(&self, s: Seq<char>) -> bool {
        self.next is Some
    }

    open spec fn with_next(&self, next: usize) -> ReqHandler {
        ReqHandler { next: Some(next) }
    }

    fn next_handler(&mut self, next: usize) {
        self.next = Some(next);
    }

    fn next(&self) -> (r: Option<usize>) {
        self.next
    }

    fn handle(&self, req: &mut Request) -> (forward: bool) {
        rewrite_doubled_line(req);
        self.next.is_some()
    }
}

/// Rewrites the request text `s` to `s + s + "\n"`.
fn rewrite_doubled_line(req: &mut Request)
    ensures
        final(req).0@ == doubled_line(old(req).0@),
{
    let content = req.0.clone();
    let twice = content.clone().concat(content.as_str());
    req.0 = twice.concat("\n");
    proof {
        reveal_strlit("\n");
    }
    assert(req.0@ =~= doubled_line(content@));
}

/// A handler that rewrites like `ReqHandler` but passes the request on only
/// when `pass` is set: with `pass` unset it swallows every request, successor
/// or not.
#[derive(Clone, Copy, Debug, PartialEq, Eq)]
pub struct GateHandler {
    pub next: Option<usize>,
    pub pass: bool,
}

impl GateHandler {
    /// A gate with no successor that passes requests on when `pass` is set.
    pub fn new(pass: bool) -> (r: GateHandler)
        ensures
            r.next is None,
            r.pass == pass,
    {
        GateHandler { next: None, pass }
    }
}

impl Handler for GateHandler {
    open spec fn next_spec(&self) -> Option<usize> {
        self.next
    }

    open spec fn step(&self, s: Seq<char>) -> Seq<char> {
        doubled_line(s)
    }

    open spec fn forwards(&self, s: Seq<char>) -> bool {
        self.pass && self.next is Some
    }

    open spec fn with_next(&self, next: usize) -> GateHandler {
        GateHandler { next: Some(next), pass: self.pass }
    }

    fn next_handler(&mut self, next: usize) {
        self.next = Some(next);
    }

    fn next(&self) -> (r: Option<usize>) {
        self.next
    }

    fn handle(&self, req: &mut Request) -> (forward: bool) {
        rewrite_doubled_line(req);
        self.pass && self.next.is_some()
    }
}

} // verus!
