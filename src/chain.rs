use crate::handler::{Handler, Request};
use vstd::prelude::*;

verus! {

/// Why a link was refused.
#[derive(Clone, Copy, Debug, PartialEq, Eq)]
pub enum LinkError {
    /// An index names no node of the chain.
    NoSuchNode,
    /// A node was to become its own successor.
    SelfLink,
    /// The new successor already leads back to the node being linked.
    Cycle,
}

/// The successor of node `i`, as an index, if `i` is a node and has one.
pub open spec fn succ<H: Handler>(nodes: Seq<H>, i: int) -> Option<int> {
    if 0 <= i < nodes.len() {
        match nodes[i].next_spec() {
            Some(j) => Some(j as int),
            None => None,
        }
    } else {
        None
    }
}

/// The node reached from `i` after following `k` successor links, if the
/// chain is that long.
pub open spec fn walk<H: Handler>(nodes: Seq<H>, i: int, k: nat) -> Option<int>
    decreases k,
{
    if k == 0 {
        Some(i)
    } else {
        match walk(nodes, i, (k - 1) as nat) {
            Some(c) => succ(nodes, c),
            None => None,
        }
    }
}

/// Node `j` lies on the chain that starts at node `i` (`i` itself included).
pub open spec fn reaches<H: Handler>(nodes: Seq<H>, i: int, j: int) -> bool {
    exists|k: nat| walk(nodes, i, k) == Some(j)
}

/// `rank` falls strictly along every successor link, and every link names a
/// node.
pub open spec fn ranked<H: Handler>(nodes: Seq<H>, rank: Seq<nat>) -> bool {
    &&& rank.len() == nodes.len()
    &&& forall|i: int|
        0 <= i < nodes.len() && (#[trigger] nodes[i]).next_spec() is Some ==> {
            let j = nodes[i].next_spec()->0 as int;
            0 <= j < nodes.len() && rank[j] < rank[i]
        }
}

/// Every link names a node and no chain comes back to where it started.
pub open spec fn acyclic<H: Handler>(nodes: Seq<H>) -> bool {
    exists|rank: Seq<nat>| ranked(nodes, rank)
}

/// A ranking that witnesses `acyclic`.
pub open spec fn a_ranking<H: Handler>(nodes: Seq<H>) -> Seq<nat> {
    choose|rank: Seq<nat>| ranked(nodes, rank)
}

/// The request text after a dispatch that starts at node `i` with text `s`:
/// each visited node rewrites it in turn, from head to tail.
pub open spec fn run<H: Handler>(nodes: Seq<H>, i: int, s: Seq<char>) -> Seq<char>
    decreases a_ranking(nodes)[i],
    when acyclic(nodes) && 0 <= i < nodes.len()
{
    let t = nodes[i].step(s);
    if nodes[i].forwards(s) && nodes[i].next_spec() is Some {
        proof {
            assert(ranked(nodes, a_ranking(nodes)));
        }
        run(nodes, nodes[i].next_spec()->0 as int, t)
    } else {
        t
    }
}

/// The number of nodes on the chain that starts at node `i`.
pub open spec fn chain_len<H: Handler>(nodes: Seq<H>, i: int) -> nat
    decreases a_ranking(nodes)[i],
    when acyclic(nodes) && 0 <= i < nodes.len()
{
    match nodes[i].next_spec() {
        Some(j) => {
            proof {
                assert(ranked(nodes, a_ranking(nodes)));
            }
            1 + chain_len(nodes, j as int)
        },
        None => 1,
    }
}

/// Following one more link from `i` is following the links from its
/// successor.
proof fn lemma_walk_shift<H: Handler>(nodes: Seq<H>, i: int, j: int, k: nat)
    requires
        succ(nodes, i) == Some(j),
    ensures
        walk(nodes, i, k + 1) == walk(nodes, j, k),
    decreases k,
{
    if k == 0 {
        assert(walk(nodes, i, 0) == Some(i));
    } else {
        lemma_walk_shift(nodes, i, j, (k - 1) as nat);
        assert(walk(nodes, i, k + 1) == match walk(nodes, i, k) {
            Some(c) => succ(nodes, c),
            None => None,
        });
    }
}

/// Once a chain has ended, it stays ended.
proof fn lemma_walk_ended<H: Handler>(nodes: Seq<H>, i: int, k: nat, m: nat)
    requires
        walk(nodes, i, k) is None,
        k <= m,
    ensures
        walk(nodes, i, m) is None,
    decreases m - k,
{
    if k < m {
        lemma_walk_ended(nodes, i, k, (m - 1) as nat);
    }
}

/// Every link of `nodes` stays acyclic after node `from` is given the
/// successor `to`, when `to` does not lead back to `from`.
proof fn lemma_link_keeps_acyclic<H: Handler>(nodes: Seq<H>, from: int, to: usize, relinked: H)
    requires
        relinked.next_spec() == Some(to),
        acyclic(nodes),
        0 <= from < nodes.len(),
        to < nodes.len(),
        !reaches(nodes, to as int, from),
    ensures
        acyclic(nodes.update(from, relinked)),
{
    let linked = nodes.update(from, relinked);
    let rank = a_ranking(nodes);
    assert(ranked(nodes, rank));
    let lift = rank[to as int] + 1;
    let raised = Seq::new(
        nodes.len(),
        |i: int| if reaches(nodes, i, from) { rank[i] + lift } else { rank[i] },
    );
    assert(walk(nodes, from, 0) == Some(from));
    assert(reaches(nodes, from, from));
    assert forall|i: int|
        0 <= i < linked.len() && (#[trigger] linked[i]).next_spec() is Some implies {
            let j = linked[i].next_spec()->0 as int;
            0 <= j < linked.len() && raised[j] < raised[i]
        } by {
        if i != from {
            assert(linked[i] == nodes[i]);
            let j = nodes[i].next_spec()->0 as int;
            assert(0 <= j < nodes.len() && rank[j] < rank[i]);
            if reaches(nodes, j, from) {
                let k = choose|k: nat| walk(nodes, j, k) == Some(from);
                lemma_walk_shift(nodes, i, j, k);
                assert(walk(nodes, i, k + 1) == Some(from));
                assert(reaches(nodes, i, from));
            }
        }
    }
    assert(ranked(linked, raised));
}

/// An ordered set of handlers addressed by index. Each node may name a
/// successor; links always name a node and never form a cycle, so a
/// dispatch from any node ends.
pub struct Chain<H: Handler> {
    nodes: Vec<H>,
}

impl<H: Handler> View for Chain<H> {
    type V = Seq<H>;

    closed spec fn view(&self) -> Seq<H> {
        self.nodes@
    }
}

impl<H: Handler> Chain<H> {
    /// The chain's invariant: its links are acyclic.
    pub open spec fn wf(&self) -> bool {
        acyclic(self@)
    }

    /// A chain with no nodes.
    pub fn new() -> (r: Chain<H>)
        ensures
            r.wf(),
            r@ == Seq::<H>::empty(),
    {
        let r = Chain { nodes: Vec::new() };
        assert(ranked(r@, Seq::<nat>::empty()));
        r
    }

    /// The number of nodes.
    pub fn len(&self) -> (r: usize)
        ensures
            r == self@.len(),
    {
        self.nodes.len()
    }

    /// Adds `node` at the end and returns its index. Its successor, if set,
    /// must be a node already in the chain.
    pub fn add(&mut self, node: H) -> (r: Result<usize, LinkError>)
        requires
            old(self).wf(),
        ensures
            final(self).wf(),
            match node.next_spec() {
                Some(j) if j as int == old(self)@.len() => r == Err::<usize, LinkError>(
                    LinkError::SelfLink,
                ),
                Some(j) if j as int > old(self)@.len() => r == Err::<usize, LinkError>(
                    LinkError::NoSuchNode,
                ),
                _ => r == Ok::<usize, LinkError>(old(self)@.len() as usize),
            },
            r is Ok ==> final(self)@ == old(self)@.push(node),
            r is Err ==> final(self)@ == old(self)@,
    {
        let n = self.nodes.len();
        if let Some(j) = node.next() {
            if j == n {
                return Err(LinkError::SelfLink);
            }
            if j > n {
                return Err(LinkError::NoSuchNode);
            }
        }
        proof {
            let rank = a_ranking(self@);
            assert(ranked(self@, rank));
            let top: nat = match node.next_spec() {
                Some(j) => rank[j as int] + 1,
                None => 0,
            };
            let grown = rank.push(top);
            assert(ranked(self@.push(node), grown)) by {
                assert forall|i: int|
                    0 <= i < self@.push(node).len() && (#[trigger] self@.push(
                        node,
                    )[i]).next_spec() is Some implies {
                    let j = self@.push(node)[i].next_spec()->0 as int;
                    0 <= j < self@.push(node).len() && grown[j] < grown[i]
                } by {
                    if i < n {
                        assert(self@.push(node)[i] == self@[i]);
                    }
                }
            }
        }
        self.nodes.push(node);
        Ok(n)
    }

    /// Makes `to` the successor of `from`, replacing any earlier successor.
    /// Refused when either index names no node, when `from == to`, and when
    /// the chain from `to` already leads to `from`.
    pub fn set_successor(&mut self, from: usize, to: usize) -> (r: Result<(), LinkError>)
        requires
            old(self).wf(),
        ensures
            final(self).wf(),
            from >= old(self)@.len() || to >= old(self)@.len() ==> r == Err::<(), LinkError>(
                LinkError::NoSuchNode,
            ),
            from < old(self)@.len() && to < old(self)@.len() && from == to ==> r == Err::<
                (),
                LinkError,
            >(LinkError::SelfLink),
            from < old(self)@.len() && to < old(self)@.len() && from != to && reaches(
                old(self)@,
                to as int,
                from as int,
            ) ==> r == Err::<(), LinkError>(LinkError::Cycle),
            from < old(self)@.len() && to < old(self)@.len() && !reaches(
                old(self)@,
                to as int,
                from as int,
            ) ==> r == Ok::<(), LinkError>(()),
            r is Ok ==> final(self)@ == old(self)@.update(
                from as int,
                old(self)@[from as int].with_next(to),
            ),
            r is Ok ==> final(self)@[from as int].next_spec() == Some(to),
            r is Err ==> final(self)@ == old(self)@,
    {
        let n = self.nodes.len();
        if from >= n || to >= n {
            return Err(LinkError::NoSuchNode);
        }
        if from == to {
            assert(walk(self@, to as int, 0) == Some(from as int));
            return Err(LinkError::SelfLink);
        }
        let ghost rank = a_ranking(self@);
        proof {
            assert(ranked(self@, rank));
        }
        let mut cur: usize = to;
        let ghost mut k: nat = 0;
        loop
            invariant
                ranked(self@, rank),
                n == self@.len(),
                from < n,
                to < n,
                from != to,
                cur < n,
                walk(self@, to as int, k) == Some(cur as int),
                forall|m: nat| m < k ==> walk(self@, to as int, m) != Some(from as int),
            ensures
                forall|m: nat| walk(self@, to as int, m) != Some(from as int),
            decreases rank[cur as int],
        {
            if cur == from {
                return Err(LinkError::Cycle);
            }
            match self.nodes[cur].next() {
                Some(j) => {
                    proof {
                        assert(walk(self@, to as int, k + 1) == Some(j as int));
                        k = k + 1;
                    }
                    cur = j;
                },
                None => {
                    proof {
                        assert(walk(self@, to as int, k + 1) is None);
                        assert forall|m: nat| walk(self@, to as int, m) != Some(from as int) by {
                            if m > k {
                                lemma_walk_ended(self@, to as int, k + 1, m);
                            }
                        }
                    }
                    break;
                },
            }
        }
        let ghost before = self@;
        self.nodes[from].next_handler(to);
        proof {
            lemma_link_keeps_acyclic(before, from as int, to, self@[from as int]);
        }
        Ok(())
    }

    /// Dispatches `req` from node `head`: each node on the way rewrites the
    /// request, and passes it on while it says so. Returns whether `head`
    /// passed the request on, whatever the nodes after it decided.
    pub fn handle(&self, head: usize, req: &mut Request) -> (handled: bool)
        requires
            self.wf(),
            head < self@.len(),
        ensures
            handled == self@[head as int].forwards(old(req).0@),
            handled ==> self@[head as int].next_spec() is Some,
            final(req).0@ == run(self@, head as int, old(req).0@),
    {
        let ghost rank = a_ranking(self@);
        proof {
            assert(ranked(self@, rank));
        }
        let handled = self.nodes[head].handle(req);
        let mut cur: usize = head;
        let mut forward: bool = handled;
        let ghost mut arrived: Seq<char> = old(req).0@;
        while forward
            invariant
                self.wf(),
                ranked(self@, rank),
                cur < self@.len(),
                forward == self@[cur as int].forwards(arrived),
                req.0@ == self@[cur as int].step(arrived),
                forward ==> self@[cur as int].next_spec() is Some,
                run(self@, head as int, old(req).0@) == run(self@, cur as int, arrived),
            decreases rank[cur as int],
        {
            let next = self.nodes[cur].next();
            let next = next.unwrap();
            proof {
                arrived = req.0@;
            }
            cur = next;
            forward = self.nodes[cur].handle(req);
        }
        handled
    }

    /// Node `i`.
    pub fn node(&self, i: usize) -> (r: &H)
        requires
            i < self@.len(),
        ensures
            *r == self@[i as int],
    {
        &self.nodes[i]
    }
}

} // verus!
