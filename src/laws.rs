use crate::chain::{a_ranking, acyclic, chain_len, ranked, run};
use crate::handler::{doubled_line, doubled_lines, Handler, ReqHandler};
use vstd::arithmetic::power2::{lemma_pow2_unfold, pow2};
use vstd::arithmetic::power::pow;
use vstd::prelude::*;

verus! {

/// One more rewrite applied first is one more rewrite in all.
proof fn lemma_doubled_lines_first(s: Seq<char>, n: nat)
    ensures
        doubled_lines(doubled_line(s), n) == doubled_lines(s, n + 1),
    decreases n,
{
    if n == 0 {
        assert(doubled_lines(s, 1) == doubled_line(doubled_lines(s, 0)));
    } else {
        lemma_doubled_lines_first(s, (n - 1) as nat);
        assert(doubled_lines(s, n + 1) == doubled_line(doubled_lines(s, n)));
    }
}

/// A dispatch from `head` over a chain of `ReqHandler`s, which never refuse
/// to forward, rewrites the request exactly once per node of the chain that
/// starts at `head`.
pub proof fn lemma_dispatch_rewrites_once_per_node(nodes: Seq<ReqHandler>, head: int, s: Seq<char>)
    requires
        acyclic(nodes),
        0 <= head < nodes.len(),
    ensures
        run(nodes, head, s) == doubled_lines(s, chain_len(nodes, head)),
    decreases a_ranking(nodes)[head],
{
    assert(ranked(nodes, a_ranking(nodes)));
    match nodes[head].next {
        Some(j) => {
            lemma_dispatch_rewrites_once_per_node(nodes, j as int, doubled_line(s));
            lemma_doubled_lines_first(s, chain_len(nodes, j as int));
        },
        None => {
            assert(doubled_lines(s, 1) == doubled_line(doubled_lines(s, 0)));
        },
    }
}

/// A node applies its own rewrite before it forwards: a dispatch from
/// `head` leaves exactly what the dispatch from its successor leaves on the
/// text that `head` produced, and when `head` stops the request the text is
/// what `head` made of it.
pub proof fn lemma_dispatch_rewrites_before_forwarding<H: Handler>(
    nodes: Seq<H>,
    head: int,
    s: Seq<char>,
)
    requires
        acyclic(nodes),
        0 <= head < nodes.len(),
    ensures
        nodes[head].forwards(s) && nodes[head].next_spec() is Some ==> run(nodes, head, s) == run(
            nodes,
            nodes[head].next_spec()->0 as int,
            nodes[head].step(s),
        ),
        !nodes[head].forwards(s) ==> run(nodes, head, s) == nodes[head].step(s),
{
}

/// After `n` rewrites the text has grown from length `l` to
/// `(l + 1) * 2^n - 1`: each rewrite doubles it and adds one newline.
pub proof fn lemma_doubled_lines_len(s: Seq<char>, n: nat)
    ensures
        doubled_lines(s, n).len() + 1 == (s.len() + 1) * pow2(n),
    decreases n,
{
    if n == 0 {
        assert(pow2(0) == 1) by {
            reveal(pow);
        }
    } else {
        lemma_doubled_lines_len(s, (n - 1) as nat);
        lemma_pow2_unfold(n);
        let before = doubled_lines(s, (n - 1) as nat).len();
        assert(doubled_lines(s, n).len() == 2 * before + 1);
        assert((s.len() + 1) * (2 * pow2((n - 1) as nat)) == 2 * ((s.len() + 1) * pow2(
            (n - 1) as nat,
        ))) by (nonlinear_arith);
    }
}

/// Every dispatch visits its head: a chain holds at least one node, and it
/// holds exactly one when the head has no successor.
pub proof fn lemma_dispatch_visits_head<H: Handler>(nodes: Seq<H>, head: int)
    requires
        acyclic(nodes),
        0 <= head < nodes.len(),
    ensures
        nodes.len() >= 1,
        chain_len(nodes, head) >= 1,
        chain_len(nodes, head) == 1 <==> nodes[head].next_spec() is None,
{
    assert(ranked(nodes, a_ranking(nodes)));
    if let Some(j) = nodes[head].next_spec() {
        assert(chain_len(nodes, head) == 1 + chain_len(nodes, j as int));
    }
}

} // verus!
