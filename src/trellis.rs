//! The trellis of one beam search: an append-only forest of partial base
//! sequences. Node 0 is the root (the empty sequence); every other node
//! extends its parent by one base, and no two nodes hold the same sequence.
use vstd::prelude::*;
use crate::context::{
    context_of,
    is_base,
    is_base_path,
    lemma_context_of_push,
    lemma_context_of_wf,
    Context,
};

verus! {

/// The id that a child slot holds while it has no child: the root is nobody's
/// child.
pub const NO_CHILD: usize = 0;

/// One node of the trellis.
#[derive(Clone, Copy, Debug)]
pub struct Node {
    /// The base this node appends (0 at the root).
    pub symbol: u8,
    /// The node it extends (0 at the root).
    pub parent: usize,
    /// For each base `b` in `1..=4`, at `b - 1`, the child that appends it,
    /// or `NO_CHILD`.
    pub children: [usize; 4],
    /// The context of this node's sequence.
    pub ctx: Context,
}

/// The sequence of bases that node `i` stands for.
pub open spec fn node_path(nodes: Seq<Node>, i: int) -> Seq<u8>
    decreases i,
{
    if 0 < i < nodes.len() && nodes[i].parent < i {
        node_path(nodes, nodes[i].parent as int).push(nodes[i].symbol)
    } else {
        Seq::empty()
    }
}

/// The forest invariant over a sequence of nodes.
pub open spec fn nodes_wf(nodes: Seq<Node>) -> bool {
    &&& nodes.len() >= 1
    &&& forall|i: int|
        0 < i < nodes.len() ==> {
            &&& #[trigger] nodes[i].parent < i
            &&& is_base(nodes[i].symbol)
            &&& nodes[nodes[i].parent as int].children@[nodes[i].symbol - 1] == i
        }
    &&& forall|i: int, k: int|
        0 <= i < nodes.len() && 0 <= k < 4 && #[trigger] nodes[i].children@[k] != NO_CHILD ==> {
            let c = nodes[i].children@[k] as int;
            &&& 0 < c < nodes.len()
            &&& nodes[c].parent == i
            &&& nodes[c].symbol == k + 1
        }
    &&& forall|i: int|
        0 <= i < nodes.len() ==> #[trigger] nodes[i].ctx == context_of(node_path(nodes, i))
}

/// The trellis of one search.
pub struct Forest {
    nodes: Vec<Node>,
}

impl Forest {
    /// The nodes, by id.
    pub closed spec fn nodes_view(&self) -> Seq<Node> {
        self.nodes@
    }

    /// Number of nodes.
    pub open spec fn len_spec(&self) -> int {
        self.nodes_view().len() as int
    }

    /// The sequence of bases of node `i`.
    pub open spec fn path_of(&self, i: int) -> Seq<u8> {
        node_path(self.nodes_view(), i)
    }

    pub open spec fn wf(&self) -> bool {
        nodes_wf(self.nodes_view())
    }

    /// A forest of the root alone.
    pub fn new() -> (r: Forest)
        ensures
            r.wf(),
            r.len_spec() == 1,
            r.path_of(0) == Seq::<u8>::empty(),
    {
        let root = Node {
            symbol: 0,
            parent: 0,
            children: [NO_CHILD, NO_CHILD, NO_CHILD, NO_CHILD],
            ctx: Context::initial(),
        };
        let nodes = vec![root];
        let r = Forest { nodes };
        assert(r.nodes@[0].children@[0] == NO_CHILD);
        r
    }

    /// Number of nodes.
    pub fn len(&self) -> (r: usize)
        ensures
            r == self.len_spec(),
    {
        self.nodes.len()
    }

    /// The context of node `i`'s sequence.
    pub fn context(&self, i: usize) -> (r: Context)
        requires
            self.wf(),
            i < self.len_spec(),
        ensures
            r == context_of(self.path_of(i as int)),
            r.wf(),
    {
        proof {
            lemma_path_is_bases(self.nodes@, i as int);
            lemma_context_of_wf(self.path_of(i as int));
        }
        self.nodes[i].ctx
    }

    /// The node that extends `parent` by base `s`: the one there is, or a new
    /// one with the next id. Nodes already there keep their sequences.
    pub fn child(&mut self, parent: usize, s: u8) -> (r: usize)
        requires
            old(self).wf(),
            parent < old(self).len_spec(),
            is_base(s),
            old(self).len_spec() < usize::MAX,
        ensures
            final(self).wf(),
            0 < r < final(self).len_spec(),
            final(self).path_of(r as int) == old(self).path_of(parent as int).push(s),
            forall|i: int|
                0 <= i < old(self).len_spec() ==> #[trigger] final(self).path_of(i) == old(
                    self,
                ).path_of(i),
            (exists|j: int|
                0 <= j < old(self).len_spec() && old(self).path_of(j) == old(self).path_of(
                    parent as int,
                ).push(s)) ==> r < old(self).len_spec() && final(self).len_spec() == old(
                self,
            ).len_spec(),
            r == old(self).len_spec() ==> final(self).len_spec() == old(self).len_spec() + 1,
            r < old(self).len_spec() || r == old(self).len_spec(),
    {
        let existing = self.nodes[parent].children[(s - 1) as usize];
        if existing != NO_CHILD {
            proof {
                let c = existing as int;
                assert(self.nodes@[parent as int].children@[s - 1] != NO_CHILD);
                assert(self.nodes@[c].parent == parent);
                assert(node_path(self.nodes@, c) == node_path(self.nodes@, parent as int).push(
                    s,
                ));
            }
            return existing;
        }
        let ghost old_nodes = self.nodes@;
        let id = self.nodes.len();
        let ctx = self.nodes[parent].ctx;
        proof {
            lemma_path_is_bases(old_nodes, parent as int);
            lemma_context_of_wf(node_path(old_nodes, parent as int));
            lemma_context_of_push(node_path(old_nodes, parent as int), s);
        }
        let node = Node {
            symbol: s,
            parent,
            children: [NO_CHILD, NO_CHILD, NO_CHILD, NO_CHILD],
            ctx: ctx.advance(s),
        };
        let mut pnode = self.nodes[parent];
        pnode.children[(s - 1) as usize] = id;
        self.nodes.set(parent, pnode);
        self.nodes.push(node);
        proof {
            let nodes = self.nodes@;
            assert forall|i: int| 0 <= i < old_nodes.len() implies #[trigger] node_path(nodes, i)
                == node_path(old_nodes, i) by {
                lemma_path_stable(old_nodes, nodes, i);
            }
            assert(node_path(nodes, id as int) == node_path(nodes, parent as int).push(s));
            assert forall|i: int|
                0 <= i < nodes.len() implies #[trigger] nodes[i].ctx == context_of(
                node_path(nodes, i),
            ) by {
                if i < old_nodes.len() {
                    lemma_path_stable(old_nodes, nodes, i);
                }
            }
            assert forall|i: int, k: int|
                0 <= i < nodes.len() && 0 <= k < 4 && #[trigger] nodes[i].children@[k]
                    != NO_CHILD implies {
                let c = nodes[i].children@[k] as int;
                &&& 0 < c < nodes.len()
                &&& nodes[c].parent == i
                &&& nodes[c].symbol == k + 1
            } by {
                if i == parent && k == s - 1 {
                } else if i < old_nodes.len() {
                    assert(nodes[i].children@[k] == old_nodes[i].children@[k]);
                }
            }
            assert forall|i: int| 0 < i < nodes.len() implies {
                &&& #[trigger] nodes[i].parent < i
                &&& is_base(nodes[i].symbol)
                &&& nodes[nodes[i].parent as int].children@[nodes[i].symbol - 1] == i
            } by {
                if i < old_nodes.len() {
                    let p = old_nodes[i].parent as int;
                    if p == parent as int && old_nodes[i].symbol == s {
                        // the slot was empty, so no old node could sit in it
                        assert(old_nodes[p].children@[s - 1] == i);
                    }
                }
            }
            assert forall|j: int|
                0 <= j < old_nodes.len() implies #[trigger] node_path(old_nodes, j) != node_path(
                old_nodes,
                parent as int,
            ).push(s) by {
                if node_path(old_nodes, j) == node_path(old_nodes, parent as int).push(s) {
                    lemma_path_len_zero_root(old_nodes, j);
                    assert(j > 0);
                    lemma_path_last(old_nodes, j);
                    assert(node_path(old_nodes, parent as int).push(s).drop_last() =~= node_path(
                        old_nodes,
                        parent as int,
                    ));
                    lemma_path_injective(
                        old_nodes,
                        old_nodes[j].parent as int,
                        parent as int,
                    );
                    assert(old_nodes[parent as int].children@[s - 1] == j);
                }
            }
        }
        id
    }

    /// The sequence of bases of node `i`, from the root down.
    pub fn backtrack(&self, i: usize) -> (r: Vec<u8>)
        requires
            self.wf(),
            i < self.len_spec(),
        ensures
            r@ == self.path_of(i as int),
            is_base_path(r@),
    {
        let ghost nodes = self.nodes@;
        let mut rev: Vec<u8> = Vec::new();
        let mut cur = i;
        while cur != 0
            invariant
                nodes == self.nodes@,
                nodes_wf(nodes),
                cur < nodes.len(),
                node_path(nodes, i as int) =~= node_path(nodes, cur as int) + reversed(rev@),
            decreases cur,
        {
            let n = self.nodes[cur];
            proof {
                assert(reversed(rev@.push(n.symbol)) =~= seq![n.symbol] + reversed(rev@));
            }
            rev.push(n.symbol);
            cur = n.parent;
        }
        let mut out: Vec<u8> = Vec::new();
        let mut k: usize = rev.len();
        while k > 0
            invariant
                k <= rev@.len(),
                out@ =~= reversed(rev@).subrange(0, rev@.len() - k),
            decreases k,
        {
            k = k - 1;
            out.push(rev[k]);
        }
        proof {
            assert(node_path(nodes, 0) =~= Seq::<u8>::empty());
            lemma_path_is_bases(nodes, i as int);
        }
        out
    }
}

impl Forest {
    /// The nodes from just below the root down to `i`: the `k`-th stands for
    /// the first `k + 1` bases of `i`'s sequence.
    pub fn lineage(&self, i: usize) -> (r: Vec<usize>)
        requires
            self.wf(),
            i < self.len_spec(),
        ensures
            r@.len() == self.path_of(i as int).len(),
            forall|k: int|
                0 <= k < r@.len() ==> #[trigger] r@[k] < self.len_spec() && self.path_of(
                    r@[k] as int,
                ) == self.path_of(i as int).subrange(0, k + 1),
    {
        let ghost nodes = self.nodes@;
        let ghost full = node_path(nodes, i as int);
        let mut rev: Vec<usize> = Vec::new();
        let mut cur = i;
        while cur != 0
            invariant
                nodes == self.nodes@,
                nodes_wf(nodes),
                cur < nodes.len(),
                full == node_path(nodes, i as int),
                node_path(nodes, cur as int).len() + rev@.len() == full.len(),
                node_path(nodes, cur as int) == full.subrange(
                    0,
                    node_path(nodes, cur as int).len() as int,
                ),
                forall|t: int|
                    0 <= t < rev@.len() ==> #[trigger] rev@[t] < nodes.len() && node_path(
                        nodes,
                        rev@[t] as int,
                    ) == full.subrange(0, full.len() - t),
            decreases cur,
        {
            proof {
                lemma_path_last(nodes, cur as int);
                let pc = node_path(nodes, cur as int);
                assert(node_path(nodes, nodes[cur as int].parent as int) =~= full.subrange(
                    0,
                    pc.len() - 1,
                ));
            }
            rev.push(cur);
            cur = self.nodes[cur].parent;
        }
        proof {
            lemma_path_len_zero_root(nodes, 0);
        }
        let mut out: Vec<usize> = Vec::new();
        let mut k: usize = rev.len();
        while k > 0
            invariant
                k <= rev@.len(),
                rev@.len() == full.len(),
                out@.len() == rev@.len() - k,
                forall|t: int|
                    0 <= t < rev@.len() ==> #[trigger] rev@[t] < nodes.len() && node_path(
                        nodes,
                        rev@[t] as int,
                    ) == full.subrange(0, full.len() - t),
                forall|m: int|
                    0 <= m < out@.len() ==> #[trigger] out@[m] < nodes.len() && node_path(
                        nodes,
                        out@[m] as int,
                    ) == full.subrange(0, m + 1),
            decreases k,
        {
            k = k - 1;
            assert(rev@[k as int] < nodes.len());
            out.push(rev[k]);
        }
        out
    }
}

/// `s` read from its end.
pub open spec fn reversed(s: Seq<u8>) -> Seq<u8> {
    Seq::new(s.len(), |k: int| s[s.len() - 1 - k])
}

/// The path of every node is a sequence of bases.
pub proof fn lemma_path_is_bases(nodes: Seq<Node>, i: int)
    requires
        nodes_wf(nodes),
        0 <= i < nodes.len(),
    ensures
        is_base_path(node_path(nodes, i)),
    decreases i,
{
    if i > 0 {
        lemma_path_is_bases(nodes, nodes[i].parent as int);
    }
}

proof fn lemma_path_last(nodes: Seq<Node>, i: int)
    requires
        nodes_wf(nodes),
        0 < i < nodes.len(),
    ensures
        node_path(nodes, i).drop_last() == node_path(nodes, nodes[i].parent as int),
        node_path(nodes, i).last() == nodes[i].symbol,
        node_path(nodes, i).len() > 0,
{
}

proof fn lemma_path_len_zero_root(nodes: Seq<Node>, i: int)
    requires
        nodes_wf(nodes),
        0 <= i < nodes.len(),
    ensures
        node_path(nodes, i).len() == 0 <==> i == 0,
{
}

/// Appending a node leaves the paths of the others unchanged.
proof fn lemma_path_stable(old_nodes: Seq<Node>, nodes: Seq<Node>, i: int)
    requires
        nodes_wf(old_nodes),
        nodes.len() == old_nodes.len() + 1,
        forall|j: int|
            0 <= j < old_nodes.len() ==> (#[trigger] nodes[j]).parent == old_nodes[j].parent
                && nodes[j].symbol == old_nodes[j].symbol,
        0 <= i < old_nodes.len(),
    ensures
        node_path(nodes, i) == node_path(old_nodes, i),
    decreases i,
{
    if i > 0 {
        lemma_path_stable(old_nodes, nodes, old_nodes[i].parent as int);
    }
}

/// Distinct nodes stand for distinct sequences.
pub proof fn lemma_path_injective(nodes: Seq<Node>, a: int, b: int)
    requires
        nodes_wf(nodes),
        0 <= a < nodes.len(),
        0 <= b < nodes.len(),
        node_path(nodes, a) == node_path(nodes, b),
    ensures
        a == b,
    decreases a + b,
{
    lemma_path_len_zero_root(nodes, a);
    lemma_path_len_zero_root(nodes, b);
    if a != 0 && b != 0 {
        lemma_path_last(nodes, a);
        lemma_path_last(nodes, b);
        lemma_path_injective(nodes, nodes[a].parent as int, nodes[b].parent as int);
        let p = nodes[a].parent as int;
        let s = nodes[a].symbol;
        assert(nodes[p].children@[s - 1] == a);
        assert(nodes[p].children@[s - 1] == b);
    }
}

impl Forest {
    /// Distinct nodes of a forest stand for distinct sequences.
    pub proof fn lemma_distinct_paths(&self, a: int, b: int)
        requires
            self.wf(),
            0 <= a < self.len_spec(),
            0 <= b < self.len_spec(),
            a != b,
        ensures
            self.path_of(a) != self.path_of(b),
    {
        if self.path_of(a) == self.path_of(b) {
            lemma_path_injective(self.nodes_view(), a, b);
        }
    }
}

} // verus!
