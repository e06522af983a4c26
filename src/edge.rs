//! The search frontier: a tree of search states rooted at the target,
//! expanded first-discovered-first, with parent links for path
//! reconstruction and a visited set for cycle safety.
//!
//! Nodes live in one vector in order of discovery; the queue is the suffix
//! of nodes not yet handed out, so handing out nodes by ascending index is
//! first-in-first-out.
use vstd::prelude::*;

use crate::report::{CertificateOrigin, OriginView};

verus! {

/// One state of the search.
#[derive(Debug)]
pub enum Edge {
    /// The search reached the certificate at this store handle, arriving as the origin says.
    Certificate(usize, CertificateOrigin),
    /// The URL must be fetched for issuers of the certificate at this store handle.
    Url(String, usize),
    /// No further candidates: the path so far is offered to the validator.
    End,
}

/// Mathematical model of an [`Edge`].
pub enum EdgeView {
    Certificate(nat, OriginView),
    Url(Seq<char>, nat),
    End,
}

impl View for Edge {
    type V = EdgeView;

    open spec fn view(&self) -> EdgeView {
        match self {
            Edge::Certificate(h, o) => EdgeView::Certificate(*h as nat, o@),
            Edge::Url(u, h) => EdgeView::Url(u@, *h as nat),
            Edge::End => EdgeView::End,
        }
    }
}

impl PartialEq for Edge {
    fn eq(&self, other: &Edge) -> (r: bool) {
        match self {
            Edge::Certificate(h, o) => match other {
                Edge::Certificate(h2, o2) => *h == *h2 && o.eq(o2),
                _ => false,
            },
            Edge::Url(u, h) => match other {
                Edge::Url(u2, h2) => *h == *h2 && u.eq(u2),
                _ => false,
            },
            Edge::End => match other {
                Edge::End => true,
                _ => false,
            },
        }
    }
}

impl vstd::std_specs::cmp::PartialEqSpecImpl for Edge {
    open spec fn obeys_eq_spec() -> bool {
        true
    }

    open spec fn eq_spec(&self, other: &Edge) -> bool {
        self@ == other@
    }
}

/// The model of a sequence of edges.
pub open spec fn edges_view(v: Seq<Edge>) -> Seq<EdgeView> {
    v.map_values(|e: Edge| e@)
}

/// Mathematical model of the frontier.
pub struct EdgesView {
    /// Every node discovered so far, in order of discovery.
    pub nodes: Seq<EdgeView>,
    /// The parent of each node; the root (node 0) names itself.
    pub parents: Seq<nat>,
    /// Nodes below this index have been handed out; the rest are queued.
    pub next: nat,
    /// Nodes marked visited.
    pub visited: Seq<nat>,
}

/// Number of parent links from node `i` up to the root.
pub open spec fn depth(parents: Seq<nat>, i: nat) -> nat
    decreases i,
{
    if i == 0 || i >= parents.len() || parents[i as int] >= i {
        0
    } else {
        depth(parents, parents[i as int]) + 1
    }
}

/// Breadth-first shape: depth never decreases in order of discovery, and
/// every queued node is at most one level below the last node handed out.
pub open spec fn breadth_first(e: EdgesView) -> bool {
    &&& forall|i: nat, j: nat|
        i <= j < e.parents.len() ==> #[trigger] depth(e.parents, i) <= #[trigger] depth(e.parents, j)
    &&& e.next == 0 ==> e.parents.len() <= 1
    &&& e.next > 0 && e.parents.len() > 0 ==> depth(e.parents, (e.parents.len() - 1) as nat) <= depth(
        e.parents,
        (e.next - 1) as nat,
    ) + 1
}

/// No state is marked visited twice.
pub open spec fn visited_distinct(e: EdgesView) -> bool {
    forall|a: int, b: int|
        0 <= a < b < e.visited.len() ==> #[trigger] e.nodes[e.visited[a] as int] != #[trigger] e.nodes[e.visited[b] as int]
}

/// Well-formed frontier: every node but the root has an earlier parent, no
/// state is marked visited twice, and the frontier has breadth-first shape.
pub open spec fn edges_wf(e: EdgesView) -> bool {
    &&& e.nodes.len() == e.parents.len()
    &&& e.next <= e.nodes.len()
    &&& forall|i: int| 0 < i < e.nodes.len() ==> #[trigger] e.parents[i] < i
    &&& forall|k: int| 0 <= k < e.visited.len() ==> #[trigger] e.visited[k] < e.nodes.len()
    &&& visited_distinct(e)
    &&& breadth_first(e)
}

/// Appending nodes leaves the depth of earlier nodes unchanged.
pub proof fn lemma_depth_prefix(p: Seq<nat>, q: Seq<nat>, i: nat)
    requires
        i < p.len(),
    ensures
        depth(p + q, i) == depth(p, i),
    decreases i,
{
    if i > 0 && p[i as int] < i {
        lemma_depth_prefix(p, q, p[i as int]);
    }
}

/// Attaching `n` children to the last node handed out keeps the
/// breadth-first shape.
pub proof fn lemma_extend_breadth_first(e: EdgesView, parent: nat, n: nat)
    requires
        edges_wf(e),
        parent + 1 == e.next,
    ensures
        breadth_first(EdgesView { parents: e.parents + Seq::new(n, |k: int| parent), ..e }),
{
    let q = Seq::new(n, |k: int| parent);
    let ps = e.parents + q;
    let len = e.parents.len();
    assert forall|i: nat| i < len implies #[trigger] depth(ps, i) == depth(e.parents, i) by {
        lemma_depth_prefix(e.parents, q, i);
    }
    assert forall|i: nat| len <= i < ps.len() implies #[trigger] depth(ps, i) == depth(e.parents, parent) + 1 by {
        assert(ps[i as int] == parent);
        lemma_depth_prefix(e.parents, q, parent);
    }
    assert forall|i: nat, j: nat| i <= j < ps.len() implies #[trigger] depth(ps, i) <= #[trigger] depth(ps, j) by {
        if j < len {
        } else if i < len {
            assert(depth(e.parents, i) <= depth(e.parents, (len - 1) as nat));
        }
    }
    if n > 0 {
        assert(depth(ps, (ps.len() - 1) as nat) == depth(e.parents, parent) + 1);
    }
}

/// A node equal to `x` has been marked visited.
pub open spec fn is_visited(e: EdgesView, x: EdgeView) -> bool {
    exists|k: int| 0 <= k < e.visited.len() && #[trigger] e.nodes[e.visited[k] as int] == x
}

/// The certificate states on the way from the root to node `i`, root first:
/// the path that node `i` stands for, leaf first.
pub open spec fn chain(e: EdgesView, i: nat) -> Seq<(nat, OriginView)>
    decreases i,
{
    let here = match e.nodes[i as int] {
        EdgeView::Certificate(h, o) => seq![(h, o)],
        _ => Seq::empty(),
    };
    if i == 0 || e.parents[i as int] >= i {
        here
    } else {
        chain(e, e.parents[i as int]) + here
    }
}

/// The frontier of a search.
pub struct Edges {
    nodes: Vec<Edge>,
    parents: Vec<usize>,
    next: usize,
    visited: Vec<usize>,
}

impl View for Edges {
    type V = EdgesView;

    closed spec fn view(&self) -> EdgesView {
        EdgesView {
            nodes: edges_view(self.nodes@),
            parents: self.parents@.map_values(|p: usize| p as nat),
            next: self.next as nat,
            visited: self.visited@.map_values(|p: usize| p as nat),
        }
    }
}

impl Edges {
    pub open spec fn wf(&self) -> bool {
        edges_wf(self@)
    }

    /// An empty frontier.
    pub fn new() -> (r: Edges)
        ensures
            r.wf(),
            r@ == (EdgesView { nodes: Seq::empty(), parents: Seq::empty(), next: 0, visited: Seq::empty() }),
    {
        let r = Edges { nodes: Vec::new(), parents: Vec::new(), next: 0, visited: Vec::new() };
        assert(r@.nodes =~= Seq::<EdgeView>::empty());
        assert(r@.parents =~= Seq::<nat>::empty());
        assert(r@.visited =~= Seq::<nat>::empty());
        r
    }

    /// A frontier holding only `root`, queued.
    pub fn start(root: Edge) -> (r: Edges)
        ensures
            r.wf(),
            r@ == (EdgesView { nodes: seq![root@], parents: seq![0], next: 0, visited: Seq::empty() }),
    {
        let r = Edges { nodes: vec![root], parents: vec![0], next: 0, visited: Vec::new() };
        assert(r@.nodes =~= seq![root@]);
        assert(r@.parents =~= seq![0nat]);
        assert(r@.visited =~= Seq::<nat>::empty());
        r
    }

    /// Number of nodes discovered.
    pub fn len(&self) -> (r: usize)
        ensures
            r == self@.nodes.len(),
    {
        self.nodes.len()
    }

    /// The node at index `i`.
    pub fn edge(&self, i: usize) -> (r: &Edge)
        requires
            i < self@.nodes.len(),
        ensures
            r@ == self@.nodes[i as int],
    {
        &self.nodes[i]
    }

    /// Hands out the oldest queued node.
    pub fn next(&mut self) -> (r: Option<usize>)
        requires
            old(self).wf(),
        ensures
            final(self).wf(),
            r is Some <==> old(self)@.next < old(self)@.nodes.len(),
            r matches Some(i) ==> i == old(self)@.next && final(self)@ == (EdgesView {
                next: old(self)@.next + 1,
                ..old(self)@
            }),
            r is None ==> final(self)@ == old(self)@,
    {
        if self.next < self.nodes.len() {
            proof {
                if self@.next > 0 {
                    assert(depth(self@.parents, (self@.next - 1) as nat) <= depth(self@.parents, self@.next));
                }
            }
            let i = self.next;
            self.next = self.next + 1;
            Some(i)
        } else {
            None
        }
    }

    /// Whether a node equal to node `i` has been marked visited.
    pub fn visited(&self, i: usize) -> (r: bool)
        requires
            self.wf(),
            i < self@.nodes.len(),
        ensures
            r == is_visited(self@, self@.nodes[i as int]),
    {
        let mut k: usize = 0;
        while k < self.visited.len()
            invariant
                self.wf(),
                i < self@.nodes.len(),
                k <= self@.visited.len(),
                self@.visited.len() == self.visited@.len(),
                forall|j: int| 0 <= j < k ==> #[trigger] self@.nodes[self@.visited[j] as int] != self@.nodes[i as int],
            decreases self@.visited.len() - k,
        {
            let v = self.visited[k];
            assert(self@.visited[k as int] == v as nat);
            if self.nodes[v] == self.nodes[i] {
                assert(self@.nodes[self@.visited[k as int] as int] == self@.nodes[i as int]);
                return true;
            }
            k = k + 1;
        }
        false
    }

    /// Marks node `i`, a state not yet visited, visited.
    pub fn visit(&mut self, i: usize)
        requires
            old(self).wf(),
            i < old(self)@.nodes.len(),
            !is_visited(old(self)@, old(self)@.nodes[i as int]),
        ensures
            final(self).wf(),
            final(self)@ == (EdgesView { visited: old(self)@.visited.push(i as nat), ..old(self)@ }),
    {
        self.visited.push(i);
        assert(self@.visited =~= old(self)@.visited.push(i as nat));
    }

    /// Attaches `children` to node `parent`, the node handed out last, and
    /// queues them in order.
    pub fn extend(&mut self, parent: usize, children: Vec<Edge>)
        requires
            old(self).wf(),
            parent + 1 == old(self)@.next,
            old(self)@.nodes.len() + children@.len() <= usize::MAX,
        ensures
            final(self).wf(),
            final(self)@ == (EdgesView {
                nodes: old(self)@.nodes + edges_view(children@),
                parents: old(self)@.parents + Seq::new(children@.len(), |k: int| parent as nat),
                ..old(self)@
            }),
    {
        let ghost added = edges_view(children@);
        proof {
            lemma_extend_breadth_first(self@, parent as nat, children@.len());
        }
        let mut children = children;
        let mut rest: Vec<Edge> = Vec::new();
        while children.len() > 0
            invariant
                rest@.len() + children@.len() == added.len(),
                forall|k: int| 0 <= k < children@.len() ==> #[trigger] children@[k]@ == added[k],
                forall|k: int| 0 <= k < rest@.len() ==> #[trigger] rest@[k]@ == added[added.len() - 1 - k],
            decreases children@.len(),
        {
            let c = children.pop().unwrap();
            rest.push(c);
        }
        let mut n: usize = 0;
        while rest.len() > 0
            invariant
                parent + 1 == old(self)@.next,
                edges_wf(old(self)@),
                breadth_first(EdgesView { parents: old(self)@.parents + Seq::new(added.len(), |k: int| parent as nat), ..old(self)@ }),
                n + rest@.len() == added.len(),
                old(self)@.nodes.len() + added.len() <= usize::MAX,
                self@ == (EdgesView {
                    nodes: old(self)@.nodes + added.take(n as int),
                    parents: old(self)@.parents + Seq::new(n as nat, |k: int| parent as nat),
                    ..old(self)@
                }),
                forall|k: int| 0 <= k < rest@.len() ==> #[trigger] rest@[k]@ == added[added.len() - 1 - k],
            decreases rest@.len(),
        {
            let c = rest.pop().unwrap();
            let ghost before = self@;
            let ghost cv = c@;
            assert(cv == added[n as int]);
            self.nodes.push(c);
            self.parents.push(parent);
            assert(self@.nodes =~= before.nodes.push(cv));
            assert(self@.parents =~= before.parents.push(parent as nat));
            n = n + 1;
            assert(added.take(n as int) =~= added.take(n - 1).push(cv));
            assert(self@.nodes =~= old(self)@.nodes + added.take(n as int));
            assert(self@.parents =~= old(self)@.parents + Seq::new(n as nat, |k: int| parent as nat));
            assert(self@.visited =~= before.visited);
        }
        assert(added.take(n as int) =~= added);
        assert(self@.parents =~= old(self)@.parents + Seq::new(added.len(), |k: int| parent as nat));
    }

    /// The certificates and origins on the way from the root to node `i`,
    /// root first.
    pub fn path(&self, i: usize) -> (r: (Vec<usize>, Vec<CertificateOrigin>))
        requires
            self.wf(),
            i < self@.nodes.len(),
        ensures
            r.0@.len() == chain(self@, i as nat).len(),
            r.1@.len() == chain(self@, i as nat).len(),
            forall|k: int| 0 <= k < r.0@.len() ==> (#[trigger] r.0@[k] as nat, r.1@[k]@) == chain(self@, i as nat)[k],
        decreases i,
    {
        assert(i > 0 ==> self@.parents[i as int] == self.parents@[i as int] as nat);
        let (mut hs, mut os) = if i == 0 {
            (Vec::new(), Vec::new())
        } else {
            self.path(self.parents[i])
        };
        let ghost prefix = if i == 0 {
            Seq::<(nat, OriginView)>::empty()
        } else {
            chain(self@, self@.parents[i as int])
        };
        assert(hs@.len() == prefix.len());
        match &self.nodes[i] {
            Edge::Certificate(h, o) => {
                hs.push(*h);
                os.push(o.duplicate());
            },
            _ => {},
        }
        assert(chain(self@, i as nat) =~= prefix + match self@.nodes[i as int] {
            EdgeView::Certificate(h, o) => seq![(h, o)],
            _ => Seq::empty(),
        });
        (hs, os)
    }
}

} // verus!
