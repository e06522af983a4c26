//! The search engine: breadth-first discovery of certification paths.
//!
//! The engine decides; the caller performs the outside work. Each call of
//! [`X509PathFinder::step`] hands out one frontier node and either expands it
//! from the store, or asks the caller to offer a path to the validator, or to
//! fetch an Authority Information Access URL and hand the certificates back
//! through [`X509PathFinder::fetched`].
use vstd::prelude::*;

use crate::certificate::{Certificate, CertificateView, issued_spec, self_issued};
use crate::edge::{Edge, EdgeView, Edges, EdgesView, chain, depth, edges_view, is_visited};
use crate::report::{CertificateOrigin, OriginView};
use crate::store::{
    CertificateStore,
    StoreView,
    insert_all,
    insert_spec,
    issuers_spec,
    lemma_insert_keeps,
    lemma_insert_wf,
    lemma_issuers_bound,
    store_wf,
};

verus! {

/// A positive budget has run out: `limit` is zero for no budget.
pub open spec fn limit_exceeded_spec(limit: nat, elapsed: nat) -> bool {
    limit != 0 && elapsed > limit
}

/// Whether a search with budget `limit_nanos` (zero: none) must stop after
/// `elapsed_nanos` nanoseconds.
pub fn limit_exceeded(limit_nanos: u128, elapsed_nanos: u128) -> (r: bool)
    ensures
        r == limit_exceeded_spec(limit_nanos as nat, elapsed_nanos as nat),
{
    limit_nanos != 0 && elapsed_nanos > limit_nanos
}

/// Certificate states for the store candidates `hs`, self-issued ones left out.
pub open spec fn candidate_edges(s: StoreView, hs: Seq<nat>) -> Seq<EdgeView>
    decreases hs.len(),
{
    if hs.len() == 0 {
        Seq::empty()
    } else {
        let rest = candidate_edges(s, hs.drop_last());
        if self_issued(s.certs[hs.last() as int]) {
            rest
        } else {
            rest.push(EdgeView::Certificate(hs.last(), OriginView::Store))
        }
    }
}

/// One URL state per CA Issuers URL of the certificate at `h`.
pub open spec fn url_edges(s: StoreView, h: nat) -> Seq<EdgeView> {
    Seq::new(s.certs[h as int].aia.len(), |k: int| EdgeView::Url(s.certs[h as int].aia[k], h))
}

/// The children of the certificate state at `h`: its non-self-issued store
/// issuers followed by its URLs; without such issuers, its URLs when
/// fetching is enabled and it has some, and otherwise a single end state.
pub open spec fn certificate_children(s: StoreView, h: nat, aia: bool) -> Seq<EdgeView> {
    let found = candidate_edges(s, issuers_spec(s, h as int));
    let urls = url_edges(s, h);
    if found.len() > 0 {
        found + urls
    } else if !aia || urls.len() == 0 {
        seq![EdgeView::End]
    } else {
        urls
    }
}

/// Inserting the certificates `cs` fetched from `url` for the certificate at
/// `parent`, in order: the store afterwards, and a certificate state for each
/// canonical instance that is not self-issued and could have issued the parent.
pub open spec fn fetch_fold(s: StoreView, parent: nat, url: Seq<char>, cs: Seq<CertificateView>) -> (StoreView, Seq<EdgeView>)
    decreases cs.len(),
{
    if cs.len() == 0 {
        (s, Seq::empty())
    } else {
        let (s1, es) = fetch_fold(s, parent, url, cs.drop_last());
        let (s2, h) = insert_spec(s1, cs.last(), true);
        let c = s2.certs[h as int];
        if !self_issued(c) && issued_spec(c, s2.certs[parent as int]) {
            (s2, es.push(EdgeView::Certificate(h, OriginView::Url(url))))
        } else {
            (s2, es)
        }
    }
}

/// The frontier after attaching `children` to node `parent`.
pub open spec fn extend_spec(e: EdgesView, parent: nat, children: Seq<EdgeView>) -> EdgesView {
    EdgesView {
        nodes: e.nodes + children,
        parents: e.parents + Seq::new(children.len(), |k: int| parent),
        ..e
    }
}

/// What a step asks of the caller.
pub enum Step {
    /// A node was expanded or skipped: step again.
    Continue,
    /// The budget ran out: the search is over, with an error.
    LimitExceeded,
    /// Offer this path (store handles, leaf first) with its origins to the validator.
    Validate { path: Vec<usize>, origin: Vec<CertificateOrigin> },
    /// Fetch the certificates at this URL and hand them to `fetched`.
    Fetch { url: String },
    /// The frontier is empty: the search is over, with nothing found.
    Exhausted,
}

/// Mathematical model of a [`Step`].
pub enum StepView {
    Continue,
    LimitExceeded,
    Validate(Seq<(nat, OriginView)>),
    Fetch(Seq<char>),
    Exhausted,
}

impl View for Step {
    type V = StepView;

    open spec fn view(&self) -> StepView {
        match self {
            Step::Continue => StepView::Continue,
            Step::LimitExceeded => StepView::LimitExceeded,
            Step::Validate { path, origin } => StepView::Validate(
                Seq::new(path@.len(), |k: int| (path@[k] as nat, origin@[k]@)),
            ),
            Step::Fetch { url } => StepView::Fetch(url@),
            Step::Exhausted => StepView::Exhausted,
        }
    }
}

/// Mathematical model of an [`X509PathFinder`].
pub struct FinderView {
    pub store: StoreView,
    pub edges: EdgesView,
    /// Whether Authority Information Access URLs are followed.
    pub aia: bool,
    /// Budget in nanoseconds; zero for none.
    pub limit: nat,
    /// The URL node whose fetch results are awaited.
    pub pending: Option<nat>,
}

/// Every state names a known certificate.
pub open spec fn handles_known(s: StoreView, e: EdgesView) -> bool {
    forall|i: int|
        0 <= i < e.nodes.len() ==> match #[trigger] e.nodes[i] {
            EdgeView::Certificate(h, _) => h < s.certs.len(),
            EdgeView::Url(_, h) => h < s.certs.len(),
            EdgeView::End => true,
        }
}

/// Well-formed engine: an awaited URL node is the last node handed out.
pub open spec fn finder_wf(f: FinderView) -> bool {
    &&& store_wf(f.store)
    &&& crate::edge::edges_wf(f.edges)
    &&& handles_known(f.store, f.edges)
    &&& f.pending matches Some(i) ==> i + 1 == f.edges.next && f.edges.nodes[i as int] is Url
}

/// One step: hand out the oldest queued node. With none left the search is
/// exhausted. Otherwise, once the budget has run out the search stops; an
/// end state has its path offered to the validator; a node equal to one
/// already visited is skipped; any other is marked visited and expanded: a
/// certificate state from the store, a URL state by asking for its fetch.
/// A frontier that cannot hold the children of a certificate state counts as
/// a budget that ran out.
pub open spec fn step_spec(f: FinderView, elapsed: nat) -> (FinderView, StepView) {
    let e = f.edges;
    if e.next >= e.nodes.len() {
        (FinderView { pending: None, ..f }, StepView::Exhausted)
    } else {
        let i = e.next;
        let e1 = EdgesView { next: i + 1, ..e };
        let f1 = FinderView { edges: e1, pending: None, ..f };
        if limit_exceeded_spec(f.limit, elapsed) {
            (f1, StepView::LimitExceeded)
        } else {
            match e.nodes[i as int] {
                EdgeView::End => (f1, StepView::Validate(chain(e1, i))),
                EdgeView::Certificate(h, _) => if is_visited(e1, e.nodes[i as int]) {
                    (f1, StepView::Continue)
                } else {
                    let e2 = EdgesView { visited: e1.visited.push(i), ..e1 };
                    let children = certificate_children(f.store, h, f.aia);
                    if e2.nodes.len() + children.len() > usize::MAX {
                        (FinderView { edges: e2, ..f1 }, StepView::LimitExceeded)
                    } else {
                        (FinderView { edges: extend_spec(e2, i, children), ..f1 }, StepView::Continue)
                    }
                },
                EdgeView::Url(u, _) => if is_visited(e1, e.nodes[i as int]) {
                    (f1, StepView::Continue)
                } else {
                    let e2 = EdgesView { visited: e1.visited.push(i), ..e1 };
                    (FinderView { edges: e2, pending: Some(i), ..f1 }, StepView::Fetch(u))
                },
            }
        }
    }
}

/// Handing back the certificates fetched for the awaited URL node: each is
/// inserted into the store, and the matching issuers become its children,
/// or a single end state when none matches. Without an awaited node nothing
/// changes.
pub open spec fn fetched_spec(f: FinderView, cs: Seq<CertificateView>) -> FinderView {
    match f.pending {
        Some(i) => match f.edges.nodes[i as int] {
            EdgeView::Url(u, p) => {
                let (s, found) = fetch_fold(f.store, p, u, cs);
                let children = if found.len() > 0 { found } else { seq![EdgeView::End] };
                FinderView { store: s, edges: extend_spec(f.edges, i, children), pending: None, ..f }
            },
            _ => f,
        },
        None => f,
    }
}

/// The path search engine of a session: its store, its frontier, and its
/// configuration.
pub struct X509PathFinder {
    store: CertificateStore,
    edges: Edges,
    aia: bool,
    limit: u128,
    pending: Option<usize>,
}

impl View for X509PathFinder {
    type V = FinderView;

    closed spec fn view(&self) -> FinderView {
        FinderView {
            store: self.store@,
            edges: self.edges@,
            aia: self.aia,
            limit: self.limit as nat,
            pending: match self.pending {
                Some(i) => Some(i as nat),
                None => None,
            },
        }
    }
}

impl X509PathFinder {
    pub closed spec fn wf(&self) -> bool {
        &&& finder_wf(self@)
        &&& self.store.wf()
        &&& self.edges.wf()
    }

    /// An engine whose store holds the bridge and cross-signed
    /// `certificates`, following Authority Information Access URLs when
    /// `aia` holds, with a budget of `limit_nanos` (zero: none).
    pub fn new(certificates: Vec<Certificate>, aia: bool, limit_nanos: u128) -> (r: X509PathFinder)
        requires
            certificates@.len() < usize::MAX,
        ensures
            r.wf(),
            r@.store == insert_all(
                StoreView { certs: Seq::empty(), member: Seq::empty() },
                certificates@.map_values(|c: Certificate| c@),
            ),
            r@.edges == (EdgesView { nodes: Seq::empty(), parents: Seq::empty(), next: 0, visited: Seq::empty() }),
            r@.aia == aia,
            r@.limit == limit_nanos,
            r@.pending is None,
    {
        X509PathFinder {
            store: CertificateStore::from_certificates(certificates),
            edges: Edges::new(),
            aia,
            limit: limit_nanos,
            pending: None,
        }
    }

    /// Begins a search for a path of `target`: the target becomes known to
    /// the store (not as an issuer candidate) and the frontier holds only its
    /// state, with origin `Find`. What the store learned before stays.
    pub fn start(&mut self, target: Certificate)
        requires
            old(self).wf(),
            old(self)@.store.certs.len() < usize::MAX,
        ensures
            final(self).wf(),
            final(self)@ == (FinderView {
                store: insert_spec(old(self)@.store, target@, false).0,
                edges: EdgesView {
                    nodes: seq![EdgeView::Certificate(insert_spec(old(self)@.store, target@, false).1, OriginView::Find)],
                    parents: seq![0],
                    next: 0,
                    visited: Seq::empty(),
                },
                pending: None,
                ..old(self)@
            }),
    {
        proof {
            lemma_insert_keeps(self@.store, target@, false);
        }
        let h = self.store.register(target);
        self.edges = Edges::start(Edge::Certificate(h, CertificateOrigin::Find));
        self.pending = None;
    }

    /// The store.
    pub fn store(&self) -> (r: &CertificateStore)
        ensures
            r@ == self@.store,
            self.wf() ==> r.wf(),
    {
        &self.store
    }

    /// The frontier.
    pub fn edges(&self) -> (r: &Edges)
        ensures
            r@ == self@.edges,
    {
        &self.edges
    }

    /// The certificate at store handle `h`.
    pub fn certificate(&self, h: usize) -> (r: &Certificate)
        requires
            h < self@.store.certs.len(),
        ensures
            r@ == self@.store.certs[h as int],
    {
        self.store.get(h)
    }

    fn candidates(&self, h: usize) -> (r: Vec<Edge>)
        requires
            self.store.wf(),
            h < self@.store.certs.len(),
        ensures
            edges_view(r@) == candidate_edges(self@.store, issuers_spec(self@.store, h as int)),
    {
        let hs = self.store.issuers(h);
        let ghost hv = issuers_spec(self@.store, h as int);
        proof {
            lemma_issuers_bound(self@.store, h as int, self@.store.certs.len());
        }
        let mut r: Vec<Edge> = Vec::new();
        let mut k: usize = 0;
        while k < hs.len()
            invariant
                self.store.wf(),
                k <= hs@.len(),
                hs@.map_values(|x: usize| x as nat) == hv,
                forall|j: int| 0 <= j < hv.len() ==> #[trigger] hv[j] < self@.store.certs.len(),
                edges_view(r@) == candidate_edges(self@.store, hv.take(k as int)),
            decreases hs@.len() - k,
        {
            let c = hs[k];
            assert(hv[k as int] == c as nat);
            assert(hv.take(k + 1).drop_last() =~= hv.take(k as int));
            let cert = self.store.get(c);
            if !cert.issued(cert) {
                let ghost before = r@;
                r.push(Edge::Certificate(c, CertificateOrigin::Store));
                assert(edges_view(r@) =~= edges_view(before).push(EdgeView::Certificate(c as nat, OriginView::Store)));
            }
            k = k + 1;
        }
        assert(hv.take(k as int) =~= hv);
        r
    }

    fn push_urls(&self, h: usize, r: &mut Vec<Edge>)
        requires
            h < self@.store.certs.len(),
        ensures
            edges_view(final(r)@) == edges_view(old(r)@) + url_edges(self@.store, h as nat),
    {
        let cert = self.store.get(h);
        let urls = cert.aia();
        let ghost start = edges_view(r@);
        let mut k: usize = 0;
        while k < urls.len()
            invariant
                h < self@.store.certs.len(),
                k <= urls@.len(),
                crate::certificate::texts_view(urls@) == self@.store.certs[h as int].aia,
                edges_view(r@) == start + url_edges(self@.store, h as nat).take(k as int),
            decreases urls@.len() - k,
        {
            let ghost before = r@;
            assert(crate::certificate::texts_view(urls@)[k as int] == urls@[k as int]@);
            r.push(Edge::Url(urls[k].clone(), h));
            assert(edges_view(r@) =~= edges_view(before).push(EdgeView::Url(urls@[k as int]@, h as nat)));
            k = k + 1;
            assert(edges_view(r@) =~= start + url_edges(self@.store, h as nat).take(k as int));
        }
        assert(url_edges(self@.store, h as nat).take(k as int) =~= url_edges(self@.store, h as nat));
    }

    fn children(&self, h: usize) -> (r: Vec<Edge>)
        requires
            self.store.wf(),
            h < self@.store.certs.len(),
        ensures
            edges_view(r@) == certificate_children(self@.store, h as nat, self@.aia),
    {
        let mut r = self.candidates(h);
        if r.len() > 0 {
            self.push_urls(h, &mut r);
            r
        } else if !self.aia || self.store.get(h).aia().len() == 0 {
            let r = vec![Edge::End];
            assert(edges_view(r@) =~= seq![EdgeView::End]);
            r
        } else {
            self.push_urls(h, &mut r);
            assert(edges_view(r@) =~= url_edges(self@.store, h as nat));
            r
        }
    }

    /// Hands out the oldest queued node and acts on it (see [`step_spec`]);
    /// `elapsed_nanos` is the time spent since the search began.
    pub fn step(&mut self, elapsed_nanos: u128) -> (r: Step)
        requires
            old(self).wf(),
        ensures
            final(self).wf(),
            (final(self)@, r@) == step_spec(old(self)@, elapsed_nanos as nat),
    {
        self.pending = None;
        let i = match self.edges.next() {
            None => {
                return Step::Exhausted;
            },
            Some(i) => i,
        };
        if limit_exceeded(self.limit, elapsed_nanos) {
            return Step::LimitExceeded;
        }
        match self.edges.edge(i) {
            Edge::End => {
                let (path, origin) = self.edges.path(i);
                let r = Step::Validate { path, origin };
                assert(r@ == StepView::Validate(chain(self@.edges, i as nat))) by {
                    assert(Seq::new(path@.len(), |k: int| (path@[k] as nat, origin@[k]@)) =~= chain(self@.edges, i as nat));
                }
                r
            },
            Edge::Certificate(h, _) => {
                let h = *h;
                if self.edges.visited(i) {
                    return Step::Continue;
                }
                self.edges.visit(i);
                let children = self.children(h);
                if self.edges.len() > usize::MAX - children.len() {
                    return Step::LimitExceeded;
                }
                let ghost before = self@;
                self.edges.extend(i, children);
                assert(handles_known(self@.store, self@.edges)) by {
                    assert forall|j: int| 0 <= j < self@.edges.nodes.len() implies match #[trigger] self@.edges.nodes[j] {
                        EdgeView::Certificate(h, _) => h < self@.store.certs.len(),
                        EdgeView::Url(_, h) => h < self@.store.certs.len(),
                        EdgeView::End => true,
                    } by {
                        if j >= before.edges.nodes.len() {
                            self.lemma_children_known(h as nat, j - before.edges.nodes.len());
                        }
                    }
                }
                Step::Continue
            },
            Edge::Url(u, _) => {
                let url = u.clone();
                if self.edges.visited(i) {
                    return Step::Continue;
                }
                self.edges.visit(i);
                self.pending = Some(i);
                Step::Fetch { url }
            },
        }
    }

    proof fn lemma_children_known(&self, h: nat, k: int)
        requires
            store_wf(self@.store),
            h < self@.store.certs.len(),
            0 <= k < certificate_children(self@.store, h, self@.aia).len(),
        ensures
            match certificate_children(self@.store, h, self@.aia)[k] {
                EdgeView::Certificate(c, _) => c < self@.store.certs.len(),
                EdgeView::Url(_, c) => c < self@.store.certs.len(),
                EdgeView::End => true,
            },
    {
        let s = self@.store;
        let hs = issuers_spec(s, h as int);
        lemma_issuers_bound(s, h as int, s.certs.len());
        lemma_candidates_known(s, hs);
    }

    /// Hands back the certificates fetched for the URL of the last
    /// [`Step::Fetch`] (see [`fetched_spec`]); a failed fetch hands back none.
    pub fn fetched(&mut self, certificates: Vec<Certificate>)
        requires
            old(self).wf(),
            old(self)@.store.certs.len() + certificates@.len() < usize::MAX,
            old(self)@.edges.nodes.len() + certificates@.len() < usize::MAX,
        ensures
            final(self).wf(),
            final(self)@ == fetched_spec(old(self)@, certificates@.map_values(|c: Certificate| c@)),
    {
        let ghost cs = certificates@.map_values(|c: Certificate| c@);
        let i = match self.pending {
            None => {
                return;
            },
            Some(i) => i,
        };
        let (url, p) = match self.edges.edge(i) {
            Edge::Url(u, p) => (u.clone(), *p),
            _ => {
                return;
            },
        };
        self.pending = None;
        let ghost s0 = self@.store;
        let mut found: Vec<Edge> = Vec::new();
        let mut k: usize = 0;
        while k < certificates.len()
            invariant
                self.store.wf(),
                self.edges.wf(),
                self@.edges == old(self)@.edges,
                self.pending is None,
                self.aia == old(self).aia,
                self.limit == old(self).limit,
                s0 == old(self)@.store,
                handles_known(s0, self@.edges),
                p < s0.certs.len(),
                k <= certificates@.len(),
                cs == certificates@.map_values(|c: Certificate| c@),
                s0.certs.len() + certificates@.len() < usize::MAX,
                s0.certs.len() <= self@.store.certs.len() <= s0.certs.len() + k,
                found@.len() <= k,
                forall|j: int| 0 <= j < s0.certs.len() ==> #[trigger] self@.store.certs[j] == s0.certs[j],
                (self@.store, edges_view(found@)) == fetch_fold(s0, p as nat, url@, cs.take(k as int)),
                forall|j: int| 0 <= j < found@.len() ==> match #[trigger] found@[j]@ {
                    EdgeView::Certificate(c, _) => c < self@.store.certs.len(),
                    _ => false,
                },
            decreases certificates@.len() - k,
        {
            let c = certificates[k].duplicate();
            proof {
                lemma_insert_keeps(self@.store, c@, true);
            }
            assert(cs.take(k + 1).drop_last() =~= cs.take(k as int));
            assert(cs.take(k + 1).last() == c@);
            let h = self.store.insert(c);
            let cand = self.store.get(h);
            if !cand.issued(cand) && cand.issued(self.store.get(p)) {
                let ghost before = found@;
                found.push(Edge::Certificate(h, CertificateOrigin::Url(url.clone())));
                assert(edges_view(found@) =~= edges_view(before).push(EdgeView::Certificate(h as nat, OriginView::Url(url@))));
            }
            k = k + 1;
        }
        assert(cs.take(k as int) =~= cs);
        assert(old(self)@.edges.nodes[i as int] == EdgeView::Url(url@, p as nat));
        assert(old(self)@.pending == Some(i as nat));
        let ghost fs = fetch_fold(s0, p as nat, url@, cs);
        assert(self@.store == fs.0);
        assert(edges_view(found@) == fs.1);
        let children = if found.len() > 0 {
            found
        } else {
            let r = vec![Edge::End];
            assert(edges_view(r@) =~= seq![EdgeView::End]);
            r
        };
        let ghost before = self@;
        assert(edges_view(children@) == (if fs.1.len() > 0 { fs.1 } else { seq![EdgeView::End] }));
        self.edges.extend(i, children);
        assert(self@.edges == extend_spec(old(self)@.edges, i as nat, edges_view(children@)));
        assert(handles_known(self@.store, self@.edges)) by {
            assert forall|j: int| 0 <= j < self@.edges.nodes.len() implies match #[trigger] self@.edges.nodes[j] {
                EdgeView::Certificate(h, _) => h < self@.store.certs.len(),
                EdgeView::Url(_, h) => h < self@.store.certs.len(),
                EdgeView::End => true,
            } by {
                if j < before.edges.nodes.len() {
                    assert(before.edges.nodes[j] == old(self)@.edges.nodes[j]);
                }
            }
        }
    }
}

/// The certificate states for store candidates name known certificates.
proof fn lemma_candidates_known(s: StoreView, hs: Seq<nat>)
    requires
        forall|j: int| 0 <= j < hs.len() ==> #[trigger] hs[j] < s.certs.len(),
    ensures
        forall|k: int| 0 <= k < candidate_edges(s, hs).len() ==> match #[trigger] candidate_edges(s, hs)[k] {
            EdgeView::Certificate(c, _) => c < s.certs.len(),
            _ => false,
        },
    decreases hs.len(),
{
    if hs.len() > 0 {
        lemma_candidates_known(s, hs.drop_last());
        assert(hs.last() == hs[hs.len() - 1]);
    }
}

/// Store candidates never yield a state for a self-issued certificate.
proof fn lemma_candidates_not_self_issued(s: StoreView, hs: Seq<nat>)
    ensures
        forall|k: int| 0 <= k < candidate_edges(s, hs).len() ==> match #[trigger] candidate_edges(s, hs)[k] {
            EdgeView::Certificate(c, _) => !self_issued(s.certs[c as int]),
            _ => true,
        },
    decreases hs.len(),
{
    if hs.len() > 0 {
        lemma_candidates_not_self_issued(s, hs.drop_last());
    }
}

/// Fetched certificates yield states only for known, non-self-issued
/// certificates, and the fold keeps the store well formed and its entries.
proof fn lemma_fetch_fold(s: StoreView, p: nat, url: Seq<char>, cs: Seq<CertificateView>)
    requires
        store_wf(s),
    ensures
        store_wf(fetch_fold(s, p, url, cs).0),
        fetch_fold(s, p, url, cs).0.certs.len() >= s.certs.len(),
        forall|i: int| 0 <= i < s.certs.len() ==> #[trigger] fetch_fold(s, p, url, cs).0.certs[i] == s.certs[i],
        forall|k: int| 0 <= k < fetch_fold(s, p, url, cs).1.len() ==> match #[trigger] fetch_fold(s, p, url, cs).1[k] {
            EdgeView::Certificate(c, _) => c < fetch_fold(s, p, url, cs).0.certs.len()
                && !self_issued(fetch_fold(s, p, url, cs).0.certs[c as int]),
            _ => false,
        },
    decreases cs.len(),
{
    if cs.len() > 0 {
        lemma_fetch_fold(s, p, url, cs.drop_last());
        let (s1, es) = fetch_fold(s, p, url, cs.drop_last());
        lemma_insert_keeps(s1, cs.last(), true);
        lemma_insert_wf(s1, cs.last(), true);
    }
}

/// A self-issued certificate never becomes a state of the search: store
/// candidates that are self-issued are left out, and so are fetched ones.
/// When no other store candidate exists and fetching is off, the only child
/// is an end state, so the path so far goes to the validator without the root.
pub proof fn lemma_self_issued_excluded(
    s: StoreView,
    h: nat,
    aia: bool,
    p: nat,
    url: Seq<char>,
    cs: Seq<CertificateView>,
)
    requires
        store_wf(s),
    ensures
        forall|k: int|
            0 <= k < certificate_children(s, h, aia).len() ==> match #[trigger] certificate_children(s, h, aia)[k] {
                EdgeView::Certificate(c, _) => !self_issued(s.certs[c as int]),
                _ => true,
            },
        forall|k: int| 0 <= k < fetch_fold(s, p, url, cs).1.len() ==> match #[trigger] fetch_fold(s, p, url, cs).1[k] {
            EdgeView::Certificate(c, _) => !self_issued(fetch_fold(s, p, url, cs).0.certs[c as int]),
            _ => true,
        },
        candidate_edges(s, issuers_spec(s, h as int)).len() == 0 && !aia ==> certificate_children(s, h, aia)
            == seq![EdgeView::End],
{
    let found = candidate_edges(s, issuers_spec(s, h as int));
    lemma_candidates_not_self_issued(s, issuers_spec(s, h as int));
    lemma_fetch_fold(s, p, url, cs);
    assert forall|k: int|
        0 <= k < certificate_children(s, h, aia).len() implies match #[trigger] certificate_children(s, h, aia)[k] {
            EdgeView::Certificate(c, _) => !self_issued(s.certs[c as int]),
            _ => true,
        } by {
        if found.len() > 0 && k < found.len() {
            assert(certificate_children(s, h, aia)[k] == found[k]);
        }
    }
}

/// Once a positive budget has run out, the next node handed out ends the
/// search with the budget error instead of a report.
pub proof fn lemma_budget_ends_search(f: FinderView, elapsed: nat)
    requires
        f.edges.next < f.edges.nodes.len(),
        f.limit > 0,
        elapsed > f.limit,
    ensures
        step_spec(f, elapsed).1 == StepView::LimitExceeded,
{
}

/// A node equal to one already expanded is never expanded again: the step
/// that hands it out adds no node and leaves the store as it was, so cycles
/// among certificates do not grow the frontier.
pub proof fn lemma_visited_not_expanded(f: FinderView, elapsed: nat)
    requires
        f.edges.next < f.edges.nodes.len(),
        !(f.edges.nodes[f.edges.next as int] is End),
        is_visited(f.edges, f.edges.nodes[f.edges.next as int]),
    ensures
        step_spec(f, elapsed).0.edges.nodes == f.edges.nodes,
        step_spec(f, elapsed).0.store == f.store,
        step_spec(f, elapsed).1 == StepView::Continue || step_spec(f, elapsed).1 == StepView::LimitExceeded,
{
    let e1 = EdgesView { next: f.edges.next + 1, ..f.edges };
    let x = f.edges.nodes[f.edges.next as int];
    let k = choose|k: int| 0 <= k < f.edges.visited.len() && #[trigger] f.edges.nodes[f.edges.visited[k] as int] == x;
    assert(e1.nodes[e1.visited[k] as int] == x);
    assert(is_visited(e1, x));
}

/// A path has at most one certificate per level of the search tree.
pub proof fn lemma_chain_len(e: EdgesView, i: nat)
    requires
        crate::edge::edges_wf(e),
        i < e.nodes.len(),
    ensures
        chain(e, i).len() <= depth(e.parents, i) + 1,
    decreases i,
{
    if i > 0 && e.parents[i as int] < i {
        lemma_chain_len(e, e.parents[i as int]);
    }
}

/// Breadth-first order: the step hands out the oldest queued node, no node
/// still queued lies nearer the target than one already handed out, and a
/// node's path holds at most one certificate more than its depth. So when
/// paths of different lengths lead to end states, the nearer end state, and
/// with it the shorter path, reaches the validator first.
pub proof fn lemma_breadth_first(f: FinderView, elapsed: nat)
    requires
        finder_wf(f),
    ensures
        f.edges.next < f.edges.nodes.len() ==> step_spec(f, elapsed).0.edges.next == f.edges.next + 1,
        forall|i: nat, j: nat|
            i < f.edges.next <= j < f.edges.nodes.len() ==> #[trigger] depth(f.edges.parents, i) <= #[trigger] depth(
                f.edges.parents,
                j,
            ),
        forall|i: nat| i < f.edges.nodes.len() ==> #[trigger] chain(f.edges, i).len() <= depth(f.edges.parents, i) + 1,
{
    assert forall|i: nat| i < f.edges.nodes.len() implies #[trigger] chain(f.edges, i).len() <= depth(
        f.edges.parents,
        i,
    ) + 1 by {
        lemma_chain_len(f.edges, i);
    }
}

/// Each state of the search is expanded at most once, however the
/// certificates cross-sign one another: the nodes marked visited, which are
/// exactly the nodes expanded, are pairwise different states.
pub proof fn lemma_expanded_once(f: FinderView)
    requires
        finder_wf(f),
    ensures
        forall|a: int, b: int|
            0 <= a < b < f.edges.visited.len() ==> #[trigger] f.edges.nodes[f.edges.visited[a] as int]
                != #[trigger] f.edges.nodes[f.edges.visited[b] as int],
{
}

} // verus!
