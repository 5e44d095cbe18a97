//! The edge graph: the search DAG of frontier nodes, with parent links that
//! reconstruct candidate chains, a visited set, and the cycle guard that
//! keeps a certificate from appearing twice in one chain.

use vstd::prelude::*;
use crate::certificate::{Certificate, CertificateView};
use crate::report::{chain_distinct, chain_linked, CertificateOrigin, CertificateOriginView};
use crate::store::contains_der;

verus! {

/// A node of the search DAG.
pub enum Edge {
    /// The frontier holds this certificate, which entered the search from
    /// `origin`.
    Certificate { certificate: Certificate, origin: CertificateOrigin },
    /// Follow this AIA URI from `holder` to find issuer candidates.
    Url { url: String, holder: Certificate },
    /// A complete candidate chain ends here; validate it.
    End,
}

/// Model of one edge.
pub enum EdgeView {
    Certificate { certificate: CertificateView, origin: CertificateOriginView },
    Url { url: Seq<char>, holder: CertificateView },
    End,
}

impl View for Edge {
    type V = EdgeView;

    open spec fn view(&self) -> EdgeView {
        match self {
            Edge::Certificate { certificate, origin } => EdgeView::Certificate {
                certificate: certificate@,
                origin: origin@,
            },
            Edge::Url { url, holder } => EdgeView::Url { url: url@, holder: holder@ },
            Edge::End => EdgeView::End,
        }
    }
}

impl DeepView for Edge {
    type V = EdgeView;

    open spec fn deep_view(&self) -> EdgeView {
        self.view()
    }
}

impl Clone for Edge {
    fn clone(&self) -> (r: Self)
        ensures
            r@ == self@,
    {
        match self {
            Edge::Certificate { certificate, origin } => Edge::Certificate {
                certificate: certificate.clone(),
                origin: origin.clone(),
            },
            Edge::Url { url, holder } => Edge::Url { url: url.clone(), holder: holder.clone() },
            Edge::End => Edge::End,
        }
    }
}

/// Edge identity, as the visited set sees it: certificate edges are the same
/// when they hold the same certificate (DER identity, the origin does not
/// count), URL edges when URI and holder agree, and end edges are all alike.
pub open spec fn same_edge(a: EdgeView, b: EdgeView) -> bool {
    match (a, b) {
        (
            EdgeView::Certificate { certificate: ca, .. },
            EdgeView::Certificate { certificate: cb, .. },
        ) => ca.der == cb.der,
        (EdgeView::Url { url: ua, holder: ha }, EdgeView::Url { url: ub, holder: hb }) => ua == ub
            && ha.der == hb.der,
        (EdgeView::End, EdgeView::End) => true,
        _ => false,
    }
}

impl Edge {
    /// Whether the visited set treats `self` and `other` as the same edge.
    pub fn same(&self, other: &Edge) -> (r: bool)
        ensures
            r == same_edge(self@, other@),
    {
        match (self, other) {
            (
                Edge::Certificate { certificate: ca, .. },
                Edge::Certificate { certificate: cb, .. },
            ) => ca.same_certificate(cb),
            (Edge::Url { url: ua, holder: ha }, Edge::Url { url: ub, holder: hb }) => {
                let urls_match = *ua == *ub;
                urls_match && ha.same_certificate(hb)
            },
            (Edge::End, Edge::End) => true,
            _ => false,
        }
    }
}

/// Model of one node: the edge it holds and its parent link. Parents always
/// have smaller serials, so parent chains are finite.
pub struct EdgeNodeView {
    pub parent: Option<int>,
    pub edge: EdgeView,
}

pub struct EdgeNode {
    pub parent: Option<usize>,
    pub edge: Edge,
}

impl DeepView for EdgeNode {
    type V = EdgeNodeView;

    open spec fn deep_view(&self) -> EdgeNodeView {
        EdgeNodeView {
            parent: match self.parent {
                Some(p) => Some(p as int),
                None => None,
            },
            edge: self.edge@,
        }
    }
}

/// Model of the whole edge graph: the nodes by serial, the frontier stack of
/// serials, and the visited edges.
pub struct EdgesView {
    pub nodes: Seq<EdgeNodeView>,
    pub frontier: Seq<int>,
    pub visited: Seq<EdgeView>,
}

impl EdgesView {
    /// Structural well-formedness: parent links go strictly down, every node
    /// but the seed has one, the seed is the target certificate edge, and
    /// the frontier holds valid serials.
    pub open spec fn wf(self) -> bool {
        &&& forall|i: int| 0 <= i < self.nodes.len()
            ==> ((#[trigger] self.nodes[i].parent) matches Some(p) ==> 0 <= p < i)
        &&& forall|i: int| 1 <= i < self.nodes.len() ==> (#[trigger] self.nodes[i].parent) is Some
        &&& self.nodes.len() > 0 ==> self.nodes[0].parent is None
        &&& self.nodes.len() > 0 ==> (self.nodes[0].edge matches EdgeView::Certificate {
            origin,
            ..
        } && origin == CertificateOriginView::Target)
        &&& forall|k: int| 0 <= k < self.frontier.len()
            ==> 0 <= #[trigger] self.frontier[k] < self.nodes.len()
    }

    /// The certificate the graph was seeded with.
    pub open spec fn target(self) -> CertificateView {
        target_of(self.nodes)
    }

    /// The candidate chain that node `i` stands for: the certificates of its
    /// ancestor certificate edges (itself included), leaf first.
    pub open spec fn chain(self, i: int) -> Seq<CertificateView> {
        chain_of(self.nodes, i)
    }

    /// The origins parallel to `chain(i)`.
    pub open spec fn origins(self, i: int) -> Seq<CertificateOriginView> {
        origins_of(self.nodes, i)
    }

    /// The semantic invariant of one node: its chain starts at the target,
    /// every link is a name match, no certificate repeats, and a URL edge's
    /// holder is the last certificate of its chain.
    pub open spec fn node_ok(self, i: int) -> bool {
        node_ok_of(self.nodes, i)
    }

    /// The whole graph is well-formed and every node's chain is a sound
    /// candidate.
    pub open spec fn ok(self) -> bool {
        &&& self.wf()
        &&& forall|i: int| 0 <= i < self.nodes.len() ==> #[trigger] self.node_ok(i)
    }

    /// Whether an edge with the identity of `e` was already visited.
    pub open spec fn is_visited(self, e: EdgeView) -> bool {
        exists|k: int| 0 <= k < self.visited.len() && same_edge(self.visited[k], e)
    }
}

/// The certificate the graph was seeded with.
pub open spec fn target_of(nodes: Seq<EdgeNodeView>) -> CertificateView {
    nodes[0].edge->Certificate_certificate
}

/// The candidate chain that node `i` stands for: the certificates of its
/// ancestor certificate edges (itself included), leaf first.
pub open spec fn chain_of(nodes: Seq<EdgeNodeView>, i: int) -> Seq<CertificateView>
    decreases i,
{
    let rest = match nodes[i].parent {
        Some(p) => if 0 <= p < i {
            chain_of(nodes, p)
        } else {
            Seq::empty()
        },
        None => Seq::empty(),
    };
    match nodes[i].edge {
        EdgeView::Certificate { certificate, .. } => rest.push(certificate),
        _ => rest,
    }
}

/// The origins parallel to `chain_of(nodes, i)`.
pub open spec fn origins_of(nodes: Seq<EdgeNodeView>, i: int) -> Seq<CertificateOriginView>
    decreases i,
{
    let rest = match nodes[i].parent {
        Some(p) => if 0 <= p < i {
            origins_of(nodes, p)
        } else {
            Seq::empty()
        },
        None => Seq::empty(),
    };
    match nodes[i].edge {
        EdgeView::Certificate { origin, .. } => rest.push(origin),
        _ => rest,
    }
}

/// The semantic invariant of one node.
pub open spec fn node_ok_of(nodes: Seq<EdgeNodeView>, i: int) -> bool {
    &&& chain_linked(chain_of(nodes, i))
    &&& chain_distinct(chain_of(nodes, i))
    &&& chain_of(nodes, i).len() > 0
    &&& chain_of(nodes, i)[0] == target_of(nodes)
    &&& origins_of(nodes, i).len() == chain_of(nodes, i).len()
    &&& origins_of(nodes, i)[0] == CertificateOriginView::Target
    &&& nodes[i].edge matches EdgeView::Url { holder, .. } ==> chain_of(nodes, i).last() == holder
}

/// If two node sequences agree below `n`, they agree on the chain and
/// origins of every node below `n`.
pub proof fn lemma_chain_stable(nodes1: Seq<EdgeNodeView>, nodes2: Seq<EdgeNodeView>, n: int, i: int)
    requires
        0 <= i < n,
        n <= nodes1.len(),
        n <= nodes2.len(),
        forall|k: int| 0 <= k < n ==> nodes1[k] == nodes2[k],
    ensures
        chain_of(nodes1, i) == chain_of(nodes2, i),
        origins_of(nodes1, i) == origins_of(nodes2, i),
    decreases i,
{
    match nodes1[i].parent {
        Some(p) => {
            if 0 <= p < i {
                lemma_chain_stable(nodes1, nodes2, n, p);
            }
        },
        None => {},
    }
}

/// Whether the cycle guard lets a child edge under a node with chain
/// `chain` into the graph: a certificate already on the chain would make a
/// cycle and is dropped; everything else is kept.
pub open spec fn keeps(chain: Seq<CertificateView>, e: EdgeView) -> bool {
    e matches EdgeView::Certificate { certificate, .. } ==> !contains_der(chain, certificate.der)
}

/// The child edges that survive the cycle guard, in order.
pub open spec fn filter_kept(chain: Seq<CertificateView>, es: Seq<EdgeView>) -> Seq<EdgeView>
    decreases es.len(),
{
    if es.len() == 0 {
        Seq::empty()
    } else {
        let prefix = filter_kept(chain, es.drop_last());
        if keeps(chain, es.last()) {
            prefix.push(es.last())
        } else {
            prefix
        }
    }
}

/// What a caller must guarantee of a child pushed under a node whose chain
/// is `chain`: a certificate child must be issued by the chain's last
/// certificate, a URL child must be held by it.
pub open spec fn admissible_child(chain: Seq<CertificateView>, e: EdgeView) -> bool {
    match e {
        EdgeView::Certificate { certificate, .. } => chain.len() > 0 && certificate.issued(
            chain.last(),
        ),
        EdgeView::Url { holder, .. } => chain.len() > 0 && holder == chain.last(),
        EdgeView::End => true,
    }
}

/// Reverse a vector by popping into a fresh one.
pub(crate) fn reversed<T>(v: Vec<T>) -> (r: Vec<T>)
    ensures
        r@ == v@.reverse(),
{
    let mut v = v;
    let mut r: Vec<T> = Vec::new();
    let ghost orig = v@;
    while v.len() > 0
        invariant
            v@ == orig.take(v@.len() as int),
            v@.len() + r@.len() == orig.len(),
            forall|k: int| 0 <= k < r@.len() ==> r@[k] == orig[orig.len() - 1 - k],
        decreases v.len(),
    {
        match v.pop() {
            Some(x) => {
                r.push(x);
            },
            None => {
                proof {
                    assert(false);
                }
            },
        }
    }
    proof {
        assert(r@ =~= orig.reverse());
    }
    r
}

/// Whether `c` (by DER identity) appears among `certs`.
fn contains_certificate(certs: &Vec<Certificate>, c: &Certificate) -> (r: bool)
    ensures
        r == contains_der(certs.deep_view(), c@.der),
{
    let n = certs.len();
    for i in 0..n
        invariant
            n == certs.len(),
            forall|k: int| 0 <= k < i ==> certs.deep_view()[k].der != c@.der,
    {
        proof {
            assert(certs.deep_view()[i as int] == certs@[i as int].deep_view());
        }
        if certs[i].same_certificate(c) {
            proof {
                assert(contains_der(certs.deep_view(), c@.der));
            }
            return true;
        }
    }
    false
}

/// The search DAG: nodes indexed by serial, a LIFO frontier, and the visited
/// set.
pub struct Edges {
    nodes: Vec<EdgeNode>,
    frontier: Vec<usize>,
    visited: Vec<Edge>,
}

impl View for Edges {
    type V = EdgesView;

    closed spec fn view(&self) -> EdgesView {
        EdgesView {
            nodes: self.nodes.deep_view(),
            frontier: self.frontier@.map_values(|u: usize| u as int),
            visited: self.visited.deep_view(),
        }
    }
}

impl Edges {
    /// An empty graph.
    pub fn new() -> (r: Edges)
        ensures
            r@.nodes == Seq::<EdgeNodeView>::empty(),
            r@.frontier == Seq::<int>::empty(),
            r@.visited == Seq::<EdgeView>::empty(),
            r@.ok(),
    {
        let r = Edges { nodes: Vec::new(), frontier: Vec::new(), visited: Vec::new() };
        proof {
            assert(r@.nodes =~= Seq::<EdgeNodeView>::empty());
            assert(r@.frontier =~= Seq::<int>::empty());
            assert(r@.visited =~= Seq::<EdgeView>::empty());
        }
        r
    }

    /// Seed the graph with the target: one certificate edge, serial 0.
    pub fn start(&mut self, target: Certificate)
        requires
            old(self)@.nodes.len() == 0,
            old(self)@.frontier.len() == 0,
    ensures
            final(self)@.nodes == seq![
                EdgeNodeView {
                    parent: None,
                    edge: EdgeView::Certificate {
                        certificate: target@,
                        origin: CertificateOriginView::Target,
                    },
                },
            ],
            final(self)@.frontier == seq![0int],
            final(self)@.visited == old(self)@.visited,
            final(self)@.ok(),
            final(self)@.target() == target@,
    {
        let ghost pre = self@;
        self.nodes.push(EdgeNode {
            parent: None,
            edge: Edge::Certificate { certificate: target, origin: CertificateOrigin::Target },
        });
        self.frontier.push(0);
        proof {
            assert(self@.nodes =~= seq![
                EdgeNodeView {
                    parent: None,
                    edge: EdgeView::Certificate {
                        certificate: target@,
                        origin: CertificateOriginView::Target,
                    },
                },
            ]);
            assert(self@.frontier =~= seq![0int]);
            assert(self@.visited =~= pre.visited);
            assert(self@.chain(0) =~= seq![target@]);
            assert(self@.origins(0) =~= seq![CertificateOriginView::Target]);
            assert(self@.node_ok(0));
        }
    }

    /// Pop the most recently pushed edge: depth-first exploration.
    pub fn next(&mut self) -> (r: Option<usize>)
        ensures
            old(self)@.frontier.len() == 0 ==> r is None && final(self)@ == old(self)@,
            old(self)@.frontier.len() > 0 ==> {
                &&& r matches Some(i) && i == old(self)@.frontier.last()
                &&& final(self)@.nodes == old(self)@.nodes
                &&& final(self)@.visited == old(self)@.visited
                &&& final(self)@.frontier == old(self)@.frontier.drop_last()
            },
    {
        let ghost pre = self@;
        let r = self.frontier.pop();
        proof {
            if pre.frontier.len() == 0 {
                assert(self@.frontier =~= pre.frontier);
                assert(self@ =~= pre);
            } else {
                assert(self@.frontier =~= pre.frontier.drop_last());
            }
        }
        r
    }

    /// How many nodes the graph holds.
    pub fn node_count(&self) -> (r: usize)
        ensures
            r == self@.nodes.len(),
    {
        self.nodes.len()
    }

    /// The edge that serial `i` holds.
    pub fn edge(&self, i: usize) -> (r: &Edge)
        requires
            i < self@.nodes.len(),
        ensures
            r@ == self@.nodes[i as int].edge,
    {
        proof {
            assert(self.nodes.deep_view()[i as int] == self.nodes@[i as int].deep_view());
        }
        &self.nodes[i].edge
    }

    /// Mark the edge of serial `i` visited.
    pub fn visit(&mut self, i: usize)
        requires
            i < old(self)@.nodes.len(),
        ensures
            final(self)@.nodes == old(self)@.nodes,
            final(self)@.frontier == old(self)@.frontier,
            final(self)@.visited == old(self)@.visited.push(old(self)@.nodes[i as int].edge),
    {
        let ghost pre = self@;
        proof {
            assert(self.nodes.deep_view()[i as int] == self.nodes@[i as int].deep_view());
        }
        let e = self.nodes[i].edge.clone();
        self.visited.push(e);
        proof {
            assert(self@.nodes =~= pre.nodes);
            assert(self@.frontier =~= pre.frontier);
            assert(self@.visited =~= pre.visited.push(pre.nodes[i as int].edge));
        }
    }

    /// Reconstruct the candidate chain of serial `i` by walking its parent
    /// links: the certificates leaf first, and the parallel origins.
    pub fn path(&self, i: usize) -> (r: (Vec<Certificate>, Vec<CertificateOrigin>))
        requires
            self@.wf(),
            i < self@.nodes.len(),
        ensures
            r.0.deep_view() == self@.chain(i as int),
            r.1.deep_view() == self@.origins(i as int),
    {
        let mut certs_rev: Vec<Certificate> = Vec::new();
        let mut origins_rev: Vec<CertificateOrigin> = Vec::new();
        let mut cur: usize = i;
        proof {
            assert(certs_rev.deep_view().reverse() =~= Seq::<CertificateView>::empty());
            assert(origins_rev.deep_view().reverse() =~= Seq::<CertificateOriginView>::empty());
            assert(self@.chain(i as int) =~= self@.chain(cur as int) + certs_rev.deep_view().reverse());
            assert(self@.origins(i as int) =~= self@.origins(cur as int) + origins_rev.deep_view().reverse());
        }
        loop
            invariant_except_break
                self@.chain(i as int) == self@.chain(cur as int) + certs_rev.deep_view().reverse(),
                self@.origins(i as int) == self@.origins(cur as int)
                    + origins_rev.deep_view().reverse(),
            invariant
                self@.wf(),
                cur < self@.nodes.len(),
                i < self@.nodes.len(),
            ensures
                self@.chain(i as int) == certs_rev.deep_view().reverse(),
                self@.origins(i as int) == origins_rev.deep_view().reverse(),
            decreases cur,
        {
            proof {
                assert(self.nodes.deep_view()[cur as int] == self.nodes@[cur as int].deep_view());
            }
            let ghost cpre = certs_rev.deep_view();
            let ghost opre = origins_rev.deep_view();
            let ghost rest = match self@.nodes[cur as int].parent {
                Some(p) => self@.chain(p),
                None => Seq::<CertificateView>::empty(),
            };
            let ghost orest = match self@.nodes[cur as int].parent {
                Some(p) => self@.origins(p),
                None => Seq::<CertificateOriginView>::empty(),
            };
            match &self.nodes[cur].edge {
                Edge::Certificate { certificate, origin } => {
                    certs_rev.push(certificate.clone());
                    origins_rev.push(origin.clone());
                    proof {
                        assert(certs_rev.deep_view() =~= cpre.push(certificate@));
                        assert(origins_rev.deep_view() =~= opre.push(origin@));
                        assert(self@.chain(cur as int) == rest.push(certificate@));
                        assert(self@.origins(cur as int) == orest.push(origin@));
                        assert(self@.chain(i as int) =~= rest + certs_rev.deep_view().reverse());
                        assert(self@.origins(i as int) =~= orest + origins_rev.deep_view().reverse());
                    }
                },
                _ => {
                    proof {
                        assert(self@.chain(cur as int) == rest);
                        assert(self@.origins(cur as int) == orest);
                    }
                },
            }
            match self.nodes[cur].parent {
                Some(p) => {
                    cur = p;
                },
                None => {
                    proof {
                        assert(self@.chain(i as int) =~= certs_rev.deep_view().reverse());
                        assert(self@.origins(i as int) =~= origins_rev.deep_view().reverse());
                    }
                    break;
                },
            }
        }
        let ghost crev = certs_rev@;
        let ghost orev = origins_rev@;
        let certs = reversed(certs_rev);
        let origins = reversed(origins_rev);
        proof {
            let cv = certs.deep_view();
            let ch = self@.chain(i as int);
            assert forall|k: int| 0 <= k < cv.len() implies cv[k] == ch[k] by {
                assert(certs.deep_view()[k] == certs@[k].deep_view());
                assert(certs@[k] == crev[crev.len() - 1 - k]);
                assert(ch[k] == crev[crev.len() - 1 - k].deep_view());
            }
            assert(cv =~= ch);
            let ov = origins.deep_view();
            let oh = self@.origins(i as int);
            assert forall|k: int| 0 <= k < ov.len() implies ov[k] == oh[k] by {
                assert(origins.deep_view()[k] == origins@[k].deep_view());
                assert(origins@[k] == orev[orev.len() - 1 - k]);
                assert(oh[k] == orev[orev.len() - 1 - k].deep_view());
            }
            assert(ov =~= oh);
        }
        (certs, origins)
    }

    /// Grow the graph under `parent`: assign serials, record parent links,
    /// drop any certificate child that already appears on the chain of
    /// `parent` (the cycle guard), and push the rest onto the frontier in
    /// the given order.
    pub fn extend(&mut self, parent: usize, children: Vec<Edge>)
        requires
            old(self)@.ok(),
            parent < old(self)@.nodes.len(),
            forall|k: int| 0 <= k < children@.len() ==> admissible_child(
                old(self)@.chain(parent as int),
                (#[trigger] children@[k])@,
            ),
        ensures
            final(self)@.ok(),
            final(self)@.visited == old(self)@.visited,
            final(self)@.target() == old(self)@.target(),
            final(self)@.nodes.len() == old(self)@.nodes.len() + filter_kept(
                old(self)@.chain(parent as int),
                children.deep_view(),
            ).len(),
            final(self)@.nodes.take(old(self)@.nodes.len() as int) == old(self)@.nodes,
            final(self)@.frontier == old(self)@.frontier + Seq::new(
                filter_kept(old(self)@.chain(parent as int), children.deep_view()).len(),
                |j: int| old(self)@.nodes.len() + j,
            ),
            forall|i: int| 0 <= i < old(self)@.nodes.len() ==> final(self)@.chain(i) == old(
                self,
            )@.chain(i) && final(self)@.origins(i) == old(self)@.origins(i) && (
            #[trigger] final(self)@.nodes[i]).edge == old(self)@.nodes[i].edge,
            forall|m: int|
                old(self)@.nodes.len() <= m < final(self)@.nodes.len() ==> {
                    let e = filter_kept(old(self)@.chain(parent as int), children.deep_view())[m
                        - old(self)@.nodes.len()];
                    &&& (#[trigger] final(self)@.nodes[m]).parent == Some(parent as int)
                    &&& final(self)@.nodes[m].edge == e
                    &&& final(self)@.chain(m) == (match e {
                        EdgeView::Certificate { certificate, .. } => old(self)@.chain(
                            parent as int,
                        ).push(certificate),
                        _ => old(self)@.chain(parent as int),
                    })
                    &&& final(self)@.origins(m) == (match e {
                        EdgeView::Certificate { origin, .. } => old(self)@.origins(
                            parent as int,
                        ).push(origin),
                        _ => old(self)@.origins(parent as int),
                    })
                },
    {
        let ghost pre = self@;
        let ghost pchain = pre.chain(parent as int);
        let ghost porigins = pre.origins(parent as int);
        let ghost cviews = children.deep_view();
        let (chain_certs, _) = self.path(parent);
        proof {
            assert(cviews.take(0) =~= Seq::<EdgeView>::empty());
            assert(self@.nodes.take(pre.nodes.len() as int) =~= pre.nodes);
            assert(self@.frontier =~= pre.frontier + Seq::new(0, |j: int| pre.nodes.len() + j));
        }
        let n = children.len();
        for k in 0..n
            invariant
                n == children.len(),
                cviews == children.deep_view(),
                pre.ok(),
                parent < pre.nodes.len(),
                pchain == pre.chain(parent as int),
                porigins == pre.origins(parent as int),
                chain_certs.deep_view() == pchain,
                forall|j: int| 0 <= j < cviews.len() ==> admissible_child(
                    pchain,
                    #[trigger] cviews[j],
                ),
                self@.ok(),
                self@.visited == pre.visited,
                self@.target() == pre.target(),
                self@.nodes.len() == pre.nodes.len() + filter_kept(
                    pchain,
                    cviews.take(k as int),
                ).len(),
                self@.nodes.take(pre.nodes.len() as int) == pre.nodes,
                self@.frontier == pre.frontier + Seq::new(
                    filter_kept(pchain, cviews.take(k as int)).len(),
                    |j: int| pre.nodes.len() + j,
                ),
                forall|i: int| 0 <= i < pre.nodes.len() ==> self@.chain(i) == pre.chain(i)
                    && self@.origins(i) == pre.origins(i) && (#[trigger] self@.nodes[i]).edge
                    == pre.nodes[i].edge,
                forall|m: int|
                    pre.nodes.len() <= m < self@.nodes.len() ==> {
                        let e = filter_kept(pchain, cviews.take(k as int))[m - pre.nodes.len()];
                        &&& (#[trigger] self@.nodes[m]).parent == Some(parent as int)
                        &&& self@.nodes[m].edge == e
                        &&& self@.chain(m) == (match e {
                            EdgeView::Certificate { certificate, .. } => pchain.push(certificate),
                            _ => pchain,
                        })
                        &&& self@.origins(m) == (match e {
                            EdgeView::Certificate { origin, .. } => porigins.push(origin),
                            _ => porigins,
                        })
                    },
        {
            proof {
                assert(children.deep_view()[k as int] == children@[k as int].deep_view());
                assert(cviews.take(k + 1).drop_last() =~= cviews.take(k as int));
                assert(cviews.take(k + 1).last() == cviews[k as int]);
            }
            let child = children[k].clone();
            let keep = match &child {
                Edge::Certificate { certificate, .. } => !contains_certificate(
                    &chain_certs,
                    certificate,
                ),
                _ => true,
            };
            if keep {
                proof {
                    assert(keeps(pchain, cviews[k as int]));
                }
                let ghost mid = self@;
                let serial = self.nodes.len();
                self.nodes.push(EdgeNode { parent: Some(parent), edge: child });
                self.frontier.push(serial);
                proof {
                    let post = self@;
                    let m = mid.nodes.len() as int;
                    assert(post.nodes =~= mid.nodes.push(
                        EdgeNodeView { parent: Some(parent as int), edge: cviews[k as int] },
                    ));
                    assert(post.frontier =~= mid.frontier.push(m));
                    assert(post.visited =~= mid.visited);
                    assert(post.nodes.take(pre.nodes.len() as int) =~= pre.nodes);
                    assert(filter_kept(pchain, cviews.take(k + 1)) =~= filter_kept(
                        pchain,
                        cviews.take(k as int),
                    ).push(cviews[k as int]));
                    assert(post.frontier =~= pre.frontier + Seq::new(
                        filter_kept(pchain, cviews.take(k + 1)).len(),
                        |j: int| pre.nodes.len() + j,
                    ));
                    // chains of existing nodes are unchanged
                    assert forall|i: int| 0 <= i < m implies post.chain(i) == mid.chain(i)
                        && post.origins(i) == mid.origins(i) by {
                        lemma_chain_stable(post.nodes, mid.nodes, m, i);
                    }
                    assert(post.target() == mid.target());
                    // the chain of the new node
                    assert(post.chain(m) == (match cviews[k as int] {
                        EdgeView::Certificate { certificate, .. } => pchain.push(certificate),
                        _ => pchain,
                    }));
                    assert(post.origins(m) == (match cviews[k as int] {
                        EdgeView::Certificate { origin, .. } => porigins.push(origin),
                        _ => porigins,
                    }));
                    // the new node is sound
                    assert(post.node_ok(m)) by {
                        assert(mid.node_ok(parent as int));
                        assert(pchain.len() > 0 && pchain[0] == pre.target());
                        match cviews[k as int] {
                            EdgeView::Certificate { certificate, .. } => {
                                let c = post.chain(m);
                                assert(c == pchain.push(certificate));
                                assert(certificate.issued(pchain.last()));
                                assert forall|a: int| 1 <= a < c.len() implies (
                                #[trigger] c[a]).issued(c[a - 1]) by {
                                    if a < c.len() - 1 {
                                        assert(c[a] == pchain[a] && c[a - 1] == pchain[a - 1]);
                                    } else {
                                        assert(c[a] == certificate);
                                        assert(c[a - 1] == pchain[pchain.len() - 1]);
                                    }
                                }
                                assert(!contains_der(pchain, certificate.der));
                                assert forall|a: int, b: int| 0 <= a < b < c.len() implies c[a].der
                                    != c[b].der by {
                                    if b < c.len() - 1 {
                                        assert(c[a] == pchain[a] && c[b] == pchain[b]);
                                    } else {
                                        assert(c[b] == certificate);
                                        assert(c[a] == pchain[a]);
                                    }
                                }
                            },
                            _ => {},
                        }
                    }
                    // soundness of the old nodes carries over
                    assert forall|i: int| 0 <= i < post.nodes.len() implies #[trigger] post.node_ok(
                        i,
                    ) by {
                        if i < m {
                            assert(mid.node_ok(i));
                            assert(post.chain(i) == mid.chain(i));
                            assert(post.origins(i) == mid.origins(i));
                            assert(post.nodes[i].edge == mid.nodes[i].edge);
                        }
                    }
                    assert(post.wf());
                }
            } else {
                proof {
                    assert(!keeps(pchain, cviews[k as int]));
                    assert(filter_kept(pchain, cviews.take(k + 1)) =~= filter_kept(
                        pchain,
                        cviews.take(k as int),
                    ));
                }
            }
        }
        proof {
            assert(cviews.take(n as int) =~= cviews);
        }
    }

    /// Whether an edge with the same identity as serial `i`'s was visited.
    pub fn visited(&self, i: usize) -> (r: bool)
        requires
            i < self@.nodes.len(),
        ensures
            r == self@.is_visited(self@.nodes[i as int].edge),
    {
        proof {
            assert(self.nodes.deep_view()[i as int] == self.nodes@[i as int].deep_view());
        }
        let n = self.visited.len();
        for k in 0..n
            invariant
                n == self.visited.len(),
                i < self.nodes.len(),
                self.nodes.deep_view()[i as int] == self.nodes@[i as int].deep_view(),
                forall|m: int| 0 <= m < k ==> !same_edge(self@.visited[m], self@.nodes[i as int].edge),
        {
            proof {
                assert(self.visited.deep_view()[k as int] == self.visited@[k as int].deep_view());
            }
            if self.visited[k].same(&self.nodes[i].edge) {
                proof {
                    assert(same_edge(self@.visited[k as int], self@.nodes[i as int].edge));
                }
                return true;
            }
        }
        false
    }
}

} // verus!
