//! The finder engine: the depth-first, validator-gated search for a
//! certificate path from a target toward a trust anchor.

use vstd::prelude::*;
use crate::aia::{AiaFetcher, AIA};
use crate::certificate::{Certificate, CertificateView};
use crate::clock::{clock_now, elapsed_millis};
use crate::edge::{admissible_child, Edge, EdgeNodeView, EdgeView, Edges};
use crate::report::{
    chain_distinct, chain_linked, CertificateOrigin, CertificateOriginView, Found, Report,
    ValidationFailure,
};
use crate::store::{issuers_of, seeded, store_insertion, store_wf, CertificateStore};
use crate::validator::{CertificatePathValidation, PathValidator, PathValidatorError, PathVerdict};

verus! {

/// Errors from the finder. AIA transport failures and undecodable
/// certificates never surface here: they are treated as missing results.
#[derive(Debug)]
pub enum X509PathFinderError {
    /// The search budget was exhausted.
    BudgetExceeded,
    /// The validator itself failed (as opposed to rejecting a chain).
    ValidatorError(String),
}

/// Configuration of a path finder.
pub struct X509PathFinderConfiguration<V: PathValidator, F: AiaFetcher> {
    /// Wall-clock budget for one search, in milliseconds; 0 means unlimited.
    /// The effective limit is the budget plus at most one pending fetch,
    /// since a fetch in flight is not interrupted.
    pub limit: u64,
    /// AIA fetching: disabled, or enabled with a fetcher.
    pub aia: AIA<F>,
    /// The validator that pronounces on candidate chains.
    pub validator: V,
    /// Seed certificates for the store (bridges, cross-certificates).
    pub certificates: Vec<Certificate>,
}

/// A well-formed reported chain: leaf first, starting at the target, every
/// link a name match, no certificate twice, origins parallel to the path
/// and starting at `Target`.
pub open spec fn reported_chain_ok(
    target: CertificateView,
    path: Seq<CertificateView>,
    origin: Seq<CertificateOriginView>,
) -> bool {
    &&& path.len() > 0
    &&& path[0] == target
    &&& chain_linked(path)
    &&& chain_distinct(path)
    &&& origin.len() == path.len()
    &&& origin[0] == CertificateOriginView::Target
}

/// The store candidates of a certificate edge: one certificate edge per
/// issuer candidate, in insertion order, each tagged `Store`.
pub open spec fn store_candidate_edges(issuers: Seq<CertificateView>) -> Seq<EdgeView> {
    issuers.map_values(
        |c: CertificateView| EdgeView::Certificate {
            certificate: c,
            origin: CertificateOriginView::Store,
        },
    )
}

/// The URL edges of a certificate edge: one per AIA URI of `holder`, in
/// extension order.
pub open spec fn aia_url_edges(holder: CertificateView) -> Seq<EdgeView> {
    holder.aia.map_values(|u: Seq<char>| EdgeView::Url { url: u, holder: holder })
}

/// The expansion of a certificate edge, in the order it is pushed onto the
/// LIFO frontier — the reverse of exploration order. Exploration visits the
/// store candidates first, in insertion order, then the AIA URIs in
/// extension order (AIA is tried only where store expansion dead-ends).
/// With no store candidate: the AIA URIs alone where AIA is enabled and the
/// certificate names any, else a single end edge, so the chain so far is
/// offered to the validator.
pub open spec fn certificate_expansion(
    store: Seq<CertificateView>,
    aia_enabled: bool,
    c: CertificateView,
) -> Seq<EdgeView> {
    let issuer_edges = store_candidate_edges(issuers_of(store, c));
    if issuer_edges.len() > 0 {
        (issuer_edges + aia_url_edges(c)).reverse()
    } else if aia_enabled && c.aia.len() > 0 {
        aia_url_edges(c).reverse()
    } else {
        seq![EdgeView::End]
    }
}

/// The certificate edges that a URL edge's fetch result contributes: the
/// fetched certificates, in server order, that are not self-signed and that
/// issued `holder`, each tagged with the URI it was fetched from.
pub open spec fn fetched_candidate_edges(
    fetched: Seq<CertificateView>,
    holder: CertificateView,
    url: Seq<char>,
) -> Seq<EdgeView>
    decreases fetched.len(),
{
    if fetched.len() == 0 {
        Seq::empty()
    } else {
        let prefix = fetched_candidate_edges(fetched.drop_last(), holder, url);
        let c = fetched.last();
        if !c.self_signed() && c.issued(holder) {
            prefix.push(
                EdgeView::Certificate {
                    certificate: c,
                    origin: CertificateOriginView::Url(url),
                },
            )
        } else {
            prefix
        }
    }
}

/// The expansion of a URL edge whose fetch returned `fetched`, in frontier
/// push order: the kept candidates reversed, so exploration follows server
/// order, or a single end edge when none qualifies, so the chain so far is
/// still offered to the validator.
pub open spec fn url_expansion(
    fetched: Seq<CertificateView>,
    holder: CertificateView,
    url: Seq<char>,
) -> Seq<EdgeView> {
    let kept = fetched_candidate_edges(fetched, holder, url);
    if kept.len() == 0 {
        seq![EdgeView::End]
    } else {
        kept.reverse()
    }
}

/// The store after a fetch result was offered to it, certificate by
/// certificate in server order: idempotent, self-signed entries dropped.
pub open spec fn store_after_fetch(
    store: Seq<CertificateView>,
    fetched: Seq<CertificateView>,
) -> Seq<CertificateView>
    decreases fetched.len(),
{
    if fetched.len() == 0 {
        store
    } else {
        store_insertion(store_after_fetch(store, fetched.drop_last()), fetched.last())
    }
}

/// A candidate chain, as the search builds them: leaf first from the
/// target, linked by name matches, with no certificate twice.
pub open spec fn candidate_chain(target: CertificateView, chain: Seq<CertificateView>) -> bool {
    &&& chain.len() > 0
    &&& chain[0] == target
    &&& chain_linked(chain)
    &&& chain_distinct(chain)
}

/// Every edge of a certificate expansion may stand under a node whose
/// chain ends in the expanded certificate.
proof fn lemma_certificate_expansion_admissible(
    store: Seq<CertificateView>,
    aia_enabled: bool,
    c: CertificateView,
    chain: Seq<CertificateView>,
)
    requires
        chain.len() > 0,
        chain.last() == c,
    ensures
        forall|k: int|
            0 <= k < certificate_expansion(store, aia_enabled, c).len() ==> admissible_child(
                chain,
                #[trigger] certificate_expansion(store, aia_enabled, c)[k],
            ),
{
    let issuer_edges = store_candidate_edges(issuers_of(store, c));
    let url_edges = aia_url_edges(c);
    crate::store::lemma_issuers_issued(store, c);
    assert forall|k: int|
        0 <= k < certificate_expansion(store, aia_enabled, c).len() implies admissible_child(
        chain,
        #[trigger] certificate_expansion(store, aia_enabled, c)[k],
    ) by {
        let e = certificate_expansion(store, aia_enabled, c)[k];
        if issuer_edges.len() > 0 {
            let both = issuer_edges + url_edges;
            assert(e == both[both.len() - 1 - k]);
            let j = both.len() - 1 - k;
            if j < issuer_edges.len() {
                assert(e == issuer_edges[j]);
                assert(issuers_of(store, c)[j].issued(c));
            } else {
                assert(e == url_edges[j - issuer_edges.len()]);
            }
        } else if aia_enabled && c.aia.len() > 0 {
            assert(e == url_edges[url_edges.len() - 1 - k]);
        } else {
            assert(e == EdgeView::End);
        }
    }
}

/// Every certificate edge that a fetch result contributes holds a
/// certificate issued by the holder, tagged with the fetched URI.
proof fn lemma_fetched_candidates_issued(
    fetched: Seq<CertificateView>,
    holder: CertificateView,
    url: Seq<char>,
)
    ensures
        forall|k: int|
            0 <= k < fetched_candidate_edges(fetched, holder, url).len()
                ==> ((#[trigger] fetched_candidate_edges(fetched, holder, url)[k]) matches
                EdgeView::Certificate { certificate, origin } && certificate.issued(holder)
                && origin == CertificateOriginView::Url(url)),
    decreases fetched.len(),
{
    if fetched.len() > 0 {
        lemma_fetched_candidates_issued(fetched.drop_last(), holder, url);
    }
}

/// Every edge of a URL expansion may stand under a node whose chain ends in
/// the holder.
proof fn lemma_url_expansion_admissible(
    fetched: Seq<CertificateView>,
    holder: CertificateView,
    url: Seq<char>,
    chain: Seq<CertificateView>,
)
    requires
        chain.len() > 0,
        chain.last() == holder,
    ensures
        forall|k: int|
            0 <= k < url_expansion(fetched, holder, url).len() ==> admissible_child(
                chain,
                #[trigger] url_expansion(fetched, holder, url)[k],
            ),
{
    let kept = fetched_candidate_edges(fetched, holder, url);
    lemma_fetched_candidates_issued(fetched, holder, url);
    assert forall|k: int|
        0 <= k < url_expansion(fetched, holder, url).len() implies admissible_child(
        chain,
        #[trigger] url_expansion(fetched, holder, url)[k],
    ) by {
        if kept.len() == 0 {
            assert(url_expansion(fetched, holder, url)[k] == EdgeView::End);
        } else {
            assert(url_expansion(fetched, holder, url)[k] == kept[kept.len() - 1 - k]);
        }
    }
}

/// The URL-edge expansion rule: every fetched certificate is offered to the
/// store (idempotent, self-signed dropped — non-issuers are cached too),
/// and exactly the non-self-signed issuers of `holder` come back as
/// certificate edges tagged with the URI they were fetched from, pushed so
/// that exploration follows server order; a single end edge when none
/// qualifies, so the chain so far is still offered to the validator. Takes
/// the fetch result as a plain value, so it is verified for every possible
/// result.
pub fn url_candidates(
    store: &mut CertificateStore,
    fetched: Vec<Certificate>,
    url: &String,
    holder: &Certificate,
) -> (r: Vec<Edge>)
    ensures
        final(store)@ == store_after_fetch(old(store)@, fetched.deep_view()),
        store_wf(old(store)@) ==> store_wf(final(store)@),
        r.deep_view() == url_expansion(fetched.deep_view(), holder@, url@),
{
    let ghost fviews = fetched.deep_view();
    let mut kept: Vec<Edge> = Vec::new();
    proof {
        assert(fviews.take(0) =~= Seq::<CertificateView>::empty());
        assert(kept.deep_view() =~= fetched_candidate_edges(fviews.take(0), holder@, url@));
        assert(store@ == store_after_fetch(old(store)@, fviews.take(0)));
    }
    let n = fetched.len();
    for k in 0..n
        invariant
            n == fetched.len(),
            fviews == fetched.deep_view(),
            store@ == store_after_fetch(old(store)@, fviews.take(k as int)),
            store_wf(old(store)@) ==> store_wf(store@),
            kept.deep_view() == fetched_candidate_edges(fviews.take(k as int), holder@, url@),
    {
        proof {
            assert(fetched.deep_view()[k as int] == fetched@[k as int].deep_view());
            assert(fviews.take(k + 1).drop_last() =~= fviews.take(k as int));
            assert(fviews.take(k + 1).last() == fviews[k as int]);
        }
        let c = fetched[k].clone();
        let ghost kpre = kept.deep_view();
        match store.insert(c) {
            Some((candidate, _)) => {
                if candidate.issued(holder) {
                    kept.push(
                        Edge::Certificate {
                            certificate: candidate,
                            origin: CertificateOrigin::Url(url.clone()),
                        },
                    );
                    proof {
                        assert(kept.deep_view() =~= kpre.push(
                            EdgeView::Certificate {
                                certificate: fviews[k as int],
                                origin: CertificateOriginView::Url(url@),
                            },
                        ));
                    }
                }
            },
            None => {},
        }
    }
    proof {
        assert(fviews.take(n as int) =~= fviews);
    }
    let ghost kviews = kept.deep_view();
    let ghost kvals = kept@;
    let mut children = crate::edge::reversed(kept);
    proof {
        let ke = fetched_candidate_edges(fviews, holder@, url@);
        assert forall|j: int| 0 <= j < children@.len() implies children.deep_view()[j]
            == ke.reverse()[j] by {
            assert(children.deep_view()[j] == children@[j].deep_view());
            assert(children@[j] == kvals[kvals.len() - 1 - j]);
            assert(kviews[kvals.len() - 1 - j] == kvals[kvals.len() - 1 - j].deep_view());
        }
        assert(children.deep_view() =~= ke.reverse());
    }
    if children.len() == 0 {
        children.push(Edge::End);
        proof {
            assert(children.deep_view() =~= seq![EdgeView::End]);
        }
    }
    children
}

/// X.509 path finder: searches the issuer graph for a chain from a target
/// certificate to a chain that the validator accepts.
pub struct X509PathFinder<V: PathValidator, F: AiaFetcher> {
    /// Wall-clock budget for one search, in milliseconds; 0 means unlimited.
    pub limit: u64,
    /// AIA fetching: disabled, or enabled with a fetcher.
    pub aia: AIA<F>,
    /// The validator that pronounces on candidate chains.
    pub validator: V,
    /// The certificate store: seeded at construction, grown by AIA fetches.
    pub store: CertificateStore,
    /// The search DAG of the current search; reset at each `find`.
    pub edges: Edges,
}

impl<V: PathValidator, F: AiaFetcher> X509PathFinder<V, F> {
    /// Instantiate a new finder from its configuration.
    pub fn new(config: X509PathFinderConfiguration<V, F>) -> (r: Self)
        ensures
            r.limit == config.limit,
            r.aia == config.aia,
            r.validator == config.validator,
            r.store@ == seeded(config.certificates.deep_view()),
            r.edges@.nodes == Seq::<EdgeNodeView>::empty(),
            r.edges@.frontier == Seq::<int>::empty(),
            r.edges@.visited == Seq::<EdgeView>::empty(),
    {
        X509PathFinder {
            limit: config.limit,
            aia: config.aia,
            validator: config.validator,
            store: CertificateStore::from_certificates(&config.certificates),
            edges: Edges::new(),
        }
    }

    /// The expansion of a certificate edge, in frontier push order: spec
    /// §4.4's rules for certificate edges, as `certificate_expansion`
    /// states them. Reads the store and the AIA setting; mutates nothing.
    fn next_certificate(&self, certificate: &Certificate) -> (r: Vec<Edge>)
        ensures
            r.deep_view() == certificate_expansion(
                self.store@,
                self.aia is Enabled,
                certificate@,
            ),
    {
        let issuers = self.store.issuers(certificate);
        let aia_urls = certificate.aia();
        let aia_enabled = match &self.aia {
            AIA::Enabled(_) => true,
            AIA::Disabled => false,
        };
        let ghost issuer_edges = store_candidate_edges(issuers_of(self.store@, certificate@));
        let ghost url_edges = aia_url_edges(certificate@);
        let mut r: Vec<Edge> = Vec::new();
        if issuers.len() > 0 {
            let m = aia_urls.len();
            for k in 0..m
                invariant
                    m == aia_urls.len(),
                    aia_urls.deep_view() == certificate@.aia,
                    url_edges == aia_url_edges(certificate@),
                    r@.len() == k,
                    forall|j: int| 0 <= j < k ==> r.deep_view()[j] == url_edges[m - 1 - j],
            {
                let ghost rpre = r@;
                let ghost dpre = r.deep_view();
                r.push(
                    Edge::Url { url: aia_urls[m - 1 - k].clone(), holder: certificate.clone() },
                );
                proof {
                    assert(aia_urls.deep_view()[m - 1 - k as int] == aia_urls@[m - 1
                        - k as int].deep_view());
                    assert(r.deep_view()[k as int] == r@[k as int].deep_view());
                    assert(r.deep_view()[k as int] == url_edges[m - 1 - k as int]);
                    assert forall|j: int| 0 <= j < k implies r.deep_view()[j] == url_edges[m - 1
                        - j] by {
                        assert(dpre[j] == rpre[j].deep_view());
                        assert(r@[j] == rpre[j]);
                        assert(r.deep_view()[j] == r@[j].deep_view());
                        assert(dpre[j] == url_edges[m - 1 - j]);
                    }
                }
            }
            let s = issuers.len();
            for k in 0..s
                invariant
                    s == issuers.len(),
                    m == aia_urls.len(),
                    issuers.deep_view() == issuers_of(self.store@, certificate@),
                    issuer_edges == store_candidate_edges(issuers_of(self.store@, certificate@)),
                    url_edges == aia_url_edges(certificate@),
                    r@.len() == m + k,
                    forall|j: int| 0 <= j < m ==> r.deep_view()[j] == url_edges[m - 1 - j],
                    forall|j: int| m <= j < m + k ==> r.deep_view()[j] == issuer_edges[s - 1 - (j
                        - m)],
            {
                let ghost rpre = r@;
                let ghost dpre = r.deep_view();
                r.push(
                    Edge::Certificate {
                        certificate: issuers[s - 1 - k].clone(),
                        origin: CertificateOrigin::Store,
                    },
                );
                proof {
                    assert(issuers.deep_view()[s - 1 - k as int] == issuers@[s - 1
                        - k as int].deep_view());
                    assert(r.deep_view()[(m + k) as int] == r@[(m + k) as int].deep_view());
                    assert(r.deep_view()[(m + k) as int] == issuer_edges[s - 1 - k as int]);
                    assert forall|j: int| 0 <= j < m + k implies r.deep_view()[j] == (if j < m {
                        url_edges[m - 1 - j]
                    } else {
                        issuer_edges[s - 1 - (j - m)]
                    }) by {
                        assert(dpre[j] == rpre[j].deep_view());
                        assert(r@[j] == rpre[j]);
                        assert(r.deep_view()[j] == r@[j].deep_view());
                    }
                }
            }
            proof {
                let both = issuer_edges + url_edges;
                assert forall|j: int| 0 <= j < r.deep_view().len() implies r.deep_view()[j]
                    == both.reverse()[j] by {
                    if j < m {
                        assert(r.deep_view()[j] == url_edges[m - 1 - j]);
                        assert(both[both.len() - 1 - j] == url_edges[m - 1 - j]);
                    } else {
                        assert(r.deep_view()[j] == issuer_edges[s - 1 - (j - m)]);
                        assert(both[both.len() - 1 - j] == issuer_edges[s - 1 - (j - m)]);
                    }
                }
                assert(r.deep_view() =~= both.reverse());
            }
        } else if aia_enabled && aia_urls.len() > 0 {
            let m = aia_urls.len();
            for k in 0..m
                invariant
                    m == aia_urls.len(),
                    aia_urls.deep_view() == certificate@.aia,
                    url_edges == aia_url_edges(certificate@),
                    r@.len() == k,
                    forall|j: int| 0 <= j < k ==> r.deep_view()[j] == url_edges[m - 1 - j],
            {
                let ghost rpre = r@;
                let ghost dpre = r.deep_view();
                r.push(
                    Edge::Url { url: aia_urls[m - 1 - k].clone(), holder: certificate.clone() },
                );
                proof {
                    assert(aia_urls.deep_view()[m - 1 - k as int] == aia_urls@[m - 1
                        - k as int].deep_view());
                    assert(r.deep_view()[k as int] == r@[k as int].deep_view());
                    assert(r.deep_view()[k as int] == url_edges[m - 1 - k as int]);
                    assert forall|j: int| 0 <= j < k implies r.deep_view()[j] == url_edges[m - 1
                        - j] by {
                        assert(dpre[j] == rpre[j].deep_view());
                        assert(r@[j] == rpre[j]);
                        assert(r.deep_view()[j] == r@[j].deep_view());
                        assert(dpre[j] == url_edges[m - 1 - j]);
                    }
                }
            }
            proof {
                assert(r.deep_view() =~= url_edges.reverse());
            }
        } else {
            r.push(Edge::End);
            proof {
                assert(r.deep_view() =~= seq![EdgeView::End]);
            }
        }
        r
    }

    /// Find a certificate path from `target` to a chain the validator
    /// accepts, depth first, exploring store candidates before AIA
    /// candidates at each ply.
    ///
    /// Every chain reported — accepted or rejected — is a sound candidate:
    /// leaf first from the target, linked by name matches, with no
    /// certificate twice, and carrying its origin trace. The accepted chain
    /// is exactly one the validator's own specification accepts; each
    /// failure carries the validator's exact reason. What each popped edge
    /// contributes to the frontier is stated by [`certificate_expansion`]
    /// and [`url_expansion`] — the contracts of [`Self::next_certificate`]
    /// and [`url_candidates`], whose edges [`Edges::extend`] then pushes,
    /// minus the cycle guard's prunings.
    ///
    /// A failure of the validator itself surfaces at once as
    /// `ValidatorError`, and only from validating a genuine candidate chain
    /// on which the validator's own specification admits an error;
    /// `NotFound` verdicts never surface as errors, and fetch failures
    /// never surface at all.
    ///
    /// Besides the wall-clock budget, the search is bounded by an internal
    /// limit of `u64::MAX` expansion steps; no feasible search reaches it,
    /// but were it reached, the budget error would be returned.
    pub fn find(&mut self, target: Certificate) -> (r: Result<Report, X509PathFinderError>)
        ensures
            final(self).limit == old(self).limit,
            final(self).validator == old(self).validator,
            final(self).aia == old(self).aia,
            old(self).aia is Disabled ==> final(self).store@ == old(self).store@,
            r matches Ok(report) ==> {
                &&& (forall|k: int|
                    0 <= k < report.failures@.len() ==> {
                        let f = #[trigger] report.failures@[k];
                        &&& reported_chain_ok(target@, f.path.deep_view(), f.origin.deep_view())
                        &&& old(self).validator.spec_validate(f.path.deep_view())
                            == PathVerdict::NotFound(f.reason@)
                    })
                &&& (report.found matches Some(found) ==> {
                    &&& reported_chain_ok(
                        target@,
                        found.path.deep_view(),
                        found.origin.deep_view(),
                    )
                    &&& old(self).validator.spec_validate(found.path.deep_view())
                        == PathVerdict::Found
                })
            },
            r matches Err(e) ==> (e is ValidatorError ==> {
                &&& !old(self).validator.spec_infallible()
                &&& exists|chain: Seq<CertificateView>|
                    #[trigger] candidate_chain(target@, chain) && old(
                        self,
                    ).validator.spec_may_error(chain)
            }),
            ({
                &&& old(self).aia is Disabled
                &&& old(self).limit == 0
                &&& old(self).validator.spec_infallible()
                &&& issuers_of(old(self).store@, target@).len() == 0
            }) ==> {
                &&& r matches Ok(report)
                &&& (old(self).validator.spec_validate(seq![target@]) == PathVerdict::Found ==> {
                    &&& report.found matches Some(found)
                    &&& found.path.deep_view() == seq![target@]
                    &&& found.origin.deep_view() == seq![CertificateOriginView::Target]
                    &&& report.failures@.len() == 0
                })
                &&& (old(self).validator.spec_validate(seq![target@]) is NotFound ==> {
                    &&& report.found is None
                    &&& report.failures@.len() == 1
                    &&& report.failures@[0].path.deep_view() == seq![target@]
                    &&& report.failures@[0].origin.deep_view() == seq![
                        CertificateOriginView::Target,
                    ]
                    &&& PathVerdict::NotFound(report.failures@[0].reason@) == old(
                        self,
                    ).validator.spec_validate(seq![target@])
                })
            },
    {
        let ghost scenario = old(self).aia is Disabled && old(self).limit == 0 && old(
            self,
        ).validator.spec_infallible() && issuers_of(old(self).store@, target@).len() == 0;
        let ghost n0 = EdgeNodeView {
            parent: None,
            edge: EdgeView::Certificate {
                certificate: target@,
                origin: CertificateOriginView::Target,
            },
        };
        let ghost n1 = EdgeNodeView { parent: Some(0int), edge: EdgeView::End };
        self.edges = Edges::new();
        self.edges.start(target.clone());
        proof {
            assert(self.edges@.chain(0) =~= seq![target@]);
            assert(self.edges@.origins(0) =~= seq![CertificateOriginView::Target]);
        }
        let start = clock_now();
        let mut failures: Vec<ValidationFailure> = Vec::new();
        let mut steps: u64 = 0;
        loop
            invariant
                scenario == (old(self).aia is Disabled && old(self).limit == 0 && old(
                    self,
                ).validator.spec_infallible() && issuers_of(old(self).store@, target@).len() == 0),
                n0 == (EdgeNodeView {
                    parent: None,
                    edge: EdgeView::Certificate {
                        certificate: target@,
                        origin: CertificateOriginView::Target,
                    },
                }),
                n1 == (EdgeNodeView { parent: Some(0int), edge: EdgeView::End }),
                self.limit == old(self).limit,
                self.validator == old(self).validator,
                self.aia == old(self).aia,
                old(self).aia is Disabled ==> self.store@ == old(self).store@,
                self.edges@.ok(),
                self.edges@.nodes.len() > 0,
                self.edges@.target() == target@,
                forall|k: int|
                    0 <= k < failures@.len() ==> {
                        let f = #[trigger] failures@[k];
                        &&& reported_chain_ok(target@, f.path.deep_view(), f.origin.deep_view())
                        &&& old(self).validator.spec_validate(f.path.deep_view())
                            == PathVerdict::NotFound(f.reason@)
                    },
                scenario ==> steps <= 2,
                scenario && steps == 0 ==> {
                    &&& self.edges@.nodes == seq![n0]
                    &&& self.edges@.frontier == seq![0int]
                    &&& self.edges@.visited == Seq::<EdgeView>::empty()
                    &&& failures@.len() == 0
                },
                scenario && steps == 1 ==> {
                    &&& self.edges@.nodes == seq![n0, n1]
                    &&& self.edges@.frontier == seq![1int]
                    &&& failures@.len() == 0
                },
                scenario && steps == 2 ==> {
                    &&& self.edges@.frontier == Seq::<int>::empty()
                    &&& old(self).validator.spec_validate(seq![target@]) is NotFound
                    &&& failures@.len() == 1
                    &&& failures@[0].path.deep_view() == seq![target@]
                    &&& failures@[0].origin.deep_view() == seq![CertificateOriginView::Target]
                    &&& PathVerdict::NotFound(failures@[0].reason@) == old(
                        self,
                    ).validator.spec_validate(seq![target@])
                },
            ensures
                self.limit == old(self).limit,
                self.validator == old(self).validator,
                self.aia == old(self).aia,
                old(self).aia is Disabled ==> self.store@ == old(self).store@,
                forall|k: int|
                    0 <= k < failures@.len() ==> {
                        let f = #[trigger] failures@[k];
                        &&& reported_chain_ok(target@, f.path.deep_view(), f.origin.deep_view())
                        &&& old(self).validator.spec_validate(f.path.deep_view())
                            == PathVerdict::NotFound(f.reason@)
                    },
                scenario ==> {
                    &&& steps == 2
                    &&& old(self).validator.spec_validate(seq![target@]) is NotFound
                    &&& failures@.len() == 1
                    &&& failures@[0].path.deep_view() == seq![target@]
                    &&& failures@[0].origin.deep_view() == seq![CertificateOriginView::Target]
                    &&& PathVerdict::NotFound(failures@[0].reason@) == old(
                        self,
                    ).validator.spec_validate(seq![target@])
                },
            decreases u64::MAX - steps,
        {
            let ghost top = self.edges@;
            let i = match self.edges.next() {
                Some(i) => i,
                None => {
                    proof {
                        if scenario {
                            assert(steps == 2);
                        }
                    }
                    break ;
                },
            };
            proof {
                assert((i as int) < top.nodes.len());
                assert(self.edges@.nodes == top.nodes);
                assert(self.edges@.visited == top.visited);
                assert(self.edges@.frontier == top.frontier.drop_last());
                assert(self.edges@.wf()) by {
                    assert(forall|k: int|
                        0 <= k < self.edges@.frontier.len() ==> #[trigger] self.edges@.frontier[k]
                            == top.frontier[k]);
                }
                assert forall|j: int| 0 <= j < self.edges@.nodes.len() implies
                    #[trigger] self.edges@.node_ok(j) by {
                    assert(top.node_ok(j));
                }
                assert(self.edges@.ok());
                assert(self.edges@.node_ok(i as int));
                assert(self.edges@.target() == target@);
            }
            if self.limit != 0 && elapsed_millis(&start) > self.limit {
                proof {
                    if scenario {
                        assert(self.limit == 0);
                        assert(false);
                    }
                }
                return Err(X509PathFinderError::BudgetExceeded);
            }
            if steps == u64::MAX {
                proof {
                    if scenario {
                        assert(steps <= 2);
                        assert(false);
                    }
                }
                return Err(X509PathFinderError::BudgetExceeded);
            }
            steps = steps + 1;
            let edge = self.edges.edge(i).clone();
            match &edge {
                Edge::End => {
                    let (path, origin) = self.edges.path(i);
                    proof {
                        assert(self.edges@.node_ok(i as int));
                        if scenario {
                            assert(self.edges@.nodes[i as int].edge == EdgeView::End);
                            assert(i == 1);
                            assert(self.edges@.nodes == seq![n0, n1]);
                            assert(self.edges@.nodes[0] == n0 && self.edges@.nodes[1] == n1);
                            assert(self.edges@.chain(0) =~= seq![target@]);
                            assert(self.edges@.origins(0) =~= seq![CertificateOriginView::Target]);
                            assert(self.edges@.chain(1) =~= seq![target@]);
                            assert(self.edges@.origins(1) =~= seq![
                                CertificateOriginView::Target,
                            ]);
                        }
                    }
                    match self.validator.validate(&path) {
                        Err(e) => {
                            proof {
                                let pd = path.deep_view();
                                assert(candidate_chain(target@, pd));
                                assert(old(self).validator.spec_may_error(pd));
                            }
                            return Err(X509PathFinderError::ValidatorError(e.message()));
                        },
                        Ok(CertificatePathValidation::Found) => {
                            let duration = elapsed_millis(&start);
                            return Ok(Report {
                                found: Some(Found { path, origin }),
                                duration,
                                failures,
                            });
                        },
                        Ok(CertificatePathValidation::NotFound(reason)) => {
                            failures.push(ValidationFailure { path, origin, reason });
                        },
                    }
                },
                _ => {},
            }
            if self.edges.visited(i) {
                proof {
                    if scenario && steps == 1 {
                        assert(self.edges@.visited.len() == 0);
                        assert(false);
                    }
                }
                continue ;
            }
            let ghost before_visit = self.edges@;
            self.edges.visit(i);
            proof {
                assert(self.edges@.nodes == top.nodes);
                assert(self.edges@.frontier == before_visit.frontier);
                assert(self.edges@.wf()) by {
                    assert(forall|k: int|
                        0 <= k < self.edges@.frontier.len() ==> #[trigger] self.edges@.frontier[k]
                            == before_visit.frontier[k]);
                }
                assert forall|j: int| 0 <= j < self.edges@.nodes.len() implies
                    #[trigger] self.edges@.node_ok(j) by {
                    assert(top.node_ok(j));
                }
                assert(self.edges@.ok());
                assert(self.edges@.target() == target@);
            }
            match edge {
                Edge::Certificate { certificate, origin: edge_origin } => {
                    proof {
                        assert(self.edges@.nodes[i as int].edge == (EdgeView::Certificate {
                            certificate: certificate@,
                            origin: edge_origin@,
                        }));
                        assert(self.edges@.chain(i as int).last() == certificate@);
                        assert(self.edges@.node_ok(i as int));
                    }
                    let children = self.next_certificate(&certificate);
                    proof {
                        lemma_certificate_expansion_admissible(
                            self.store@,
                            self.aia is Enabled,
                            certificate@,
                            self.edges@.chain(i as int),
                        );
                        assert forall|k: int| 0 <= k < children@.len() implies admissible_child(
                            self.edges@.chain(i as int),
                            (#[trigger] children@[k])@,
                        ) by {
                            assert(children.deep_view()[k] == children@[k].deep_view());
                        }
                    }
                    let ghost before_extend = self.edges@;
                    let ghost ch0 = self.edges@.chain(i as int);
                    self.edges.extend(i, children);
                    proof {
                        if scenario {
                            // this is the seed's expansion: the first step
                            assert(before_extend.nodes == top.nodes);
                            if steps == 2 {
                                assert(top.nodes == seq![n0, n1]);
                                assert(i == 1);
                                assert(top.nodes[1].edge == EdgeView::End);
                                assert(false);
                            }
                            assert(steps == 1);
                            assert(top.nodes == seq![n0]);
                            assert(i == 0);
                            assert(certificate@ == target@);
                            assert(issuers_of(self.store@, certificate@).len() == 0);
                            assert(store_candidate_edges(
                                issuers_of(self.store@, certificate@),
                            ).len() == 0);
                            assert(children.deep_view() == seq![EdgeView::End]);
                            assert(ch0 =~= seq![target@]);
                            assert(seq![EdgeView::End].drop_last()
                                =~= Seq::<EdgeView>::empty());
                            assert(crate::edge::filter_kept(ch0, Seq::<EdgeView>::empty())
                                =~= Seq::<EdgeView>::empty());
                            assert(crate::edge::filter_kept(ch0, seq![EdgeView::End])
                                =~= seq![EdgeView::End]);
                            assert(self.edges@.nodes.len() == 2);
                            assert(self.edges@.nodes[1].parent == Some(0int));
                            assert(self.edges@.nodes[1].edge == EdgeView::End);
                            assert(self.edges@.nodes[0] == n0);
                            assert(self.edges@.nodes =~= seq![n0, n1]);
                            assert(before_extend.frontier =~= Seq::<int>::empty());
                            assert(self.edges@.frontier =~= seq![1int]);
                        }
                    }
                },
                Edge::Url { url, holder } => {
                    proof {
                        assert(self.edges@.nodes[i as int].edge == (EdgeView::Url {
                            url: url@,
                            holder: holder@,
                        }));
                        assert(self.edges@.node_ok(i as int));
                        assert(self.edges@.chain(i as int).last() == holder@);
                    }
                    let fetched: Vec<Certificate> = match &self.aia {
                        AIA::Enabled(fetcher) => fetcher.fetch(&url),
                        AIA::Disabled => Vec::new(),
                    };
                    let ghost fviews = fetched.deep_view();
                    let ghost store_pre = self.store@;
                    let children = url_candidates(&mut self.store, fetched, &url, &holder);
                    proof {
                        lemma_url_expansion_admissible(
                            fviews,
                            holder@,
                            url@,
                            self.edges@.chain(i as int),
                        );
                        assert forall|k: int| 0 <= k < children@.len() implies admissible_child(
                            self.edges@.chain(i as int),
                            (#[trigger] children@[k])@,
                        ) by {
                            assert(children.deep_view()[k] == children@[k].deep_view());
                        }
                        // with AIA disabled nothing was fetched, so the
                        // store is unchanged
                        if old(self).aia is Disabled {
                            assert(fviews =~= Seq::<CertificateView>::empty());
                            assert(self.store@ == store_pre);
                        }
                    }
                    self.edges.extend(i, children);
                },
                Edge::End => {},
            }
        }
        let duration = elapsed_millis(&start);
        Ok(Report { found: None, duration, failures })
    }
}

} // verus!
