//! The search report: the accepted path, the origin of each certificate in
//! it, and every chain the validator rejected along the way.

use vstd::prelude::*;
use crate::certificate::{Certificate, CertificateView};

verus! {

/// How a certificate entered a chain.
pub enum CertificateOriginView {
    /// The certificate the search was asked about.
    Target,
    /// Found in the certificate store.
    Store,
    /// Downloaded from this AIA URI.
    Url(Seq<char>),
}

/// How a certificate entered a chain.
#[derive(Debug, PartialEq, Eq)]
pub enum CertificateOrigin {
    /// The certificate the search was asked about.
    Target,
    /// Found in the certificate store.
    Store,
    /// Downloaded from this AIA URI.
    Url(String),
}

impl View for CertificateOrigin {
    type V = CertificateOriginView;

    open spec fn view(&self) -> CertificateOriginView {
        match self {
            CertificateOrigin::Target => CertificateOriginView::Target,
            CertificateOrigin::Store => CertificateOriginView::Store,
            CertificateOrigin::Url(url) => CertificateOriginView::Url(url@),
        }
    }
}

impl DeepView for CertificateOrigin {
    type V = CertificateOriginView;

    open spec fn deep_view(&self) -> CertificateOriginView {
        self.view()
    }
}

impl Clone for CertificateOrigin {
    fn clone(&self) -> (r: Self)
        ensures
            r@ == self@,
    {
        match self {
            CertificateOrigin::Target => CertificateOrigin::Target,
            CertificateOrigin::Store => CertificateOrigin::Store,
            CertificateOrigin::Url(url) => CertificateOrigin::Url(url.clone()),
        }
    }
}

/// Path search success: the accepted path, leaf first, and the parallel
/// trace of origins.
#[derive(Debug, PartialEq, Eq)]
pub struct Found {
    /// The discovered certificate path; index 0 is the target.
    pub path: Vec<Certificate>,
    /// Where each certificate of `path` came from; index 0 is `Target`.
    pub origin: Vec<CertificateOrigin>,
}

/// One chain the validator rejected.
#[derive(Debug, PartialEq, Eq)]
pub struct ValidationFailure {
    /// The rejected path, leaf first.
    pub path: Vec<Certificate>,
    /// Where each certificate of `path` came from.
    pub origin: Vec<CertificateOrigin>,
    /// The validator's reason.
    pub reason: String,
}

/// Path search report.
#[derive(Debug)]
pub struct Report {
    /// The accepted path, if any chain was accepted.
    pub found: Option<Found>,
    /// Wall-clock duration of the search, in milliseconds.
    pub duration: u64,
    /// The chains the validator rejected, in rejection order.
    pub failures: Vec<ValidationFailure>,
}

/// Walks a certificate path from the leaf up.
pub struct PathIter {
    /// The path being walked.
    pub path: Vec<Certificate>,
    /// The next position to hand out.
    pub pos: usize,
}

impl PathIter {
    /// Start walking `path` at the leaf.
    pub fn new(path: Vec<Certificate>) -> (r: PathIter)
        ensures
            r.path == path,
            r.pos == 0,
    {
        PathIter { path, pos: 0 }
    }

    /// The next certificate of the path, or `None` past the end.
    pub fn next(&mut self) -> (r: Option<Certificate>)
        ensures
            final(self).path == old(self).path,
            old(self).pos < old(self).path.len() ==> {
                &&& r matches Some(c) && c@ == old(self).path.deep_view()[old(self).pos as int]
                &&& final(self).pos == old(self).pos + 1
            },
            old(self).pos >= old(self).path.len() ==> r is None && final(self).pos == old(self).pos,
    {
        if self.pos < self.path.len() {
            let c = self.path[self.pos].clone();
            proof {
                assert(self.path.deep_view()[self.pos as int] == self.path@[self.pos as int].deep_view());
            }
            self.pos = self.pos + 1;
            Some(c)
        } else {
            None
        }
    }
}

/// A chain in which every certificate is issued by the one after it: for
/// every index past the leaf, the subject there matches the issuer before
/// it.
pub open spec fn chain_linked(chain: Seq<CertificateView>) -> bool {
    forall|i: int| 1 <= i < chain.len() ==> (#[trigger] chain[i]).issued(chain[i - 1])
}

/// A chain in which no certificate (by DER identity) appears twice.
pub open spec fn chain_distinct(chain: Seq<CertificateView>) -> bool {
    forall|i: int, j: int| 0 <= i < j < chain.len() ==> chain[i].der != chain[j].der
}

} // verus!
