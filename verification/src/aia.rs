//! The AIA fetcher capability: the external transport that turns an AIA URI
//! into certificates.

use vstd::prelude::*;
use crate::certificate::Certificate;

verus! {

/// Fetches the certificates published at an AIA URI.
///
/// No behavior is promised of an implementation: the finder checks every
/// returned certificate itself and is verified for every possible result.
/// Transport or parse failures must be reported as an empty list.
pub trait AiaFetcher {
    /// The certificates published at `url`; empty on any failure.
    fn fetch(&self, url: &String) -> Vec<Certificate>;
}

/// The fetcher of a search that never follows AIA URIs: it returns nothing.
pub struct NoAIA;

impl AiaFetcher for NoAIA {
    fn fetch(&self, _url: &String) -> Vec<Certificate> {
        Vec::new()
    }
}

/// Whether a search follows AIA URIs, and with which fetcher.
pub enum AIA<F> {
    /// Never fetch: unknown issuers end the chain.
    Disabled,
    /// Fetch through this fetcher.
    Enabled(F),
}

} // verus!
