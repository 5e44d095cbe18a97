//! The path validator capability: the external judge of candidate chains.

use vstd::prelude::*;
use crate::certificate::{Certificate, CertificateView};

verus! {

/// The verdict a validator gives to a chain, at the specification level.
pub enum PathVerdict {
    /// The chain is a valid trust path.
    Found,
    /// The chain was rejected, with a reason.
    NotFound(Seq<char>),
}

/// Result of validating one candidate chain.
#[derive(Debug, PartialEq, Eq)]
pub enum CertificatePathValidation {
    /// Valid path found.
    Found,
    /// Valid path not found; the reason is human-readable.
    NotFound(String),
}

impl View for CertificatePathValidation {
    type V = PathVerdict;

    open spec fn view(&self) -> PathVerdict {
        match self {
            CertificatePathValidation::Found => PathVerdict::Found,
            CertificatePathValidation::NotFound(reason) => PathVerdict::NotFound(reason@),
        }
    }
}

/// Error trait for validator implementations. An error is a failure of the
/// validator itself, distinct from a `NotFound` verdict.
pub trait PathValidatorError {
    /// A human-readable description of the error.
    fn message(&self) -> String;
}

/// Certificate path validation. Implement to customize behavior; the chain
/// handed over is ordered leaf first (the target at index 0).
///
/// `spec_validate` is the implementation's own statement of its verdict, and
/// `validate` must return exactly that verdict whenever it succeeds; the
/// finder's contract speaks of the accepted or rejected chains through it.
pub trait PathValidator {
    /// Error type.
    type PathValidatorError: PathValidatorError;

    /// The verdict this validator gives to a chain, leaf first. Beware of
    /// the default: it pins every successful verdict to `NotFound` with an
    /// empty reason. An unverified implementation keeps the default and does
    /// not meet it, so for such an implementation nothing that the finder's
    /// contract says through `spec_validate` can be relied on; only a
    /// verified implementation, which proves `validate` against its own
    /// `spec_validate`, carries those guarantees.
    open spec fn spec_validate(&self, chain: Seq<CertificateView>) -> PathVerdict {
        PathVerdict::NotFound(Seq::empty())
    }

    /// Whether `validate` can never fail with an error.
    open spec fn spec_infallible(&self) -> bool {
        false
    }

    /// Whether `validate` may fail with an error on `chain`. The default
    /// allows an error on every chain; a verified implementation narrows it
    /// to the chains on which its `validate` can actually fail.
    open spec fn spec_may_error(&self, chain: Seq<CertificateView>) -> bool {
        true
    }

    /// Validate `chain`, leaf first, returning the verdict.
    fn validate(&self, chain: &Vec<Certificate>) -> (r: Result<
        CertificatePathValidation,
        Self::PathValidatorError,
    >)
        ensures
            r matches Ok(v) ==> v@ == self.spec_validate(chain.deep_view()),
            self.spec_infallible() ==> r is Ok,
            r is Err ==> self.spec_may_error(chain.deep_view()),
    ;
}

/// TRUE iff the last certificate of `chain` was (by name match) issued by
/// one of `anchors`.
pub open spec fn anchor_accepts(anchors: Seq<CertificateView>, chain: Seq<CertificateView>) -> bool {
    exists|i: int| 0 <= i < anchors.len() && (#[trigger] anchors[i]).issued(chain.last())
}

/// The error type of [`AnchorValidator`], which never fails.
#[derive(Debug)]
pub struct AnchorValidatorError;

impl PathValidatorError for AnchorValidatorError {
    fn message(&self) -> String {
        String::new()
    }
}

/// A validator that accepts a chain exactly when the last certificate's
/// issuer name matches the subject name of one of its trust anchors. Name
/// matching only: signatures are the business of cryptographic validators.
pub struct AnchorValidator {
    anchors: Vec<Certificate>,
}

impl View for AnchorValidator {
    type V = Seq<CertificateView>;

    closed spec fn view(&self) -> Seq<CertificateView> {
        self.anchors.deep_view()
    }
}

impl AnchorValidator {
    /// A validator trusting exactly `anchors`.
    pub fn new(anchors: Vec<Certificate>) -> (r: AnchorValidator)
        ensures
            r@ == anchors.deep_view(),
    {
        AnchorValidator { anchors }
    }
}

impl PathValidator for AnchorValidator {
    type PathValidatorError = AnchorValidatorError;

    open spec fn spec_validate(&self, chain: Seq<CertificateView>) -> PathVerdict {
        if chain.len() == 0 {
            PathVerdict::NotFound("path is empty"@)
        } else if anchor_accepts(self@, chain) {
            PathVerdict::Found
        } else {
            PathVerdict::NotFound("path does not reach a trust anchor"@)
        }
    }

    open spec fn spec_infallible(&self) -> bool {
        true
    }

    open spec fn spec_may_error(&self, chain: Seq<CertificateView>) -> bool {
        false
    }

    fn validate(&self, chain: &Vec<Certificate>) -> (r: Result<
        CertificatePathValidation,
        AnchorValidatorError,
    >) {
        if chain.len() == 0 {
            return Ok(CertificatePathValidation::NotFound("path is empty".to_owned()));
        }
        let last = &chain[chain.len() - 1];
        proof {
            assert(chain.deep_view()[chain@.len() - 1] == chain@[chain@.len() - 1].deep_view());
            assert(chain.deep_view().last() == last@);
        }
        let n = self.anchors.len();
        for i in 0..n
            invariant
                n == self.anchors.len(),
                chain@.len() > 0,
                last@ == chain.deep_view().last(),
                forall|k: int| 0 <= k < i ==> !(#[trigger] self@[k]).issued(last@),
        {
            proof {
                assert(self.anchors.deep_view()[i as int] == self.anchors@[i as int].deep_view());
            }
            if self.anchors[i].issued(last) {
                proof {
                    assert(anchor_accepts(self@, chain.deep_view()));
                }
                return Ok(CertificatePathValidation::Found);
            }
        }
        proof {
            assert(!anchor_accepts(self@, chain.deep_view()));
        }
        Ok(CertificatePathValidation::NotFound("path does not reach a trust anchor".to_owned()))
    }
}

} // verus!
