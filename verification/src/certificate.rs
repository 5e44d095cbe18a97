//! The certificate model: the four queries the path search needs.

use vstd::prelude::*;
use vstd::std_specs::cmp::PartialEqSpec;

verus! {

/// Mathematical model of a certificate: the subject and issuer distinguished
/// names as canonical strings, the `caIssuers` URIs of the AIA extension in
/// extension order, and the canonical DER bytes, which are the certificate's
/// identity.
#[verifier::ext_equal]
pub struct CertificateView {
    pub subject: Seq<char>,
    pub issuer: Seq<char>,
    pub aia: Seq<Seq<char>>,
    pub der: Seq<u8>,
}

impl CertificateView {
    /// TRUE iff `self` could have issued `subject`: a name match only, no
    /// signature verification.
    pub open spec fn issued(self, subject: CertificateView) -> bool {
        self.subject == subject.issuer
    }

    /// A certificate whose subject equals its own issuer.
    pub open spec fn self_signed(self) -> bool {
        self.subject == self.issuer
    }
}

/// An immutable certificate handle: subject and issuer distinguished names as
/// canonical strings, `caIssuers` URIs from the AIA extension, and the DER
/// encoding. Two certificates are the same certificate iff their DER bytes
/// are equal.
#[derive(Debug)]
pub struct Certificate {
    subject: String,
    issuer: String,
    aia: Vec<String>,
    der: Vec<u8>,
}

impl View for Certificate {
    type V = CertificateView;

    closed spec fn view(&self) -> CertificateView {
        CertificateView {
            subject: self.subject@,
            issuer: self.issuer@,
            aia: self.aia.deep_view(),
            der: self.der@,
        }
    }
}

impl DeepView for Certificate {
    type V = CertificateView;

    open spec fn deep_view(&self) -> CertificateView {
        self.view()
    }
}

impl Certificate {
    pub fn new(subject: String, issuer: String, aia: Vec<String>, der: Vec<u8>) -> (r: Certificate)
        ensures
            r@ == (CertificateView {
                subject: subject@,
                issuer: issuer@,
                aia: aia.deep_view(),
                der: der@,
            }),
    {
        Certificate { subject, issuer, aia, der }
    }

    /// TRUE iff `self` could have issued `subject`: name match only.
    pub fn issued(&self, subject: &Certificate) -> (r: bool)
        ensures
            r == self@.issued(subject@),
    {
        self.subject == subject.issuer
    }

    /// TRUE iff the subject name equals the issuer name.
    pub fn self_signed(&self) -> (r: bool)
        ensures
            r == self@.self_signed(),
    {
        self.subject == self.issuer
    }

    pub fn subject(&self) -> (r: &String)
        ensures
            r@ == self@.subject,
    {
        &self.subject
    }

    pub fn issuer(&self) -> (r: &String)
        ensures
            r@ == self@.issuer,
    {
        &self.issuer
    }

    pub fn aia(&self) -> (r: &Vec<String>)
        ensures
            r.deep_view() == self@.aia,
    {
        &self.aia
    }

    pub fn der(&self) -> (r: &Vec<u8>)
        ensures
            r@ == self@.der,
    {
        &self.der
    }

    /// TRUE iff the two handles hold the same certificate: DER equality.
    pub fn same_certificate(&self, other: &Certificate) -> (r: bool)
        ensures
            r == (self@.der == other@.der),
    {
        let r = self.der == other.der;
        proof {
            if self.der@ =~= other.der@ {
                assert(self.der.eq_spec(&other.der));
            }
        }
        r
    }
}

impl Clone for Certificate {
    fn clone(&self) -> (r: Self)
        ensures
            r@ == self@,
    {
        let r = Certificate {
            subject: self.subject.clone(),
            issuer: self.issuer.clone(),
            aia: self.aia.clone(),
            der: self.der.clone(),
        };
        proof {
            assert(r.aia.deep_view() =~= self.aia.deep_view());
            assert(r.der@ =~= self.der@);
            assert(r@ =~= self@);
        }
        r
    }
}

impl PartialEq for Certificate {
    /// Certificate identity is DER equality.
    fn eq(&self, other: &Self) -> (r: bool) {
        self.same_certificate(other)
    }
}

impl vstd::std_specs::cmp::PartialEqSpecImpl for Certificate {
    open spec fn obeys_eq_spec() -> bool {
        true
    }

    open spec fn eq_spec(&self, other: &Certificate) -> bool {
        self@.der == other@.der
    }
}

impl Eq for Certificate {

}

} // verus!
