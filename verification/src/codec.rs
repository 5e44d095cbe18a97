//! Decoding certificates from DER: the codec crates do the parsing behind
//! trusted declarations, and the selection of the `caIssuers` URIs from the
//! AIA extension is the library's own, verified, logic.

use vstd::prelude::*;
use x509_cert::der::Decode;
use crate::certificate::{Certificate, CertificateView};

verus! {

/// A raw certificate extension: its OID in dotted-decimal form and its DER
/// value bytes.
pub struct RawExtension {
    /// The extension OID, dotted-decimal.
    pub oid: String,
    /// The DER bytes of the extension value.
    pub value: Vec<u8>,
}

impl DeepView for RawExtension {
    type V = (Seq<char>, Seq<u8>);

    open spec fn deep_view(&self) -> (Seq<char>, Seq<u8>) {
        (self.oid@, self.value@)
    }
}

/// What the library reads from a decoded certificate: the subject and
/// issuer distinguished names as canonical strings, and the raw extensions.
pub struct DecodedCertificate {
    /// Canonical subject name.
    pub subject: String,
    /// Canonical issuer name.
    pub issuer: String,
    /// The certificate's extensions, in certificate order.
    pub extensions: Vec<RawExtension>,
}

/// Whether these bytes decode as an X.509 certificate.
pub uninterp spec fn x509_ok(der: Seq<u8>) -> bool;

/// What decoding yields: the canonical subject string, the canonical issuer
/// string, and the extension list as (OID, value bytes) pairs. Decoding is
/// a function of the bytes alone.
pub uninterp spec fn x509_parse_of(der: Seq<u8>) -> (Seq<char>, Seq<char>, Seq<(Seq<char>, Seq<u8>)>);

/// Whether these bytes decode as an AuthorityInfoAccessSyntax value.
pub uninterp spec fn aia_ok(bytes: Seq<u8>) -> bool;

/// What decoding an AIA extension value yields: for each access
/// description, its access-method OID in dotted form, and the URI text
/// where the access location is a URI.
pub uninterp spec fn aia_descriptions_of(bytes: Seq<u8>) -> Seq<(Seq<char>, Option<Seq<char>>)>;

/// Which strings parse as URLs.
pub uninterp spec fn url_ok(s: Seq<char>) -> bool;

/// The canonical serialization of the URL parsed from `s`.
pub uninterp spec fn url_canon_of(s: Seq<char>) -> Seq<char>;

/// Relies on `x509_cert::Certificate::from_der`, on the `Display` of
/// `x509_cert::name::Name` for the canonical DN strings, and on the
/// `Display` of `ObjectIdentifier` for the dotted OID form. What decoding
/// returns depends on the bytes alone.
#[verifier::external_body]
fn decode_certificate(der: &Vec<u8>) -> (r: Option<DecodedCertificate>)
    ensures
        r is Some <==> x509_ok(der@),
        r matches Some(d) ==> {
            &&& d.subject@ == x509_parse_of(der@).0
            &&& d.issuer@ == x509_parse_of(der@).1
            &&& d.extensions.deep_view() == x509_parse_of(der@).2
        },
{
    match x509_cert::Certificate::from_der(der.as_slice()) {
        Ok(c) => Some(DecodedCertificate {
            subject: c.tbs_certificate.subject.to_string(),
            issuer: c.tbs_certificate.issuer.to_string(),
            extensions: c.tbs_certificate.extensions.unwrap_or_default().into_iter().map(
                |e| RawExtension { oid: e.extn_id.to_string(), value: e.extn_value.into_bytes() },
            ).collect(),
        }),
        Err(_) => None,
    }
}

/// Relies on `x509_cert`'s `AuthorityInfoAccessSyntax::from_der`: each
/// access description is mapped to its access-method OID in dotted form
/// and, where the access location is a URI general name, the URI text. What
/// decoding returns depends on the bytes alone.
#[verifier::external_body]
fn decode_access_descriptions(bytes: &Vec<u8>) -> (r: Option<Vec<(String, Option<String>)>>)
    ensures
        r is Some <==> aia_ok(bytes@),
        r matches Some(v) ==> v.deep_view() == aia_descriptions_of(bytes@),
{
    match x509_cert::ext::pkix::AuthorityInfoAccessSyntax::from_der(bytes.as_slice()) {
        Ok(aia) => Some(aia.0.into_iter().map(|ad| (
            ad.access_method.to_string(),
            match ad.access_location {
                x509_cert::ext::pkix::name::GeneralName::UniformResourceIdentifier(u) => Some(
                    String::from(u.as_str()),
                ),
                _ => None,
            },
        )).collect()),
        Err(_) => None,
    }
}

/// Relies on `url::Url::parse`: which strings parse, and the canonical
/// serialization `Url::as_str` returns, depend on the string alone.
#[verifier::external_body]
fn parse_url(s: &str) -> (r: Option<String>)
    ensures
        r is Some <==> url_ok(s@),
        r matches Some(u) ==> u@ == url_canon_of(s@),
{
    match url::Url::parse(s) {
        Ok(u) => Some(String::from(u.as_str())),
        Err(_) => None,
    }
}

/// The OID of the Authority Information Access extension.
pub open spec fn aia_extension_oid() -> Seq<char> {
    "1.3.6.1.5.5.7.1.1"@
}

/// The OID of the `caIssuers` access method.
pub open spec fn ca_issuers_oid() -> Seq<char> {
    "1.3.6.1.5.5.7.48.2"@
}

/// The URIs taken from one AIA extension's access descriptions: those whose
/// method is `caIssuers`, whose location is a URI, and which parse as URLs,
/// in their canonical form, in description order.
pub open spec fn uris_of_descriptions(ads: Seq<(Seq<char>, Option<Seq<char>>)>) -> Seq<Seq<char>>
    decreases ads.len(),
{
    if ads.len() == 0 {
        Seq::empty()
    } else {
        let prefix = uris_of_descriptions(ads.drop_last());
        let last = ads.last();
        if last.0 == ca_issuers_oid() && (last.1 matches Some(uri) && url_ok(uri)) {
            prefix.push(url_canon_of(last.1->0))
        } else {
            prefix
        }
    }
}

/// The `caIssuers` URIs of a certificate, from its extension list: every
/// AIA extension that decodes contributes its URIs, in extension order;
/// non-URI access locations, unparseable URIs and undecodable extension
/// values are silently dropped.
pub open spec fn aia_uris_of(exts: Seq<(Seq<char>, Seq<u8>)>) -> Seq<Seq<char>>
    decreases exts.len(),
{
    if exts.len() == 0 {
        Seq::empty()
    } else {
        let prefix = aia_uris_of(exts.drop_last());
        let last = exts.last();
        if last.0 == aia_extension_oid() && aia_ok(last.1) {
            prefix + uris_of_descriptions(aia_descriptions_of(last.1))
        } else {
            prefix
        }
    }
}

impl Certificate {
    /// Decode a certificate from its DER bytes: the canonical subject and
    /// issuer names, and the `caIssuers` URIs of the AIA extension in
    /// extension order. Returns `None` exactly when the bytes do not decode
    /// as a certificate.
    pub fn from_der(der: Vec<u8>) -> (r: Option<Certificate>)
        ensures
            r is Some <==> x509_ok(der@),
            r matches Some(c) ==> c@ == (CertificateView {
                subject: x509_parse_of(der@).0,
                issuer: x509_parse_of(der@).1,
                aia: aia_uris_of(x509_parse_of(der@).2),
                der: der@,
            }),
    {
        let decoded = match decode_certificate(&der) {
            Some(d) => d,
            None => {
                return None;
            },
        };
        let ghost exts = decoded.extensions.deep_view();
        let oid_aia: String = "1.3.6.1.5.5.7.1.1".to_owned();
        let oid_ca_issuers: String = "1.3.6.1.5.5.7.48.2".to_owned();
        let mut aia: Vec<String> = Vec::new();
        proof {
            assert(exts.take(0) =~= Seq::<(Seq<char>, Seq<u8>)>::empty());
            assert(aia.deep_view() =~= aia_uris_of(exts.take(0)));
        }
        let n = decoded.extensions.len();
        for idx in 0..n
            invariant
                n == decoded.extensions.len(),
                exts == decoded.extensions.deep_view(),
                oid_aia@ == aia_extension_oid(),
                oid_ca_issuers@ == ca_issuers_oid(),
                aia.deep_view() == aia_uris_of(exts.take(idx as int)),
        {
            proof {
                assert(decoded.extensions.deep_view()[idx as int] == decoded.extensions@[
                    idx as int].deep_view());
                assert(exts.take(idx + 1).drop_last() =~= exts.take(idx as int));
                assert(exts.take(idx + 1).last() == exts[idx as int]);
            }
            let ext = &decoded.extensions[idx];
            if ext.oid == oid_aia {
                match decode_access_descriptions(&ext.value) {
                    Some(ads) => {
                        let ghost adviews = ads.deep_view();
                        let ghost before = aia.deep_view();
                        let m = ads.len();
                        proof {
                            assert(adviews.take(0) =~= Seq::<(Seq<char>, Option<Seq<char>>)>::empty());
                            assert(uris_of_descriptions(adviews.take(0)) =~= Seq::<Seq<char>>::empty());
                            assert(aia.deep_view() =~= before + uris_of_descriptions(adviews.take(0)));
                        }
                        for j in 0..m
                            invariant
                                m == ads.len(),
                                adviews == ads.deep_view(),
                                oid_ca_issuers@ == ca_issuers_oid(),
                                aia.deep_view() == before + uris_of_descriptions(
                                    adviews.take(j as int),
                                ),
                        {
                            proof {
                                assert(ads.deep_view()[j as int] == ads@[j as int].deep_view());
                                assert(adviews.take(j + 1).drop_last() =~= adviews.take(j as int));
                                assert(adviews.take(j + 1).last() == adviews[j as int]);
                            }
                            let ad = &ads[j];
                            if ad.0 == oid_ca_issuers {
                                match &ad.1 {
                                    Some(uri) => {
                                        let ghost pre = aia.deep_view();
                                        match parse_url(uri.as_str()) {
                                            Some(u) => {
                                                aia.push(u);
                                                proof {
                                                    assert(aia.deep_view() =~= pre.push(
                                                        url_canon_of(uri@),
                                                    ));
                                                    assert(aia.deep_view() =~= before
                                                        + uris_of_descriptions(
                                                        adviews.take(j + 1),
                                                    ));
                                                }
                                            },
                                            None => {},
                                        }
                                    },
                                    None => {},
                                }
                            }
                        }
                        proof {
                            assert(adviews.take(m as int) =~= adviews);
                            assert(aia.deep_view() =~= aia_uris_of(exts.take(idx + 1)));
                        }
                    },
                    None => {},
                }
            }
        }
        proof {
            assert(exts.take(n as int) =~= exts);
        }
        let c = Certificate::new(decoded.subject, decoded.issuer, aia, der);
        Some(c)
    }
}

} // verus!
