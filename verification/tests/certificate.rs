use std::str::FromStr;

use x509_cert::der::asn1::{BitString, Ia5String, OctetString, UtcTime};
use x509_cert::der::oid::ObjectIdentifier;
use x509_cert::der::{Any, Encode};
use x509_cert::ext::pkix::name::GeneralName;
use x509_cert::ext::pkix::{AccessDescription, AuthorityInfoAccessSyntax};
use x509_cert::ext::Extension;
use x509_cert::name::Name;
use x509_cert::serial_number::SerialNumber;
use x509_cert::spki::{AlgorithmIdentifierOwned, SubjectPublicKeyInfoOwned};
use x509_cert::time::{Time, Validity};
use x509_cert::TbsCertificate;

use x509_path_finder::certificate::Certificate;

fn cert(subject: &str, issuer: &str, aia: Vec<&str>) -> Certificate {
    let mut der: Vec<u8> = Vec::new();
    der.extend_from_slice(subject.as_bytes());
    der.push(0);
    der.extend_from_slice(issuer.as_bytes());
    Certificate::new(
        subject.to_string(),
        issuer.to_string(),
        aia.into_iter().map(|u| u.to_string()).collect(),
        der,
    )
}

#[test]
fn test_certificate_issued() {
    let child = cert("CN=leaf", "CN=intermediate", vec![]);
    let parent = cert("CN=intermediate", "CN=root", vec![]);
    assert!(parent.issued(&child));
    assert!(!child.issued(&parent));
    assert!(!child.issued(&child));
}

#[test]
fn test_certificate_aia() {
    let c = cert(
        "CN=leaf",
        "CN=intermediate",
        vec!["test://1.authority", "test://2.authority"],
    );
    assert_eq!(
        &vec![
            "test://1.authority".to_string(),
            "test://2.authority".to_string(),
        ],
        c.aia()
    );
    let plain = cert("CN=leaf", "CN=intermediate", vec![]);
    assert_eq!(0, plain.aia().len());
}

#[test]
fn test_certificate_self_signed() {
    let root = cert("CN=root", "CN=root", vec![]);
    let leaf = cert("CN=leaf", "CN=root", vec![]);
    assert!(root.self_signed());
    assert!(!leaf.self_signed());
}

#[test]
fn test_certificate_identity() {
    // identity is the DER bytes: handles with equal bytes are the same
    // certificate
    let a1 = cert("CN=a", "CN=b", vec![]);
    let a2 = cert("CN=a", "CN=b", vec![]);
    let b = cert("CN=b", "CN=c", vec![]);
    assert_eq!(a1, a2);
    assert_ne!(a1, b);
}

#[test]
fn test_from_der_rejects_garbage() {
    assert!(Certificate::from_der(vec![]).is_none());
    assert!(Certificate::from_der(vec![0xde, 0xad, 0xbe, 0xef]).is_none());
}

/// Build a real (unsigned) X.509 certificate with an AIA extension and
/// check that decoding extracts the canonical names and the `caIssuers`
/// URI in its canonical URL form.
#[test]
fn test_from_der_extracts_names_and_aia() {
    let algorithm = AlgorithmIdentifierOwned {
        oid: ObjectIdentifier::new_unwrap("1.2.840.113549.1.1.11"),
        parameters: None,
    };
    let spki: SubjectPublicKeyInfoOwned = SubjectPublicKeyInfoOwned {
        algorithm: AlgorithmIdentifierOwned {
            oid: ObjectIdentifier::new_unwrap("1.2.840.113549.1.1.1"),
            parameters: Some(Any::null()),
        },
        subject_public_key: BitString::from_bytes(&[0u8, 1, 2, 3]).unwrap(),
    };
    let aia_value = AuthorityInfoAccessSyntax(vec![
        // a caIssuers URI that URL parsing canonicalizes
        AccessDescription {
            access_method: ObjectIdentifier::new_unwrap("1.3.6.1.5.5.7.48.2"),
            access_location: GeneralName::UniformResourceIdentifier(
                Ia5String::new("HTTP://Example.COM/ca.cer").unwrap(),
            ),
        },
        // an OCSP access description, which must be ignored
        AccessDescription {
            access_method: ObjectIdentifier::new_unwrap("1.3.6.1.5.5.7.48.1"),
            access_location: GeneralName::UniformResourceIdentifier(
                Ia5String::new("http://ocsp.example.com").unwrap(),
            ),
        },
        // a non-URI location, which must be ignored
        AccessDescription {
            access_method: ObjectIdentifier::new_unwrap("1.3.6.1.5.5.7.48.2"),
            access_location: GeneralName::DnsName(
                Ia5String::new("ca.example.com").unwrap(),
            ),
        },
    ])
    .to_der()
    .unwrap();
    let tbs = TbsCertificate {
        version: x509_cert::Version::V3,
        serial_number: SerialNumber::new(&[1u8]).unwrap(),
        signature: algorithm.clone(),
        issuer: Name::from_str("CN=Test CA,O=Test").unwrap(),
        validity: Validity {
            not_before: Time::UtcTime(
                UtcTime::from_unix_duration(std::time::Duration::from_secs(0)).unwrap(),
            ),
            not_after: Time::UtcTime(
                UtcTime::from_unix_duration(std::time::Duration::from_secs(1_000_000)).unwrap(),
            ),
        },
        subject: Name::from_str("CN=Test Leaf,O=Test").unwrap(),
        subject_public_key_info: spki,
        issuer_unique_id: None,
        subject_unique_id: None,
        extensions: Some(vec![Extension {
            extn_id: ObjectIdentifier::new_unwrap("1.3.6.1.5.5.7.1.1"),
            critical: false,
            extn_value: OctetString::new(aia_value).unwrap(),
        }]),
    };
    let certificate = x509_cert::Certificate {
        tbs_certificate: tbs,
        signature_algorithm: algorithm,
        signature: BitString::from_bytes(&[0u8]).unwrap(),
    };
    let der = certificate.to_der().unwrap();

    let decoded = Certificate::from_der(der.clone()).unwrap();
    assert_eq!("CN=Test Leaf,O=Test", decoded.subject().as_str());
    assert_eq!("CN=Test CA,O=Test", decoded.issuer().as_str());
    assert_eq!(
        &vec!["http://example.com/ca.cer".to_string()],
        decoded.aia()
    );
    assert_eq!(&der, decoded.der());
    assert!(!decoded.self_signed());

    // and the issuer relation works over the decoded names
    let parent = cert("CN=Test CA,O=Test", "CN=Root", vec![]);
    assert!(parent.issued(&decoded));
}
