use x509_path_finder::certificate::Certificate;
use x509_path_finder::report::PathIter;
use x509_path_finder::validator::{
    AnchorValidator, CertificatePathValidation, PathValidator,
};

fn cert(subject: &str, issuer: &str) -> Certificate {
    let mut der: Vec<u8> = Vec::new();
    der.extend_from_slice(subject.as_bytes());
    der.push(0);
    der.extend_from_slice(issuer.as_bytes());
    Certificate::new(subject.to_string(), issuer.to_string(), vec![], der)
}

#[test]
fn test_validator() {
    let root = cert("CN=root", "CN=root");
    let intermediate = cert("CN=intermediate", "CN=root");
    let leaf = cert("CN=leaf", "CN=intermediate");
    let validator = AnchorValidator::new(vec![root]);

    let verdict = validator
        .validate(&vec![leaf.clone(), intermediate.clone()])
        .unwrap();
    assert_eq!(CertificatePathValidation::Found, verdict);

    let verdict = validator.validate(&vec![leaf.clone()]).unwrap();
    assert_eq!(
        CertificatePathValidation::NotFound(
            "path does not reach a trust anchor".to_string()
        ),
        verdict
    );

    let verdict = validator.validate(&vec![]).unwrap();
    assert_eq!(
        CertificatePathValidation::NotFound("path is empty".to_string()),
        verdict
    );
}

#[test]
fn test_path_iter() {
    let a = cert("CN=a", "CN=b");
    let b = cert("CN=b", "CN=c");
    let mut iter = PathIter::new(vec![a.clone(), b.clone()]);
    assert_eq!(Some(a), iter.next());
    assert_eq!(Some(b), iter.next());
    assert_eq!(None, iter.next());
    assert_eq!(None, iter.next());
}
