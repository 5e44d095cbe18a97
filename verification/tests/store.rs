use x509_path_finder::certificate::Certificate;
use x509_path_finder::store::CertificateStore;

fn cert(subject: &str, issuer: &str) -> Certificate {
    let mut der: Vec<u8> = Vec::new();
    der.extend_from_slice(subject.as_bytes());
    der.push(0);
    der.extend_from_slice(issuer.as_bytes());
    Certificate::new(subject.to_string(), issuer.to_string(), vec![], der)
}

/// A chain of `n` certificates: index 0 is the end entity, the last is a
/// self-signed root, and each one is issued by the next.
fn chain(n: usize, authority: &str) -> Vec<Certificate> {
    let mut certificates = Vec::new();
    for i in 0..n {
        let subject = format!("CN={}.{}", i, authority);
        let issuer = if i + 1 < n {
            format!("CN={}.{}", i + 1, authority)
        } else {
            subject.clone()
        };
        certificates.push(cert(&subject, &issuer));
    }
    certificates
}

#[test]
fn test_ord() {
    // re-inserting stored certificates is a no-op: contents and order stay
    let mut certificates = chain(10, "issuers");
    certificates.pop().unwrap();
    let expected = certificates.clone();

    let mut store = CertificateStore::from_certificates(&certificates);
    store.insert(certificates[0].clone());
    store.insert(certificates[0].clone());
    store.insert(certificates[0].clone());
    store.insert(certificates[0].clone());
    store.insert(certificates[1].clone());
    store.insert(certificates[1].clone());
    store.insert(certificates[1].clone());

    assert_eq!(expected, store.certificates().clone());
}

#[test]
fn test_issuer() {
    let mut certificates = chain(3, "issuers");
    certificates.pop().unwrap();

    let store = CertificateStore::from_certificates(&certificates);
    assert_eq!(
        vec![certificates[1].clone()],
        store.issuers(&certificates[0])
    );
    assert!(store.issuers(&certificates[1]).is_empty());
}

#[test]
fn test_issuers() {
    // issuer candidates come back in insertion order: the tie-breaker
    let subject = cert("CN=leaf", "CN=issuer");
    let first = cert("CN=issuer", "CN=root1");
    let second = cert("CN=issuer", "CN=root2");
    let third = cert("CN=issuer", "CN=root3");
    let other = cert("CN=unrelated", "CN=root1");

    let store = CertificateStore::from_certificates(&vec![
        first.clone(),
        other.clone(),
        second.clone(),
        third.clone(),
    ]);
    assert_eq!(
        vec![first.clone(), second.clone(), third.clone()],
        store.issuers(&subject)
    );
    assert_eq!(0, store.issuers(&other).len());

    let store = CertificateStore::from_certificates(&vec![
        third.clone(),
        second.clone(),
        first.clone(),
    ]);
    assert_eq!(vec![third, second, first], store.issuers(&subject));
}

#[test]
fn test_insert_idempotent() {
    let a = cert("CN=a", "CN=b");
    let mut store = CertificateStore::new();
    // the first insertion is novel, the second is not; both hand the
    // certificate back
    match store.insert(a.clone()) {
        Some((c, novel)) => {
            assert_eq!(a, c);
            assert!(novel);
        }
        None => panic!("insertion rejected"),
    }
    assert_eq!(1, store.len());
    match store.insert(a.clone()) {
        Some((c, novel)) => {
            assert_eq!(a, c);
            assert!(!novel);
        }
        None => panic!("insertion rejected"),
    }
    assert_eq!(1, store.len());
    assert_eq!(vec![a], store.certificates().clone());
}

#[test]
fn test_insert_self_signed_rejected() {
    let root = cert("CN=root", "CN=root");
    let mut store = CertificateStore::new();
    assert!(store.insert(root.clone()).is_none());
    assert_eq!(0, store.len());

    // seeding filters self-signed entries too
    let a = cert("CN=a", "CN=b");
    let store = CertificateStore::from_certificates(&vec![root, a.clone()]);
    assert_eq!(1, store.len());
    assert_eq!(vec![a], store.certificates().clone());
}

#[test]
fn test_seed_duplicates_dropped() {
    let a = cert("CN=a", "CN=b");
    let b = cert("CN=b", "CN=c");
    let store = CertificateStore::from_certificates(&vec![
        a.clone(),
        b.clone(),
        a.clone(),
    ]);
    assert_eq!(2, store.len());
    assert_eq!(vec![a, b], store.certificates().clone());
}
