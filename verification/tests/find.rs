use x509_path_finder::aia::{AiaFetcher, AIA, NoAIA};
use x509_path_finder::certificate::Certificate;
use x509_path_finder::find::{
    X509PathFinder, X509PathFinderConfiguration, X509PathFinderError,
};
use x509_path_finder::report::CertificateOrigin;
use x509_path_finder::validator::{
    AnchorValidator, CertificatePathValidation, PathValidator, PathValidatorError,
};

fn cert(subject: &str, issuer: &str, aia: Vec<&str>) -> Certificate {
    let mut der: Vec<u8> = Vec::new();
    der.extend_from_slice(subject.as_bytes());
    der.push(0);
    der.extend_from_slice(issuer.as_bytes());
    Certificate::new(
        subject.to_string(),
        issuer.to_string(),
        aia.into_iter().map(|u| u.to_string()).collect(),
        der,
    )
}

/// A chain of `n` certificates: index 0 is the end entity, the last is a
/// self-signed root, and each one is issued by the next.
fn chain(n: usize, authority: &str) -> Vec<Certificate> {
    let mut certificates = Vec::new();
    for i in 0..n {
        let subject = format!("CN={}.{}", i, authority);
        let issuer = if i + 1 < n {
            format!("CN={}.{}", i + 1, authority)
        } else {
            subject.clone()
        };
        certificates.push(cert(&subject, &issuer, vec![]));
    }
    certificates
}

/// Like `chain`, but every certificate except the root carries one AIA URI
/// of the form `test://<i+1>.<authority>`.
fn chain_with_aia(n: usize, authority: &str) -> Vec<Certificate> {
    let mut certificates = Vec::new();
    for i in 0..n {
        let subject = format!("CN={}.{}", i, authority);
        let (issuer, aia) = if i + 1 < n {
            (
                format!("CN={}.{}", i + 1, authority),
                vec![format!("test://{}.{}", i + 1, authority)],
            )
        } else {
            (subject.clone(), vec![])
        };
        certificates.push(Certificate::new(
            subject.clone(),
            issuer,
            aia,
            {
                let mut der: Vec<u8> = Vec::new();
                der.extend_from_slice(subject.as_bytes());
                der.push(1);
                der.extend_from_slice(authority.as_bytes());
                der
            },
        ));
    }
    certificates
}

struct TestAIA {
    entries: Vec<(String, Certificate)>,
    sleep_ms: u64,
}

impl AiaFetcher for TestAIA {
    fn fetch(&self, url: &String) -> Vec<Certificate> {
        if self.sleep_ms > 0 {
            let begin = std::time::Instant::now();
            while begin.elapsed() < std::time::Duration::from_millis(self.sleep_ms) {}
        }
        self.entries
            .iter()
            .filter(|(u, _)| u == url)
            .map(|(_, c)| c.clone())
            .collect()
    }
}

#[test]
fn test_self_signed() {
    let root = chain(1, "0").remove(0);
    let validator = AnchorValidator::new(vec![root.clone()]);
    let mut search = X509PathFinder::new(X509PathFinderConfiguration {
        limit: 0,
        aia: AIA::<NoAIA>::Disabled,
        validator,
        certificates: vec![root.clone()],
    });
    let report = search.find(root.clone()).unwrap();
    let found = report.found.unwrap();
    assert_eq!(0, report.failures.len());
    assert_eq!(vec![root], found.path);
    assert_eq!(vec![CertificateOrigin::Target], found.origin);
}

#[test]
fn test_direct_path_no_aia() {
    let mut certificates = chain(8, "0");
    let root = certificates.pop().unwrap();
    let expected = certificates.clone();
    let ee = certificates.remove(0);

    let validator = AnchorValidator::new(vec![root]);
    let mut search = X509PathFinder::new(X509PathFinderConfiguration {
        limit: 0,
        aia: AIA::<NoAIA>::Disabled,
        validator,
        certificates,
    });
    let report = search.find(ee).unwrap();
    let found = report.found.unwrap();
    assert_eq!(0, report.failures.len());
    assert_eq!(expected, found.path);
    assert_eq!(
        vec![
            CertificateOrigin::Target,
            CertificateOrigin::Store,
            CertificateOrigin::Store,
            CertificateOrigin::Store,
            CertificateOrigin::Store,
            CertificateOrigin::Store,
            CertificateOrigin::Store,
        ],
        found.origin
    );
}

#[test]
fn test_cross_first_no_aia() {
    let mut authority1_certificates = chain(8, "authority1");
    let authority1_root = authority1_certificates.pop().unwrap();
    let authority1_ee = authority1_certificates[0].clone();
    let authority1_ic = authority1_certificates[1].clone();

    let authority2_root = chain(1, "authority2").remove(0);

    // authority2's root signs authority1's intermediate
    let cross = cert(
        authority1_ic.subject().as_str(),
        authority2_root.subject().as_str(),
        vec![],
    );

    let mut cached = vec![cross.clone()];
    cached.extend(authority1_certificates.clone());

    let validator = AnchorValidator::new(vec![authority1_root, authority2_root]);
    let mut search = X509PathFinder::new(X509PathFinderConfiguration {
        limit: 0,
        aia: AIA::<NoAIA>::Disabled,
        validator,
        certificates: cached,
    });
    let report = search.find(authority1_ee.clone()).unwrap();
    let found = report.found.unwrap();
    assert_eq!(0, report.failures.len());
    assert_eq!(vec![authority1_ee, cross], found.path);
    assert_eq!(
        vec![CertificateOrigin::Target, CertificateOrigin::Store],
        found.origin
    );
}

#[test]
fn test_cross_last_no_aia() {
    let mut authority1_certificates = chain(8, "authority1");
    let authority1_root = authority1_certificates.pop().unwrap();
    let authority1_ee = authority1_certificates[0].clone();
    let authority1_ic = authority1_certificates[1].clone();

    let authority2_root = chain(1, "authority2").remove(0);

    let cross = cert(
        authority1_ic.subject().as_str(),
        authority2_root.subject().as_str(),
        vec![],
    );

    let mut cached = authority1_certificates.clone();
    cached.push(cross.clone());

    let validator = AnchorValidator::new(vec![authority1_root, authority2_root]);
    let mut search = X509PathFinder::new(X509PathFinderConfiguration {
        limit: 0,
        aia: AIA::<NoAIA>::Disabled,
        validator,
        certificates: cached,
    });
    let report = search.find(authority1_ee.clone()).unwrap();
    let found = report.found.unwrap();
    assert_eq!(0, report.failures.len());
    assert_eq!(authority1_certificates, found.path);
    assert_eq!(
        vec![
            CertificateOrigin::Target,
            CertificateOrigin::Store,
            CertificateOrigin::Store,
            CertificateOrigin::Store,
            CertificateOrigin::Store,
            CertificateOrigin::Store,
            CertificateOrigin::Store,
        ],
        found.origin
    );
}

#[test]
fn test_cross_first_dead_end_no_aia() {
    let mut authority1_certificates = chain(8, "authority1");
    let authority1_root = authority1_certificates.pop().unwrap();
    let authority1_ee = authority1_certificates[0].clone();
    let authority1_ic = authority1_certificates[1].clone();

    let authority2_root = chain(1, "authority2").remove(0);

    let cross = cert(
        authority1_ic.subject().as_str(),
        authority2_root.subject().as_str(),
        vec![],
    );

    let mut cached = vec![cross.clone()];
    cached.extend(authority1_certificates.clone());

    // only authority1's root is accepted: the cross-signed path dead-ends
    let validator = AnchorValidator::new(vec![authority1_root]);
    let mut search = X509PathFinder::new(X509PathFinderConfiguration {
        limit: 0,
        aia: AIA::<NoAIA>::Disabled,
        validator,
        certificates: cached,
    });
    let report = search.find(authority1_ee.clone()).unwrap();
    let found = report.found.unwrap();
    assert_eq!(1, report.failures.len());
    assert_eq!(
        vec![authority1_ee, cross],
        report.failures[0].path
    );
    assert_eq!(authority1_certificates, found.path);
    assert_eq!(
        vec![
            CertificateOrigin::Target,
            CertificateOrigin::Store,
            CertificateOrigin::Store,
            CertificateOrigin::Store,
            CertificateOrigin::Store,
            CertificateOrigin::Store,
            CertificateOrigin::Store,
        ],
        found.origin
    );
}

#[test]
fn test_direct_path_only_aia() {
    let mut certificates = chain_with_aia(8, "authority");
    let root = certificates.pop().unwrap();
    let expected = certificates.clone();
    let ee = certificates.remove(0);

    let entries: Vec<(String, Certificate)> = certificates
        .iter()
        .enumerate()
        .map(|(n, c)| (format!("test://{}.authority", n + 1), c.clone()))
        .collect();

    let validator = AnchorValidator::new(vec![root]);
    let mut search = X509PathFinder::new(X509PathFinderConfiguration {
        limit: 0,
        aia: AIA::Enabled(TestAIA { entries, sleep_ms: 0 }),
        validator,
        certificates: vec![],
    });
    let report = search.find(ee).unwrap();
    let found = report.found.unwrap();
    assert_eq!(0, report.failures.len());
    assert_eq!(expected, found.path);
    assert_eq!(
        vec![
            CertificateOrigin::Target,
            CertificateOrigin::Url("test://1.authority".to_string()),
            CertificateOrigin::Url("test://2.authority".to_string()),
            CertificateOrigin::Url("test://3.authority".to_string()),
            CertificateOrigin::Url("test://4.authority".to_string()),
            CertificateOrigin::Url("test://5.authority".to_string()),
            CertificateOrigin::Url("test://6.authority".to_string()),
        ],
        found.origin
    );
}

#[test]
fn test_direct_path_partial_aia() {
    let mut certificates = chain_with_aia(8, "authority");
    let root = certificates.pop().unwrap();
    let expected = certificates.clone();
    let ee = certificates.remove(0);

    let entries: Vec<(String, Certificate)> = certificates
        .iter()
        .enumerate()
        .map(|(n, c)| (format!("test://{}.authority", n + 1), c.clone()))
        .collect();

    let validator = AnchorValidator::new(vec![root]);
    let mut search = X509PathFinder::new(X509PathFinderConfiguration {
        limit: 0,
        aia: AIA::Enabled(TestAIA { entries, sleep_ms: 0 }),
        validator,
        certificates: vec![certificates[2].clone(), certificates[4].clone()],
    });
    let report = search.find(ee).unwrap();
    let found = report.found.unwrap();
    assert_eq!(0, report.failures.len());
    assert_eq!(expected, found.path);
    assert_eq!(
        vec![
            CertificateOrigin::Target,
            CertificateOrigin::Url("test://1.authority".to_string()),
            CertificateOrigin::Url("test://2.authority".to_string()),
            CertificateOrigin::Store,
            CertificateOrigin::Url("test://4.authority".to_string()),
            CertificateOrigin::Store,
            CertificateOrigin::Url("test://6.authority".to_string()),
        ],
        found.origin
    );
}

#[test]
fn test_limit() {
    let mut certificates = chain_with_aia(3, "authority");
    let root = certificates.pop().unwrap();
    let ee = certificates.remove(0);
    let ic = certificates.remove(0);

    let entries = vec![("test://1.authority".to_string(), ic.clone())];

    let validator = AnchorValidator::new(vec![root.clone()]);
    let mut search = X509PathFinder::new(X509PathFinderConfiguration {
        limit: 2000,
        aia: AIA::Enabled(TestAIA {
            entries: entries.clone(),
            sleep_ms: 100,
        }),
        validator,
        certificates: vec![ee.clone()],
    });
    let report = search.find(ee.clone()).unwrap();
    let found = report.found.unwrap();
    assert_eq!(0, report.failures.len());
    assert_eq!(vec![ee.clone(), ic.clone()], found.path);
    assert_eq!(
        vec![
            CertificateOrigin::Target,
            CertificateOrigin::Url("test://1.authority".to_string()),
        ],
        found.origin
    );

    let validator = AnchorValidator::new(vec![root]);
    let mut search = X509PathFinder::new(X509PathFinderConfiguration {
        limit: 50,
        aia: AIA::Enabled(TestAIA {
            entries,
            sleep_ms: 200,
        }),
        validator,
        certificates: vec![ee.clone()],
    });
    let result = search.find(ee);
    assert!(result.is_err());
    assert!(matches!(
        result.unwrap_err(),
        X509PathFinderError::BudgetExceeded
    ));
}

#[test]
fn test_seed_order_of_duplicates() {
    // seeds differing only in where a duplicate certificate stands build
    // the same store and find the same path
    let mut certificates = chain(4, "0");
    let root = certificates.pop().unwrap();
    let ee = certificates.remove(0);
    let a = certificates[0].clone();
    let b = certificates[1].clone();

    let validator1 = AnchorValidator::new(vec![root.clone()]);
    let mut search1 = X509PathFinder::new(X509PathFinderConfiguration {
        limit: 0,
        aia: AIA::<NoAIA>::Disabled,
        validator: validator1,
        certificates: vec![a.clone(), b.clone(), a.clone()],
    });

    let validator2 = AnchorValidator::new(vec![root]);
    let mut search2 = X509PathFinder::new(X509PathFinderConfiguration {
        limit: 0,
        aia: AIA::<NoAIA>::Disabled,
        validator: validator2,
        certificates: vec![a.clone(), a.clone(), b.clone()],
    });

    assert_eq!(
        search1.store.certificates(),
        search2.store.certificates()
    );
    assert_eq!(2, search1.store.len());

    let report1 = search1.find(ee.clone()).unwrap();
    let report2 = search2.find(ee).unwrap();
    let found1 = report1.found.unwrap();
    let found2 = report2.found.unwrap();
    assert_eq!(found1.path, found2.path);
    assert_eq!(found1.origin, found2.origin);
}

#[test]
fn test_empty_store_no_aia() {
    // an empty store, AIA disabled, and a non-self-signed target: no path,
    // and exactly one failure, the trivial single-certificate chain
    let target = cert("CN=leaf", "CN=unknown issuer", vec![]);
    let anchor = cert("CN=anchor", "CN=anchor", vec![]);
    let validator = AnchorValidator::new(vec![anchor]);
    let mut search = X509PathFinder::new(X509PathFinderConfiguration {
        limit: 0,
        aia: AIA::<NoAIA>::Disabled,
        validator,
        certificates: vec![],
    });
    let report = search.find(target.clone()).unwrap();
    assert!(report.found.is_none());
    assert_eq!(1, report.failures.len());
    assert_eq!(vec![target], report.failures[0].path);
    assert_eq!(
        vec![CertificateOrigin::Target],
        report.failures[0].origin
    );
}

struct FailingValidatorError;

impl PathValidatorError for FailingValidatorError {
    fn message(&self) -> String {
        "validator broke".to_string()
    }
}

struct FailingValidator;

impl PathValidator for FailingValidator {
    type PathValidatorError = FailingValidatorError;

    fn validate(
        &self,
        _chain: &Vec<Certificate>,
    ) -> Result<CertificatePathValidation, FailingValidatorError> {
        Err(FailingValidatorError)
    }
}

#[test]
fn test_validator_error_propagates() {
    // a failure of the validator itself surfaces immediately, unlike a
    // NotFound verdict
    let target = cert("CN=leaf", "CN=unknown issuer", vec![]);
    let mut search = X509PathFinder::new(X509PathFinderConfiguration {
        limit: 0,
        aia: AIA::<NoAIA>::Disabled,
        validator: FailingValidator,
        certificates: vec![],
    });
    match search.find(target) {
        Err(X509PathFinderError::ValidatorError(message)) => {
            assert_eq!("validator broke", message);
        }
        _ => panic!("expected a validator error"),
    }
}

#[test]
fn test_cycle_guard() {
    // two certificates that issue each other: the cycle guard must keep
    // the search from walking the loop, and the search must terminate
    let a = cert("CN=a", "CN=b", vec![]);
    let b = cert("CN=b", "CN=a", vec![]);
    let anchor = cert("CN=anchor", "CN=anchor", vec![]);
    let validator = AnchorValidator::new(vec![anchor]);
    let mut search = X509PathFinder::new(X509PathFinderConfiguration {
        limit: 0,
        aia: AIA::<NoAIA>::Disabled,
        validator,
        certificates: vec![a.clone(), b.clone()],
    });
    let report = search.find(a.clone()).unwrap();
    // the cycle guard prunes b's only candidate (a is already on the
    // chain), so the search dead-ends without offering a chain
    assert!(report.found.is_none());
    assert_eq!(0, report.failures.len());
}
