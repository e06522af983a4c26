use x509_path_finder::certificate::Certificate;
use x509_path_finder::find::{limit_exceeded, Step, X509PathFinder};
use x509_path_finder::report::CertificateOrigin;
use x509_path_finder::store::CertificateStore;

fn cert(name: &str, issuer: &str, subject: &str, aia: &[&str]) -> Certificate {
    let der: Vec<u8> = format!("der:{}", name).into_bytes();
    let signature: Vec<u8> = format!("sig:{}", name).into_bytes();
    Certificate::new(
        der,
        &signature,
        issuer.to_string(),
        subject.to_string(),
        aia.iter().map(|u| u.to_string()).collect(),
    )
}

enum Outcome {
    Found(Vec<String>, Vec<CertificateOrigin>, usize),
    NotFound(usize),
    Limit,
}

/// Runs a search to its end with a validator that accepts a path whose last
/// certificate was issued by `anchor`, answering every fetch from `fetch`.
fn run(
    finder: &mut X509PathFinder,
    target: Certificate,
    anchor: &str,
    fetch: &dyn Fn(&str) -> Vec<Certificate>,
) -> Outcome {
    finder.start(target);
    let mut failures: usize = 0;
    for _ in 0..10_000 {
        match finder.step(0) {
            Step::Continue => {}
            Step::LimitExceeded => return Outcome::Limit,
            Step::Exhausted => return Outcome::NotFound(failures),
            Step::Fetch { url } => finder.fetched(fetch(&url)),
            Step::Validate { path, origin } => {
                let names: Vec<String> = path
                    .iter()
                    .map(|h| finder.certificate(*h).subject().clone())
                    .collect();
                let accepted = match path.last() {
                    Some(h) => finder.certificate(*h).issuer() == anchor,
                    None => false,
                };
                if accepted {
                    return Outcome::Found(names, origin, failures);
                }
                failures += 1;
            }
        }
    }
    panic!("search did not end");
}

fn no_fetch(_: &str) -> Vec<Certificate> {
    vec![]
}

#[test]
fn shortest_path_first() {
    let store = vec![
        cert("y", "N", "M", &[]),
        cert("z", "O", "N", &[]),
        cert("w", "R", "O", &[]),
        cert("x", "R", "M", &[]),
    ];
    let mut finder = X509PathFinder::new(store, false, 0);
    match run(&mut finder, cert("t", "M", "T", &[]), "R", &no_fetch) {
        Outcome::Found(names, origin, failures) => {
            assert_eq!(names, vec!["T".to_string(), "M".to_string()]);
            assert_eq!(finder.certificate(0).subject(), "M");
            assert_eq!(origin, vec![CertificateOrigin::Find, CertificateOrigin::Store]);
            assert_eq!(failures, 0);
        }
        _ => panic!("expected a path"),
    }
}

#[test]
fn mutual_cross_signing_terminates() {
    let store = vec![cert("a", "B", "A", &[]), cert("b", "A", "B", &[])];
    let mut finder = X509PathFinder::new(store, false, 0);
    match run(&mut finder, cert("l", "A", "L", &[]), "R", &no_fetch) {
        Outcome::NotFound(_) => {}
        _ => panic!("expected no path"),
    }
}

#[test]
fn cross_signing_with_rejections_terminates() {
    let store = vec![
        cert("a", "B", "A", &[]),
        cert("b", "A", "B", &[]),
        cert("c", "Q", "B", &[]),
    ];
    let mut finder = X509PathFinder::new(store, false, 0);
    match run(&mut finder, cert("l", "A", "L", &[]), "R", &no_fetch) {
        Outcome::NotFound(failures) => assert_eq!(failures, 1),
        _ => panic!("expected no path"),
    }
}

#[test]
fn self_signed_issuer_is_not_a_node() {
    let store = vec![cert("r", "R", "R", &[])];
    let mut finder = X509PathFinder::new(store, false, 0);
    finder.start(cert("l", "R", "L", &[]));
    assert!(matches!(finder.step(0), Step::Continue));
    match finder.step(0) {
        Step::Validate { path, origin } => {
            assert_eq!(path.len(), 1);
            assert_eq!(finder.certificate(path[0]).subject(), "L");
            assert_eq!(origin, vec![CertificateOrigin::Find]);
        }
        _ => panic!("expected the path to be offered"),
    }
    assert!(matches!(finder.step(0), Step::Exhausted));
}

#[test]
fn insert_twice_same_identity() {
    let mut store = CertificateStore::new();
    let first = store.insert(cert("x", "R", "X", &[]));
    let len = store.len();
    let second = store.insert(cert("x", "R", "X", &[]));
    assert_eq!(first, second);
    assert_eq!(store.len(), len);
    assert_eq!(store.len(), 1);
    let other = store.insert(cert("y", "R", "X", &[]));
    assert_eq!(other, 1);
    assert_eq!(store.get(other).ord(), 1);
}

#[test]
fn configured_duplicates_are_merged() {
    let store = CertificateStore::from_certificates(vec![
        cert("x", "R", "X", &[]),
        cert("x", "R", "X", &[]),
        cert("y", "R", "Y", &[]),
    ]);
    assert_eq!(store.len(), 2);
    assert_eq!(store.get(1).subject(), "Y");
}

#[test]
fn budget_exceeded() {
    let mut finder = X509PathFinder::new(vec![], false, 5);
    finder.start(cert("l", "R", "L", &[]));
    assert!(matches!(finder.step(6), Step::LimitExceeded));
    assert!(limit_exceeded(5, 6));
    assert!(!limit_exceeded(5, 5));
    assert!(!limit_exceeded(0, u128::MAX));
}

#[test]
fn bridge_certificate_scenario() {
    let mut finder = X509PathFinder::new(vec![cert("x", "R", "X", &[])], false, 0);
    match run(&mut finder, cert("l", "X", "L", &[]), "R", &no_fetch) {
        Outcome::Found(names, origin, _) => {
            assert_eq!(names, vec!["L".to_string(), "X".to_string()]);
            assert_eq!(origin, vec![CertificateOrigin::Find, CertificateOrigin::Store]);
        }
        _ => panic!("expected a path"),
    }
}

#[test]
fn leaf_issued_by_anchor_scenario() {
    let mut finder = X509PathFinder::new(vec![], false, 0);
    match run(&mut finder, cert("l2", "R", "L2", &[]), "R", &no_fetch) {
        Outcome::Found(names, origin, _) => {
            assert_eq!(names, vec!["L2".to_string()]);
            assert_eq!(origin, vec![CertificateOrigin::Find]);
        }
        _ => panic!("expected a path"),
    }
}

#[test]
fn fetched_issuer_is_followed() {
    let url = "http://ca.example/issuer.cer";
    let fetch = |u: &str| {
        assert_eq!(u, url);
        vec![
            cert("u", "Q", "Unrelated", &[]),
            cert("s", "S", "S", &[]),
            cert("i", "R", "I", &[]),
        ]
    };
    let mut finder = X509PathFinder::new(vec![], true, 0);
    match run(&mut finder, cert("l", "I", "L", &[url]), "R", &fetch) {
        Outcome::Found(names, origin, _) => {
            assert_eq!(names, vec!["L".to_string(), "I".to_string()]);
            assert_eq!(
                origin,
                vec![CertificateOrigin::Find, CertificateOrigin::Url(url.to_string())]
            );
        }
        _ => panic!("expected a path"),
    }
    assert_eq!(finder.store().len(), 4);
}

#[test]
fn failed_fetch_offers_path_so_far() {
    let mut finder = X509PathFinder::new(vec![], true, 0);
    finder.start(cert("l", "I", "L", &["http://ca.example/a.cer"]));
    assert!(matches!(finder.step(0), Step::Continue));
    match finder.step(0) {
        Step::Fetch { url } => assert_eq!(url, "http://ca.example/a.cer"),
        _ => panic!("expected a fetch"),
    }
    finder.fetched(vec![]);
    match finder.step(0) {
        Step::Validate { path, .. } => assert_eq!(path.len(), 1),
        _ => panic!("expected the path to be offered"),
    }
}

#[test]
fn store_match_also_queues_urls() {
    let mut finder = X509PathFinder::new(vec![cert("x", "Q", "X", &[])], true, 0);
    finder.start(cert("l", "X", "L", &["http://ca.example/x.cer"]));
    assert!(matches!(finder.step(0), Step::Continue));
    assert!(matches!(finder.step(0), Step::Continue));
    match finder.step(0) {
        Step::Fetch { url } => assert_eq!(url, "http://ca.example/x.cer"),
        _ => panic!("expected a fetch after the store candidate"),
    }
}

#[test]
fn aia_disabled_ignores_urls() {
    let mut finder = X509PathFinder::new(vec![], false, 0);
    finder.start(cert("l", "I", "L", &["http://ca.example/a.cer"]));
    assert!(matches!(finder.step(0), Step::Continue));
    assert!(matches!(finder.step(0), Step::Validate { .. }));
}

#[test]
fn identity_hash_is_sha256_of_signature() {
    let c = Certificate::new(vec![1, 2], &b"abc".to_vec(), "I".to_string(), "S".to_string(), vec![]);
    let expected: Vec<u8> = vec![
        0xba, 0x78, 0x16, 0xbf, 0x8f, 0x01, 0xcf, 0xea, 0x41, 0x41, 0x40, 0xde, 0x5d, 0xae, 0x22,
        0x23, 0xb0, 0x03, 0x61, 0xa3, 0x96, 0x17, 0x7a, 0x9c, 0xb4, 0x10, 0xff, 0x61, 0xf2, 0x00,
        0x15, 0xad,
    ];
    assert_eq!(c.identity_hash(), &expected);
    assert_eq!(c.inner(), &vec![1u8, 2]);
}

#[test]
fn issued_and_order() {
    let a = cert("a", "R", "A", &[]);
    let mut b = cert("b", "A", "B", &[]);
    assert!(a.issued(&b));
    assert!(!b.issued(&a));
    b.set_ord(3);
    assert_eq!(a.order(&b), std::cmp::Ordering::Less);
    assert_eq!(b.order(&a), std::cmp::Ordering::Greater);
    assert_eq!(a.order(&a.duplicate()), std::cmp::Ordering::Equal);
    b.set_origin(CertificateOrigin::Store);
    assert_eq!(b.origin(), &CertificateOrigin::Store);
}

#[test]
fn registered_target_is_not_a_candidate() {
    let mut store = CertificateStore::new();
    let t = store.register(cert("t", "A", "T", &[]));
    let c = store.insert(cert("c", "T", "C", &[]));
    assert!(store.issuers(c).is_empty());
    let t2 = store.insert(cert("t", "A", "T", &[]));
    assert_eq!(t, t2);
    assert_eq!(store.issuers(c), vec![t]);
}

#[test]
fn issuer_urls_are_parsed() {
    let c = cert(
        "u",
        "I",
        "S",
        &["HTTP://CA.Example/a.cer", "not a url", "http://ca.example/b.p7c"],
    );
    assert_eq!(
        c.aia().to_vec(),
        vec![
            "http://ca.example/a.cer".to_string(),
            "http://ca.example/b.p7c".to_string()
        ]
    );
}
