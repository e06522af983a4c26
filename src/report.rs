//! Provenance tags and the result records of a search.
use vstd::prelude::*;

use crate::certificate::Certificate;

verus! {

/// How a certificate entered the search.
#[derive(Clone, Debug)]
pub enum CertificateOrigin {
    /// Not yet tagged.
    Unknown,
    /// The certificate whose path is searched.
    Find,
    /// A certificate of the store (configured bridge or cross-signed certificate).
    Store,
    /// A certificate fetched from the given Authority Information Access URL.
    Url(String),
}

/// Mathematical model of a [`CertificateOrigin`].
pub enum OriginView {
    Unknown,
    Find,
    Store,
    Url(Seq<char>),
}

impl View for CertificateOrigin {
    type V = OriginView;

    open spec fn view(&self) -> OriginView {
        match self {
            CertificateOrigin::Unknown => OriginView::Unknown,
            CertificateOrigin::Find => OriginView::Find,
            CertificateOrigin::Store => OriginView::Store,
            CertificateOrigin::Url(u) => OriginView::Url(u@),
        }
    }
}

impl CertificateOrigin {
    /// A copy with the same model.
    pub fn duplicate(&self) -> (r: CertificateOrigin)
        ensures
            r@ == self@,
    {
        match self {
            CertificateOrigin::Unknown => CertificateOrigin::Unknown,
            CertificateOrigin::Find => CertificateOrigin::Find,
            CertificateOrigin::Store => CertificateOrigin::Store,
            CertificateOrigin::Url(u) => CertificateOrigin::Url(u.clone()),
        }
    }
}

impl PartialEq for CertificateOrigin {
    fn eq(&self, other: &CertificateOrigin) -> (r: bool) {
        match (self, other) {
            (CertificateOrigin::Unknown, CertificateOrigin::Unknown) => true,
            (CertificateOrigin::Find, CertificateOrigin::Find) => true,
            (CertificateOrigin::Store, CertificateOrigin::Store) => true,
            (CertificateOrigin::Url(a), CertificateOrigin::Url(b)) => *a == *b,
            _ => false,
        }
    }
}

impl vstd::std_specs::cmp::PartialEqSpecImpl for CertificateOrigin {
    open spec fn obeys_eq_spec() -> bool {
        true
    }

    open spec fn eq_spec(&self, other: &CertificateOrigin) -> bool {
        self@ == other@
    }
}

/// A path accepted by the validator, leaf first, with the origin of each certificate.
pub struct Found {
    pub path: Vec<Certificate>,
    pub origin: Vec<CertificateOrigin>,
}

/// A path that the validator rejected, with the origin of each of its
/// certificates and the validator's reason.
pub struct ValidationFailure {
    pub origin: Vec<CertificateOrigin>,
    pub reason: String,
}

/// Outcome of one search: the accepted path if any, the time spent, and every
/// rejection met before.
pub struct Report {
    pub found: Option<Found>,
    pub duration: std::time::Duration,
    pub failures: Vec<ValidationFailure>,
}

} // verus!
