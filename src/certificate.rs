//! The certificate model: names, issuer URLs, identity digest, insertion
//! order and provenance of one X.509 certificate.
use vstd::prelude::*;

use crate::report::{CertificateOrigin, OriginView};
use sha2::Digest;
use std::cmp::Ordering;

verus! {

/// The SHA-256 digest of a byte string.
pub uninterp spec fn sha256_of(bytes: Seq<u8>) -> Seq<u8>;

/// Relies on `sha2::Sha256::digest`: the SHA-256 digest of the bytes, which
/// depends on the bytes alone and is 32 bytes long.
#[verifier::external_body]
fn sha256(bytes: &Vec<u8>) -> (r: Vec<u8>)
    ensures
        r@ == sha256_of(bytes@),
        r@.len() == 32,
{
    sha2::Sha256::digest(bytes.as_slice()).to_vec()
}

/// The serialization of `text` read as an absolute URL, or none when it is not one.
pub uninterp spec fn url_of(text: Seq<char>) -> Option<Seq<char>>;

/// Relies on `url::Url::parse` and `url::Url::as_str`: whether the text is an
/// absolute URL and its serialization, which depend on the text alone.
#[verifier::external_body]
fn parse_url(text: &String) -> (r: Option<String>)
    ensures
        r is Some <==> url_of(text@) is Some,
        r matches Some(u) ==> url_of(text@) == Some(u@),
{
    match url::Url::parse(text.as_str()) {
        Ok(u) => Some(u.as_str().to_string()),
        Err(_) => None,
    }
}

/// The serializations of the entries of `uris` that are absolute URLs, in order.
pub open spec fn parsed_urls(uris: Seq<Seq<char>>) -> Seq<Seq<char>>
    decreases uris.len(),
{
    if uris.len() == 0 {
        Seq::empty()
    } else {
        let rest = parsed_urls(uris.drop_last());
        match url_of(uris.last()) {
            Some(u) => rest.push(u),
            None => rest,
        }
    }
}

/// Keeps the entries of `uris` that are absolute URLs, as serialized URLs.
pub fn parse_urls(uris: &Vec<String>) -> (r: Vec<String>)
    ensures
        texts_view(r@) == parsed_urls(texts_view(uris@)),
{
    let ghost all = texts_view(uris@);
    let mut r: Vec<String> = Vec::new();
    let mut k: usize = 0;
    while k < uris.len()
        invariant
            k <= uris@.len(),
            all == texts_view(uris@),
            texts_view(r@) == parsed_urls(all.take(k as int)),
        decreases uris@.len() - k,
    {
        assert(all.take(k + 1).drop_last() =~= all.take(k as int));
        assert(all.take(k + 1).last() == uris@[k as int]@);
        match parse_url(&uris[k]) {
            Some(u) => {
                let ghost before = r@;
                r.push(u);
                assert(texts_view(r@) =~= texts_view(before).push(r@.last()@));
            },
            None => {},
        }
        k = k + 1;
    }
    assert(all.take(k as int) =~= all);
    r
}

/// One certificate with the facts that the search reads from it.
#[derive(Clone, Debug)]
pub struct Certificate {
    der: Vec<u8>,
    issuer: String,
    subject: String,
    aia: Vec<String>,
    ord: usize,
    hash: Vec<u8>,
    origin: CertificateOrigin,
}

/// Mathematical model of a [`Certificate`].
pub struct CertificateView {
    /// The DER encoding: two certificates are the same certificate when these agree.
    pub der: Seq<u8>,
    pub issuer: Seq<char>,
    pub subject: Seq<char>,
    /// CA Issuers URLs of the Authority Information Access extension, in order.
    pub aia: Seq<Seq<char>>,
    pub ord: nat,
    /// Identity digest: SHA-256 of the signature bytes.
    pub hash: Seq<u8>,
    pub origin: OriginView,
}

/// The model of a sequence of strings.
pub open spec fn texts_view(v: Seq<String>) -> Seq<Seq<char>> {
    v.map_values(|s: String| s@)
}

/// `a` could have issued `b`: the subject of `a` is the issuer of `b`.
pub open spec fn issued_spec(a: CertificateView, b: CertificateView) -> bool {
    a.subject == b.issuer
}

/// A self-issued certificate (a candidate trust anchor).
pub open spec fn self_issued(c: CertificateView) -> bool {
    issued_spec(c, c)
}

/// The total order of certificates: the same certificate orders equal,
/// otherwise the order of insertion decides.
pub open spec fn order_spec(a: CertificateView, b: CertificateView) -> Ordering {
    if a.der == b.der {
        Ordering::Equal
    } else if a.ord > b.ord {
        Ordering::Greater
    } else {
        Ordering::Less
    }
}

/// Tests two byte strings for equality.
pub fn same_bytes(a: &Vec<u8>, b: &Vec<u8>) -> (r: bool)
    ensures
        r == (a@ == b@),
{
    if a.len() != b.len() {
        return false;
    }
    let mut i: usize = 0;
    while i < a.len()
        invariant
            a@.len() == b@.len(),
            i <= a@.len(),
            forall|k: int| 0 <= k < i ==> a@[k] == b@[k],
        decreases a@.len() - i,
    {
        if a[i] != b[i] {
            return false;
        }
        i = i + 1;
    }
    assert(a@ =~= b@);
    true
}

fn copy_bytes(v: &Vec<u8>) -> (r: Vec<u8>)
    ensures
        r@ == v@,
{
    let mut r: Vec<u8> = Vec::new();
    let mut i: usize = 0;
    while i < v.len()
        invariant
            i <= v@.len(),
            r@ == v@.subrange(0, i as int),
        decreases v@.len() - i,
    {
        r.push(v[i]);
        i = i + 1;
    }
    assert(r@ =~= v@);
    r
}

fn copy_texts(v: &Vec<String>) -> (r: Vec<String>)
    ensures
        texts_view(r@) == texts_view(v@),
{
    let mut r: Vec<String> = Vec::new();
    let mut i: usize = 0;
    while i < v.len()
        invariant
            i <= v@.len(),
            r@.len() == i,
            forall|k: int| 0 <= k < i ==> #[trigger] r@[k]@ == v@[k]@,
        decreases v@.len() - i,
    {
        r.push(v[i].clone());
        i = i + 1;
    }
    assert(texts_view(r@) =~= texts_view(v@));
    r
}

impl View for Certificate {
    type V = CertificateView;

    closed spec fn view(&self) -> CertificateView {
        CertificateView {
            der: self.der@,
            issuer: self.issuer@,
            subject: self.subject@,
            aia: texts_view(self.aia@),
            ord: self.ord as nat,
            hash: self.hash@,
            origin: self.origin@,
        }
    }
}

impl Certificate {
    /// A certificate from its DER encoding, the bytes of its signature, its
    /// issuer and subject names and the URIs of the CA Issuers entries of its
    /// Authority Information Access extension. Its URLs are those URIs that
    /// are absolute URLs, serialized; its identity digest is the SHA-256 of
    /// the signature bytes; it is untagged and has order 0.
    pub fn new(der: Vec<u8>, signature: &Vec<u8>, issuer: String, subject: String, aia: Vec<String>) -> (r: Certificate)
        ensures
            r@ == (CertificateView {
                der: der@,
                issuer: issuer@,
                subject: subject@,
                aia: parsed_urls(texts_view(aia@)),
                ord: 0,
                hash: sha256_of(signature@),
                origin: OriginView::Unknown,
            }),
    {
        let hash = sha256(signature);
        let aia = parse_urls(&aia);
        Certificate { der, issuer, subject, aia, ord: 0, hash, origin: CertificateOrigin::Unknown }
    }

    /// Whether `self` could have issued `subject`.
    pub fn issued(&self, subject: &Self) -> (r: bool)
        ensures
            r == issued_spec(self@, subject@),
    {
        self.subject == subject.issuer
    }

    /// The CA Issuers URLs, in the order of the extension.
    pub fn aia(&self) -> (r: &[String])
        ensures
            texts_view(r@) == self@.aia,
    {
        self.aia.as_slice()
    }

    /// The DER encoding.
    pub fn inner(&self) -> (r: &Vec<u8>)
        ensures
            r@ == self@.der,
    {
        &self.der
    }

    pub fn issuer(&self) -> (r: &String)
        ensures
            r@ == self@.issuer,
    {
        &self.issuer
    }

    pub fn subject(&self) -> (r: &String)
        ensures
            r@ == self@.subject,
    {
        &self.subject
    }

    /// The identity digest.
    pub fn identity_hash(&self) -> (r: &Vec<u8>)
        ensures
            r@ == self@.hash,
    {
        &self.hash
    }

    pub fn ord(&self) -> (r: usize)
        ensures
            r == self@.ord,
    {
        self.ord
    }

    pub fn set_ord(&mut self, ord: usize)
        ensures
            final(self)@ == (CertificateView { ord: ord as nat, ..old(self)@ }),
    {
        self.ord = ord;
    }

    pub fn origin(&self) -> (r: &CertificateOrigin)
        ensures
            r@ == self@.origin,
    {
        &self.origin
    }

    pub fn set_origin(&mut self, origin: CertificateOrigin)
        ensures
            final(self)@ == (CertificateView { origin: origin@, ..old(self)@ }),
    {
        self.origin = origin;
    }

    /// Whether both are the same certificate (identical DER encodings).
    pub fn same(&self, other: &Self) -> (r: bool)
        ensures
            r == (self@.der == other@.der),
    {
        same_bytes(&self.der, &other.der)
    }

    /// Orders certificates: equal when the same, otherwise by insertion order.
    pub fn order(&self, other: &Self) -> (r: Ordering)
        ensures
            r == order_spec(self@, other@),
    {
        if self.same(other) {
            Ordering::Equal
        } else if self.ord > other.ord {
            Ordering::Greater
        } else {
            Ordering::Less
        }
    }

    /// A copy with the same model.
    pub fn duplicate(&self) -> (r: Certificate)
        ensures
            r@ == self@,
    {
        Certificate {
            der: copy_bytes(&self.der),
            issuer: self.issuer.clone(),
            subject: self.subject.clone(),
            aia: copy_texts(&self.aia),
            ord: self.ord,
            hash: copy_bytes(&self.hash),
            origin: self.origin.duplicate(),
        }
    }
}

} // verus!
