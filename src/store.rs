//! The deduplicating certificate store, indexed by handle.
//!
//! Every certificate known to a search session lives here once, keyed by its
//! identity digest; its handle is its insertion order. A certificate is an
//! issuer candidate only once it has been inserted as a store member: the
//! target of a search is registered without becoming one.
use vstd::prelude::*;

use crate::certificate::{Certificate, CertificateView, issued_spec, same_bytes};

verus! {

/// Mathematical model of a [`CertificateStore`].
pub struct StoreView {
    /// Known certificates, by handle.
    pub certs: Seq<CertificateView>,
    /// Whether the certificate at each handle is a member (an issuer candidate).
    pub member: Seq<bool>,
}

/// Well-formed store: one flag per certificate, each certificate's order is
/// its handle, and no two certificates share an identity digest.
pub open spec fn store_wf(s: StoreView) -> bool {
    &&& s.certs.len() == s.member.len()
    &&& forall|i: int| 0 <= i < s.certs.len() ==> (#[trigger] s.certs[i]).ord == i
    &&& forall|i: int, j: int|
        0 <= i < s.certs.len() && 0 <= j < s.certs.len() && i != j ==> #[trigger] s.certs[i].hash
            != #[trigger] s.certs[j].hash
}

/// Some known certificate has the digest `h`.
pub open spec fn holds_hash(s: StoreView, h: Seq<u8>) -> bool {
    exists|i: int| 0 <= i < s.certs.len() && #[trigger] s.certs[i].hash == h
}

/// Adding `c` to `s`, as a member when `member` holds: the new store and the
/// handle of the canonical instance. A certificate whose digest is known
/// keeps its handle and instance; otherwise `c` is appended with its handle
/// as order.
pub open spec fn insert_spec(s: StoreView, c: CertificateView, member: bool) -> (StoreView, nat) {
    if holds_hash(s, c.hash) {
        let i = choose|i: int| 0 <= i < s.certs.len() && #[trigger] s.certs[i].hash == c.hash;
        (StoreView { certs: s.certs, member: s.member.update(i, s.member[i] || member) }, i as nat)
    } else {
        (
            StoreView {
                certs: s.certs.push(CertificateView { ord: s.certs.len(), ..c }),
                member: s.member.push(member),
            },
            s.certs.len(),
        )
    }
}

/// The store after inserting each of `cs` in turn as members.
pub open spec fn insert_all(s: StoreView, cs: Seq<CertificateView>) -> StoreView
    decreases cs.len(),
{
    if cs.len() == 0 {
        s
    } else {
        insert_spec(insert_all(s, cs.drop_last()), cs.last(), true).0
    }
}

/// Handles below `n` of members that could have issued the certificate at `h`, ascending.
pub open spec fn issuers_upto(s: StoreView, h: int, n: nat) -> Seq<nat>
    decreases n,
{
    if n == 0 {
        Seq::empty()
    } else {
        let rest = issuers_upto(s, h, (n - 1) as nat);
        if s.member[n - 1] && issued_spec(s.certs[n - 1], s.certs[h]) {
            rest.push((n - 1) as nat)
        } else {
            rest
        }
    }
}

/// Handles of all members that could have issued the certificate at `h`, ascending.
pub open spec fn issuers_spec(s: StoreView, h: int) -> Seq<nat> {
    issuers_upto(s, h, s.certs.len())
}

/// The deduplicating, issuer-indexed set of certificates of a session.
pub struct CertificateStore {
    certs: Vec<Certificate>,
    member: Vec<bool>,
}

impl View for CertificateStore {
    type V = StoreView;

    closed spec fn view(&self) -> StoreView {
        StoreView { certs: self.certs@.map_values(|c: Certificate| c@), member: self.member@ }
    }
}

impl CertificateStore {
    pub open spec fn wf(&self) -> bool {
        store_wf(self@)
    }

    /// An empty store.
    pub fn new() -> (r: CertificateStore)
        ensures
            r.wf(),
            r@ == (StoreView { certs: Seq::empty(), member: Seq::empty() }),
    {
        let r = CertificateStore { certs: Vec::new(), member: Vec::new() };
        assert(r@.certs =~= Seq::<CertificateView>::empty());
        assert(r@.member =~= Seq::<bool>::empty());
        r
    }

    /// A store holding `certificates` as members, inserted in order.
    pub fn from_certificates(certificates: Vec<Certificate>) -> (r: CertificateStore)
        requires
            certificates@.len() < usize::MAX,
        ensures
            r.wf(),
            r@ == insert_all(
                StoreView { certs: Seq::empty(), member: Seq::empty() },
                certificates@.map_values(|c: Certificate| c@),
            ),
    {
        let mut r = CertificateStore::new();
        let ghost empty = r@;
        let ghost cs = certificates@.map_values(|c: Certificate| c@);
        let mut certificates = certificates;
        let mut rest: Vec<Certificate> = Vec::new();
        // take the certificates out back to front, then insert front to back
        while certificates.len() > 0
            invariant
                rest@.len() + certificates@.len() == cs.len(),
                forall|k: int| 0 <= k < certificates@.len() ==> #[trigger] certificates@[k]@ == cs[k],
                forall|k: int| 0 <= k < rest@.len() ==> #[trigger] rest@[k]@ == cs[cs.len() - 1 - k],
            decreases certificates@.len(),
        {
            let c = certificates.pop().unwrap();
            rest.push(c);
        }
        let mut n: usize = 0;
        while rest.len() > 0
            invariant
                r.wf(),
                n + rest@.len() == cs.len(),
                cs.len() < usize::MAX,
                r@.certs.len() <= n,
                r@ == insert_all(empty, cs.take(n as int)),
                forall|k: int| 0 <= k < rest@.len() ==> #[trigger] rest@[k]@ == cs[cs.len() - 1 - k],
            decreases rest@.len(),
        {
            let c = rest.pop().unwrap();
            assert(cs.take(n + 1).drop_last() =~= cs.take(n as int));
            r.insert(c);
            n = n + 1;
        }
        assert(cs.take(n as int) =~= cs);
        r
    }

    /// Number of known certificates.
    pub fn len(&self) -> (r: usize)
        ensures
            r == self@.certs.len(),
    {
        self.certs.len()
    }

    /// The certificate at handle `h`.
    pub fn get(&self, h: usize) -> (r: &Certificate)
        requires
            h < self@.certs.len(),
        ensures
            r@ == self@.certs[h as int],
    {
        &self.certs[h]
    }

    /// The handle of the certificate whose digest is `hash`, if one is known.
    fn find_hash(&self, hash: &Vec<u8>) -> (r: Option<usize>)
        requires
            self.wf(),
        ensures
            r is None <==> !holds_hash(self@, hash@),
            r matches Some(i) ==> i < self@.certs.len() && self@.certs[i as int].hash == hash@,
    {
        let mut i: usize = 0;
        while i < self.certs.len()
            invariant
                i <= self@.certs.len(),
                self@.certs.len() == self.certs@.len(),
                forall|k: int| 0 <= k < i ==> (#[trigger] self@.certs[k]).hash != hash@,
            decreases self@.certs.len() - i,
        {
            if same_bytes(self.certs[i].identity_hash(), hash) {
                return Some(i);
            }
            i = i + 1;
        }
        None
    }

    proof fn lemma_choose_unique(&self, i: int, h: Seq<u8>)
        requires
            self.wf(),
            0 <= i < self@.certs.len(),
            self@.certs[i].hash == h,
        ensures
            (choose|j: int| 0 <= j < self@.certs.len() && #[trigger] self@.certs[j].hash == h) == i,
    {
        let j = choose|j: int| 0 <= j < self@.certs.len() && #[trigger] self@.certs[j].hash == h;
        assert(0 <= j < self@.certs.len() && self@.certs[j].hash == h);
    }

    fn add(&mut self, c: Certificate, member: bool) -> (r: usize)
        requires
            old(self).wf(),
            old(self)@.certs.len() < usize::MAX,
        ensures
            final(self).wf(),
            (final(self)@, r as nat) == insert_spec(old(self)@, c@, member),
    {
        match self.find_hash(c.identity_hash()) {
            Some(i) => {
                proof {
                    self.lemma_choose_unique(i as int, c@.hash);
                }
                let m = self.member[i] || member;
                self.member.set(i, m);
                assert(self@.member =~= old(self)@.member.update(i as int, old(self)@.member[i as int] || member));
                i
            },
            None => {
                let n = self.certs.len();
                let mut c = c;
                c.set_ord(n);
                self.certs.push(c);
                self.member.push(member);
                assert(self@.certs =~= old(self)@.certs.push(CertificateView { ord: n as nat, ..c@ }));
                n
            },
        }
    }

    /// Inserts `c` as a member and returns the handle of the canonical
    /// instance: the one already known with the same digest, or `c` itself,
    /// appended with its handle as order.
    pub fn insert(&mut self, c: Certificate) -> (r: usize)
        requires
            old(self).wf(),
            old(self)@.certs.len() < usize::MAX,
        ensures
            final(self).wf(),
            (final(self)@, r as nat) == insert_spec(old(self)@, c@, true),
    {
        self.add(c, true)
    }

    /// Makes `c` known without making it a member (the target of a search),
    /// returning its handle.
    pub fn register(&mut self, c: Certificate) -> (r: usize)
        requires
            old(self).wf(),
            old(self)@.certs.len() < usize::MAX,
        ensures
            final(self).wf(),
            (final(self)@, r as nat) == insert_spec(old(self)@, c@, false),
    {
        self.add(c, false)
    }

    /// Handles of the members that could have issued the certificate at `h`, ascending.
    pub fn issuers(&self, h: usize) -> (r: Vec<usize>)
        requires
            self.wf(),
            h < self@.certs.len(),
        ensures
            r@.map_values(|x: usize| x as nat) == issuers_spec(self@, h as int),
    {
        let mut r: Vec<usize> = Vec::new();
        let mut n: usize = 0;
        let target = &self.certs[h];
        while n < self.certs.len()
            invariant
                n <= self@.certs.len(),
                self@.certs.len() == self.certs@.len(),
                self@.member.len() == self.certs@.len(),
                target@ == self@.certs[h as int],
                r@.map_values(|x: usize| x as nat) == issuers_upto(self@, h as int, n as nat),
            decreases self@.certs.len() - n,
        {
            let ghost before = r@;
            if self.member[n] && self.certs[n].issued(target) {
                r.push(n);
                assert(r@.map_values(|x: usize| x as nat) =~= before.map_values(|x: usize| x as nat).push(n as nat));
            }
            n = n + 1;
        }
        r
    }
}

/// Insertion keeps every known certificate at its handle and returns a valid handle.
pub proof fn lemma_insert_keeps(s: StoreView, c: CertificateView, member: bool)
    requires
        store_wf(s),
    ensures
        insert_spec(s, c, member).0.certs.len() >= s.certs.len(),
        insert_spec(s, c, member).1 < insert_spec(s, c, member).0.certs.len(),
        forall|i: int| 0 <= i < s.certs.len() ==> #[trigger] insert_spec(s, c, member).0.certs[i] == s.certs[i],
{
}

/// Insertion keeps a store well formed.
pub proof fn lemma_insert_wf(s: StoreView, c: CertificateView, member: bool)
    requires
        store_wf(s),
    ensures
        store_wf(insert_spec(s, c, member).0),
{
    let t = insert_spec(s, c, member).0;
    if !holds_hash(s, c.hash) {
        assert forall|i: int, j: int|
            0 <= i < t.certs.len() && 0 <= j < t.certs.len() && i != j implies #[trigger] t.certs[i].hash
            != #[trigger] t.certs[j].hash by {
            if i == s.certs.len() {
                assert(s.certs[j].hash != c.hash);
            } else if j == s.certs.len() {
                assert(s.certs[i].hash != c.hash);
            }
        }
    }
}

/// Every handle below `n` that `issuers_upto` lists is below `n`.
pub proof fn lemma_issuers_bound(s: StoreView, h: int, n: nat)
    ensures
        forall|k: int| 0 <= k < issuers_upto(s, h, n).len() ==> #[trigger] issuers_upto(s, h, n)[k] < n,
    decreases n,
{
    if n > 0 {
        lemma_issuers_bound(s, h, (n - 1) as nat);
        let rest = issuers_upto(s, h, (n - 1) as nat);
        assert forall|k: int| 0 <= k < issuers_upto(s, h, n).len() implies #[trigger] issuers_upto(
            s,
            h,
            n,
        )[k] < n by {
            if k < rest.len() {
                assert(rest[k] < n - 1);
            }
        }
    }
}

/// Inserting the same certificate twice gives the same handle both times, and
/// the second insertion leaves the store as the first left it.
pub proof fn lemma_insert_idempotent(s: StoreView, c: CertificateView)
    requires
        store_wf(s),
    ensures
        insert_spec(insert_spec(s, c, true).0, c, true) == insert_spec(s, c, true),
        store_wf(insert_spec(s, c, true).0),
{
    let (s1, h1) = insert_spec(s, c, true);
    assert(s1.certs[h1 as int].hash == c.hash);
    assert(holds_hash(s1, c.hash));
    let j = choose|j: int| 0 <= j < s1.certs.len() && #[trigger] s1.certs[j].hash == c.hash;
    assert(s1.certs[j].hash == c.hash);
    if holds_hash(s, c.hash) {
        assert(s1.member =~= s1.member.update(h1 as int, s1.member[h1 as int] || true));
    } else {
        assert(forall|i: int| 0 <= i < s.certs.len() ==> #[trigger] s1.certs[i] == s.certs[i]);
        assert(s1.member =~= s1.member.update(h1 as int, s1.member[h1 as int] || true));
    }
}

} // verus!
