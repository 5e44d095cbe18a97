//! The certificate store: an ordered, duplicate-free collection of
//! certificates that answers issuer lookups in insertion order.

use vstd::prelude::*;
use crate::certificate::{Certificate, CertificateView};

verus! {

/// TRUE iff some certificate in `s` has the DER bytes `der`.
pub open spec fn contains_der(s: Seq<CertificateView>, der: Seq<u8>) -> bool {
    exists|i: int| 0 <= i < s.len() && s[i].der == der
}

/// The store's invariant: no two entries share DER bytes, and no entry is
/// self-signed (the policy that keeps trust anchors from being walked as
/// intermediates).
pub open spec fn store_wf(s: Seq<CertificateView>) -> bool {
    &&& forall|i: int, j: int| 0 <= i < j < s.len() ==> s[i].der != s[j].der
    &&& forall|i: int| 0 <= i < s.len() ==> !(#[trigger] s[i]).self_signed()
}

/// What one insertion does to the store's contents: a self-signed
/// certificate and a certificate already present (by DER identity) are
/// dropped; anything else is appended.
pub open spec fn store_insertion(s: Seq<CertificateView>, c: CertificateView) -> Seq<CertificateView> {
    if c.self_signed() || contains_der(s, c.der) {
        s
    } else {
        s.push(c)
    }
}

/// The contents of a store seeded from `input`, in input order.
pub open spec fn seeded(input: Seq<CertificateView>) -> Seq<CertificateView>
    decreases input.len(),
{
    if input.len() == 0 {
        Seq::empty()
    } else {
        store_insertion(seeded(input.drop_last()), input.last())
    }
}

/// Every stored certificate that could have issued `subject`, in store
/// order.
pub open spec fn issuers_of(s: Seq<CertificateView>, subject: CertificateView) -> Seq<CertificateView>
    decreases s.len(),
{
    if s.len() == 0 {
        Seq::empty()
    } else {
        let prefix = issuers_of(s.drop_last(), subject);
        if s.last().issued(subject) {
            prefix.push(s.last())
        } else {
            prefix
        }
    }
}

/// Error trait for store implementations.
pub trait CertificateStoreError {
    /// A human-readable description of the error.
    fn message(&self) -> String;
}

/// Ordered set of certificates with issuer lookup. Insertion order is
/// preserved and is the tie-breaker among issuer candidates; duplicates (by
/// DER identity) and self-signed certificates are dropped at insertion.
pub struct CertificateStore {
    certificates: Vec<Certificate>,
}

impl View for CertificateStore {
    type V = Seq<CertificateView>;

    closed spec fn view(&self) -> Seq<CertificateView> {
        self.certificates.deep_view()
    }
}

impl CertificateStore {
    /// An empty store.
    pub fn new() -> (r: CertificateStore)
        ensures
            r@ == Seq::<CertificateView>::empty(),
    {
        let r = CertificateStore { certificates: Vec::new() };
        proof {
            assert(r@ =~= Seq::<CertificateView>::empty());
        }
        r
    }

    /// Build a store from seed certificates (bridges, cross-certificates),
    /// preserving input order, dropping self-signed entries and duplicates.
    pub fn from_certificates(certificates: &Vec<Certificate>) -> (r: CertificateStore)
        ensures
            r@ == seeded(certificates.deep_view()),
            store_wf(r@),
    {
        let ghost input = certificates.deep_view();
        let mut r = CertificateStore { certificates: Vec::new() };
        proof {
            assert(input.take(0) =~= Seq::<CertificateView>::empty());
            assert(r@ =~= seeded(input.take(0)));
        }
        let n = certificates.len();
        for i in 0..n
            invariant
                n == certificates.len(),
                input == certificates.deep_view(),
                r@ == seeded(input.take(i as int)),
                store_wf(r@),
        {
            let c = certificates[i].clone();
            proof {
                assert(certificates.deep_view()[i as int] == certificates@[i as int].deep_view());
                assert(c@ == input[i as int]);
            }
            r.insert(c);
            proof {
                assert(input.take(i + 1).drop_last() =~= input.take(i as int));
                assert(input.take(i + 1).last() == input[i as int]);
                assert(seeded(input.take(i + 1)) == store_insertion(seeded(input.take(i as int)), input[i as int]));
            }
        }
        proof {
            assert(input.take(n as int) =~= input);
        }
        r
    }

    /// How many certificates the store holds.
    pub fn len(&self) -> (r: usize)
        ensures
            r == self@.len(),
    {
        self.certificates.len()
    }

    /// The stored certificates, in insertion order.
    pub fn certificates(&self) -> (r: &Vec<Certificate>)
        ensures
            r.deep_view() == self@,
    {
        &self.certificates
    }

    /// Insert one certificate: a no-op if it is self-signed or already
    /// present. Unless the certificate was rejected as self-signed, returns
    /// it back — so callers can keep working with it — together with
    /// whether the insertion was novel.
    pub fn insert(&mut self, certificate: Certificate) -> (r: Option<(Certificate, bool)>)
        ensures
            final(self)@ == store_insertion(old(self)@, certificate@),
            r is Some <==> !certificate@.self_signed(),
            r matches Some(p) ==> p.0@ == certificate@ && (p.1 <==> !contains_der(
                old(self)@,
                certificate@.der,
            )),
            store_wf(old(self)@) ==> store_wf(final(self)@),
    {
        if certificate.self_signed() {
            return None;
        }
        let n = self.certificates.len();
        for i in 0..n
            invariant
                n == self.certificates.len(),
                *self == *old(self),
                !certificate@.self_signed(),
                forall|k: int| 0 <= k < i ==> self@[k].der != certificate@.der,
        {
            proof {
                assert(self.certificates.deep_view()[i as int] == self.certificates@[i as int].deep_view());
            }
            if self.certificates[i].same_certificate(&certificate) {
                proof {
                    assert(contains_der(self@, certificate@.der));
                }
                return Some((certificate, false));
            }
        }
        proof {
            assert(!contains_der(self@, certificate@.der));
        }
        let c = certificate.clone();
        let ghost pre = self@;
        self.certificates.push(c);
        proof {
            assert(self@ =~= pre.push(certificate@));
            if store_wf(pre) {
                assert forall|i: int, j: int| 0 <= i < j < self@.len() implies self@[i].der != self@[j].der by {
                    if j < self@.len() - 1 {
                        assert(self@[i] == pre[i] && self@[j] == pre[j]);
                    } else {
                        assert(self@[j] == certificate@);
                        assert(!contains_der(pre, certificate@.der));
                        assert(pre[i].der != certificate@.der);
                    }
                }
                assert(store_wf(self@));
            }
        }
        Some((certificate, true))
    }

    /// Every stored certificate that could have issued `subject`, in
    /// insertion order: the order steers the search among ambiguous issuers.
    pub fn issuers(&self, subject: &Certificate) -> (r: Vec<Certificate>)
        ensures
            r.deep_view() == issuers_of(self@, subject@),
            forall|k: int| 0 <= k < r.deep_view().len()
                ==> (#[trigger] r.deep_view()[k]).issued(subject@),
    {
        let mut r: Vec<Certificate> = Vec::new();
        let n = self.certificates.len();
        proof {
            assert(r.deep_view() =~= issuers_of(self@.take(0), subject@));
        }
        for i in 0..n
            invariant
                n == self.certificates.len(),
                r.deep_view() == issuers_of(self@.take(i as int), subject@),
        {
            proof {
                assert(self.certificates.deep_view()[i as int] == self.certificates@[i as int].deep_view());
                assert(self@.take(i + 1).drop_last() =~= self@.take(i as int));
                assert(self@.take(i + 1).last() == self@[i as int]);
            }
            let ghost pre = r.deep_view();
            if self.certificates[i].issued(subject) {
                r.push(self.certificates[i].clone());
                proof {
                    assert(r.deep_view() =~= pre.push(self@[i as int]));
                }
            }
        }
        proof {
            assert(self@.take(n as int) =~= self@);
            lemma_issuers_issued(self@, subject@);
        }
        r
    }
}

impl Clone for CertificateStore {
    fn clone(&self) -> (r: Self)
        ensures
            r@ == self@,
    {
        let mut certificates: Vec<Certificate> = Vec::new();
        let n = self.certificates.len();
        for i in 0..n
            invariant
                n == self.certificates.len(),
                certificates.deep_view() == self@.take(i as int),
        {
            proof {
                assert(self.certificates.deep_view()[i as int] == self.certificates@[i as int].deep_view());
            }
            let ghost pre = certificates.deep_view();
            certificates.push(self.certificates[i].clone());
            proof {
                assert(certificates.deep_view() =~= pre.push(self@[i as int]));
                assert(certificates.deep_view() =~= self@.take(i + 1));
            }
        }
        proof {
            assert(self@.take(n as int) =~= self@);
        }
        CertificateStore { certificates }
    }
}

/// Everything `issuers_of` returns is in the store and satisfies the name
/// match.
pub proof fn lemma_issuers_issued(s: Seq<CertificateView>, subject: CertificateView)
    ensures
        forall|k: int| 0 <= k < issuers_of(s, subject).len()
            ==> (#[trigger] issuers_of(s, subject)[k]).issued(subject),
        forall|k: int| 0 <= k < issuers_of(s, subject).len()
            ==> contains_der(s, issuers_of(s, subject)[k].der),
    decreases s.len(),
{
    if s.len() > 0 {
        lemma_issuers_issued(s.drop_last(), subject);
        assert forall|k: int| 0 <= k < issuers_of(s, subject).len() implies
            (#[trigger] issuers_of(s, subject)[k]).issued(subject)
            && contains_der(s, issuers_of(s, subject)[k].der) by {
            let prefix = issuers_of(s.drop_last(), subject);
            if k < prefix.len() {
                let c = prefix[k];
                assert(contains_der(s.drop_last(), c.der));
                let i = choose|i: int| 0 <= i < s.drop_last().len() && s.drop_last()[i].der == c.der;
                assert(s[i].der == c.der);
            } else {
                assert(issuers_of(s, subject)[k] == s.last());
                assert(s[s.len() - 1].der == s.last().der);
            }
        }
    }
}

/// Seeding always establishes the store invariant.
pub proof fn lemma_seeded_wf(input: Seq<CertificateView>)
    ensures
        store_wf(seeded(input)),
    decreases input.len(),
{
    if input.len() == 0 {
        assert(store_wf(seeded(input)));
    } else {
        lemma_seeded_wf(input.drop_last());
        let s = seeded(input.drop_last());
        let c = input.last();
        if !c.self_signed() && !contains_der(s, c.der) {
            assert forall|i: int, j: int| 0 <= i < j < s.push(c).len() implies
                s.push(c)[i].der != s.push(c)[j].der by {
                if j < s.len() {
                    assert(s.push(c)[i] == s[i] && s.push(c)[j] == s[j]);
                } else {
                    assert(s.push(c)[j] == c);
                    assert(s.push(c)[i] == s[i]);
                }
            }
        }
    }
}

/// Insertion is idempotent, with set semantics on DER identity: inserting a
/// certificate a second time changes nothing.
pub proof fn lemma_insertion_idempotent(s: Seq<CertificateView>, c: CertificateView)
    ensures
        store_insertion(store_insertion(s, c), c) == store_insertion(s, c),
{
    if !c.self_signed() && !contains_der(s, c.der) {
        assert(s.push(c)[s.len() as int].der == c.der);
        assert(contains_der(s.push(c), c.der));
    }
}

/// Inserting a certificate equal (by DER identity) to one already seeded, or
/// a self-signed certificate, changes nothing, wherever in the seed sequence
/// it stands: stores that differ only in where such duplicates were inserted
/// hold the same certificates in the same order.
pub proof fn lemma_seeded_duplicate_dropped(a: Seq<CertificateView>, c: CertificateView, b: Seq<CertificateView>)
    requires
        c.self_signed() || contains_der(seeded(a), c.der),
    ensures
        seeded(a + seq![c] + b) == seeded(a + b),
    decreases b.len(),
{
    if b.len() == 0 {
        assert((a + seq![c] + b).drop_last() =~= a);
        assert((a + seq![c] + b).last() == c);
        assert(seeded(a + seq![c] + b) == store_insertion(seeded(a), c));
        assert(seeded(a + seq![c] + b) == seeded(a));
        assert(a + b =~= a);
    } else {
        let b1 = b.drop_last();
        let x = b.last();
        lemma_seeded_duplicate_dropped(a, c, b1);
        assert((a + seq![c] + b).drop_last() =~= a + seq![c] + b1);
        assert((a + seq![c] + b).last() == x);
        assert(seeded(a + seq![c] + b) == store_insertion(seeded(a + seq![c] + b1), x));
        assert((a + b).drop_last() =~= a + b1);
        assert((a + b).last() == x);
        assert(seeded(a + b) == store_insertion(seeded(a + b1), x));
    }
}

} // verus!
