//! Lookup tables between well-known certificates and their short
//! identifiers, keyed on the certificate side by BLAKE-256 fingerprint.
use crate::bucket::{bucket_key, bucket_of, BucketIndex};
use crate::tls::copy_bytes;
use vstd::prelude::*;

verus! {

/// The BLAKE-256 digest of `data`.
pub uninterp spec fn blake256_of(data: Seq<u8>) -> Seq<u8>;

#[verifier::external_type_specification]
#[verifier::external_body]
pub struct ExBlakeError(blake::BlakeError);

/// Inputs below this length can be hashed: the hasher counts the input in
/// bits in a `u64`.
pub const HASH_INPUT_LIMIT: u64 = 0x2000_0000_0000_0000;

/// Relies on `blake::hash` with a 256-bit output: it writes the BLAKE-256
/// digest of `data` into the 32-byte buffer, and fails only for a bit length
/// other than 224, 256, 384 or 512.
#[verifier::external_body]
fn blake256(data: &[u8]) -> (r: Result<Vec<u8>, blake::BlakeError>)
    requires
        data@.len() < HASH_INPUT_LIMIT,
    ensures
        r is Ok,
        r matches Ok(h) ==> h@ == blake256_of(data@),
        r matches Ok(h) ==> h@.len() == 32,
{
    let mut digest = [0u8; 32];
    blake::hash(256, data, &mut digest).map(|_| digest.to_vec())
}

/// The fingerprint of a certificate: its BLAKE-256 digest.
pub fn hash(bytes: &[u8]) -> (r: Vec<u8>)
    requires
        bytes@.len() < HASH_INPUT_LIMIT,
    ensures
        r@ == blake256_of(bytes@),
        r@.len() == 32,
{
    blake256(bytes).unwrap()
}

/// Whether two byte strings are equal.
pub fn bytes_equal(a: &[u8], b: &[u8]) -> (r: bool)
    ensures
        r == (a@ == b@),
{
    if a.len() != b.len() {
        return false;
    }
    let mut i: usize = 0;
    while i < a.len()
        invariant
            i <= a@.len() == b@.len(),
            a@.subrange(0, i as int) == b@.subrange(0, i as int),
        decreases a@.len() - i,
    {
        if a[i] != b[i] {
            assert(a@[i as int] != b@[i as int]);
            return false;
        }
        i = i + 1;
        assert(a@.subrange(0, i as int) =~= a@.subrange(0, i as int - 1).push(a@[i - 1]));
        assert(b@.subrange(0, i as int) =~= b@.subrange(0, i as int - 1).push(b@[i - 1]));
    }
    assert(a@ =~= a@.subrange(0, i as int));
    assert(b@ =~= b@.subrange(0, i as int));
    true
}

/// A table as values: pairs of identifier and certificate.
pub type Pairs = Seq<(Seq<u8>, Seq<u8>)>;

/// What makes a list of pairs a table: every certificate can be hashed and
/// is longer than its identifier; identifiers are distinct, and so are the
/// fingerprints of the certificates; no identifier has the fingerprint of a
/// certificate, so no identifier is found as a certificate either.
pub open spec fn pairs_ok(p: Pairs) -> bool {
    &&& forall|i: int|
        0 <= i < p.len() ==> #[trigger] p[i].1.len() < HASH_INPUT_LIMIT && p[i].0.len()
            < p[i].1.len()
    &&& forall|i: int, j: int|
        #![trigger p[i], p[j]]
        0 <= i < p.len() && 0 <= j < p.len() && i != j ==> p[i].0 != p[j].0 && blake256_of(
            p[i].1,
        ) != blake256_of(p[j].1)
    &&& forall|i: int, j: int|
        #![trigger p[i], p[j]]
        0 <= i < p.len() && 0 <= j < p.len() ==> blake256_of(p[i].0) != blake256_of(p[j].1)
}

/// The certificate that `id` names in `p`, if any.
pub open spec fn cert_for_id(p: Pairs, id: Seq<u8>) -> Option<Seq<u8>> {
    if exists|i: int| 0 <= i < p.len() && p[i].0 == id {
        Some(p[choose|i: int| 0 <= i < p.len() && p[i].0 == id].1)
    } else {
        None
    }
}

/// The identifier of the certificate in `p` whose fingerprint is that of
/// `cert`, if any.
pub open spec fn id_for_cert(p: Pairs, cert: Seq<u8>) -> Option<Seq<u8>> {
    if cert.len() < HASH_INPUT_LIMIT && exists|i: int|
        0 <= i < p.len() && blake256_of(p[i].1) == blake256_of(cert) {
        Some(
            p[choose|i: int| 0 <= i < p.len() && blake256_of(p[i].1) == blake256_of(cert)].0,
        )
    } else {
        None
    }
}

/// Why a list of pairs does not make a table.
#[derive(PartialEq, Eq, Structural, Clone, Copy, Debug)]
pub enum TableError {
    /// A certificate is too long to be hashed.
    CertificateTooLong,
    /// An identifier is not shorter than its certificate.
    IdentifierNotShorter,
    /// Two pairs share an identifier.
    DuplicateIdentifier,
    /// Two certificates have the same fingerprint.
    DuplicateCertificate,
    /// An identifier has the fingerprint of one of the certificates.
    IdentifierIsCertificate,
}

/// The values of a list of pairs of byte vectors.
pub open spec fn pairs_view(v: Seq<(Vec<u8>, Vec<u8>)>) -> Pairs {
    v.map_values(|q: (Vec<u8>, Vec<u8>)| (q.0@, q.1@))
}

/// Identifiers, certificates and their fingerprints, index for index,
/// with the positions grouped by the bucket of the certificate's
/// fingerprint and by that of the identifier's.
pub struct CertTable {
    ids: Vec<Vec<u8>>,
    certs: Vec<Vec<u8>>,
    fingerprints: Vec<Vec<u8>>,
    cert_index: BucketIndex,
    id_index: BucketIndex,
}

/// The buckets of the certificates' fingerprints, position by position.
pub open spec fn cert_keys(p: Pairs) -> Seq<u64> {
    Seq::new(p.len(), |i: int| bucket_of(blake256_of(p[i].1)))
}

/// The buckets of the identifiers' fingerprints, position by position.
pub open spec fn id_keys(p: Pairs) -> Seq<u64> {
    Seq::new(p.len(), |i: int| bucket_of(blake256_of(p[i].0)))
}

impl View for CertTable {
    type V = Pairs;

    closed spec fn view(&self) -> Pairs {
        Seq::new(self.ids@.len(), |i: int| (self.ids@[i]@, self.certs@[i]@))
    }
}

impl CertTable {
    /// The three columns agree, each fingerprint is that of its
    /// certificate, and the pairs make a table.
    pub closed spec fn wf(&self) -> bool {
        &&& self.ids@.len() == self.certs@.len() == self.fingerprints@.len()
        &&& forall|i: int|
            0 <= i < self.ids@.len() ==> #[trigger] self.fingerprints@[i]@ == blake256_of(
                self.certs@[i]@,
            )
        &&& pairs_ok(self@)
        &&& self.cert_index.covers(cert_keys(self@))
        &&& self.id_index.covers(id_keys(self@))
    }

    #[verifier::type_invariant]
    spec fn inv(&self) -> bool {
        self.wf()
    }

    /// Builds a table from pairs of identifier and certificate, checking
    /// that they make one.
    pub fn new(pairs: &[(Vec<u8>, Vec<u8>)]) -> (r: Result<CertTable, TableError>)
        ensures
            r is Ok <==> pairs_ok(pairs_view(pairs@)),
            r matches Ok(t) ==> t@ == pairs_view(pairs@) && t.wf(),
    {
        let ghost pv = pairs_view(pairs@);
        let n = pairs.len();
        let mut ids: Vec<Vec<u8>> = Vec::new();
        let mut certs: Vec<Vec<u8>> = Vec::new();
        let mut fingerprints: Vec<Vec<u8>> = Vec::new();
        let mut id_fingerprints: Vec<Vec<u8>> = Vec::new();
        let mut cert_index = BucketIndex::new();
        let mut id_index = BucketIndex::new();
        assert(cert_keys(pv.take(0)) =~= Seq::<u64>::empty());
        assert(id_keys(pv.take(0)) =~= Seq::<u64>::empty());
        let mut k: usize = 0;
        while k < n
            invariant
                k <= n == pairs@.len() == pv.len(),
                pv == pairs_view(pairs@),
                ids@.len() == certs@.len() == fingerprints@.len() == id_fingerprints@.len() == k,
                forall|i: int|
                    0 <= i < k ==> #[trigger] ids@[i]@ == pv[i].0 && certs@[i]@ == pv[i].1
                        && fingerprints@[i]@ == blake256_of(pv[i].1) && id_fingerprints@[i]@
                        == blake256_of(pv[i].0),
                pairs_ok(pv.take(k as int)),
                cert_index.covers(cert_keys(pv.take(k as int))),
                id_index.covers(id_keys(pv.take(k as int))),
            decreases n - k,
        {
            let id = copy_bytes(pairs[k].0.as_slice(), 0, pairs[k].0.len());
            let cert = copy_bytes(pairs[k].1.as_slice(), 0, pairs[k].1.len());
            assert(id@ =~= pv[k as int].0);
            assert(cert@ =~= pv[k as int].1);
            if cert.len() as u64 >= HASH_INPUT_LIMIT {
                assert(!pairs_ok(pv));
                return Err(TableError::CertificateTooLong);
            }
            if id.len() >= cert.len() {
                assert(!pairs_ok(pv));
                return Err(TableError::IdentifierNotShorter);
            }
            let fp = hash(cert.as_slice());
            let id_fp = hash(id.as_slice());
            if bytes_equal(id_fp.as_slice(), fp.as_slice()) {
                assert(!pairs_ok(pv)) by {
                    assert(blake256_of(pv[k as int].0) == blake256_of(pv[k as int].1));
                }
                return Err(TableError::IdentifierIsCertificate);
            }
            let mut j: usize = 0;
            while j < k
                invariant
                    j <= k < n == pv.len(),
                    pv == pairs_view(pairs@),
                    ids@.len() == certs@.len() == fingerprints@.len() == id_fingerprints@.len()
                        == k,
                    forall|i: int|
                        0 <= i < k ==> #[trigger] ids@[i]@ == pv[i].0 && certs@[i]@ == pv[i].1
                            && fingerprints@[i]@ == blake256_of(pv[i].1) && id_fingerprints@[i]@
                            == blake256_of(pv[i].0),
                    id@ == pv[k as int].0,
                    cert@ == pv[k as int].1,
                    fp@ == blake256_of(cert@),
                    id_fp@ == blake256_of(id@),
                    id_fp@ != fp@,
                    forall|i: int|
                        #![trigger pv[i]]
                        0 <= i < j ==> pv[i].0 != id@ && blake256_of(pv[i].1) != fp@
                            && blake256_of(pv[i].0) != fp@ && blake256_of(pv[i].1) != id_fp@,
                decreases k - j,
            {
                assert(ids@[j as int]@ == pv[j as int].0);
                if bytes_equal(ids[j].as_slice(), id.as_slice()) {
                    assert(!pairs_ok(pv)) by {
                        assert(pv[j as int].0 == pv[k as int].0);
                    }
                    return Err(TableError::DuplicateIdentifier);
                }
                if bytes_equal(fingerprints[j].as_slice(), fp.as_slice()) {
                    assert(!pairs_ok(pv)) by {
                        assert(blake256_of(pv[j as int].1) == blake256_of(pv[k as int].1));
                    }
                    return Err(TableError::DuplicateCertificate);
                }
                if bytes_equal(id_fingerprints[j].as_slice(), fp.as_slice()) {
                    assert(!pairs_ok(pv)) by {
                        assert(blake256_of(pv[j as int].0) == blake256_of(pv[k as int].1));
                    }
                    return Err(TableError::IdentifierIsCertificate);
                }
                if bytes_equal(fingerprints[j].as_slice(), id_fp.as_slice()) {
                    assert(!pairs_ok(pv)) by {
                        assert(blake256_of(pv[k as int].0) == blake256_of(pv[j as int].1));
                    }
                    return Err(TableError::IdentifierIsCertificate);
                }
                assert(pv[j as int].0 != id@ && blake256_of(pv[j as int].1) != fp@ && blake256_of(
                    pv[j as int].0,
                ) != fp@ && blake256_of(pv[j as int].1) != id_fp@);
                j = j + 1;
            }
            let ghost ck = cert_keys(pv.take(k as int));
            let ghost ik = id_keys(pv.take(k as int));
            cert_index.add(bucket_key(fp.as_slice()), k, Ghost(ck));
            id_index.add(bucket_key(id_fp.as_slice()), k, Ghost(ik));
            assert(cert_keys(pv.take(k as int + 1)) =~= ck.push(bucket_of(fp@)));
            assert(id_keys(pv.take(k as int + 1)) =~= ik.push(bucket_of(id_fp@)));
            ids.push(id);
            certs.push(cert);
            fingerprints.push(fp);
            id_fingerprints.push(id_fp);
            k = k + 1;
            proof {
                let p = pv.take(k as int);
                let q = pv.take(k as int - 1);
                assert forall|i: int| 0 <= i < p.len() implies p[i] == pv[i] by {}
                assert forall|i: int| 0 <= i < q.len() implies q[i] == pv[i] by {}
                assert forall|i: int, j: int|
                    #![trigger p[i], p[j]]
                    0 <= i < p.len() && 0 <= j < p.len() && i != j implies p[i].0 != p[j].0
                        && blake256_of(p[i].1) != blake256_of(p[j].1) by {
                    if i < k - 1 && j < k - 1 {
                        assert(q[i] == p[i] && q[j] == p[j]);
                    }
                }
                assert forall|i: int, j: int|
                    #![trigger p[i], p[j]]
                    0 <= i < p.len() && 0 <= j < p.len() implies blake256_of(p[i].0)
                        != blake256_of(p[j].1) by {
                    if i < k - 1 && j < k - 1 {
                        assert(q[i] == p[i] && q[j] == p[j]);
                    }
                }
            }
        }
        assert(pv.take(n as int) =~= pv);
        assert forall|i: int| 0 <= i < n implies #[trigger] fingerprints@[i]@ == blake256_of(
            certs@[i]@,
        ) by {
            assert(ids@[i]@ == pv[i].0);
        }
        assert(Seq::new(ids@.len(), |i: int| (ids@[i]@, certs@[i]@)) =~= pv);
        let t = CertTable { ids, certs, fingerprints, cert_index, id_index };
        assert(t@ =~= pv);
        Ok(t)
    }
}

impl CertTable {
    /// The identifier of a certificate whose fingerprint is that of `cert`.
    /// Only the bucket of that fingerprint is read.
    pub fn cert_to_identifier(&self, cert: &[u8]) -> (r: Option<Vec<u8>>)
        ensures
            match id_for_cert(self@, cert@) {
                Some(id) => r matches Some(v) && v@ == id,
                None => r is None,
            },
    {
        proof {
            use_type_invariant(self);
        }
        if cert.len() as u64 >= HASH_INPUT_LIMIT {
            return None;
        }
        let h = hash(cert);
        let key = bucket_key(h.as_slice());
        let ghost p = self@;
        let bucket = self.cert_index.bucket(key, Ghost(cert_keys(p)));
        let mut t: usize = 0;
        while t < bucket.len()
            invariant
                self.wf(),
                p == self@,
                t <= bucket@.len(),
                h@ == blake256_of(cert@),
                cert@.len() < HASH_INPUT_LIMIT,
                forall|s: int| 0 <= s < bucket@.len() ==> #[trigger] bucket@[s] < p.len(),
                forall|s: int|
                    #![trigger bucket@[s]]
                    0 <= s < t ==> blake256_of(p[bucket@[s] as int].1) != h@,
            decreases bucket@.len() - t,
        {
            let i = bucket[t];
            assert(i < p.len());
            assert(self.fingerprints@[i as int]@ == blake256_of(self.certs@[i as int]@));
            if bytes_equal(self.fingerprints[i].as_slice(), h.as_slice()) {
                assert(blake256_of(p[i as int].1) == blake256_of(cert@));
                assert(exists|k: int| 0 <= k < p.len() && blake256_of(p[k].1) == blake256_of(cert@));
                let ghost c = choose|k: int| 0 <= k < p.len() && blake256_of(p[k].1) == blake256_of(cert@);
                assert(c == i) by {
                    if c != i {
                        assert(blake256_of(p[c].1) != blake256_of(p[i as int].1));
                    }
                }
                let v = copy_bytes(self.ids[i].as_slice(), 0, self.ids[i].len());
                assert(v@ =~= p[i as int].0);
                return Some(v);
            }
            t = t + 1;
        }
        proof {
            if id_for_cert(p, cert@) is Some {
                let j = choose|j: int| 0 <= j < p.len() && blake256_of(p[j].1) == blake256_of(cert@);
                assert(p.len() == self.ids.len());
                assert(cert_keys(p)[j] == key);
                assert(bucket@.contains(j as usize));
                let s = choose|s: int| 0 <= s < bucket@.len() && bucket@[s] == j as usize;
                assert(blake256_of(p[bucket@[s] as int].1) != h@);
            }
        }
        None
    }

    /// The certificate that `id` names. Only the bucket of the fingerprint
    /// of `id` is read.
    pub fn id_to_cert(&self, id: &[u8]) -> (r: Option<Vec<u8>>)
        ensures
            match cert_for_id(self@, id@) {
                Some(c) => r matches Some(v) && v@ == c,
                None => r is None,
            },
    {
        proof {
            use_type_invariant(self);
        }
        let ghost p = self@;
        if id.len() as u64 >= HASH_INPUT_LIMIT {
            proof {
                if cert_for_id(p, id@) is Some {
                    let j = choose|j: int| 0 <= j < p.len() && p[j].0 == id@;
                    assert(p[j].1.len() < HASH_INPUT_LIMIT && p[j].0.len() < p[j].1.len());
                }
            }
            return None;
        }
        let h = hash(id);
        let key = bucket_key(h.as_slice());
        let bucket = self.id_index.bucket(key, Ghost(id_keys(p)));
        let mut t: usize = 0;
        while t < bucket.len()
            invariant
                self.wf(),
                p == self@,
                t <= bucket@.len(),
                forall|s: int| 0 <= s < bucket@.len() ==> #[trigger] bucket@[s] < p.len(),
                forall|s: int| #![trigger bucket@[s]] 0 <= s < t ==> p[bucket@[s] as int].0 != id@,
            decreases bucket@.len() - t,
        {
            let i = bucket[t];
            assert(i < p.len());
            if bytes_equal(self.ids[i].as_slice(), id) {
                assert(p[i as int].0 == id@);
                let ghost c = choose|k: int| 0 <= k < p.len() && p[k].0 == id@;
                assert(c == i) by {
                    if c != i {
                        assert(p[c].0 != p[i as int].0);
                    }
                }
                let v = copy_bytes(self.certs[i].as_slice(), 0, self.certs[i].len());
                assert(v@ =~= p[i as int].1);
                return Some(v);
            }
            t = t + 1;
        }
        proof {
            if cert_for_id(p, id@) is Some {
                let j = choose|j: int| 0 <= j < p.len() && p[j].0 == id@;
                assert(p.len() == self.ids.len());
                assert(id_keys(p)[j] == key);
                assert(bucket@.contains(j as usize));
                let s = choose|s: int| 0 <= s < bucket@.len() && bucket@[s] == j as usize;
                assert(p[bucket@[s] as int].0 != id@);
            }
        }
        None
    }
}

impl CertTable {
    /// The number of pairs.
    pub fn len(&self) -> (r: usize)
        ensures
            r == self@.len(),
    {
        proof {
            use_type_invariant(self);
        }
        self.ids.len()
    }

    /// The identifier of pair `i`.
    pub fn identifier(&self, i: usize) -> (r: Vec<u8>)
        requires
            i < self@.len(),
        ensures
            r@ == self@[i as int].0,
    {
        proof {
            use_type_invariant(self);
        }
        let r = copy_bytes(self.ids[i].as_slice(), 0, self.ids[i].len());
        assert(r@ =~= self@[i as int].0);
        r
    }

    /// The certificate of pair `i`.
    pub fn certificate(&self, i: usize) -> (r: Vec<u8>)
        requires
            i < self@.len(),
        ensures
            r@ == self@[i as int].1,
    {
        proof {
            use_type_invariant(self);
        }
        let r = copy_bytes(self.certs[i].as_slice(), 0, self.certs[i].len());
        assert(r@ =~= self@[i as int].1);
        r
    }

    /// The fingerprint of the certificate of pair `i`.
    pub fn fingerprint(&self, i: usize) -> (r: Vec<u8>)
        requires
            i < self@.len(),
        ensures
            r@ == blake256_of(self@[i as int].1),
    {
        proof {
            use_type_invariant(self);
        }
        let r = copy_bytes(self.fingerprints[i].as_slice(), 0, self.fingerprints[i].len());
        assert(r@ =~= self.fingerprints@[i as int]@);
        r
    }
}

/// A well-formed table's pairs make a table.
pub proof fn lemma_wf_pairs_ok(t: CertTable)
    requires
        t.wf(),
    ensures
        pairs_ok(t@),
{
}

/// A table maps both ways: an identifier names a certificate whose
/// fingerprint leads back to the identifier, and a certificate found by
/// fingerprint is named by an identifier whose certificate has that
/// fingerprint.
pub proof fn lemma_tables_agree(t: CertTable, id: Seq<u8>, cert: Seq<u8>)
    requires
        t.wf(),
    ensures
        cert_for_id(t@, id) == Some(cert) ==> id_for_cert(t@, cert) == Some(id),
        id_for_cert(t@, cert) == Some(id) ==> (cert_for_id(t@, id) matches Some(c)
            && blake256_of(c) == blake256_of(cert)),
{
    let p = t@;
    if cert_for_id(p, id) == Some(cert) {
        let i = choose|i: int| 0 <= i < p.len() && p[i].0 == id;
        assert(p[i].1 == cert);
        assert(cert.len() < HASH_INPUT_LIMIT);
        let k = choose|k: int| 0 <= k < p.len() && blake256_of(p[k].1) == blake256_of(cert);
        assert(k == i) by {
            if k != i {
                assert(blake256_of(p[k].1) != blake256_of(p[i].1));
            }
        }
    }
    if id_for_cert(p, cert) == Some(id) {
        let k = choose|k: int| 0 <= k < p.len() && blake256_of(p[k].1) == blake256_of(cert);
        assert(p[k].0 == id);
        let i = choose|i: int| 0 <= i < p.len() && p[i].0 == id;
        assert(i == k) by {
            if i != k {
                assert(p[i].0 != p[k].0);
            }
        }
    }
}

/// No identifier of a table is found as a certificate: identifiers and
/// certificates stay apart under both lookups.
pub proof fn lemma_identifier_not_a_certificate(t: CertTable, i: int)
    requires
        t.wf(),
        0 <= i < t@.len(),
    ensures
        id_for_cert(t@, t@[i].0) is None,
{
    let p = t@;
    if id_for_cert(p, p[i].0) is Some {
        let k = choose|k: int| 0 <= k < p.len() && blake256_of(p[k].1) == blake256_of(p[i].0);
        assert(blake256_of(p[i].0) != blake256_of(p[k].1));
    }
}

/// A table of no pairs has no buckets.
pub proof fn lemma_keys_of_empty()
    ensures
        forall|p: Pairs| p.len() == 0 ==> #[trigger] cert_keys(p) == Seq::<u64>::empty(),
        forall|p: Pairs| p.len() == 0 ==> #[trigger] id_keys(p) == Seq::<u64>::empty(),
{
    assert forall|p: Pairs| p.len() == 0 implies #[trigger] cert_keys(p) == Seq::<u64>::empty() by {
        assert(cert_keys(p) =~= Seq::<u64>::empty());
    }
    assert forall|p: Pairs| p.len() == 0 implies #[trigger] id_keys(p) == Seq::<u64>::empty() by {
        assert(id_keys(p) =~= Seq::<u64>::empty());
    }
}

/// The pairs bundled with the library. None are bundled: callers that
/// want substitution build their own table with `CertTable::new`.
pub open spec fn builtin_pairs() -> Pairs {
    Seq::empty()
}

/// The table of the bundled pairs.
pub fn builtin_table() -> (t: CertTable)
    ensures
        t@ == builtin_pairs(),
        t.wf(),
{
    let cert_index = BucketIndex::new();
    let id_index = BucketIndex::new();
    proof {
        lemma_keys_of_empty();
    }
    let t = CertTable {
        ids: Vec::new(),
        certs: Vec::new(),
        fingerprints: Vec::new(),
        cert_index,
        id_index,
    };
    assert(t@ =~= builtin_pairs());
    t
}

/// Looks `cert` up by fingerprint in the bundled table.
pub fn cert_to_identifier(cert: &[u8]) -> (r: Option<Vec<u8>>)
    ensures
        match id_for_cert(builtin_pairs(), cert@) {
            Some(id) => r matches Some(v) && v@ == id,
            None => r is None,
        },
{
    builtin_table().cert_to_identifier(cert)
}

/// Looks `id` up in the bundled table.
pub fn id_to_cert(id: &[u8]) -> (r: Option<Vec<u8>>)
    ensures
        match cert_for_id(builtin_pairs(), id@) {
            Some(c) => r matches Some(v) && v@ == c,
            None => r is None,
        },
{
    builtin_table().id_to_cert(id)
}

} // verus!
