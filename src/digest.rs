//! Digest algorithms and page hashing.
use crate::error::AppleCodesignError;
use vstd::prelude::*;

verus! {

/// A content digest algorithm, as tagged in a Code Directory.
#[derive(Clone, Copy, Debug, PartialEq, Eq, Structural, Hash)]
pub enum DigestType {
    NoHash,
    Sha1,
    Sha256,
    Sha256Truncated,
    Sha384,
    Sha512,
}

impl Default for DigestType {
    fn default() -> (r: DigestType)
        ensures
            r == DigestType::Sha256,
    {
        DigestType::Sha256
    }
}

impl DigestType {
    /// The tag that a Code Directory stores for this algorithm.
    pub open spec fn spec_tag(self) -> u8 {
        match self {
            DigestType::NoHash => 0,
            DigestType::Sha1 => 1,
            DigestType::Sha256 => 2,
            DigestType::Sha256Truncated => 3,
            DigestType::Sha384 => 4,
            DigestType::Sha512 => 5,
        }
    }

    /// The width in bytes of this algorithm's digests; none for `None`.
    pub open spec fn spec_hash_len(self) -> Option<nat> {
        match self {
            DigestType::NoHash => None,
            DigestType::Sha1 => Some(20),
            DigestType::Sha256 => Some(32),
            DigestType::Sha256Truncated => Some(20),
            DigestType::Sha384 => Some(48),
            DigestType::Sha512 => Some(64),
        }
    }

    /// The tag that a Code Directory stores for this algorithm.
    pub fn tag(&self) -> (r: u8)
        ensures
            r == self.spec_tag(),
    {
        match self {
            DigestType::NoHash => 0,
            DigestType::Sha1 => 1,
            DigestType::Sha256 => 2,
            DigestType::Sha256Truncated => 3,
            DigestType::Sha384 => 4,
            DigestType::Sha512 => 5,
        }
    }

    /// The algorithm that a Code Directory tag names.
    pub fn from_tag(tag: u8) -> (r: Option<DigestType>)
        ensures
            r is Some <==> tag <= 5,
            r is Some ==> r->0.spec_tag() == tag,
    {
        match tag {
            0 => Some(DigestType::NoHash),
            1 => Some(DigestType::Sha1),
            2 => Some(DigestType::Sha256),
            3 => Some(DigestType::Sha256Truncated),
            4 => Some(DigestType::Sha384),
            5 => Some(DigestType::Sha512),
            _ => None,
        }
    }

    /// The width in bytes of this algorithm's digests.
    pub fn hash_len(&self) -> (r: Option<usize>)
        ensures
            r is Some == self.spec_hash_len() is Some,
            r is Some ==> r->0 as nat == self.spec_hash_len()->0,
    {
        match self {
            DigestType::NoHash => None,
            DigestType::Sha1 => Some(20),
            DigestType::Sha256 => Some(32),
            DigestType::Sha256Truncated => Some(20),
            DigestType::Sha384 => Some(48),
            DigestType::Sha512 => Some(64),
        }
    }
}


/// The SHA-1 digest of a byte string.
pub uninterp spec fn sha1_of(data: Seq<u8>) -> Seq<u8>;

/// The SHA-256 digest of a byte string.
pub uninterp spec fn sha256_of(data: Seq<u8>) -> Seq<u8>;

/// The SHA-384 digest of a byte string.
pub uninterp spec fn sha384_of(data: Seq<u8>) -> Seq<u8>;

/// The SHA-512 digest of a byte string.
pub uninterp spec fn sha512_of(data: Seq<u8>) -> Seq<u8>;

/// Relies on `ring::digest::digest` with `SHA1_FOR_LEGACY_USE_ONLY`: a
/// 20-byte digest that depends on the data alone.
#[verifier::external_body]
fn ring_sha1(data: &[u8]) -> (r: Vec<u8>)
    ensures
        r@ == sha1_of(data@),
        r@.len() == 20,
{
    ring::digest::digest(&ring::digest::SHA1_FOR_LEGACY_USE_ONLY, data).as_ref().to_vec()
}

/// Relies on `ring::digest::digest` with `SHA256`: a 32-byte digest that
/// depends on the data alone.
#[verifier::external_body]
fn ring_sha256(data: &[u8]) -> (r: Vec<u8>)
    ensures
        r@ == sha256_of(data@),
        r@.len() == 32,
{
    ring::digest::digest(&ring::digest::SHA256, data).as_ref().to_vec()
}

/// Relies on `ring::digest::digest` with `SHA384`: a 48-byte digest that
/// depends on the data alone.
#[verifier::external_body]
fn ring_sha384(data: &[u8]) -> (r: Vec<u8>)
    ensures
        r@ == sha384_of(data@),
        r@.len() == 48,
{
    ring::digest::digest(&ring::digest::SHA384, data).as_ref().to_vec()
}

/// Relies on `ring::digest::digest` with `SHA512`: a 64-byte digest that
/// depends on the data alone.
#[verifier::external_body]
fn ring_sha512(data: &[u8]) -> (r: Vec<u8>)
    ensures
        r@ == sha512_of(data@),
        r@.len() == 64,
{
    ring::digest::digest(&ring::digest::SHA512, data).as_ref().to_vec()
}

/// The digest of `data` under an algorithm; none for `NoHash`. The
/// truncated SHA-256 keeps the first 20 bytes.
pub open spec fn spec_digest(t: DigestType, data: Seq<u8>) -> Option<Seq<u8>> {
    match t {
        DigestType::NoHash => None,
        DigestType::Sha1 => Some(sha1_of(data)),
        DigestType::Sha256 => Some(sha256_of(data)),
        DigestType::Sha256Truncated => Some(sha256_of(data).subrange(0, 20)),
        DigestType::Sha384 => Some(sha384_of(data)),
        DigestType::Sha512 => Some(sha512_of(data)),
    }
}

/// Digests `data`.
pub fn digest(t: DigestType, data: &[u8]) -> (r: Result<Vec<u8>, AppleCodesignError>)
    ensures
        match spec_digest(t, data@) {
            Some(h) => r is Ok && r->Ok_0@ == h && h.len() == t.spec_hash_len()->0,
            None => r == Err::<Vec<u8>, _>(AppleCodesignError::DigestUnsupported),
        },
{
    match t {
        DigestType::NoHash => Err(AppleCodesignError::DigestUnsupported),
        DigestType::Sha1 => Ok(ring_sha1(data)),
        DigestType::Sha256 => Ok(ring_sha256(data)),
        DigestType::Sha256Truncated => {
            let full = ring_sha256(data);
            let mut r: Vec<u8> = Vec::new();
            r.extend_from_slice(&full.as_slice()[0..20]);
            assert(r@ =~= sha256_of(data@).subrange(0, 20));
            Ok(r)
        },
        DigestType::Sha384 => Ok(ring_sha384(data)),
        DigestType::Sha512 => Ok(ring_sha512(data)),
    }
}

/// Number of pages of `page` bytes that cover `limit` bytes.
pub open spec fn page_count(limit: nat, page: nat) -> nat {
    if page == 0 {
        0
    } else {
        ((limit + page - 1) / (page as int)) as nat
    }
}

/// Start of page `i`.
pub open spec fn page_start(i: int, page: nat) -> int {
    i * page
}

/// End of page `i`: a page length later, or `limit` for the last page.
pub open spec fn page_end(i: int, page: nat, limit: nat) -> int {
    if (i + 1) * page < limit {
        (i + 1) * page
    } else {
        limit as int
    }
}

/// One digest per page of `d[0..limit)`.
pub open spec fn page_hashes(t: DigestType, d: Seq<u8>, limit: nat, page: nat) -> Seq<Seq<u8>> {
    Seq::new(
        page_count(limit, page),
        |i: int| spec_digest(t, d.subrange(page_start(i, page), page_end(i, page, limit)))->0,
    )
}

/// Computes one digest per page of `data[0..limit)`; the last page may be
/// short.
pub fn compute_code_hashes(data: &[u8], limit: usize, page_size: usize, t: DigestType) -> (r: Result<
    Vec<Vec<u8>>,
    AppleCodesignError,
>)
    requires
        limit <= data@.len(),
        page_size > 0,
    ensures
        t == DigestType::NoHash && limit > 0 ==> r == Err::<Vec<Vec<u8>>, _>(
            AppleCodesignError::DigestUnsupported,
        ),
        t != DigestType::NoHash || limit == 0 ==> r is Ok,
        r matches Ok(v) ==> Seq::new(v@.len(), |i: int| v@[i]@) == page_hashes(
            t,
            data@,
            limit as nat,
            page_size as nat,
        ),
        r matches Ok(v) ==> forall|i: int|
            0 <= i < v@.len() ==> (#[trigger] v@[i])@.len() == t.spec_hash_len()->0,
{
    let mut out: Vec<Vec<u8>> = Vec::new();
    let mut start: usize = 0;
    let ghost page = page_size as nat;
    proof {
        lemma_pages_cover(limit as nat, page);
    }
    while start < limit
        invariant
            page == page_size as nat,
            limit <= data@.len(),
            page_size > 0,
            start <= limit,
            start == out@.len() * page_size || start == limit,
            start < limit ==> start == out@.len() * page_size,
            start == limit ==> out@.len() == page_count(limit as nat, page),
            start < limit ==> out@.len() < page_count(limit as nat, page),
            t != DigestType::NoHash || out@.len() == 0,
            forall|i: int|
                0 <= i < out@.len() ==> (#[trigger] out@[i])@.len() == t.spec_hash_len()->0,
            forall|i: int|
                0 <= i < out@.len() ==> (#[trigger] out@[i])@ == spec_digest(
                    t,
                    data@.subrange(page_start(i, page), page_end(i, page, limit as nat)),
                )->0,
        decreases limit - start,
    {
        let i = out.len();
        let end: usize = if page_size < limit - start {
            start + page_size
        } else {
            limit
        };
        proof {
            lemma_page_step(i as int, page, limit as nat, start as int);
        }
        let h = digest(t, &data[start..end])?;
        out.push(h);
        start = end;
    }
    proof {
        if limit == 0 {
            assert(page_count(0, page) == 0) by (nonlinear_arith)
                requires
                    page > 0,
            ;
        }
    }
    assert(Seq::new(out@.len(), |i: int| out@[i]@) =~= page_hashes(
        t,
        data@,
        limit as nat,
        page_size as nat,
    ));
    Ok(out)
}

proof fn lemma_page_step(i: int, page: nat, limit: nat, start: int)
    requires
        page > 0,
        0 <= i,
        start == i * page,
        start < limit,
    ensures
        page_start(i, page) == start,
        page_end(i, page, limit) == if page < limit - start {
            start + page
        } else {
            limit as int
        },
        i < page_count(limit, page),
        (page < limit - start) ==> i + 1 < page_count(limit, page),
        !(page < limit - start) ==> i + 1 == page_count(limit, page),
        (i + 1) * page == start + page,
{
    assert((i + 1) * page == i * page + page) by (nonlinear_arith);
    let c = page_count(limit, page) as int;
    assert(c == (limit + page - 1) / (page as int));
    if page < limit - start {
        assert(i + 1 < c) by (nonlinear_arith)
            requires
                (i + 1) * page < limit,
                c == (limit + page - 1) / (page as int),
                page > 0,
                i >= 0,
        ;
    } else {
        assert(i + 1 == c) by (nonlinear_arith)
            requires
                i * page < limit,
                limit <= (i + 1) * page,
                c == (limit + page - 1) / (page as int),
                page > 0,
                i >= 0,
        ;
    }
}

/// Pages cover the hashed range exactly: every byte before `limit` lies in
/// exactly one page, pages are contiguous, and the last ends at `limit`.
pub proof fn lemma_pages_cover(limit: nat, page: nat)
    requires
        page > 0,
    ensures
        limit == 0 <==> page_count(limit, page) == 0,
        forall|i: int|
            0 <= i < page_count(limit, page) ==> page_start(i, page) < #[trigger] page_end(
                i,
                page,
                limit,
            ) && page_end(i, page, limit) - page_start(i, page) <= page,
        forall|i: int|
            0 <= i < page_count(limit, page) - 1 ==> #[trigger] page_end(i, page, limit)
                == page_start(i + 1, page),
        page_count(limit, page) > 0 ==> page_end(page_count(limit, page) - 1, page, limit) == limit,
{
    let c = page_count(limit, page) as int;
    assert(c == (limit + page - 1) / (page as int));
    assert(limit == 0 <==> c == 0) by (nonlinear_arith)
        requires
            c == (limit + page - 1) / (page as int),
            page > 0,
    ;
    assert forall|i: int| 0 <= i < c implies page_start(i, page) < #[trigger] page_end(i, page, limit)
        && page_end(i, page, limit) - page_start(i, page) <= page by {
        assert(i * page < limit) by (nonlinear_arith)
            requires
                0 <= i < c,
                c == (limit + page - 1) / (page as int),
                page > 0,
        ;
        assert((i + 1) * page == i * page + page) by (nonlinear_arith);
    }
    assert forall|i: int| 0 <= i < c - 1 implies #[trigger] page_end(i, page, limit) == page_start(
        i + 1,
        page,
    ) by {
        assert((i + 1) * page < limit) by (nonlinear_arith)
            requires
                0 <= i < c - 1,
                c == (limit + page - 1) / (page as int),
                page > 0,
        ;
    }
    if c > 0 {
        assert(limit <= c * page) by (nonlinear_arith)
            requires
                c == (limit + page - 1) / (page as int),
                page > 0,
        ;
    }
}


/// A change confined to page `k` leaves every other page's digest as it was.
pub proof fn lemma_page_locality(
    t: DigestType,
    d1: Seq<u8>,
    d2: Seq<u8>,
    limit: nat,
    page: nat,
    k: int,
)
    requires
        page > 0,
        limit <= d1.len(),
        limit <= d2.len(),
        forall|i: int|
            0 <= i < limit && !(k * page <= i < (k + 1) * page) ==> #[trigger] d1[i] == d2[i],
    ensures
        forall|j: int|
            0 <= j < page_count(limit, page) && j != k ==> #[trigger] page_hashes(t, d1, limit, page)[j]
                == page_hashes(t, d2, limit, page)[j],
{
    lemma_pages_cover(limit, page);
    assert forall|j: int| 0 <= j < page_count(limit, page) && j != k implies #[trigger] page_hashes(
        t,
        d1,
        limit,
        page,
    )[j] == page_hashes(t, d2, limit, page)[j] by {
        let a = page_start(j, page);
        let b = page_end(j, page, limit);
        assert(a < b && b - a <= page);
        assert(0 <= a) by (nonlinear_arith)
            requires
                a == j * page,
                j >= 0,
        ;
        if j < k {
            assert((j + 1) * page <= k * page) by (nonlinear_arith)
                requires
                    j + 1 <= k,
                    page > 0,
            ;
        } else {
            assert((k + 1) * page <= j * page) by (nonlinear_arith)
                requires
                    k + 1 <= j,
                    page > 0,
            ;
        }
        assert(b <= (j + 1) * page);
        assert((j + 1) * page == j * page + page) by (nonlinear_arith);
        assert(d1.subrange(a, b) =~= d2.subrange(a, b));
    }
}

} // verus!
