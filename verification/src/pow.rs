//! Proof of work: a brute-force nonce search over the SHA3-256 digest of
//! `data ++ little-endian(nonce)`. Difficulty is counted in leading zero
//! bytes of the digest: a digest passes iff at least `difficulty` of its
//! leading bytes are zero.

use vstd::prelude::*;
use vstd::bytes::{spec_u64_to_le_bytes, u64_to_le_bytes};
use crate::hashing::{sha3_256_digest, sha3_256_of};

verus! {

/// How many leading zero bytes a byte sequence has.
pub open spec fn spec_leading_zero_bytes(s: Seq<u8>) -> nat
    decreases s.len(),
{
    if s.len() == 0 || s.first() != 0 {
        0
    } else {
        1 + spec_leading_zero_bytes(s.drop_first())
    }
}

/// The difficulty predicate on a digest.
pub open spec fn spec_pow_ok(difficulty: u64, digest: Seq<u8>) -> bool {
    spec_leading_zero_bytes(digest) >= difficulty
}

/// The digest the search is over: SHA3-256 of the data followed by the
/// nonce's eight little-endian bytes.
pub open spec fn spec_pow_digest(data: Seq<u8>, nonce: u64) -> Seq<u8> {
    sha3_256_of(data + spec_u64_to_le_bytes(nonce))
}

proof fn lemma_leading_zero_bytes_at(s: Seq<u8>, i: int)
    requires
        0 <= i <= s.len(),
        forall|j: int| 0 <= j < i ==> s[j] == 0,
        i < s.len() ==> s[i] != 0,
    ensures
        spec_leading_zero_bytes(s) == i,
    decreases i,
{
    if i == 0 {
    } else {
        assert(s.first() == 0);
        lemma_leading_zero_bytes_at(s.drop_first(), i - 1);
    }
}

pub struct ProofOfWork {
    pub difficulty: u64,
}

impl ProofOfWork {
    pub fn new(difficulty: u64) -> (p: ProofOfWork)
        ensures
            p.difficulty == difficulty,
    {
        ProofOfWork { difficulty }
    }

    /// Whether a digest has at least `difficulty` leading zero bytes.
    pub fn check_difficulty(digest: &Vec<u8>, difficulty: u64) -> (r: bool)
        ensures
            r == spec_pow_ok(difficulty, digest@),
    {
        let n = digest.len();
        let mut i: usize = 0;
        while i < n && digest[i] == 0
            invariant
                n == digest@.len(),
                i <= n,
                forall|j: int| 0 <= j < i ==> digest@[j] == 0,
            decreases n - i,
        {
            i = i + 1;
        }
        proof {
            lemma_leading_zero_bytes_at(digest@, i as int);
        }
        (i as u64) >= difficulty
    }

    /// The search digest for the given data and nonce.
    pub fn digest(&self, data: &[u8], nonce: u64) -> (r: Vec<u8>)
        ensures
            r@ == spec_pow_digest(data@, nonce),
            r@.len() == 32,
    {
        let mut input: Vec<u8> = Vec::new();
        let n = data.len();
        let mut i: usize = 0;
        while i < n
            invariant
                n == data@.len(),
                i <= n,
                input@ == data@.subrange(0, i as int),
            decreases n - i,
        {
            input.push(data[i]);
            assert(data@.subrange(0, i as int).push(data@[i as int]) =~= data@.subrange(0, i + 1));
            i = i + 1;
        }
        assert(data@.subrange(0, n as int) =~= data@);
        let le = u64_to_le_bytes(nonce);
        let m = le.len();
        let mut k: usize = 0;
        while k < m
            invariant
                m == le@.len(),
                k <= m,
                input@ == data@ + le@.subrange(0, k as int),
            decreases m - k,
        {
            input.push(le[k]);
            assert((data@ + le@.subrange(0, k as int)).push(le@[k as int]) =~= data@
                + le@.subrange(0, k + 1));
            k = k + 1;
        }
        assert(data@ + le@.subrange(0, m as int) =~= data@ + le@);
        sha3_256_digest(input.as_slice())
    }

    /// Searches nonces from zero upward and returns the first one whose
    /// digest meets the difficulty; none if no nonce at all meets it.
    pub fn run(&self, data: &[u8]) -> (r: Option<u64>)
        ensures
            r matches Some(n) ==> spec_pow_ok(self.difficulty, spec_pow_digest(data@, n))
                && forall|m: u64| m < n ==> !spec_pow_ok(
                self.difficulty,
                spec_pow_digest(data@, m),
            ),
            r is None ==> forall|m: u64| !spec_pow_ok(self.difficulty, spec_pow_digest(data@, m)),
    {
        let mut nonce: u64 = 0;
        loop
            invariant
                forall|m: u64| m < nonce ==> !spec_pow_ok(
                    self.difficulty,
                    spec_pow_digest(data@, m),
                ),
            decreases u64::MAX - nonce,
        {
            let digest = self.digest(data, nonce);
            if Self::check_difficulty(&digest, self.difficulty) {
                return Some(nonce);
            }
            if nonce == u64::MAX {
                assert forall|m: u64| !spec_pow_ok(
                    self.difficulty,
                    spec_pow_digest(data@, m),
                ) by {
                    assert(m < u64::MAX || m == u64::MAX);
                }
                return None;
            }
            nonce = nonce + 1;
        }
    }

    /// Recomputes the digest for the given nonce and re-applies the
    /// difficulty predicate.
    pub fn validate(&self, data: &[u8], nonce: u64) -> (r: bool)
        ensures
            r == spec_pow_ok(self.difficulty, spec_pow_digest(data@, nonce)),
    {
        let digest = self.digest(data, nonce);
        Self::check_difficulty(&digest, self.difficulty)
    }
}

} // verus!
