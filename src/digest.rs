//! Digests, hash parameters and the two-to-one node hash.
use curve25519_dalek::scalar::Scalar;
use sha2::Sha512;
use vstd::prelude::*;

verus! {

/// Canonical 32-byte encoding of a field element: a leaf value or a node hash.
#[derive(Clone, Copy, Debug, PartialEq, Eq)]
pub struct Digest {
    pub bytes: [u8; 32],
}

impl View for Digest {
    type V = Seq<u8>;

    open spec fn view(&self) -> Seq<u8> {
        self.bytes@
    }
}

/// The canonical encoding of the field element zero: the empty leaf.
pub open spec fn empty_leaf() -> Seq<u8> {
    Seq::new(32, |i: int| 0u8)
}

impl Digest {
    pub fn from_bytes(bytes: [u8; 32]) -> (r: Digest)
        ensures
            r@ == bytes@,
    {
        Digest { bytes }
    }

    /// The empty leaf value.
    pub fn zero() -> (r: Digest)
        ensures
            r@ == empty_leaf(),
    {
        let r = Digest { bytes: [0u8; 32] };
        assert(r@ =~= empty_leaf());
        r
    }

    /// Byte-wise equality of two digests.
    pub fn same_as(&self, other: &Digest) -> (r: bool)
        ensures
            r == (self@ == other@),
    {
        let mut i: usize = 0;
        while i < 32
            invariant
                0 <= i <= 32,
                self@.len() == 32,
                other@.len() == 32,
                forall|j: int| 0 <= j < i ==> self@[j] == other@[j],
            decreases 32 - i,
        {
            if self.bytes[i] != other.bytes[i] {
                return false;
            }
            i = i + 1;
        }
        assert(self@ =~= other@);
        true
    }
}

/// Configuration of the node hash: a domain-separation prefix that is
/// absorbed before every pair of children.
pub struct HashParams {
    domain: Vec<u8>,
}

impl View for HashParams {
    type V = Seq<u8>;

    closed spec fn view(&self) -> Seq<u8> {
        self.domain@
    }
}

impl HashParams {
    pub fn new(domain: Vec<u8>) -> (r: HashParams)
        ensures
            r@ == domain@,
    {
        HashParams { domain }
    }

    /// The node hash of the ordered pair `(left, right)` under these parameters.
    pub fn hash_pair(&self, left: &Digest, right: &Digest) -> (r: Digest)
        ensures
            r@ == node_hash(self@, left@, right@),
    {
        let mut msg: Vec<u8> = Vec::new();
        let mut i: usize = 0;
        while i < self.domain.len()
            invariant
                0 <= i <= self.domain@.len(),
                msg@ == self.domain@.subrange(0, i as int),
            decreases self.domain@.len() - i,
        {
            msg.push(self.domain[i]);
            i = i + 1;
            assert(msg@ =~= self.domain@.subrange(0, i as int));
        }
        assert(msg@ =~= self@);
        push_digest(&mut msg, left);
        push_digest(&mut msg, right);
        Digest { bytes: scalar_from_sha512(msg.as_slice()) }
    }
}

fn push_digest(msg: &mut Vec<u8>, d: &Digest)
    ensures
        final(msg)@ == old(msg)@ + d@,
{
    let ghost start = msg@;
    let mut i: usize = 0;
    while i < 32
        invariant
            0 <= i <= 32,
            d@.len() == 32,
            msg@ == start + d@.subrange(0, i as int),
        decreases 32 - i,
    {
        msg.push(d.bytes[i]);
        i = i + 1;
        assert(msg@ =~= start + d@.subrange(0, i as int));
    }
    assert(d@.subrange(0, 32) =~= d@);
}

/// Canonical encoding of the scalar that SHA-512 of `msg` reduces to.
pub uninterp spec fn sha512_scalar(msg: Seq<u8>) -> Seq<u8>;

/// The node hash: the message is the domain prefix followed by both children.
pub open spec fn node_hash(domain: Seq<u8>, left: Seq<u8>, right: Seq<u8>) -> Seq<u8> {
    sha512_scalar(domain + left + right)
}

/// Relies on curve25519_dalek's `Scalar::hash_from_bytes::<Sha512>` and
/// `Scalar::to_bytes`: a 32-byte canonical encoding that depends on the
/// message alone.
#[verifier::external_body]
fn scalar_from_sha512(msg: &[u8]) -> (r: [u8; 32])
    ensures
        r@ == sha512_scalar(msg@),
{
    Scalar::hash_from_bytes::<Sha512>(msg).to_bytes()
}

} // verus!
