//! Hashing, Merkle roots, and recovery of the address that signed a block.

use crate::bytes::{append_bytes, array_of, lemma_array_of_view, take_array, zero_array, zeroed};
use sha2::Digest;
use vstd::prelude::*;
use vstd::slice::{slice_subrange, slice_to_vec};

verus! {

/// The SHA-256 digest of `data`, as `sha2` computes it.
pub uninterp spec fn sha256(data: Seq<u8>) -> Seq<u8>;

/// The SHA-256 digest of `data` as a 32-byte array.
pub open spec fn digest_of(data: Seq<u8>) -> [u8; 32] {
    array_of::<32>(sha256(data))
}

/// Calls `sha2::Sha256::digest`. Trusted: the 32 bytes returned are the
/// digest that `sha256` names, the same for the same bytes.
#[verifier::external_body]
fn sha256_digest(data: &[u8]) -> (digest: [u8; 32])
    ensures
        digest@ == sha256(data@),
{
    sha2::Sha256::digest(data).into()
}

/// SHA-256 of `data`.
pub fn hash(data: &[u8]) -> (digest: [u8; 32])
    ensures
        digest@ == sha256(data@),
        digest == digest_of(data@),
{
    let digest = sha256_digest(data);
    proof {
        lemma_array_of_view(digest);
    }
    digest
}

/// The Keccak-256 digest of `data`, as `sha3` computes it.
pub uninterp spec fn keccak256(data: Seq<u8>) -> Seq<u8>;

/// Calls `sha3::Keccak256::digest`. Trusted: the 32 bytes returned are the
/// digest that `keccak256` names, the same for the same bytes.
#[verifier::external_body]
fn keccak256_digest(data: &[u8]) -> (digest: [u8; 32])
    ensures
        digest@ == keccak256(data@),
{
    sha3::Keccak256::digest(data).into()
}

/// The address that a Keccak-256 digest gives: its last 20 bytes.
pub open spec fn digest_address(digest: Seq<u8>) -> [u8; 20] {
    array_of::<20>(digest.subrange(12, 32))
}

/// The address of a public key: the last 20 bytes of its Keccak-256 digest.
pub open spec fn address_of(public_key: Seq<u8>) -> [u8; 20] {
    digest_address(keccak256(public_key))
}

/// Takes the address out of the Keccak-256 digest of a public key.
pub fn address_from_digest(digest: &[u8; 32]) -> (address: [u8; 20])
    ensures
        address@ == digest@.subrange(12, 32),
        address == digest_address(digest@),
{
    take_array::<20>(digest.as_slice(), 12)
}

/// Derives the address of an uncompressed public key, given as its 64
/// coordinate bytes without the leading tag.
pub fn public_key_to_address(public_key: &[u8]) -> (address: [u8; 20])
    ensures
        address@ == keccak256(public_key@).subrange(12, 32),
        address == address_of(public_key@),
{
    let digest = keccak256_digest(public_key);
    address_from_digest(&digest)
}

/// What `k256` makes of the 64 bytes `r || s` of a signature: `None` where
/// `Signature::from_slice` rejects them, `Some(None)` where `normalize_s`
/// finds `s` in the lower half of the curve order already, and
/// `Some(Some(bytes))` with the bytes of the signature that `normalize_s`
/// returns where it was in the upper half.
pub uninterp spec fn low_s_form(rs: Seq<u8>) -> Option<Option<Seq<u8>>>;

/// Calls `k256::ecdsa::Signature::normalize_s` on the signature that
/// `Signature::from_slice` makes of `rs`, and gives a normalized signature
/// as the bytes of `Signature::to_bytes`. Trusted: the outcome is the one
/// that `low_s_form` names, which depends on the bytes alone.
#[verifier::external_body]
fn normalize_s(rs: &[u8]) -> (form: Option<Option<Vec<u8>>>)
    ensures
        match form {
            None => low_s_form(rs@) is None,
            Some(None) => low_s_form(rs@) == Some(None::<Seq<u8>>),
            Some(Some(bytes)) => low_s_form(rs@) == Some(Some(bytes@)),
        },
{
    let signature = k256::ecdsa::Signature::from_slice(rs).ok()?;
    match signature.normalize_s() {
        Some(normalized) => Some(Some(normalized.to_bytes().to_vec())),
        None => Some(None),
    }
}

/// The SEC1 encoding, uncompressed, of the key that
/// `k256::ecdsa::VerifyingKey::recover_from_prehash` recovers from a message
/// digest, the 64 bytes `r || s` of a signature and a recovery id; `None`
/// where the signature or the id is rejected or no key is recovered.
pub uninterp spec fn recovered_point(prehash: Seq<u8>, rs: Seq<u8>, recovery_id: u8) -> Option<
    Seq<u8>,
>;

/// Calls `k256::ecdsa::VerifyingKey::recover_from_prehash` with the signature
/// that `Signature::from_slice` makes of `rs` and the recovery id that
/// `RecoveryId::from_byte` makes of `recovery_id`, and gives the key as the
/// bytes of `to_encoded_point(false)`. Trusted: the outcome is the one that
/// `recovered_point` names, which depends on the three arguments alone.
#[verifier::external_body]
fn recover_point(prehash: &[u8; 32], rs: &[u8], recovery_id: u8) -> (point: Option<Vec<u8>>)
    ensures
        match point {
            Some(bytes) => recovered_point(prehash@, rs@, recovery_id) == Some(bytes@),
            None => recovered_point(prehash@, rs@, recovery_id) is None,
        },
{
    let signature = k256::ecdsa::Signature::from_slice(rs).ok()?;
    let id = k256::ecdsa::RecoveryId::from_byte(recovery_id)?;
    let key = k256::ecdsa::VerifyingKey::recover_from_prehash(prehash, &signature, id).ok()?;
    Some(key.to_encoded_point(false).as_bytes().to_vec())
}

/// What is handed to the recovery of a key, for a signature `r || s || v` and
/// the low form of its `r || s`, if they had to be brought into it: the 64
/// bytes to recover from, and the recovery id. Where `s` was in the upper
/// half of the curve order, the low form stands for `r || s` and the low bit
/// of `v` is flipped.
pub open spec fn recovery_request(sig: Seq<u8>, low_form: Option<Seq<u8>>) -> (Seq<u8>, u8)
    recommends
        sig.len() >= 65,
{
    match low_form {
        Some(normalized) => (normalized, sig[64] ^ 1),
        None => (sig.subrange(0, 64), sig[64]),
    }
}

/// The 64 coordinate bytes of a key in its uncompressed encoding of 65
/// bytes: all but the leading tag. `None` for any other length.
pub open spec fn key_of_point(point: Seq<u8>) -> Option<Seq<u8>> {
    if point.len() == 65 {
        Some(point.subrange(1, 65))
    } else {
        None
    }
}

/// The public key that signed `msg_hash`, as 64 coordinate bytes.
///
/// `sig` holds `r || s || v`; bytes after the 65th are ignored. A signature
/// with `s` in the upper half of the curve order is replaced by its low form
/// and the low bit of `v` flipped before the key is recovered. `None` for a
/// signature that is too short, is rejected, or recovers no key.
pub open spec fn recovered_key(sig: Seq<u8>, msg_hash: [u8; 32]) -> Option<Seq<u8>> {
    if sig.len() < 65 {
        None
    } else {
        match low_s_form(sig.subrange(0, 64)) {
            None => None,
            Some(low_form) => {
                let request = recovery_request(sig, low_form);
                match recovered_point(msg_hash@, request.0, request.1) {
                    Some(point) => key_of_point(point),
                    None => None,
                }
            },
        }
    }
}

/// Decides what is handed to the recovery of a key.
pub fn make_recovery_request(sig: &[u8], low_form: Option<Vec<u8>>) -> (request: (Vec<u8>, u8))
    requires
        sig.len() >= 65,
    ensures
        request.0@ == recovery_request(sig@, option_view(low_form)).0,
        request.1 == recovery_request(sig@, option_view(low_form)).1,
{
    match low_form {
        Some(normalized) => (normalized, sig[64] ^ 1),
        None => (slice_to_vec(slice_subrange(sig, 0, 64)), sig[64]),
    }
}

/// The bytes of an optional byte string.
pub open spec fn option_view(bytes: Option<Vec<u8>>) -> Option<Seq<u8>> {
    match bytes {
        Some(b) => Some(b@),
        None => None,
    }
}

/// Takes the coordinate bytes out of the uncompressed encoding of a key.
pub fn strip_point_tag(point: &[u8]) -> (key: Option<Vec<u8>>)
    ensures
        option_view(key) == key_of_point(point@),
{
    if point.len() == 65 {
        Some(slice_to_vec(slice_subrange(point, 1, 65)))
    } else {
        None
    }
}

/// Recovers the public key that signed `msg_hash`.
pub fn recover_public_key(sig: &[u8], msg_hash: [u8; 32]) -> (key: Option<Vec<u8>>)
    ensures
        option_view(key) == recovered_key(sig@, msg_hash),
{
    if sig.len() < 65 {
        return None;
    }
    let low_form = match normalize_s(slice_subrange(sig, 0, 64)) {
        None => {
            return None;
        },
        Some(low_form) => low_form,
    };
    let (rs, v) = make_recovery_request(sig, low_form);
    match recover_point(&msg_hash, rs.as_slice(), v) {
        Some(point) => strip_point_tag(point.as_slice()),
        None => None,
    }
}

/// The address that signed `msg_hash`, where a key can be recovered.
pub open spec fn signer_of(sig: Seq<u8>, msg_hash: [u8; 32]) -> Option<[u8; 20]> {
    match recovered_key(sig, msg_hash) {
        Some(key) => Some(address_of(key)),
        None => None,
    }
}

/// The parent of two nodes of a Merkle tree: the digest of the left node
/// followed by the right one.
pub open spec fn combine(left: [u8; 32], right: [u8; 32]) -> [u8; 32] {
    digest_of(left@ + right@)
}

/// One level up in the tree: neighbours are combined pairwise, and a last node
/// without a neighbour moves up unchanged.
pub open spec fn merkle_level(level: Seq<[u8; 32]>) -> Seq<[u8; 32]> {
    Seq::new(
        ((level.len() + 1) / 2) as nat,
        |i: int|
            if 2 * i + 1 < level.len() {
                combine(level[2 * i], level[2 * i + 1])
            } else {
                level[2 * i]
            },
    )
}

/// The root of the binary Merkle tree over `leaves`: 32 zero bytes for no
/// leaves, the leaf itself for one, else the root of the level above.
pub open spec fn merkle_root(leaves: Seq<[u8; 32]>) -> [u8; 32]
    decreases leaves.len(),
{
    if leaves.len() == 0 {
        zero_array::<32>()
    } else if leaves.len() == 1 {
        leaves[0]
    } else {
        merkle_root(merkle_level(leaves))
    }
}

/// Combines two tree nodes into their parent.
pub fn combine_hashes(left: [u8; 32], right: [u8; 32]) -> (parent: [u8; 32])
    ensures
        parent == combine(left, right),
{
    let mut combined: Vec<u8> = Vec::new();
    append_bytes(&mut combined, left.as_slice());
    append_bytes(&mut combined, right.as_slice());
    assert(combined@ =~= left@ + right@);
    hash(combined.as_slice())
}

/// Computes the Merkle root of `leaves`.
pub fn create_merkle_tree(leaves: &[[u8; 32]]) -> (root: [u8; 32])
    ensures
        root == merkle_root(leaves@),
{
    if leaves.len() == 0 {
        return zeroed::<32>();
    }
    let mut current: Vec<[u8; 32]> = Vec::new();
    let mut k: usize = 0;
    while k < leaves.len()
        invariant
            k <= leaves.len(),
            current@ == leaves@.subrange(0, k as int),
        decreases leaves.len() - k,
    {
        current.push(leaves[k]);
        k += 1;
        assert(current@ =~= leaves@.subrange(0, k as int));
    }
    assert(current@ =~= leaves@);
    while current.len() > 1
        invariant
            current.len() >= 1,
            merkle_root(current@) == merkle_root(leaves@),
        decreases current.len(),
    {
        let mut next: Vec<[u8; 32]> = Vec::new();
        let pairs: usize = current.len() / 2;
        let mut p: usize = 0;
        while p < pairs
            invariant
                p <= pairs,
                pairs == current.len() / 2,
                next.len() == p,
                forall|j: int| 0 <= j < p ==> next@[j] == merkle_level(current@)[j],
            decreases pairs - p,
        {
            next.push(combine_hashes(current[2 * p], current[2 * p + 1]));
            p += 1;
        }
        if current.len() % 2 == 1 {
            next.push(current[current.len() - 1]);
        }
        assert(next@ =~= merkle_level(current@));
        current = next;
    }
    current[0]
}

/// The root over a single leaf is that leaf.
pub proof fn lemma_merkle_root_single(leaf: [u8; 32])
    ensures
        merkle_root(seq![leaf]) == leaf,
{
}

/// The root over no leaves is 32 zero bytes.
pub proof fn lemma_merkle_root_empty()
    ensures
        merkle_root(Seq::<[u8; 32]>::empty()) == zero_array::<32>(),
{
}

/// The root over two leaves is their parent.
pub proof fn lemma_merkle_root_pair(left: [u8; 32], right: [u8; 32])
    ensures
        merkle_root(seq![left, right]) == combine(left, right),
{
    let level = merkle_level(seq![left, right]);
    assert(level =~= seq![combine(left, right)]);
    assert(merkle_root(level) == level[0]);
}

} // verus!
