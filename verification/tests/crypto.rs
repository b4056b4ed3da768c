use k256::ecdsa::{RecoveryId, Signature, SigningKey};
use sha2::{Digest, Sha256};
use untron_program::crypto::{
    address_from_digest, combine_hashes, create_merkle_tree, hash, make_recovery_request,
    public_key_to_address, recover_public_key, strip_point_tag,
};

fn signing_key(seed: u8) -> SigningKey {
    let mut bytes = [0u8; 32];
    bytes[31] = seed;
    SigningKey::from_slice(&bytes).unwrap()
}

fn public_key_bytes(key: &SigningKey) -> Vec<u8> {
    key.verifying_key().to_encoded_point(false).as_bytes()[1..].to_vec()
}

fn signature_bytes(signature: &Signature, id: RecoveryId) -> Vec<u8> {
    let mut bytes = signature.to_bytes().to_vec();
    bytes.push(id.to_byte());
    bytes
}

fn sha256(data: &[u8]) -> [u8; 32] {
    Sha256::digest(data).into()
}

#[test]
fn sha256_of_abc() {
    let expected: [u8; 32] = [
        0xba, 0x78, 0x16, 0xbf, 0x8f, 0x01, 0xcf, 0xea, 0x41, 0x41, 0x40, 0xde, 0x5d, 0xae, 0x22,
        0x23, 0xb0, 0x03, 0x61, 0xa3, 0x96, 0x17, 0x7a, 0x9c, 0xb4, 0x10, 0xff, 0x61, 0xf2, 0x00,
        0x15, 0xad,
    ];
    assert_eq!(hash(b"abc"), expected);
}

#[test]
fn sha256_of_nothing() {
    let expected: [u8; 32] = [
        0xe3, 0xb0, 0xc4, 0x42, 0x98, 0xfc, 0x1c, 0x14, 0x9a, 0xfb, 0xf4, 0xc8, 0x99, 0x6f, 0xb9,
        0x24, 0x27, 0xae, 0x41, 0xe4, 0x64, 0x9b, 0x93, 0x4c, 0xa4, 0x95, 0x99, 0x1b, 0x78, 0x52,
        0xb8, 0x55,
    ];
    assert_eq!(hash(&[]), expected);
}

#[test]
fn address_of_the_generator_key() {
    // The public key of the private key 1 and its well-known address.
    let key = signing_key(1);
    let expected: [u8; 20] = [
        0x7e, 0x5f, 0x45, 0x52, 0x09, 0x1a, 0x69, 0x12, 0x5d, 0x5d, 0xfc, 0xb7, 0xb8, 0xc2, 0x65,
        0x90, 0x29, 0x39, 0x5b, 0xdf,
    ];
    assert_eq!(public_key_to_address(&public_key_bytes(&key)), expected);
}

#[test]
fn address_differs_from_the_key_bytes() {
    let key = public_key_bytes(&signing_key(2));
    let address = public_key_to_address(&key);
    assert_ne!(&address[..], &key[44..]);
    assert_ne!(&address[..], &key[..20]);
}

#[test]
fn merkle_root_of_no_leaves_is_zero() {
    let leaves: Vec<[u8; 32]> = Vec::new();
    assert_eq!(create_merkle_tree(&leaves), [0u8; 32]);
}

#[test]
fn merkle_root_of_one_leaf_is_the_leaf() {
    let leaf = hash(b"only");
    assert_eq!(create_merkle_tree(&[leaf]), leaf);
}

#[test]
fn merkle_root_of_two_leaves() {
    let a = hash(b"a");
    let b = hash(b"b");
    let mut joined = a.to_vec();
    joined.extend_from_slice(&b);
    assert_eq!(create_merkle_tree(&[a, b]), sha256(&joined));
    assert_eq!(combine_hashes(a, b), sha256(&joined));
}

#[test]
fn merkle_root_of_three_leaves_promotes_the_last() {
    let a = hash(b"a");
    let b = hash(b"b");
    let c = hash(b"c");
    let ab = combine_hashes(a, b);
    assert_eq!(create_merkle_tree(&[a, b, c]), combine_hashes(ab, c));
}

#[test]
fn merkle_root_of_five_leaves() {
    let l: Vec<[u8; 32]> = (0u8..5).map(|i| hash(&[i])).collect();
    let ab = combine_hashes(l[0], l[1]);
    let cd = combine_hashes(l[2], l[3]);
    let abcd = combine_hashes(ab, cd);
    assert_eq!(create_merkle_tree(&l), combine_hashes(abcd, l[4]));
}

#[test]
fn merkle_root_is_the_same_on_every_call() {
    let leaves: Vec<[u8; 32]> = (0u8..7).map(|i| hash(&[i])).collect();
    let first = create_merkle_tree(&leaves);
    let second = create_merkle_tree(&leaves);
    assert_eq!(first, second);
    // Hashing the root again gives something else.
    assert_ne!(hash(&first), first);
}

#[test]
fn merkle_root_depends_on_the_order() {
    let a = hash(b"a");
    let b = hash(b"b");
    assert_ne!(create_merkle_tree(&[a, b]), create_merkle_tree(&[b, a]));
}

#[test]
fn recovery_finds_the_signer() {
    for seed in 1u8..6 {
        let key = signing_key(seed);
        let message = [seed; 40];
        let digest = hash(&message);
        let (signature, id) = key.sign_prehash_recoverable(&digest).unwrap();
        let recovered = recover_public_key(&signature_bytes(&signature, id), digest).unwrap();
        assert_eq!(recovered, public_key_bytes(&key));
        assert_eq!(
            public_key_to_address(&recovered),
            public_key_to_address(&public_key_bytes(&key))
        );
    }
}

#[test]
fn recovery_normalizes_a_high_s() {
    let key = signing_key(9);
    let digest = hash(b"high s");
    let (signature, id) = key.sign_prehash_recoverable(&digest).unwrap();
    // The same signature with s replaced by n - s and the parity flipped.
    let high = Signature::from_scalars(signature.r(), -*signature.s()).unwrap();
    assert!(high.normalize_s().is_some());
    let flipped = RecoveryId::from_byte(id.to_byte() ^ 1).unwrap();
    let recovered = recover_public_key(&signature_bytes(&high, flipped), digest).unwrap();
    assert_eq!(recovered, public_key_bytes(&key));
}

#[test]
fn recovery_ignores_bytes_after_the_signature() {
    let key = signing_key(3);
    let digest = hash(b"longer");
    let (signature, id) = key.sign_prehash_recoverable(&digest).unwrap();
    let mut bytes = signature_bytes(&signature, id);
    bytes.push(0xff);
    assert_eq!(recover_public_key(&bytes, digest).unwrap(), public_key_bytes(&key));
}

#[test]
fn recovery_rejects_a_short_signature() {
    assert_eq!(recover_public_key(&[1u8; 64], hash(b"x")), None);
}

#[test]
fn recovery_rejects_a_zero_signature() {
    assert_eq!(recover_public_key(&[0u8; 65], hash(b"x")), None);
}

#[test]
fn recovery_rejects_an_unknown_recovery_id() {
    let key = signing_key(4);
    let digest = hash(b"id");
    let (signature, _) = key.sign_prehash_recoverable(&digest).unwrap();
    let mut bytes = signature.to_bytes().to_vec();
    bytes.push(9);
    assert_eq!(recover_public_key(&bytes, digest), None);
}

#[test]
fn recovery_with_another_digest_gives_another_key() {
    let key = signing_key(5);
    let digest = hash(b"signed");
    let (signature, id) = key.sign_prehash_recoverable(&digest).unwrap();
    let other = recover_public_key(&signature_bytes(&signature, id), hash(b"other"));
    assert_ne!(other, Some(public_key_bytes(&key)));
}

#[test]
fn address_is_the_end_of_the_digest() {
    let mut digest = [0u8; 32];
    for (i, byte) in digest.iter_mut().enumerate() {
        *byte = i as u8;
    }
    let expected: Vec<u8> = (12u8..32).collect();
    assert_eq!(address_from_digest(&digest).to_vec(), expected);
}

#[test]
fn recovery_request_keeps_a_low_signature() {
    let mut sig: Vec<u8> = (0u8..64).collect();
    sig.push(1);
    sig.push(0xee);
    let (rs, v) = make_recovery_request(&sig, None);
    assert_eq!(rs, (0u8..64).collect::<Vec<u8>>());
    assert_eq!(v, 1);
}

#[test]
fn recovery_request_flips_the_id_of_a_high_signature() {
    for (v, flipped) in [(0u8, 1u8), (1, 0), (2, 3), (3, 2)] {
        let mut sig = vec![7u8; 64];
        sig.push(v);
        let (rs, id) = make_recovery_request(&sig, Some(vec![9u8; 64]));
        assert_eq!(rs, vec![9u8; 64]);
        assert_eq!(id, flipped);
    }
}

#[test]
fn point_tag_is_stripped() {
    let mut point = vec![4u8];
    point.extend((0u8..64).collect::<Vec<u8>>());
    assert_eq!(strip_point_tag(&point), Some((0u8..64).collect::<Vec<u8>>()));
    assert_eq!(strip_point_tag(&point[..64]), None);
    assert_eq!(strip_point_tag(&[2u8; 33]), None);
    assert_eq!(strip_point_tag(&[]), None);
}
