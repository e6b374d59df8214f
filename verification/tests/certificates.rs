use relay::dht::id::NodeId;
use relay::dht::tls_extract::{
    bind_pubkey, capabilities_from_leaf_der, extension_of_leaf, extract_and_verify_pubkey, extract_pubkey_from_conn,
    extract_pubkey_from_leaf_der, key_of_leaf, ExtractError, Leaf, PeerIdentity,
};

fn encode_seq(data: &[u8]) -> Vec<u8> {
    let len = data.len();
    if len < 128 {
        [&[0x30, len as u8][..], data].concat()
    } else if len < 256 {
        [&[0x30, 0x81, len as u8][..], data].concat()
    } else {
        let len_bytes = (len as u16).to_be_bytes();
        [&[0x30, 0x82][..], &len_bytes, data].concat()
    }
}

fn build_cert(pubkey: &[u8; 32], signature: &[u8; 64], extensions: &[u8]) -> Vec<u8> {
    let ed25519_oid: &[u8] = &[0x06, 0x03, 0x2b, 0x65, 0x70];
    let spki =
        [&[0x30, 0x2a][..], &[0x30, 0x05][..], ed25519_oid, &[0x03, 0x21, 0x00][..], pubkey].concat();
    let serial = &pubkey[0..8];
    let validity: &[u8] = &[
        0x30, 0x1e, 0x17, 0x0d, b'7', b'0', b'0', b'1', b'0', b'1', b'0', b'0', b'0', b'0', b'0', b'0', b'Z', 0x17,
        0x0d, b'5', b'0', b'0', b'1', b'0', b'1', b'0', b'0', b'0', b'0', b'0', b'0', b'Z',
    ];
    let empty_name: &[u8] = &[0x30, 0x00];
    let version: &[u8] = &[0xa0, 0x03, 0x02, 0x01, 0x02];
    let serial_der = [&[0x02, serial.len() as u8][..], serial].concat();
    let sig_alg: &[u8] = &[0x30, 0x05, 0x06, 0x03, 0x2b, 0x65, 0x70];
    let tbs_content =
        [version, &serial_der, sig_alg, empty_name, validity, empty_name, &spki, extensions].concat();
    let tbs = encode_seq(&tbs_content);
    let sig_bitstring = [&[0x03, 0x41, 0x00][..], signature].concat();
    let cert_content = [&tbs[..], sig_alg, &sig_bitstring].concat();
    encode_seq(&cert_content)
}

fn build_test_cert(pubkey: &[u8; 32], signature: &[u8; 64]) -> Vec<u8> {
    build_cert(pubkey, signature, &[])
}

#[test]
fn extract_pubkey_round_trip() {
    let pubkey = [0x42u8; 32];
    let der = build_test_cert(&pubkey, &[0u8; 64]);
    let extracted = extract_pubkey_from_leaf_der(&der).expect("parse");
    assert_eq!(extracted, pubkey);
}

#[test]
fn extract_pubkey_garbage_fails() {
    assert_eq!(extract_pubkey_from_leaf_der(&[]), Err(ExtractError::MalformedCert));
    assert_eq!(extract_pubkey_from_leaf_der(&[0x30, 0x82, 0xff, 0xff]), Err(ExtractError::MalformedCert));
}

#[test]
fn key_of_another_algorithm_is_refused() {
    let leaf = |algorithm: Vec<u8>, key: Vec<u8>| Some(Leaf { algorithm, key, extensions: Vec::new() });
    assert_eq!(key_of_leaf(&leaf(vec![0x2b, 0x65, 0x70], vec![7u8; 32])), Ok([7u8; 32]));
    assert_eq!(key_of_leaf(&leaf(vec![0x2b, 0x65, 0x71], vec![7u8; 32])), Err(ExtractError::NotEd25519));
    assert_eq!(key_of_leaf(&leaf(vec![0x2b, 0x65, 0x70], vec![7u8; 31])), Err(ExtractError::BadSpkiLength));
    assert_eq!(key_of_leaf(&None), Err(ExtractError::MalformedCert));
}

#[test]
fn identity_must_be_a_chain() {
    let der = build_test_cert(&[0x42u8; 32], &[0u8; 64]);
    assert_eq!(extract_pubkey_from_conn(&PeerIdentity::Absent), Err(ExtractError::NoCertChain));
    assert_eq!(extract_pubkey_from_conn(&PeerIdentity::Unexpected), Err(ExtractError::UnexpectedIdentityType));
    assert_eq!(extract_pubkey_from_conn(&PeerIdentity::Chain(Vec::new())), Err(ExtractError::EmptyChain));
    assert_eq!(extract_pubkey_from_conn(&PeerIdentity::Chain(vec![der, vec![1]])), Ok([0x42u8; 32]));
}

#[test]
fn key_is_bound_to_the_id() {
    let pubkey = [0x42u8; 32];
    let chain = PeerIdentity::Chain(vec![build_test_cert(&pubkey, &[0u8; 64])]);
    let id = NodeId::from_bytes(*blake3::hash(&pubkey).as_bytes());
    assert_eq!(extract_and_verify_pubkey(&chain, &id), Ok(pubkey));
    let other = NodeId::from_bytes([1u8; 32]);
    assert_eq!(extract_and_verify_pubkey(&chain, &other), Err(ExtractError::NodeIdMismatch));
    assert_eq!(bind_pubkey(Err(ExtractError::EmptyChain), &id), Err(ExtractError::EmptyChain));
}

#[test]
fn extension_is_found_by_its_identifier() {
    // 1.2.840.113549.9 holding the bytes "cap".
    let oid: &[u8] = &[0x06, 0x07, 0x2a, 0x86, 0x48, 0x86, 0xf7, 0x0d, 0x09];
    let ext = encode_seq(&[oid, &[0x04, 0x03, b'c', b'a', b'p'][..]].concat());
    let list = encode_seq(&ext);
    let wrapped = [&[0xa3, list.len() as u8][..], &list].concat();
    let der = build_cert(&[0x42u8; 32], &[0u8; 64], &wrapped);
    assert_eq!(capabilities_from_leaf_der(&der, &[1, 2, 840, 113549, 9]), Some(b"cap".to_vec()));
    assert_eq!(capabilities_from_leaf_der(&der, &[1, 2, 840, 113549, 8]), None);
    assert_eq!(capabilities_from_leaf_der(&der, &[1]), None);
    assert_eq!(capabilities_from_leaf_der(&[], &[1, 2, 840, 113549, 9]), None);
    assert_eq!(extract_pubkey_from_leaf_der(&der), Ok([0x42u8; 32]));
}

#[test]
fn first_extension_of_an_identifier_counts() {
    let leaf = Leaf {
        algorithm: Vec::new(),
        key: Vec::new(),
        extensions: vec![(vec![1], b"a".to_vec()), (vec![2], b"b".to_vec()), (vec![2], b"c".to_vec())],
    };
    assert_eq!(extension_of_leaf(&leaf, &[2]), Some(b"b".to_vec()));
    assert_eq!(extension_of_leaf(&leaf, &[3]), None);
}
