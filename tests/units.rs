use std::collections::HashMap;

use ring::rand::SystemRandom;
use ring::signature::{Ed25519KeyPair, KeyPair};
use sha2::Digest;
use simple_pbft_demo::app_state::AppState;
use simple_pbft_demo::codec::{bytes_equal, put_length_prefixed, put_varint};
use simple_pbft_demo::crypto::Crypto;
use simple_pbft_demo::frame::{decode_frame, encode_frame, frame_header, frame_length};
use simple_pbft_demo::message::{Canonical, Commit, PBFTMessage, PrePrepare, Prepare, Reply, Request, SignedMessage};
use simple_pbft_demo::replica::{digest_eq, MessageLog, Replica};

fn varint(x: u64) -> Vec<u8> {
    let mut v = Vec::new();
    put_varint(&mut v, x);
    v
}

#[test]
fn varint_small_values() {
    assert_eq!(varint(0), vec![0u8]);
    assert_eq!(varint(127), vec![127u8]);
    assert_eq!(varint(128), vec![0x80u8, 0x01]);
    assert_eq!(varint(300), vec![0xACu8, 0x02]);
}

#[test]
fn varint_largest_value() {
    let v = varint(u64::MAX);
    assert_eq!(v.len(), 10);
    assert_eq!(v[9], 0x01);
    assert!(v[..9].iter().all(|b| *b == 0xff));
}

#[test]
fn length_prefixed_bytes() {
    let mut v = vec![9u8];
    put_length_prefixed(&mut v, b"abc");
    assert_eq!(v, vec![9u8, 3, b'a', b'b', b'c']);
}

#[test]
fn request_bytes_match_postcard() {
    let req = Request { operation: b"PUT:name:Alice".to_vec(), timestamp: 1_700_000_000_000_000, client_id: 999 };
    let expected = postcard::to_allocvec(&(req.operation.clone(), req.timestamp, req.client_id)).unwrap();
    assert_eq!(req.canonical_bytes(), expected);
}

#[test]
fn pre_prepare_bytes_match_postcard() {
    let req = Request { operation: b"GET:k".to_vec(), timestamp: 5, client_id: 300 };
    let pp = PrePrepare { view: 0, seq_num: 129, digest: [3u8; 32], request: req.clone() };
    let expected = postcard::to_allocvec(&(
        0u64,
        129u64,
        [3u8; 32],
        (req.operation.clone(), req.timestamp, req.client_id),
    ))
    .unwrap();
    assert_eq!(pp.canonical_bytes(), expected);
}

#[test]
fn vote_bytes_match_postcard() {
    let p = Prepare { view: 1, seq_num: 2, digest: [4u8; 32], replica_id: 200 };
    let c = Commit { view: 1, seq_num: 2, digest: [4u8; 32], replica_id: 200 };
    let expected = postcard::to_allocvec(&(1u64, 2u64, [4u8; 32], 200u32)).unwrap();
    assert_eq!(p.canonical_bytes(), expected);
    assert_eq!(c.canonical_bytes(), expected);
}

#[test]
fn reply_bytes_match_postcard() {
    let r = Reply::new(0, 7, 999, 2, b"OK".to_vec());
    let expected = postcard::to_allocvec(&(0u64, 7u64, 999u64, 2u32, b"OK".to_vec())).unwrap();
    assert_eq!(r.canonical_bytes(), expected);
}

#[test]
fn digest_is_sha256_of_request_bytes() {
    let (_, verifier) = crypto_pair();
    let replica = Replica::new(0, 4, verifier);
    let req = Request { operation: b"PUT:name:Alice".to_vec(), timestamp: 1, client_id: 999 };
    let d = replica.compute_digest(&req);
    let expected: [u8; 32] = sha2::Sha256::digest(req.canonical_bytes()).into();
    assert_eq!(d, expected);
    assert_eq!(replica.compute_digest(&req.clone()), d);
    let other = Request { operation: b"PUT:name:Bob".to_vec(), timestamp: 1, client_id: 999 };
    assert_ne!(replica.compute_digest(&other), d);
}

#[test]
fn digest_equality() {
    let a = [1u8; 32];
    let mut b = a;
    assert!(digest_eq(&a, &b));
    b[31] = 2;
    assert!(!digest_eq(&a, &b));
}

#[test]
fn byte_equality() {
    assert!(bytes_equal(b"abc", b"abc"));
    assert!(!bytes_equal(b"abc", b"abd"));
    assert!(!bytes_equal(b"abc", b"ab"));
    assert!(bytes_equal(b"", b""));
}

fn crypto_pair() -> (Crypto, Crypto) {
    let rng = SystemRandom::new();
    let pkcs8 = Ed25519KeyPair::generate_pkcs8(&rng).unwrap().as_ref().to_vec();
    let public = Ed25519KeyPair::from_pkcs8(&pkcs8).unwrap().public_key().as_ref().to_vec();
    let signer = Crypto::new(pkcs8, 3, HashMap::new()).unwrap();
    let mut keys = HashMap::new();
    keys.insert(3u32, public);
    let other = Ed25519KeyPair::generate_pkcs8(&rng).unwrap().as_ref().to_vec();
    let verifier = Crypto::new(other, 0, keys).unwrap();
    (signer, verifier)
}

fn signer_and_keypair() -> (Crypto, Ed25519KeyPair) {
    let rng = SystemRandom::new();
    let pkcs8 = Ed25519KeyPair::generate_pkcs8(&rng).unwrap().as_ref().to_vec();
    let kp = Ed25519KeyPair::from_pkcs8(&pkcs8).unwrap();
    (Crypto::new(pkcs8, 3, HashMap::new()).unwrap(), kp)
}

#[test]
fn signature_is_ring_signature_of_canonical_bytes() {
    let (signer, kp) = signer_and_keypair();
    let req = Request { operation: b"PUT:a:b".to_vec(), timestamp: 4, client_id: 3 };
    let expected = kp.sign(&req.canonical_bytes()).as_ref().to_vec();
    assert_eq!(signer.sign(&req), expected);
    let signed = signer.create_signed_message(req.clone());
    assert_eq!(signed.signature, expected);
    assert_eq!(signer.get_pub_key(), kp.public_key().as_ref().to_vec());
}

#[test]
fn malformed_key_document_is_refused() {
    assert!(Crypto::new(vec![1u8, 2, 3], 0, HashMap::new()).is_none());
    assert!(Crypto::new(Vec::new(), 0, HashMap::new()).is_none());
}

#[test]
fn signature_round_trip() {
    let (signer, verifier) = crypto_pair();
    let p = Prepare { view: 0, seq_num: 1, digest: [9u8; 32], replica_id: 3 };
    let signed = signer.create_signed_message(p);
    assert_eq!(signed.signer_id, 3);
    assert_eq!(signed.signature.len(), 64);
    assert!(verifier.verify_signed_message(&signed));
    assert!(verifier.verify_pbft_message(&PBFTMessage::Prepare(signed)));
}

#[test]
fn tampered_message_fails_verification() {
    let (signer, verifier) = crypto_pair();
    let p = Prepare { view: 0, seq_num: 1, digest: [9u8; 32], replica_id: 3 };
    let mut signed = signer.create_signed_message(p);
    signed.message.seq_num = 2;
    assert!(!verifier.verify_signed_message(&signed));
}

#[test]
fn unknown_signer_fails_verification() {
    let (signer, verifier) = crypto_pair();
    let p = Commit { view: 0, seq_num: 1, digest: [9u8; 32], replica_id: 3 };
    let mut signed = signer.create_signed_message(p);
    signed.signer_id = 4;
    assert!(!verifier.verify_signed_message(&signed));
}

#[test]
fn short_signature_fails_verification() {
    let (signer, verifier) = crypto_pair();
    let req = Request { operation: b"GET:a".to_vec(), timestamp: 1, client_id: 3 };
    let mut signed = signer.create_signed_message(req);
    signed.signature.truncate(63);
    assert!(!verifier.verify_signed_message(&signed));
}

#[test]
fn public_key_has_32_bytes() {
    let (signer, _) = crypto_pair();
    assert_eq!(signer.get_pub_key().len(), 32);
}

#[test]
fn sign_is_deterministic_over_canonical_bytes() {
    let (signer, _) = crypto_pair();
    let req = Request { operation: b"GET:a".to_vec(), timestamp: 1, client_id: 3 };
    assert_eq!(signer.sign(&req), signer.sign(&req.clone()));
    let sm = SignedMessage { message: req, signature: Vec::new(), signer_id: 3 };
    assert_eq!(signer.sign(&sm.message).len(), 64);
}

#[test]
fn put_then_get() {
    let mut app = AppState::new();
    assert_eq!(app.execute(b"PUT:name:Alice"), b"OK".to_vec());
    assert_eq!(app.execute(b"GET:name"), b"Alice".to_vec());
    assert_eq!(app.execute(b"PUT:name:Bob"), b"OK".to_vec());
    assert_eq!(app.execute(b"GET:name"), b"Bob".to_vec());
}

#[test]
fn get_missing_key() {
    let mut app = AppState::new();
    assert_eq!(app.execute(b"GET:nothing"), b"NOT_FOUND".to_vec());
}

#[test]
fn put_needs_exactly_one_colon() {
    let mut app = AppState::new();
    assert_eq!(app.execute(b"PUT:a"), b"INVALID_OPERATION".to_vec());
    assert_eq!(app.execute(b"PUT:a:b:c"), b"INVALID_OPERATION".to_vec());
    assert_eq!(app.execute(b"GET:a"), b"NOT_FOUND".to_vec());
}

#[test]
fn empty_key_and_value() {
    let mut app = AppState::new();
    assert_eq!(app.execute(b"PUT::"), b"OK".to_vec());
    assert_eq!(app.execute(b"GET:"), b"".to_vec());
}

#[test]
fn unknown_operations_are_invalid() {
    let mut app = AppState::new();
    assert_eq!(app.execute(b"FOO:bar"), b"INVALID_OPERATION".to_vec());
    assert_eq!(app.execute(b""), b"INVALID_OPERATION".to_vec());
    assert_eq!(app.execute(b"put:a:b"), b"INVALID_OPERATION".to_vec());
    assert_eq!(app.execute(b"GET"), b"INVALID_OPERATION".to_vec());
}

#[test]
fn get_key_may_hold_colons() {
    let mut app = AppState::new();
    assert_eq!(app.execute(b"GET:a:b"), b"NOT_FOUND".to_vec());
}

#[test]
fn invalid_utf8_is_replaced() {
    let mut app = AppState::new();
    assert_eq!(app.execute(b"PUT:k:\xff"), b"OK".to_vec());
    assert_eq!(app.execute(b"GET:k"), "\u{FFFD}".as_bytes().to_vec());
    assert_eq!(app.execute(b"GET:\xff"), b"NOT_FOUND".to_vec());
    assert_eq!(app.execute(b"PUT:\xfe:v"), b"OK".to_vec());
    assert_eq!(app.execute_text("GET:\u{FFFD}".as_bytes()), b"v".to_vec());
}

#[test]
fn app_get_reads_store() {
    let mut app = AppState::new();
    let _ = app.execute_text(b"PUT:x:1");
    assert_eq!(app.get(&b"x".to_vec()), Some(b"1".to_vec()));
    assert_eq!(app.get(&b"y".to_vec()), None);
}

#[test]
fn frame_round_trip() {
    let payload = b"hello".to_vec();
    let f = encode_frame(&payload).unwrap();
    assert_eq!(f, vec![0u8, 0, 0, 5, b'h', b'e', b'l', b'l', b'o']);
    assert_eq!(decode_frame(&f), Some(payload));
}

#[test]
fn empty_frame() {
    let f = encode_frame(&[]).unwrap();
    assert_eq!(f, vec![0u8, 0, 0, 0]);
    assert_eq!(decode_frame(&f), Some(Vec::new()));
}

#[test]
fn frame_header_is_big_endian() {
    assert_eq!(frame_header(0x0102_0304), [1u8, 2, 3, 4]);
    assert_eq!(frame_length(&[1u8, 2, 3, 4]), 0x0102_0304);
    assert_eq!(frame_length(&frame_header(u32::MAX)), u32::MAX);
}

#[test]
fn malformed_frames_are_rejected() {
    assert_eq!(decode_frame(&[0u8, 0, 0]), None);
    assert_eq!(decode_frame(&[0u8, 0, 0, 2, 1]), None);
    assert_eq!(decode_frame(&[0u8, 0, 0, 1, 1, 2]), None);
}

#[test]
fn new_log_is_empty() {
    let _log = MessageLog::new();
}

#[test]
fn new_replica_state() {
    let rng = SystemRandom::new();
    let pkcs8 = Ed25519KeyPair::generate_pkcs8(&rng).unwrap().as_ref().to_vec();
    let r = Replica::new(0, 4, Crypto::new(pkcs8, 0, HashMap::new()).unwrap());
    assert!(r.is_primary());
    assert_eq!(r.last_executed(), 0);
    assert_eq!(r.next_seq_num(), 1);
    assert!(!r.has_log_for(1));
    let pkcs8 = Ed25519KeyPair::generate_pkcs8(&rng).unwrap().as_ref().to_vec();
    let r = Replica::new(2, 7, Crypto::new(pkcs8, 2, HashMap::new()).unwrap());
    assert!(!r.is_primary());
}
