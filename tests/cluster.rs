use std::collections::{HashMap, VecDeque};

use ring::rand::SystemRandom;
use ring::signature::{Ed25519KeyPair, KeyPair};
use simple_pbft_demo::crypto::Crypto;
use simple_pbft_demo::message::{Commit, PBFTMessage, PrePrepare, Prepare, Request, SignedMessage};
use simple_pbft_demo::replica::Replica;

const CLIENT_ID: u32 = 999;

struct Cluster {
    replicas: Vec<Replica>,
    signers: Vec<Crypto>,
    client: Crypto,
    silent: Vec<bool>,
    results: Vec<Vec<(u64, Vec<u8>)>>,
}

fn new_pkcs8() -> Vec<u8> {
    let rng = SystemRandom::new();
    Ed25519KeyPair::generate_pkcs8(&rng).unwrap().as_ref().to_vec()
}

fn keypair(pkcs8: &[u8]) -> Ed25519KeyPair {
    Ed25519KeyPair::from_pkcs8(pkcs8).unwrap()
}

impl Cluster {
    fn new(n: u32) -> Cluster {
        let mut secrets: Vec<Vec<u8>> = Vec::new();
        let mut publics: HashMap<u32, Vec<u8>> = HashMap::new();
        for i in 0..n {
            let s = new_pkcs8();
            publics.insert(i, keypair(&s).public_key().as_ref().to_vec());
            secrets.push(s);
        }
        let client_secret = new_pkcs8();
        publics.insert(CLIENT_ID, keypair(&client_secret).public_key().as_ref().to_vec());
        let mut replicas = Vec::new();
        let mut signers = Vec::new();
        for i in 0..n {
            let mut peers = publics.clone();
            peers.remove(&i);
            replicas.push(Replica::new(i, n, Crypto::new(secrets[i as usize].clone(), i, peers).unwrap()));
            signers.push(Crypto::new(secrets[i as usize].clone(), i, publics.clone()).unwrap());
        }
        Cluster {
            replicas,
            signers,
            client: Crypto::new(client_secret.clone(), CLIENT_ID, HashMap::new()).unwrap(),
            silent: vec![false; n as usize],
            results: vec![Vec::new(); n as usize],
        }
    }

    fn request(&self, op: &str, timestamp: u64) -> PBFTMessage {
        let req = Request { operation: op.as_bytes().to_vec(), timestamp, client_id: 999 };
        PBFTMessage::Request(self.client.create_signed_message(req))
    }

    /// Delivers `msg` to `to`, then every broadcast that follows, in FIFO order.
    fn deliver(&mut self, to: usize, msg: PBFTMessage) {
        self.run(vec![(to, msg)]);
    }

    /// Delivers `msg` to every replica but `from`, then what follows.
    fn broadcast_from(&mut self, from: usize, msg: PBFTMessage) {
        let initial = (0..self.replicas.len()).filter(|p| *p != from).map(|p| (p, msg.clone())).collect();
        self.run(initial);
    }

    fn run(&mut self, initial: Vec<(usize, PBFTMessage)>) {
        let mut queue: VecDeque<(usize, PBFTMessage)> = initial.into_iter().collect();
        while let Some((dest, m)) = queue.pop_front() {
            if self.silent[dest] {
                continue;
            }
            let out = self.replicas[dest].step(m);
            for e in out.executed {
                self.results[dest].push((e.seq_num, e.result));
            }
            if let Some(b) = out.broadcast {
                for peer in 0..self.replicas.len() {
                    if peer != dest {
                        queue.push_back((peer, b.clone()));
                    }
                }
            }
        }
    }

    fn value(&self, node: usize, key: &str) -> Option<Vec<u8>> {
        self.replicas[node].app_value(&key.as_bytes().to_vec())
    }
}

#[test]
fn put_executes_on_all_replicas() {
    let mut c = Cluster::new(4);
    let m = c.request("PUT:name:Alice", 1);
    c.deliver(0, m);
    for i in 0..4 {
        assert_eq!(c.replicas[i].last_executed(), 1);
        assert_eq!(c.value(i, "name"), Some(b"Alice".to_vec()));
        assert_eq!(c.results[i], vec![(1u64, b"OK".to_vec())]);
    }
}

#[test]
fn get_after_put_returns_value() {
    let mut c = Cluster::new(4);
    let m = c.request("PUT:name:Alice", 1);
    c.deliver(0, m);
    let m = c.request("GET:name", 2);
    c.deliver(0, m);
    for i in 0..4 {
        assert_eq!(c.replicas[i].last_executed(), 2);
        assert_eq!(c.results[i][1], (2u64, b"Alice".to_vec()));
    }
}

#[test]
fn duplicate_timestamp_is_dropped_by_primary() {
    let mut c = Cluster::new(4);
    let m = c.request("PUT:name:Alice", 1);
    c.deliver(0, m);
    assert_eq!(c.replicas[0].next_seq_num(), 2);
    let m = c.request("PUT:name:Alice", 1);
    c.deliver(0, m);
    assert_eq!(c.replicas[0].next_seq_num(), 2);
    assert!(!c.replicas[0].has_log_for(2));
    for i in 0..4 {
        assert_eq!(c.replicas[i].last_executed(), 1);
        assert_eq!(c.results[i].len(), 1);
    }
}

#[test]
fn one_silent_replica_is_tolerated() {
    let mut c = Cluster::new(4);
    c.silent[3] = true;
    let m = c.request("PUT:name:Alice", 1);
    c.deliver(0, m);
    for i in 0..3 {
        assert_eq!(c.replicas[i].last_executed(), 1);
        assert_eq!(c.value(i, "name"), Some(b"Alice".to_vec()));
    }
    assert_eq!(c.replicas[3].last_executed(), 0);
}

#[test]
fn prepare_with_wrong_digest_is_dropped() {
    let mut c = Cluster::new(4);
    // Replica 1 is faulty: it only sends a prepare with a wrong digest.
    c.silent[1] = true;
    let m = c.request("PUT:name:Alice", 1);
    let req = match &m {
        PBFTMessage::Request(s) => s.message.clone(),
        _ => unreachable!(),
    };
    let digest = c.replicas[0].compute_digest(&req);
    let pp = PrePrepare { view: 0, seq_num: 1, digest, request: req };
    let signed_pp = c.signers[0].create_signed_message(pp);
    let _ = c.replicas[2].step(PBFTMessage::PrePrepare(signed_pp.clone()));
    let mut wrong = digest;
    wrong[0] ^= 0xff;
    let bad = Prepare { view: 0, seq_num: 1, digest: wrong, replica_id: 1 };
    let out = c.replicas[2].step(PBFTMessage::Prepare(c.signers[1].create_signed_message(bad)));
    assert!(out.broadcast.is_none());
    assert!(!c.replicas[2].is_prepared(1));
    // A matching prepare from an honest replica gives the 2f = 2 needed.
    let good = Prepare { view: 0, seq_num: 1, digest, replica_id: 3 };
    let out = c.replicas[2].step(PBFTMessage::Prepare(c.signers[3].create_signed_message(good)));
    assert!(c.replicas[2].is_prepared(1));
    assert!(matches!(out.broadcast, Some(PBFTMessage::Commit(_))));
}

#[test]
fn faulty_prepare_does_not_stop_honest_replicas() {
    let mut c = Cluster::new(4);
    c.silent[1] = true;
    let m = c.request("PUT:name:Alice", 1);
    c.deliver(0, m);
    for i in [0usize, 2, 3] {
        assert_eq!(c.replicas[i].last_executed(), 1);
    }
}

#[test]
fn invalid_operation_leaves_store_unchanged() {
    let mut c = Cluster::new(4);
    let m = c.request("FOO:bar", 1);
    c.deliver(0, m);
    for i in 0..4 {
        assert_eq!(c.replicas[i].last_executed(), 1);
        assert_eq!(c.results[i], vec![(1u64, b"INVALID_OPERATION".to_vec())]);
        assert_eq!(c.value(i, "bar"), None);
        assert_eq!(c.value(i, "FOO"), None);
    }
}

#[test]
fn duplicate_request_executes_once_end_to_end() {
    let mut c = Cluster::new(4);
    let req = Request { operation: b"PUT:k:v".to_vec(), timestamp: 7, client_id: 999 };
    let m = PBFTMessage::Request(c.client.create_signed_message(req.clone()));
    // The primary assigns 1 and 2 to the same request before anything commits.
    let out1 = c.replicas[0].step(m.clone());
    let out2 = c.replicas[0].step(m);
    let pp1 = out1.broadcast.unwrap();
    let pp2 = out2.broadcast.unwrap();
    c.broadcast_from(0, pp1);
    c.broadcast_from(0, pp2);
    for i in 0..4 {
        assert_eq!(c.replicas[i].last_executed(), 2);
        assert_eq!(c.results[i], vec![(1u64, b"OK".to_vec())]);
    }
}

#[test]
fn unsigned_message_changes_nothing() {
    let mut c = Cluster::new(4);
    let req = Request { operation: b"PUT:a:b".to_vec(), timestamp: 1, client_id: 999 };
    let forged = SignedMessage { message: req, signature: vec![0u8; 64], signer_id: CLIENT_ID };
    let out = c.replicas[0].step(PBFTMessage::Request(forged));
    assert!(out.broadcast.is_none());
    assert_eq!(c.replicas[0].next_seq_num(), 1);
    assert!(!c.replicas[0].has_log_for(1));
}

#[test]
fn backup_ignores_client_request() {
    let mut c = Cluster::new(4);
    let m = c.request("PUT:a:b", 1);
    let out = c.replicas[1].step(m);
    assert!(out.broadcast.is_none());
    assert!(!c.replicas[1].has_log_for(1));
}

#[test]
fn pre_prepare_from_backup_is_dropped() {
    let mut c = Cluster::new(4);
    let req = Request { operation: b"PUT:a:b".to_vec(), timestamp: 1, client_id: 999 };
    let digest = c.replicas[0].compute_digest(&req);
    let pp = PrePrepare { view: 0, seq_num: 1, digest, request: req };
    let out = c.replicas[2].step(PBFTMessage::PrePrepare(c.signers[1].create_signed_message(pp)));
    assert!(out.broadcast.is_none());
    assert!(!c.replicas[2].has_log_for(1));
}

#[test]
fn pre_prepare_with_wrong_view_is_dropped() {
    let mut c = Cluster::new(4);
    let req = Request { operation: b"PUT:a:b".to_vec(), timestamp: 1, client_id: 999 };
    let digest = c.replicas[0].compute_digest(&req);
    let pp = PrePrepare { view: 1, seq_num: 1, digest, request: req };
    let out = c.replicas[2].step(PBFTMessage::PrePrepare(c.signers[0].create_signed_message(pp)));
    assert!(out.broadcast.is_none());
    assert!(!c.replicas[2].has_log_for(1));
}

#[test]
fn pre_prepare_with_wrong_digest_is_dropped() {
    let mut c = Cluster::new(4);
    let req = Request { operation: b"PUT:a:b".to_vec(), timestamp: 1, client_id: 999 };
    let pp = PrePrepare { view: 0, seq_num: 1, digest: [7u8; 32], request: req };
    let out = c.replicas[2].step(PBFTMessage::PrePrepare(c.signers[0].create_signed_message(pp)));
    assert!(out.broadcast.is_none());
    assert!(!c.replicas[2].has_log_for(1));
}

#[test]
fn equivocating_pre_prepare_is_dropped() {
    let mut c = Cluster::new(4);
    let first = Request { operation: b"PUT:a:b".to_vec(), timestamp: 1, client_id: 999 };
    let second = Request { operation: b"PUT:a:c".to_vec(), timestamp: 2, client_id: 999 };
    let d1 = c.replicas[0].compute_digest(&first);
    let d2 = c.replicas[0].compute_digest(&second);
    let pp1 = PrePrepare { view: 0, seq_num: 1, digest: d1, request: first };
    let pp2 = PrePrepare { view: 0, seq_num: 1, digest: d2, request: second };
    let out = c.replicas[2].step(PBFTMessage::PrePrepare(c.signers[0].create_signed_message(pp1)));
    assert!(matches!(out.broadcast, Some(PBFTMessage::Prepare(_))));
    let out = c.replicas[2].step(PBFTMessage::PrePrepare(c.signers[0].create_signed_message(pp2)));
    assert!(out.broadcast.is_none());
    // Prepares for the first digest still count; those for the second do not.
    let p = Prepare { view: 0, seq_num: 1, digest: d2, replica_id: 3 };
    let _ = c.replicas[2].step(PBFTMessage::Prepare(c.signers[3].create_signed_message(p)));
    assert!(!c.replicas[2].is_prepared(1));
    let p = Prepare { view: 0, seq_num: 1, digest: d1, replica_id: 3 };
    let _ = c.replicas[2].step(PBFTMessage::Prepare(c.signers[3].create_signed_message(p)));
    assert!(c.replicas[2].is_prepared(1));
}

#[test]
fn duplicate_prepare_is_not_counted() {
    let mut c = Cluster::new(4);
    let req = Request { operation: b"PUT:a:b".to_vec(), timestamp: 1, client_id: 999 };
    let digest = c.replicas[0].compute_digest(&req);
    // The primary records its own pre-prepare through a request.
    let m = c.request("PUT:a:b", 1);
    let _ = c.replicas[0].step(m);
    let p = Prepare { view: 0, seq_num: 1, digest, replica_id: 1 };
    let signed = c.signers[1].create_signed_message(p);
    let _ = c.replicas[0].step(PBFTMessage::Prepare(signed.clone()));
    let _ = c.replicas[0].step(PBFTMessage::Prepare(signed));
    assert!(!c.replicas[0].is_prepared(1));
    let p = Prepare { view: 0, seq_num: 1, digest, replica_id: 2 };
    let out = c.replicas[0].step(PBFTMessage::Prepare(c.signers[2].create_signed_message(p)));
    assert!(c.replicas[0].is_prepared(1));
    assert!(matches!(out.broadcast, Some(PBFTMessage::Commit(_))));
}

#[test]
fn prepare_naming_another_replica_is_dropped() {
    let mut c = Cluster::new(4);
    let m = c.request("PUT:a:b", 1);
    let _ = c.replicas[0].step(m);
    let req = Request { operation: b"PUT:a:b".to_vec(), timestamp: 1, client_id: 999 };
    let digest = c.replicas[0].compute_digest(&req);
    // Signed by replica 1 but claiming to come from replica 2.
    let p = Prepare { view: 0, seq_num: 1, digest, replica_id: 2 };
    let _ = c.replicas[0].step(PBFTMessage::Prepare(c.signers[1].create_signed_message(p)));
    let p = Prepare { view: 0, seq_num: 1, digest, replica_id: 1 };
    let _ = c.replicas[0].step(PBFTMessage::Prepare(c.signers[1].create_signed_message(p)));
    assert!(!c.replicas[0].is_prepared(1));
}

#[test]
fn prepare_before_pre_prepare_is_dropped() {
    let mut c = Cluster::new(4);
    let req = Request { operation: b"PUT:a:b".to_vec(), timestamp: 1, client_id: 999 };
    let digest = c.replicas[0].compute_digest(&req);
    let p = Prepare { view: 0, seq_num: 1, digest, replica_id: 1 };
    let out = c.replicas[2].step(PBFTMessage::Prepare(c.signers[1].create_signed_message(p)));
    assert!(out.broadcast.is_none());
    assert!(!c.replicas[2].has_log_for(1));
}

#[test]
fn commits_before_prepared_are_kept_and_counted() {
    let mut c = Cluster::new(4);
    let req = Request { operation: b"PUT:a:b".to_vec(), timestamp: 1, client_id: 999 };
    let digest = c.replicas[0].compute_digest(&req);
    // Commits from 0, 1 and 3 reach replica 2 before anything else.
    for id in [0u32, 1, 3] {
        let cm = Commit { view: 0, seq_num: 1, digest, replica_id: id };
        let out = c.replicas[2].step(PBFTMessage::Commit(c.signers[id as usize].create_signed_message(cm)));
        assert!(out.executed.is_empty());
    }
    assert!(c.replicas[2].has_log_for(1));
    assert!(!c.replicas[2].is_committed_at(1));
    let pp = PrePrepare { view: 0, seq_num: 1, digest, request: req };
    let _ = c.replicas[2].step(PBFTMessage::PrePrepare(c.signers[0].create_signed_message(pp)));
    let p = Prepare { view: 0, seq_num: 1, digest, replica_id: 1 };
    let out = c.replicas[2].step(PBFTMessage::Prepare(c.signers[1].create_signed_message(p)));
    assert!(c.replicas[2].is_committed_at(1));
    assert_eq!(c.replicas[2].last_executed(), 1);
    assert_eq!(out.executed.len(), 1);
    assert_eq!(out.executed[0].result, b"OK".to_vec());
}

#[test]
fn commit_with_wrong_view_is_dropped() {
    let mut c = Cluster::new(4);
    let cm = Commit { view: 5, seq_num: 1, digest: [1u8; 32], replica_id: 1 };
    let out = c.replicas[2].step(PBFTMessage::Commit(c.signers[1].create_signed_message(cm)));
    assert!(out.broadcast.is_none());
    assert!(!c.replicas[2].has_log_for(1));
}

#[test]
fn execution_waits_for_earlier_sequence_numbers() {
    let mut c = Cluster::new(4);
    let r1 = c.request("PUT:a:1", 1);
    let r2 = c.request("PUT:a:2", 2);
    let pp1 = c.replicas[0].step(r1).broadcast.unwrap();
    let pp2 = c.replicas[0].step(r2).broadcast.unwrap();
    // Sequence number 2 runs first; nothing executes until 1 commits.
    c.broadcast_from(0, pp2);
    for i in 0..4 {
        assert!(c.replicas[i].is_committed_at(2));
        assert_eq!(c.replicas[i].last_executed(), 0);
    }
    // Committing 1 executes up to 1 only; 2 runs with the next commit past it.
    c.broadcast_from(0, pp1);
    for i in 0..4 {
        assert_eq!(c.replicas[i].last_executed(), 1);
        assert_eq!(c.value(i, "a"), Some(b"1".to_vec()));
    }
    let r3 = c.request("GET:a", 3);
    c.deliver(0, r3);
    for i in 0..4 {
        assert_eq!(c.replicas[i].last_executed(), 3);
        assert_eq!(c.value(i, "a"), Some(b"2".to_vec()));
        assert_eq!(c.results[i][2], (3u64, b"2".to_vec()));
    }
}

#[test]
fn replicas_agree_on_every_execution() {
    let mut c = Cluster::new(4);
    let ops = ["PUT:a:1", "PUT:b:2", "GET:a", "PUT:a:3", "GET:a", "GET:c"];
    for (i, op) in ops.iter().enumerate() {
        let m = c.request(op, i as u64 + 1);
        c.deliver(0, m);
    }
    for i in 1..4 {
        assert_eq!(c.results[i], c.results[0]);
    }
    let expected: Vec<(u64, Vec<u8>)> = vec![
        (1, b"OK".to_vec()),
        (2, b"OK".to_vec()),
        (3, b"1".to_vec()),
        (4, b"OK".to_vec()),
        (5, b"3".to_vec()),
        (6, b"NOT_FOUND".to_vec()),
    ];
    assert_eq!(c.results[0], expected);
}

#[test]
fn last_executed_never_decreases() {
    let mut c = Cluster::new(4);
    let mut seen = vec![0u64; 4];
    for t in 1..6u64 {
        let m = c.request("PUT:k:v", t);
        c.deliver(0, m);
        for i in 0..4 {
            let now = c.replicas[i].last_executed();
            assert!(now >= seen[i]);
            assert_eq!(now, t);
            seen[i] = now;
        }
    }
}

#[test]
fn commit_needs_two_f_plus_one() {
    let mut c = Cluster::new(4);
    let m = c.request("PUT:a:b", 1);
    let pp = c.replicas[0].step(m).broadcast.unwrap();
    let _ = c.replicas[2].step(pp);
    let req = Request { operation: b"PUT:a:b".to_vec(), timestamp: 1, client_id: 999 };
    let digest = c.replicas[0].compute_digest(&req);
    let p = Prepare { view: 0, seq_num: 1, digest, replica_id: 1 };
    let out = c.replicas[2].step(PBFTMessage::Prepare(c.signers[1].create_signed_message(p)));
    // Prepared: replica 2's own commit is recorded, one of the 2f + 1 = 3.
    assert!(matches!(out.broadcast, Some(PBFTMessage::Commit(_))));
    let cm = Commit { view: 0, seq_num: 1, digest, replica_id: 0 };
    let _ = c.replicas[2].step(PBFTMessage::Commit(c.signers[0].create_signed_message(cm)));
    assert!(!c.replicas[2].is_committed_at(1));
    // A commit with another digest does not count.
    let other = Commit { view: 0, seq_num: 1, digest: [0u8; 32], replica_id: 3 };
    let _ = c.replicas[2].step(PBFTMessage::Commit(c.signers[3].create_signed_message(other)));
    assert!(!c.replicas[2].is_committed_at(1));
    let cm = Commit { view: 0, seq_num: 1, digest, replica_id: 3 };
    let out = c.replicas[2].step(PBFTMessage::Commit(c.signers[3].create_signed_message(cm)));
    assert!(c.replicas[2].is_committed_at(1));
    assert_eq!(out.executed.len(), 1);
    assert_eq!(out.executed[0].seq_num, 1);
}

#[test]
fn vote_from_outside_the_cluster_is_dropped() {
    let mut c = Cluster::new(4);
    let m = c.request("PUT:a:b", 1);
    let pp = c.replicas[0].step(m).broadcast.unwrap();
    let _ = c.replicas[2].step(pp);
    let req = Request { operation: b"PUT:a:b".to_vec(), timestamp: 1, client_id: 999 };
    let digest = c.replicas[0].compute_digest(&req);
    // The client's key is known, but id 999 is no replica.
    let p = Prepare { view: 0, seq_num: 1, digest, replica_id: CLIENT_ID };
    let out = c.replicas[2].step(PBFTMessage::Prepare(c.client.create_signed_message(p)));
    assert!(out.broadcast.is_none());
    assert!(!c.replicas[2].is_prepared(1));
}
