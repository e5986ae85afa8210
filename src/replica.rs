//! The replica: its message log, the three-phase agreement (pre-prepare,
//! prepare, commit) and the in-order execution of committed requests.
//!
//! The replica is a state machine: [`Replica::step`] takes one inbound
//! message and returns what to broadcast and what was executed. A Prepare
//! that arrives before its PrePrepare is dropped; its sender's resend is
//! relied upon. A Commit for a sequence number with no PrePrepare yet is
//! kept and counted once the PrePrepare fixes the digest. A Prepare or a
//! Commit counts only for the replica of the cluster that signed it. The
//! primary's pre-prepare stands for its own prepare, so `2f` prepares make
//! a sequence number prepared; `2f + 1` commits, this replica's own
//! included, make it committed. Committing `n` executes the committed
//! requests that follow the last executed one, up to `n`; a request whose
//! timestamp was executed before is passed over without reaching the
//! application. There is no view change: the view stays where it started.
//!
//! A pre-prepare, once recorded for a sequence number, is never replaced:
//! a later one with the same digest is answered with a prepare but leaves
//! the recorded one in place, and the primary takes no request while a
//! pre-prepare is already recorded under its next sequence number (which
//! happens only if a pre-prepare signed with its own key came back to it).
//! Both keep the recorded request the one that is executed.

use vstd::prelude::*;
use std::collections::{HashMap, HashSet};
use sha2::Digest;
use crate::app_state::{apply_operation, utf8_lossy, AppState};
use crate::codec::bytes_equal;
use crate::crypto::{ed25519_signature, message_valid, Crypto};
use crate::message::{
    copy_bytes, request_bytes, Canonical, Commit, PBFTMessage, PrePrepare, PrePrepareView, Prepare, Request,
    RequestView, SignedMessage,
};

verus! {

broadcast use vstd::std_specs::hash::group_hash_axioms;

/// The SHA-256 digest of `bytes`.
pub uninterp spec fn sha256(bytes: Seq<u8>) -> Seq<u8>;

/// Relies on sha2's `Sha256::digest`: the 32-byte SHA-256 digest of `bytes`.
#[verifier::external_body]
fn sha256_digest(bytes: &[u8]) -> (r: [u8; 32])
    ensures
        r@ == sha256(bytes@),
{
    sha2::Sha256::digest(bytes).into()
}

/// The digest that binds protocol messages to a request.
pub open spec fn request_digest(r: RequestView) -> Seq<u8> {
    sha256(request_bytes(r))
}

/// Whether two digests are equal.
pub fn digest_eq(a: &[u8; 32], b: &[u8; 32]) -> (r: bool)
    ensures
        r == (a@ == b@),
{
    bytes_equal(a.as_slice(), b.as_slice())
}

/// Number of prepares in `s` that carry digest `d`.
pub open spec fn prepare_votes(s: Seq<Prepare>, d: Seq<u8>) -> nat
    decreases s.len(),
{
    if s.len() == 0 {
        0
    } else {
        prepare_votes(s.drop_last(), d) + if s.last().digest@ == d {
            1nat
        } else {
            0nat
        }
    }
}

/// Number of commits in `s` that carry digest `d`.
pub open spec fn commit_votes(s: Seq<Commit>, d: Seq<u8>) -> nat
    decreases s.len(),
{
    if s.len() == 0 {
        0
    } else {
        commit_votes(s.drop_last(), d) + if s.last().digest@ == d {
            1nat
        } else {
            0nat
        }
    }
}

/// The ids of the replicas whose prepares `s` holds.
pub open spec fn prepare_ids(s: Seq<Prepare>) -> Set<u32> {
    Set::new(|id: u32| exists|i: int| 0 <= i < s.len() && s[i].replica_id == id)
}

/// The ids of the replicas whose commits `s` holds.
pub open spec fn commit_ids(s: Seq<Commit>) -> Set<u32> {
    Set::new(|id: u32| exists|i: int| 0 <= i < s.len() && s[i].replica_id == id)
}

pub open spec fn prepares_distinct(s: Seq<Prepare>) -> bool {
    forall|i: int, j: int| 0 <= i < j < s.len() ==> s[i].replica_id != s[j].replica_id
}

pub open spec fn commits_distinct(s: Seq<Commit>) -> bool {
    forall|i: int, j: int| 0 <= i < j < s.len() ==> s[i].replica_id != s[j].replica_id
}

proof fn lemma_prepare_votes_push(s: Seq<Prepare>, p: Prepare, d: Seq<u8>)
    ensures
        prepare_votes(s.push(p), d) == prepare_votes(s, d) + if p.digest@ == d {
            1nat
        } else {
            0nat
        },
{
    assert(s.push(p).drop_last() =~= s);
}

proof fn lemma_commit_votes_push(s: Seq<Commit>, c: Commit, d: Seq<u8>)
    ensures
        commit_votes(s.push(c), d) == commit_votes(s, d) + if c.digest@ == d {
            1nat
        } else {
            0nat
        },
{
    assert(s.push(c).drop_last() =~= s);
}

/// What one replica has recorded for one sequence number.
pub struct MessageLog {
    request: Option<Request>,
    pre_prepare: Option<PrePrepare>,
    /// The prepares by replica: at most one per replica id (see `wf`). A
    /// vector, so that counting the votes for a digest is a loop over it.
    prepares: Vec<Prepare>,
    /// The commits by replica, at most one per replica id.
    commits: Vec<Commit>,
    prepared: bool,
    committed: bool,
}

impl MessageLog {
    /// Nothing recorded.
    pub closed spec fn is_blank(&self) -> bool {
        &&& self.request is None
        &&& self.pre_prepare is None
        &&& self.prepares@.len() == 0
        &&& self.commits@.len() == 0
        &&& !self.prepared
        &&& !self.committed
    }

    /// A record with nothing in it yet.
    pub fn new() -> (r: Self)
        ensures
            r.is_blank(),
    {
        MessageLog {
            request: None,
            pre_prepare: None,
            prepares: Vec::new(),
            commits: Vec::new(),
            prepared: false,
            committed: false,
        }
    }

    /// The record is consistent for a cluster that tolerates `f` faults:
    /// the request is the pre-prepare's and has its digest, each replica of
    /// the cluster votes at most once, prepares exist only under a
    /// pre-prepare and share its digest, and the prepared and committed
    /// flags stand on quorums.
    pub closed spec fn wf(&self, f: u32) -> bool {
        &&& (self.pre_prepare is Some <==> self.request is Some)
        &&& (self.pre_prepare is Some ==> self.request->Some_0@ == self.pre_prepare->Some_0.request@)
        &&& (self.pre_prepare is Some ==> self.pre_prepare->Some_0.digest@ == request_digest(
            self.pre_prepare->Some_0.request@,
        ))
        &&& (self.pre_prepare is None ==> self.prepares@.len() == 0)
        &&& (self.pre_prepare is Some ==> forall|i: int|
            0 <= i < self.prepares@.len() ==> self.prepares@[i].digest@
                == self.pre_prepare->Some_0.digest@)
        &&& prepares_distinct(self.prepares@)
        &&& commits_distinct(self.commits@)
        &&& forall|i: int| 0 <= i < self.prepares@.len() ==> self.prepares@[i].replica_id < 3 * f + 1
        &&& forall|i: int| 0 <= i < self.commits@.len() ==> self.commits@[i].replica_id < 3 * f + 1
        &&& (self.prepared ==> self.pre_prepare is Some && prepare_votes(
            self.prepares@,
            self.pre_prepare->Some_0.digest@,
        ) >= 2 * f)
        &&& (self.committed ==> self.prepared && commit_votes(
            self.commits@,
            self.pre_prepare->Some_0.digest@,
        ) >= 2 * f + 1)
    }

    /// The state that `new` has reached from `self` without going back:
    /// a pre-prepare, once recorded, stays with its request, and the
    /// prepared and committed flags never clear.
    pub closed spec fn advances_to(&self, new: &MessageLog) -> bool {
        &&& (self.pre_prepare is Some ==> new.pre_prepare is Some
            && new.pre_prepare->Some_0@ == self.pre_prepare->Some_0@
            && new.request->Some_0@ == self.request->Some_0@)
        &&& (self.prepared ==> new.prepared)
        &&& (self.committed ==> new.committed)
    }

    /// Whether a prepare from `id` is recorded.
    fn has_prepare_from(&self, id: u32) -> (r: bool)
        ensures
            r == prepare_ids(self.prepares@).contains(id),
    {
        let mut i: usize = 0;
        while i < self.prepares.len()
            invariant
                i <= self.prepares@.len(),
                forall|j: int| 0 <= j < i ==> self.prepares@[j].replica_id != id,
            decreases self.prepares@.len() - i,
        {
            if self.prepares[i].replica_id == id {
                return true;
            }
            i = i + 1;
        }
        false
    }

    /// Whether a commit from `id` is recorded.
    fn has_commit_from(&self, id: u32) -> (r: bool)
        ensures
            r == commit_ids(self.commits@).contains(id),
    {
        let mut i: usize = 0;
        while i < self.commits.len()
            invariant
                i <= self.commits@.len(),
                forall|j: int| 0 <= j < i ==> self.commits@[j].replica_id != id,
            decreases self.commits@.len() - i,
        {
            if self.commits[i].replica_id == id {
                return true;
            }
            i = i + 1;
        }
        false
    }

    /// Number of recorded prepares with digest `d`.
    fn count_prepares(&self, d: &[u8; 32]) -> (r: usize)
        ensures
            r == prepare_votes(self.prepares@, d@),
    {
        let mut n: usize = 0;
        let mut i: usize = 0;
        while i < self.prepares.len()
            invariant
                i <= self.prepares@.len(),
                n == prepare_votes(self.prepares@.subrange(0, i as int), d@),
                n <= i,
            decreases self.prepares@.len() - i,
        {
            proof {
                assert(self.prepares@.subrange(0, i + 1).drop_last() =~= self.prepares@.subrange(0, i as int));
            }
            if digest_eq(&self.prepares[i].digest, d) {
                n = n + 1;
            }
            i = i + 1;
        }
        assert(self.prepares@.subrange(0, i as int) =~= self.prepares@);
        n
    }

    /// Number of recorded commits with digest `d`.
    fn count_commits(&self, d: &[u8; 32]) -> (r: usize)
        ensures
            r == commit_votes(self.commits@, d@),
    {
        let mut n: usize = 0;
        let mut i: usize = 0;
        while i < self.commits.len()
            invariant
                i <= self.commits@.len(),
                n == commit_votes(self.commits@.subrange(0, i as int), d@),
                n <= i,
            decreases self.commits@.len() - i,
        {
            proof {
                assert(self.commits@.subrange(0, i + 1).drop_last() =~= self.commits@.subrange(0, i as int));
            }
            if digest_eq(&self.commits[i].digest, d) {
                n = n + 1;
            }
            i = i + 1;
        }
        assert(self.commits@.subrange(0, i as int) =~= self.commits@);
        n
    }
}

/// The largest tolerated fault count for which `3f + 1` fits in a `u32`.
pub const MAX_FAULTS: u32 = 1431655764;

/// The timestamps of the requests in `s`.
pub open spec fn timestamps(s: Seq<RequestView>) -> Set<u64> {
    Set::new(|t: u64| exists|i: int| 0 <= i < s.len() && s[i].timestamp == t)
}

/// The requests of `s` whose timestamp no earlier request of `s` carries:
/// those that reach the application when `s` is executed in order.
pub open spec fn fresh_requests(s: Seq<RequestView>) -> Seq<RequestView>
    decreases s.len(),
{
    if s.len() == 0 {
        Seq::empty()
    } else if timestamps(s.drop_last()).contains(s.last().timestamp) {
        fresh_requests(s.drop_last())
    } else {
        fresh_requests(s.drop_last()).push(s.last())
    }
}

/// The store after applying the operations of `ops` in order to an empty one.
pub open spec fn run_operations(ops: Seq<RequestView>) -> Map<Seq<u8>, Seq<u8>>
    decreases ops.len(),
{
    if ops.len() == 0 {
        Map::empty()
    } else {
        apply_operation(run_operations(ops.drop_last()), utf8_lossy(ops.last().operation)).0
    }
}

/// The result that the application gives for `ops[i]`, after `ops[..i]`.
pub open spec fn operation_result(ops: Seq<RequestView>, i: int) -> Seq<u8> {
    apply_operation(run_operations(ops.take(i)), utf8_lossy(ops[i].operation)).1
}

/// One executed request and the application's result.
#[derive(Debug)]
pub struct Execution {
    pub seq_num: u64,
    pub result: Vec<u8>,
}

/// What a step asks the transport to broadcast, and what it executed.
#[derive(Debug)]
pub struct StepOutput {
    pub broadcast: Option<PBFTMessage>,
    pub executed: Vec<Execution>,
}

/// One replica of the cluster.
pub struct Replica {
    node_id: u32,
    f: u32,
    view: u64,
    next_seq_num: u64,
    message_log: HashMap<u64, MessageLog>,
    executed_req: HashSet<u64>,
    last_executed: u64,
    crypto: Crypto,
    app_state: AppState,
}

impl Replica {
    pub closed spec fn id(&self) -> u32 {
        self.node_id
    }

    /// The PKCS#8 document of the key that this replica signs with.
    pub closed spec fn signing_key(&self) -> Seq<u8> {
        self.crypto.key()
    }

    pub closed spec fn faults(&self) -> u32 {
        self.f
    }

    pub closed spec fn view_number(&self) -> u64 {
        self.view
    }

    /// The id of the current view's primary.
    pub closed spec fn primary(&self) -> u64 {
        self.view % ((3 * self.f + 1) as u64)
    }

    pub closed spec fn next_seq(&self) -> u64 {
        self.next_seq_num
    }

    pub closed spec fn executed_through(&self) -> u64 {
        self.last_executed
    }

    /// The public keys that signatures are checked against.
    pub closed spec fn keys(&self) -> Map<u32, Seq<u8>> {
        self.crypto.peer_keys()
    }

    pub closed spec fn has_log(&self, n: u64) -> bool {
        self.message_log@.contains_key(n)
    }

    pub closed spec fn pre_prepare_at(&self, n: u64) -> Option<PrePrepareView> {
        if self.has_log(n) && self.message_log@[n].pre_prepare is Some {
            Some(self.message_log@[n].pre_prepare->Some_0@)
        } else {
            None
        }
    }

    pub closed spec fn request_at(&self, n: u64) -> Option<RequestView> {
        if self.has_log(n) && self.message_log@[n].request is Some {
            Some(self.message_log@[n].request->Some_0@)
        } else {
            None
        }
    }

    pub closed spec fn prepares_at(&self, n: u64) -> Seq<Prepare> {
        if self.has_log(n) {
            self.message_log@[n].prepares@
        } else {
            Seq::empty()
        }
    }

    pub closed spec fn commits_at(&self, n: u64) -> Seq<Commit> {
        if self.has_log(n) {
            self.message_log@[n].commits@
        } else {
            Seq::empty()
        }
    }

    pub closed spec fn prepared(&self, n: u64) -> bool {
        self.has_log(n) && self.message_log@[n].prepared
    }

    pub closed spec fn committed(&self, n: u64) -> bool {
        self.has_log(n) && self.message_log@[n].committed
    }

    pub closed spec fn executed_timestamps(&self) -> Set<u64> {
        self.executed_req@
    }

    pub closed spec fn app(&self) -> Map<Seq<u8>, Seq<u8>> {
        self.app_state.view()
    }

    /// The request executed at each sequence number `1..=last_executed`.
    pub closed spec fn executed_requests(&self) -> Seq<RequestView> {
        Seq::new(self.last_executed as nat, |i: int| self.request_at((i + 1) as u64)->Some_0)
    }

    /// The requests that reached the application, in order.
    pub open spec fn applied(&self) -> Seq<RequestView> {
        fresh_requests(self.executed_requests())
    }

    /// The replica's invariant.
    pub closed spec fn wf(&self) -> bool {
        &&& 1 <= self.f <= MAX_FAULTS
        &&& self.node_id < 3 * self.f + 1
        &&& self.crypto.id() == self.node_id
        &&& self.app_state.wf()
        &&& forall|n: u64| #[trigger]
            self.message_log@.contains_key(n) ==> self.message_log@[n].wf(self.f)
        &&& forall|k: u64|
            1 <= k <= self.last_executed ==> #[trigger] self.message_log@.contains_key(k)
                && self.message_log@[k].committed
        &&& self.executed_req@ == timestamps(self.executed_requests())
        &&& self.app_state.view() == run_operations(self.applied())
    }

    /// Everything but the log and the sequence counter is as in `other`.
    pub closed spec fn same_but_log(&self, other: &Replica) -> bool {
        &&& self.node_id == other.node_id
        &&& self.f == other.f
        &&& self.view == other.view
        &&& self.executed_req@ == other.executed_req@
        &&& self.last_executed == other.last_executed
        &&& self.crypto == other.crypto
        &&& self.app_state == other.app_state
    }

    /// `new` is a later state of `self`: identity, view and keys are kept;
    /// `last_executed` and the sequence counter never go back; no log
    /// record goes back (see [`MessageLog::advances_to`]); what was
    /// executed stays a prefix of what is executed.
    pub closed spec fn evolves_to(&self, new: &Replica) -> bool {
        &&& new.node_id == self.node_id
        &&& new.f == self.f
        &&& new.view == self.view
        &&& new.crypto == self.crypto
        &&& self.last_executed <= new.last_executed
        &&& self.next_seq_num <= new.next_seq_num
        &&& forall|n: u64| #[trigger]
            self.message_log@.contains_key(n) ==> new.message_log@.contains_key(n)
                && self.message_log@[n].advances_to(&new.message_log@[n])
        &&& new.executed_requests().take(self.last_executed as int) == self.executed_requests()
    }
}

proof fn lemma_advances_refl(e: MessageLog)
    ensures
        e.advances_to(&e),
{
}

proof fn lemma_advances_trans(a: MessageLog, b: MessageLog, c: MessageLog)
    requires
        a.advances_to(&b),
        b.advances_to(&c),
    ensures
        a.advances_to(&c),
{
}

proof fn lemma_evolves_refl(a: Replica)
    ensures
        a.evolves_to(&a),
{
    assert forall|n: u64| #[trigger] a.message_log@.contains_key(n) implies a.message_log@.contains_key(n)
        && a.message_log@[n].advances_to(&a.message_log@[n]) by {
        lemma_advances_refl(a.message_log@[n]);
    }
    assert(a.executed_requests().take(a.last_executed as int) =~= a.executed_requests());
}

proof fn lemma_evolves_trans(a: Replica, b: Replica, c: Replica)
    requires
        a.evolves_to(&b),
        b.evolves_to(&c),
    ensures
        a.evolves_to(&c),
{
    assert forall|n: u64| #[trigger] a.message_log@.contains_key(n) implies c.message_log@.contains_key(n)
        && a.message_log@[n].advances_to(&c.message_log@[n]) by {
        lemma_advances_trans(a.message_log@[n], b.message_log@[n], c.message_log@[n]);
    }
    assert(c.executed_requests().take(a.last_executed as int) =~= c.executed_requests().take(
        b.last_executed as int,
    ).take(a.last_executed as int));
}

/// Putting back into the log a record that only advanced keeps the
/// invariant and what was executed.
proof fn lemma_replace_log(a: Replica, b: Replica, n: u64, e: MessageLog)
    requires
        a.wf(),
        b.same_but_log(&a),
        a.next_seq_num <= b.next_seq_num,
        b.message_log@ == a.message_log@.insert(n, e),
        e.wf(a.f),
        a.message_log@.contains_key(n) ==> a.message_log@[n].advances_to(&e),
    ensures
        b.wf(),
        a.evolves_to(&b),
        b.executed_requests() == a.executed_requests(),
{
    assert forall|i: int| 0 <= i < a.last_executed implies #[trigger] b.executed_requests()[i]
        == a.executed_requests()[i] by {
        let k = (i + 1) as u64;
        assert(a.message_log@.contains_key(k));
    }
    assert(b.executed_requests() =~= a.executed_requests());
    assert forall|n2: u64| #[trigger] a.message_log@.contains_key(n2) implies b.message_log@.contains_key(n2)
        && a.message_log@[n2].advances_to(&b.message_log@[n2]) by {
        if n2 != n {
            lemma_advances_refl(a.message_log@[n2]);
        }
    }
    assert(b.executed_requests().take(a.last_executed as int) =~= b.executed_requests());
    assert forall|k: u64| 1 <= k <= b.last_executed implies #[trigger] b.message_log@.contains_key(k)
        && b.message_log@[k].committed by {
        assert(a.message_log@.contains_key(k));
    }
}

impl Replica {
    /// Removes the record for `n` from the log and hands it out, or a blank one.
    fn take_log(&mut self, n: u64) -> (r: MessageLog)
        ensures
            final(self).same_but_log(old(self)),
            final(self).next_seq_num == old(self).next_seq_num,
            final(self).message_log@ == old(self).message_log@.remove(n),
            old(self).message_log@.contains_key(n) ==> r == old(self).message_log@[n],
            !old(self).message_log@.contains_key(n) ==> r.is_blank(),
    {
        match self.message_log.remove(&n) {
            Some(log) => log,
            None => MessageLog::new(),
        }
    }

    fn total_nodes(&self) -> (r: u32)
        requires
            self.f <= MAX_FAULTS,
        ensures
            r == 3 * self.f + 1,
    {
        3 * self.f + 1
    }

    /// The id of the current view's primary.
    fn get_primary(&self) -> (r: u32)
        requires
            self.wf(),
        ensures
            r == self.primary(),
    {
        (self.view % (self.total_nodes() as u64)) as u32
    }

    /// Whether this replica is the primary of the current view.
    pub fn is_primary(&self) -> (r: bool)
        requires
            self.wf(),
        ensures
            r == (self.id() as u64 == self.primary()),
    {
        self.node_id as u64 == self.view % (self.total_nodes() as u64)
    }

    /// The digest of the request's canonical bytes.
    pub fn compute_digest(&self, req: &Request) -> (r: [u8; 32])
        ensures
            r@ == request_digest(req@),
    {
        let bytes = req.canonical_bytes();
        sha256_digest(bytes.as_slice())
    }
}

/// The primary takes a request: it is the primary of the view, the
/// request's timestamp was not executed yet, the sequence counter has room,
/// and nothing was proposed yet under the next sequence number.
pub open spec fn request_accepted(old: Replica, r: RequestView) -> bool {
    &&& old.id() as u64 == old.primary()
    &&& !old.executed_timestamps().contains(r.timestamp)
    &&& old.next_seq() < u64::MAX
    &&& old.pre_prepare_at(old.next_seq()) is None
}

/// What handling a client request does: a taken request gets the next
/// sequence number, is proposed in a pre-prepare that is recorded and
/// broadcast, signed by this replica; any other leaves the replica as it was.
pub open spec fn request_effect(
    old: Replica,
    new: Replica,
    s: SignedMessage<Request>,
    out: Option<PBFTMessage>,
) -> bool {
    if request_accepted(old, s.message@) {
        let n = old.next_seq();
        let pp = PrePrepareView {
            view: old.view_number(),
            seq_num: n,
            digest: request_digest(s.message@),
            request: s.message@,
        };
        &&& new.next_seq() == n + 1
        &&& new.pre_prepare_at(n) == Some(pp)
        &&& new.request_at(n) == Some(s.message@)
        &&& new.prepares_at(n) == old.prepares_at(n)
        &&& new.commits_at(n) == old.commits_at(n)
        &&& new.same_log_except(&old, n)
        &&& new.same_but_log(&old)
        &&& out matches Some(PBFTMessage::PrePrepare(m)) && m.message@ == pp && m.signer_id
            == old.id() && m.signature@ == ed25519_signature(old.signing_key(), m.message.canonical())
    } else {
        new == old && out is None
    }
}

impl Replica {
    /// The log records other than that of `n` are as in `other`.
    pub closed spec fn same_log_except(&self, other: &Replica, n: u64) -> bool {
        forall|m: u64|
            m != n ==> (#[trigger] self.message_log@.contains_key(m) == other.message_log@.contains_key(m))
                && (self.message_log@.contains_key(m) ==> self.message_log@[m]
                == other.message_log@[m])
    }

    /// Whether a pre-prepare is recorded for `n`.
    fn has_pre_prepare(&self, n: u64) -> (r: bool)
        ensures
            r == (self.pre_prepare_at(n) is Some),
    {
        match self.message_log.get(&n) {
            Some(log) => log.pre_prepare.is_some(),
            None => false,
        }
    }

    /// The primary assigns the next sequence number to a fresh request,
    /// records the pre-prepare, and returns it signed for broadcast.
    fn handle_request(&mut self, signed_req: SignedMessage<Request>) -> (r: Option<PBFTMessage>)
        requires
            old(self).wf(),
        ensures
            final(self).wf(),
            old(self).evolves_to(final(self)),
            request_effect(*old(self), *final(self), signed_req, r),
    {
        proof {
            lemma_evolves_refl(*self);
        }
        if !self.is_primary() {
            return None;
        }
        let req = signed_req.message;
        if self.executed_req.contains(&req.timestamp) {
            return None;
        }
        if self.next_seq_num == u64::MAX {
            return None;
        }
        let seq_num = self.next_seq_num;
        if self.has_pre_prepare(seq_num) {
            return None;
        }
        let digest = self.compute_digest(&req);
        let pre_prepare = PrePrepare { view: self.view, seq_num, digest, request: req.clone() };
        let signed = self.crypto.create_signed_message(pre_prepare.clone());
        let ghost before = *self;
        self.next_seq_num = seq_num + 1;
        let mut log = self.take_log(seq_num);
        log.request = Some(req);
        log.pre_prepare = Some(pre_prepare);
        let ghost entry = log;
        self.message_log.insert(seq_num, log);
        proof {
            assert(self.message_log@ =~= before.message_log@.insert(seq_num, entry));
            lemma_replace_log(before, *self, seq_num, entry);
            assert(self.prepares_at(seq_num) =~= before.prepares_at(seq_num));
            assert(self.commits_at(seq_num) =~= before.commits_at(seq_num));
            assert(self.same_log_except(&before, seq_num));
            assert(self.same_but_log(&before));
            assert(self.pre_prepare_at(seq_num) == Some(pre_prepare@));
        }
        Some(PBFTMessage::PrePrepare(signed))
    }
}

proof fn lemma_timestamps_push(s: Seq<RequestView>, r: RequestView)
    ensures
        timestamps(s.push(r)) == timestamps(s).insert(r.timestamp),
{
    assert forall|t: u64| timestamps(s).insert(r.timestamp).contains(t) implies #[trigger] timestamps(
        s.push(r),
    ).contains(t) by {
        if t != r.timestamp {
            let i = choose|i: int| 0 <= i < s.len() && s[i].timestamp == t;
            assert(s.push(r)[i].timestamp == t);
        } else {
            assert(s.push(r)[s.len() as int].timestamp == t);
        }
    }
    assert forall|t: u64| #[trigger] timestamps(s.push(r)).contains(t) implies timestamps(s).insert(
        r.timestamp,
    ).contains(t) by {
        let i = choose|i: int| 0 <= i < s.len() + 1 && s.push(r)[i].timestamp == t;
        if i < s.len() {
            assert(s[i].timestamp == t);
        }
    }
    assert(timestamps(s.push(r)) =~= timestamps(s).insert(r.timestamp));
}

proof fn lemma_fresh_push(s: Seq<RequestView>, r: RequestView)
    ensures
        fresh_requests(s.push(r)) == if timestamps(s).contains(r.timestamp) {
            fresh_requests(s)
        } else {
            fresh_requests(s).push(r)
        },
{
    assert(s.push(r).drop_last() =~= s);
}

proof fn lemma_run_push(ops: Seq<RequestView>, r: RequestView)
    ensures
        run_operations(ops.push(r)) == apply_operation(run_operations(ops), utf8_lossy(r.operation)).0,
{
    assert(ops.push(r).drop_last() =~= ops);
}

proof fn lemma_result_push(ops: Seq<RequestView>, r: RequestView, j: int)
    requires
        0 <= j < ops.len(),
    ensures
        operation_result(ops.push(r), j) == operation_result(ops, j),
{
    assert(ops.push(r).take(j) =~= ops.take(j));
}

/// What executing committed requests in order from `old` up to `target`
/// gave: `last_executed` moved over committed sequence numbers only, up
/// to `target`, stopping short of it only before one that is not
/// committed; each request that reached the application has its result
/// in `out`, in order.
pub open spec fn execution_effect(old: Replica, new: Replica, target: u64, out: Seq<Execution>) -> bool {
    &&& old.executed_through() <= new.executed_through()
    &&& (new.executed_through() > old.executed_through() ==> new.executed_through() <= target)
    &&& (old.executed_through() < target ==> new.executed_through() == target || !new.committed(
        (new.executed_through() + 1) as u64,
    ))
    &&& new.applied().len() >= old.applied().len()
    &&& out.len() == new.applied().len() - old.applied().len()
    &&& forall|i: int|
        0 <= i < out.len() ==> {
            &&& (#[trigger] out[i]).result@ == operation_result(new.applied(), old.applied().len() + i)
            &&& old.executed_through() < out[i].seq_num <= new.executed_through()
            &&& new.request_at(out[i].seq_num) == Some(new.applied()[old.applied().len() + i])
        }
}

impl Replica {
    /// Whether `n` is committed.
    fn is_committed(&self, n: u64) -> (r: bool)
        ensures
            r == self.committed(n),
    {
        match self.message_log.get(&n) {
            Some(log) => log.committed,
            None => false,
        }
    }

    /// Executes the committed request at `seq_num`, the one after the last
    /// executed. A request whose timestamp was executed already does not
    /// reach the application: `last_executed` advances over it and `None`
    /// comes back. Otherwise the application's result comes back.
    #[verifier::rlimit(30)]
    fn execute_request(&mut self, seq_num: u64) -> (r: Option<Vec<u8>>)
        requires
            old(self).wf(),
            seq_num == old(self).executed_through() + 1,
            old(self).committed(seq_num),
        ensures
            final(self).wf(),
            old(self).evolves_to(final(self)),
            final(self).message_log@ == old(self).message_log@,
            final(self).next_seq_num == old(self).next_seq_num,
            final(self).executed_through() == seq_num,
            final(self).executed_requests() == old(self).executed_requests().push(
                old(self).request_at(seq_num)->Some_0,
            ),
            r is Some <==> !old(self).executed_timestamps().contains(
                old(self).request_at(seq_num)->Some_0.timestamp,
            ),
            r is Some ==> final(self).applied() == old(self).applied().push(
                old(self).request_at(seq_num)->Some_0,
            ) && r->Some_0@ == operation_result(final(self).applied(), old(self).applied().len() as int),
            r is None ==> final(self).applied() == old(self).applied(),
    {
        let ghost before = *self;
        let ghost req = self.request_at(seq_num)->Some_0;
        let (op, ts) = match self.message_log.get(&seq_num) {
            Some(log) => match &log.request {
                Some(r) => (copy_bytes(&r.operation), r.timestamp),
                None => {
                    return None;
                },
            },
            None => {
                return None;
            },
        };
        proof {
            assert(before.message_log@[seq_num].pre_prepare is Some);
            lemma_timestamps_push(before.executed_requests(), req);
            lemma_fresh_push(before.executed_requests(), req);
        }
        if self.executed_req.contains(&ts) {
            self.last_executed = seq_num;
            proof {
                assert(self.executed_requests() =~= before.executed_requests().push(req));
                assert(self.executed_requests().take(before.last_executed as int) =~= before.executed_requests());
                assert(self.executed_req@ =~= timestamps(self.executed_requests()));
                assert forall|k: u64| 1 <= k <= self.last_executed implies #[trigger] self.message_log@.contains_key(k)
                    && self.message_log@[k].committed by {
                    if k < seq_num {
                        assert(before.message_log@.contains_key(k));
                    }
                }
                assert(self.app_state.view() == run_operations(self.applied()));
                assert(self.wf());
                lemma_evolves_refl(before);
                assert forall|n: u64| #[trigger] before.message_log@.contains_key(n) implies self.message_log@.contains_key(n)
                    && before.message_log@[n].advances_to(&self.message_log@[n]) by {
                    lemma_advances_refl(before.message_log@[n]);
                }
            }
            return None;
        }
        let result = self.app_state.execute(op.as_slice());
        self.executed_req.insert(ts);
        self.last_executed = seq_num;
        proof {
            assert(self.executed_requests() =~= before.executed_requests().push(req));
            assert(self.executed_requests().take(before.last_executed as int) =~= before.executed_requests());
            lemma_run_push(before.applied(), req);
            assert(self.applied().take(before.applied().len() as int) =~= before.applied());
            assert(self.executed_req@ =~= timestamps(self.executed_requests()));
            assert(self.app_state.view() == run_operations(self.applied()));
            assert forall|k: u64| 1 <= k <= self.last_executed implies #[trigger] self.message_log@.contains_key(k)
                && self.message_log@[k].committed by {
                if k < seq_num {
                    assert(before.message_log@.contains_key(k));
                }
            }
            assert(self.wf());
            assert forall|n: u64| #[trigger] before.message_log@.contains_key(n) implies self.message_log@.contains_key(n)
                && before.message_log@[n].advances_to(&self.message_log@[n]) by {
                lemma_advances_refl(before.message_log@[n]);
            }
        }
        Some(result)
    }

    /// Executes committed requests in sequence-number order, from the one
    /// after the last executed up to `target`, stopping at the first that
    /// is not committed.
    fn try_execute_up_to(&mut self, target_seq: u64) -> (r: Vec<Execution>)
        requires
            old(self).wf(),
        ensures
            final(self).wf(),
            old(self).evolves_to(final(self)),
            final(self).message_log@ == old(self).message_log@,
            final(self).next_seq_num == old(self).next_seq_num,
            execution_effect(*old(self), *final(self), target_seq, r@),
    {
        let ghost start = *self;
        proof {
            lemma_evolves_refl(start);
            assert(start.applied().take(start.applied().len() as int) =~= start.applied());
        }
        let mut out: Vec<Execution> = Vec::new();
        while self.last_executed < target_seq
            invariant
                start == *old(self),
                self.wf(),
                start.evolves_to(self),
                self.message_log@ == start.message_log@,
                self.next_seq_num == start.next_seq_num,
                start.last_executed <= self.last_executed,
                self.last_executed > start.last_executed ==> self.last_executed <= target_seq,
                self.applied().len() >= start.applied().len(),
                self.applied().take(start.applied().len() as int) == start.applied(),
                out@.len() == self.applied().len() - start.applied().len(),
                forall|i: int|
                    0 <= i < out@.len() ==> {
                        &&& (#[trigger] out@[i]).result@ == operation_result(
                            self.applied(),
                            start.applied().len() + i,
                        )
                        &&& start.last_executed < out@[i].seq_num <= self.last_executed
                        &&& self.request_at(out@[i].seq_num) == Some(
                            self.applied()[start.applied().len() + i],
                        )
                    },
            decreases target_seq - self.last_executed,
        {
            let k = self.last_executed + 1;
            if !self.is_committed(k) {
                return out;
            }
            let ghost mid = *self;
            let ghost out_before = out@;
            let res = self.execute_request(k);
            proof {
                lemma_evolves_trans(start, mid, *self);
            }
            match res {
                Some(result) => {
                    proof {
                        let req = mid.request_at(k)->Some_0;
                        assert(self.applied().take(start.applied().len() as int) =~= mid.applied().take(
                            start.applied().len() as int,
                        ));
                        assert forall|i: int| 0 <= i < out_before.len() implies #[trigger] operation_result(
                            self.applied(),
                            start.applied().len() + i,
                        ) == operation_result(mid.applied(), start.applied().len() + i) by {
                            lemma_result_push(mid.applied(), req, start.applied().len() + i);
                        }
                    }
                    out.push(Execution { seq_num: k, result });
                },
                None => {},
            }
        }
        out
    }
}

/// A pre-prepare is taken: it is signed by the view's primary, is for the
/// current view, its digest is that of its request, and no pre-prepare
/// with another digest is recorded for its sequence number.
pub open spec fn pre_prepare_accepted(old: Replica, s: SignedMessage<PrePrepare>) -> bool {
    let pp = s.message@;
    &&& s.signer_id as u64 == old.primary()
    &&& pp.view == old.view_number()
    &&& request_digest(pp.request) == pp.digest
    &&& (old.pre_prepare_at(pp.seq_num) matches Some(cur) ==> cur.digest == pp.digest)
}

/// What handling a pre-prepare does: a taken one is recorded with its
/// request unless one is recorded already, this replica's prepare is
/// recorded unless it is already, and the prepare is broadcast, signed by
/// this replica; any other leaves the replica as it was.
pub open spec fn pre_prepare_effect(
    old: Replica,
    new: Replica,
    s: SignedMessage<PrePrepare>,
    out: Option<PBFTMessage>,
) -> bool {
    if pre_prepare_accepted(old, s) {
        let pp = s.message@;
        let n = pp.seq_num;
        let prepare = (Prepare {
            view: s.message.view,
            seq_num: n,
            digest: s.message.digest,
            replica_id: old.id(),
        });
        let recorded = if old.pre_prepare_at(n) is Some {
            old.pre_prepare_at(n)->Some_0
        } else {
            pp
        };
        &&& new.pre_prepare_at(n) == Some(recorded)
        &&& new.request_at(n) == Some(recorded.request)
        &&& new.prepares_at(n) == if prepare_ids(old.prepares_at(n)).contains(old.id()) {
            old.prepares_at(n)
        } else {
            old.prepares_at(n).push(prepare)
        }
        &&& new.commits_at(n) == old.commits_at(n)
        &&& new.prepared(n) == old.prepared(n)
        &&& new.committed(n) == old.committed(n)
        &&& new.same_log_except(&old, n)
        &&& new.same_but_log(&old)
        &&& new.next_seq() == old.next_seq()
        &&& out matches Some(PBFTMessage::Prepare(m)) && m.message == prepare && m.signer_id
            == old.id() && m.signature@ == ed25519_signature(old.signing_key(), m.message.canonical())
    } else {
        new == old && out is None
    }
}

/// A prepare is taken: it is for the current view, signed by the replica
/// of the cluster that it names, matches the digest of the recorded
/// pre-prepare, and that replica has no prepare recorded for the sequence
/// number yet.
pub open spec fn prepare_accepted(old: Replica, s: SignedMessage<Prepare>) -> bool {
    let p = s.message;
    &&& p.view == old.view_number()
    &&& p.replica_id == s.signer_id
    &&& p.replica_id < 3 * old.faults() + 1
    &&& old.pre_prepare_at(p.seq_num) is Some
    &&& old.pre_prepare_at(p.seq_num)->Some_0.digest == p.digest@
    &&& !prepare_ids(old.prepares_at(p.seq_num)).contains(p.replica_id)
}

/// What handling a prepare does: a taken one is recorded; the sequence
/// number becomes prepared once `2f` recorded prepares match; a prepared
/// replica with no commit of its own records one and broadcasts it, signed;
/// the sequence number becomes committed once it is prepared and `2f + 1`
/// recorded commits match, and then committed requests are executed up to
/// it. Any other prepare leaves the replica as it was.
pub open spec fn prepare_effect(old: Replica, new: Replica, s: SignedMessage<Prepare>, out: StepOutput) -> bool {
    if prepare_accepted(old, s) {
        let p = s.message;
        let n = p.seq_num;
        let d = p.digest@;
        let f = old.faults();
        let prepares = old.prepares_at(n).push(p);
        let prepared = old.prepared(n) || prepare_votes(prepares, d) >= 2 * f;
        let sends = prepared && !commit_ids(old.commits_at(n)).contains(old.id());
        let commit = (Commit { view: p.view, seq_num: n, digest: p.digest, replica_id: old.id() });
        let commits = if sends {
            old.commits_at(n).push(commit)
        } else {
            old.commits_at(n)
        };
        let committed = old.committed(n) || (prepared && commit_votes(commits, d) >= 2 * f + 1);
        &&& new.pre_prepare_at(n) == old.pre_prepare_at(n)
        &&& new.request_at(n) == old.request_at(n)
        &&& new.prepares_at(n) == prepares
        &&& new.prepared(n) == prepared
        &&& new.commits_at(n) == commits
        &&& new.committed(n) == committed
        &&& new.same_log_except(&old, n)
        &&& new.next_seq() == old.next_seq()
        &&& (sends ==> (out.broadcast matches Some(PBFTMessage::Commit(m)) && m.message == commit
            && m.signer_id == old.id() && m.signature@ == ed25519_signature(old.signing_key(), m.message.canonical())))
        &&& (!sends ==> out.broadcast is None)
        &&& (committed ==> execution_effect(old, new, n, out.executed@))
        &&& (!committed ==> out.executed@.len() == 0 && new.same_but_log(&old))
    } else {
        new == old && out.broadcast is None && out.executed@.len() == 0
    }
}

/// A commit is taken: it is for the current view, signed by the replica
/// of the cluster that it names, matches the digest of the recorded
/// pre-prepare if there is one, and that replica has no commit recorded
/// for the sequence number yet.
pub open spec fn commit_accepted(old: Replica, s: SignedMessage<Commit>) -> bool {
    let c = s.message;
    &&& c.view == old.view_number()
    &&& c.replica_id == s.signer_id
    &&& c.replica_id < 3 * old.faults() + 1
    &&& (old.pre_prepare_at(c.seq_num) is Some ==> old.pre_prepare_at(c.seq_num)->Some_0.digest
        == c.digest@)
    &&& !commit_ids(old.commits_at(c.seq_num)).contains(c.replica_id)
}

/// What handling a commit does: a taken one is recorded; the sequence
/// number becomes committed once it is prepared and `2f + 1` recorded
/// commits match the pre-prepare's digest, and then committed requests are
/// executed up to it. Any other commit leaves the replica as it was.
pub open spec fn commit_effect(old: Replica, new: Replica, s: SignedMessage<Commit>, out: StepOutput) -> bool {
    if commit_accepted(old, s) {
        let c = s.message;
        let n = c.seq_num;
        let commits = old.commits_at(n).push(c);
        let committed = old.committed(n) || (old.prepared(n) && commit_votes(
            commits,
            old.pre_prepare_at(n)->Some_0.digest,
        ) >= 2 * old.faults() + 1);
        &&& new.has_log(n)
        &&& new.pre_prepare_at(n) == old.pre_prepare_at(n)
        &&& new.request_at(n) == old.request_at(n)
        &&& new.prepares_at(n) == old.prepares_at(n)
        &&& new.prepared(n) == old.prepared(n)
        &&& new.commits_at(n) == commits
        &&& new.committed(n) == committed
        &&& new.same_log_except(&old, n)
        &&& new.next_seq() == old.next_seq()
        &&& out.broadcast is None
        &&& (committed ==> execution_effect(old, new, n, out.executed@))
        &&& (!committed ==> out.executed@.len() == 0 && new.same_but_log(&old))
    } else {
        new == old && out.broadcast is None && out.executed@.len() == 0
    }
}

impl Replica {
    /// Checks a pre-prepare from `signer_id` against the view, the primary,
    /// the request's digest and what is recorded for its sequence number.
    fn validate_pre_prepare(&self, pre_prepare: &PrePrepare, signer_id: u32) -> (r: bool)
        requires
            self.wf(),
        ensures
            r == pre_prepare_accepted(
                *self,
                (SignedMessage { message: *pre_prepare, signature: arbitrary(), signer_id }),
            ),
    {
        let expected_primary = self.get_primary();
        if signer_id != expected_primary {
            return false;
        }
        if pre_prepare.view != self.view {
            return false;
        }
        let digest = self.compute_digest(&pre_prepare.request);
        if !digest_eq(&digest, &pre_prepare.digest) {
            return false;
        }
        match self.message_log.get(&pre_prepare.seq_num) {
            Some(log) => match &log.pre_prepare {
                Some(cur) => digest_eq(&cur.digest, &pre_prepare.digest),
                None => true,
            },
            None => true,
        }
    }

    /// Records the primary's pre-prepare and this replica's prepare, and
    /// returns the prepare signed for broadcast.
    fn handle_pre_prepare(&mut self, signed_pre_prepare: SignedMessage<PrePrepare>) -> (r: Option<PBFTMessage>)
        requires
            old(self).wf(),
        ensures
            final(self).wf(),
            old(self).evolves_to(final(self)),
            pre_prepare_effect(*old(self), *final(self), signed_pre_prepare, r),
    {
        proof {
            lemma_evolves_refl(*self);
        }
        let ghost s = signed_pre_prepare;
        let pre = signed_pre_prepare.message;
        if !self.validate_pre_prepare(&pre, signed_pre_prepare.signer_id) {
            return None;
        }
        let node_id = self.node_id;
        let f = self.f;
        let n = pre.seq_num;
        let prepare = Prepare { view: pre.view, seq_num: n, digest: pre.digest, replica_id: node_id };
        let signed_prepare = self.crypto.create_signed_message(prepare);
        let ghost before = *self;
        let mut log = self.take_log(n);
        proof {
            assert(log.prepares@ =~= before.prepares_at(n));
        }
        if log.pre_prepare.is_none() {
            log.request = Some(pre.request.clone());
            log.pre_prepare = Some(pre);
        }
        if !log.has_prepare_from(node_id) {
            proof {
                lemma_prepare_votes_push(log.prepares@, prepare, log.pre_prepare->Some_0.digest@);
            }
            log.prepares.push(prepare);
        }
        let ghost entry = log;
        self.message_log.insert(n, log);
        proof {
            assert(self.message_log@ =~= before.message_log@.insert(n, entry));
            lemma_replace_log(before, *self, n, entry);
            assert(self.commits_at(n) =~= before.commits_at(n));
            assert(self.same_log_except(&before, n));
        }
        Some(PBFTMessage::Prepare(signed_prepare))
    }

    /// Checks a prepare from `signer_id` against the view and the recorded
    /// pre-prepare.
    fn validate_prepare(&self, prepare: &Prepare, signer_id: u32) -> (r: bool)
        requires
            self.wf(),
        ensures
            r == (prepare.view == self.view_number() && prepare.replica_id == signer_id
                && prepare.replica_id < 3 * self.faults() + 1 && self.pre_prepare_at(prepare.seq_num) is Some && self.pre_prepare_at(
                prepare.seq_num,
            )->Some_0.digest == prepare.digest@),
    {
        if prepare.view != self.view {
            return false;
        }
        if prepare.replica_id != signer_id || prepare.replica_id >= self.total_nodes() {
            return false;
        }
        match self.message_log.get(&prepare.seq_num) {
            Some(log) => match &log.pre_prepare {
                Some(pre) => digest_eq(&pre.digest, &prepare.digest),
                None => false,
            },
            None => false,
        }
    }

    /// Checks a commit from `signer_id` against the view and, if one is
    /// recorded, the pre-prepare.
    fn validate_commit(&self, commit: &Commit, signer_id: u32) -> (r: bool)
        requires
            self.wf(),
        ensures
            r == (commit.view == self.view_number() && commit.replica_id == signer_id
                && commit.replica_id < 3 * self.faults() + 1 && (
            self.pre_prepare_at(commit.seq_num) is Some ==> self.pre_prepare_at(
                commit.seq_num,
            )->Some_0.digest == commit.digest@)),
    {
        if commit.view != self.view {
            return false;
        }
        if commit.replica_id != signer_id || commit.replica_id >= self.total_nodes() {
            return false;
        }
        match self.message_log.get(&commit.seq_num) {
            Some(log) => match &log.pre_prepare {
                Some(pre) => digest_eq(&pre.digest, &commit.digest),
                None => true,
            },
            None => true,
        }
    }

    /// Whether a prepare from `id` is recorded for `n`.
    fn prepare_recorded(&self, n: u64, id: u32) -> (r: bool)
        ensures
            r == prepare_ids(self.prepares_at(n)).contains(id),
    {
        match self.message_log.get(&n) {
            Some(log) => log.has_prepare_from(id),
            None => {
                assert(prepare_ids(self.prepares_at(n)) =~= Set::<u32>::empty());
                false
            },
        }
    }

    /// Whether a commit from `id` is recorded for `n`.
    fn commit_recorded(&self, n: u64, id: u32) -> (r: bool)
        ensures
            r == commit_ids(self.commits_at(n)).contains(id),
    {
        match self.message_log.get(&n) {
            Some(log) => log.has_commit_from(id),
            None => {
                assert(commit_ids(self.commits_at(n)) =~= Set::<u32>::empty());
                false
            },
        }
    }

    /// Marks the record prepared once `2f` of its prepares carry the
    /// digest of its pre-prepare.
    fn check_prepared(f: u32, log: &mut MessageLog)
        requires
            f <= MAX_FAULTS,
            old(log).pre_prepare is Some,
        ensures
            final(log).prepared == (old(log).prepared || prepare_votes(
                old(log).prepares@,
                old(log).pre_prepare->Some_0.digest@,
            ) >= 2 * f),
            final(log).request == old(log).request,
            final(log).pre_prepare == old(log).pre_prepare,
            final(log).prepares == old(log).prepares,
            final(log).commits == old(log).commits,
            final(log).committed == old(log).committed,
    {
        if log.prepared {
            return;
        }
        let count = match &log.pre_prepare {
            Some(pre) => log.count_prepares(&pre.digest),
            None => 0,
        };
        if count as u64 >= 2 * f as u64 {
            log.prepared = true;
        }
    }

    /// Marks the record committed once it is prepared and `2f + 1` of its
    /// commits carry the digest of its pre-prepare; returns whether it is
    /// committed.
    fn check_committed(f: u32, log: &mut MessageLog) -> (r: bool)
        requires
            f <= MAX_FAULTS,
        ensures
            final(log).committed == (old(log).committed || (old(log).prepared
                && old(log).pre_prepare is Some && commit_votes(
                old(log).commits@,
                old(log).pre_prepare->Some_0.digest@,
            ) >= 2 * f + 1)),
            r == final(log).committed,
            final(log).request == old(log).request,
            final(log).pre_prepare == old(log).pre_prepare,
            final(log).prepares == old(log).prepares,
            final(log).commits == old(log).commits,
            final(log).prepared == old(log).prepared,
    {
        if log.committed {
            return true;
        }
        if !log.prepared {
            return false;
        }
        let count = match &log.pre_prepare {
            Some(pre) => log.count_commits(&pre.digest),
            None => {
                return false;
            },
        };
        if count as u64 >= 2 * f as u64 + 1 {
            log.committed = true;
        }
        log.committed
    }
}

impl Replica {
    /// Records a prepare; once prepared, records and returns this replica's
    /// commit for broadcast; once committed, executes what it can.
    fn handle_prepare(&mut self, signed_prepare: SignedMessage<Prepare>) -> (r: StepOutput)
        requires
            old(self).wf(),
        ensures
            final(self).wf(),
            old(self).evolves_to(final(self)),
            prepare_effect(*old(self), *final(self), signed_prepare, r),
    {
        proof {
            lemma_evolves_refl(*self);
        }
        let prepare = signed_prepare.message;
        if !self.validate_prepare(&prepare, signed_prepare.signer_id) {
            return StepOutput { broadcast: None, executed: Vec::new() };
        }
        let n = prepare.seq_num;
        if self.prepare_recorded(n, prepare.replica_id) {
            return StepOutput { broadcast: None, executed: Vec::new() };
        }
        let node_id = self.node_id;
        let f = self.f;
        let ghost before = *self;
        let mut log = self.take_log(n);
        let ghost d = log.pre_prepare->Some_0.digest@;
        proof {
            lemma_prepare_votes_push(log.prepares@, prepare, d);
        }
        log.prepares.push(prepare);
        Self::check_prepared(f, &mut log);
        let mut broadcast: Option<PBFTMessage> = None;
        if log.prepared && !log.has_commit_from(node_id) {
            let commit = Commit { view: prepare.view, seq_num: n, digest: prepare.digest, replica_id: node_id };
            proof {
                lemma_commit_votes_push(log.commits@, commit, d);
            }
            broadcast = Some(PBFTMessage::Commit(self.crypto.create_signed_message(commit)));
            log.commits.push(commit);
        }
        let committed = Self::check_committed(f, &mut log);
        let ghost entry = log;
        self.message_log.insert(n, log);
        proof {
            assert(self.message_log@ =~= before.message_log@.insert(n, entry));
            lemma_replace_log(before, *self, n, entry);
            assert(self.same_log_except(&before, n));
        }
        let ghost mid = *self;
        let executed = if committed {
            self.try_execute_up_to(n)
        } else {
            Vec::new()
        };
        proof {
            lemma_evolves_trans(before, mid, *self);
            assert(self.same_log_except(&before, n));
        }
        StepOutput { broadcast, executed }
    }

    /// Records a commit; once committed, executes what it can.
    fn handle_commit(&mut self, signed_commit: SignedMessage<Commit>) -> (r: StepOutput)
        requires
            old(self).wf(),
        ensures
            final(self).wf(),
            old(self).evolves_to(final(self)),
            commit_effect(*old(self), *final(self), signed_commit, r),
    {
        proof {
            lemma_evolves_refl(*self);
        }
        let commit = signed_commit.message;
        if !self.validate_commit(&commit, signed_commit.signer_id) {
            return StepOutput { broadcast: None, executed: Vec::new() };
        }
        let n = commit.seq_num;
        if self.commit_recorded(n, commit.replica_id) {
            return StepOutput { broadcast: None, executed: Vec::new() };
        }
        let f = self.f;
        let ghost before = *self;
        let mut log = self.take_log(n);
        proof {
            assert(log.commits@ =~= before.commits_at(n));
            assert(log.prepares@ =~= before.prepares_at(n));
            if log.pre_prepare is Some {
                lemma_commit_votes_push(log.commits@, commit, log.pre_prepare->Some_0.digest@);
            }
        }
        log.commits.push(commit);
        let committed = Self::check_committed(f, &mut log);
        let ghost entry = log;
        self.message_log.insert(n, log);
        proof {
            assert(self.message_log@ =~= before.message_log@.insert(n, entry));
            lemma_replace_log(before, *self, n, entry);
            assert(self.same_log_except(&before, n));
        }
        let ghost mid = *self;
        let executed = if committed {
            self.try_execute_up_to(n)
        } else {
            Vec::new()
        };
        proof {
            lemma_evolves_trans(before, mid, *self);
            assert(self.same_log_except(&before, n));
        }
        StepOutput { broadcast: None, executed }
    }
}

/// What one step does with an inbound message: a message whose envelope
/// does not verify changes nothing and produces nothing; a verified one is
/// handled by its kind; a reply is ignored.
pub open spec fn step_effect(old: Replica, new: Replica, msg: PBFTMessage, out: StepOutput) -> bool {
    if !message_valid(old.keys(), msg) {
        new == old && out.broadcast is None && out.executed@.len() == 0
    } else {
        match msg {
            PBFTMessage::Request(s) => request_effect(old, new, s, out.broadcast) && out.executed@.len()
                == 0,
            PBFTMessage::PrePrepare(s) => pre_prepare_effect(old, new, s, out.broadcast)
                && out.executed@.len() == 0,
            PBFTMessage::Prepare(s) => prepare_effect(old, new, s, out),
            PBFTMessage::Commit(s) => commit_effect(old, new, s, out),
            PBFTMessage::Reply(_) => new == old && out.broadcast is None && out.executed@.len() == 0,
        }
    }
}

impl Replica {
    /// A replica of a cluster of `total_nodes = 3f + 1` replicas, in view 0,
    /// with an empty log and an empty application.
    pub fn new(node_id: u32, total_nodes: u32, crypto: Crypto) -> (r: Self)
        requires
            total_nodes >= 4,
            (total_nodes - 1) % 3 == 0,
            node_id < total_nodes,
            crypto.id() == node_id,
        ensures
            r.wf(),
            r.id() == node_id,
            r.faults() == (total_nodes - 1) / 3,
            r.view_number() == 0,
            r.next_seq() == 1,
            r.executed_through() == 0,
            r.keys() == crypto.peer_keys(),
            r.signing_key() == crypto.key(),
            forall|n: u64| !r.has_log(n),
            r.executed_timestamps() == Set::<u64>::empty(),
            r.app() == Map::<Seq<u8>, Seq<u8>>::empty(),
    {
        let f = (total_nodes - 1) / 3;
        let r = Replica {
            node_id,
            f,
            view: 0,
            next_seq_num: 1,
            message_log: HashMap::new(),
            executed_req: HashSet::new(),
            last_executed: 0,
            crypto,
            app_state: AppState::new(),
        };
        proof {
            assert(r.executed_requests() =~= Seq::<RequestView>::empty());
            assert(timestamps(r.executed_requests()) =~= Set::<u64>::empty());
        }
        r
    }

    /// Handles one inbound message: drops it unless its signature verifies,
    /// then acts on it by kind. Returns the message to broadcast, if any,
    /// and the requests executed, with their results.
    pub fn step(&mut self, msg: PBFTMessage) -> (r: StepOutput)
        requires
            old(self).wf(),
        ensures
            final(self).wf(),
            old(self).evolves_to(final(self)),
            step_effect(*old(self), *final(self), msg, r),
    {
        proof {
            lemma_evolves_refl(*self);
        }
        if !self.crypto.verify_pbft_message(&msg) {
            return StepOutput { broadcast: None, executed: Vec::new() };
        }
        match msg {
            PBFTMessage::Request(req) => {
                let broadcast = self.handle_request(req);
                StepOutput { broadcast, executed: Vec::new() }
            },
            PBFTMessage::PrePrepare(pp) => {
                let broadcast = self.handle_pre_prepare(pp);
                StepOutput { broadcast, executed: Vec::new() }
            },
            PBFTMessage::Prepare(p) => self.handle_prepare(p),
            PBFTMessage::Commit(c) => self.handle_commit(c),
            PBFTMessage::Reply(_) => StepOutput { broadcast: None, executed: Vec::new() },
        }
    }

    /// The highest sequence number executed.
    pub fn last_executed(&self) -> (r: u64)
        ensures
            r == self.executed_through(),
    {
        self.last_executed
    }

    /// The sequence number that the primary assigns next.
    pub fn next_seq_num(&self) -> (r: u64)
        ensures
            r == self.next_seq(),
    {
        self.next_seq_num
    }

    /// Whether anything is recorded for `n`.
    pub fn has_log_for(&self, n: u64) -> (r: bool)
        ensures
            r == self.has_log(n),
    {
        self.message_log.contains_key(&n)
    }

    /// Whether `n` is prepared.
    pub fn is_prepared(&self, n: u64) -> (r: bool)
        ensures
            r == self.prepared(n),
    {
        match self.message_log.get(&n) {
            Some(log) => log.prepared,
            None => false,
        }
    }

    /// Whether `n` is committed.
    pub fn is_committed_at(&self, n: u64) -> (r: bool)
        ensures
            r == self.committed(n),
    {
        self.is_committed(n)
    }

    /// The value that the application stores under `key`.
    pub fn app_value(&self, key: &Vec<u8>) -> (r: Option<Vec<u8>>)
        requires
            self.wf(),
        ensures
            r is Some <==> self.app().contains_key(key@),
            r is Some ==> r->Some_0@ == self.app()[key@],
    {
        self.app_state.get(key)
    }
}

/// Every request of `fresh_requests(s)` comes from `s`, and those
/// requests carry distinct timestamps.
proof fn lemma_fresh_distinct(s: Seq<RequestView>)
    ensures
        timestamps(fresh_requests(s)).subset_of(timestamps(s)),
        forall|i: int, j: int|
            0 <= i < j < fresh_requests(s).len() ==> fresh_requests(s)[i].timestamp
                != fresh_requests(s)[j].timestamp,
    decreases s.len(),
{
    if s.len() > 0 {
        let p = s.drop_last();
        lemma_fresh_distinct(p);
        assert(s =~= p.push(s.last()));
        lemma_timestamps_push(p, s.last());
        if !timestamps(p).contains(s.last().timestamp) {
            lemma_timestamps_push(fresh_requests(p), s.last());
            let fp = fresh_requests(p);
            assert forall|i: int| 0 <= i < fp.len() implies fp[i].timestamp != s.last().timestamp by {
                assert(timestamps(fp).contains(fp[i].timestamp));
            }
        }
    }
}

/// Total order: along any run of steps, `last_executed` never decreases and
/// the requests executed before are a prefix of those executed after.
pub proof fn lemma_total_order(a: Replica, b: Replica)
    requires
        a.evolves_to(&b),
    ensures
        a.executed_through() <= b.executed_through(),
        a.executed_requests().len() <= b.executed_requests().len(),
        b.executed_requests().take(a.executed_requests().len() as int) == a.executed_requests(),
{
}

/// A run of steps composes: a state reached from one reached from `a` is
/// reached from `a`.
pub proof fn lemma_run_composes(a: Replica, b: Replica, c: Replica)
    requires
        a.evolves_to(&b),
        b.evolves_to(&c),
    ensures
        a.evolves_to(&c),
{
    lemma_evolves_trans(a, b, c);
}

/// No gaps: a replica that executed up to `n` committed and executed every
/// sequence number from 1 to `n`, the request recorded there.
pub proof fn lemma_no_gaps(r: Replica, k: u64)
    requires
        r.wf(),
        1 <= k <= r.executed_through(),
    ensures
        r.committed(k),
        r.prepared(k),
        r.request_at(k) is Some,
        r.executed_requests()[k - 1] == r.request_at(k)->Some_0,
{
    assert(r.message_log@.contains_key(k));
}

/// Quorum sizes: a prepared sequence number has a pre-prepare and at least
/// `2f` recorded prepares with its digest, from distinct replicas; a
/// committed one is prepared and has at least `2f + 1` recorded commits
/// with that digest, from distinct replicas.
pub proof fn lemma_quorum_sizes(r: Replica, n: u64)
    requires
        r.wf(),
    ensures
        prepares_distinct(r.prepares_at(n)),
        commits_distinct(r.commits_at(n)),
        r.prepared(n) ==> r.pre_prepare_at(n) is Some && prepare_votes(
            r.prepares_at(n),
            r.pre_prepare_at(n)->Some_0.digest,
        ) >= 2 * r.faults(),
        r.committed(n) ==> r.prepared(n) && commit_votes(
            r.commits_at(n),
            r.pre_prepare_at(n)->Some_0.digest,
        ) >= 2 * r.faults() + 1,
{
}

/// At most once per client timestamp: the requests that reached the
/// application carry distinct timestamps, the set of executed timestamps is
/// exactly theirs together with those skipped as repeats, and the
/// application's store is what applying them in order gives.
pub proof fn lemma_at_most_once(r: Replica)
    requires
        r.wf(),
    ensures
        forall|i: int, j: int|
            0 <= i < j < r.applied().len() ==> r.applied()[i].timestamp != r.applied()[j].timestamp,
        r.executed_timestamps() == timestamps(r.executed_requests()),
        r.app() == run_operations(r.applied()),
{
    lemma_fresh_distinct(r.executed_requests());
}

/// No equivocation: once a pre-prepare is recorded for `n`, every later
/// state holds that same pre-prepare for `n`, so no other digest is ever
/// accepted there.
pub proof fn lemma_no_equivocation(a: Replica, b: Replica, n: u64)
    requires
        a.wf(),
        b.wf(),
        a.evolves_to(&b),
        a.pre_prepare_at(n) is Some,
    ensures
        b.pre_prepare_at(n) == a.pre_prepare_at(n),
        b.request_at(n) == a.request_at(n),
{
}

/// Quorum intersection, the counting core of agreement: in a cluster of
/// `3f + 1` replicas, two sets of at least `2f + 1` replica ids share at
/// least `f + 1` of them, so at least one replica that is not faulty.
pub proof fn lemma_quorum_intersection(a: Set<int>, b: Set<int>, f: nat)
    requires
        forall|x: int| a.contains(x) ==> 0 <= x < 3 * f + 1,
        forall|x: int| b.contains(x) ==> 0 <= x < 3 * f + 1,
        a.finite(),
        b.finite(),
        a.len() >= 2 * f + 1,
        b.len() >= 2 * f + 1,
    ensures
        a.intersect(b).len() >= f + 1,
{
    let all = vstd::set_lib::set_int_range(0, (3 * f + 1) as int);
    vstd::set_lib::lemma_int_range(0, (3 * f + 1) as int);
    assert((a + b).subset_of(all));
    vstd::set_lib::lemma_len_subset(a + b, all);
    vstd::set_lib::lemma_set_intersect_union_lens(a, b);
}

/// The ids of the replicas whose commits in `s` carry digest `d`.
pub open spec fn commit_voters(s: Seq<Commit>, d: Seq<u8>) -> Set<int> {
    Set::new(|id: int| exists|i: int| 0 <= i < s.len() && s[i].replica_id == id && s[i].digest@ == d)
}

proof fn lemma_commit_voters_len(s: Seq<Commit>, d: Seq<u8>)
    requires
        commits_distinct(s),
    ensures
        commit_voters(s, d).finite(),
        commit_voters(s, d).len() == commit_votes(s, d),
    decreases s.len(),
{
    if s.len() == 0 {
        assert(commit_voters(s, d) =~= Set::<int>::empty());
    } else {
        let p = s.drop_last();
        let c = s.last();
        lemma_commit_voters_len(p, d);
        if c.digest@ == d {
            assert(!commit_voters(p, d).contains(c.replica_id as int)) by {
                if commit_voters(p, d).contains(c.replica_id as int) {
                    let i = choose|i: int| 0 <= i < p.len() && p[i].replica_id == c.replica_id && p[i].digest@ == d;
                    assert(s[i].replica_id == s[s.len() - 1].replica_id);
                }
            }
            assert(commit_voters(s, d) =~= commit_voters(p, d).insert(c.replica_id as int)) by {
                assert forall|id: int| #[trigger] commit_voters(s, d).contains(id) implies commit_voters(p, d).insert(
                    c.replica_id as int,
                ).contains(id) by {
                    let i = choose|i: int| 0 <= i < s.len() && s[i].replica_id == id && s[i].digest@ == d;
                    if i < s.len() - 1 {
                        assert(p[i] == s[i]);
                    }
                }
                assert forall|id: int| #[trigger] commit_voters(p, d).contains(id) implies commit_voters(s, d).contains(id) by {
                    let i = choose|i: int| 0 <= i < p.len() && p[i].replica_id == id && p[i].digest@ == d;
                    assert(s[i] == p[i]);
                }
                assert(commit_voters(s, d).contains(c.replica_id as int));
            }
        } else {
            assert(commit_voters(s, d) =~= commit_voters(p, d)) by {
                assert forall|id: int| #[trigger] commit_voters(s, d).contains(id) implies commit_voters(p, d).contains(id) by {
                    let i = choose|i: int| 0 <= i < s.len() && s[i].replica_id == id && s[i].digest@ == d;
                    assert(i < s.len() - 1);
                    assert(p[i] == s[i]);
                }
                assert forall|id: int| #[trigger] commit_voters(p, d).contains(id) implies commit_voters(s, d).contains(id) by {
                    let i = choose|i: int| 0 <= i < p.len() && p[i].replica_id == id && p[i].digest@ == d;
                    assert(s[i] == p[i]);
                }
            }
        }
    }
}

/// Agreement, as far as one replica's records show it: when two replicas
/// of the same cluster have both committed `n`, at least `f + 1` replicas
/// have a commit recorded at both, for the digest that each of them
/// committed. With at most `f` faulty replicas, one of these is correct,
/// and a correct replica commits only the digest of the single pre-prepare
/// that it ever records for `n`.
pub proof fn lemma_committed_quorums_overlap(a: Replica, b: Replica, n: u64)
    requires
        a.wf(),
        b.wf(),
        a.faults() == b.faults(),
        a.committed(n),
        b.committed(n),
    ensures
        commit_voters(a.commits_at(n), a.pre_prepare_at(n)->Some_0.digest).intersect(
            commit_voters(b.commits_at(n), b.pre_prepare_at(n)->Some_0.digest),
        ).len() >= a.faults() + 1,
{
    let f = a.faults() as nat;
    let da = a.pre_prepare_at(n)->Some_0.digest;
    let db = b.pre_prepare_at(n)->Some_0.digest;
    let va = commit_voters(a.commits_at(n), da);
    let vb = commit_voters(b.commits_at(n), db);
    lemma_commit_voters_len(a.commits_at(n), da);
    lemma_commit_voters_len(b.commits_at(n), db);
    assert forall|x: int| va.contains(x) implies 0 <= x < 3 * f + 1 by {
        let i = choose|i: int| 0 <= i < a.commits_at(n).len() && a.commits_at(n)[i].replica_id == x
            && a.commits_at(n)[i].digest@ == da;
    }
    assert forall|x: int| vb.contains(x) implies 0 <= x < 3 * f + 1 by {
        let i = choose|i: int| 0 <= i < b.commits_at(n).len() && b.commits_at(n)[i].replica_id == x
            && b.commits_at(n)[i].digest@ == db;
    }
    lemma_quorum_intersection(va, vb, f);
}

/// Agreement: take two replicas of one cluster that both committed `n`,
/// and a set `faulty` of at most `f` replica ids such that every commit
/// for `n` that either replica recorded from a replica outside `faulty`
/// carries that replica's one digest `honest(id)`. Then both committed
/// the same digest, and the requests recorded at `n`, which are those
/// executed there, have equal digests.
pub proof fn lemma_agreement(a: Replica, b: Replica, n: u64, faulty: Set<int>, honest: spec_fn(int) -> Seq<u8>)
    requires
        a.wf(),
        b.wf(),
        a.faults() == b.faults(),
        a.committed(n),
        b.committed(n),
        faulty.finite(),
        faulty.len() <= a.faults(),
        forall|i: int|
            0 <= i < a.commits_at(n).len() && !faulty.contains(a.commits_at(n)[i].replica_id as int)
                ==> a.commits_at(n)[i].digest@ == honest(a.commits_at(n)[i].replica_id as int),
        forall|i: int|
            0 <= i < b.commits_at(n).len() && !faulty.contains(b.commits_at(n)[i].replica_id as int)
                ==> b.commits_at(n)[i].digest@ == honest(b.commits_at(n)[i].replica_id as int),
    ensures
        a.pre_prepare_at(n)->Some_0.digest == b.pre_prepare_at(n)->Some_0.digest,
        request_digest(a.request_at(n)->Some_0) == request_digest(b.request_at(n)->Some_0),
        n >= 1 && a.executed_through() >= n && b.executed_through() >= n ==> request_digest(
            a.executed_requests()[n - 1],
        ) == request_digest(b.executed_requests()[n - 1]),
{
    let da = a.pre_prepare_at(n)->Some_0.digest;
    let db = b.pre_prepare_at(n)->Some_0.digest;
    let va = commit_voters(a.commits_at(n), da);
    let vb = commit_voters(b.commits_at(n), db);
    lemma_committed_quorums_overlap(a, b, n);
    let both = va.intersect(vb);
    lemma_commit_voters_len(a.commits_at(n), da);
    assert(both.subset_of(va));
    vstd::set_lib::lemma_len_subset(both, va);
    let honest_voters = both.difference(faulty);
    let faulty_voters = both.intersect(faulty);
    vstd::set_lib::lemma_len_subset(honest_voters, both);
    vstd::set_lib::lemma_len_subset(faulty_voters, faulty);
    vstd::set_lib::lemma_set_intersect_union_lens(honest_voters, faulty_voters);
    assert(honest_voters + faulty_voters =~= both);
    assert(honest_voters.intersect(faulty_voters) =~= Set::<int>::empty());
    assert(honest_voters.len() > 0);
    let id = honest_voters.choose();
    vstd::set::axiom_set_choose_len(honest_voters);
    let i = choose|i: int| 0 <= i < a.commits_at(n).len() && a.commits_at(n)[i].replica_id == id
        && a.commits_at(n)[i].digest@ == da;
    let j = choose|j: int| 0 <= j < b.commits_at(n).len() && b.commits_at(n)[j].replica_id == id
        && b.commits_at(n)[j].digest@ == db;
    assert(da == honest(id));
    assert(db == honest(id));
    if n >= 1 && a.executed_through() >= n && b.executed_through() >= n {
        lemma_no_gaps(a, n);
        lemma_no_gaps(b, n);
    }
}

/// Total order across replicas: under the hypothesis of
/// [`lemma_agreement`] at every sequence number, two replicas of one
/// cluster executed requests with equal digests at every position that
/// both have executed.
pub proof fn lemma_executions_agree(
    a: Replica,
    b: Replica,
    faulty: Set<int>,
    honest: spec_fn(u64, int) -> Seq<u8>,
)
    requires
        a.wf(),
        b.wf(),
        a.faults() == b.faults(),
        faulty.finite(),
        faulty.len() <= a.faults(),
        forall|n: u64, i: int|
            0 <= i < a.commits_at(n).len() && !faulty.contains(a.commits_at(n)[i].replica_id as int)
                ==> a.commits_at(n)[i].digest@ == honest(n, a.commits_at(n)[i].replica_id as int),
        forall|n: u64, i: int|
            0 <= i < b.commits_at(n).len() && !faulty.contains(b.commits_at(n)[i].replica_id as int)
                ==> b.commits_at(n)[i].digest@ == honest(n, b.commits_at(n)[i].replica_id as int),
    ensures
        forall|k: int|
            0 <= k < a.executed_through() && k < b.executed_through() ==> request_digest(
                #[trigger] a.executed_requests()[k],
            ) == request_digest(b.executed_requests()[k]),
{
    assert forall|k: int| 0 <= k < a.executed_through() && k < b.executed_through() implies request_digest(
        #[trigger] a.executed_requests()[k],
    ) == request_digest(b.executed_requests()[k]) by {
        let n = (k + 1) as u64;
        lemma_no_gaps(a, n);
        lemma_no_gaps(b, n);
        lemma_agreement(a, b, n, faulty, |id: int| honest(n, id));
    }
}

} // verus!
