//! The sync protocol: its messages, their framing on the wire, and the
//! decisions of both sides (answering a request, rebasing on a response).
//!
//! A peer asks another for the changes recorded since the clock it last
//! synced to. On the answer it undoes its own recent changes, applies the
//! received ones, and redoes its own on top (as a rebase would), then notes
//! the other peer's clock.
use vstd::prelude::*;

use crate::entities::{Action, ActionV, PeerId, PeerInfo, PeerInfoV};
use crate::result::{DbError, ErrorV, ShizenError, ShizenResult};
use crate::storage::model::{
    add_peer_record, apply_action, has_peer, peer_of, changes_since, lemma_apply_clock, lemma_apply_keeps_redo,
    lemma_revert_keeps_log, redo, store_wf, undo, with_peer_clock, StoreV,
};
use crate::storage::rusqlite::{actions_view, RusqliteStorage};
use crate::storage::TodoStorage;

verus! {

/// A request that one peer sends to another.
#[derive(Debug)]
pub enum SyncRequest {
    PeerIdentificationHandshake { local_peer_id: PeerId, local_server_address: Option<String> },
    Sync { local_peer_id: PeerId, last_sync_clock: usize },
}

/// The value of a [`SyncRequest`].
pub enum SyncRequestV {
    PeerIdentificationHandshake { local_peer_id: PeerId, local_server_address: Option<Seq<char>> },
    Sync { local_peer_id: PeerId, last_sync_clock: usize },
}

impl View for SyncRequest {
    type V = SyncRequestV;

    open spec fn view(&self) -> SyncRequestV {
        match self {
            SyncRequest::PeerIdentificationHandshake { local_peer_id, local_server_address } =>
                SyncRequestV::PeerIdentificationHandshake {
                local_peer_id: *local_peer_id,
                local_server_address: crate::entities::opt_text(*local_server_address),
            },
            SyncRequest::Sync { local_peer_id, last_sync_clock } => SyncRequestV::Sync {
                local_peer_id: *local_peer_id,
                last_sync_clock: *last_sync_clock,
            },
        }
    }
}

/// The answer to a [`SyncRequest`].
#[derive(Debug)]
pub enum SyncResponse {
    PeerIdentificationHandshakeResponse(PeerId),
    SyncResponse { clock: usize, changes: Vec<Action> },
}

/// The value of a [`SyncResponse`].
pub enum SyncResponseV {
    PeerIdentificationHandshakeResponse(PeerId),
    SyncResponse { clock: usize, changes: Seq<ActionV> },
}

impl View for SyncResponse {
    type V = SyncResponseV;

    open spec fn view(&self) -> SyncResponseV {
        match self {
            SyncResponse::PeerIdentificationHandshakeResponse(p) =>
                SyncResponseV::PeerIdentificationHandshakeResponse(*p),
            SyncResponse::SyncResponse { clock, changes } => SyncResponseV::SyncResponse {
                clock: *clock,
                changes: actions_view(changes@),
            },
        }
    }
}

/// What a sync with a peer did: the clock of the peer it is now synced up to,
/// and the number of changes it received.
#[derive(Clone, Copy, Debug, PartialEq, Eq)]
pub struct SyncResults {
    pub updated_peer_clock: usize,
    pub num_changes: usize,
}

// ---------------------------------------------------------------- model

/// Undoes the changes recorded at the clock `floor` or later, the last one
/// first, until the clock is at most `floor` (none where it already is).
/// Gives the store and the number of undos, or the store at the first refusal
/// and its error.
pub open spec fn undo_rounds(s: StoreV, floor: nat) -> (StoreV, Result<nat, ErrorV>)
    decreases s.mutations.len(),
{
    if s.clock <= floor || s.mutations.len() == 0 {
        (s, Ok(0))
    } else {
        match undo(s) {
            Err(e) => (s, Err(e)),
            Ok(s1) => if s1.mutations.len() >= s.mutations.len() {
                (s1, Ok(1))
            } else {
                let (s2, r) = undo_rounds(s1, floor);
                (
                    s2,
                    match r {
                        Ok(n) => Ok(n + 1),
                        Err(e) => Err(e),
                    },
                )
            },
        }
    }
}

/// Applies the actions one after the other; stops at the first refusal.
pub open spec fn apply_all(s: StoreV, changes: Seq<ActionV>) -> (StoreV, Result<(), ErrorV>)
    decreases changes.len(),
{
    if changes.len() == 0 {
        (s, Ok(()))
    } else {
        let (s1, r) = apply_all(s, changes.drop_last());
        match r {
            Err(e) => (s1, Err(e)),
            Ok(_) => match apply_action(s1, changes.last()) {
                Ok(s2) => (s2, Ok(())),
                Err(e) => (s1, Err(e)),
            },
        }
    }
}

/// Redoes `n` times; stops at the first refusal.
pub open spec fn redo_rounds(s: StoreV, n: nat) -> (StoreV, Result<(), ErrorV>)
    decreases n,
{
    if n == 0 {
        (s, Ok(()))
    } else {
        match redo(s) {
            Err(e) => (s, Err(e)),
            Ok(s1) => redo_rounds(s1, (n - 1) as nat),
        }
    }
}

/// The rebase of a sync: undo the changes made since the peer's clock, apply
/// the peer's changes, redo the undone changes, and note the peer's clock.
/// Gives the final store, or the store where a step was refused and its error.
pub open spec fn sync_rebase(s: StoreV, peer: PeerInfoV, clock: usize, changes: Seq<ActionV>) -> (
    StoreV,
    Result<(), ErrorV>,
) {
    let (s1, r1) = undo_rounds(s, peer.clock as nat);
    match r1 {
        Err(e) => (s1, Err(e)),
        Ok(n) => {
            let (s2, r2) = apply_all(s1, changes);
            match r2 {
                Err(e) => (s2, Err(e)),
                Ok(_) => {
                    let (s3, r3) = redo_rounds(s2, n);
                    match r3 {
                        Err(e) => (s3, Err(e)),
                        Ok(_) => (
                            StoreV { peers: with_peer_clock(s3.peers, peer.peer_id, clock), ..s3 },
                            Ok(()),
                        ),
                    }
                },
            }
        },
    }
}

/// The answer of a store to a request: a handshake registers the asking peer
/// (where it gives its server's address) and names this store; a sync
/// request gets the changes since the given clock and this store's clock,
/// and marks the asking peer as synced up to that clock.
pub open spec fn answer(s: StoreV, req: SyncRequestV) -> (StoreV, Result<SyncResponseV, ErrorV>) {
    match req {
        SyncRequestV::PeerIdentificationHandshake { local_peer_id, local_server_address } => {
            let resp = SyncResponseV::PeerIdentificationHandshakeResponse(s.peer_id);
            match local_server_address {
                None => (s, Ok(resp)),
                Some(a) => match add_peer_record(
                    s,
                    PeerInfoV { peer_id: local_peer_id, clock: 0, addr: a },
                ) {
                    Ok(s1) => (s1, Ok(resp)),
                    Err(e) => (s, Err(e)),
                },
            }
        },
        SyncRequestV::Sync { local_peer_id, last_sync_clock } => (
            StoreV { peers: with_peer_clock(s.peers, local_peer_id, s.clock as usize), ..s },
            Ok(
                SyncResponseV::SyncResponse {
                    clock: s.clock as usize,
                    changes: changes_since(s, last_sync_clock as nat),
                },
            ),
        ),
    }
}

proof fn lemma_apply_all_err(s: StoreV, changes: Seq<ActionV>, k: int)
    requires
        0 <= k <= changes.len(),
        apply_all(s, changes.subrange(0, k)).1 is Err,
    ensures
        apply_all(s, changes) == apply_all(s, changes.subrange(0, k)),
    decreases changes.len() - k,
{
    if k < changes.len() {
        assert(changes.subrange(0, k + 1).drop_last() =~= changes.subrange(0, k));
        lemma_apply_all_err(s, changes, k + 1);
    } else {
        assert(changes.subrange(0, k) =~= changes);
    }
}

/// The count in a result of `undo_rounds`, raised by `k`.
pub open spec fn shift(res: (StoreV, Result<nat, ErrorV>), k: nat) -> (StoreV, Result<nat, ErrorV>) {
    (
        res.0,
        match res.1 {
            Ok(n) => Ok(n + k),
            Err(e) => Err(e),
        },
    )
}

// ---------------------------------------------------------------- decisions

/// The peer id that a handshake response names.
pub fn handshake_peer_id(response: SyncResponse) -> (r: ShizenResult<PeerId>)
    ensures
        match response@ {
            SyncResponseV::PeerIdentificationHandshakeResponse(p) => r == Ok::<
                PeerId,
                ShizenError,
            >(p),
            _ => r is Err && r->Err_0@ == ErrorV::UnexpectedSyncProtocolResponse(
                "PeerIdentificationHandshakeResponse"@,
                response@,
            ),
        },
{
    match response {
        SyncResponse::PeerIdentificationHandshakeResponse(p) => Ok(p),
        other => Err(
            ShizenError::UnexpectedSyncProtocolResponse(
                "PeerIdentificationHandshakeResponse".to_owned(),
                other,
            ),
        ),
    }
}

impl RusqliteStorage {
    /// The handshake that introduces this store to another one, with the
    /// address of this store's own server where it runs one.
    pub fn handshake_request(&self, local_server_address: Option<String>) -> (r: SyncRequest)
        ensures
            r@ == (SyncRequestV::PeerIdentificationHandshake {
                local_peer_id: self@.peer_id,
                local_server_address: crate::entities::opt_text(local_server_address),
            }),
    {
        SyncRequest::PeerIdentificationHandshake {
            local_peer_id: self.own_peer_id(),
            local_server_address,
        }
    }

    /// The request for the changes that the known peer `peer_id` recorded
    /// since this store last synced with it.
    pub fn sync_request(&self, peer_id: &PeerId) -> (r: ShizenResult<SyncRequest>)
        requires
            self.wf(),
        ensures
            match r {
                Ok(q) => has_peer(self@.peers, *peer_id) && q@ == (SyncRequestV::Sync {
                    local_peer_id: self@.peer_id,
                    last_sync_clock: peer_of(self@.peers, *peer_id).clock,
                }),
                Err(e) => !has_peer(self@.peers, *peer_id) && e@ == ErrorV::Db(
                    DbError::QueryReturnedNoRows,
                ),
            },
    {
        let peer = match self.get_peer(peer_id) {
            Ok(p) => p,
            Err(e) => {
                return Err(e);
            },
        };
        Ok(SyncRequest::Sync { local_peer_id: self.own_peer_id(), last_sync_clock: peer.clock })
    }

    /// The answer of this store to a request from a peer.
    pub fn answer_sync_request(&mut self, request: SyncRequest) -> (r: ShizenResult<SyncResponse>)
        requires
            old(self).wf(),
        ensures
            final(self).wf(),
            final(self)@ == answer(old(self)@, request@).0,
            match r {
                Ok(resp) => answer(old(self)@, request@).1 == Ok::<SyncResponseV, ErrorV>(resp@),
                Err(e) => answer(old(self)@, request@).1 == Err::<SyncResponseV, ErrorV>(e@),
            },
    {
        match request {
            SyncRequest::PeerIdentificationHandshake { local_peer_id, local_server_address } => {
                match local_server_address {
                    Some(a) => {
                        match self.add_connected_peer(local_peer_id, 0, a.as_str()) {
                            Ok(_) => {},
                            Err(e) => {
                                return Err(e);
                            },
                        }
                    },
                    None => {},
                }
                let me = match self.get_peer_id() {
                    Ok(p) => p,
                    Err(e) => {
                        return Err(e);
                    },
                };
                Ok(SyncResponse::PeerIdentificationHandshakeResponse(me))
            },
            SyncRequest::Sync { local_peer_id, last_sync_clock } => {
                let changes = match self.load_all_changes_since_clock(last_sync_clock) {
                    Ok(c) => c,
                    Err(e) => {
                        return Err(e);
                    },
                };
                let clock = match self.get_clock() {
                    Ok(c) => c,
                    Err(e) => {
                        return Err(e);
                    },
                };
                match self.set_peer_clock(&local_peer_id, clock) {
                    Ok(_) => {},
                    Err(e) => {
                        return Err(e);
                    },
                }
                Ok(SyncResponse::SyncResponse { clock, changes })
            },
        }
    }

    /// Rebases this store on the answer of `peer` to a sync request: undoes
    /// the local changes since the peer's clock, applies the received
    /// changes, redoes the local ones, and notes the peer's new clock.
    pub fn apply_sync_response(&mut self, peer: &PeerInfo, response: SyncResponse) -> (r:
        ShizenResult<SyncResults>)
        requires
            old(self).wf(),
            response@ is SyncResponse ==> old(self)@.clock + response@->changes.len() + 1
                < usize::MAX,
        ensures
            final(self).wf(),
            match response@ {
                SyncResponseV::SyncResponse { clock, changes } => {
                    let (t, res) = sync_rebase(old(self)@, peer@, clock, changes);
                    &&& final(self)@ == t
                    &&& match r {
                        Ok(sr) => res is Ok && sr == SyncResults {
                            updated_peer_clock: clock,
                            num_changes: changes.len() as usize,
                        },
                        Err(e) => res == Err::<(), ErrorV>(e@),
                    }
                },
                _ => final(self)@ == old(self)@ && r is Err && r->Err_0@
                    == ErrorV::UnexpectedSyncProtocolResponse("SyncResponse"@, response@),
            },
    {
        let ghost rv = response@;
        let (clock, changes) = match response {
            SyncResponse::SyncResponse { clock, changes } => (clock, changes),
            other => {
                return Err(
                    ShizenError::UnexpectedSyncProtocolResponse("SyncResponse".to_owned(), other),
                );
            },
        };
        let ghost s0 = self@;
        let ghost cv = actions_view(changes@);
        assert(rv == SyncResponseV::SyncResponse { clock, changes: cv });
        let floor = peer.clock;
        // 1. Undo the local changes down to the peer's clock.
        let mut undone: usize = 0;
        let mut c = match self.get_clock() {
            Ok(c) => c,
            Err(e) => {
                return Err(e);
            },
        };
        while c > floor
            invariant
                self.wf(),
                s0 == old(self)@,
                store_wf(s0),
                floor == peer.clock,
                rv == response@,
                rv == (SyncResponseV::SyncResponse { clock, changes: cv }),
                s0.clock + cv.len() + 1 < usize::MAX,
                c == self@.clock,
                undo_rounds(s0, floor as nat) == shift(undo_rounds(self@, floor as nat), undone as nat),
                self@.clock + undone == s0.clock,
            decreases c,
        {
            let ghost before = self@;
            let c1 = match self.undo() {
                Ok(c1) => c1,
                Err(e) => {
                    proof {
                        assert(undo(before) == Err::<StoreV, ErrorV>(e@));
                        assert(undo_rounds(before, floor as nat) == (before, Err::<nat, ErrorV>(e@)));
                        assert(undo_rounds(s0, floor as nat) == (before, Err::<nat, ErrorV>(e@)));
                    }
                    return Err(e);
                },
            };
            proof {
                crate::storage::model::lemma_undo_clock(before);
                assert(undo_rounds(before, floor as nat) == shift(undo_rounds(self@, floor as nat), 1));
            }
            undone = undone + 1;
            c = c1;
        }
        assert(undo_rounds(self@, floor as nat) == (self@, Ok::<nat, ErrorV>(0)));
        let ghost s1 = self@;
        // 2. Apply the peer's changes.
        let mut k: usize = 0;
        assert(cv.subrange(0, 0) =~= Seq::<ActionV>::empty());
        while k < changes.len()
            invariant
                self.wf(),
                s0 == old(self)@,
                floor == peer.clock,
                rv == response@,
                rv == (SyncResponseV::SyncResponse { clock, changes: cv }),
                k <= changes@.len(),
                cv == actions_view(changes@),
                undo_rounds(s0, floor as nat) == (s1, Ok::<nat, ErrorV>(undone as nat)),
                apply_all(s1, cv.subrange(0, k as int)) == (self@, Ok::<(), ErrorV>(())),
                self@.clock == s1.clock + k,
                s1.clock + undone == s0.clock,
                s0.clock + cv.len() + 1 < usize::MAX,
            decreases changes.len() - k,
        {
            proof {
                assert(cv.subrange(0, k + 1).drop_last() =~= cv.subrange(0, k as int));
                assert(cv.subrange(0, k + 1).last() == changes@[k as int]@);
                crate::storage::model::lemma_apply_clock(self@, changes@[k as int]@);
            }
            match self.apply_action(&changes[k]) {
                Ok(_) => {},
                Err(e) => {
                    proof {
                        lemma_apply_all_err(s1, cv, k + 1);
                    }
                    return Err(e);
                },
            }
            k = k + 1;
        }
        assert(cv.subrange(0, cv.len() as int) =~= cv);
        let ghost s2 = self@;
        let ghost n = undone as nat;
        // 3. Redo the local changes on top.
        while undone > 0
            invariant
                self.wf(),
                s0 == old(self)@,
                floor == peer.clock,
                rv == response@,
                rv == (SyncResponseV::SyncResponse { clock, changes: cv }),
                undo_rounds(s0, floor as nat) == (s1, Ok::<nat, ErrorV>(n)),
                apply_all(s1, cv) == (s2, Ok::<(), ErrorV>(())),
                redo_rounds(s2, n) == redo_rounds(self@, undone as nat),
                self@.clock + undone <= s0.clock + cv.len() + 1,
                s0.clock + cv.len() + 1 < usize::MAX,
            decreases undone,
        {
            let ghost before = self@;
            proof {
                crate::storage::model::lemma_redo_clock(before);
            }
            match self.redo() {
                Ok(_) => {},
                Err(e) => {
                    return Err(e);
                },
            }
            undone = undone - 1;
        }
        // 4. Note the peer's clock.
        match self.set_peer_clock(&peer.peer_id, clock) {
            Ok(_) => {},
            Err(e) => {
                return Err(e);
            },
        }
        Ok(SyncResults { updated_peer_clock: clock, num_changes: changes.len() })
    }
}

// ---------------------------------------------------------------- framing

/// The four bytes of `n` (below 2^32), most significant first.
pub open spec fn be32(n: nat) -> Seq<u8> {
    seq![
        ((n / 16777216) % 256) as u8,
        ((n / 65536) % 256) as u8,
        ((n / 256) % 256) as u8,
        (n % 256) as u8,
    ]
}

/// A message on the wire: the length of the payload (modulo 2^32) in four
/// bytes, most significant first, then the payload.
pub open spec fn framed(payload: Seq<u8>) -> Seq<u8> {
    be32(payload.len() % 4294967296) + payload
}

/// The length that a four-byte header announces.
pub open spec fn header_len(h: Seq<u8>) -> nat {
    (h[0] as nat) * 16777216 + (h[1] as nat) * 65536 + (h[2] as nat) * 256 + (h[3] as nat)
}

/// Frames a payload: its length in four bytes, then the payload.
pub fn frame_message(payload: &Vec<u8>) -> (r: Vec<u8>)
    ensures
        r@ == framed(payload@),
{
    let n: u64 = (payload.len() as u64) % 4294967296;
    let mut r: Vec<u8> = Vec::new();
    r.push(((n / 16777216) % 256) as u8);
    r.push(((n / 65536) % 256) as u8);
    r.push(((n / 256) % 256) as u8);
    r.push((n % 256) as u8);
    let mut i: usize = 0;
    while i < payload.len()
        invariant
            i <= payload@.len(),
            r@ == be32(payload@.len() % 4294967296) + payload@.subrange(0, i as int),
        decreases payload.len() - i,
    {
        r.push(payload[i]);
        i = i + 1;
        assert(r@ =~= be32(payload@.len() % 4294967296) + payload@.subrange(0, i as int));
    }
    assert(payload@.subrange(0, payload@.len() as int) =~= payload@);
    r
}

/// The payload length that a four-byte header announces.
pub fn frame_length(header: [u8; 4]) -> (n: u64)
    ensures
        n == header_len(header@),
{
    (header[0] as u64) * 16777216 + (header[1] as u64) * 65536 + (header[2] as u64) * 256
        + (header[3] as u64)
}

// ---------------------------------------------------------------- laws

/// Undoing rounds undoes `n` recorded changes for a count of `n`: the clock
/// goes back by `n`, to `floor` where it started above it (and nothing is
/// undone where it did not), the log keeps its first entries, the undone
/// changes go on the redo queue, and the peers stay.
proof fn lemma_undo_rounds_count(s: StoreV, floor: nat)
    requires
        s.clock == s.mutations.len(),
        undo_rounds(s, floor).1 is Ok,
    ensures
        ({
            let (t, r) = undo_rounds(s, floor);
            let n = r->Ok_0;
            &&& t.clock + n == s.clock
            &&& t.clock == t.mutations.len()
            &&& t.mutations == s.mutations.subrange(0, t.clock as int)
            &&& floor < s.clock ==> t.clock == floor
            &&& s.clock <= floor ==> t == s && n == 0
            &&& t.redo.len() == s.redo.len() + n
            &&& t.redo.subrange(0, s.redo.len() as int) == s.redo
            &&& t.peers == s.peers
        }),
    decreases s.mutations.len(),
{
    if s.clock <= floor || s.mutations.len() == 0 {
        assert(s.redo.subrange(0, s.redo.len() as int) =~= s.redo);
        assert(s.mutations.subrange(0, s.clock as int) =~= s.mutations);
    } else {
        lemma_revert_keeps_log(s, s.mutations.last());
        let s1 = undo(s)->Ok_0;
        assert(s1.redo.subrange(0, s.redo.len() as int) =~= s.redo);
        assert(s1.mutations =~= s.mutations.subrange(0, s1.clock as int));
        if s1.mutations.len() >= s.mutations.len() {
        } else {
            lemma_undo_rounds_count(s1, floor);
            let t = undo_rounds(s1, floor).0;
            assert(t.redo.subrange(0, s.redo.len() as int) =~= t.redo.subrange(
                0,
                s1.redo.len() as int,
            ).subrange(0, s.redo.len() as int));
            assert(t.mutations =~= s.mutations.subrange(0, t.clock as int));
        }
    }
}

/// A change that goes through appends one entry to the log.
proof fn lemma_apply_log(s: StoreV, a: ActionV)
    requires
        apply_action(s, a) is Ok,
    ensures
        apply_action(s, a)->Ok_0.mutations.len() == s.mutations.len() + 1,
        apply_action(s, a)->Ok_0.mutations.subrange(0, s.mutations.len() as int) == s.mutations,
{
    let t = apply_action(s, a)->Ok_0;
    assert(t.mutations.subrange(0, s.mutations.len() as int) =~= s.mutations);
}

/// Applying changes one after the other advances the clock by their number
/// and leaves the redo queue and the peers alone.
proof fn lemma_apply_all_count(s: StoreV, changes: Seq<ActionV>)
    requires
        apply_all(s, changes).1 is Ok,
    ensures
        apply_all(s, changes).0.clock == s.clock + changes.len(),
        apply_all(s, changes).0.mutations.len() == s.mutations.len() + changes.len(),
        apply_all(s, changes).0.mutations.subrange(0, s.mutations.len() as int) == s.mutations,
        apply_all(s, changes).0.redo == s.redo,
        apply_all(s, changes).0.peers == s.peers,
    decreases changes.len(),
{
    if changes.len() == 0 {
        assert(s.mutations.subrange(0, s.mutations.len() as int) =~= s.mutations);
    } else {
        lemma_apply_all_count(s, changes.drop_last());
        let s1 = apply_all(s, changes.drop_last()).0;
        lemma_apply_clock(s1, changes.last());
        lemma_apply_keeps_redo(s1, changes.last());
        lemma_apply_log(s1, changes.last());
        let s2 = apply_all(s, changes).0;
        assert(s2.mutations.subrange(0, s.mutations.len() as int) =~= s2.mutations.subrange(
            0,
            s1.mutations.len() as int,
        ).subrange(0, s.mutations.len() as int));
    }
}

/// Redoing `n` times advances the clock by `n` and takes the last `n`
/// changes off the redo queue.
proof fn lemma_redo_rounds_count(s: StoreV, n: nat)
    requires
        s.redo.len() >= n,
        redo_rounds(s, n).1 is Ok,
    ensures
        redo_rounds(s, n).0.clock == s.clock + n,
        redo_rounds(s, n).0.mutations.len() == s.mutations.len() + n,
        redo_rounds(s, n).0.mutations.subrange(0, s.mutations.len() as int) == s.mutations,
        redo_rounds(s, n).0.redo == s.redo.subrange(0, s.redo.len() - n),
        redo_rounds(s, n).0.peers == s.peers,
    decreases n,
{
    if n == 0 {
        assert(s.redo.subrange(0, s.redo.len() as int) =~= s.redo);
        assert(s.mutations.subrange(0, s.mutations.len() as int) =~= s.mutations);
    } else {
        lemma_apply_clock(s, s.redo.last());
        lemma_apply_keeps_redo(s, s.redo.last());
        lemma_apply_log(s, s.redo.last());
        let s1 = redo(s)->Ok_0;
        lemma_redo_rounds_count(s1, (n - 1) as nat);
        assert(s1.redo.subrange(0, s1.redo.len() - (n - 1)) =~= s.redo.subrange(
            0,
            s.redo.len() - n,
        ));
        let t = redo_rounds(s1, (n - 1) as nat).0;
        assert(t.mutations.subrange(0, s.mutations.len() as int) =~= t.mutations.subrange(
            0,
            s1.mutations.len() as int,
        ).subrange(0, s.mutations.len() as int));
    }
}

/// A rebase that goes through advances the clock by exactly the number of
/// received changes, leaves the log as it was up to the peer's clock (the
/// history both share), gives back the redo queue it found, and notes the
/// peer's clock. With no local change since the peer's clock and none
/// received, it changes nothing but the peer's clock.
pub proof fn law_sync_rebase_accounts_for_changes(
    s: StoreV,
    peer: PeerInfoV,
    clock: usize,
    changes: Seq<ActionV>,
)
    requires
        store_wf(s),
        sync_rebase(s, peer, clock, changes).1 is Ok,
    ensures
        sync_rebase(s, peer, clock, changes).0.clock == s.clock + changes.len(),
        sync_rebase(s, peer, clock, changes).0.mutations.len() == s.clock + changes.len(),
        peer.clock < s.clock ==> sync_rebase(s, peer, clock, changes).0.mutations.subrange(
            0,
            peer.clock as int,
        ) == s.mutations.subrange(0, peer.clock as int),
        sync_rebase(s, peer, clock, changes).0.redo == s.redo,
        sync_rebase(s, peer, clock, changes).0.peers == with_peer_clock(
            s.peers,
            peer.peer_id,
            clock,
        ),
        s.clock <= peer.clock && changes.len() == 0 ==> sync_rebase(s, peer, clock, changes).0
            == (StoreV { peers: with_peer_clock(s.peers, peer.peer_id, clock), ..s }),
{
    lemma_undo_rounds_count(s, peer.clock as nat);
    let (s1, r1) = undo_rounds(s, peer.clock as nat);
    let n = r1->Ok_0;
    lemma_apply_all_count(s1, changes);
    let s2 = apply_all(s1, changes).0;
    lemma_redo_rounds_count(s2, n);
    let s3 = redo_rounds(s2, n).0;
    if peer.clock < s.clock {
        let k = peer.clock as int;
        assert(s3.mutations.subrange(0, k) =~= s3.mutations.subrange(0, s2.mutations.len() as int).subrange(0, k));
        assert(s2.mutations.subrange(0, k) =~= s2.mutations.subrange(0, s1.mutations.len() as int).subrange(0, k));
        assert(s1.mutations.subrange(0, k) =~= s.mutations.subrange(0, k));
    }
}

/// A framed message announces the length of its payload (below 2^32) in its
/// first four bytes, and carries the payload after them.
pub proof fn law_frame_round_trip(payload: Seq<u8>)
    requires
        payload.len() < 4294967296,
    ensures
        framed(payload).len() == payload.len() + 4,
        header_len(framed(payload).subrange(0, 4)) == payload.len(),
        framed(payload).subrange(4, framed(payload).len() as int) == payload,
{
    let n = payload.len();
    let x = n as u32;
    assert(((x / 16777216) % 256) * 16777216 + ((x / 65536) % 256) * 65536 + ((x / 256) % 256)
        * 256 + x % 256 == x) by (bit_vector);
    assert(framed(payload).subrange(4, framed(payload).len() as int) =~= payload);
}

} // verus!
