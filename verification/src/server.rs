//! Server-side signalling engine: the authoritative roster and call table.
//!
//! One value of [`ServerState`] stands for the whole server. Transport I/O
//! stays outside: the caller accepts connections, feeds decoded frames in
//! through [`ServerState::on_frame`], and writes the returned [`Outgoing`]
//! messages to the connections they name.

use vstd::prelude::*;

use crate::codec::ADD_USER_TO_CLIENT_BYTE;
use crate::codec::DENY_CALL_BYTE;
use crate::codec::END_CALL_BYTE;
use crate::codec::HELLO_FROM_CLIENT_BYTE;
use crate::codec::HELLO_FROM_SERVER_BYTE;
use crate::codec::MAX_SUBJECT_LEN;
use crate::codec::REMOVE_USER_FROM_CLIENT_BYTE;
use crate::codec::REQUEST_CALL_BYTE;
use crate::codec::REQUEST_CALL_STREAM_ID_BYTE;
use crate::codec::START_CALL_BYTE;
use crate::codec::USERNAME_ALREADY_TAKEN_BYTE;

verus! {

/// Why the server refuses a frame. Any of these ends the offending
/// connection; the caller then runs [`ServerState::on_disconnect`].
#[derive(Clone, Copy, Debug, PartialEq, Eq, Structural)]
pub enum ServerError {
    /// A frame no state accepts: an unknown command byte, a HELLO on a
    /// connection that is already registered, or a subject the wire codec
    /// could never have produced.
    Protocol,
    /// A string-bearing command arrived without its subject.
    MissingSubject,
    /// REQUEST_CALL, DENY_CALL or START_CALL named a user with no connection.
    InvalidUsername,
    /// REQUEST_CALL_STREAM_ID from a user who is in no active call.
    CallNotFound,
    /// REQUEST_CALL_STREAM_ID named someone other than the call peer.
    InvalidPeer,
    /// START_CALL while one of the two parties is already in a call.
    AlreadyInCall,
    /// START_CALL with the call table at [`CALL_CAPACITY`].
    AtCapacity,
}

/// Where one control connection stands in the signalling state machine.
pub enum Phase {
    /// Connected, no successful HELLO yet.
    Anonymous,
    /// Logged in under `name` and visible in the roster.
    Registered { name: Vec<u8> },
    /// Logged in under `name` and in an active call with `peer`.
    InCall { name: Vec<u8>, peer: Vec<u8> },
}

/// One accepted control connection.
pub struct Conn {
    pub id: u64,
    pub phase: Phase,
}

/// An active call: two distinct users, each with their own stream identifier.
pub struct Call {
    pub caller: Vec<u8>,
    pub caller_sid: u32,
    pub callee: Vec<u8>,
    pub callee_sid: u32,
    /// How many participants have fetched their stream identifier (0..=2).
    pub sids_requested: u8,
}

/// The whole signalling state of the server.
pub struct ServerState {
    pub conns: Vec<Conn>,
    pub calls: Vec<Call>,
    /// Connection identifiers are handed out in order and never reused.
    pub next_id: u64,
}

/// A control message the caller must write to the connection `conn` names.
#[derive(Debug, PartialEq, Eq)]
pub enum OutFrame {
    /// An ordinary control frame: command byte plus optional subject.
    Ctl { cmd: u8, subject: Option<Vec<u8>> },
    /// The 5-byte SEND_CALL_STREAM_ID reply.
    Sid { sid: u32 },
}

/// One outbound message, addressed by connection identifier.
#[derive(Debug, PartialEq, Eq)]
pub struct Outgoing {
    pub conn: u64,
    pub frame: OutFrame,
}

// ---------------------------------------------------------------------------
// Mathematical model
// ---------------------------------------------------------------------------

pub enum PhaseV {
    Anonymous,
    Registered { name: Seq<u8> },
    InCall { name: Seq<u8>, peer: Seq<u8> },
}

pub struct ConnV {
    pub id: u64,
    pub phase: PhaseV,
}

pub struct CallV {
    pub caller: Seq<u8>,
    pub caller_sid: u32,
    pub callee: Seq<u8>,
    pub callee_sid: u32,
    pub sids_requested: u8,
}

pub struct ServerV {
    pub conns: Seq<ConnV>,
    pub calls: Seq<CallV>,
    pub next_id: u64,
}

pub enum OutFrameV {
    Ctl { cmd: u8, subject: Option<Seq<u8>> },
    Sid { sid: u32 },
}

pub struct OutgoingV {
    pub conn: u64,
    pub frame: OutFrameV,
}

impl View for Phase {
    type V = PhaseV;

    open spec fn view(&self) -> PhaseV {
        match self {
            Phase::Anonymous => PhaseV::Anonymous,
            Phase::Registered { name } => PhaseV::Registered { name: name@ },
            Phase::InCall { name, peer } => PhaseV::InCall { name: name@, peer: peer@ },
        }
    }
}

impl View for Conn {
    type V = ConnV;

    open spec fn view(&self) -> ConnV {
        ConnV { id: self.id, phase: self.phase@ }
    }
}

impl View for Call {
    type V = CallV;

    open spec fn view(&self) -> CallV {
        CallV {
            caller: self.caller@,
            caller_sid: self.caller_sid,
            callee: self.callee@,
            callee_sid: self.callee_sid,
            sids_requested: self.sids_requested,
        }
    }
}

impl View for ServerState {
    type V = ServerV;

    open spec fn view(&self) -> ServerV {
        ServerV {
            conns: self.conns@.map_values(|c: Conn| c@),
            calls: self.calls@.map_values(|c: Call| c@),
            next_id: self.next_id,
        }
    }
}

impl View for OutFrame {
    type V = OutFrameV;

    open spec fn view(&self) -> OutFrameV {
        match self {
            OutFrame::Ctl { cmd, subject } => OutFrameV::Ctl {
                cmd: *cmd,
                subject: match subject {
                    Option::None => Option::None,
                    Option::Some(s) => Option::Some(s@),
                },
            },
            OutFrame::Sid { sid } => OutFrameV::Sid { sid: *sid },
        }
    }
}

impl View for Outgoing {
    type V = OutgoingV;

    open spec fn view(&self) -> OutgoingV {
        OutgoingV { conn: self.conn, frame: self.frame@ }
    }
}

/// The model image of a batch of outbound messages.
pub open spec fn outs_view(v: Vec<Outgoing>) -> Seq<OutgoingV> {
    v@.map_values(|o: Outgoing| o@)
}

pub open spec fn bare_out(conn: u64, cmd: u8) -> OutgoingV {
    OutgoingV { conn, frame: OutFrameV::Ctl { cmd, subject: Option::None } }
}

pub open spec fn subj_out(conn: u64, cmd: u8, subject: Seq<u8>) -> OutgoingV {
    OutgoingV { conn, frame: OutFrameV::Ctl { cmd, subject: Option::Some(subject) } }
}

pub open spec fn sid_out(conn: u64, sid: u32) -> OutgoingV {
    OutgoingV { conn, frame: OutFrameV::Sid { sid } }
}

// ---------------------------------------------------------------------------
// Model queries
// ---------------------------------------------------------------------------

/// The username a connection answers to, if any.
pub open spec fn phase_name(p: PhaseV) -> Option<Seq<u8>> {
    match p {
        PhaseV::Anonymous => Option::None,
        PhaseV::Registered { name } => Option::Some(name),
        PhaseV::InCall { name, .. } => Option::Some(name),
    }
}

pub open spec fn has_conn(s: ServerV, id: u64) -> bool {
    exists|i: int| 0 <= i < s.conns.len() && s.conns[i].id == id
}

pub open spec fn conn_index(s: ServerV, id: u64) -> int {
    choose|i: int| 0 <= i < s.conns.len() && s.conns[i].id == id
}

/// Some connection answers to `name` (registered or in a call).
pub open spec fn name_registered(s: ServerV, name: Seq<u8>) -> bool {
    exists|i: int|
        0 <= i < s.conns.len() && phase_name(#[trigger] s.conns[i].phase) == Option::Some(name)
}

pub open spec fn owner_index(s: ServerV, name: Seq<u8>) -> int {
    choose|i: int|
        0 <= i < s.conns.len() && phase_name(#[trigger] s.conns[i].phase) == Option::Some(name)
}

/// The connection that owns `name`.
pub open spec fn owner_id(s: ServerV, name: Seq<u8>) -> u64 {
    s.conns[owner_index(s, name)].id
}

pub open spec fn call_has_user(c: CallV, name: Seq<u8>) -> bool {
    c.caller == name || c.callee == name
}

/// `name` participates in some active call.
pub open spec fn user_in_call(s: ServerV, name: Seq<u8>) -> bool {
    exists|k: int| 0 <= k < s.calls.len() && call_has_user(#[trigger] s.calls[k], name)
}

pub open spec fn call_uses_sid(c: CallV, sid: u32) -> bool {
    c.caller_sid == sid || c.callee_sid == sid
}

pub open spec fn sid_in_use(s: ServerV, sid: u32) -> bool {
    exists|k: int| 0 <= k < s.calls.len() && call_uses_sid(#[trigger] s.calls[k], sid)
}

pub open spec fn call_pairs(c: CallV, a: Seq<u8>, b: Seq<u8>) -> bool {
    (c.caller == a && c.callee == b) || (c.caller == b && c.callee == a)
}

/// Some connection is in a call under `name` with `peer`.
pub open spec fn conn_in_call_with(s: ServerV, name: Seq<u8>, peer: Seq<u8>) -> bool {
    exists|i: int|
        0 <= i < s.conns.len() && #[trigger] s.conns[i].phase == (PhaseV::InCall {
            name,
            peer,
        })
}

// ---------------------------------------------------------------------------
// Well-formedness
// ---------------------------------------------------------------------------

/// One call is internally consistent and anchored in the connection list.
pub open spec fn call_ok(s: ServerV, c: CallV) -> bool {
    &&& c.caller != c.callee
    &&& c.caller_sid != c.callee_sid
    &&& c.sids_requested <= 2
    &&& conn_in_call_with(s, c.caller, c.callee)
    &&& conn_in_call_with(s, c.callee, c.caller)
}

/// Two distinct calls share no participant and no stream identifier.
pub open spec fn calls_disjoint(c1: CallV, c2: CallV) -> bool {
    &&& c1.caller != c2.caller
    &&& c1.caller != c2.callee
    &&& c1.callee != c2.caller
    &&& c1.callee != c2.callee
    &&& c1.caller_sid != c2.caller_sid
    &&& c1.caller_sid != c2.callee_sid
    &&& c1.callee_sid != c2.caller_sid
    &&& c1.callee_sid != c2.callee_sid
}

/// The most concurrent calls the server will carry. Far beyond any real
/// deployment, yet small enough that a fresh 32-bit stream identifier always
/// exists.
pub const CALL_CAPACITY: usize = 0x0fff_ffff;

/// The server invariant.
///
/// It carries the protocol's universally quantified guarantees: every roster
/// name is owned by exactly one connection; every active call has exactly two
/// distinct, currently connected participants; no user is in two calls at
/// once; stream identifiers never collide.
pub open spec fn wf(s: ServerV) -> bool {
    &&& s.calls.len() <= CALL_CAPACITY
    &&& forall|i: int, j: int|
        0 <= i < j < s.conns.len() ==> #[trigger] s.conns[i].id != #[trigger] s.conns[j].id
    &&& forall|i: int| 0 <= i < s.conns.len() ==> #[trigger] s.conns[i].id < s.next_id
    &&& forall|i: int, j: int|
        0 <= i < j < s.conns.len() && phase_name(#[trigger] s.conns[i].phase) is Some
            ==> phase_name(s.conns[i].phase) != phase_name(#[trigger] s.conns[j].phase)
    &&& forall|i: int|
        0 <= i < s.conns.len() ==> match phase_name(#[trigger] s.conns[i].phase) {
            Option::Some(n) => 1 <= n.len() <= MAX_SUBJECT_LEN,
            Option::None => true,
        }
    &&& forall|k: int| 0 <= k < s.calls.len() ==> call_ok(s, #[trigger] s.calls[k])
    &&& forall|k1: int, k2: int|
        0 <= k1 < k2 < s.calls.len() ==> calls_disjoint(
            #[trigger] s.calls[k1],
            #[trigger] s.calls[k2],
        )
    &&& forall|i: int|
        0 <= i < s.conns.len() ==> match #[trigger] s.conns[i].phase {
            PhaseV::InCall { name, peer } => exists|k: int|
                0 <= k < s.calls.len() && call_pairs(#[trigger] s.calls[k], name, peer),
            _ => true,
        }
}

/// No surviving connection ever changes its username: whatever connection is
/// present before and after a step under the same identifier answers to the
/// same name afterwards, once it has one.
pub open spec fn names_preserved(pre: ServerV, post: ServerV) -> bool {
    forall|i: int, j: int|
        0 <= i < pre.conns.len() && 0 <= j < post.conns.len()
            && #[trigger] pre.conns[i].id == #[trigger] post.conns[j].id
            && phase_name(pre.conns[i].phase) is Some
            ==> phase_name(post.conns[j].phase) == phase_name(pre.conns[i].phase)
}

// ---------------------------------------------------------------------------
// Construction and lookups
// ---------------------------------------------------------------------------

/// Byte-string equality, exposed to specifications as view equality.
pub fn bytes_eq(a: &Vec<u8>, b: &Vec<u8>) -> (r: bool)
    ensures
        r == (a@ == b@),
{
    if a.len() != b.len() {
        return false;
    }
    let mut i: usize = 0;
    while i < a.len()
        invariant
            i <= a@.len(),
            a@.len() == b@.len(),
            forall|j: int| 0 <= j < i ==> a@[j] == b@[j],
        decreases a@.len() - i,
    {
        if a[i] != b[i] {
            return false;
        }
        i = i + 1;
    }
    proof {
        assert(a@ =~= b@);
    }
    true
}

impl ServerState {
    /// A freshly started server: nobody connected, no calls.
    pub fn new() -> (s: ServerState)
        ensures
            wf(s@),
            s@.conns.len() == 0,
            s@.calls.len() == 0,
    {
        ServerState { conns: Vec::new(), calls: Vec::new(), next_id: 0 }
    }

    /// Accepts a new control connection and hands back its identifier.
    pub fn on_connect(&mut self) -> (id: u64)
        requires
            wf(old(self)@),
            old(self)@.next_id < u64::MAX,
        ensures
            wf(final(self)@),
            id == old(self)@.next_id,
            final(self)@.conns == old(self)@.conns.push(ConnV { id, phase: PhaseV::Anonymous }),
            final(self)@.calls == old(self)@.calls,
            final(self)@.next_id == id + 1,
            has_conn(final(self)@, id),
            names_preserved(old(self)@, final(self)@),
    {
        let id = self.next_id;
        self.conns.push(Conn { id, phase: Phase::Anonymous });
        self.next_id = self.next_id + 1;
        proof {
            let pre = old(self)@;
            let post = self@;
            assert(post.conns =~= pre.conns.push(ConnV { id, phase: PhaseV::Anonymous }));
            assert(post.calls =~= pre.calls);
            assert(post.conns[pre.conns.len() as int].id == id);
            assert forall|k: int| 0 <= k < post.calls.len() implies call_ok(
                post,
                #[trigger] post.calls[k],
            ) by {
                assert(call_ok(pre, pre.calls[k]));
                let i1 = choose|i: int|
                    0 <= i < pre.conns.len() && #[trigger] pre.conns[i].phase == (PhaseV::InCall {
                        name: pre.calls[k].caller,
                        peer: pre.calls[k].callee,
                    });
                let i2 = choose|i: int|
                    0 <= i < pre.conns.len() && #[trigger] pre.conns[i].phase == (PhaseV::InCall {
                        name: pre.calls[k].callee,
                        peer: pre.calls[k].caller,
                    });
                assert(post.conns[i1].phase == pre.conns[i1].phase);
                assert(post.conns[i2].phase == pre.conns[i2].phase);
            }
        }
        id
    }

    /// The position of connection `id` in the connection list.
    fn find_conn(&self, id: u64) -> (r: Option<usize>)
        ensures
            match r {
                Option::Some(i) => i < self@.conns.len() && self@.conns[i as int].id == id
                    && has_conn(self@, id),
                Option::None => !has_conn(self@, id),
            },
    {
        let mut i: usize = 0;
        while i < self.conns.len()
            invariant
                i <= self@.conns.len(),
                forall|j: int| 0 <= j < i ==> #[trigger] self@.conns[j].id != id,
            decreases self@.conns.len() - i,
        {
            if self.conns[i].id == id {
                return Some(i);
            }
            i = i + 1;
        }
        None
    }

    /// The position of the connection that answers to `name`, if any.
    fn find_owner(&self, name: &Vec<u8>) -> (r: Option<usize>)
        ensures
            match r {
                Option::Some(i) => i < self@.conns.len() && phase_name(self@.conns[i as int].phase)
                    == Option::Some(name@) && name_registered(self@, name@),
                Option::None => !name_registered(self@, name@),
            },
    {
        let mut i: usize = 0;
        while i < self.conns.len()
            invariant
                i <= self@.conns.len(),
                forall|j: int|
                    0 <= j < i ==> phase_name(#[trigger] self@.conns[j].phase)
                        != Option::Some(name@),
            decreases self@.conns.len() - i,
        {
            let named = match &self.conns[i].phase {
                Phase::Anonymous => false,
                Phase::Registered { name: n } => bytes_eq(n, name),
                Phase::InCall { name: n, .. } => bytes_eq(n, name),
            };
            if named {
                return Some(i);
            }
            i = i + 1;
        }
        None
    }

    /// The position of the call `name` participates in, if any.
    fn find_call(&self, name: &Vec<u8>) -> (r: Option<usize>)
        ensures
            match r {
                Option::Some(k) => k < self@.calls.len() && call_has_user(
                    self@.calls[k as int],
                    name@,
                ) && user_in_call(self@, name@),
                Option::None => !user_in_call(self@, name@),
            },
    {
        let mut k: usize = 0;
        while k < self.calls.len()
            invariant
                k <= self@.calls.len(),
                forall|j: int| 0 <= j < k ==> !call_has_user(#[trigger] self@.calls[j], name@),
            decreases self@.calls.len() - k,
        {
            if bytes_eq(&self.calls[k].caller, name) || bytes_eq(&self.calls[k].callee, name) {
                return Some(k);
            }
            k = k + 1;
        }
        None
    }
}

// ---------------------------------------------------------------------------
// HELLO
// ---------------------------------------------------------------------------

/// What one connection contributes to the advertisements after a login:
/// a registered, not-in-call user other than the newcomer learns the
/// newcomer's name, and the newcomer learns theirs.
pub open spec fn hello_contribution(c: ConnV, conn: u64, name: Seq<u8>) -> Seq<OutgoingV> {
    match c.phase {
        PhaseV::Registered { name: other } => if c.id != conn {
            seq![
                subj_out(c.id, ADD_USER_TO_CLIENT_BYTE, name),
                subj_out(conn, ADD_USER_TO_CLIENT_BYTE, other),
            ]
        } else {
            seq![]
        },
        _ => seq![],
    }
}

/// The ADD_USER advertisements sent when `name` logs in on `conn`, walking
/// the connection list in order. Users in a call stay hidden.
pub open spec fn hello_adds(conns: Seq<ConnV>, conn: u64, name: Seq<u8>) -> Seq<OutgoingV>
    decreases conns.len(),
{
    if conns.len() == 0 {
        seq![]
    } else {
        hello_adds(conns.drop_last(), conn, name) + hello_contribution(conns.last(), conn, name)
    }
}

proof fn lemma_hello_adds_step(conns: Seq<ConnV>, i: int, conn: u64, name: Seq<u8>)
    requires
        0 <= i < conns.len(),
    ensures
        hello_adds(conns.take(i + 1), conn, name) == hello_adds(conns.take(i), conn, name)
            + hello_contribution(conns[i], conn, name),
{
    assert(conns.take(i + 1).drop_last() =~= conns.take(i));
    assert(conns.take(i + 1).last() == conns[i]);
}

/// The server's answer to `HELLO_FROM_CLIENT(name)` on connection `conn`.
pub open spec fn spec_hello(pre: ServerV, conn: u64, name: Seq<u8>) -> Result<
    (ServerV, Seq<OutgoingV>),
    ServerError,
> {
    let i = conn_index(pre, conn);
    if !(pre.conns[i].phase is Anonymous) {
        Result::Err(ServerError::Protocol)
    } else if name.len() == 0 || name.len() > MAX_SUBJECT_LEN {
        Result::Err(ServerError::Protocol)
    } else if name_registered(pre, name) {
        Result::Ok((pre, seq![bare_out(conn, USERNAME_ALREADY_TAKEN_BYTE)]))
    } else {
        let post = ServerV {
            conns: pre.conns.update(i, ConnV { id: conn, phase: PhaseV::Registered { name } }),
            ..pre
        };
        Result::Ok(
            (
                post,
                seq![bare_out(conn, HELLO_FROM_SERVER_BYTE)] + hello_adds(post.conns, conn, name),
            ),
        )
    }
}

impl ServerState {
    /// The ADD_USER advertisements for a newcomer already in the list.
    fn hello_add_outs(&self, conn: u64, name: &Vec<u8>) -> (outs: Vec<Outgoing>)
        ensures
            outs_view(outs) == hello_adds(self@.conns, conn, name@),
    {
        let mut outs: Vec<Outgoing> = Vec::new();
        let mut i: usize = 0;
        while i < self.conns.len()
            invariant
                i <= self@.conns.len(),
                outs_view(outs) =~= hello_adds(self@.conns.take(i as int), conn, name@),
            decreases self@.conns.len() - i,
        {
            let c = &self.conns[i];
            if c.id != conn {
                match &c.phase {
                    Phase::Registered { name: other } => {
                        outs.push(Outgoing {
                            conn: c.id,
                            frame: OutFrame::Ctl {
                                cmd: ADD_USER_TO_CLIENT_BYTE,
                                subject: Some(name.clone()),
                            },
                        });
                        outs.push(Outgoing {
                            conn,
                            frame: OutFrame::Ctl {
                                cmd: ADD_USER_TO_CLIENT_BYTE,
                                subject: Some(other.clone()),
                            },
                        });
                    },
                    _ => {},
                }
            }
            proof {
                lemma_hello_adds_step(self@.conns, i as int, conn, name@);
                assert(outs_view(outs) =~= hello_adds(
                    self@.conns.take(i + 1 as int),
                    conn,
                    name@,
                ));
            }
            i = i + 1;
        }
        proof {
            assert(self@.conns.take(self@.conns.len() as int) =~= self@.conns);
        }
        outs
    }

    /// Handles `HELLO_FROM_CLIENT(name)`: registers the newcomer if the name
    /// is free, answers `USERNAME_ALREADY_TAKEN` if not, and refuses the
    /// frame on a connection that is past `Anonymous`.
    pub fn handle_hello(&mut self, conn: u64, name: Vec<u8>) -> (r: Result<
        Vec<Outgoing>,
        ServerError,
    >)
        requires
            wf(old(self)@),
            has_conn(old(self)@, conn),
        ensures
            wf(final(self)@),
            names_preserved(old(self)@, final(self)@),
            match spec_hello(old(self)@, conn, name@) {
                Result::Ok((post, outs)) => r matches Ok(o) && final(self)@ == post && outs_view(o)
                    == outs,
                Result::Err(e) => r matches Err(e2) && e2 == e && final(self)@ == old(self)@,
            },
    {
        let ghost pre = self@;
        let idx = match self.find_conn(conn) {
            Some(i) => i,
            None => {
                // unreachable under the precondition
                return Err(ServerError::Protocol);
            },
        };
        proof {
            let i0 = conn_index(pre, conn);
            // both indices name the same connection; identifiers are unique
            assert(pre.conns[idx as int].id == pre.conns[i0].id);
            if idx as int != i0 {
                assert(false);
            }
        }
        let anonymous = match &self.conns[idx].phase {
            Phase::Anonymous => true,
            _ => false,
        };
        if !anonymous {
            return Err(ServerError::Protocol);
        }
        if name.len() == 0 || name.len() > MAX_SUBJECT_LEN {
            return Err(ServerError::Protocol);
        }
        if self.find_owner(&name).is_some() {
            let outs: Vec<Outgoing> = vec![
                Outgoing {
                    conn,
                    frame: OutFrame::Ctl { cmd: USERNAME_ALREADY_TAKEN_BYTE, subject: None },
                },
            ];
            proof {
                assert(outs_view(outs) =~= seq![bare_out(conn, USERNAME_ALREADY_TAKEN_BYTE)]);
            }
            return Ok(outs);
        }
        let ghost nm = name@;
        self.conns[idx] = Conn { id: conn, phase: Phase::Registered { name: name.clone() } };
        proof {
            assert(self@.conns =~= pre.conns.update(
                idx as int,
                ConnV { id: conn, phase: PhaseV::Registered { name: nm } },
            ));
            assert(self@.calls =~= pre.calls);
        }
        let mut outs: Vec<Outgoing> = Vec::new();
        outs.push(Outgoing { conn, frame: OutFrame::Ctl { cmd: HELLO_FROM_SERVER_BYTE, subject: None } });
        let mut adds = self.hello_add_outs(conn, &name);
        outs.append(&mut adds);
        proof {
            assert(outs_view(outs) =~= seq![bare_out(conn, HELLO_FROM_SERVER_BYTE)] + hello_adds(
                self@.conns,
                conn,
                nm,
            ));
            lemma_hello_preserves_wf(pre, self@, conn, conn_index(pre, conn), nm);
        }
        Ok(outs)
    }
}

/// Registering a fresh name on an anonymous connection keeps the server
/// invariant.
proof fn lemma_hello_preserves_wf(pre: ServerV, post: ServerV, conn: u64, i: int, name: Seq<u8>)
    requires
        wf(pre),
        0 <= i < pre.conns.len(),
        pre.conns[i].id == conn,
        pre.conns[i].phase is Anonymous,
        1 <= name.len() <= MAX_SUBJECT_LEN,
        !name_registered(pre, name),
        post.conns == pre.conns.update(i, ConnV { id: conn, phase: PhaseV::Registered { name } }),
        post.calls == pre.calls,
        post.next_id == pre.next_id,
    ensures
        wf(post),
        names_preserved(pre, post),
{
    assert forall|k: int| 0 <= k < post.calls.len() implies call_ok(
        post,
        #[trigger] post.calls[k],
    ) by {
        assert(call_ok(pre, pre.calls[k]));
        let w1 = choose|w: int|
            0 <= w < pre.conns.len() && #[trigger] pre.conns[w].phase == (PhaseV::InCall {
                name: pre.calls[k].caller,
                peer: pre.calls[k].callee,
            });
        let w2 = choose|w: int|
            0 <= w < pre.conns.len() && #[trigger] pre.conns[w].phase == (PhaseV::InCall {
                name: pre.calls[k].callee,
                peer: pre.calls[k].caller,
            });
        assert(w1 != i && w2 != i);
        assert(post.conns[w1].phase == pre.conns[w1].phase);
        assert(post.conns[w2].phase == pre.conns[w2].phase);
    }
    assert forall|a: int, b: int|
        0 <= a < b < post.conns.len() && phase_name(#[trigger] post.conns[a].phase) is Some
            implies phase_name(post.conns[a].phase) != phase_name(
        #[trigger] post.conns[b].phase,
    ) by {
        if a != i && b != i {
            assert(post.conns[a] == pre.conns[a]);
            assert(post.conns[b] == pre.conns[b]);
        } else if a == i {
            assert(phase_name(post.conns[a].phase) == Option::Some(name));
            assert(phase_name(pre.conns[b].phase) != Option::Some(name));
        } else {
            assert(phase_name(post.conns[b].phase) == Option::Some(name));
            assert(phase_name(pre.conns[a].phase) != Option::Some(name));
        }
    }
}

// ---------------------------------------------------------------------------
// REQUEST_CALL and DENY_CALL
// ---------------------------------------------------------------------------

/// The server's answer to `REQUEST_CALL(target)` or `DENY_CALL(target)`:
/// the frame is relayed to the target's connection under the sender's name.
/// An anonymous sender is ignored; an unknown target ends the connection.
pub open spec fn spec_route(pre: ServerV, conn: u64, cmd: u8, target: Seq<u8>) -> Result<
    Seq<OutgoingV>,
    ServerError,
> {
    match phase_name(pre.conns[conn_index(pre, conn)].phase) {
        Option::None => Result::Ok(seq![]),
        Option::Some(me) => if !name_registered(pre, target) {
            Result::Err(ServerError::InvalidUsername)
        } else {
            Result::Ok(seq![subj_out(owner_id(pre, target), cmd, me)])
        },
    }
}

impl ServerState {
    /// A clone of the username `conn` answers to, if any.
    fn own_name(&self, idx: usize) -> (r: Option<Vec<u8>>)
        requires
            idx < self@.conns.len(),
        ensures
            match r {
                Option::Some(n) => phase_name(self@.conns[idx as int].phase) == Option::Some(n@),
                Option::None => phase_name(self@.conns[idx as int].phase) is None,
            },
    {
        match &self.conns[idx].phase {
            Phase::Anonymous => None,
            Phase::Registered { name } => {
                let c = name.clone();
                proof {
                    assert(c@ =~= name@);
                }
                Some(c)
            },
            Phase::InCall { name, .. } => {
                let c = name.clone();
                proof {
                    assert(c@ =~= name@);
                }
                Some(c)
            },
        }
    }

    /// Handles `REQUEST_CALL(target)` and `DENY_CALL(target)`, which route
    /// identically: the target learns the sender's name under the same
    /// command byte.
    pub fn handle_route(&self, conn: u64, cmd: u8, target: &Vec<u8>) -> (r: Result<
        Vec<Outgoing>,
        ServerError,
    >)
        requires
            wf(self@),
            has_conn(self@, conn),
            cmd == REQUEST_CALL_BYTE || cmd == DENY_CALL_BYTE,
        ensures
            match spec_route(self@, conn, cmd, target@) {
                Result::Ok(outs) => r matches Ok(o) && outs_view(o) == outs,
                Result::Err(e) => r matches Err(e2) && e2 == e,
            },
    {
        let idx = match self.find_conn(conn) {
            Some(i) => i,
            None => {
                return Err(ServerError::InvalidUsername);
            },
        };
        proof {
            lemma_conn_index_agrees(self@, conn, idx as int);
        }
        let me = match self.own_name(idx) {
            Some(n) => n,
            None => {
                let outs: Vec<Outgoing> = Vec::new();
                proof {
                    assert(outs_view(outs) =~= Seq::<OutgoingV>::empty());
                }
                return Ok(outs);
            },
        };
        let target_idx = match self.find_owner(target) {
            Some(j) => j,
            None => {
                return Err(ServerError::InvalidUsername);
            },
        };
        proof {
            lemma_owner_index_agrees(self@, target@, target_idx as int);
        }
        let target_id = self.conns[target_idx].id;
        let outs: Vec<Outgoing> = vec![
            Outgoing { conn: target_id, frame: OutFrame::Ctl { cmd, subject: Some(me) } },
        ];
        proof {
            assert(outs_view(outs) =~= seq![
                subj_out(owner_id(self@, target@), cmd, outs@[0].frame->Ctl_subject->0@),
            ]);
        }
        Ok(outs)
    }
}

/// Connection identifiers are unique, so any index holding `conn`'s
/// identifier is the one `conn_index` picks.
proof fn lemma_conn_index_agrees(s: ServerV, conn: u64, idx: int)
    requires
        wf(s),
        0 <= idx < s.conns.len(),
        s.conns[idx].id == conn,
    ensures
        conn_index(s, conn) == idx,
{
    let i0 = conn_index(s, conn);
    assert(0 <= i0 < s.conns.len() && s.conns[i0].id == conn);
    if i0 != idx {
        assert(false);
    }
}

/// Usernames are unique, so any index whose connection answers to `name` is
/// the one `owner_index` picks.
proof fn lemma_owner_index_agrees(s: ServerV, name: Seq<u8>, idx: int)
    requires
        wf(s),
        0 <= idx < s.conns.len(),
        phase_name(s.conns[idx].phase) == Option::Some(name),
    ensures
        owner_index(s, name) == idx,
{
    let i0 = owner_index(s, name);
    assert(0 <= i0 < s.conns.len() && phase_name(s.conns[i0].phase) == Option::Some(name));
    if i0 != idx {
        assert(false);
    }
}

// ---------------------------------------------------------------------------
// START_CALL
// ---------------------------------------------------------------------------

/// What one connection receives when `me` and `target` enter a call: every
/// other named user sees both vanish from the roster.
pub open spec fn start_remove_contribution(c: ConnV, me: Seq<u8>, target: Seq<u8>) -> Seq<
    OutgoingV,
> {
    match phase_name(c.phase) {
        Option::Some(n) => if n != me && n != target {
            seq![
                subj_out(c.id, REMOVE_USER_FROM_CLIENT_BYTE, me),
                subj_out(c.id, REMOVE_USER_FROM_CLIENT_BYTE, target),
            ]
        } else {
            seq![]
        },
        Option::None => seq![],
    }
}

/// The REMOVE_USER broadcasts that hide the two participants of a new call,
/// walking the connection list in order.
pub open spec fn start_removes(conns: Seq<ConnV>, me: Seq<u8>, target: Seq<u8>) -> Seq<OutgoingV>
    decreases conns.len(),
{
    if conns.len() == 0 {
        seq![]
    } else {
        start_removes(conns.drop_last(), me, target) + start_remove_contribution(
            conns.last(),
            me,
            target,
        )
    }
}

proof fn lemma_start_removes_step(conns: Seq<ConnV>, i: int, me: Seq<u8>, target: Seq<u8>)
    requires
        0 <= i < conns.len(),
    ensures
        start_removes(conns.take(i + 1), me, target) == start_removes(conns.take(i), me, target)
            + start_remove_contribution(conns[i], me, target),
{
    assert(conns.take(i + 1).drop_last() =~= conns.take(i));
    assert(conns.take(i + 1).last() == conns[i]);
}

/// The state after `me` (on `conn`) and `target` enter a call.
pub open spec fn started_state(
    pre: ServerV,
    conn: u64,
    me: Seq<u8>,
    target: Seq<u8>,
    caller_sid: u32,
    callee_sid: u32,
) -> ServerV {
    let i = conn_index(pre, conn);
    let j = owner_index(pre, target);
    ServerV {
        conns: pre.conns.update(i, ConnV { id: conn, phase: PhaseV::InCall { name: me, peer: target } })
            .update(j, ConnV { id: pre.conns[j].id, phase: PhaseV::InCall { name: target, peer: me } }),
        calls: pre.calls.push(
            CallV { caller: me, caller_sid, callee: target, callee_sid, sids_requested: 0 },
        ),
        ..pre
    }
}

/// The server's answer to `START_CALL(target)` with the two freshly minted
/// stream identifiers: the call is recorded, both parties are hidden from
/// the roster, and the target learns the call has started.
pub open spec fn spec_start(
    pre: ServerV,
    conn: u64,
    target: Seq<u8>,
    caller_sid: u32,
    callee_sid: u32,
) -> Result<(ServerV, Seq<OutgoingV>), ServerError> {
    match phase_name(pre.conns[conn_index(pre, conn)].phase) {
        Option::None => Result::Ok((pre, seq![])),
        Option::Some(me) => if !name_registered(pre, target) {
            Result::Err(ServerError::InvalidUsername)
        } else if target == me {
            Result::Err(ServerError::InvalidPeer)
        } else if user_in_call(pre, me) || user_in_call(pre, target) {
            Result::Err(ServerError::AlreadyInCall)
        } else if pre.calls.len() >= CALL_CAPACITY {
            Result::Err(ServerError::AtCapacity)
        } else {
            Result::Ok(
                (
                    started_state(pre, conn, me, target, caller_sid, callee_sid),
                    start_removes(pre.conns, me, target) + seq![
                        subj_out(owner_id(pre, target), START_CALL_BYTE, me),
                    ],
                ),
            )
        },
    }
}

impl ServerState {
    /// The REMOVE_USER broadcasts hiding `me` and `target`.
    fn start_remove_outs(&self, me: &Vec<u8>, target: &Vec<u8>) -> (outs: Vec<Outgoing>)
        ensures
            outs_view(outs) == start_removes(self@.conns, me@, target@),
    {
        let mut outs: Vec<Outgoing> = Vec::new();
        let mut i: usize = 0;
        while i < self.conns.len()
            invariant
                i <= self@.conns.len(),
                outs_view(outs) =~= start_removes(self@.conns.take(i as int), me@, target@),
            decreases self@.conns.len() - i,
        {
            let c = &self.conns[i];
            let named = match &c.phase {
                Phase::Anonymous => false,
                Phase::Registered { name } => !bytes_eq(name, me) && !bytes_eq(name, target),
                Phase::InCall { name, .. } => !bytes_eq(name, me) && !bytes_eq(name, target),
            };
            if named {
                outs.push(Outgoing {
                    conn: c.id,
                    frame: OutFrame::Ctl {
                        cmd: REMOVE_USER_FROM_CLIENT_BYTE,
                        subject: Some(me.clone()),
                    },
                });
                outs.push(Outgoing {
                    conn: c.id,
                    frame: OutFrame::Ctl {
                        cmd: REMOVE_USER_FROM_CLIENT_BYTE,
                        subject: Some(target.clone()),
                    },
                });
            }
            proof {
                lemma_start_removes_step(self@.conns, i as int, me@, target@);
                assert(outs_view(outs) =~= start_removes(
                    self@.conns.take(i + 1 as int),
                    me@,
                    target@,
                ));
            }
            i = i + 1;
        }
        proof {
            assert(self@.conns.take(self@.conns.len() as int) =~= self@.conns);
        }
        outs
    }

    /// Handles `START_CALL(target)`: the sender accepts `target`'s call (or
    /// starts one); both get hidden from the roster and transition to
    /// `InCall`. The two stream identifiers must be fresh and distinct;
    /// [`ServerState::on_frame`] mints them.
    pub fn handle_start_call(
        &mut self,
        conn: u64,
        target: &Vec<u8>,
        caller_sid: u32,
        callee_sid: u32,
    ) -> (r: Result<Vec<Outgoing>, ServerError>)
        requires
            wf(old(self)@),
            has_conn(old(self)@, conn),
            caller_sid != callee_sid,
            !sid_in_use(old(self)@, caller_sid),
            !sid_in_use(old(self)@, callee_sid),
        ensures
            wf(final(self)@),
            names_preserved(old(self)@, final(self)@),
            match spec_start(old(self)@, conn, target@, caller_sid, callee_sid) {
                Result::Ok((post, outs)) => r matches Ok(o) && final(self)@ == post && outs_view(o)
                    == outs,
                Result::Err(e) => r matches Err(e2) && e2 == e && final(self)@ == old(self)@,
            },
    {
        let ghost pre = self@;
        let idx = match self.find_conn(conn) {
            Some(i) => i,
            None => {
                return Err(ServerError::InvalidUsername);
            },
        };
        proof {
            lemma_conn_index_agrees(pre, conn, idx as int);
        }
        let me = match self.own_name(idx) {
            Some(n) => n,
            None => {
                let outs: Vec<Outgoing> = Vec::new();
                proof {
                    assert(outs_view(outs) =~= Seq::<OutgoingV>::empty());
                }
                return Ok(outs);
            },
        };
        let target_idx = match self.find_owner(target) {
            Some(j) => j,
            None => {
                return Err(ServerError::InvalidUsername);
            },
        };
        proof {
            lemma_owner_index_agrees(pre, target@, target_idx as int);
        }
        if bytes_eq(target, &me) {
            return Err(ServerError::InvalidPeer);
        }
        if self.find_call(&me).is_some() || self.find_call(target).is_some() {
            return Err(ServerError::AlreadyInCall);
        }
        if self.calls.len() >= CALL_CAPACITY {
            return Err(ServerError::AtCapacity);
        }
        let mut outs = self.start_remove_outs(&me, target);
        let target_id = self.conns[target_idx].id;
        self.conns[idx] = Conn {
            id: conn,
            phase: Phase::InCall { name: me.clone(), peer: target.clone() },
        };
        self.conns[target_idx] = Conn {
            id: target_id,
            phase: Phase::InCall { name: target.clone(), peer: me.clone() },
        };
        self.calls.push(Call {
            caller: me.clone(),
            caller_sid,
            callee: target.clone(),
            callee_sid,
            sids_requested: 0,
        });
        outs.push(Outgoing {
            conn: target_id,
            frame: OutFrame::Ctl { cmd: START_CALL_BYTE, subject: Some(me) },
        });
        proof {
            assert(self@.conns =~= pre.conns.update(
                idx as int,
                ConnV { id: conn, phase: PhaseV::InCall { name: phase_name(pre.conns[idx as int].phase)->0, peer: target@ } },
            ).update(
                target_idx as int,
                ConnV {
                    id: pre.conns[target_idx as int].id,
                    phase: PhaseV::InCall { name: target@, peer: phase_name(pre.conns[idx as int].phase)->0 },
                },
            ));
            assert(self@.calls =~= pre.calls.push(
                CallV {
                    caller: phase_name(pre.conns[idx as int].phase)->0,
                    caller_sid,
                    callee: target@,
                    callee_sid,
                    sids_requested: 0,
                },
            ));
            lemma_start_preserves_wf(
                pre,
                self@,
                conn,
                idx as int,
                target_idx as int,
                phase_name(pre.conns[idx as int].phase)->0,
                target@,
                caller_sid,
                callee_sid,
            );
            assert(outs_view(outs) =~= start_removes(pre.conns, phase_name(pre.conns[idx as int].phase)->0, target@)
                + seq![subj_out(owner_id(pre, target@), START_CALL_BYTE, phase_name(pre.conns[idx as int].phase)->0)]);
        }
        Ok(outs)
    }
}

/// Creating a call between two registered, previously idle users with fresh
/// distinct stream identifiers keeps the server invariant.
proof fn lemma_start_preserves_wf(
    pre: ServerV,
    post: ServerV,
    conn: u64,
    i: int,
    j: int,
    me: Seq<u8>,
    target: Seq<u8>,
    caller_sid: u32,
    callee_sid: u32,
)
    requires
        wf(pre),
        0 <= i < pre.conns.len(),
        pre.conns[i].id == conn,
        phase_name(pre.conns[i].phase) == Option::Some(me),
        0 <= j < pre.conns.len(),
        phase_name(pre.conns[j].phase) == Option::Some(target),
        me != target,
        !user_in_call(pre, me),
        !user_in_call(pre, target),
        caller_sid != callee_sid,
        !sid_in_use(pre, caller_sid),
        !sid_in_use(pre, callee_sid),
        pre.calls.len() < CALL_CAPACITY,
        post.conns == pre.conns.update(
            i,
            ConnV { id: conn, phase: PhaseV::InCall { name: me, peer: target } },
        ).update(j, ConnV { id: pre.conns[j].id, phase: PhaseV::InCall { name: target, peer: me } }),
        post.calls == pre.calls.push(
            CallV { caller: me, caller_sid, callee: target, callee_sid, sids_requested: 0 },
        ),
        post.next_id == pre.next_id,
    ensures
        wf(post),
        names_preserved(pre, post),
{
    assert(i != j);
    // neither participant was in a call, so neither connection was `InCall`
    assert(!(pre.conns[i].phase is InCall)) by {
        match pre.conns[i].phase {
            PhaseV::InCall { name, peer } => {
                assert(name == me);
                let k = choose|k: int|
                    0 <= k < pre.calls.len() && call_pairs(#[trigger] pre.calls[k], name, peer);
                assert(call_has_user(pre.calls[k], me));
            },
            _ => {},
        }
    }
    assert(!(pre.conns[j].phase is InCall)) by {
        match pre.conns[j].phase {
            PhaseV::InCall { name, peer } => {
                assert(name == target);
                let k = choose|k: int|
                    0 <= k < pre.calls.len() && call_pairs(#[trigger] pre.calls[k], name, peer);
                assert(call_has_user(pre.calls[k], target));
            },
            _ => {},
        }
    }
    // identifiers and names are untouched position by position
    assert(forall|m: int| 0 <= m < post.conns.len() ==> #[trigger] post.conns[m].id
        == pre.conns[m].id);
    assert(forall|m: int|
        0 <= m < post.conns.len() ==> phase_name(#[trigger] post.conns[m].phase) == phase_name(
            pre.conns[m].phase,
        ));
    let newcall = CallV { caller: me, caller_sid, callee: target, callee_sid, sids_requested: 0 };
    let n = pre.calls.len() as int;
    assert forall|k: int| 0 <= k < post.calls.len() implies call_ok(
        post,
        #[trigger] post.calls[k],
    ) by {
        if k == n {
            assert(post.conns[i].phase == (PhaseV::InCall { name: me, peer: target }));
            assert(post.conns[j].phase == (PhaseV::InCall { name: target, peer: me }));
            assert(conn_in_call_with(post, me, target));
            assert(conn_in_call_with(post, target, me));
        } else {
            assert(call_ok(pre, pre.calls[k]));
            let w1 = choose|w: int|
                0 <= w < pre.conns.len() && #[trigger] pre.conns[w].phase == (PhaseV::InCall {
                    name: pre.calls[k].caller,
                    peer: pre.calls[k].callee,
                });
            let w2 = choose|w: int|
                0 <= w < pre.conns.len() && #[trigger] pre.conns[w].phase == (PhaseV::InCall {
                    name: pre.calls[k].callee,
                    peer: pre.calls[k].caller,
                });
            assert(w1 != i && w1 != j && w2 != i && w2 != j);
            assert(post.conns[w1].phase == pre.conns[w1].phase);
            assert(post.conns[w2].phase == pre.conns[w2].phase);
        }
    }
    assert forall|k1: int, k2: int| 0 <= k1 < k2 < post.calls.len() implies calls_disjoint(
        #[trigger] post.calls[k1],
        #[trigger] post.calls[k2],
    ) by {
        if k2 == n {
            assert(!call_has_user(pre.calls[k1], me));
            assert(!call_has_user(pre.calls[k1], target));
            assert(pre.calls[k1].caller_sid != caller_sid && pre.calls[k1].callee_sid
                != caller_sid);
            assert(pre.calls[k1].caller_sid != callee_sid && pre.calls[k1].callee_sid
                != callee_sid);
        }
    }
    assert forall|m: int| 0 <= m < post.conns.len() implies match #[trigger] post.conns[m].phase {
        PhaseV::InCall { name, peer } => exists|k: int|
            0 <= k < post.calls.len() && call_pairs(#[trigger] post.calls[k], name, peer),
        _ => true,
    } by {
        if m == i {
            assert(call_pairs(post.calls[n], me, target));
        } else if m == j {
            assert(call_pairs(post.calls[n], target, me));
        } else {
            match pre.conns[m].phase {
                PhaseV::InCall { name, peer } => {
                    let k = choose|k: int|
                        0 <= k < pre.calls.len() && call_pairs(
                            #[trigger] pre.calls[k],
                            name,
                            peer,
                        );
                    assert(post.calls[k] == pre.calls[k]);
                    assert(call_pairs(post.calls[k], name, peer));
                },
                _ => {},
            }
        }
    }
}

// ---------------------------------------------------------------------------
// REQUEST_CALL_STREAM_ID
// ---------------------------------------------------------------------------

/// The call `name` participates in. Under [`wf`] there is at most one.
pub open spec fn user_call_index(s: ServerV, name: Seq<u8>) -> int {
    choose|k: int| 0 <= k < s.calls.len() && call_has_user(#[trigger] s.calls[k], name)
}

/// No user is in two calls, so any call index holding `name` is the one
/// `user_call_index` picks.
proof fn lemma_user_call_index_agrees(s: ServerV, name: Seq<u8>, k: int)
    requires
        wf(s),
        0 <= k < s.calls.len(),
        call_has_user(s.calls[k], name),
    ensures
        user_call_index(s, name) == k,
{
    let k0 = user_call_index(s, name);
    assert(0 <= k0 < s.calls.len() && call_has_user(s.calls[k0], name));
    if k0 < k {
        assert(calls_disjoint(s.calls[k0], s.calls[k]));
        assert(false);
    } else if k < k0 {
        assert(calls_disjoint(s.calls[k], s.calls[k0]));
        assert(false);
    }
}

/// The server's answer to `REQUEST_CALL_STREAM_ID(target)`: the sender gets
/// their own stream identifier back, provided they are in a call and named
/// their actual peer. The call counts one more fetched identifier, capped at
/// its terminal value of 2.
pub open spec fn spec_sid_request(pre: ServerV, conn: u64, target: Seq<u8>) -> Result<
    (ServerV, Seq<OutgoingV>),
    ServerError,
> {
    match phase_name(pre.conns[conn_index(pre, conn)].phase) {
        Option::None => Result::Ok((pre, seq![])),
        Option::Some(me) => if !user_in_call(pre, me) {
            Result::Err(ServerError::CallNotFound)
        } else {
            let k = user_call_index(pre, me);
            let c = pre.calls[k];
            let peer = if c.caller == me {
                c.callee
            } else {
                c.caller
            };
            let my_sid = if c.caller == me {
                c.caller_sid
            } else {
                c.callee_sid
            };
            if target != peer {
                Result::Err(ServerError::InvalidPeer)
            } else {
                let bumped = CallV {
                    sids_requested: if c.sids_requested < 2 {
                        (c.sids_requested + 1) as u8
                    } else {
                        2
                    },
                    ..c
                };
                Result::Ok(
                    (ServerV { calls: pre.calls.update(k, bumped), ..pre }, seq![
                        sid_out(conn, my_sid),
                    ]),
                )
            }
        },
    }
}

impl ServerState {
    /// Handles `REQUEST_CALL_STREAM_ID(target)`.
    pub fn handle_sid_request(&mut self, conn: u64, target: &Vec<u8>) -> (r: Result<
        Vec<Outgoing>,
        ServerError,
    >)
        requires
            wf(old(self)@),
            has_conn(old(self)@, conn),
        ensures
            wf(final(self)@),
            names_preserved(old(self)@, final(self)@),
            match spec_sid_request(old(self)@, conn, target@) {
                Result::Ok((post, outs)) => r matches Ok(o) && final(self)@ == post && outs_view(o)
                    == outs,
                Result::Err(e) => r matches Err(e2) && e2 == e && final(self)@ == old(self)@,
            },
    {
        let ghost pre = self@;
        let idx = match self.find_conn(conn) {
            Some(i) => i,
            None => {
                return Err(ServerError::CallNotFound);
            },
        };
        proof {
            lemma_conn_index_agrees(pre, conn, idx as int);
        }
        let me = match self.own_name(idx) {
            Some(n) => n,
            None => {
                let outs: Vec<Outgoing> = Vec::new();
                proof {
                    assert(outs_view(outs) =~= Seq::<OutgoingV>::empty());
                }
                return Ok(outs);
            },
        };
        let k = match self.find_call(&me) {
            Some(k) => k,
            None => {
                return Err(ServerError::CallNotFound);
            },
        };
        proof {
            lemma_user_call_index_agrees(pre, me@, k as int);
        }
        let caller_side = bytes_eq(&self.calls[k].caller, &me);
        let peer_matches = if caller_side {
            bytes_eq(target, &self.calls[k].callee)
        } else {
            bytes_eq(target, &self.calls[k].caller)
        };
        if !peer_matches {
            return Err(ServerError::InvalidPeer);
        }
        let my_sid = if caller_side {
            self.calls[k].caller_sid
        } else {
            self.calls[k].callee_sid
        };
        let bumped = if self.calls[k].sids_requested < 2 {
            self.calls[k].sids_requested + 1
        } else {
            2
        };
        self.calls[k].sids_requested = bumped;
        let outs: Vec<Outgoing> = vec![
            Outgoing { conn, frame: OutFrame::Sid { sid: my_sid } },
        ];
        proof {
            let c = pre.calls[k as int];
            let bumped_call = CallV {
                sids_requested: if c.sids_requested < 2 {
                    (c.sids_requested + 1) as u8
                } else {
                    2
                },
                ..c
            };
            assert(self@.calls =~= pre.calls.update(k as int, bumped_call));
            assert(self@.conns =~= pre.conns);
            assert(outs_view(outs) =~= seq![sid_out(conn, my_sid)]);
            lemma_bump_preserves_wf(pre, self@, k as int);
        }
        Ok(outs)
    }
}

/// Changing only how many identifiers a call has handed out keeps the
/// server invariant.
proof fn lemma_bump_preserves_wf(pre: ServerV, post: ServerV, k: int)
    requires
        wf(pre),
        0 <= k < pre.calls.len(),
        post.conns == pre.conns,
        post.next_id == pre.next_id,
        post.calls.len() == pre.calls.len(),
        post.calls[k].sids_requested <= 2,
        forall|m: int| 0 <= m < pre.calls.len() && m != k ==> #[trigger] post.calls[m]
            == pre.calls[m],
        post.calls[k] == (CallV { sids_requested: post.calls[k].sids_requested, ..pre.calls[k] }),
    ensures
        wf(post),
        names_preserved(pre, post),
{
    assert forall|m: int| 0 <= m < post.calls.len() implies call_ok(
        post,
        #[trigger] post.calls[m],
    ) by {
        assert(call_ok(pre, pre.calls[m]));
        assert(post.calls[m].caller == pre.calls[m].caller);
        assert(post.calls[m].callee == pre.calls[m].callee);
    }
    assert forall|m1: int, m2: int| 0 <= m1 < m2 < post.calls.len() implies calls_disjoint(
        #[trigger] post.calls[m1],
        #[trigger] post.calls[m2],
    ) by {
        assert(calls_disjoint(pre.calls[m1], pre.calls[m2]));
    }
    assert forall|i: int| 0 <= i < post.conns.len() implies match #[trigger] post.conns[i].phase {
        PhaseV::InCall { name, peer } => exists|m: int|
            0 <= m < post.calls.len() && call_pairs(#[trigger] post.calls[m], name, peer),
        _ => true,
    } by {
        match pre.conns[i].phase {
            PhaseV::InCall { name, peer } => {
                let m = choose|m: int|
                    0 <= m < pre.calls.len() && call_pairs(#[trigger] pre.calls[m], name, peer);
                assert(call_pairs(post.calls[m], name, peer));
            },
            _ => {},
        }
    }
}

// ---------------------------------------------------------------------------
// Disconnect
// ---------------------------------------------------------------------------

/// The connection in `conns` that answers to `name`.
pub open spec fn owner_index_in(conns: Seq<ConnV>, name: Seq<u8>) -> int {
    choose|i: int|
        0 <= i < conns.len() && phase_name(#[trigger] conns[i].phase) == Option::Some(name)
}

/// Every named connection hears that `me` left.
pub open spec fn disconnect_remove_contribution(c: ConnV, me: Seq<u8>) -> Seq<OutgoingV> {
    match phase_name(c.phase) {
        Option::Some(_) => seq![subj_out(c.id, REMOVE_USER_FROM_CLIENT_BYTE, me)],
        Option::None => seq![],
    }
}

/// The REMOVE_USER broadcasts after `me` disconnects, walking the remaining
/// connections in order.
pub open spec fn disconnect_removes(conns: Seq<ConnV>, me: Seq<u8>) -> Seq<OutgoingV>
    decreases conns.len(),
{
    if conns.len() == 0 {
        seq![]
    } else {
        disconnect_removes(conns.drop_last(), me) + disconnect_remove_contribution(
            conns.last(),
            me,
        )
    }
}

proof fn lemma_disconnect_removes_step(conns: Seq<ConnV>, i: int, me: Seq<u8>)
    requires
        0 <= i < conns.len(),
    ensures
        disconnect_removes(conns.take(i + 1), me) == disconnect_removes(conns.take(i), me)
            + disconnect_remove_contribution(conns[i], me),
{
    assert(conns.take(i + 1).drop_last() =~= conns.take(i));
    assert(conns.take(i + 1).last() == conns[i]);
}

/// When a call tears down, its surviving participant `peer` returns to the
/// advertisable roster: every other user not in a call learns the name again.
pub open spec fn readd_contribution(c: ConnV, peer: Seq<u8>) -> Seq<OutgoingV> {
    match c.phase {
        PhaseV::Registered { name } => if name != peer {
            seq![subj_out(c.id, ADD_USER_TO_CLIENT_BYTE, peer)]
        } else {
            seq![]
        },
        _ => seq![],
    }
}

/// The ADD_USER broadcasts re-advertising `peer`, walking the connections in
/// order.
pub open spec fn readd_adds(conns: Seq<ConnV>, peer: Seq<u8>) -> Seq<OutgoingV>
    decreases conns.len(),
{
    if conns.len() == 0 {
        seq![]
    } else {
        readd_adds(conns.drop_last(), peer) + readd_contribution(conns.last(), peer)
    }
}

proof fn lemma_readd_adds_step(conns: Seq<ConnV>, i: int, peer: Seq<u8>)
    requires
        0 <= i < conns.len(),
    ensures
        readd_adds(conns.take(i + 1), peer) == readd_adds(conns.take(i), peer)
            + readd_contribution(conns[i], peer),
{
    assert(conns.take(i + 1).drop_last() =~= conns.take(i));
    assert(conns.take(i + 1).last() == conns[i]);
}

/// The cleanup when connection `conn` closes, cleanly or not: the user
/// leaves the roster and is announced gone; any call they were in is torn
/// down, its survivor gets END_CALL, returns to `Registered`, and is
/// re-advertised to the users that can see the roster.
pub open spec fn spec_disconnect(pre: ServerV, conn: u64) -> (ServerV, Seq<OutgoingV>) {
    let i = conn_index(pre, conn);
    let conns1 = pre.conns.remove(i);
    match phase_name(pre.conns[i].phase) {
        Option::None => (ServerV { conns: conns1, ..pre }, seq![]),
        Option::Some(me) => {
            let removes = disconnect_removes(conns1, me);
            if !user_in_call(pre, me) {
                (ServerV { conns: conns1, ..pre }, removes)
            } else {
                let k = user_call_index(pre, me);
                let c = pre.calls[k];
                let peer = if c.caller == me {
                    c.callee
                } else {
                    c.caller
                };
                let pj = owner_index_in(conns1, peer);
                let conns2 = conns1.update(
                    pj,
                    ConnV { id: conns1[pj].id, phase: PhaseV::Registered { name: peer } },
                );
                let post = ServerV { conns: conns2, calls: pre.calls.remove(k), ..pre };
                (
                    post,
                    removes + seq![bare_out(conns1[pj].id, END_CALL_BYTE)] + readd_adds(
                        conns2,
                        peer,
                    ),
                )
            }
        },
    }
}

impl ServerState {
    /// The REMOVE_USER broadcasts for a departed `me`.
    fn disconnect_remove_outs(&self, me: &Vec<u8>) -> (outs: Vec<Outgoing>)
        ensures
            outs_view(outs) == disconnect_removes(self@.conns, me@),
    {
        let mut outs: Vec<Outgoing> = Vec::new();
        let mut i: usize = 0;
        while i < self.conns.len()
            invariant
                i <= self@.conns.len(),
                outs_view(outs) =~= disconnect_removes(self@.conns.take(i as int), me@),
            decreases self@.conns.len() - i,
        {
            let c = &self.conns[i];
            let named = match &c.phase {
                Phase::Anonymous => false,
                _ => true,
            };
            if named {
                outs.push(Outgoing {
                    conn: c.id,
                    frame: OutFrame::Ctl {
                        cmd: REMOVE_USER_FROM_CLIENT_BYTE,
                        subject: Some(me.clone()),
                    },
                });
            }
            proof {
                lemma_disconnect_removes_step(self@.conns, i as int, me@);
                assert(outs_view(outs) =~= disconnect_removes(
                    self@.conns.take(i + 1 as int),
                    me@,
                ));
            }
            i = i + 1;
        }
        proof {
            assert(self@.conns.take(self@.conns.len() as int) =~= self@.conns);
        }
        outs
    }

    /// The ADD_USER broadcasts re-advertising `peer`.
    fn readd_outs(&self, peer: &Vec<u8>) -> (outs: Vec<Outgoing>)
        ensures
            outs_view(outs) == readd_adds(self@.conns, peer@),
    {
        let mut outs: Vec<Outgoing> = Vec::new();
        let mut i: usize = 0;
        while i < self.conns.len()
            invariant
                i <= self@.conns.len(),
                outs_view(outs) =~= readd_adds(self@.conns.take(i as int), peer@),
            decreases self@.conns.len() - i,
        {
            let c = &self.conns[i];
            match &c.phase {
                Phase::Registered { name } => {
                    if !bytes_eq(name, peer) {
                        outs.push(Outgoing {
                            conn: c.id,
                            frame: OutFrame::Ctl {
                                cmd: ADD_USER_TO_CLIENT_BYTE,
                                subject: Some(peer.clone()),
                            },
                        });
                    }
                },
                _ => {},
            }
            proof {
                lemma_readd_adds_step(self@.conns, i as int, peer@);
                assert(outs_view(outs) =~= readd_adds(self@.conns.take(i + 1 as int), peer@));
            }
            i = i + 1;
        }
        proof {
            assert(self@.conns.take(self@.conns.len() as int) =~= self@.conns);
        }
        outs
    }

    /// Runs the cleanup for a closed connection and returns what to tell the
    /// survivors.
    pub fn on_disconnect(&mut self, conn: u64) -> (outs: Vec<Outgoing>)
        requires
            wf(old(self)@),
            has_conn(old(self)@, conn),
        ensures
            wf(final(self)@),
            names_preserved(old(self)@, final(self)@),
            final(self)@ == spec_disconnect(old(self)@, conn).0,
            outs_view(outs) == spec_disconnect(old(self)@, conn).1,
    {
        let ghost pre = self@;
        let idx = match self.find_conn(conn) {
            Some(i) => i,
            None => {
                proof {
                    assert(false);
                }
                return Vec::new();
            },
        };
        proof {
            lemma_conn_index_agrees(pre, conn, idx as int);
        }
        let me_opt = self.own_name(idx);
        self.conns.remove(idx);
        proof {
            assert(self@.conns =~= pre.conns.remove(idx as int));
            assert(self@.calls =~= pre.calls);
        }
        let me = match me_opt {
            Some(n) => n,
            None => {
                let outs: Vec<Outgoing> = Vec::new();
                proof {
                    lemma_remove_conn_preserves_wf(pre, self@, idx as int);
                    assert(outs_view(outs) =~= Seq::<OutgoingV>::empty());
                }
                return outs;
            },
        };
        let mut outs = self.disconnect_remove_outs(&me);
        let k = match self.find_call(&me) {
            Some(k) => k,
            None => {
                proof {
                    lemma_remove_conn_preserves_wf(pre, self@, idx as int);
                }
                return outs;
            },
        };
        proof {
            lemma_user_call_index_agrees(pre, me@, k as int);
        }
        let caller_side = bytes_eq(&self.calls[k].caller, &me);
        let peer = if caller_side {
            self.calls[k].callee.clone()
        } else {
            self.calls[k].caller.clone()
        };
        proof {
            let c = pre.calls[k as int];
            assert(peer@ =~= if c.caller == me@ {
                c.callee
            } else {
                c.caller
            });
        }
        self.calls.remove(k);
        proof {
            assert(self@.calls =~= pre.calls.remove(k as int));
        }
        let ghost conns1 = pre.conns.remove(idx as int);
        let pj = match self.find_owner(&peer) {
            Some(j) => j,
            None => {
                proof {
                    lemma_peer_still_connected(pre, idx as int, k as int, me@, peer@);
                    assert(false);
                }
                return outs;
            },
        };
        proof {
            lemma_conns1_owner_agrees(pre, conns1, idx as int, peer@, pj as int);
        }
        let pid = self.conns[pj].id;
        self.conns[pj] = Conn { id: pid, phase: Phase::Registered { name: peer.clone() } };
        outs.push(Outgoing { conn: pid, frame: OutFrame::Ctl { cmd: END_CALL_BYTE, subject: None } });
        let mut adds = self.readd_outs(&peer);
        outs.append(&mut adds);
        proof {
            assert(self@.conns =~= conns1.update(
                pj as int,
                ConnV { id: conns1[pj as int].id, phase: PhaseV::Registered { name: peer@ } },
            ));
            lemma_disconnect_call_preserves_wf(pre, self@, idx as int, k as int, pj as int, me@, peer@);
            assert(outs_view(outs) =~= spec_disconnect(pre, conn).1);
        }
        outs
    }
}

/// The surviving participant of the departed user's call still has a
/// connection once the departed one is removed.
proof fn lemma_peer_still_connected(pre: ServerV, i: int, k: int, me: Seq<u8>, peer: Seq<u8>)
    requires
        wf(pre),
        0 <= i < pre.conns.len(),
        phase_name(pre.conns[i].phase) == Option::Some(me),
        0 <= k < pre.calls.len(),
        call_pairs(pre.calls[k], me, peer),
        me != peer,
    ensures
        exists|j: int|
            0 <= j < pre.conns.remove(i).len() && phase_name(
                #[trigger] pre.conns.remove(i)[j].phase,
            ) == Option::Some(peer),
{
    assert(call_ok(pre, pre.calls[k]));
    let w = choose|w: int|
        0 <= w < pre.conns.len() && #[trigger] pre.conns[w].phase == (PhaseV::InCall {
            name: peer,
            peer: me,
        });
    assert(w != i);
    let conns1 = pre.conns.remove(i);
    let w1 = if w < i {
        w
    } else {
        w - 1
    };
    assert(conns1[w1] == pre.conns[w]);
    assert(phase_name(conns1[w1].phase) == Option::Some(peer));
}

/// Usernames stay unique after a removal, so any index in the shortened
/// list that answers to `name` is the one `owner_index_in` picks.
proof fn lemma_conns1_owner_agrees(
    pre: ServerV,
    conns1: Seq<ConnV>,
    i: int,
    name: Seq<u8>,
    idx: int,
)
    requires
        wf(pre),
        0 <= i < pre.conns.len(),
        conns1 == pre.conns.remove(i),
        0 <= idx < conns1.len(),
        phase_name(conns1[idx].phase) == Option::Some(name),
    ensures
        owner_index_in(conns1, name) == idx,
{
    let j0 = owner_index_in(conns1, name);
    assert(0 <= j0 < conns1.len() && phase_name(conns1[j0].phase) == Option::Some(name));
    if j0 != idx {
        let a = if j0 < i {
            j0
        } else {
            j0 + 1
        };
        let b = if idx < i {
            idx
        } else {
            idx + 1
        };
        assert(conns1[j0] == pre.conns[a]);
        assert(conns1[idx] == pre.conns[b]);
        assert(a != b);
        assert(false);
    }
}

/// Removing a connection whose user is in no call keeps the server
/// invariant.
proof fn lemma_remove_conn_preserves_wf(pre: ServerV, post: ServerV, i: int)
    requires
        wf(pre),
        0 <= i < pre.conns.len(),
        match phase_name(pre.conns[i].phase) {
            Option::Some(n) => !user_in_call(pre, n),
            Option::None => true,
        },
        post.conns == pre.conns.remove(i),
        post.calls == pre.calls,
        post.next_id == pre.next_id,
    ensures
        wf(post),
        names_preserved(pre, post),
{
    assert(!(pre.conns[i].phase is InCall)) by {
        match pre.conns[i].phase {
            PhaseV::InCall { name, peer } => {
                let k = choose|k: int|
                    0 <= k < pre.calls.len() && call_pairs(#[trigger] pre.calls[k], name, peer);
                assert(call_has_user(pre.calls[k], name));
            },
            _ => {},
        }
    }
    assert forall|m: int| 0 <= m < post.conns.len() implies #[trigger] post.conns[m] == pre.conns[if m < i { m } else { m + 1 }] by {}
    assert forall|k: int| 0 <= k < post.calls.len() implies call_ok(
        post,
        #[trigger] post.calls[k],
    ) by {
        assert(call_ok(pre, pre.calls[k]));
        let w1 = choose|w: int|
            0 <= w < pre.conns.len() && #[trigger] pre.conns[w].phase == (PhaseV::InCall {
                name: pre.calls[k].caller,
                peer: pre.calls[k].callee,
            });
        let w2 = choose|w: int|
            0 <= w < pre.conns.len() && #[trigger] pre.conns[w].phase == (PhaseV::InCall {
                name: pre.calls[k].callee,
                peer: pre.calls[k].caller,
            });
        assert(w1 != i && w2 != i);
        let w1p = if w1 < i {
            w1
        } else {
            w1 - 1
        };
        let w2p = if w2 < i {
            w2
        } else {
            w2 - 1
        };
        assert(post.conns[w1p] == pre.conns[w1]);
        assert(post.conns[w2p] == pre.conns[w2]);
    }
    assert forall|m: int| 0 <= m < post.conns.len() implies match #[trigger] post.conns[m].phase {
        PhaseV::InCall { name, peer } => exists|k: int|
            0 <= k < post.calls.len() && call_pairs(#[trigger] post.calls[k], name, peer),
        _ => true,
    } by {
        let mp = if m < i {
            m
        } else {
            m + 1
        };
        assert(post.conns[m] == pre.conns[mp]);
    }
}

/// Tearing down the call of a departed user and returning the survivor to
/// `Registered` keeps the server invariant.
#[verifier::rlimit(60)]
proof fn lemma_disconnect_call_preserves_wf(
    pre: ServerV,
    post: ServerV,
    i: int,
    k: int,
    pj: int,
    me: Seq<u8>,
    peer: Seq<u8>,
)
    requires
        wf(pre),
        0 <= i < pre.conns.len(),
        phase_name(pre.conns[i].phase) == Option::Some(me),
        0 <= k < pre.calls.len(),
        call_pairs(pre.calls[k], me, peer),
        me != peer,
        0 <= pj < pre.conns.remove(i).len(),
        phase_name(pre.conns.remove(i)[pj].phase) == Option::Some(peer),
        post.conns == pre.conns.remove(i).update(
            pj,
            ConnV { id: pre.conns.remove(i)[pj].id, phase: PhaseV::Registered { name: peer } },
        ),
        post.calls == pre.calls.remove(k),
        post.next_id == pre.next_id,
    ensures
        wf(post),
        names_preserved(pre, post),
{
    let conns1 = pre.conns.remove(i);
    // position by position, every remaining connection keeps its identifier
    // and its name
    assert forall|m: int|
        0 <= m < post.conns.len() implies #[trigger] post.conns[m].id == pre.conns[if m < i { m } else { m + 1 }].id
        && phase_name(post.conns[m].phase) == phase_name(pre.conns[if m < i { m } else { m + 1 }].phase) by {
        if m != pj {
            assert(post.conns[m] == conns1[m]);
        }
    }
    // untouched connections keep their whole phase
    assert forall|m: int| 0 <= m < post.conns.len() && m != pj implies #[trigger] post.conns[m]
        == pre.conns[if m < i { m } else { m + 1 }] by {}
    // the connection named `me` is `i` itself, so it is gone from `post`
    assert forall|m: int| 0 <= m < post.conns.len() implies phase_name(
        #[trigger] post.conns[m].phase,
    ) != Option::Some(me) by {
        let mp = if m < i {
            m
        } else {
            m + 1
        };
        if phase_name(pre.conns[mp].phase) == Option::Some(me) {
            if mp < i {
                assert(phase_name(pre.conns[mp].phase) != phase_name(pre.conns[i].phase));
            } else {
                assert(phase_name(pre.conns[i].phase) != phase_name(pre.conns[mp].phase));
            }
            assert(false);
        }
    }
    assert forall|m: int| 0 <= m < post.calls.len() implies call_ok(
        post,
        #[trigger] post.calls[m],
    ) by {
        let mp = if m < k {
            m
        } else {
            m + 1
        };
        let c = pre.calls[mp];
        assert(post.calls[m] == c);
        assert(call_ok(pre, c));
        if mp < k {
            assert(calls_disjoint(pre.calls[mp], pre.calls[k]));
        } else {
            assert(calls_disjoint(pre.calls[k], pre.calls[mp]));
        }
        let w1 = choose|w: int|
            0 <= w < pre.conns.len() && #[trigger] pre.conns[w].phase == (PhaseV::InCall {
                name: c.caller,
                peer: c.callee,
            });
        let w2 = choose|w: int|
            0 <= w < pre.conns.len() && #[trigger] pre.conns[w].phase == (PhaseV::InCall {
                name: c.callee,
                peer: c.caller,
            });
        assert(w1 != i && w2 != i);
        let w1p = if w1 < i {
            w1
        } else {
            w1 - 1
        };
        let w2p = if w2 < i {
            w2
        } else {
            w2 - 1
        };
        assert(conns1[w1p] == pre.conns[w1]);
        assert(conns1[w2p] == pre.conns[w2]);
        assert(w1p != pj && w2p != pj);
        assert(post.conns[w1p] == pre.conns[w1]);
        assert(post.conns[w2p] == pre.conns[w2]);
    }
    assert forall|m1: int, m2: int| 0 <= m1 < m2 < post.calls.len() implies calls_disjoint(
        #[trigger] post.calls[m1],
        #[trigger] post.calls[m2],
    ) by {
        let m1p = if m1 < k {
            m1
        } else {
            m1 + 1
        };
        let m2p = if m2 < k {
            m2
        } else {
            m2 + 1
        };
        assert(post.calls[m1] == pre.calls[m1p]);
        assert(post.calls[m2] == pre.calls[m2p]);
        assert(calls_disjoint(pre.calls[m1p], pre.calls[m2p]));
    }
    assert forall|m: int| 0 <= m < post.conns.len() implies match #[trigger] post.conns[m].phase {
        PhaseV::InCall { name, peer: p } => exists|k2: int|
            0 <= k2 < post.calls.len() && call_pairs(#[trigger] post.calls[k2], name, p),
        _ => true,
    } by {
        if m != pj {
            let mp = if m < i {
                m
            } else {
                m + 1
            };
            assert(post.conns[m] == pre.conns[mp]);
            match pre.conns[mp].phase {
                PhaseV::InCall { name, peer: p } => {
                    let k2 = choose|k2: int|
                        0 <= k2 < pre.calls.len() && call_pairs(#[trigger] pre.calls[k2], name, p);
                    assert(call_has_user(pre.calls[k2], name));
                    // that call is not the torn-down one: its users are not
                    // `me`, and the one named `peer` is the updated survivor
                    if k2 == k {
                        assert(name == me || name == peer);
                        assert(phase_name(post.conns[m].phase) != Option::Some(me));
                        assert(name == peer);
                        let pjp = if pj < i {
                            pj
                        } else {
                            pj + 1
                        };
                        assert(phase_name(pre.conns[pjp].phase) == Option::Some(peer));
                        if mp != pjp {
                            if mp < pjp {
                                assert(phase_name(pre.conns[mp].phase) != phase_name(
                                    pre.conns[pjp].phase,
                                ));
                            } else {
                                assert(phase_name(pre.conns[pjp].phase) != phase_name(
                                    pre.conns[mp].phase,
                                ));
                            }
                            assert(false);
                        }
                        assert(false);
                    }
                    let k2p = if k2 < k {
                        k2
                    } else {
                        k2 - 1
                    };
                    assert(post.calls[k2p] == pre.calls[k2]);
                    assert(call_pairs(post.calls[k2p], name, p));
                },
                _ => {},
            }
        }
    }
}

// ---------------------------------------------------------------------------
// Stream-identifier minting
// ---------------------------------------------------------------------------

/// Relies on `rand::random`: draws a 32-bit stream identifier uniformly at
/// random. Nothing is assumed of the value; callers check freshness.
#[verifier::external_body]
fn random_sid() -> u32 {
    rand::random()
}

/// The stream identifiers a call list occupies, as a set of integers.
pub open spec fn call_sid_set(calls: Seq<CallV>) -> Set<int>
    decreases calls.len(),
{
    if calls.len() == 0 {
        Set::empty()
    } else {
        call_sid_set(calls.drop_last()).insert(calls.last().caller_sid as int).insert(
            calls.last().callee_sid as int,
        )
    }
}

/// One call covers the integer `x` with one of its identifiers.
pub open spec fn call_sid_covers(c: CallV, x: int) -> bool {
    c.caller_sid as int == x || c.callee_sid as int == x
}

/// `call_sid_set` is finite, holds at most two identifiers per call, and
/// holds exactly the identifiers some call uses.
proof fn lemma_call_sid_set(calls: Seq<CallV>)
    ensures
        call_sid_set(calls).finite(),
        call_sid_set(calls).len() <= 2 * calls.len(),
        forall|x: int| #[trigger] call_sid_set(calls).contains(x) <==> exists|k: int|
            0 <= k < calls.len() && call_sid_covers(#[trigger] calls[k], x),
    decreases calls.len(),
{
    if calls.len() == 0 {
    } else {
        let prefix = calls.drop_last();
        lemma_call_sid_set(prefix);
        let c = calls.last();
        assert forall|x: int| #[trigger] call_sid_set(calls).contains(x) implies exists|k: int|
            0 <= k < calls.len() && call_sid_covers(#[trigger] calls[k], x) by {
            if call_sid_covers(c, x) {
                assert(call_sid_covers(calls[calls.len() - 1], x));
            } else {
                let k = choose|k: int|
                    0 <= k < prefix.len() && call_sid_covers(#[trigger] prefix[k], x);
                assert(call_sid_covers(calls[k], x));
            }
        }
        assert forall|x: int|
            (exists|k: int| 0 <= k < calls.len() && call_sid_covers(#[trigger] calls[k], x))
            implies call_sid_set(calls).contains(x) by {
            let k = choose|k: int| 0 <= k < calls.len() && call_sid_covers(#[trigger] calls[k], x);
            if k < calls.len() - 1 {
                assert(call_sid_covers(prefix[k], x));
            }
        }
    }
}

impl ServerState {
    /// Whether some active call already uses `sid`.
    fn sid_used(&self, sid: u32) -> (b: bool)
        ensures
            b == sid_in_use(self@, sid),
    {
        let mut k: usize = 0;
        while k < self.calls.len()
            invariant
                k <= self@.calls.len(),
                forall|j: int| 0 <= j < k ==> !call_uses_sid(#[trigger] self@.calls[j], sid),
            decreases self@.calls.len() - k,
        {
            if self.calls[k].caller_sid == sid || self.calls[k].callee_sid == sid {
                proof {
                    assert(call_uses_sid(self@.calls[k as int], sid));
                }
                return true;
            }
            k = k + 1;
        }
        false
    }

    /// Mints a stream identifier no active call uses, distinct from `avoid`.
    ///
    /// Identifiers are drawn at random; a collision is regenerated. Should
    /// randomness keep colliding, a scan finds a free identifier: the call
    /// table is far smaller than the 32-bit space.
    fn mint_sid(&self, avoid: Option<u32>) -> (s: u32)
        requires
            wf(self@),
        ensures
            !sid_in_use(self@, s),
            match avoid {
                Option::Some(a) => s != a,
                Option::None => true,
            },
    {
        let mut tries: usize = 0;
        while tries < 32
            invariant
                wf(self@),
            decreases 32 - tries,
        {
            let s = random_sid();
            let clashes_avoid = match avoid {
                Option::Some(a) => s == a,
                Option::None => false,
            };
            if !clashes_avoid && !self.sid_used(s) {
                return s;
            }
            tries = tries + 1;
        }
        let mut cand: u64 = 0;
        while cand <= 0xffff_ffff
            invariant
                wf(self@),
                cand <= 0x1_0000_0000,
                forall|v: u64|
                    v < cand ==> sid_in_use(self@, #[trigger] (v as u32)) || (match avoid {
                        Option::Some(a) => a == v as u32,
                        Option::None => false,
                    }),
            decreases 0x1_0000_0000 - cand,
        {
            let s = cand as u32;
            let clashes_avoid = match avoid {
                Option::Some(a) => s == a,
                Option::None => false,
            };
            if !clashes_avoid && !self.sid_used(s) {
                return s;
            }
            cand = cand + 1;
        }
        proof {
            // every 32-bit value would be in use or avoided, yet the calls
            // occupy far fewer: a contradiction
            let used = call_sid_set(self@.calls);
            lemma_call_sid_set(self@.calls);
            let avoided = match avoid {
                Option::Some(a) => used.insert(a as int),
                Option::None => used,
            };
            let low = vstd::set_lib::set_int_range(0, 0x1_0000_0000);
            assert forall|x: int| low.contains(x) implies avoided.contains(x) by {
                let v = x as u64;
                assert(v < cand);
                if sid_in_use(self@, v as u32) {
                    let k = choose|k: int|
                        0 <= k < self@.calls.len() && call_uses_sid(
                            #[trigger] self@.calls[k],
                            v as u32,
                        );
                    assert(call_sid_covers(self@.calls[k], x));
                    assert(used.contains(x));
                }
            }
            vstd::set_lib::lemma_int_range(0, 0x1_0000_0000);
            vstd::set_lib::lemma_len_subset(low, avoided);
            assert(avoided.len() <= used.len() + 1);
            assert(false);
        }
        0
    }
}

// ---------------------------------------------------------------------------
// Dispatch
// ---------------------------------------------------------------------------

/// A stream-identifier pair fit for a new call under state `s`.
pub open spec fn fresh_sid_pair(s: ServerV, caller_sid: u32, callee_sid: u32) -> bool {
    &&& caller_sid != callee_sid
    &&& !sid_in_use(s, caller_sid)
    &&& !sid_in_use(s, callee_sid)
}

impl ServerState {
    /// Feeds one decoded frame from connection `conn` into the signalling
    /// state machine. `Err` means the connection must be closed; the caller
    /// then runs [`ServerState::on_disconnect`].
    ///
    /// For `START_CALL` the two stream identifiers are minted at random, so
    /// the outcome is pinned down only up to the freshly drawn pair.
    pub fn on_frame(&mut self, conn: u64, cmd: u8, subject: Option<Vec<u8>>) -> (r: Result<
        Vec<Outgoing>,
        ServerError,
    >)
        requires
            wf(old(self)@),
            has_conn(old(self)@, conn),
        ensures
            wf(final(self)@),
            names_preserved(old(self)@, final(self)@),
            r is Err ==> final(self)@ == old(self)@,
            ({
                let pre = old(self)@;
                let subj = match subject {
                    Option::Some(s) => Option::Some(s@),
                    Option::None => Option::None::<Seq<u8>>,
                };
                if cmd == HELLO_FROM_CLIENT_BYTE || cmd == REQUEST_CALL_BYTE || cmd
                    == DENY_CALL_BYTE || cmd == START_CALL_BYTE || cmd
                    == REQUEST_CALL_STREAM_ID_BYTE {
                    match subj {
                        Option::None => r matches Err(e) && e == ServerError::MissingSubject,
                        Option::Some(name) => {
                            if cmd == HELLO_FROM_CLIENT_BYTE {
                                match spec_hello(pre, conn, name) {
                                    Result::Ok((post, outs)) => r matches Ok(o) && final(self)@
                                        == post && outs_view(o) == outs,
                                    Result::Err(e) => r matches Err(e2) && e2 == e,
                                }
                            } else if cmd == REQUEST_CALL_BYTE || cmd == DENY_CALL_BYTE {
                                final(self)@ == pre && match spec_route(pre, conn, cmd, name) {
                                    Result::Ok(outs) => r matches Ok(o) && outs_view(o) == outs,
                                    Result::Err(e) => r matches Err(e2) && e2 == e,
                                }
                            } else if cmd == START_CALL_BYTE {
                                exists|sa: u32, sb: u32|
                                    #[trigger] fresh_sid_pair(pre, sa, sb) && match spec_start(
                                        pre,
                                        conn,
                                        name,
                                        sa,
                                        sb,
                                    ) {
                                        Result::Ok((post, outs)) => r matches Ok(o) && final(self)@
                                            == post && outs_view(o) == outs,
                                        Result::Err(e) => r matches Err(e2) && e2 == e,
                                    }
                            } else {
                                match spec_sid_request(pre, conn, name) {
                                    Result::Ok((post, outs)) => r matches Ok(o) && final(self)@
                                        == post && outs_view(o) == outs,
                                    Result::Err(e) => r matches Err(e2) && e2 == e,
                                }
                            }
                        },
                    }
                } else {
                    r matches Err(e) && e == ServerError::Protocol
                }
            }),
    {
        if cmd == HELLO_FROM_CLIENT_BYTE {
            match subject {
                Some(name) => self.handle_hello(conn, name),
                None => Err(ServerError::MissingSubject),
            }
        } else if cmd == REQUEST_CALL_BYTE || cmd == DENY_CALL_BYTE {
            match subject {
                Some(name) => self.handle_route(conn, cmd, &name),
                None => Err(ServerError::MissingSubject),
            }
        } else if cmd == START_CALL_BYTE {
            match subject {
                Some(name) => {
                    let sa = self.mint_sid(None);
                    let sb = self.mint_sid(Some(sa));
                    let r = self.handle_start_call(conn, &name, sa, sb);
                    proof {
                        assert(fresh_sid_pair(old(self)@, sa, sb));
                    }
                    r
                },
                None => Err(ServerError::MissingSubject),
            }
        } else if cmd == REQUEST_CALL_STREAM_ID_BYTE {
            match subject {
                Some(name) => self.handle_sid_request(conn, &name),
                None => Err(ServerError::MissingSubject),
            }
        } else {
            Err(ServerError::Protocol)
        }
    }
}

// ---------------------------------------------------------------------------
// The invariant, spelled out
// ---------------------------------------------------------------------------

/// Every name in the roster is owned by exactly one connection: two
/// connections answering to the same name are the same connection.
pub proof fn lemma_unique_owner(s: ServerV, i: int, j: int, name: Seq<u8>)
    requires
        wf(s),
        0 <= i < s.conns.len(),
        0 <= j < s.conns.len(),
        phase_name(s.conns[i].phase) == Option::Some(name),
        phase_name(s.conns[j].phase) == Option::Some(name),
    ensures
        i == j,
{
    if i < j {
        assert(phase_name(s.conns[i].phase) != phase_name(s.conns[j].phase));
    } else if j < i {
        assert(phase_name(s.conns[j].phase) != phase_name(s.conns[i].phase));
    }
}

/// Every active call has exactly two distinct participants, and both are
/// currently connected.
pub proof fn lemma_call_participants_connected(s: ServerV, k: int)
    requires
        wf(s),
        0 <= k < s.calls.len(),
    ensures
        s.calls[k].caller != s.calls[k].callee,
        name_registered(s, s.calls[k].caller),
        name_registered(s, s.calls[k].callee),
{
    assert(call_ok(s, s.calls[k]));
    let w1 = choose|w: int|
        0 <= w < s.conns.len() && #[trigger] s.conns[w].phase == (PhaseV::InCall {
            name: s.calls[k].caller,
            peer: s.calls[k].callee,
        });
    assert(phase_name(s.conns[w1].phase) == Option::Some(s.calls[k].caller));
    let w2 = choose|w: int|
        0 <= w < s.conns.len() && #[trigger] s.conns[w].phase == (PhaseV::InCall {
            name: s.calls[k].callee,
            peer: s.calls[k].caller,
        });
    assert(phase_name(s.conns[w2].phase) == Option::Some(s.calls[k].callee));
}

/// Every user participates in at most one active call.
pub proof fn lemma_at_most_one_call(s: ServerV, name: Seq<u8>, k1: int, k2: int)
    requires
        wf(s),
        0 <= k1 < s.calls.len(),
        0 <= k2 < s.calls.len(),
        call_has_user(s.calls[k1], name),
        call_has_user(s.calls[k2], name),
    ensures
        k1 == k2,
{
    if k1 < k2 {
        assert(calls_disjoint(s.calls[k1], s.calls[k2]));
    } else if k2 < k1 {
        assert(calls_disjoint(s.calls[k2], s.calls[k1]));
    }
}

// ---------------------------------------------------------------------------
// Queries
// ---------------------------------------------------------------------------

impl ServerState {
    /// Whether some connection answers to `name`.
    pub fn is_name_registered(&self, name: &Vec<u8>) -> (b: bool)
        ensures
            b == name_registered(self@, name@),
    {
        self.find_owner(name).is_some()
    }

    /// Whether `name` is in an active call.
    pub fn user_busy(&self, name: &Vec<u8>) -> (b: bool)
        ensures
            b == user_in_call(self@, name@),
    {
        self.find_call(name).is_some()
    }

    /// How many calls are active.
    pub fn active_call_count(&self) -> (n: usize)
        ensures
            n == self@.calls.len(),
    {
        self.calls.len()
    }

    /// How many control connections are open.
    pub fn connection_count(&self) -> (n: usize)
        ensures
            n == self@.conns.len(),
    {
        self.conns.len()
    }
}

} // verus!
