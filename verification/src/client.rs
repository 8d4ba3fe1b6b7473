//! Client-side call state machine: the roster mirror, the command REPL, the
//! incoming-call prompt and the call context.
//!
//! Terminal and network I/O stay outside. The caller parses a typed line
//! with [`ClientState::on_repl_line`], feeds decoded server frames through
//! [`ClientState::on_server_frame`], and performs the returned effects.

use vstd::prelude::*;

use crate::codec::ADD_USER_TO_CLIENT_BYTE;
use crate::codec::DENY_CALL_BYTE;
use crate::codec::END_CALL_BYTE;
use crate::codec::HELLO_FROM_SERVER_BYTE;
use crate::codec::MAX_SUBJECT_LEN;
use crate::codec::REMOVE_USER_FROM_CLIENT_BYTE;
use crate::codec::REQUEST_CALL_BYTE;
use crate::codec::START_CALL_BYTE;
use crate::codec::USERNAME_ALREADY_TAKEN_BYTE;
use crate::server::bytes_eq;

verus! {

// ---------------------------------------------------------------------------
// Byte-string helpers: ASCII trimming and the first token
// ---------------------------------------------------------------------------

/// ASCII whitespace.
pub open spec fn is_space(b: u8) -> bool {
    b == 32 || b == 9 || b == 10 || b == 11 || b == 12 || b == 13
}

fn is_space_b(b: u8) -> (r: bool)
    ensures
        r == is_space(b),
{
    b == 32 || b == 9 || b == 10 || b == 11 || b == 12 || b == 13
}

pub open spec fn ltrim(s: Seq<u8>) -> Seq<u8>
    decreases s.len(),
{
    if s.len() > 0 && is_space(s.first()) {
        ltrim(s.skip(1))
    } else {
        s
    }
}

pub open spec fn rtrim(s: Seq<u8>) -> Seq<u8>
    decreases s.len(),
{
    if s.len() > 0 && is_space(s.last()) {
        rtrim(s.drop_last())
    } else {
        s
    }
}

/// `s` without leading and trailing ASCII whitespace.
pub open spec fn trimmed(s: Seq<u8>) -> Seq<u8> {
    rtrim(ltrim(s))
}

/// The longest whitespace-free prefix.
pub open spec fn first_token(s: Seq<u8>) -> Seq<u8>
    decreases s.len(),
{
    if s.len() == 0 || is_space(s.first()) {
        seq![]
    } else {
        seq![s.first()] + first_token(s.skip(1))
    }
}

proof fn lemma_ltrim_skip(s: Seq<u8>, k: int)
    requires
        0 <= k <= s.len(),
        forall|j: int| 0 <= j < k ==> is_space(#[trigger] s[j]),
        k == s.len() || !is_space(s[k]),
    ensures
        ltrim(s) == s.skip(k),
    decreases k,
{
    if k == 0 {
        assert(s.skip(0) =~= s);
    } else {
        assert(is_space(s[0]));
        lemma_ltrim_skip(s.skip(1), k - 1);
        assert(s.skip(1).skip(k - 1) =~= s.skip(k));
    }
}

proof fn lemma_rtrim_take(s: Seq<u8>, k: int)
    requires
        0 <= k <= s.len(),
        forall|j: int| k <= j < s.len() ==> is_space(#[trigger] s[j]),
        k == 0 || !is_space(s[k - 1]),
    ensures
        rtrim(s) == s.take(k),
    decreases s.len(),
{
    if k == s.len() {
        assert(s.take(k) =~= s);
    } else {
        assert(is_space(s.last()));
        lemma_rtrim_take(s.drop_last(), k);
        assert(s.drop_last().take(k) =~= s.take(k));
    }
}

proof fn lemma_first_token_take(s: Seq<u8>, m: int)
    requires
        0 <= m <= s.len(),
        forall|j: int| 0 <= j < m ==> !is_space(#[trigger] s[j]),
        m == s.len() || is_space(s[m]),
    ensures
        first_token(s) == s.take(m),
    decreases m,
{
    if m == 0 {
        assert(s.take(0) =~= Seq::<u8>::empty());
    } else {
        lemma_first_token_take(s.skip(1), m - 1);
        assert(s.skip(1).take(m - 1) =~= s.take(m).skip(1));
        assert(seq![s.first()] + s.skip(1).take(m - 1) =~= s.take(m));
    }
}

/// `s` without leading and trailing ASCII whitespace, as runnable code.
pub fn trim_bytes(s: &Vec<u8>) -> (t: Vec<u8>)
    ensures
        t@ == trimmed(s@),
{
    let mut lo: usize = 0;
    while lo < s.len() && is_space_b(s[lo])
        invariant
            lo <= s@.len(),
            forall|j: int| 0 <= j < lo ==> is_space(#[trigger] s@[j]),
        decreases s@.len() - lo,
    {
        lo = lo + 1;
    }
    proof {
        lemma_ltrim_skip(s@, lo as int);
    }
    if lo == s.len() {
        let t: Vec<u8> = Vec::new();
        proof {
            assert(ltrim(s@) =~= Seq::<u8>::empty());
            assert(t@ =~= trimmed(s@));
        }
        return t;
    }
    let mut hi: usize = s.len();
    while hi > lo + 1 && is_space_b(s[hi - 1])
        invariant
            lo < hi <= s@.len(),
            forall|j: int| hi <= j < s@.len() ==> is_space(#[trigger] s@[j]),
        decreases hi,
    {
        hi = hi - 1;
    }
    if is_space_b(s[hi - 1]) {
        // only possible when hi == lo + 1, contradicting that s[lo] is no space
        proof {
            assert(false);
        }
    }
    let mut t: Vec<u8> = Vec::new();
    let mut i: usize = lo;
    while i < hi
        invariant
            lo <= i <= hi <= s@.len(),
            t@ =~= s@.subrange(lo as int, i as int),
        decreases hi - i,
    {
        t.push(s[i]);
        i = i + 1;
    }
    proof {
        let u = s@.skip(lo as int);
        lemma_rtrim_take(u, hi - lo as int);
        assert(u.take(hi - lo as int) =~= s@.subrange(lo as int, hi as int));
        assert(t@ =~= trimmed(s@));
    }
    t
}

// ---------------------------------------------------------------------------
// REPL commands
// ---------------------------------------------------------------------------

/// What a typed line means.
pub enum ReplCmd {
    /// `l`: list the available users.
    ListUsers,
    /// `c` alone, or `c` with nothing after it: show the usage hint.
    CallUsage,
    /// `c <name>`: call that user.
    CallUser { name: Vec<u8> },
    /// `q`: quit.
    Quit,
    /// Anything else.
    Unknown,
}

pub enum ReplCmdV {
    ListUsers,
    CallUsage,
    CallUser { name: Seq<u8> },
    Quit,
    Unknown,
}

impl View for ReplCmd {
    type V = ReplCmdV;

    open spec fn view(&self) -> ReplCmdV {
        match self {
            ReplCmd::ListUsers => ReplCmdV::ListUsers,
            ReplCmd::CallUsage => ReplCmdV::CallUsage,
            ReplCmd::CallUser { name } => ReplCmdV::CallUser { name: name@ },
            ReplCmd::Quit => ReplCmdV::Quit,
            ReplCmd::Unknown => ReplCmdV::Unknown,
        }
    }
}

/// How a typed line is read: trimmed, then matched against the four
/// commands; `c` takes the first word after it as the name to call.
pub open spec fn spec_parse_repl(line: Seq<u8>) -> ReplCmdV {
    let t = trimmed(line);
    if t == seq![108u8] {
        ReplCmdV::ListUsers
    } else if t == seq![99u8] {
        ReplCmdV::CallUsage
    } else if t == seq![113u8] {
        ReplCmdV::Quit
    } else if t.len() >= 2 && t[0] == 99 && t[1] == 32 {
        let name = first_token(ltrim(t.skip(2)));
        if name.len() == 0 {
            ReplCmdV::CallUsage
        } else {
            ReplCmdV::CallUser { name }
        }
    } else {
        ReplCmdV::Unknown
    }
}

/// Reads one REPL line.
pub fn parse_repl_line(line: &Vec<u8>) -> (c: ReplCmd)
    ensures
        c@ == spec_parse_repl(line@),
{
    let t = trim_bytes(line);
    if t.len() == 1 && t[0] == 108 {
        proof {
            assert(t@ =~= seq![108u8]);
        }
        return ReplCmd::ListUsers;
    }
    if t.len() == 1 && t[0] == 99 {
        proof {
            assert(t@ =~= seq![99u8]);
        }
        return ReplCmd::CallUsage;
    }
    if t.len() == 1 && t[0] == 113 {
        proof {
            assert(t@ =~= seq![113u8]);
        }
        return ReplCmd::Quit;
    }
    if t.len() >= 2 && t[0] == 99 && t[1] == 32 {
        let mut p: usize = 2;
        while p < t.len() && is_space_b(t[p])
            invariant
                2 <= p <= t@.len(),
                forall|j: int| 2 <= j < p ==> is_space(#[trigger] t@[j]),
            decreases t@.len() - p,
        {
            p = p + 1;
        }
        let mut q: usize = p;
        while q < t.len() && !is_space_b(t[q])
            invariant
                p <= q <= t@.len(),
                forall|j: int| p <= j < q ==> !is_space(#[trigger] t@[j]),
            decreases t@.len() - q,
        {
            q = q + 1;
        }
        let mut name: Vec<u8> = Vec::new();
        let mut i: usize = p;
        while i < q
            invariant
                p <= i <= q <= t@.len(),
                name@ =~= t@.subrange(p as int, i as int),
            decreases q - i,
        {
            name.push(t[i]);
            i = i + 1;
        }
        proof {
            let rest = t@.skip(2);
            lemma_ltrim_skip(rest, p - 2 as int);
            assert(rest.skip(p - 2 as int) =~= t@.skip(p as int));
            lemma_first_token_take(t@.skip(p as int), q - p as int);
            assert(t@.skip(p as int).take(q - p as int) =~= t@.subrange(p as int, q as int));
            assert(name@ =~= first_token(ltrim(t@.skip(2))));
        }
        if name.len() == 0 {
            return ReplCmd::CallUsage;
        }
        return ReplCmd::CallUser { name };
    }
    proof {
        if t@ == seq![108u8] || t@ == seq![99u8] || t@ == seq![113u8] {
            assert(t@.len() == 1);
            assert(false);
        }
    }
    ReplCmd::Unknown
}

// ---------------------------------------------------------------------------
// Client state
// ---------------------------------------------------------------------------

/// Why the client refuses a server frame.
#[derive(Clone, Copy, Debug, PartialEq, Eq, Structural)]
pub enum ClientError {
    /// A string-bearing frame arrived without its subject.
    InvalidData,
    /// A command byte the client does not know.
    ProtocolError,
}

/// The client's call state: the advisory roster mirror and the two optional
/// call slots.
pub struct ClientState {
    /// The name this client logged in under.
    pub username: Vec<u8>,
    /// Known available peers, as announced by ADD_USER / REMOVE_USER.
    pub roster: Vec<Vec<u8>>,
    /// Set after sending REQUEST_CALL, while waiting for accept or deny.
    /// The REPL is gated off while this is set.
    pub pending_callee: Option<Vec<u8>>,
    /// Set once a call is agreed; names the peer of the media session.
    pub active_peer: Option<Vec<u8>>,
    /// Accept incoming calls without prompting.
    pub auto_accept: bool,
}

pub struct ClientV {
    pub username: Seq<u8>,
    pub roster: Seq<Seq<u8>>,
    pub pending_callee: Option<Seq<u8>>,
    pub active_peer: Option<Seq<u8>>,
    pub auto_accept: bool,
}

pub open spec fn opt_view(o: Option<Vec<u8>>) -> Option<Seq<u8>> {
    match o {
        Option::None => Option::None,
        Option::Some(v) => Option::Some(v@),
    }
}

impl View for ClientState {
    type V = ClientV;

    open spec fn view(&self) -> ClientV {
        ClientV {
            username: self.username@,
            roster: self.roster@.map_values(|n: Vec<u8>| n@),
            pending_callee: opt_view(self.pending_callee),
            active_peer: opt_view(self.active_peer),
            auto_accept: self.auto_accept,
        }
    }
}

/// What the caller must do after feeding the client an event.
#[derive(Debug, PartialEq, Eq)]
pub enum ClientEffect {
    /// Write this control frame to the server.
    SendCtl { cmd: u8, subject: Vec<u8> },
    /// Ask whether to accept the incoming call from `from`, then report the
    /// answer through [`ClientState::on_accept_decision`].
    PromptIncoming { from: Vec<u8> },
    /// Tell the user that `by` denied the call.
    NotifyDenied { by: Vec<u8> },
    /// The call stands: set up the media session with `peer`.
    EnterMedia { peer: Vec<u8> },
    /// Show the roster mirror.
    PrintRoster,
    /// Show the `c <username>` usage hint.
    PrintUsage,
    /// The typed command was not understood.
    PrintUnknown,
    /// `name` is not in the roster mirror.
    PrintNotAvailable { name: Vec<u8> },
    /// The user tried to call themselves.
    PrintCannotCallSelf,
    /// Announce the outgoing call to `name`.
    PrintCalling { name: Vec<u8> },
    /// Leave the REPL and exit cleanly.
    Quit,
}

pub enum ClientEffectV {
    SendCtl { cmd: u8, subject: Seq<u8> },
    PromptIncoming { from: Seq<u8> },
    NotifyDenied { by: Seq<u8> },
    EnterMedia { peer: Seq<u8> },
    PrintRoster,
    PrintUsage,
    PrintUnknown,
    PrintNotAvailable { name: Seq<u8> },
    PrintCannotCallSelf,
    PrintCalling { name: Seq<u8> },
    Quit,
}

impl View for ClientEffect {
    type V = ClientEffectV;

    open spec fn view(&self) -> ClientEffectV {
        match self {
            ClientEffect::SendCtl { cmd, subject } => ClientEffectV::SendCtl {
                cmd: *cmd,
                subject: subject@,
            },
            ClientEffect::PromptIncoming { from } => ClientEffectV::PromptIncoming { from: from@ },
            ClientEffect::NotifyDenied { by } => ClientEffectV::NotifyDenied { by: by@ },
            ClientEffect::EnterMedia { peer } => ClientEffectV::EnterMedia { peer: peer@ },
            ClientEffect::PrintRoster => ClientEffectV::PrintRoster,
            ClientEffect::PrintUsage => ClientEffectV::PrintUsage,
            ClientEffect::PrintUnknown => ClientEffectV::PrintUnknown,
            ClientEffect::PrintNotAvailable { name } => ClientEffectV::PrintNotAvailable {
                name: name@,
            },
            ClientEffect::PrintCannotCallSelf => ClientEffectV::PrintCannotCallSelf,
            ClientEffect::PrintCalling { name } => ClientEffectV::PrintCalling { name: name@ },
            ClientEffect::Quit => ClientEffectV::Quit,
        }
    }
}

/// The model image of a batch of effects.
pub open spec fn effects_view(v: Vec<ClientEffect>) -> Seq<ClientEffectV> {
    v@.map_values(|e: ClientEffect| e@)
}

/// `name` is in the roster mirror.
pub open spec fn roster_has(roster: Seq<Seq<u8>>, name: Seq<u8>) -> bool {
    exists|i: int| 0 <= i < roster.len() && roster[i] == name
}

/// The roster mirror with every entry equal to `name` taken out.
pub open spec fn roster_without(roster: Seq<Seq<u8>>, name: Seq<u8>) -> Seq<Seq<u8>>
    decreases roster.len(),
{
    if roster.len() == 0 {
        seq![]
    } else {
        roster_without(roster.drop_last(), name) + (if roster.last() == name {
            seq![]
        } else {
            seq![roster.last()]
        })
    }
}

proof fn lemma_roster_without_step(roster: Seq<Seq<u8>>, i: int, name: Seq<u8>)
    requires
        0 <= i < roster.len(),
    ensures
        roster_without(roster.take(i + 1), name) == roster_without(roster.take(i), name) + (
        if roster[i] == name {
            seq![]
        } else {
            seq![roster[i]]
        }),
{
    assert(roster.take(i + 1).drop_last() =~= roster.take(i));
    assert(roster.take(i + 1).last() == roster[i]);
}

// ---------------------------------------------------------------------------
// Transitions
// ---------------------------------------------------------------------------

/// What one typed REPL line does: list, hint, quit, complain, or start an
/// outgoing call request if the named user is in the roster mirror.
pub open spec fn spec_repl(pre: ClientV, line: Seq<u8>) -> (ClientV, Seq<ClientEffectV>) {
    match spec_parse_repl(line) {
        ReplCmdV::ListUsers => (pre, seq![ClientEffectV::PrintRoster]),
        ReplCmdV::CallUsage => (pre, seq![ClientEffectV::PrintUsage]),
        ReplCmdV::Quit => (pre, seq![ClientEffectV::Quit]),
        ReplCmdV::Unknown => (pre, seq![ClientEffectV::PrintUnknown]),
        ReplCmdV::CallUser { name } => {
            if roster_has(pre.roster, name) {
                (
                    ClientV { pending_callee: Option::Some(name), ..pre },
                    seq![
                        ClientEffectV::PrintCalling { name },
                        ClientEffectV::SendCtl { cmd: REQUEST_CALL_BYTE, subject: name },
                    ],
                )
            } else if name == pre.username {
                (pre, seq![ClientEffectV::PrintCannotCallSelf])
            } else {
                (pre, seq![ClientEffectV::PrintNotAvailable { name }])
            }
        },
    }
}

/// What one decoded server frame does to the client.
pub open spec fn spec_client_frame(pre: ClientV, cmd: u8, subject: Option<Seq<u8>>) -> Result<
    (ClientV, Seq<ClientEffectV>),
    ClientError,
> {
    if cmd == ADD_USER_TO_CLIENT_BYTE {
        match subject {
            Option::None => Result::Err(ClientError::InvalidData),
            Option::Some(name) => Result::Ok(
                (ClientV { roster: pre.roster.push(name), ..pre }, seq![]),
            ),
        }
    } else if cmd == REMOVE_USER_FROM_CLIENT_BYTE {
        match subject {
            Option::None => Result::Err(ClientError::InvalidData),
            Option::Some(name) => Result::Ok(
                (ClientV { roster: roster_without(pre.roster, name), ..pre }, seq![]),
            ),
        }
    } else if cmd == REQUEST_CALL_BYTE {
        match subject {
            Option::None => Result::Err(ClientError::InvalidData),
            Option::Some(name) => if pre.auto_accept {
                Result::Ok(
                    (
                        ClientV { active_peer: Option::Some(name), ..pre },
                        seq![
                            ClientEffectV::SendCtl { cmd: START_CALL_BYTE, subject: name },
                            ClientEffectV::EnterMedia { peer: name },
                        ],
                    ),
                )
            } else {
                Result::Ok((pre, seq![ClientEffectV::PromptIncoming { from: name }]))
            },
        }
    } else if cmd == DENY_CALL_BYTE {
        match subject {
            Option::None => Result::Err(ClientError::InvalidData),
            Option::Some(name) => if pre.pending_callee == Option::Some(name) {
                Result::Ok(
                    (
                        ClientV { pending_callee: Option::None, ..pre },
                        seq![ClientEffectV::NotifyDenied { by: name }],
                    ),
                )
            } else {
                Result::Ok((pre, seq![]))
            },
        }
    } else if cmd == START_CALL_BYTE {
        match subject {
            Option::None => Result::Err(ClientError::InvalidData),
            Option::Some(name) => Result::Ok(
                (
                    ClientV { active_peer: Option::Some(name), ..pre },
                    seq![ClientEffectV::EnterMedia { peer: name }],
                ),
            ),
        }
    } else {
        Result::Err(ClientError::ProtocolError)
    }
}

/// What answering the incoming-call prompt does: `START_CALL` and the media
/// session on yes, `DENY_CALL` on no.
pub open spec fn spec_accept_decision(pre: ClientV, from: Seq<u8>, accept: bool) -> (
    ClientV,
    Seq<ClientEffectV>,
) {
    if accept {
        (
            ClientV { active_peer: Option::Some(from), ..pre },
            seq![
                ClientEffectV::SendCtl { cmd: START_CALL_BYTE, subject: from },
                ClientEffectV::EnterMedia { peer: from },
            ],
        )
    } else {
        (pre, seq![ClientEffectV::SendCtl { cmd: DENY_CALL_BYTE, subject: from }])
    }
}

impl ClientState {
    /// A client freshly logged in as `username`, with an empty mirror.
    pub fn new(username: Vec<u8>, auto_accept: bool) -> (c: ClientState)
        ensures
            c@.username == username@,
            c@.roster.len() == 0,
            c@.pending_callee is None,
            c@.active_peer is None,
            c@.auto_accept == auto_accept,
    {
        ClientState {
            username,
            roster: Vec::new(),
            pending_callee: None,
            active_peer: None,
            auto_accept,
        }
    }

    /// Whether `name` is in the roster mirror.
    pub fn roster_contains(&self, name: &Vec<u8>) -> (b: bool)
        ensures
            b == roster_has(self@.roster, name@),
    {
        let mut i: usize = 0;
        while i < self.roster.len()
            invariant
                i <= self@.roster.len(),
                forall|j: int| 0 <= j < i ==> #[trigger] self@.roster[j] != name@,
            decreases self@.roster.len() - i,
        {
            if bytes_eq(&self.roster[i], name) {
                proof {
                    assert(self@.roster[i as int] == name@);
                }
                return true;
            }
            i = i + 1;
        }
        false
    }

    /// Handles one typed REPL line.
    pub fn on_repl_line(&mut self, line: &Vec<u8>) -> (effects: Vec<ClientEffect>)
        ensures
            final(self)@ == spec_repl(old(self)@, line@).0,
            effects_view(effects) == spec_repl(old(self)@, line@).1,
    {
        let ghost pre = self@;
        match parse_repl_line(line) {
            ReplCmd::ListUsers => {
                let effects: Vec<ClientEffect> = vec![ClientEffect::PrintRoster];
                proof {
                    assert(effects_view(effects) =~= seq![ClientEffectV::PrintRoster]);
                }
                effects
            },
            ReplCmd::CallUsage => {
                let effects: Vec<ClientEffect> = vec![ClientEffect::PrintUsage];
                proof {
                    assert(effects_view(effects) =~= seq![ClientEffectV::PrintUsage]);
                }
                effects
            },
            ReplCmd::Quit => {
                let effects: Vec<ClientEffect> = vec![ClientEffect::Quit];
                proof {
                    assert(effects_view(effects) =~= seq![ClientEffectV::Quit]);
                }
                effects
            },
            ReplCmd::Unknown => {
                let effects: Vec<ClientEffect> = vec![ClientEffect::PrintUnknown];
                proof {
                    assert(effects_view(effects) =~= seq![ClientEffectV::PrintUnknown]);
                }
                effects
            },
            ReplCmd::CallUser { name } => {
                if self.roster_contains(&name) {
                    let effects: Vec<ClientEffect> = vec![
                        ClientEffect::PrintCalling { name: name.clone() },
                        ClientEffect::SendCtl { cmd: REQUEST_CALL_BYTE, subject: name.clone() },
                    ];
                    self.pending_callee = Some(name);
                    proof {
                        assert(effects_view(effects) =~= spec_repl(pre, line@).1);
                        assert(self@ == spec_repl(pre, line@).0);
                    }
                    effects
                } else if bytes_eq(&name, &self.username) {
                    let effects: Vec<ClientEffect> = vec![ClientEffect::PrintCannotCallSelf];
                    proof {
                        assert(effects_view(effects) =~= seq![ClientEffectV::PrintCannotCallSelf]);
                    }
                    effects
                } else {
                    let effects: Vec<ClientEffect> = vec![
                        ClientEffect::PrintNotAvailable { name },
                    ];
                    proof {
                        assert(effects_view(effects) =~= spec_repl(pre, line@).1);
                    }
                    effects
                }
            },
        }
    }

    /// Handles one decoded frame from the server while at the REPL.
    pub fn on_server_frame(&mut self, cmd: u8, subject: Option<Vec<u8>>) -> (r: Result<
        Vec<ClientEffect>,
        ClientError,
    >)
        ensures
            match spec_client_frame(old(self)@, cmd, opt_view(subject)) {
                Result::Ok((post, effects)) => r matches Ok(e) && final(self)@ == post
                    && effects_view(e) == effects,
                Result::Err(err) => r matches Err(err2) && err2 == err && final(self)@ == old(
                    self,
                )@,
            },
    {
        let ghost pre = self@;
        if cmd == ADD_USER_TO_CLIENT_BYTE {
            match subject {
                None => Err(ClientError::InvalidData),
                Some(name) => {
                    self.roster.push(name);
                    let effects: Vec<ClientEffect> = Vec::new();
                    proof {
                        assert(self@.roster =~= pre.roster.push(opt_view(subject)->0));
                        assert(effects_view(effects) =~= Seq::<ClientEffectV>::empty());
                    }
                    Ok(effects)
                },
            }
        } else if cmd == REMOVE_USER_FROM_CLIENT_BYTE {
            match subject {
                None => Err(ClientError::InvalidData),
                Some(name) => {
                    let mut kept: Vec<Vec<u8>> = Vec::new();
                    let mut i: usize = 0;
                    while i < self.roster.len()
                        invariant
                            i <= self@.roster.len(),
                            self@ == pre,
                            kept@.map_values(|n: Vec<u8>| n@) =~= roster_without(
                                pre.roster.take(i as int),
                                name@,
                            ),
                        decreases self@.roster.len() - i,
                    {
                        if !bytes_eq(&self.roster[i], &name) {
                            let entry = self.roster[i].clone();
                            proof {
                                assert(entry@ =~= pre.roster[i as int]);
                            }
                            kept.push(entry);
                        }
                        proof {
                            lemma_roster_without_step(pre.roster, i as int, name@);
                            assert(kept@.map_values(|n: Vec<u8>| n@) =~= roster_without(
                                pre.roster.take(i + 1 as int),
                                name@,
                            ));
                        }
                        i = i + 1;
                    }
                    self.roster = kept;
                    let effects: Vec<ClientEffect> = Vec::new();
                    proof {
                        assert(pre.roster.take(pre.roster.len() as int) =~= pre.roster);
                        assert(effects_view(effects) =~= Seq::<ClientEffectV>::empty());
                    }
                    Ok(effects)
                },
            }
        } else if cmd == REQUEST_CALL_BYTE {
            match subject {
                None => Err(ClientError::InvalidData),
                Some(name) => {
                    if self.auto_accept {
                        let effects: Vec<ClientEffect> = vec![
                            ClientEffect::SendCtl { cmd: START_CALL_BYTE, subject: name.clone() },
                            ClientEffect::EnterMedia { peer: name.clone() },
                        ];
                        self.active_peer = Some(name);
                        proof {
                            assert(effects_view(effects) =~= spec_client_frame(
                                pre,
                                cmd,
                                opt_view(subject),
                            )->Ok_0.1);
                        }
                        Ok(effects)
                    } else {
                        let effects: Vec<ClientEffect> = vec![
                            ClientEffect::PromptIncoming { from: name },
                        ];
                        proof {
                            assert(effects_view(effects) =~= spec_client_frame(
                                pre,
                                cmd,
                                opt_view(subject),
                            )->Ok_0.1);
                        }
                        Ok(effects)
                    }
                },
            }
        } else if cmd == DENY_CALL_BYTE {
            match subject {
                None => Err(ClientError::InvalidData),
                Some(name) => {
                    let pending_matches = match &self.pending_callee {
                        Some(p) => bytes_eq(p, &name),
                        None => false,
                    };
                    if pending_matches {
                        self.pending_callee = None;
                        let effects: Vec<ClientEffect> = vec![
                            ClientEffect::NotifyDenied { by: name },
                        ];
                        proof {
                            assert(effects_view(effects) =~= spec_client_frame(
                                pre,
                                cmd,
                                opt_view(subject),
                            )->Ok_0.1);
                        }
                        Ok(effects)
                    } else {
                        let effects: Vec<ClientEffect> = Vec::new();
                        proof {
                            assert(effects_view(effects) =~= Seq::<ClientEffectV>::empty());
                        }
                        Ok(effects)
                    }
                },
            }
        } else if cmd == START_CALL_BYTE {
            match subject {
                None => Err(ClientError::InvalidData),
                Some(name) => {
                    let effects: Vec<ClientEffect> = vec![
                        ClientEffect::EnterMedia { peer: name.clone() },
                    ];
                    self.active_peer = Some(name);
                    proof {
                        assert(effects_view(effects) =~= spec_client_frame(
                            pre,
                            cmd,
                            opt_view(subject),
                        )->Ok_0.1);
                    }
                    Ok(effects)
                },
            }
        } else {
            Err(ClientError::ProtocolError)
        }
    }

    /// Reports the user's answer to an incoming-call prompt.
    pub fn on_accept_decision(&mut self, from: Vec<u8>, accept: bool) -> (effects: Vec<
        ClientEffect,
    >)
        ensures
            final(self)@ == spec_accept_decision(old(self)@, from@, accept).0,
            effects_view(effects) == spec_accept_decision(old(self)@, from@, accept).1,
    {
        let ghost pre = self@;
        if accept {
            let effects: Vec<ClientEffect> = vec![
                ClientEffect::SendCtl { cmd: START_CALL_BYTE, subject: from.clone() },
                ClientEffect::EnterMedia { peer: from.clone() },
            ];
            self.active_peer = Some(from);
            proof {
                assert(effects_view(effects) =~= spec_accept_decision(pre, from@, accept).1);
            }
            effects
        } else {
            let effects: Vec<ClientEffect> = vec![
                ClientEffect::SendCtl { cmd: DENY_CALL_BYTE, subject: from },
            ];
            proof {
                assert(effects_view(effects) =~= spec_accept_decision(pre, from@, accept).1);
            }
            effects
        }
    }
}

/// What the server's answer to HELLO means to the client.
#[derive(Clone, Copy, Debug, PartialEq, Eq, Structural)]
pub enum HelloOutcome {
    /// HELLO_FROM_SERVER: logged in.
    Granted,
    /// USERNAME_ALREADY_TAKEN: pick another name; the client closes.
    Taken,
    /// Anything else is a protocol violation.
    Unexpected,
}

/// Classifies the first frame the server sends back after HELLO.
pub fn classify_hello_reply(cmd: u8) -> (r: HelloOutcome)
    ensures
        r == HelloOutcome::Granted <==> cmd == HELLO_FROM_SERVER_BYTE,
        r == HelloOutcome::Taken <==> cmd == USERNAME_ALREADY_TAKEN_BYTE,
{
    if cmd == HELLO_FROM_SERVER_BYTE {
        HelloOutcome::Granted
    } else if cmd == USERNAME_ALREADY_TAKEN_BYTE {
        HelloOutcome::Taken
    } else {
        HelloOutcome::Unexpected
    }
}

/// In the media loop, the one control byte that ends the call; all other
/// bytes are reserved and ignored.
pub fn media_byte_ends_call(b: u8) -> (r: bool)
    ensures
        r == (b == END_CALL_BYTE),
{
    b == END_CALL_BYTE
}

/// There is something visible in `s`: at least one non-whitespace byte.
pub open spec fn has_visible(s: Seq<u8>) -> bool {
    exists|i: int| 0 <= i < s.len() && !is_space(#[trigger] s[i])
}

/// Whether a typed username can be used: it must survive trimming and fit
/// in one string-bearing frame.
pub fn username_acceptable(name: &Vec<u8>) -> (b: bool)
    ensures
        b == (name@.len() <= MAX_SUBJECT_LEN && has_visible(name@)),
{
    if name.len() > MAX_SUBJECT_LEN {
        return false;
    }
    let mut i: usize = 0;
    while i < name.len()
        invariant
            i <= name@.len(),
            name@.len() <= MAX_SUBJECT_LEN,
            forall|j: int| 0 <= j < i ==> is_space(#[trigger] name@[j]),
        decreases name@.len() - i,
    {
        if !is_space_b(name[i]) {
            proof {
                assert(!is_space(name@[i as int]));
            }
            return true;
        }
        i = i + 1;
    }
    false
}

} // verus!
