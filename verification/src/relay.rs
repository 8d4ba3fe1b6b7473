//! Media relay: learns where each stream identifier lives and forwards each
//! datagram to the address of the identifier paired with it in an active
//! call.
//!
//! The socket stays outside. The caller splits a received datagram with
//! [`crate::codec::split_datagram`], feeds the claimed identifier and source
//! address in here, and sends the payload wherever [`RelayAction::Forward`]
//! points.

use vstd::prelude::*;

use crate::server::CallV;
use crate::server::ServerState;

verus! {

/// One learned binding: a stream identifier and the transport address that
/// last registered it, kept as opaque bytes.
pub struct Binding {
    pub sid: u32,
    pub addr: Vec<u8>,
}

pub struct BindingV {
    pub sid: u32,
    pub addr: Seq<u8>,
}

impl View for Binding {
    type V = BindingV;

    open spec fn view(&self) -> BindingV {
        BindingV { sid: self.sid, addr: self.addr@ }
    }
}

/// The relay's `StreamId -> address` table.
pub struct RelayTable {
    pub entries: Vec<Binding>,
}

/// What the bindings say, as a map.
pub open spec fn table_map(entries: Seq<BindingV>) -> Map<u32, Seq<u8>>
    decreases entries.len(),
{
    if entries.len() == 0 {
        Map::empty()
    } else {
        table_map(entries.drop_last()).insert(entries.last().sid, entries.last().addr)
    }
}

/// Some binding carries `sid`.
pub open spec fn has_binding(entries: Seq<BindingV>, sid: u32) -> bool {
    exists|i: int| 0 <= i < entries.len() && (#[trigger] entries[i].sid) == sid
}

impl View for RelayTable {
    type V = Map<u32, Seq<u8>>;

    open spec fn view(&self) -> Map<u32, Seq<u8>> {
        table_map(self.entries@.map_values(|b: Binding| b@))
    }
}

/// Each stream identifier is bound at most once: addresses are registered
/// only for unknown identifiers and never overwritten.
pub open spec fn rt_wf(t: RelayTable) -> bool {
    forall|i: int, j: int|
        0 <= i < j < t.entries@.len() ==> (#[trigger] t.entries@[i]@.sid) != (
        #[trigger] t.entries@[j]@.sid)
}

/// The table's map holds exactly the bound identifiers.
proof fn lemma_table_map_contains(entries: Seq<BindingV>)
    ensures
        forall|sid: u32| #[trigger] table_map(entries).contains_key(sid) <==> has_binding(
            entries,
            sid,
        ),
    decreases entries.len(),
{
    if entries.len() == 0 {
    } else {
        let prefix = entries.drop_last();
        lemma_table_map_contains(prefix);
        assert forall|sid: u32| #[trigger] table_map(entries).contains_key(sid) implies
            has_binding(entries, sid) by {
            if sid == entries.last().sid {
                assert(entries[entries.len() - 1].sid == sid);
            } else {
                assert(table_map(prefix).contains_key(sid));
                let i = choose|i: int| 0 <= i < prefix.len() && (#[trigger] prefix[i].sid) == sid;
                assert(entries[i] == prefix[i]);
                assert(entries[i].sid == sid);
            }
        }
        assert forall|sid: u32| has_binding(entries, sid) implies table_map(
            entries,
        ).contains_key(sid) by {
            let i = choose|i: int| 0 <= i < entries.len() && (#[trigger] entries[i].sid) == sid;
            if i < entries.len() - 1 {
                assert(prefix[i].sid == sid);
                assert(table_map(prefix).contains_key(sid));
            }
        }
    }
}

/// Under unique identifiers, each bound identifier maps to its binding's
/// address.
proof fn lemma_table_map_value(entries: Seq<BindingV>, i: int)
    requires
        forall|a: int, b: int|
            0 <= a < b < entries.len() ==> (#[trigger] entries[a].sid) != (
            #[trigger] entries[b].sid),
        0 <= i < entries.len(),
    ensures
        table_map(entries).contains_key(entries[i].sid),
        table_map(entries)[entries[i].sid] == entries[i].addr,
    decreases entries.len(),
{
    let prefix = entries.drop_last();
    if i == entries.len() - 1 {
    } else {
        assert(prefix[i] == entries[i]);
        lemma_table_map_value(prefix, i);
        assert(entries[i].sid != entries.last().sid);
    }
}

/// The identifier paired with `sid` by the first call that uses it.
pub open spec fn peer_sid_in(calls: Seq<CallV>, sid: u32) -> Option<u32>
    decreases calls.len(),
{
    if calls.len() == 0 {
        Option::None
    } else if calls.first().caller_sid == sid {
        Option::Some(calls.first().callee_sid)
    } else if calls.first().callee_sid == sid {
        Option::Some(calls.first().caller_sid)
    } else {
        peer_sid_in(calls.skip(1), sid)
    }
}

/// What the relay does with one received datagram.
pub enum RelayAction {
    /// First sighting of this stream identifier: its source address is now
    /// registered, nothing is forwarded.
    Registered,
    /// Send the payload, unchanged and unprefixed, to this address.
    Forward { addr: Vec<u8> },
    /// No call pairs the identifier, or the peer has no known address yet.
    Drop,
}

pub enum RelayActionV {
    Registered,
    Forward { addr: Seq<u8> },
    Drop,
}

impl View for RelayAction {
    type V = RelayActionV;

    open spec fn view(&self) -> RelayActionV {
        match self {
            RelayAction::Registered => RelayActionV::Registered,
            RelayAction::Forward { addr } => RelayActionV::Forward { addr: addr@ },
            RelayAction::Drop => RelayActionV::Drop,
        }
    }
}

/// The relay step. A datagram with an unknown identifier registers its
/// source address and is not forwarded. A datagram with a known identifier
/// is forwarded exactly to the address last registered for the identifier
/// paired with it in the call containing it; without such a pairing, or
/// without that address, it is dropped.
pub open spec fn spec_relay_step(
    table: Map<u32, Seq<u8>>,
    calls: Seq<CallV>,
    sid: u32,
    src: Seq<u8>,
) -> (Map<u32, Seq<u8>>, RelayActionV) {
    if !table.contains_key(sid) {
        (table.insert(sid, src), RelayActionV::Registered)
    } else {
        match peer_sid_in(calls, sid) {
            Option::Some(t) => if table.contains_key(t) {
                (table, RelayActionV::Forward { addr: table[t] })
            } else {
                (table, RelayActionV::Drop)
            },
            Option::None => (table, RelayActionV::Drop),
        }
    }
}

impl RelayTable {
    /// An empty relay table.
    pub fn new() -> (t: RelayTable)
        ensures
            rt_wf(t),
            t@ == Map::<u32, Seq<u8>>::empty(),
    {
        RelayTable { entries: Vec::new() }
    }

    /// The address registered for `sid`, if any.
    pub fn lookup(&self, sid: u32) -> (r: Option<&Vec<u8>>)
        requires
            rt_wf(*self),
        ensures
            match r {
                Option::Some(a) => self@.contains_key(sid) && a@ == self@[sid],
                Option::None => !self@.contains_key(sid),
            },
    {
        let ghost bs = self.entries@.map_values(|b: Binding| b@);
        proof {
            lemma_table_map_contains(bs);
            assert forall|a: int, b: int|
                0 <= a < b < bs.len() implies (#[trigger] bs[a].sid) != (
                #[trigger] bs[b].sid) by {
                assert(bs[a] == self.entries@[a]@);
                assert(bs[b] == self.entries@[b]@);
            }
        }
        let mut i: usize = 0;
        while i < self.entries.len()
            invariant
                i <= self.entries@.len(),
                bs == self.entries@.map_values(|b: Binding| b@),
                forall|a: int, b: int|
                    0 <= a < b < bs.len() ==> (#[trigger] bs[a].sid) != (#[trigger] bs[b].sid),
                forall|j: int| 0 <= j < i ==> (#[trigger] bs[j].sid) != sid,
            decreases self.entries@.len() - i,
        {
            if self.entries[i].sid == sid {
                proof {
                    assert(bs[i as int].sid == sid);
                    lemma_table_map_value(bs, i as int);
                }
                return Some(&self.entries[i].addr);
            }
            proof {
                assert(bs[i as int].sid != sid);
            }
            i = i + 1;
        }
        proof {
            if has_binding(bs, sid) {
                let j = choose|j: int| 0 <= j < bs.len() && (#[trigger] bs[j].sid) == sid;
                assert(false);
            }
        }
        None
    }

    /// Processes one received media datagram: the sender's claimed stream
    /// identifier and the datagram's source address.
    pub fn on_datagram(&mut self, server: &ServerState, sid: u32, src: Vec<u8>) -> (action:
        RelayAction)
        requires
            rt_wf(*old(self)),
        ensures
            rt_wf(*final(self)),
            final(self)@ == spec_relay_step(old(self)@, server@.calls, sid, src@).0,
            action@ == spec_relay_step(old(self)@, server@.calls, sid, src@).1,
    {
        let ghost pre = self.entries@.map_values(|b: Binding| b@);
        proof {
            lemma_table_map_contains(pre);
            assert forall|a: int, b: int|
                0 <= a < b < pre.len() implies (#[trigger] pre[a].sid) != (
                #[trigger] pre[b].sid) by {
                assert(pre[a] == self.entries@[a]@);
                assert(pre[b] == self.entries@[b]@);
            }
        }
        let known = match self.lookup(sid) {
            Some(_) => true,
            None => false,
        };
        if !known {
            self.entries.push(Binding { sid, addr: src });
            proof {
                let post = self.entries@.map_values(|b: Binding| b@);
                assert(post.drop_last() =~= pre);
                assert(post.last().sid == sid);
                assert(table_map(post) == table_map(pre).insert(sid, post.last().addr));
                assert forall|a: int, b: int|
                    0 <= a < b < self.entries@.len() implies (#[trigger] self.entries@[a]@.sid)
                    != (#[trigger] self.entries@[b]@.sid) by {
                    assert(post[a] == self.entries@[a]@);
                    assert(post[b] == self.entries@[b]@);
                    if b == post.len() - 1 {
                        assert(pre[a] == post[a]);
                        assert(!has_binding(pre, sid));
                        assert(pre[a].sid != sid);
                    } else {
                        assert(pre[a] == post[a] && pre[b] == post[b]);
                    }
                }
            }
            return RelayAction::Registered;
        }
        let peer = Self::peer_sid_of(server, sid);
        match peer {
            Some(t) => {
                match self.lookup(t) {
                    Some(addr) => {
                        let a = addr.clone();
                        proof {
                            assert(a@ =~= self@[t]);
                        }
                        RelayAction::Forward { addr: a }
                    },
                    None => RelayAction::Drop,
                }
            },
            None => RelayAction::Drop,
        }
    }

    /// The stream identifier paired with `sid` by the first active call
    /// using it.
    fn peer_sid_of(server: &ServerState, sid: u32) -> (r: Option<u32>)
        ensures
            r == peer_sid_in(server@.calls, sid),
    {
        let calls = &server.calls;
        let ghost cs = server@.calls;
        proof {
            assert(cs.skip(0) =~= cs);
        }
        let mut k: usize = 0;
        while k < calls.len()
            invariant
                k <= cs.len(),
                cs == server@.calls,
                calls@.len() == cs.len(),
                forall|j: int| 0 <= j < cs.len() ==> #[trigger] cs[j] == calls@[j]@,
                peer_sid_in(cs, sid) == peer_sid_in(cs.skip(k as int), sid),
            decreases cs.len() - k,
        {
            proof {
                assert(cs.skip(k as int).first() == cs[k as int]);
                assert(cs.skip(k as int).skip(1) =~= cs.skip(k + 1 as int));
            }
            if calls[k].caller_sid == sid {
                return Some(calls[k].callee_sid);
            }
            if calls[k].callee_sid == sid {
                return Some(calls[k].caller_sid);
            }
            k = k + 1;
        }
        None
    }
}

/// Round trip of the relay's learning step: the first datagram bearing a
/// stream identifier registers its source address; any later datagram with
/// that identifier is forwarded exactly when some call pairs it with an
/// identifier whose address is known, and then to that registered address.
pub proof fn lemma_register_then_forward(
    table: Map<u32, Seq<u8>>,
    calls: Seq<CallV>,
    sid: u32,
    src: Seq<u8>,
    src2: Seq<u8>,
)
    requires
        !table.contains_key(sid),
    ensures
        ({
            let (t1, first_action) = spec_relay_step(table, calls, sid, src);
            &&& first_action == RelayActionV::Registered
            &&& t1[sid] == src
            &&& ({
                let (t2, second_action) = spec_relay_step(t1, calls, sid, src2);
                &&& t2 == t1
                &&& second_action == match peer_sid_in(calls, sid) {
                    Option::Some(t) => if t1.contains_key(t) {
                        RelayActionV::Forward { addr: t1[t] }
                    } else {
                        RelayActionV::Drop
                    },
                    Option::None => RelayActionV::Drop,
                }
            })
        }),
{
}

} // verus!
