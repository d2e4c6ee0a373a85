//! Datagram broadcast coordinator.
//!
//! The coordinator is the sole owner of the datagram-peer roster: the
//! ordered, append-only collection of known source addresses. Per inbound
//! datagram it records an unseen source address and decides one send of the
//! raw, unprefixed payload to every other known address. The surrounding
//! process performs the sends; a failed send to one destination must not
//! block the rest.

use vstd::prelude::*;

verus! {

/// A datagram peer's address: an IPv4 address as a big-endian integer and a
/// port. The address is both the peer's identity and its destination.
#[derive(PartialEq, Eq, Structural, Clone, Copy, Debug)]
pub struct PeerAddr {
    pub ip: u32,
    pub port: u16,
}

/// One outbound datagram the coordinator decided on: the destination address
/// and the payload bytes.
pub struct DatagramSend {
    pub dest: PeerAddr,
    pub payload: Vec<u8>,
}

/// Mathematical model of a [`DatagramSend`].
pub ghost struct SendView {
    pub dest: PeerAddr,
    pub payload: Seq<u8>,
}

impl View for DatagramSend {
    type V = SendView;

    open spec fn view(&self) -> SendView {
        SendView { dest: self.dest, payload: self.payload@ }
    }
}

/// Whether the roster holds the address `a`.
pub open spec fn peers_has(r: Seq<PeerAddr>, a: PeerAddr) -> bool {
    exists|i: int| 0 <= i < r.len() && r[i] == a
}

/// The roster after a datagram from `a`: unchanged when `a` is already known,
/// otherwise with `a` appended.
pub open spec fn peer_register(r: Seq<PeerAddr>, a: PeerAddr) -> Seq<PeerAddr> {
    if peers_has(r, a) {
        r
    } else {
        r.push(a)
    }
}

/// The sends that forward a datagram from `src` with payload `payload` over
/// the roster `r`: one send per address other than `src`, in roster order,
/// each carrying the payload byte for byte.
pub open spec fn dgram_fanout(r: Seq<PeerAddr>, src: PeerAddr, payload: Seq<u8>) -> Seq<SendView>
    decreases r.len(),
{
    if r.len() == 0 {
        Seq::empty()
    } else {
        let rest = dgram_fanout(r.drop_last(), src, payload);
        if r.last() == src {
            rest
        } else {
            rest.push(SendView { dest: r.last(), payload })
        }
    }
}

/// No two roster entries are the same address.
pub open spec fn peers_wf(r: Seq<PeerAddr>) -> bool {
    forall|i: int, j: int| 0 <= i < j < r.len() ==> r[i] != r[j]
}

/// The datagram-peer roster: an ordered, append-only collection of distinct
/// addresses, owned by one coordinator.
pub struct DatagramRoster {
    peers: Vec<PeerAddr>,
}

impl View for DatagramRoster {
    type V = Seq<PeerAddr>;

    closed spec fn view(&self) -> Seq<PeerAddr> {
        self.peers@
    }
}

impl DatagramRoster {
    /// The roster invariant: addresses are unique.
    pub open spec fn wf(&self) -> bool {
        peers_wf(self@)
    }

    /// An empty roster.
    pub fn new() -> (r: Self)
        ensures
            r@ == Seq::<PeerAddr>::empty(),
            r.wf(),
    {
        let r = DatagramRoster { peers: Vec::new() };
        proof {
            assert(r@ =~= Seq::<PeerAddr>::empty());
        }
        r
    }

    /// Whether `a` is a known address.
    pub fn contains_addr(&self, a: PeerAddr) -> (r: bool)
        ensures
            r == peers_has(self@, a),
    {
        let mut i: usize = 0;
        while i < self.peers.len()
            invariant
                0 <= i <= self@.len(),
                self@.len() == self.peers@.len(),
                forall|k: int| 0 <= k < i ==> self@[k] != a,
            decreases self@.len() - i,
        {
            if self.peers[i] == a {
                return true;
            }
            i = i + 1;
        }
        false
    }

    /// Handle one inbound datagram: record the source address when unseen,
    /// then decide one send of the raw payload to every other known address,
    /// in roster order. Nothing is sent back to the source address.
    pub fn handle_datagram(&mut self, src: PeerAddr, payload: &Vec<u8>) -> (sends: Vec<
        DatagramSend,
    >)
        requires
            old(self).wf(),
        ensures
            final(self)@ == peer_register(old(self)@, src),
            final(self).wf(),
            sends@.len() == dgram_fanout(final(self)@, src, payload@).len(),
            forall|k: int|
                0 <= k < sends@.len() ==> #[trigger] sends@[k]@ == dgram_fanout(
                    final(self)@,
                    src,
                    payload@,
                )[k],
    {
        if !self.contains_addr(src) {
            self.peers.push(src);
        }
        let ghost roster = self@;
        let mut sends: Vec<DatagramSend> = Vec::new();
        let mut i: usize = 0;
        while i < self.peers.len()
            invariant
                0 <= i <= self.peers@.len(),
                roster == self@,
                roster.len() == self.peers@.len(),
                sends@.len() == dgram_fanout(roster.take(i as int), src, payload@).len(),
                forall|k: int|
                    0 <= k < sends@.len() ==> #[trigger] sends@[k]@ == dgram_fanout(
                        roster.take(i as int),
                        src,
                        payload@,
                    )[k],
            decreases self.peers@.len() - i,
        {
            proof {
                assert(roster.take(i + 1).drop_last() =~= roster.take(i as int));
                assert(roster.take(i + 1).last() == roster[i as int]);
            }
            if !(self.peers[i] == src) {
                let bytes = crate::framing::clone_bytes(payload);
                sends.push(DatagramSend { dest: self.peers[i], payload: bytes });
            }
            i = i + 1;
        }
        proof {
            assert(roster.take(roster.len() as int) =~= roster);
        }
        sends
    }
}

/// Once an address is known it stays known: recording only ever appends.
pub proof fn lemma_peer_register_monotone(r: Seq<PeerAddr>, a: PeerAddr, b: PeerAddr)
    requires
        peers_has(r, b),
    ensures
        peers_has(peer_register(r, a), b),
{
    let w = choose|i: int| 0 <= i < r.len() && r[i] == b;
    assert(peer_register(r, a)[w] == b);
}

/// After a datagram from `a`, `a` is known.
pub proof fn lemma_peer_register_records(r: Seq<PeerAddr>, a: PeerAddr)
    ensures
        peers_has(peer_register(r, a), a),
{
    if !peers_has(r, a) {
        assert(peer_register(r, a)[r.len() as int] == a);
    }
}

/// Recording an address is idempotent: a second datagram from the same source
/// does not create a second roster entry.
pub proof fn lemma_peer_register_idempotent(r: Seq<PeerAddr>, a: PeerAddr)
    ensures
        peer_register(peer_register(r, a), a) == peer_register(r, a),
{
    lemma_peer_register_records(r, a);
}

/// Recording preserves the roster invariant.
pub proof fn lemma_peer_register_wf(r: Seq<PeerAddr>, a: PeerAddr)
    requires
        peers_wf(r),
    ensures
        peers_wf(peer_register(r, a)),
{
}

/// Every fan-out send carries the payload byte for byte and is never
/// addressed back to the source.
pub proof fn lemma_dgram_no_echo(r: Seq<PeerAddr>, src: PeerAddr, payload: Seq<u8>)
    ensures
        forall|k: int|
            0 <= k < dgram_fanout(r, src, payload).len() ==> (#[trigger] dgram_fanout(
                r,
                src,
                payload,
            )[k]).dest != src && dgram_fanout(r, src, payload)[k].payload == payload,
    decreases r.len(),
{
    if r.len() > 0 {
        let rest = dgram_fanout(r.drop_last(), src, payload);
        lemma_dgram_no_echo(r.drop_last(), src, payload);
        assert forall|k: int|
            0 <= k < dgram_fanout(r, src, payload).len() implies (#[trigger] dgram_fanout(
            r,
            src,
            payload,
        )[k]).dest != src && dgram_fanout(r, src, payload)[k].payload == payload by {
            if k < rest.len() {
                assert(dgram_fanout(r, src, payload)[k] == rest[k]);
            }
        }
    }
}

/// Every known address other than the source receives the datagram, byte for
/// byte.
pub proof fn lemma_dgram_covers(r: Seq<PeerAddr>, src: PeerAddr, payload: Seq<u8>, j: int)
    requires
        0 <= j < r.len(),
        r[j] != src,
    ensures
        exists|k: int|
            0 <= k < dgram_fanout(r, src, payload).len() && (#[trigger] dgram_fanout(
                r,
                src,
                payload,
            )[k]).dest == r[j] && dgram_fanout(r, src, payload)[k].payload == payload,
    decreases r.len(),
{
    let rest = dgram_fanout(r.drop_last(), src, payload);
    if j == r.len() - 1 {
        assert(dgram_fanout(r, src, payload)[rest.len() as int].dest == r[j]);
    } else {
        assert(r.drop_last()[j] == r[j]);
        lemma_dgram_covers(r.drop_last(), src, payload, j);
        let k = choose|k: int|
            0 <= k < rest.len() && (#[trigger] rest[k]).dest == r[j] && rest[k].payload == payload;
        assert(dgram_fanout(r, src, payload)[k].dest == r[j]);
        assert(dgram_fanout(r, src, payload)[k].payload == payload);
    }
}

} // verus!
