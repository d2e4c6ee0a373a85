//! Stream broadcast coordinator.
//!
//! The coordinator is the sole owner of the stream roster: the ordered,
//! append-only collection of known sessions, each an identity together with
//! the send-handle of its connection. Per relay event it registers the
//! sender's identity when unseen and decides one outbound write for every
//! other registered session. The surrounding process performs the writes; a
//! failed write to one recipient must not stop the rest.

use vstd::prelude::*;

use crate::framing::bytes_eq;
use crate::framing::clone_bytes;
use crate::framing::format_message;
use crate::framing::format_spec;

verus! {

/// A registered stream session: the peer's identity and an opaque token for
/// the coordinator's own duplicate of the peer's send-handle.
pub struct Session {
    pub identity: Vec<u8>,
    pub handle: u64,
}

/// Mathematical model of a [`Session`].
pub ghost struct SessionView {
    pub identity: Seq<u8>,
    pub handle: u64,
}

impl View for Session {
    type V = SessionView;

    open spec fn view(&self) -> SessionView {
        SessionView { identity: self.identity@, handle: self.handle }
    }
}

/// One outbound write the coordinator decided on: which handle to write to
/// and the bytes to write.
pub struct OutboundWrite {
    pub handle: u64,
    pub bytes: Vec<u8>,
}

/// Mathematical model of an [`OutboundWrite`].
pub ghost struct WriteView {
    pub handle: u64,
    pub bytes: Seq<u8>,
}

impl View for OutboundWrite {
    type V = WriteView;

    open spec fn view(&self) -> WriteView {
        WriteView { handle: self.handle, bytes: self.bytes@ }
    }
}

/// Whether the roster holds an entry for `id`.
pub open spec fn roster_has(r: Seq<SessionView>, id: Seq<u8>) -> bool {
    exists|i: int| 0 <= i < r.len() && r[i].identity == id
}

/// The roster after a message from `id` on handle `handle`: unchanged when
/// `id` is already registered, otherwise with a new session appended.
pub open spec fn register(r: Seq<SessionView>, id: Seq<u8>, handle: u64) -> Seq<SessionView> {
    if roster_has(r, id) {
        r
    } else {
        r.push(SessionView { identity: id, handle })
    }
}

/// The writes that fan a message from `id` with payload `text` out over the
/// roster `r`: one write per entry whose identity differs from `id`, in
/// roster order, each carrying `<id>: <text>`.
pub open spec fn fanout(r: Seq<SessionView>, id: Seq<u8>, text: Seq<u8>) -> Seq<WriteView>
    decreases r.len(),
{
    if r.len() == 0 {
        Seq::empty()
    } else {
        let rest = fanout(r.drop_last(), id, text);
        if r.last().identity == id {
            rest
        } else {
            rest.push(WriteView { handle: r.last().handle, bytes: format_spec(id, text) })
        }
    }
}

/// No two roster entries carry the same identity.
pub open spec fn roster_wf(r: Seq<SessionView>) -> bool {
    forall|i: int, j: int| 0 <= i < j < r.len() ==> r[i].identity != r[j].identity
}

/// The stream roster: an ordered, append-only collection of sessions with
/// pairwise distinct identities, owned by one coordinator.
pub struct StreamRoster {
    sessions: Vec<Session>,
}

impl View for StreamRoster {
    type V = Seq<SessionView>;

    closed spec fn view(&self) -> Seq<SessionView> {
        Seq::new(self.sessions@.len(), |i: int| self.sessions@[i]@)
    }
}

impl StreamRoster {
    /// The roster invariant: identities are unique.
    pub open spec fn wf(&self) -> bool {
        roster_wf(self@)
    }

    /// An empty roster.
    pub fn new() -> (r: Self)
        ensures
            r@ == Seq::<SessionView>::empty(),
            r.wf(),
    {
        let r = StreamRoster { sessions: Vec::new() };
        proof {
            assert(r@ =~= Seq::<SessionView>::empty());
        }
        r
    }

    /// Whether `id` is a registered identity.
    pub fn contains_identity(&self, id: &Vec<u8>) -> (r: bool)
        ensures
            r == roster_has(self@, id@),
    {
        let mut i: usize = 0;
        while i < self.sessions.len()
            invariant
                0 <= i <= self@.len(),
                self@.len() == self.sessions@.len(),
                forall|k: int| 0 <= k < i ==> self@[k].identity != id@,
            decreases self@.len() - i,
        {
            if bytes_eq(&self.sessions[i].identity, id) {
                proof {
                    assert(self@[i as int].identity == id@);
                }
                return true;
            }
            i = i + 1;
        }
        false
    }

    /// Handle one relay event: register the sender when unseen, then decide
    /// one write of `<identity>: <text>` for every other registered session,
    /// in roster order. No write goes to a session registered under the
    /// sender's identity.
    pub fn handle_event(&mut self, identity: Vec<u8>, handle: u64, text: &Vec<u8>) -> (writes: Vec<
        OutboundWrite,
    >)
        requires
            old(self).wf(),
        ensures
            final(self)@ == register(old(self)@, identity@, handle),
            final(self).wf(),
            writes@.len() == fanout(final(self)@, identity@, text@).len(),
            forall|k: int|
                0 <= k < writes@.len() ==> #[trigger] writes@[k]@ == fanout(
                    final(self)@,
                    identity@,
                    text@,
                )[k],
    {
        if !self.contains_identity(&identity) {
            let ghost before = self@;
            let session = Session { identity: clone_bytes(&identity), handle };
            self.sessions.push(session);
            proof {
                assert(self@ =~= before.push(SessionView { identity: identity@, handle }));
            }
        }
        let ghost roster = self@;
        let mut writes: Vec<OutboundWrite> = Vec::new();
        let mut i: usize = 0;
        while i < self.sessions.len()
            invariant
                0 <= i <= self.sessions@.len(),
                roster == self@,
                roster.len() == self.sessions@.len(),
                writes@.len() == fanout(roster.take(i as int), identity@, text@).len(),
                forall|k: int|
                    0 <= k < writes@.len() ==> #[trigger] writes@[k]@ == fanout(
                        roster.take(i as int),
                        identity@,
                        text@,
                    )[k],
            decreases self.sessions@.len() - i,
        {
            proof {
                assert(roster.take(i + 1).drop_last() =~= roster.take(i as int));
                assert(roster.take(i + 1).last() == roster[i as int]);
            }
            if !bytes_eq(&self.sessions[i].identity, &identity) {
                let bytes = format_message(&identity, text);
                writes.push(OutboundWrite { handle: self.sessions[i].handle, bytes });
            }
            i = i + 1;
        }
        proof {
            assert(roster.take(roster.len() as int) =~= roster);
        }
        writes
    }
}

/// Whether `w` is addressed to some roster entry of `r` whose identity is not
/// `id`.
pub open spec fn write_from_other(r: Seq<SessionView>, id: Seq<u8>, w: WriteView) -> bool {
    exists|j: int| 0 <= j < r.len() && r[j].identity != id && r[j].handle == w.handle
}

/// Once an identity is registered it stays registered: registration only ever
/// appends.
pub proof fn lemma_register_monotone(r: Seq<SessionView>, id: Seq<u8>, handle: u64, id2: Seq<u8>)
    requires
        roster_has(r, id2),
    ensures
        roster_has(register(r, id, handle), id2),
{
    let w = choose|i: int| 0 <= i < r.len() && r[i].identity == id2;
    assert(register(r, id, handle)[w].identity == id2);
}

/// After a message from `id`, `id` is registered.
pub proof fn lemma_register_registers(r: Seq<SessionView>, id: Seq<u8>, handle: u64)
    ensures
        roster_has(register(r, id, handle), id),
{
    if !roster_has(r, id) {
        assert(register(r, id, handle)[r.len() as int].identity == id);
    }
}

/// Registration is idempotent: a second message under the same identity does
/// not create a second roster entry, whatever handle it arrives on.
pub proof fn lemma_register_idempotent(r: Seq<SessionView>, id: Seq<u8>, h1: u64, h2: u64)
    ensures
        register(register(r, id, h1), id, h2) == register(r, id, h1),
{
    lemma_register_registers(r, id, h1);
}

/// Registration preserves the roster invariant.
pub proof fn lemma_register_wf(r: Seq<SessionView>, id: Seq<u8>, handle: u64)
    requires
        roster_wf(r),
    ensures
        roster_wf(register(r, id, handle)),
{
}

/// Every fan-out write carries the sender's prefixed message and is addressed
/// to a roster entry registered under some other identity.
pub proof fn lemma_fanout_sound(r: Seq<SessionView>, id: Seq<u8>, text: Seq<u8>)
    ensures
        forall|k: int|
            0 <= k < fanout(r, id, text).len() ==> (#[trigger] fanout(r, id, text)[k]).bytes
                == format_spec(id, text) && write_from_other(r, id, fanout(r, id, text)[k]),
    decreases r.len(),
{
    if r.len() > 0 {
        let rest = fanout(r.drop_last(), id, text);
        lemma_fanout_sound(r.drop_last(), id, text);
        assert forall|k: int|
            0 <= k < fanout(r, id, text).len() implies (#[trigger] fanout(r, id, text)[k]).bytes
            == format_spec(id, text) && write_from_other(r, id, fanout(r, id, text)[k]) by {
            if k < rest.len() {
                assert(fanout(r, id, text)[k] == rest[k]);
                let j = choose|j: int|
                    0 <= j < r.drop_last().len() && r.drop_last()[j].identity != id && r.drop_last()[j].handle
                        == rest[k].handle;
                assert(r[j].identity != id && r[j].handle == fanout(r, id, text)[k].handle);
            } else {
                assert(r.last().identity != id);
                assert(fanout(r, id, text)[k] == WriteView {
                    handle: r.last().handle,
                    bytes: format_spec(id, text),
                });
                assert(r[r.len() - 1].identity != id && r[r.len() - 1].handle == fanout(
                    r,
                    id,
                    text,
                )[k].handle);
            }
        }
    }
}

/// A handle that belongs only to sessions registered under the sender's own
/// identity receives no fan-out write: a message from `id` is never delivered
/// back to `id`.
pub proof fn lemma_fanout_no_echo(r: Seq<SessionView>, id: Seq<u8>, text: Seq<u8>, h: u64)
    requires
        forall|j: int| 0 <= j < r.len() && (#[trigger] r[j]).handle == h ==> r[j].identity == id,
    ensures
        forall|k: int| 0 <= k < fanout(r, id, text).len() ==> (#[trigger] fanout(
            r,
            id,
            text,
        )[k]).handle != h,
{
    lemma_fanout_sound(r, id, text);
    assert forall|k: int| 0 <= k < fanout(r, id, text).len() implies (#[trigger] fanout(
        r,
        id,
        text,
    )[k]).handle != h by {
        let j = choose|j: int|
            0 <= j < r.len() && r[j].identity != id && r[j].handle == fanout(r, id, text)[k].handle;
        assert(r[j].identity != id);
    }
}

/// Every roster entry registered under an identity other than the sender's
/// receives the message, with the payload unchanged and the sender's prefix
/// prepended.
pub proof fn lemma_fanout_covers(r: Seq<SessionView>, id: Seq<u8>, text: Seq<u8>, j: int)
    requires
        0 <= j < r.len(),
        r[j].identity != id,
    ensures
        exists|k: int|
            0 <= k < fanout(r, id, text).len() && (#[trigger] fanout(r, id, text)[k]).handle
                == r[j].handle && fanout(r, id, text)[k].bytes == format_spec(id, text),
    decreases r.len(),
{
    let rest = fanout(r.drop_last(), id, text);
    if j == r.len() - 1 {
        assert(fanout(r, id, text)[rest.len() as int].handle == r[j].handle);
    } else {
        assert(r.drop_last()[j] == r[j]);
        lemma_fanout_covers(r.drop_last(), id, text, j);
        let k = choose|k: int|
            0 <= k < rest.len() && (#[trigger] rest[k]).handle == r[j].handle && rest[k].bytes
                == format_spec(id, text);
        assert(fanout(r, id, text)[k].handle == r[j].handle);
        assert(fanout(r, id, text)[k].bytes == format_spec(id, text));
    }
}

} // verus!
