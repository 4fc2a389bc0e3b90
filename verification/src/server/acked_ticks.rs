//! The per-client tick window: the last tick that each connected client has
//! acknowledged, and the oldest of them, which bounds the scan for changes.

use vstd::prelude::*;
use crate::lookup::{first_match, is_first_match, lemma_first_match_absent, lemma_first_match_contains, lemma_first_match_found};
use crate::tick::{clamped_age, newer_than_at, tick_distance, Tick};

verus! {

/// A connected client and the last tick that it has acknowledged.
#[derive(Clone, Copy, Debug, PartialEq, Eq, Structural)]
pub struct ClientTick {
    pub client_id: u64,
    pub tick: Tick,
}

/// The client identifiers of `clients`, in order.
pub open spec fn client_ids(clients: Seq<ClientTick>) -> Seq<u64> {
    clients.map_values(|client: ClientTick| client.client_id)
}

/// The acknowledged tick that lies furthest behind `current` among the first
/// `n` clients, or `current` itself where there is none.
pub open spec fn oldest_among(clients: Seq<ClientTick>, n: int, current: u32) -> u32
    decreases n,
{
    if n <= 0 {
        current
    } else {
        let earlier = oldest_among(clients, n - 1, current);
        if tick_distance(clients[n - 1].tick@, current) > tick_distance(earlier, current) {
            clients[n - 1].tick@
        } else {
            earlier
        }
    }
}

/// The oldest tick is the current tick where no client is connected, and
/// otherwise the acknowledged tick of some client. No client lies further
/// behind the current tick than the oldest tick does.
pub proof fn lemma_oldest_among(clients: Seq<ClientTick>, n: int, current: u32)
    requires
        0 <= n <= clients.len(),
    ensures
        n == 0 ==> oldest_among(clients, n, current) == current,
        n > 0 ==> exists|i: int| 0 <= i < n && (#[trigger] clients[i]).tick@ == oldest_among(clients, n, current),
        forall|i: int|
            0 <= i < n ==> tick_distance((#[trigger] clients[i]).tick@, current) <= tick_distance(
                oldest_among(clients, n, current),
                current,
            ),
    decreases n,
{
    if n > 0 {
        lemma_oldest_among(clients, n - 1, current);
        let earlier = oldest_among(clients, n - 1, current);
        if tick_distance(clients[n - 1].tick@, current) > tick_distance(earlier, current) {
            assert(clients[n - 1].tick@ == oldest_among(clients, n, current));
        } else if n == 1 {
            assert(tick_distance(clients[0].tick@, current) == 0);
            assert(clients[0].tick@ == oldest_among(clients, n, current));
        } else {
            let i = choose|i: int| 0 <= i < n - 1 && (#[trigger] clients[i]).tick@ == earlier;
            assert(clients[i].tick@ == oldest_among(clients, n, current));
        }
    }
}

/// The oldest tick covers every client: whatever is newer than the tick that
/// a client has acknowledged is also newer than the oldest tick. A scan
/// bounded by the oldest tick therefore misses nothing that a client needs.
pub proof fn lemma_oldest_covers_clients(
    clients: Seq<ClientTick>,
    current: u32,
    i: int,
    tick: u32,
)
    requires
        0 <= i < clients.len(),
        newer_than_at(tick, clients[i].tick@, current),
    ensures
        newer_than_at(tick, oldest_among(clients, clients.len() as int, current), current),
{
    lemma_oldest_among(clients, clients.len() as int, current);
    let oldest = oldest_among(clients, clients.len() as int, current);
    assert(tick_distance(clients[i].tick@, current) <= tick_distance(oldest, current));
    assert(clamped_age(clients[i].tick@, current) <= clamped_age(oldest, current));
}

/// The ticks that the connected clients have acknowledged.
#[derive(Clone, Debug)]
pub struct AckedTicks {
    current: Tick,
    clients: Vec<ClientTick>,
}

impl AckedTicks {
    /// The connected clients with their acknowledged ticks, in the order in
    /// which they connected.
    pub closed spec fn clients(&self) -> Seq<ClientTick> {
        self.clients@
    }

    /// The current tick of the server.
    pub closed spec fn current(&self) -> Tick {
        self.current
    }

    /// The invariant: no client is recorded twice.
    pub open spec fn wf(&self) -> bool {
        client_ids(self.clients()).no_duplicates()
    }

    /// The tick that a client has acknowledged, if it is connected.
    pub open spec fn acked(&self, client_id: u64) -> Option<Tick> {
        match first_match(client_ids(self.clients()), client_id) {
            Some(i) => Some(self.clients()[i].tick),
            None => None,
        }
    }

    /// The oldest tick that any connected client has acknowledged, or the
    /// current tick where none is connected.
    pub open spec fn oldest(&self) -> u32 {
        oldest_among(self.clients(), self.clients().len() as int, self.current()@)
    }

    /// A window without clients.
    pub fn new(current: Tick) -> (window: AckedTicks)
        ensures
            window.wf(),
            window.current() == current,
            window.clients() == Seq::<ClientTick>::empty(),
    {
        AckedTicks { current, clients: Vec::new() }
    }

    pub fn current_tick(&self) -> (tick: Tick)
        ensures
            tick == self.current(),
    {
        self.current
    }

    /// Moves the window to a new current tick. The clients keep what they
    /// have acknowledged.
    pub fn set_current_tick(&mut self, tick: Tick)
        requires
            old(self).wf(),
        ensures
            final(self).wf(),
            final(self).current() == tick,
            final(self).clients() == old(self).clients(),
    {
        self.current = tick;
    }

    pub fn client_count(&self) -> (count: usize)
        ensures
            count == self.clients().len(),
    {
        self.clients.len()
    }

    fn position(&self, client_id: u64) -> (found: Option<usize>)
        ensures
            match found {
                Some(i) => first_match(client_ids(self.clients()), client_id) == Some(i as int),
                None => first_match(client_ids(self.clients()), client_id) is None,
            },
    {
        let mut i: usize = 0;
        while i < self.clients.len()
            invariant
                i <= self.clients@.len(),
                forall|j: int| 0 <= j < i ==> client_ids(self.clients())[j] != client_id,
            decreases self.clients@.len() - i,
        {
            if self.clients[i].client_id == client_id {
                proof {
                    lemma_first_match_found(client_ids(self.clients()), client_id, i as int);
                }
                return Some(i);
            }
            i += 1;
        }
        proof {
            lemma_first_match_absent(client_ids(self.clients()), client_id);
        }
        None
    }

    /// The tick that a client has acknowledged, or `None` for a client that
    /// is not connected.
    pub fn acked_tick(&self, client_id: u64) -> (tick: Option<Tick>)
        ensures
            tick == self.acked(client_id),
    {
        match self.position(client_id) {
            Some(i) => Some(self.clients[i].tick),
            None => None,
        }
    }

    /// Records a client that has connected, with the tick that it counts as
    /// having acknowledged. Returns `false`, and changes nothing, where the
    /// client is connected already.
    pub fn connect(&mut self, client_id: u64, acked: Tick) -> (connected: bool)
        requires
            old(self).wf(),
        ensures
            final(self).wf(),
            final(self).current() == old(self).current(),
            connected == (old(self).acked(client_id) is None),
            final(self).clients() == if connected {
                old(self).clients().push(ClientTick { client_id, tick: acked })
            } else {
                old(self).clients()
            },
            connected ==> final(self).acked(client_id) == Some(acked),
    {
        match self.position(client_id) {
            Some(_) => false,
            None => {
                let ghost at = self.clients@.len() as int;
                proof {
                    lemma_first_match_contains(client_ids(self.clients()), client_id);
                }
                self.clients.push(ClientTick { client_id, tick: acked });
                proof {
                    let ids = client_ids(self.clients());
                    let before = client_ids(old(self).clients());
                    assert forall|j: int| 0 <= j < at implies ids[j] != client_id by {
                        assert(ids[j] == before[j]);
                        assert(before.contains(before[j]));
                    }
                    assert(is_first_match(ids, client_id, at));
                    lemma_first_match_found(ids, client_id, at);
                    assert forall|i: int, j: int| 0 <= i < ids.len() && 0 <= j < ids.len() && i
                        != j implies ids[i] != ids[j] by {
                        if i < at && j < at {
                            assert(ids[i] == before[i]);
                            assert(ids[j] == before[j]);
                        }
                    }
                }
                true
            },
        }
    }

    /// Forgets a client that has disconnected and returns the tick that it
    /// had acknowledged, or `None` for a client that was not connected. The
    /// other clients keep their order.
    pub fn disconnect(&mut self, client_id: u64) -> (acked: Option<Tick>)
        requires
            old(self).wf(),
        ensures
            final(self).wf(),
            final(self).current() == old(self).current(),
            acked == old(self).acked(client_id),
            final(self).clients() == match first_match(
                client_ids(old(self).clients()),
                client_id,
            ) {
                Some(i) => old(self).clients().remove(i),
                None => old(self).clients(),
            },
            final(self).acked(client_id) is None,
    {
        match self.position(client_id) {
            Some(i) => {
                proof {
                    lemma_first_match_contains(client_ids(self.clients()), client_id);
                }
                let removed = self.clients.remove(i);
                proof {
                    let ids = client_ids(self.clients());
                    let before = client_ids(old(self).clients());
                    assert forall|j: int| 0 <= j < ids.len() implies ids[j] != client_id by {
                        if j < i {
                            assert(ids[j] == before[j]);
                        } else {
                            assert(ids[j] == before[j + 1]);
                        }
                    }
                    lemma_first_match_absent(ids, client_id);
                    assert forall|a: int, b: int| 0 <= a < ids.len() && 0 <= b < ids.len() && a
                        != b implies ids[a] != ids[b] by {
                        let a0 = if a < i { a } else { a + 1 };
                        let b0 = if b < i { b } else { b + 1 };
                        assert(ids[a] == before[a0]);
                        assert(ids[b] == before[b0]);
                    }
                }
                Some(removed.tick)
            },
            None => None,
        }
    }

    /// Takes note of an acknowledgment. The client's tick moves to `tick`
    /// where `tick` is newer than what the client had acknowledged, seen from
    /// the current tick; the result says whether it moved. An acknowledgment
    /// from a client that is not connected, or of a tick that is not newer, is
    /// ignored.
    pub fn acknowledge(&mut self, client_id: u64, tick: Tick) -> (advanced: bool)
        requires
            old(self).wf(),
        ensures
            final(self).wf(),
            final(self).current() == old(self).current(),
            advanced == match old(self).acked(client_id) {
                Some(acked) => newer_than_at(tick@, acked@, old(self).current()@),
                None => false,
            },
            final(self).clients() == match first_match(
                client_ids(old(self).clients()),
                client_id,
            ) {
                Some(i) => if advanced {
                    old(self).clients().update(i, ClientTick { client_id, tick })
                } else {
                    old(self).clients()
                },
                None => old(self).clients(),
            },
            advanced ==> final(self).acked(client_id) == Some(tick),
            !advanced ==> final(self).acked(client_id) == old(self).acked(client_id),
    {
        match self.position(client_id) {
            Some(i) => {
                if tick.is_newer_than(self.clients[i].tick, self.current) {
                    proof {
                        lemma_first_match_contains(client_ids(self.clients()), client_id);
                    }
                    self.clients[i] = ClientTick { client_id, tick };
                    proof {
                        let ids = client_ids(self.clients());
                        let before = client_ids(old(self).clients());
                        assert(before[i as int] == client_id);
                        assert(ids =~= before);
                    }
                    true
                } else {
                    false
                }
            },
            None => false,
        }
    }

    /// The oldest tick that any connected client has acknowledged: the one
    /// that lies furthest behind the current tick. Without clients it is the
    /// current tick, so that a scan bounded by it finds nothing.
    pub fn oldest_tick(&self) -> (tick: Tick)
        ensures
            tick@ == self.oldest(),
    {
        let mut oldest = self.current;
        let mut i: usize = 0;
        while i < self.clients.len()
            invariant
                i <= self.clients@.len(),
                oldest@ == oldest_among(self.clients(), i as int, self.current()@),
            decreases self.clients@.len() - i,
        {
            let acked = self.clients[i].tick;
            if self.current.get().wrapping_sub(acked.get()) > self.current.get().wrapping_sub(
                oldest.get(),
            ) {
                oldest = acked;
            }
            i += 1;
        }
        oldest
    }
}

} // verus!
