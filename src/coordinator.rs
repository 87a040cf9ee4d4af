use tokio::sync::broadcast::{Receiver, Sender};
use vstd::prelude::*;

use crate::booking::{Booking, BookingView};
use crate::clients::{first_with_id, is_next, next_round_robin, Client, ClientGroup};
use crate::hub::{
    capacity_of, channel_of_receiver, channel_of_sender, open_channel, open_receiver, publish, sent,
    start_of,
};

verus! {

/// How many undelivered events the channel keeps for each subscriber at
/// least; one that falls further behind skips the oldest.
pub const CAPACITY: usize = 100;

/// A booking paired with the client it went to, as that client stood then.
pub struct Assignment {
    pub booking: Booking,
    pub assigned_client: Client,
}

pub struct AssignmentView {
    pub booking: BookingView,
    pub assigned_client: Client,
}

impl View for Assignment {
    type V = AssignmentView;

    open spec fn view(&self) -> AssignmentView {
        AssignmentView { booking: self.booking@, assigned_client: self.assigned_client }
    }
}

impl Assignment {
    /// A value copy of this assignment.
    pub fn copy(&self) -> (r: Assignment)
        ensures
            r@ == self@,
    {
        Assignment { booking: self.booking.copy(), assigned_client: self.assigned_client.copy() }
    }
}

/// What the coordinator publishes to its subscribers.
pub enum Event {
    Assigned(Assignment),
    Cancelled(u128),
}

pub enum EventView {
    Assigned(AssignmentView),
    Cancelled(u128),
}

impl View for Event {
    type V = EventView;

    open spec fn view(&self) -> EventView {
        match self {
            Event::Assigned(a) => EventView::Assigned(a@),
            Event::Cancelled(id) => EventView::Cancelled(*id),
        }
    }
}

impl Clone for Event {
    fn clone(&self) -> (r: Event)
        ensures
            r@ == self@,
    {
        match self {
            Event::Assigned(a) => Event::Assigned(a.copy()),
            Event::Cancelled(id) => Event::Cancelled(*id),
        }
    }
}

/// One booking held by one client. The ledger is a list of these in the
/// order the bookings were assigned, not a map from client to bookings:
/// walking a hash map follows no fixed order, and `cancel` removes the first
/// entry that holds a booking, so that order has to be the ledger's own. A
/// client's bookings are the entries that name it, oldest first.
pub struct LedgerEntry {
    pub client_id: u128,
    pub booking: Booking,
}

/// The entry of the ledger as mathematical values.
pub open spec fn entry_view(e: LedgerEntry) -> (u128, BookingView) {
    (e.client_id, e.booking@)
}

/// Holds of the ledger entries of client `id`.
pub open spec fn held_by(id: u128) -> spec_fn((u128, BookingView)) -> bool {
    |e: (u128, BookingView)| e.0 == id
}

/// The bookings that client `id` holds in `ledger`, in the order they came.
pub open spec fn bookings_of(ledger: Seq<(u128, BookingView)>, id: u128) -> Seq<BookingView> {
    ledger.filter(held_by(id)).map_values(|e: (u128, BookingView)| e.1)
}

proof fn lemma_bookings_of_push(l: Seq<(u128, BookingView)>, e: (u128, BookingView), id: u128)
    ensures
        bookings_of(l.push(e), id) == if e.0 == id {
            bookings_of(l, id).push(e.1)
        } else {
            bookings_of(l, id)
        },
{
    reveal(Seq::filter);
    assert(l.push(e).drop_last() =~= l);
    let f = l.filter(held_by(id));
    assert(f.push(e).map_values(|e: (u128, BookingView)| e.1) =~= f.map_values(
        |e: (u128, BookingView)| e.1,
    ).push(e.1));
}

proof fn lemma_bookings_of_none(l: Seq<(u128, BookingView)>, id: u128)
    requires
        forall|i: int| 0 <= i < l.len() ==> (#[trigger] l[i]).0 != id,
    ensures
        bookings_of(l, id).len() == 0,
{
    let f = l.filter(held_by(id));
    if f.len() > 0 {
        l.lemma_filter_pred(held_by(id), 0);
        l.lemma_filter_contains_rev(held_by(id), f[0]);
        assert(f.contains(f[0]));
    }
}

/// What `assignments_for(id)` returns: each booking client `id` holds,
/// oldest first, paired with the client as the registry holds it now.
pub open spec fn assignments_view(c: Coordinator, id: u128) -> Seq<AssignmentView> {
    bookings_of(c.ledger(), id).map_values(
        |b: BookingView|
            AssignmentView {
                booking: b,
                assigned_client: c.registry().clients()[first_with_id(c.registry().clients(), id)->0],
            },
    )
}

/// Position of the first entry of `ledger` whose booking has identifier `id`.
pub open spec fn first_booking(ledger: Seq<(u128, BookingView)>, id: u128) -> Option<int> {
    if exists|i: int| is_first_booking(ledger, id, i) {
        Some(choose|i: int| is_first_booking(ledger, id, i))
    } else {
        None
    }
}

/// Entry `i` of `ledger` holds booking `id`, and no earlier entry does.
pub open spec fn is_first_booking(ledger: Seq<(u128, BookingView)>, id: u128, i: int) -> bool {
    &&& 0 <= i < ledger.len()
    &&& ledger[i].1.id == id
    &&& forall|j: int| 0 <= j < i ==> (#[trigger] ledger[j]).1.id != id
}

proof fn lemma_first_booking_exists(ledger: Seq<(u128, BookingView)>, id: u128, i: int)
    requires
        0 <= i < ledger.len(),
        ledger[i].1.id == id,
    ensures
        first_booking(ledger, id) is Some,
    decreases i,
{
    if exists|j: int| 0 <= j < i && (#[trigger] ledger[j]).1.id == id {
        let j = choose|j: int| 0 <= j < i && (#[trigger] ledger[j]).1.id == id;
        lemma_first_booking_exists(ledger, id, j);
    } else {
        assert(is_first_booking(ledger, id, i));
    }
}

/// `after` and `r` are what scheduling `booking` on `before` gives: the
/// client under the cursor takes the booking, the cursor moves one step on,
/// the ledger gains the entry and the assignment is published.
pub open spec fn is_schedule(before: Coordinator, after: Coordinator, booking: BookingView, r: AssignmentView) -> bool {
    let clients = before.registry().clients();
    &&& r == (AssignmentView {
        booking: booking,
        assigned_client: clients[before.registry().cursor() as int],
    })
    &&& after.registry().clients() == clients
    &&& after.registry().cursor() == (before.registry().cursor() + 1) % clients.len()
    &&& after.ledger() == before.ledger().push((r.assigned_client.id, booking))
    &&& after.published() == before.published().push(EventView::Assigned(r))
    &&& after.capacity() == before.capacity()
    &&& after.channel() == before.channel()
}

/// `after` and `removed` are what cancelling `booking_id` on `before` gives:
/// the first entry holding that booking leaves the ledger and its
/// cancellation is published; when there is none, nothing changes.
pub open spec fn is_cancel(before: Coordinator, after: Coordinator, booking_id: u128, removed: bool) -> bool {
    &&& after.registry() == before.registry()
    &&& after.capacity() == before.capacity()
    &&& after.channel() == before.channel()
    &&& removed == first_booking(before.ledger(), booking_id).is_some()
    &&& removed ==> 0 <= first_booking(before.ledger(), booking_id)->0 < before.ledger().len()
    &&& removed ==> after.ledger() == before.ledger().remove(
        first_booking(before.ledger(), booking_id)->0,
    ) && after.published() == before.published().push(EventView::Cancelled(booking_id))
    &&& !removed ==> after.ledger() == before.ledger() && after.published() == before.published()
}

/// Owns the registry, the ledger of held bookings and the event channel.
/// Scheduling and cancelling take `&mut self`: whoever shares a coordinator
/// serialises them behind one lock.
pub struct Coordinator {
    client_group: ClientGroup,
    ledger: Vec<LedgerEntry>,
    tx: Sender<Event>,
}

impl Coordinator {
    pub closed spec fn registry(&self) -> ClientGroup {
        self.client_group
    }

    /// Every booking currently held, with its client, in the order assigned.
    pub closed spec fn ledger(&self) -> Seq<(u128, BookingView)> {
        self.ledger@.map_values(|e: LedgerEntry| entry_view(e))
    }

    /// Every event sent on the coordinator's channel so far, in order.
    pub closed spec fn published(&self) -> Seq<EventView> {
        sent(self.tx)
    }

    /// How many undelivered events the channel keeps for each receiver.
    pub closed spec fn capacity(&self) -> nat {
        capacity_of(self.tx)
    }

    /// The channel the coordinator publishes on.
    pub closed spec fn channel(&self) -> int {
        channel_of_sender(self.tx)
    }

    /// The registry is well formed and the ledger names only its clients.
    pub open spec fn wf(&self) -> bool {
        &&& self.registry().wf()
        &&& forall|i: int|
            0 <= i < self.ledger().len() ==> exists|j: int|
                0 <= j < self.registry().clients().len() && (#[trigger] self.registry().clients()[j]).id
                    == (#[trigger] self.ledger()[i]).0
    }

    pub fn new(client_group: ClientGroup) -> (r: Coordinator)
        requires
            client_group.wf(),
        ensures
            r.wf(),
            r.registry() == client_group,
            r.ledger() == Seq::<(u128, BookingView)>::empty(),
            r.published() == Seq::<EventView>::empty(),
            CAPACITY <= r.capacity() < 2 * CAPACITY,
    {
        let r = Coordinator { client_group, ledger: Vec::new(), tx: open_channel(CAPACITY) };
        assert(r.ledger() =~= Seq::<(u128, BookingView)>::empty());
        r
    }

    /// Assigns `booking` to the next client in rotation, records it in the
    /// ledger, publishes the assignment and returns it.
    pub fn schedule_and_broadcast(&mut self, booking: Booking) -> (r: Assignment)
        requires
            old(self).wf(),
            old(self).registry().clients().len() > 0,
        ensures
            final(self).wf(),
            is_schedule(*old(self), *final(self), booking@, r@),
    {
        let ghost cursor = self.client_group.cursor();
        let client = self.client_group.next().copy();
        let entry = LedgerEntry { client_id: client.id, booking: booking.copy() };
        self.ledger.push(entry);
        let assignment = Assignment { booking, assigned_client: client };
        let event = Event::Assigned(assignment.copy());
        publish(&mut self.tx, event);
        assert(self.ledger() =~= old(self).ledger().push((assignment.assigned_client.id, assignment.booking@)));
        assert forall|i: int| 0 <= i < self.ledger().len() implies exists|j: int|
            0 <= j < self.registry().clients().len() && (#[trigger] self.registry().clients()[j]).id
                == (#[trigger] self.ledger()[i]).0 by {
            if i == self.ledger().len() - 1 {
                assert(self.registry().clients()[cursor as int].id == self.ledger()[i].0);
            } else {
                assert(self.ledger()[i] == old(self).ledger()[i]);
            }
        }
        assignment
    }

    /// Removes the first held booking with identifier `booking_id` and
    /// publishes its cancellation; returns false, publishing nothing, when no
    /// client holds such a booking.
    pub fn cancel(&mut self, booking_id: u128) -> (r: bool)
        requires
            old(self).wf(),
        ensures
            final(self).wf(),
            is_cancel(*old(self), *final(self), booking_id, r),
    {
        match self.position_of_booking(booking_id) {
            Some(i) => {
                let ghost l = self.ledger();
                self.ledger.remove(i);
                assert(self.ledger() =~= l.remove(i as int));
                publish(&mut self.tx, Event::Cancelled(booking_id));
                assert forall|k: int| 0 <= k < self.ledger().len() implies exists|j: int|
                    0 <= j < self.registry().clients().len() && (#[trigger] self.registry().clients()[j]).id
                        == (#[trigger] self.ledger()[k]).0 by {
                    let kk = if k < i {
                        k
                    } else {
                        k + 1
                    };
                    assert(self.ledger()[k] == l[kk]);
                    assert(l[kk] == old(self).ledger()[kk]);
                    let j = choose|j: int|
                        0 <= j < old(self).registry().clients().len() && (#[trigger] old(
                            self,
                        ).registry().clients()[j]).id == old(self).ledger()[kk].0;
                    assert(self.registry().clients()[j].id == self.ledger()[k].0);
                }
                true
            },
            None => false,
        }
    }

    fn position_of_booking(&self, booking_id: u128) -> (r: Option<usize>)
        ensures
            r is None <==> first_booking(self.ledger(), booking_id) is None,
            r matches Some(i) ==> first_booking(self.ledger(), booking_id) == Some(i as int) && i
                < self.ledger().len(),
    {
        let mut i: usize = 0;
        while i < self.ledger.len()
            invariant
                i <= self.ledger@.len(),
                forall|j: int| 0 <= j < i ==> (#[trigger] self.ledger()[j]).1.id != booking_id,
            decreases self.ledger@.len() - i,
        {
            if self.ledger[i].booking.id == booking_id {
                let ghost l = self.ledger();
                proof {
                    assert(l[i as int].1.id == booking_id);
                    assert(is_first_booking(l, booking_id, i as int));
                    let w = first_booking(l, booking_id)->0;
                    if w < i {
                        assert(l[w].1.id != booking_id);
                    } else if w > i {
                        assert(l[i as int].1.id != booking_id);
                    }
                }
                return Some(i);
            }
            i = i + 1;
        }
        None
    }

    /// Every booking that client `client_id` holds, oldest first, each paired
    /// with the client as it stands now.
    pub fn assignments_for(&self, client_id: u128) -> (r: Vec<Assignment>)
        requires
            self.wf(),
        ensures
            r@.map_values(|a: Assignment| a@) == assignments_view(*self, client_id),
    {
        let mut r: Vec<Assignment> = Vec::new();
        match self.client_group.get_copy(client_id) {
            None => {
                proof {
                    let l = self.ledger();
                    assert forall|i: int| 0 <= i < l.len() implies (#[trigger] l[i]).0
                        != client_id by {
                        assert(l[i] == self.ledger()[i]);
                        let j = choose|j: int|
                            0 <= j < self.registry().clients().len() && (#[trigger] self.registry().clients()[j]).id
                                == self.ledger()[i].0;
                        assert(self.registry().clients()[j].id != client_id);
                    }
                    lemma_bookings_of_none(l, client_id);
                }
                assert(r@.map_values(|a: Assignment| a@) =~= assignments_view(*self, client_id));
                r
            },
            Some(client) => {
                let n = self.ledger.len();
                let mut i: usize = 0;
                while i < n
                    invariant
                        n == self.ledger@.len(),
                        i <= n,
                        client == self.registry().clients()[first_with_id(
                            self.registry().clients(),
                            client_id,
                        )->0],
                        r@.len() == bookings_of(self.ledger().take(i as int), client_id).len(),
                        forall|j: int|
                            0 <= j < r@.len() ==> (#[trigger] r@[j])@ == (AssignmentView {
                                booking: bookings_of(self.ledger().take(i as int), client_id)[j],
                                assigned_client: client,
                            }),
                    decreases n - i,
                {
                    let e = &self.ledger[i];
                    proof {
                        assert(self.ledger().take(i + 1) =~= self.ledger().take(i as int).push(
                            entry_view(*e),
                        ));
                        lemma_bookings_of_push(self.ledger().take(i as int), entry_view(*e), client_id);
                    }
                    if e.client_id == client_id {
                        r.push(Assignment { booking: e.booking.copy(), assigned_client: client.copy() });
                    }
                    i = i + 1;
                }
                assert(self.ledger().take(n as int) =~= self.ledger());
                assert(r@.map_values(|a: Assignment| a@) =~= assignments_view(*self, client_id));
                r
            },
        }
    }

    /// Whether `id` names a client of the registry.
    pub fn client_identified(&self, id: u128) -> (r: bool)
        ensures
            r == exists|i: int|
                0 <= i < self.registry().clients().len() && (#[trigger] self.registry().clients()[i]).id == id,
    {
        let r = self.client_group.contains(id);
        proof {
            if r {
                let i = choose|i: int|
                    0 <= i < self.client_group.clients().len() && (#[trigger] self.client_group.clients()[i]).id == id;
                assert(self.registry().clients()[i].id == id);
            }
        }
        r
    }

    /// How many bookings are held, across all clients.
    pub fn get_status_count(&self) -> (r: usize)
        ensures
            r == self.ledger().len(),
    {
        self.ledger.len()
    }

    /// A new receiver of the events published from now on, with its own
    /// backlog of at least `CAPACITY` events.
    pub fn subscribe(&self) -> (r: Receiver<Event>)
        ensures
            channel_of_receiver(r) == self.channel(),
            start_of(r) == self.published().len(),
    {
        open_receiver(&self.tx)
    }
}

/// The status count is the number of ledger entries: a cancel that finds
/// the booking removes exactly one entry and publishes one cancellation; one
/// that does not find it returns false and publishes nothing.
pub proof fn cancel_updates_status(
    before: Coordinator,
    after: Coordinator,
    booking_id: u128,
    removed: bool,
)
    requires
        is_cancel(before, after, booking_id, removed),
    ensures
        removed <==> exists|i: int|
            0 <= i < before.ledger().len() && (#[trigger] before.ledger()[i]).1.id == booking_id,
        removed ==> after.ledger().len() == before.ledger().len() - 1,
        removed ==> after.published() == before.published().push(EventView::Cancelled(booking_id)),
        !removed ==> after.ledger().len() == before.ledger().len(),
        !removed ==> after.published() == before.published(),
{
    if removed {
        let i = first_booking(before.ledger(), booking_id)->0;
        assert(before.ledger()[i].1.id == booking_id);
    } else {
        if exists|i: int|
            0 <= i < before.ledger().len() && (#[trigger] before.ledger()[i]).1.id == booking_id {
            let i = choose|i: int|
                0 <= i < before.ledger().len() && (#[trigger] before.ledger()[i]).1.id == booking_id;
            lemma_first_booking_exists(before.ledger(), booking_id, i);
        }
    }
}

/// Every schedule adds exactly one ledger entry and publishes exactly one
/// assignment, so the status count grows by one.
pub proof fn schedule_updates_status(
    before: Coordinator,
    after: Coordinator,
    booking: BookingView,
    r: AssignmentView,
)
    requires
        is_schedule(before, after, booking, r),
    ensures
        after.ledger().len() == before.ledger().len() + 1,
        after.ledger().last() == (r.assigned_client.id, booking),
        after.published().len() == before.published().len() + 1,
{
}

/// One call in a run of coordinator operations, with what it returned.
pub enum Operation {
    Schedule(BookingView, AssignmentView),
    Cancel(u128, bool),
}

/// `after` is what `op` gives on `before`.
pub open spec fn is_operation(before: Coordinator, after: Coordinator, op: Operation) -> bool {
    match op {
        Operation::Schedule(b, r) => is_schedule(before, after, b, r),
        Operation::Cancel(id, removed) => is_cancel(before, after, id, removed),
    }
}

/// Schedules in `ops`, less the cancels that removed a booking.
pub open spec fn net_bookings(ops: Seq<Operation>) -> int
    decreases ops.len(),
{
    if ops.len() == 0 {
        0
    } else {
        net_bookings(ops.drop_last()) + match ops.last() {
            Operation::Schedule(_, _) => 1int,
            Operation::Cancel(_, removed) => if removed {
                -1int
            } else {
                0int
            },
        }
    }
}

/// Over any interleaving of schedules and cancels, the status count (the
/// number of ledger entries) grows by the number of schedules less the
/// number of cancels that returned true.
pub proof fn status_over_run(states: Seq<Coordinator>, ops: Seq<Operation>)
    requires
        states.len() == ops.len() + 1,
        forall|i: int| 0 <= i < ops.len() ==> is_operation(#[trigger] states[i], states[i + 1], ops[i]),
    ensures
        states.last().ledger().len() == states[0].ledger().len() + net_bookings(ops),
{
    lemma_status_prefix(states, ops, ops.len() as int);
    assert(ops.take(ops.len() as int) =~= ops);
}

proof fn lemma_status_prefix(states: Seq<Coordinator>, ops: Seq<Operation>, k: int)
    requires
        states.len() == ops.len() + 1,
        forall|i: int| 0 <= i < ops.len() ==> is_operation(#[trigger] states[i], states[i + 1], ops[i]),
        0 <= k <= ops.len(),
    ensures
        states[k].ledger().len() == states[0].ledger().len() + net_bookings(ops.take(k)),
    decreases k,
{
    if k > 0 {
        lemma_status_prefix(states, ops, k - 1);
        assert(ops.take(k).drop_last() =~= ops.take(k - 1));
        assert(is_operation(states[k - 1], states[k], ops[k - 1]));
    }
}

/// The events that receiver `rx` is owed by coordinator `c`: those
/// published after the receiver was made.
pub open spec fn owed(c: Coordinator, rx: Receiver<Event>) -> Seq<EventView> {
    c.published().skip(start_of(rx) as int)
}

/// Fan-out: two receivers taken with no schedule or cancel between them
/// are on the same channel and, at any later point of that coordinator's
/// run, are owed the same events in the same order.
pub proof fn fan_out(
    first: Coordinator,
    second: Coordinator,
    later: Coordinator,
    rx1: Receiver<Event>,
    rx2: Receiver<Event>,
)
    requires
        channel_of_receiver(rx1) == first.channel(),
        start_of(rx1) == first.published().len(),
        channel_of_receiver(rx2) == second.channel(),
        start_of(rx2) == second.published().len(),
        second.channel() == first.channel(),
        second.published() == first.published(),
        later.channel() == first.channel(),
        first.published().len() <= later.published().len(),
        later.published().take(first.published().len() as int) == first.published(),
    ensures
        channel_of_receiver(rx1) == channel_of_receiver(rx2),
        channel_of_receiver(rx1) == later.channel(),
        owed(later, rx1) == owed(later, rx2),
        owed(later, rx1) == later.published().skip(first.published().len() as int),
{
}

/// Round robin: in a run of schedules, whatever the bookings, the i-th one
/// (counting from zero) goes to the client `i` places after the starting
/// cursor, wrapping around; from a freshly loaded registry, the k-th
/// schedule goes to client `(k - 1) mod n`.
pub proof fn schedule_round_robin(
    states: Seq<Coordinator>,
    bookings: Seq<BookingView>,
    results: Seq<AssignmentView>,
)
    requires
        states.len() == results.len() + 1,
        bookings.len() == results.len(),
        states[0].wf(),
        states[0].registry().clients().len() > 0,
        forall|i: int|
            0 <= i < results.len() ==> is_schedule(
                #[trigger] states[i],
                states[i + 1],
                bookings[i],
                results[i],
            ),
    ensures
        forall|i: int|
            0 <= i < results.len() ==> (#[trigger] results[i]).assigned_client == states[0].registry().clients()[(
            states[0].registry().cursor() + i) % (states[0].registry().clients().len() as int)],
{
    let groups = states.map_values(|c: Coordinator| c.registry());
    let picks = results.map_values(|r: AssignmentView| r.assigned_client);
    assert forall|i: int| 0 <= i < picks.len() implies is_next(
        #[trigger] groups[i],
        groups[i + 1],
        picks[i],
    ) by {
        assert(is_schedule(states[i], states[i + 1], bookings[i], results[i]));
    }
    next_round_robin(groups, picks);
    assert forall|i: int| 0 <= i < results.len() implies (#[trigger] results[i]).assigned_client
        == states[0].registry().clients()[(states[0].registry().cursor() + i) % (
    states[0].registry().clients().len() as int)] by {
        assert(picks[i] == results[i].assigned_client);
    }
}

} // verus!
