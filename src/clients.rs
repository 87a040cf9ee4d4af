use vstd::arithmetic::div_mod::{
    lemma_add_mod_noop, lemma_mod_self_0, lemma_small_mod,
};
use vstd::prelude::*;
use vstd::seq_lib::{to_multiset_build, to_multiset_insert};

verus! {

/// A worker that bookings can be dispatched to.
pub struct Client {
    /// Stable identifier, the 128-bit value of the client's UUID.
    pub id: u128,
    pub name: String,
    /// Priority weight read at load time: fewer uses are dispatched first.
    pub uses: usize,
    /// Dense rank inside the registry.
    pub order: usize,
}

impl Client {
    /// A value copy of this client.
    pub fn copy(&self) -> (r: Client)
        ensures
            r == *self,
    {
        Client { id: self.id, name: self.name.clone(), uses: self.uses, order: self.order }
    }
}

/// `a` is dispatched no later than `b`: fewer uses first, then lower order.
pub open spec fn precedes(a: Client, b: Client) -> bool {
    a.uses < b.uses || (a.uses == b.uses && a.order <= b.order)
}

/// The sort key of a client.
pub open spec fn priority_key(c: Client) -> (usize, usize) {
    (c.uses, c.order)
}

/// Every client precedes all those after it.
pub open spec fn is_priority_sorted(s: Seq<Client>) -> bool {
    forall|i: int, j: int| 0 <= i < j < s.len() ==> precedes(#[trigger] s[i], #[trigger] s[j])
}

/// Holds of the clients whose sort key is `k`.
pub open spec fn has_key(k: (usize, usize)) -> spec_fn(Client) -> bool {
    |c: Client| priority_key(c) == k
}

/// The clients of `s` that carry the sort key `k`, in the order of `s`.
pub open spec fn with_key(s: Seq<Client>, k: (usize, usize)) -> Seq<Client> {
    s.filter(has_key(k))
}

/// `r` is the stable sort of `s` by `(uses, order)`: a permutation of `s`,
/// sorted, and for every key it holds the same clients in the same order as
/// `s`.
pub open spec fn is_priority_sort_of(s: Seq<Client>, r: Seq<Client>) -> bool {
    &&& r.to_multiset() == s.to_multiset()
    &&& is_priority_sorted(r)
    &&& forall|k: (usize, usize)| #[trigger] with_key(r, k) == with_key(s, k)
}

/// `s` with each client's `order` set to its position.
pub open spec fn renumbered(s: Seq<Client>) -> Seq<Client> {
    Seq::new(s.len(), |i: int| Client { order: i as usize, ..s[i] })
}

proof fn lemma_no_key_in(b: Seq<Client>, k: (usize, usize))
    requires
        forall|i: int| 0 <= i < b.len() ==> priority_key(#[trigger] b[i]) != k,
    ensures
        with_key(b, k) == Seq::<Client>::empty(),
{
    let f = with_key(b, k);
    if f.len() > 0 {
        b.lemma_filter_pred(has_key(k), 0);
        b.lemma_filter_contains_rev(has_key(k), f[0]);
        assert(f.contains(f[0]));
    }
    assert(f =~= Seq::<Client>::empty());
}

proof fn lemma_with_key_push(s: Seq<Client>, x: Client, k: (usize, usize))
    ensures
        with_key(s.push(x), k) == if priority_key(x) == k {
            with_key(s, k).push(x)
        } else {
            with_key(s, k)
        },
{
    reveal(Seq::filter);
    assert(s.push(x).drop_last() =~= s);
}

/// Inserting `x` into sorted `r` at `p`, after every client that precedes it
/// and before every other, keeps `r` sorted and adds `x` after the clients
/// with the same key.
proof fn lemma_insert_sorted(r: Seq<Client>, p: int, x: Client)
    requires
        is_priority_sorted(r),
        0 <= p <= r.len(),
        forall|i: int| 0 <= i < p ==> precedes(#[trigger] r[i], x),
        forall|i: int| p <= i < r.len() ==> !precedes(#[trigger] r[i], x),
    ensures
        is_priority_sorted(r.insert(p, x)),
        forall|k: (usize, usize)|
            #[trigger] with_key(r.insert(p, x), k) == if priority_key(x) == k {
                with_key(r, k).push(x)
            } else {
                with_key(r, k)
            },
{
    let n = r.insert(p, x);
    let a = r.take(p);
    let b = r.skip(p);
    assert(r =~= a + b);
    assert(n =~= a.push(x) + b);
    assert forall|i: int, j: int| 0 <= i < j < n.len() implies precedes(
        #[trigger] n[i],
        #[trigger] n[j],
    ) by {
        if i < p && j > p {
            assert(precedes(r[i], r[j - 1]));
        } else if i > p {
            assert(precedes(r[i - 1], r[j - 1]));
        } else if i < p && j < p {
            assert(precedes(r[i], r[j]));
        }
    }
    assert forall|k: (usize, usize)|
        #[trigger] with_key(n, k) == if priority_key(x) == k {
            with_key(r, k).push(x)
        } else {
            with_key(r, k)
        } by {
        Seq::filter_distributes_over_add(a.push(x), b, has_key(k));
        Seq::filter_distributes_over_add(a, b, has_key(k));
        lemma_with_key_push(a, x, k);
        if priority_key(x) == k {
            assert forall|i: int| 0 <= i < b.len() implies priority_key(#[trigger] b[i]) != k by {
                assert(!precedes(r[p + i], x));
            }
            lemma_no_key_in(b, k);
            assert(with_key(a, k).push(x) + with_key(b, k) =~= with_key(a, k).push(x));
            assert(with_key(a, k) + with_key(b, k) =~= with_key(a, k));
        }
    }
}

/// Stable sort of `s` by `(uses, order)`.
pub fn sort_by_priority(s: Vec<Client>) -> (r: Vec<Client>)
    ensures
        is_priority_sort_of(s@, r@),
{
    let mut r: Vec<Client> = Vec::new();
    let n = s.len();
    let mut i: usize = 0;
    assert(s@.take(0) =~= r@);
    while i < n
        invariant
            n == s.len(),
            i <= n,
            is_priority_sorted(r@),
            forall|k: (usize, usize)| #[trigger] with_key(r@, k) == with_key(s@.take(i as int), k),
            r@.to_multiset() == s@.take(i as int).to_multiset(),
        decreases n - i,
    {
        let x = s[i].copy();
        let mut p: usize = 0;
        while p < r.len() && (r[p].uses < x.uses || (r[p].uses == x.uses && r[p].order <= x.order))
            invariant
                p <= r.len(),
                is_priority_sorted(r@),
                forall|j: int| 0 <= j < p ==> precedes(#[trigger] r@[j], x),
            decreases r.len() - p,
        {
            p = p + 1;
        }
        proof {
            assert forall|j: int| p <= j < r@.len() implies !precedes(#[trigger] r@[j], x) by {
                assert(!precedes(r@[p as int], x));
                if j > p {
                    assert(precedes(r@[p as int], r@[j]));
                }
            }
            lemma_insert_sorted(r@, p as int, x);
            assert(s@.take(i + 1) =~= s@.take(i as int).push(x));
            to_multiset_insert(r@, p as int, x);
            to_multiset_build(s@.take(i as int), x);
            assert forall|k: (usize, usize)|
                #[trigger] with_key(s@.take(i + 1), k) == if priority_key(x) == k {
                    with_key(s@.take(i as int), k).push(x)
                } else {
                    with_key(s@.take(i as int), k)
                } by {
                lemma_with_key_push(s@.take(i as int), x, k);
            }
        }
        r.insert(p, x);
        i = i + 1;
    }
    assert(s@.take(n as int) =~= s@);
    r
}

/// Index of the first client of `s` with identifier `id`, if any.
pub open spec fn first_with_id(s: Seq<Client>, id: u128) -> Option<int> {
    if exists|i: int| is_first_with_id(s, id, i) {
        Some(choose|i: int| is_first_with_id(s, id, i))
    } else {
        None
    }
}

/// Client `i` of `s` has identifier `id`, and no earlier client does.
pub open spec fn is_first_with_id(s: Seq<Client>, id: u128, i: int) -> bool {
    &&& 0 <= i < s.len()
    &&& s[i].id == id
    &&& forall|j: int| 0 <= j < i ==> (#[trigger] s[j]).id != id
}

/// `after` and `r` are what `next` gives on `before`: the client under the
/// cursor, and the cursor one step on, with wraparound.
pub open spec fn is_next(before: ClientGroup, after: ClientGroup, r: Client) -> bool {
    &&& r == before.clients()[before.cursor() as int]
    &&& after.clients() == before.clients()
    &&& after.cursor() == (before.cursor() + 1) % before.clients().len()
}

/// The ordered pool of dispatchable clients and its rotation cursor.
pub struct ClientGroup {
    clients: Vec<Client>,
    next_index: usize,
}

impl ClientGroup {
    pub closed spec fn clients(&self) -> Seq<Client> {
        self.clients@
    }

    pub closed spec fn cursor(&self) -> nat {
        self.next_index as nat
    }

    /// Orders are dense positions, and the cursor points at a client (or is
    /// zero when there is none).
    pub open spec fn wf(&self) -> bool {
        &&& forall|i: int| 0 <= i < self.clients().len() ==> #[trigger] self.clients()[i].order == i
        &&& (self.cursor() < self.clients().len() || (self.cursor() == 0 && self.clients().len()
            == 0))
    }

    /// Builds the registry from a snapshot: clients are sorted by `uses`, ties
    /// by their recorded `order` (stably), and each `order` is then set to the
    /// client's position.
    pub fn load(snapshot: Vec<Client>) -> (r: ClientGroup)
        ensures
            r.wf(),
            r.cursor() == 0,
            exists|t: Seq<Client>| is_priority_sort_of(snapshot@, t) && r.clients() == renumbered(t),
    {
        let sorted = sort_by_priority(snapshot);
        let mut clients: Vec<Client> = Vec::new();
        let n = sorted.len();
        let mut i: usize = 0;
        while i < n
            invariant
                n == sorted.len(),
                i <= n,
                clients@ == renumbered(sorted@).take(i as int),
            decreases n - i,
        {
            let c = &sorted[i];
            clients.push(Client { id: c.id, name: c.name.clone(), uses: c.uses, order: i });
            assert(clients@ =~= renumbered(sorted@).take(i + 1));
            i = i + 1;
        }
        assert(clients@ =~= renumbered(sorted@));
        ClientGroup { clients, next_index: 0 }
    }

    /// Whether some client carries identifier `id`.
    pub fn contains(&self, id: u128) -> (r: bool)
        ensures
            r == exists|i: int| 0 <= i < self.clients().len() && (#[trigger] self.clients()[i]).id == id,
    {
        let mut i: usize = 0;
        while i < self.clients.len()
            invariant
                i <= self.clients@.len(),
                forall|j: int| 0 <= j < i ==> (#[trigger] self.clients@[j]).id != id,
            decreases self.clients@.len() - i,
        {
            if self.clients[i].id == id {
                assert(self.clients()[i as int].id == id);
                return true;
            }
            i = i + 1;
        }
        false
    }

    /// A value copy of the first client with identifier `id`, if there is one.
    pub fn get_copy(&self, id: u128) -> (r: Option<Client>)
        ensures
            r == match first_with_id(self.clients(), id) {
                Some(i) => Some(self.clients()[i]),
                None => None::<Client>,
            },
            r is None ==> forall|i: int|
                0 <= i < self.clients().len() ==> (#[trigger] self.clients()[i]).id != id,
    {
        let mut i: usize = 0;
        while i < self.clients.len()
            invariant
                i <= self.clients@.len(),
                forall|j: int| 0 <= j < i ==> (#[trigger] self.clients@[j]).id != id,
            decreases self.clients@.len() - i,
        {
            if self.clients[i].id == id {
                let ghost s = self.clients@;
                proof {
                    assert(s[i as int].id == id);
                    assert(is_first_with_id(s, id, i as int));
                    let w = first_with_id(s, id)->0;
                    if w < i {
                        assert(s[w].id != id);
                    } else if w > i {
                        assert(s[i as int].id != id);
                    }
                }
                return Some(self.clients[i].copy());
            }
            i = i + 1;
        }
        None
    }

    /// Inserts `client` at position `min(client.order, len)`; it and every
    /// client after it take their new position as `order`.
    pub fn add(&mut self, client: Client)
        requires
            old(self).wf(),
        ensures
            final(self).wf(),
            final(self).cursor() == old(self).cursor(),
            final(self).clients() == renumbered(
                old(self).clients().insert(
                    if client.order < old(self).clients().len() {
                        client.order as int
                    } else {
                        old(self).clients().len() as int
                    },
                    client,
                ),
            ),
    {
        let index = if client.order < self.clients.len() {
            client.order
        } else {
            self.clients.len()
        };
        let ghost inserted = self.clients@.insert(index as int, client);
        self.clients.insert(index, client);
        assert forall|j: int| 0 <= j < index implies #[trigger] self.clients@[j] == renumbered(
            inserted,
        )[j] by {
            assert(old(self).clients@[j].order == j);
        }
        let n = self.clients.len();
        let mut i: usize = index;
        while i < n
            invariant
                n == self.clients@.len(),
                n == inserted.len(),
                index <= i <= n,
                self.next_index == old(self).next_index,
                forall|j: int| 0 <= j < i ==> #[trigger] self.clients@[j] == renumbered(inserted)[j],
                forall|j: int| i <= j < n ==> #[trigger] self.clients@[j] == inserted[j],
            decreases n - i,
        {
            let c = &self.clients[i];
            let renamed = Client { id: c.id, name: c.name.clone(), uses: c.uses, order: i };
            self.clients.set(i, renamed);
            i = i + 1;
        }
        assert(self.clients@ =~= renumbered(inserted));
    }

    pub fn len(&self) -> (r: usize)
        ensures
            r == self.clients().len(),
    {
        self.clients.len()
    }

    /// Returns the client under the cursor and moves the cursor one step on,
    /// back to the first client after the last.
    pub fn next(&mut self) -> (r: &Client)
        requires
            old(self).wf(),
            old(self).clients().len() > 0,
        ensures
            final(self).wf(),
            is_next(*old(self), *final(self), *r),
    {
        let i = self.next_index;
        proof {
            let n = self.clients@.len() as int;
            if i + 1 < n {
                lemma_small_mod((i + 1) as nat, n as nat);
            } else {
                lemma_mod_self_0(n);
            }
        }
        if self.next_index < self.clients.len() - 1 {
            self.next_index = self.next_index + 1;
        } else {
            self.next_index = 0;
        }
        &self.clients[i]
    }
}

/// Round robin: in a run of `next` calls on a well-formed, non-empty
/// registry, the i-th call (counting from zero) returns the client `i`
/// places after the starting cursor, wrapping around, and no call changes
/// the clients. From a freshly loaded registry (cursor 0) the k-th call,
/// counting from one, returns client `(k - 1) mod n`.
pub proof fn next_round_robin(states: Seq<ClientGroup>, results: Seq<Client>)
    requires
        states.len() == results.len() + 1,
        states[0].wf(),
        states[0].clients().len() > 0,
        forall|i: int| 0 <= i < results.len() ==> is_next(#[trigger] states[i], states[i + 1], results[i]),
    ensures
        forall|i: int| 0 <= i <= results.len() ==> (#[trigger] states[i]).clients() == states[0].clients(),
        forall|i: int|
            0 <= i < results.len() ==> #[trigger] results[i] == states[0].clients()[(states[0].cursor() + i)
                % (states[0].clients().len() as int)],
{
    assert forall|i: int| 0 <= i <= results.len() implies (#[trigger] states[i]).clients()
        == states[0].clients() by {
        lemma_cursor_after_next(states, results, i);
    }
    assert forall|i: int| 0 <= i < results.len() implies #[trigger] results[i] == states[0].clients()[(
    states[0].cursor() + i) % (states[0].clients().len() as int)] by {
        lemma_cursor_after_next(states, results, i);
        assert(is_next(states[i], states[i + 1], results[i]));
    }
}

proof fn lemma_cursor_after_next(states: Seq<ClientGroup>, results: Seq<Client>, i: int)
    requires
        states.len() == results.len() + 1,
        states[0].wf(),
        states[0].clients().len() > 0,
        forall|j: int| 0 <= j < results.len() ==> is_next(#[trigger] states[j], states[j + 1], results[j]),
        0 <= i <= results.len(),
    ensures
        states[i].clients() == states[0].clients(),
        states[i].cursor() == (states[0].cursor() + i) % (states[0].clients().len() as int),
    decreases i,
{
    let n = states[0].clients().len() as int;
    let c0 = states[0].cursor() as int;
    if i == 0 {
        lemma_small_mod(c0 as nat, n as nat);
    } else {
        lemma_cursor_after_next(states, results, i - 1);
        assert(is_next(states[i - 1], states[i], results[i - 1]));
        lemma_add_mod_noop(c0 + i - 1, 1, n);
        if n == 1 {
            lemma_mod_self_0(1);
        } else {
            lemma_small_mod(1, n as nat);
        }
    }
}

} // verus!
