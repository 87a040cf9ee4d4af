use vstd::prelude::*;

verus! {

/// An instant: whole seconds since the Unix epoch, and the nanoseconds
/// past that second.
#[derive(Clone, Copy, Debug, PartialEq, Eq, Structural)]
pub struct Timestamp {
    pub secs: i64,
    pub nanos: u32,
}

/// A request for a room over a span of time.
pub struct Booking {
    pub id: u128,
    pub start: Timestamp,
    pub end: Timestamp,
    /// Room names, the most preferred first; later ones are fallbacks.
    pub rooms: Vec<String>,
}

/// What a booking holds, as mathematical values.
pub struct BookingView {
    pub id: u128,
    pub start: Timestamp,
    pub end: Timestamp,
    pub rooms: Seq<String>,
}

impl View for Booking {
    type V = BookingView;

    open spec fn view(&self) -> BookingView {
        BookingView { id: self.id, start: self.start, end: self.end, rooms: self.rooms@ }
    }
}

impl Booking {
    /// A value copy of this booking.
    pub fn copy(&self) -> (r: Booking)
        ensures
            r@ == self@,
    {
        let mut rooms: Vec<String> = Vec::new();
        let mut i: usize = 0;
        while i < self.rooms.len()
            invariant
                i <= self.rooms@.len(),
                rooms@ == self.rooms@.take(i as int),
            decreases self.rooms@.len() - i,
        {
            rooms.push(self.rooms[i].clone());
            assert(rooms@ =~= self.rooms@.take(i + 1));
            i = i + 1;
        }
        assert(rooms@ =~= self.rooms@);
        Booking { id: self.id, start: self.start, end: self.end, rooms }
    }
}

} // verus!
