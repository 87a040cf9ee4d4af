//! Booking dispatch core: a rotating registry of worker clients, a
//! coordinator that assigns and cancels bookings and records every event it
//! publishes, and the per-connection protocol state machine.

pub mod args;
pub mod booking;
pub mod clients;
pub mod coordinator;
pub mod discord;
mod hub;
pub mod protocol;
