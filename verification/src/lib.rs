//! A persistent bounded counter.
//!
//! The library keeps one piece of state: a signed eight-bit counter,
//! together with an auxiliary per-account record map and a local account
//! identifier. The counter is read with [`counter::Counter::get_num`],
//! moved with [`counter::Counter::increment`] and
//! [`counter::Counter::decrement`] under strict (trapping) overflow
//! rules, and cleared with [`counter::Counter::reset`]. The whole state
//! can be laid out as bytes and read back with the codec in [`codec`].

pub mod codec;
pub mod counter;
pub mod state;
