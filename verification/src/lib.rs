//! Bounded tracking of the heaviest keys of a stream.
//!
//! [`priority_queue::TopKQueue`] keeps at most a fixed number of items, each
//! with a count, and gives up the smallest one when a larger newcomer needs its
//! place. What it is and does is said in [`model`], what follows from that in
//! [`laws`], and what callers see of it, call by call, in [`behaviour`]. Items are
//! found again by a seeded SipHash-1-3 ([`sip::SipState`]);
//! [`small_key::SmallKey`] is the compact byte key that most callers store,
//! [`keys`] makes keys of numbers, arrays and tuples, and [`words`] splits text into
//! the words that a word counter tracks.
pub mod behaviour;
pub mod bytes;
pub mod calls;
pub mod debug;
pub mod heap_order;
pub mod keys;
pub mod laws;
pub mod model;
pub mod priority_queue;
pub mod realloc;
pub mod sip;
pub mod small_key;
pub mod table;
pub mod traits;
pub mod vectors;
pub mod words;
