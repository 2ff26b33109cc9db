//! In-flight publish tracking and wire framing for an MQTT client.
//!
//! * [`ds`] holds the two containers indexed by packet identifier: the slot
//!   table of unacknowledged publishes and the bitset of identifiers in use.
//! * [`codec`] frames packets on a byte buffer and enforces the size limits
//!   agreed with the peer.
//! * [`wire`] states the byte layout of the packets the codec carries and
//!   reads and writes it on plain byte sequences.
//! * [`packet`] and [`error`] hold the packets and the codec's errors.
//! * [`marks`] counts and lists the raised flags of a boolean sequence, the
//!   model that both containers share.
//! * [`bitset`] and [`buffer`] state what is taken on trust of the bit
//!   vector and the byte buffer that the library is built on.

pub mod bitset;
pub mod buffer;
pub mod codec;
pub mod ds;
pub mod error;
pub mod marks;
pub mod packet;
pub mod wire;
