//! Verified core of an OSC avatar-parameter bridge: the wire codec, the
//! parameter store, the listener lifecycle decisions, and the speech-command
//! registry and matcher. All I/O (sockets, files, the host shell) lives in
//! the surrounding application; this crate holds the logic and its proofs.
use vstd::prelude::*;

pub mod codec;
pub mod float_bits;
pub mod osc;
pub mod speech;
pub mod text;

verus! {

} // verus!
