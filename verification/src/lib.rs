//! The pieces of a serial link that carries packets in frames, in the
//! style of HDLC as PPP uses it.
//!
//! Packets travel over a byte stream between `0x7e` flag bytes; a flag or an
//! escape byte inside a packet is sent as `0x7d` followed by the byte with
//! bit 5 flipped.
//!
//! - [`hdlc`] holds the streaming [`hdlc::Framer`], which is fed one byte at
//!   a time and hands out the packets.
//! - [`hdlc_ffi`] encodes, decodes and searches whole buffers.
//! - [`stuffing`] says what all of them compute, as functions on sequences.
//! - [`crc`] is the 16-bit frame check sequence.
//! - [`gray_code`] builds and tests the tables of a single-track Gray code,
//!   the position code of a rotary encoder.
//! - [`clock`] reads the time for time stamps.
//!
//! The executable functions are verified against the definitions that
//! stand beside them; what is taken on trust of other crates and of the
//! standard library is marked where it stands.

pub mod clock;
pub mod crc;
pub mod gray_code;
pub mod hdlc;
pub mod hdlc_ffi;
pub mod stuffing;
