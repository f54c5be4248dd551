//! Byte-level helpers for a database client's host-language bindings:
//! transcoding of fixed-width code-unit strings (1, 2 or 4 bytes per unit)
//! to UTF-8 in an append-only arena whose bytes never move, slot numbers
//! and reconnection warnings for open connections, and decimal limbs to
//! canonical 256-bit big-endian two's complement.

pub mod utf8;
pub mod arena;
pub mod converter;
pub mod active_senders;
pub mod decimal;
