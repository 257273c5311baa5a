//! Command bytes (request); the reply is `cmd + 0x10`.
use vstd::prelude::*;

verus! {

pub const RX_NORMAL: u8 = 0x08;

pub const RX_LARGE: u8 = 0x09;

pub const TX_NORMAL: u8 = 0x10;

pub const TX_LARGE: u8 = 0x11;

pub const INFO: u8 = 0x22;

pub const SETTINGS: u8 = 0x24;

pub const RESET: u8 = 0x25;

pub const PROTOCOL: u8 = 0x31;

pub const CAN: u8 = 0x34;

pub const ERROR: u8 = 0x7F;

} // verus!
