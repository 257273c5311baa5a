//! Sub-commands of the scantool information request.
use vstd::prelude::*;

verus! {

pub const HARDWARE_VERSION: u8 = 0x00;

pub const FIRMWARE_VERSION: u8 = 0x01;

pub const MODEL: u8 = 0x02;

pub const NAME: u8 = 0x03;

pub const SERIAL: u8 = 0x04;

pub const OBD_PROTOCOLS: u8 = 0x05;

pub const PC_PROTOCOLS: u8 = 0x06;

} // verus!
