//! Xash3D IDEM demo container constants and layout.
//!
//! `CL_ParseDemoHeader` rejects a file outright when `id`, `dem_protocol`
//! or `net_protocol` disagree with these.
use vstd::prelude::*;

verus! {

/// `(('M'<<24)+('E'<<16)+('D'<<8)+'I')`, little-endian, so the first four
/// bytes on disk read `IDEM`.
pub const IDEMOHEADER: i32 = 0x4D45_4449;

/// Xash demo container revision; anything else is rejected.
pub const DEMO_PROTOCOL: i32 = 3;

pub const PROTOCOL_GOLDSRC_VERSION: i32 = 48;

/// `PROTOCOL_GOLDSRC_VERSION | BIT(7)` = 176: with this in `net_protocol`
/// the engine decodes the contained messages with GoldSrc protocol-48 rules.
pub const PROTOCOL_GOLDSRC_VERSION_DEMO: i32 = PROTOCOL_GOLDSRC_VERSION | (1 << 7);

/// The engine aborts playback on a network message longer than this.
pub const MAX_INIT_MSG: u32 = 0x8000;

// demo commands
pub const DEM_NOREWIND: u8 = 1;

pub const DEM_READ: u8 = 2;

pub const DEM_JUMPTIME: u8 = 3;

pub const DEM_USERDATA: u8 = 4;

pub const DEM_USERCMD: u8 = 5;

pub const DEM_STOP: u8 = 6;

// directory entry types
pub const DEMO_STARTUP: i32 = 0;

pub const DEMO_NORMAL: i32 = 1;

/// i32 id, i32 dem_protocol, i32 net_protocol, 64-bit float host_fps,
/// char mapname\[64\], char comment\[64\], char gamedir\[64\], i32
/// directory_offset, packed with no padding.
pub const HEADER_SIZE: usize = 216;

/// i32 entrytype, 32-bit float playback_time, i32 playback_frames, i32
/// offset, i32 length, i32 flags, char description\[64\].
pub const ENTRY_SIZE: usize = 88;

pub const FIELD_WIDTH: usize = 64;

/// timestamp(4) + RefParams(232) + UserCmd(52) + MoveVars(132) + view(12) +
/// viewmodel(4): the per-frame header of a GoldSrc network message frame.
pub const GOLDSRC_DEMOINFO_SIZE: usize = 436;

/// The bits of the 64-bit float 100.0, the `host_fps` written by default:
/// the engine clamps it, and 0 would play back in slow motion.
pub const DEFAULT_HOST_FPS_BITS: u64 = 0x4059_0000_0000_0000;

} // verus!
