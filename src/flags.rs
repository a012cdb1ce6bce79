//! Code signature and executable segment flag sets, as bit sets.
use vstd::prelude::*;

verus! {

/// Code signature flags of a Code Directory.
pub type CodeSignatureFlags = u32;

/// Executable segment flags of a Code Directory.
pub type ExecutableSegmentFlags = u64;

pub const HOST: u32 = 0x0001;

pub const ADHOC: u32 = 0x0002;

pub const FORCE_HARD: u32 = 0x0100;

pub const FORCE_KILL: u32 = 0x0200;

pub const FORCE_EXPIRATION: u32 = 0x0400;

pub const RESTRICT: u32 = 0x0800;

pub const ENFORCEMENT: u32 = 0x1000;

pub const LIBRARY_VALIDATION: u32 = 0x2000;

pub const RUNTIME: u32 = 0x10000;

pub const LINKER_SIGNED: u32 = 0x20000;

pub const EXEC_SEG_MAIN_BINARY: u64 = 0x1;

pub const EXEC_SEG_ALLOW_UNSIGNED: u64 = 0x10;

pub const EXEC_SEG_DEBUGGER: u64 = 0x20;

pub const EXEC_SEG_JIT: u64 = 0x40;

pub const EXEC_SEG_SKIP_LIBRARY_VALIDATION: u64 = 0x80;

pub const EXEC_SEG_CAN_LOAD_CD_HASH: u64 = 0x100;

pub const EXEC_SEG_CAN_EXEC_CD_HASH: u64 = 0x200;

} // verus!
