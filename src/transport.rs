//! The command protocol of the store service: command words written to the
//! SMI port, and the result codes that come back.

use vstd::prelude::*;

verus! {

/// The I/O port whose write raises the system management interrupt.
pub const APM_CNT_PORT: u16 = 0xB2;

/// The command byte that selects the store service.
pub const CMD_SMMSTORE: u8 = 0xED;

/// Whole-buffer protocol: erase the region.
pub const SMMSTORE_CLEAR: u8 = 1;

/// Whole-buffer protocol: copy the region into a buffer.
pub const SMMSTORE_READ: u8 = 2;

/// Whole-buffer protocol: append one record at the end of the log.
pub const SMMSTORE_APPEND: u8 = 3;

/// Block protocol: register the communication buffer.
pub const SMMSTORE_CMD_INIT: u8 = 4;

/// Block protocol: read from one block into the communication buffer.
pub const SMMSTORE_CMD_RAW_READ: u8 = 5;

/// Block protocol: write the communication buffer into one block.
pub const SMMSTORE_CMD_RAW_WRITE: u8 = 6;

/// Block protocol: erase one block.
pub const SMMSTORE_CMD_RAW_CLEAR: u8 = 7;

/// Blocks of the block protocol are at least 64 KiB; the firmware tables
/// give the actual size.
pub const SMM_DEFAULT_BLOCK_SIZE: u32 = 64 * 1024;

/// A failure reported by the store service.
#[derive(Clone, Copy, Debug, PartialEq, Eq, Structural)]
pub enum TransportError {
    /// Result code 1.
    DeviceError,
    /// Result code 2.
    Unsupported,
    /// Any other non-zero result code.
    Unknown,
}

/// The value for the command register: `subcmd` in the second byte, `cmd`
/// in the first.
pub fn command_word(cmd: u8, subcmd: u8) -> (r: u32)
    ensures
        r == subcmd * 256 + cmd,
{
    (subcmd as u32) * 256 + (cmd as u32)
}

/// What a result code of the store service means.
pub fn command_result(code: u32) -> (r: Result<(), TransportError>)
    ensures
        code == 0 ==> r == Ok::<(), TransportError>(()),
        code == 1 ==> r == Err::<(), TransportError>(TransportError::DeviceError),
        code == 2 ==> r == Err::<(), TransportError>(TransportError::Unsupported),
        code > 2 ==> r == Err::<(), TransportError>(TransportError::Unknown),
{
    match code {
        0 => Ok(()),
        1 => Err(TransportError::DeviceError),
        2 => Err(TransportError::Unsupported),
        _ => Err(TransportError::Unknown),
    }
}

/// Address translation for a context without paging: every physical address
/// is mapped to itself.
pub struct PhysicalMapper;

impl PhysicalMapper {
    /// The virtual address of `address`, which is `address` itself.
    pub fn map_aligned(&mut self, address: usize, _size: usize) -> (r: usize)
        ensures
            r == address,
    {
        address
    }

    /// The size of a page.
    pub fn page_size(&self) -> (r: usize)
        ensures
            r == 4096,
    {
        4096
    }
}

} // verus!
