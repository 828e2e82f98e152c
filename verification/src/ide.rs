//! ATA (PIO) driver logic. The port reads and writes themselves are a
//! hardware effect; everything the driver decides — channel port bases,
//! IDENTIFY parsing, register programming, LBA28/LBA48 selection, batching,
//! status and error-code classification — is verified here, and transfers
//! are verified against an in-memory model of each drive's sectors.

use vstd::prelude::*;

verus! {

pub const SECTOR_SIZE: usize = 512;

pub const MAX_SECTORS_PER_TRANSFER: usize = 128;

pub const ATA_SR_BSY: u8 = 0x80;

pub const ATA_SR_DF: u8 = 0x20;

pub const ATA_SR_DRQ: u8 = 0x08;

pub const ATA_SR_ERR: u8 = 0x01;

pub const ATA_CMD_READ_PIO: u8 = 0x20;

pub const ATA_CMD_READ_PIO_EXT: u8 = 0x24;

pub const ATA_CMD_WRITE_PIO: u8 = 0x30;

pub const ATA_CMD_WRITE_PIO_EXT: u8 = 0x34;

pub const ATA_REG_SECCOUNT0: u8 = 0x02;

pub const ATA_REG_LBA0: u8 = 0x03;

pub const ATA_REG_LBA1: u8 = 0x04;

pub const ATA_REG_LBA2: u8 = 0x05;

pub const ATA_REG_HDDEVSEL: u8 = 0x06;

pub const ATA_REG_COMMAND: u8 = 0x07;

pub const ATA_REG_SECCOUNT1: u8 = 0x08;

pub const ATA_REG_LBA3: u8 = 0x09;

pub const ATA_REG_LBA4: u8 = 0x0A;

pub const ATA_REG_LBA5: u8 = 0x0B;

/// Command and control port bases of one ATA channel, with the shadow of
/// the interrupt-disable bit.
pub struct IDEChannelRegisters {
    pub base: u16,
    pub ctrl: u16,
    pub bmide: u16,
    pub nien: u8,
}

/// One slot of the four-entry device table filled by probing.
pub struct IdeDevice {
    pub reserved: u8,
    pub channel: u8,
    pub drive: u8,
    pub device_type: u16,
    pub signature: u16,
    pub capabilities: u16,
    pub command_sets: u32,
    pub size: u64,
    pub model: Vec<u8>,
}

/// A probed drive together with the model of its platters: one byte string,
/// 512 bytes per sector.
pub struct IdeDrive {
    pub info: IdeDevice,
    pub contents: Vec<u8>,
}

/// The two channels and four drive positions of the legacy ATA layout.
pub struct IdeController {
    pub channels: Vec<IDEChannelRegisters>,
    pub devices: Vec<IdeDrive>,
    pub irq_invoked: u8,
}

pub open spec fn drive_wf(d: IdeDrive) -> bool {
    d.info.reserved != 0 ==> d.contents@.len() == d.info.size * SECTOR_SIZE
}

pub open spec fn controller_wf(c: IdeController) -> bool {
    &&& c.channels@.len() == 2
    &&& c.devices@.len() == 4
    &&& forall|i: int| 0 <= i < 4 ==> drive_wf(#[trigger] c.devices@[i])
}

/// Port bases of one channel: the BAR value with its low two bits cleared,
/// with the canonical legacy fallback (0x1F0/0x3F6 primary, 0x170/0x376
/// secondary, told apart by the bus-master base) when the BAR is zero.
pub fn ide_init_channel(bar_base: u8, bar_ctrl: u8, bmide: u16) -> (r: IDEChannelRegisters)
    ensures
        r.base == (bar_base & 0xFC) as u16 + (if bar_base == 0 {
            (if bmide == 0 {
                0x1F0u16
            } else {
                0x170u16
            })
        } else {
            0u16
        }),
        r.ctrl == (bar_ctrl & 0xFC) as u16 + (if bar_ctrl == 0 {
            (if bmide == 0 {
                0x3F6u16
            } else {
                0x376u16
            })
        } else {
            0u16
        }),
        r.bmide == bmide,
        r.nien == 0,
{
    let base: u16 = (bar_base & 0xFC) as u16 + (if bar_base == 0 {
        if bmide == 0 {
            0x1F0
        } else {
            0x170
        }
    } else {
        0
    });
    let ctrl: u16 = (bar_ctrl & 0xFC) as u16 + (if bar_ctrl == 0 {
        if bmide == 0 {
            0x3F6
        } else {
            0x376
        }
    } else {
        0
    });
    IDEChannelRegisters { base, ctrl, bmide, nien: 0 }
}

/// The command-set word of an IDENTIFY block (bytes 164..166); bit 10 set
/// means the drive speaks LBA48.
pub open spec fn spec_identify_command_sets(id: Seq<u8>) -> u16 {
    crate::elf::spec_u16_le(id, 164)
}

pub open spec fn spec_identify_lba48(id: Seq<u8>) -> bool {
    spec_identify_command_sets(id) & 0x400 != 0
}

/// Sector capacity reported by an IDENTIFY block: the 48-bit count at byte
/// 200 for an LBA48 drive, the 28-bit count at byte 120 otherwise.
pub open spec fn spec_identify_size(id: Seq<u8>) -> u64 {
    if spec_identify_lba48(id) {
        (crate::elf::spec_u32_le(id, 200) as u64 + crate::elf::spec_u16_le(id, 204) as u64
            * 0x100000000) as u64
    } else {
        crate::elf::spec_u32_le(id, 120) as u64
    }
}

/// Agreement of a device-table entry with the IDENTIFY block (or absence)
/// it was filled from.
pub open spec fn device_matches(
    dev: IdeDevice,
    channel: u8,
    drive: u8,
    identify: Option<Seq<u8>>,
) -> bool {
    &&& dev.channel == channel
    &&& dev.drive == drive
    &&& match identify {
        Option::Some(id) => {
            &&& dev.reserved == 1
            &&& dev.device_type == 0
            &&& dev.command_sets == spec_identify_command_sets(id)
            &&& dev.size == spec_identify_size(id)
            &&& dev.model@.len() == 41
            &&& dev.model@[40] == 0u8
            &&& forall|m: int| 0 <= m < 40 ==> dev.model@[m] == id[54 + m]
        },
        Option::None => dev.reserved == 0,
    }
}

/// Fill one device-table slot from the 512-byte IDENTIFY response the
/// drive gave, or mark the slot absent when the probe saw nothing.
pub fn ide_detect_device(channel: u8, drive: u8, identify: Option<&Vec<u8>>) -> (dev: IdeDevice)
    requires
        identify matches Option::Some(id) ==> id@.len() == 512,
    ensures
        device_matches(
            dev,
            channel,
            drive,
            match identify {
                Option::Some(id) => Option::Some(id@),
                Option::None => Option::None,
            },
        ),
{
    let mut dev = IdeDevice {
        reserved: 0,
        channel,
        drive,
        device_type: 0,
        signature: 0,
        capabilities: 0,
        command_sets: 0,
        size: 0,
        model: Vec::new(),
    };
    match identify {
        Option::None => dev,
        Option::Some(buf) => {
            let mut model: Vec<u8> = Vec::new();
            let mut m: usize = 0;
            while m < 40
                invariant
                    m <= 40,
                    buf@.len() == 512,
                    model@.len() == m,
                    forall|j: int| 0 <= j < m ==> model@[j] == buf@[54 + j],
                decreases 40 - m,
            {
                model.push(buf[54 + m]);
                m += 1;
            }
            model.push(0);
            let command_sets = crate::elf::read_u16_le(buf.as_slice(), 164);
            let lba48 = command_sets & 0x400 != 0;
            let size: u64 = if lba48 {
                crate::elf::read_u32_le(buf.as_slice(), 200) as u64 + crate::elf::read_u16_le(
                    buf.as_slice(),
                    204,
                ) as u64 * 0x100000000
            } else {
                crate::elf::read_u32_le(buf.as_slice(), 120) as u64
            };
            dev.reserved = 1;
            dev.device_type = 0;
            dev.command_sets = command_sets as u32;
            dev.size = size;
            dev.model = model;
            dev
        },
    }
}

/// A batch needs the extended (48-bit) command set when it reaches at or
/// past sector 2^28, or asks for more than 256 sectors at once.
pub open spec fn spec_uses_lba48(lba: u64, sectors: nat) -> bool {
    lba + sectors > 0x10000000 || sectors > 256
}

pub fn transfer_uses_lba48(lba: u64, sectors: usize) -> (r: bool)
    ensures
        r == spec_uses_lba48(lba, sectors as nat),
{
    sectors > 256 || lba > 0x10000000 - sectors as u64
}

/// One register write of the transfer set-up sequence.
#[derive(Clone, Copy, PartialEq, Eq, Structural)]
pub struct RegWrite {
    pub reg: u8,
    pub value: u8,
}

/// The exact register-write sequence that programs one transfer batch:
/// device select, sector count and LBA bytes (high bytes first for LBA48),
/// then the command byte.
pub fn ide_configure_transfer(
    channel: u8,
    drive_bit: u8,
    lba: u64,
    sectors: usize,
    use_lba48: bool,
    is_write: bool,
) -> (w: Vec<RegWrite>)
    requires
        drive_bit < 2,
    ensures
        use_lba48 ==> w@ =~= seq![
            RegWrite { reg: ATA_REG_HDDEVSEL, value: (0x40 | (drive_bit << 4)) as u8 },
            RegWrite { reg: ATA_REG_SECCOUNT1, value: ((sectors >> 8) & 0xFF) as u8 },
            RegWrite { reg: ATA_REG_LBA3, value: ((lba >> 24) & 0xFF) as u8 },
            RegWrite { reg: ATA_REG_LBA4, value: ((lba >> 32) & 0xFF) as u8 },
            RegWrite { reg: ATA_REG_LBA5, value: ((lba >> 40) & 0xFF) as u8 },
            RegWrite { reg: ATA_REG_SECCOUNT0, value: (sectors & 0xFF) as u8 },
            RegWrite { reg: ATA_REG_LBA0, value: (lba & 0xFF) as u8 },
            RegWrite { reg: ATA_REG_LBA1, value: ((lba >> 8) & 0xFF) as u8 },
            RegWrite { reg: ATA_REG_LBA2, value: ((lba >> 16) & 0xFF) as u8 },
            RegWrite {
                reg: ATA_REG_COMMAND,
                value: if is_write {
                    ATA_CMD_WRITE_PIO_EXT
                } else {
                    ATA_CMD_READ_PIO_EXT
                },
            },
        ],
        !use_lba48 ==> w@ =~= seq![
            RegWrite {
                reg: ATA_REG_HDDEVSEL,
                value: (0xE0 | (drive_bit << 4) | (((lba >> 24) & 0x0F) as u8)) as u8,
            },
            RegWrite { reg: ATA_REG_SECCOUNT0, value: (sectors & 0xFF) as u8 },
            RegWrite { reg: ATA_REG_LBA0, value: (lba & 0xFF) as u8 },
            RegWrite { reg: ATA_REG_LBA1, value: ((lba >> 8) & 0xFF) as u8 },
            RegWrite { reg: ATA_REG_LBA2, value: ((lba >> 16) & 0xFF) as u8 },
            RegWrite {
                reg: ATA_REG_COMMAND,
                value: if is_write {
                    ATA_CMD_WRITE_PIO
                } else {
                    ATA_CMD_READ_PIO
                },
            },
        ],
{
    let mut w: Vec<RegWrite> = Vec::new();
    if use_lba48 {
        proof {
            let d = drive_bit;
            assert(d < 2 ==> (0x40u8 | (d << 4)) < 256) by (bit_vector);
        }
        w.push(RegWrite { reg: ATA_REG_HDDEVSEL, value: 0x40 | (drive_bit << 4) });
        w.push(RegWrite { reg: ATA_REG_SECCOUNT1, value: ((sectors >> 8) & 0xFF) as u8 });
        w.push(RegWrite { reg: ATA_REG_LBA3, value: ((lba >> 24) & 0xFF) as u8 });
        w.push(RegWrite { reg: ATA_REG_LBA4, value: ((lba >> 32) & 0xFF) as u8 });
        w.push(RegWrite { reg: ATA_REG_LBA5, value: ((lba >> 40) & 0xFF) as u8 });
        w.push(RegWrite { reg: ATA_REG_SECCOUNT0, value: (sectors & 0xFF) as u8 });
        w.push(RegWrite { reg: ATA_REG_LBA0, value: (lba & 0xFF) as u8 });
        w.push(RegWrite { reg: ATA_REG_LBA1, value: ((lba >> 8) & 0xFF) as u8 });
        w.push(RegWrite { reg: ATA_REG_LBA2, value: ((lba >> 16) & 0xFF) as u8 });
        w.push(
            RegWrite {
                reg: ATA_REG_COMMAND,
                value: if is_write {
                    ATA_CMD_WRITE_PIO_EXT
                } else {
                    ATA_CMD_READ_PIO_EXT
                },
            },
        );
    } else {
        w.push(
            RegWrite {
                reg: ATA_REG_HDDEVSEL,
                value: 0xE0 | (drive_bit << 4) | (((lba >> 24) & 0x0F) as u8),
            },
        );
        w.push(RegWrite { reg: ATA_REG_SECCOUNT0, value: (sectors & 0xFF) as u8 });
        w.push(RegWrite { reg: ATA_REG_LBA0, value: (lba & 0xFF) as u8 });
        w.push(RegWrite { reg: ATA_REG_LBA1, value: ((lba >> 8) & 0xFF) as u8 });
        w.push(RegWrite { reg: ATA_REG_LBA2, value: ((lba >> 16) & 0xFF) as u8 });
        w.push(
            RegWrite {
                reg: ATA_REG_COMMAND,
                value: if is_write {
                    ATA_CMD_WRITE_PIO
                } else {
                    ATA_CMD_READ_PIO
                },
            },
        );
    }
    w
}

/// Classification of a settled status byte, after the busy bit has cleared:
/// error bit 2, device fault 1, missing data-request 3, otherwise ready.
pub open spec fn spec_poll_code(status: u8, advanced_check: bool) -> u8 {
    if !advanced_check {
        0u8
    } else if status & ATA_SR_ERR != 0 {
        2u8
    } else if status & ATA_SR_DF != 0 {
        1u8
    } else if status & ATA_SR_DRQ == 0 {
        3u8
    } else {
        0u8
    }
}

pub fn ide_polling(status: u8, advanced_check: bool) -> (r: u8)
    ensures
        r == spec_poll_code(status, advanced_check),
{
    if advanced_check {
        if status & ATA_SR_ERR != 0 {
            return 2;
        }
        if status & ATA_SR_DF != 0 {
            return 1;
        }
        if status & ATA_SR_DRQ == 0 {
            return 3;
        }
    }
    0
}

/// The user-visible error code for a poll result, refined for poll code 2
/// by the drive's error register; each set bit overrides the previous one,
/// in the fixed order below.
pub open spec fn spec_error_code(err: u8, st: u8) -> u8 {
    if err == 0 {
        0u8
    } else if err == 1 {
        19u8
    } else if err == 2 {
        let e0: u8 = 2;
        let e1 = if st & 0x01u8 != 0 {
            7u8
        } else {
            e0
        };
        let e2 = if st & 0x02u8 != 0 {
            3u8
        } else {
            e1
        };
        let e3 = if st & 0x04u8 != 0 {
            20u8
        } else {
            e2
        };
        let e4 = if st & 0x08u8 != 0 {
            3u8
        } else {
            e3
        };
        let e5 = if st & 0x10u8 != 0 {
            21u8
        } else {
            e4
        };
        let e6 = if st & 0x20u8 != 0 {
            3u8
        } else {
            e5
        };
        let e7 = if st & 0x40u8 != 0 {
            22u8
        } else {
            e6
        };
        if st & 0x80u8 != 0 {
            13u8
        } else {
            e7
        }
    } else if err == 3 {
        23u8
    } else if err == 4 {
        8u8
    } else {
        err
    }
}

pub fn ide_print_error(err: u8, st: u8) -> (r: u8)
    ensures
        r == spec_error_code(err, st),
{
    if err == 0 {
        return 0;
    }
    let mut code: u8 = err;
    if err == 1 {
        code = 19;
    } else if err == 2 {
        if st & 0x01 != 0 {
            code = 7;
        }
        if st & 0x02 != 0 {
            code = 3;
        }
        if st & 0x04 != 0 {
            code = 20;
        }
        if st & 0x08 != 0 {
            code = 3;
        }
        if st & 0x10 != 0 {
            code = 21;
        }
        if st & 0x20 != 0 {
            code = 3;
        }
        if st & 0x40 != 0 {
            code = 22;
        }
        if st & 0x80 != 0 {
            code = 13;
        }
    } else if err == 3 {
        code = 23;
    } else if err == 4 {
        code = 8;
    }
    code
}

/// Whether a drive's command-set word advertises LBA48.
pub open spec fn spec_drive_lba48(dev: IdeDevice) -> bool {
    dev.command_sets & 0x400 != 0
}

/// Outcome of a transfer of `total` sectors at `lba`: 1 when the slot holds
/// no drive, 20 (command aborted) when the extended command set is needed
/// but not spoken, 21 (sector id not found) when the range runs past the
/// drive's capacity, 0 otherwise.
pub open spec fn spec_transfer_status(dev: IdeDrive, lba: u64, total: nat) -> u8 {
    if dev.info.reserved == 0 {
        1u8
    } else if total == 0 {
        0u8
    } else if lba + total > 0x10000000 && !spec_drive_lba48(dev.info) {
        20u8
    } else if lba + total > dev.info.size {
        21u8
    } else {
        0u8
    }
}

/// Read `buffer.len() / 512` whole sectors starting at `lba` from drive
/// `drive` into the front of `buffer`; trailing bytes of a partial sector
/// stay untouched, as does the buffer on any error.
pub fn ide_read_sectors(ctrl: &IdeController, drive: usize, lba: u64, buffer: &mut Vec<u8>) -> (r:
    u8)
    requires
        controller_wf(*ctrl),
        drive < 4,
    ensures
        r == spec_transfer_status(ctrl.devices@[drive as int], lba, old(buffer)@.len() as nat
            / SECTOR_SIZE as nat),
        final(buffer)@.len() == old(buffer)@.len(),
        r != 0 ==> final(buffer)@ == old(buffer)@,
        r == 0 ==> {
            let total = old(buffer)@.len() as int / SECTOR_SIZE as int;
            let base = lba as int * SECTOR_SIZE as int;
            &&& forall|i: int|
                0 <= i < total * SECTOR_SIZE ==> final(buffer)@[i] == ctrl.devices@[
                    drive as int
                ].contents@[base + i]
            &&& forall|i: int|
                total * SECTOR_SIZE <= i < old(buffer)@.len() ==> final(buffer)@[i] == old(
                    buffer,
                )@[i]
        },
{
    let dev = &ctrl.devices[drive];
    if dev.info.reserved == 0 {
        return 1;
    }
    let total: usize = buffer.len() / SECTOR_SIZE;
    if total == 0 {
        return 0;
    }
    let needs_lba48 = lba >= 0x10000000 || total as u64 > 0x10000000 - lba;
    if needs_lba48 && dev.info.command_sets & 0x400 == 0 {
        return 20;
    }
    if lba >= dev.info.size || total as u64 > dev.info.size - lba {
        return 21;
    }
    let clen: usize = ctrl.devices[drive].contents.len();
    proof {
        assert(lba * SECTOR_SIZE + total * SECTOR_SIZE <= dev.info.size * SECTOR_SIZE) by (
        nonlinear_arith)
            requires
                lba as int + total as int <= dev.info.size,
                SECTOR_SIZE > 0,
        ;
        assert(total * SECTOR_SIZE <= buffer@.len()) by (nonlinear_arith)
            requires
                total == buffer@.len() as int / SECTOR_SIZE as int,
                SECTOR_SIZE > 0,
        ;
        assert(clen == dev.info.size * SECTOR_SIZE);
    }
    let base: usize = (lba as usize) * SECTOR_SIZE;
    let n: usize = total * SECTOR_SIZE;
    let mut i: usize = 0;
    while i < n
        invariant
            i <= n,
            n == (old(buffer)@.len() as int / SECTOR_SIZE as int) * SECTOR_SIZE,
            n <= buffer@.len(),
            base == lba * SECTOR_SIZE,
            base + n <= clen,
            clen == ctrl.devices@[drive as int].contents@.len(),
            drive < 4,
            controller_wf(*ctrl),
            buffer@.len() == old(buffer)@.len(),
            forall|j: int|
                0 <= j < i ==> buffer@[j] == ctrl.devices@[drive as int].contents@[base + j],
            forall|j: int| i <= j < buffer@.len() ==> buffer@[j] == old(buffer)@[j],
        decreases n - i,
    {
        let b = ctrl.devices[drive].contents[base + i];
        buffer[i] = b;
        i += 1;
    }
    0
}

/// Write `data` to drive `drive` starting at sector `lba`, padding the last
/// sector with zeros; `ceil(data.len() / 512)` sectors are written and
/// nothing else on the drive or the controller changes.
pub fn ide_write_sectors(ctrl: &mut IdeController, drive: usize, lba: u64, data: &Vec<u8>) -> (r:
    u8)
    requires
        controller_wf(*old(ctrl)),
        drive < 4,
        data@.len() + SECTOR_SIZE <= usize::MAX,
    ensures
        controller_wf(*final(ctrl)),
        r == spec_transfer_status(
            old(ctrl).devices@[drive as int],
            lba,
            ((data@.len() + SECTOR_SIZE - 1) as nat / SECTOR_SIZE as nat),
        ),
        final(ctrl).channels@ == old(ctrl).channels@,
        final(ctrl).irq_invoked == old(ctrl).irq_invoked,
        final(ctrl).devices@.len() == old(ctrl).devices@.len(),
        forall|d: int|
            0 <= d < 4 && d != drive ==> final(ctrl).devices@[d] == old(ctrl).devices@[d],
        final(ctrl).devices@[drive as int].info == old(ctrl).devices@[drive as int].info,
        r != 0 ==> final(ctrl).devices@[drive as int].contents@ == old(ctrl).devices@[
            drive as int
        ].contents@,
        r == 0 ==> {
            let total = (data@.len() + SECTOR_SIZE - 1) as int / SECTOR_SIZE as int;
            let base = lba as int * SECTOR_SIZE as int;
            let new_c = final(ctrl).devices@[drive as int].contents@;
            let old_c = old(ctrl).devices@[drive as int].contents@;
            &&& new_c.len() == old_c.len()
            &&& forall|i: int| 0 <= i < data@.len() ==> new_c[base + i] == data@[i]
            &&& forall|i: int|
                data@.len() <= i < total * SECTOR_SIZE ==> #[trigger] new_c[base + i] == 0u8
            &&& forall|i: int|
                0 <= i < old_c.len() && !(base <= i < base + total * SECTOR_SIZE) ==> new_c[i]
                    == old_c[i]
        },
{
    let present = ctrl.devices[drive].info.reserved != 0;
    if !present {
        return 1;
    }
    let data_len: usize = data.len();
    let total: usize = (data_len + SECTOR_SIZE - 1) / SECTOR_SIZE;
    if total == 0 {
        return 0;
    }
    let needs_lba48 = lba >= 0x10000000 || total as u64 > 0x10000000 - lba;
    let size: u64 = ctrl.devices[drive].info.size;
    let lba48_ok = ctrl.devices[drive].info.command_sets & 0x400 != 0;
    if needs_lba48 && !lba48_ok {
        return 20;
    }
    if lba >= size || total as u64 > size - lba {
        return 21;
    }
    let clen: usize = ctrl.devices[drive].contents.len();
    proof {
        assert(lba * SECTOR_SIZE + total * SECTOR_SIZE <= size * SECTOR_SIZE) by (nonlinear_arith)
            requires
                lba as int + total as int <= size,
                SECTOR_SIZE > 0,
        ;
        assert(data@.len() <= total * SECTOR_SIZE && total * SECTOR_SIZE < data@.len()
            + SECTOR_SIZE) by (nonlinear_arith)
            requires
                total == (data@.len() + SECTOR_SIZE - 1) as int / SECTOR_SIZE as int,
                SECTOR_SIZE > 0,
        ;
        assert(clen == size * SECTOR_SIZE);
    }
    let base: usize = (lba as usize) * SECTOR_SIZE;
    let n: usize = total * SECTOR_SIZE;
    let mut i: usize = 0;
    while i < n
        invariant
            i <= n,
            data_len == data@.len(),
            data@.len() <= n,
            base == lba * SECTOR_SIZE,
            drive < 4,
            base + n <= clen,
            clen == ctrl.devices@[drive as int].contents@.len(),
            ctrl.channels@ == old(ctrl).channels@,
            ctrl.irq_invoked == old(ctrl).irq_invoked,
            ctrl.devices@.len() == old(ctrl).devices@.len(),
            forall|d: int| 0 <= d < 4 && d != drive ==> ctrl.devices@[d] == old(ctrl).devices@[d],
            ctrl.devices@[drive as int].info == old(ctrl).devices@[drive as int].info,
            ctrl.devices@[drive as int].contents@.len() == old(ctrl).devices@[
                drive as int
            ].contents@.len(),
            controller_wf(*ctrl),
            forall|j: int|
                0 <= j < i && j < data@.len() ==> ctrl.devices@[drive as int].contents@[base + j]
                    == data@[j],
            forall|j: int|
                data@.len() <= j < i ==> #[trigger] ctrl.devices@[drive as int].contents@[base + j]
                    == 0u8,
            forall|j: int|
                0 <= j < ctrl.devices@[drive as int].contents@.len() && !(base <= j < base + i)
                    ==> ctrl.devices@[drive as int].contents@[j] == old(ctrl).devices@[
                    drive as int
                ].contents@[j],
        decreases n - i,
    {
        let b: u8 = if i < data_len {
            data[i]
        } else {
            0
        };
        ctrl.devices[drive].contents[base + i] = b;
        i += 1;
    }
    0
}

impl IdeController {
    /// The interrupt handler's visible effect: record that an IRQ arrived.
    /// Reading both status ports to quiet the drives is the hardware side.
    pub fn ide_irq_handler(&mut self)
        ensures
            final(self).irq_invoked == 1,
            final(self).channels@ == old(self).channels@,
            final(self).devices@ == old(self).devices@,
    {
        self.irq_invoked = 1;
    }
}

/// One probed position handed to `ide_init`: the IDENTIFY block the drive
/// answered with (absent when nothing answered) and the model of its
/// current contents.
pub struct IdeProbe {
    pub identify: Option<Vec<u8>>,
    pub contents: Vec<u8>,
}

pub open spec fn probe_wf(p: IdeProbe) -> bool {
    match p.identify {
        Option::Some(id) => {
            &&& id@.len() == 512
            &&& p.contents@.len() == spec_identify_size(id@) * SECTOR_SIZE
        },
        Option::None => true,
    }
}

/// Build the controller: compute both channels' port bases from the PCI
/// BARs and fill the four device-table slots from the probe results.
pub fn ide_init(bar0: u8, bar1: u8, bar2: u8, bar3: u8, bar4: u8, mut probes: Vec<IdeProbe>) -> (c:
    IdeController)
    requires
        probes@.len() == 4,
        forall|i: int| 0 <= i < 4 ==> probe_wf(#[trigger] probes@[i]),
    ensures
        controller_wf(c),
        c.irq_invoked == 0,
        forall|i: int|
            0 <= i < 4 ==> device_matches(
                (#[trigger] c.devices@[i]).info,
                (i / 2) as u8,
                (i % 2) as u8,
                match probes@[i].identify {
                    Option::Some(id) => Option::Some(id@),
                    Option::None => Option::None,
                },
            ),
        forall|i: int| 0 <= i < 4 ==> (#[trigger] c.devices@[i]).contents@
            == probes@[i].contents@,
{
    let ghost probes0 = probes@;
    let bm: u16 = (bar4 & 0xFC) as u16;
    let mut channels: Vec<IDEChannelRegisters> = Vec::new();
    channels.push(ide_init_channel(bar0, bar1, bm));
    channels.push(ide_init_channel(bar2, bar3, bm.wrapping_add(8)));
    let mut devices: Vec<IdeDrive> = Vec::new();
    let mut i: usize = 0;
    while i < 4
        invariant
            i <= 4,
            probes@.len() == 4 - i,
            devices@.len() == i,
            forall|k: int| 0 <= k < 4 - i ==> probes@[k] == probes0[k + i],
            forall|k: int| 0 <= k < 4 ==> probe_wf(#[trigger] probes0[k]),
            forall|k: int| 0 <= k < i ==> drive_wf(#[trigger] devices@[k]),
            forall|k: int|
                0 <= k < i ==> device_matches(
                    (#[trigger] devices@[k]).info,
                    (k / 2) as u8,
                    (k % 2) as u8,
                    match probes0[k].identify {
                        Option::Some(id) => Option::Some(id@),
                        Option::None => Option::None,
                    },
                ),
            forall|k: int| 0 <= k < i ==> (#[trigger] devices@[k]).contents@
                == probes0[k].contents@,
        decreases 4 - i,
    {
        let probe = probes.remove(0);
        let info = ide_detect_device((i / 2) as u8, (i % 2) as u8, probe.identify.as_ref());
        devices.push(IdeDrive { info, contents: probe.contents });
        i += 1;
    }
    IdeController { channels, devices, irq_invoked: 0 }
}

} // verus!
