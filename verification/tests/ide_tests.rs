use eucalypt_core::ide::{
    ide_configure_transfer, ide_detect_device, ide_init, ide_init_channel, ide_polling,
    ide_print_error, ide_read_sectors, ide_write_sectors, transfer_uses_lba48, IdeController,
    IdeProbe,
};

fn identify_block(sectors: u64, lba48: bool) -> Vec<u8> {
    let mut id = vec![0u8; 512];
    for (i, b) in b"MODEL OF A TEST DRIVE PADDED TO 40 BYTES".iter().enumerate() {
        id[54 + i] = *b;
    }
    if lba48 {
        id[165] = 0x04;
        id[200] = (sectors & 0xFF) as u8;
        id[201] = ((sectors >> 8) & 0xFF) as u8;
        id[202] = ((sectors >> 16) & 0xFF) as u8;
        id[203] = ((sectors >> 24) & 0xFF) as u8;
        id[204] = ((sectors >> 32) & 0xFF) as u8;
        id[205] = ((sectors >> 40) & 0xFF) as u8;
    } else {
        id[120] = (sectors & 0xFF) as u8;
        id[121] = ((sectors >> 8) & 0xFF) as u8;
        id[122] = ((sectors >> 16) & 0xFF) as u8;
        id[123] = ((sectors >> 24) & 0xFF) as u8;
    }
    id
}

fn small_controller(sectors: u64) -> IdeController {
    let probes = vec![
        IdeProbe {
            identify: Some(identify_block(sectors, false)),
            contents: vec![0u8; (sectors * 512) as usize],
        },
        IdeProbe { identify: None, contents: Vec::new() },
        IdeProbe { identify: None, contents: Vec::new() },
        IdeProbe { identify: None, contents: Vec::new() },
    ];
    ide_init(0, 0, 0, 0, 0, probes)
}

#[test]
fn channel_port_fallbacks() {
    let primary = ide_init_channel(0, 0, 0);
    assert_eq!(primary.base, 0x1F0);
    assert_eq!(primary.ctrl, 0x3F6);
    assert_eq!(primary.nien, 0);
    let secondary = ide_init_channel(0, 0, 8);
    assert_eq!(secondary.base, 0x170);
    assert_eq!(secondary.ctrl, 0x376);
    let explicit = ide_init_channel(0xF3, 0x77, 0);
    assert_eq!(explicit.base, 0xF0);
    assert_eq!(explicit.ctrl, 0x74);
}

#[test]
fn identify_parsing() {
    let id = identify_block(0x12345, false);
    let dev = ide_detect_device(0, 1, Some(&id));
    assert_eq!(dev.reserved, 1);
    assert_eq!(dev.channel, 0);
    assert_eq!(dev.drive, 1);
    assert_eq!(dev.size, 0x12345);
    assert_eq!(dev.model.len(), 41);
    assert_eq!(&dev.model[0..5], b"MODEL");
    assert_eq!(dev.model[40], 0);

    let id48 = identify_block(0x11_0000_0000, true);
    let dev48 = ide_detect_device(1, 0, Some(&id48));
    assert_eq!(dev48.size, 0x11_0000_0000);
    assert_eq!(dev48.command_sets & 0x400, 0x400);

    let absent = ide_detect_device(1, 1, None);
    assert_eq!(absent.reserved, 0);
}

#[test]
fn write_then_read_round_trip() {
    let mut ctrl = small_controller(64);
    let data: Vec<u8> = (0..3 * 512u32).map(|i| (i % 251) as u8).collect();
    assert_eq!(ide_write_sectors(&mut ctrl, 0, 5, &data), 0);
    let mut buf = vec![0u8; 3 * 512];
    assert_eq!(ide_read_sectors(&ctrl, 0, 5, &mut buf), 0);
    assert_eq!(buf, data);
}

#[test]
fn partial_sector_write_pads_with_zeros() {
    let mut ctrl = small_controller(16);
    let data: Vec<u8> = vec![0xAB; 700];
    assert_eq!(ide_write_sectors(&mut ctrl, 0, 2, &data), 0);
    let mut buf = vec![0u8; 1024];
    assert_eq!(ide_read_sectors(&ctrl, 0, 2, &mut buf), 0);
    assert_eq!(&buf[..700], &data[..]);
    assert!(buf[700..].iter().all(|&b| b == 0));
}

#[test]
fn transfer_status_codes() {
    let mut ctrl = small_controller(16);
    let sector = vec![1u8; 512];
    // no drive in the slot
    assert_eq!(ide_write_sectors(&mut ctrl, 1, 0, &sector), 1);
    let mut buf = vec![0u8; 512];
    assert_eq!(ide_read_sectors(&ctrl, 1, 0, &mut buf), 1);
    // past the drive's capacity: sector id not found
    assert_eq!(ide_write_sectors(&mut ctrl, 0, 16, &sector), 21);
    assert_eq!(ide_read_sectors(&ctrl, 0, 99, &mut buf), 21);
    // needs the extended command set on a drive without it: aborted
    assert_eq!(ide_read_sectors(&ctrl, 0, 0x1000_0000, &mut buf), 20);
}

#[test]
fn lba48_boundary_selects_ext_commands() {
    // a 128-sector batch at 0x0FFFFFFE reaches past the 28-bit horizon
    assert!(transfer_uses_lba48(0x0FFF_FFFE, 128));
    // the very last 28-bit sector alone still fits
    assert!(!transfer_uses_lba48(0x0FFF_FFFF, 1));
    assert!(transfer_uses_lba48(0x0FFF_FFFF, 2));
    assert!(transfer_uses_lba48(0x1000_0000, 1));
    assert!(!transfer_uses_lba48(0, 256));
    assert!(transfer_uses_lba48(0, 257));

    let w = ide_configure_transfer(0, 0, 0x0FFF_FFFE, 128, true, true);
    assert_eq!(w.len(), 10);
    assert_eq!(w[9].value, 0x34); // WRITE_PIO_EXT
    let r = ide_configure_transfer(0, 0, 0x0FFF_FFFE, 128, true, false);
    assert_eq!(r[9].value, 0x24); // READ_PIO_EXT
    let small = ide_configure_transfer(0, 1, 0x00AB_CDEF, 8, false, false);
    assert_eq!(small.len(), 6);
    assert_eq!(small[5].value, 0x20); // READ_PIO
    assert_eq!(small[0].value, 0xE0 | (1 << 4) | 0x00);
    assert_eq!(small[2].value, 0xEF);
    assert_eq!(small[3].value, 0xCD);
    assert_eq!(small[4].value, 0xAB);
}

#[test]
fn boundary_round_trip_on_lba48_drive() {
    // a drive that spans the 28-bit boundary, modelled at small scale:
    // capacity 16 sectors is not enough for the boundary itself, so this
    // exercises the same batching path at low addresses instead
    let mut ctrl = small_controller(16);
    let data: Vec<u8> = (0..2 * 512u32).map(|i| (i * 3 % 255) as u8).collect();
    assert_eq!(ide_write_sectors(&mut ctrl, 0, 14, &data), 0);
    let mut buf = vec![0u8; 2 * 512];
    assert_eq!(ide_read_sectors(&ctrl, 0, 14, &mut buf), 0);
    assert_eq!(buf, data);
}

#[test]
fn status_classification() {
    assert_eq!(ide_polling(0x01, true), 2); // error bit
    assert_eq!(ide_polling(0x20, true), 1); // device fault
    assert_eq!(ide_polling(0x40, true), 3); // ready but no data request
    assert_eq!(ide_polling(0x48, true), 0); // ready with data request
    assert_eq!(ide_polling(0x01, false), 0); // no advanced check
}

#[test]
fn error_code_mapping() {
    assert_eq!(ide_print_error(0, 0xFF), 0);
    assert_eq!(ide_print_error(1, 0), 19); // device fault
    assert_eq!(ide_print_error(3, 0), 23); // reads nothing
    assert_eq!(ide_print_error(4, 0), 8); // write protected
    assert_eq!(ide_print_error(2, 0x01), 7); // no address mark
    assert_eq!(ide_print_error(2, 0x10), 21); // id not found
    assert_eq!(ide_print_error(2, 0x80), 13); // bad sectors
    assert_eq!(ide_print_error(2, 0x90), 13); // the last set bit wins
    assert_eq!(ide_print_error(2, 0x00), 2); // nothing set: code stays
}

#[test]
fn irq_handler_sets_flag() {
    let mut ctrl = small_controller(1);
    assert_eq!(ctrl.irq_invoked, 0);
    ctrl.ide_irq_handler();
    assert_eq!(ctrl.irq_invoked, 1);
}
