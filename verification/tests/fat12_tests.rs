use eucalypt_core::fat12::{
    entry_from_bytes, entry_to_bytes, fat12_create_file, fat12_delete_file, fat12_file_exists,
    fat12_get_file_size, fat12_init, fat12_list_files, fat12_read_file, DirectoryEntry, Fat12Error,
};
use eucalypt_core::ide::{ide_init, ide_read_sectors, IdeController, IdeProbe};

fn identify_block(sectors: u64, lba48: bool) -> Vec<u8> {
    let mut id = vec![0u8; 512];
    if lba48 {
        id[164] = 0x00;
        id[165] = 0x04; // bit 10 of the LE word at 164
        id[200] = (sectors & 0xFF) as u8;
        id[201] = ((sectors >> 8) & 0xFF) as u8;
        id[202] = ((sectors >> 16) & 0xFF) as u8;
        id[203] = ((sectors >> 24) & 0xFF) as u8;
        id[204] = ((sectors >> 32) & 0xFF) as u8;
        id[205] = ((sectors >> 40) & 0xFF) as u8;
    } else {
        id[120] = (sectors & 0xFF) as u8;
        id[121] = ((sectors >> 8) & 0xFF) as u8;
        id[122] = ((sectors >> 16) & 0xFF) as u8;
        id[123] = ((sectors >> 24) & 0xFF) as u8;
    }
    id
}

/// A zeroed, freshly formatted 1.44 MiB floppy image.
fn empty_floppy_image() -> Vec<u8> {
    let mut img = vec![0u8; 2880 * 512];
    img[11] = 0x00; // bytes_per_sector = 512
    img[12] = 0x02;
    img[13] = 1; // sectors_per_cluster
    img[14] = 1; // reserved_sectors
    img[15] = 0;
    img[16] = 2; // num_fats
    img[17] = 0xE0; // root_entry_count = 224
    img[18] = 0x00;
    img[19] = 0x40; // total_sectors_16 = 2880
    img[20] = 0x0B;
    img[21] = 0xF0; // media type
    img[22] = 9; // fat_size_16
    img[23] = 0;
    for (i, b) in b"FAT12   ".iter().enumerate() {
        img[54 + i] = *b;
    }
    img[510] = 0x55;
    img[511] = 0xAA;
    // media descriptor entries for clusters 0 and 1, in both FAT copies
    for fat_start in [1 * 512, 10 * 512] {
        img[fat_start] = 0xF0;
        img[fat_start + 1] = 0xFF;
        img[fat_start + 2] = 0xFF;
    }
    img
}

fn floppy_controller() -> IdeController {
    let probes = vec![
        IdeProbe { identify: Some(identify_block(2880, false)), contents: empty_floppy_image() },
        IdeProbe { identify: None, contents: Vec::new() },
        IdeProbe { identify: None, contents: Vec::new() },
        IdeProbe { identify: None, contents: Vec::new() },
    ];
    ide_init(0, 0, 0, 0, 0, probes)
}

#[test]
fn mount_and_list_empty_image() {
    let ctrl = floppy_controller();
    let fs = fat12_init(&ctrl, 0).unwrap();
    assert_eq!(fs.fat_start_sector, 1);
    assert_eq!(fs.root_dir_start_sector, 19);
    assert_eq!(fs.data_start_sector, 33);
    assert_eq!(fs.root_dir_sectors, 14);
    let files = fat12_list_files(&fs, &ctrl).unwrap();
    assert!(files.is_empty());
}

#[test]
fn create_read_back_delete() {
    let mut ctrl = floppy_controller();
    let mut fs = fat12_init(&ctrl, 0).unwrap();
    let data: Vec<u8> = b"Hello, World".to_vec();
    fat12_create_file(&mut fs, &mut ctrl, "HELLO.TXT", &data).unwrap();
    let read = fat12_read_file(&fs, &ctrl, "HELLO.TXT").unwrap();
    assert_eq!(read.len(), 12);
    assert_eq!(read, data);
    assert_eq!(fat12_get_file_size(&fs, &ctrl, "HELLO.TXT"), Some(12));
    assert!(fat12_file_exists(&fs, &ctrl, "hello.txt"));
    fat12_delete_file(&mut fs, &mut ctrl, "HELLO.TXT").unwrap();
    assert!(!fat12_file_exists(&fs, &ctrl, "HELLO.TXT"));
    // cluster 2's entry, at FAT byte offset 3, reads zero again on disk
    let mut fat_sector = vec![0u8; 512];
    assert_eq!(ide_read_sectors(&ctrl, 0, 1, &mut fat_sector), 0);
    assert_eq!(fat_sector[3], 0x00);
    assert_eq!(fat_sector[4], 0x00);
}

#[test]
fn multi_cluster_round_trip() {
    let mut ctrl = floppy_controller();
    let mut fs = fat12_init(&ctrl, 0).unwrap();
    let data: Vec<u8> = (0..1500u32).map(|i| (i * 7 % 251) as u8).collect();
    fat12_create_file(&mut fs, &mut ctrl, "BIG.BIN", &data).unwrap();
    // three clusters were linked: 2 -> 3 -> 4 -> end of chain
    assert_eq!(fs.get_fat_entry(2), 3);
    assert_eq!(fs.get_fat_entry(3), 4);
    assert!(fs.get_fat_entry(4) >= 0xFF8);
    let read = fat12_read_file(&fs, &ctrl, "BIG.BIN").unwrap();
    assert_eq!(read, data);
    fat12_delete_file(&mut fs, &mut ctrl, "BIG.BIN").unwrap();
    assert_eq!(fs.get_fat_entry(2), 0);
    assert_eq!(fs.get_fat_entry(3), 0);
    assert_eq!(fs.get_fat_entry(4), 0);
    assert!(!fat12_file_exists(&fs, &ctrl, "BIG.BIN"));
}

#[test]
fn list_shows_created_files() {
    let mut ctrl = floppy_controller();
    let mut fs = fat12_init(&ctrl, 0).unwrap();
    fat12_create_file(&mut fs, &mut ctrl, "a.txt", &b"one".to_vec()).unwrap();
    fat12_create_file(&mut fs, &mut ctrl, "b.dat", &b"two".to_vec()).unwrap();
    let files = fat12_list_files(&fs, &ctrl).unwrap();
    assert_eq!(files, vec!["A.TXT".to_string(), "B.DAT".to_string()]);
}

#[test]
fn create_error_cases() {
    let mut ctrl = floppy_controller();
    let mut fs = fat12_init(&ctrl, 0).unwrap();
    assert_eq!(
        fat12_create_file(&mut fs, &mut ctrl, "X.TXT", &Vec::new()),
        Err(Fat12Error::EmptyFile)
    );
    assert_eq!(
        fat12_create_file(&mut fs, &mut ctrl, "NODOT", &b"x".to_vec()),
        Err(Fat12Error::InvalidName)
    );
    assert_eq!(
        fat12_create_file(&mut fs, &mut ctrl, "A.B.C", &b"x".to_vec()),
        Err(Fat12Error::InvalidName)
    );
    assert_eq!(
        fat12_create_file(&mut fs, &mut ctrl, "TOOLONGNAME.TXT", &b"x".to_vec()),
        Err(Fat12Error::NameTooLong)
    );
    assert_eq!(
        fat12_create_file(&mut fs, &mut ctrl, "W.LOG", &b"x".to_vec()),
        Ok(())
    );
    assert_eq!(
        fat12_create_file(&mut fs, &mut ctrl, "w.log", &b"y".to_vec()),
        Err(Fat12Error::AlreadyExists)
    );
}

#[test]
fn lookup_error_cases() {
    let mut ctrl = floppy_controller();
    let mut fs = fat12_init(&ctrl, 0).unwrap();
    assert_eq!(
        fat12_read_file(&fs, &ctrl, "NO.SUF"),
        Err(Fat12Error::NotFound)
    );
    assert_eq!(
        fat12_delete_file(&mut fs, &mut ctrl, "NO.SUF"),
        Err(Fat12Error::NotFound)
    );
    assert_eq!(fat12_get_file_size(&fs, &ctrl, "NO.SUF"), None);
}

#[test]
fn mount_rejects_bad_media() {
    let mut img = empty_floppy_image();
    img[510] = 0;
    let probes = vec![
        IdeProbe { identify: Some(identify_block(2880, false)), contents: img },
        IdeProbe { identify: None, contents: Vec::new() },
        IdeProbe { identify: None, contents: Vec::new() },
        IdeProbe { identify: None, contents: Vec::new() },
    ];
    let ctrl = ide_init(0, 0, 0, 0, 0, probes);
    assert_eq!(fat12_init(&ctrl, 0).err(), Some(Fat12Error::InvalidSignature));

    let mut img2 = empty_floppy_image();
    img2[54] = b'N'; // not labelled FAT12
    img2[11] = 0; // and not 512 bytes per sector
    img2[12] = 0;
    let probes2 = vec![
        IdeProbe { identify: Some(identify_block(2880, false)), contents: img2 },
        IdeProbe { identify: None, contents: Vec::new() },
        IdeProbe { identify: None, contents: Vec::new() },
        IdeProbe { identify: None, contents: Vec::new() },
    ];
    let ctrl2 = ide_init(0, 0, 0, 0, 0, probes2);
    assert_eq!(fat12_init(&ctrl2, 0).err(), Some(Fat12Error::NotFat12));

    // absent drive: the boot sector cannot be read at all
    let ctrl3 = floppy_controller();
    assert_eq!(fat12_init(&ctrl3, 1).err(), Some(Fat12Error::BootSectorRead));
}

#[test]
fn fat_entry_packing_round_trip() {
    let ctrl = floppy_controller();
    let mut fs = fat12_init(&ctrl, 0).unwrap();
    fs.set_fat_entry(4, 0xABC);
    fs.set_fat_entry(5, 0x123);
    assert_eq!(fs.get_fat_entry(4), 0xABC);
    assert_eq!(fs.get_fat_entry(5), 0x123);
    // neighbours sharing bytes stay intact
    fs.set_fat_entry(4, 0x000);
    assert_eq!(fs.get_fat_entry(5), 0x123);
    assert_eq!(fs.get_fat_entry(3), 0);
}

#[test]
fn name_normalization() {
    let e = DirectoryEntry::new_file("readme.txt", 7, 42).unwrap();
    assert_eq!(&e.name, b"README  TXT");
    assert_eq!(e.attributes, 0x20);
    assert_eq!(e.first_cluster, 7);
    assert_eq!(e.file_size, 42);
    assert_eq!(e.get_name().unwrap(), "README.TXT");
    assert_eq!(
        DirectoryEntry::new_file("nodot", 2, 1).err(),
        Some(Fat12Error::InvalidName)
    );
}

#[test]
fn directory_entry_serialization_round_trip() {
    let e = DirectoryEntry::new_file("data.bin", 9, 0x01020304).unwrap();
    let bytes = entry_to_bytes(&e);
    assert_eq!(bytes.len(), 32);
    let back = entry_from_bytes(&bytes, 0);
    assert_eq!(back.name, e.name);
    assert_eq!(back.attributes, e.attributes);
    assert_eq!(back.first_cluster, 9);
    assert_eq!(back.file_size, 0x01020304);
}

#[test]
fn delete_marks_the_directory_slot_on_disk() {
    let mut ctrl = floppy_controller();
    let mut fs = fat12_init(&ctrl, 0).unwrap();
    fat12_create_file(&mut fs, &mut ctrl, "GONE.TXT", &b"bye".to_vec()).unwrap();
    fat12_delete_file(&mut fs, &mut ctrl, "GONE.TXT").unwrap();
    // slot 0 of the root directory (sector 19) now carries the deleted mark
    let mut root_sector = vec![0u8; 512];
    assert_eq!(ide_read_sectors(&ctrl, 0, 19, &mut root_sector), 0);
    assert_eq!(root_sector[0], 0xE5);
    // the rest of the record is still the old entry
    assert_eq!(&root_sector[1..11], b"ONE    TXT");
}

#[test]
fn error_messages_match_their_variants() {
    assert_eq!(Fat12Error::NotFound.message(), "File not found");
    assert_eq!(Fat12Error::EmptyFile.message(), "Cannot create empty file");
    assert_eq!(Fat12Error::AlreadyExists.message(), "File already exists");
    assert_eq!(Fat12Error::InvalidSignature.message(), "Invalid boot sector signature");
    assert_eq!(Fat12Error::NoFreeClusters.message(), "No free clusters");
}
