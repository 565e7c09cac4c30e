use nanoos::bytes::{read_u16, read_u32, read_u64};
use nanoos::fat::{
    fat_entry_position, first_data_sector, first_sector_of_cluster, parse_bpb, parse_directory,
    parse_directory_entry, parse_lfn_entry, parse_partition_entry, root_dir_sectors,
    PartitionEntry,
};
use nanoos::pe::{PeParser, PeSection};

#[test]
fn little_endian_reads() {
    let bytes = vec![0x01u8, 0x02, 0x03, 0x04, 0x05, 0x06, 0x07, 0x08, 0x09];
    assert_eq!(read_u16(&bytes, 0), 0x0201);
    assert_eq!(read_u16(&bytes, 3), 0x0504);
    assert_eq!(read_u32(&bytes, 0), 0x04030201);
    assert_eq!(read_u32(&bytes, 4), 0x08070605);
    assert_eq!(read_u64(&bytes, 1), 0x0908070605040302);
}

fn put_u16(bytes: &mut Vec<u8>, offset: usize, value: u16) {
    bytes[offset] = (value & 0xff) as u8;
    bytes[offset + 1] = (value >> 8) as u8;
}

fn put_u32(bytes: &mut Vec<u8>, offset: usize, value: u32) {
    for i in 0..4 {
        bytes[offset + i] = ((value >> (8 * i)) & 0xff) as u8;
    }
}

fn put_u64(bytes: &mut Vec<u8>, offset: usize, value: u64) {
    for i in 0..8 {
        bytes[offset + i] = ((value >> (8 * i)) & 0xff) as u8;
    }
}

/// A minimal amd64 image: PE header at 0x40, a 0x28-byte optional header,
/// and one section.
fn sample_pe() -> Vec<u8> {
    let mut b = vec![0u8; 0x300];
    b[0] = b'M';
    b[1] = b'Z';
    put_u32(&mut b, 0x3c, 0x40);
    b[0x40] = b'P';
    b[0x41] = b'E';
    put_u16(&mut b, 0x44, 0x8664);
    put_u16(&mut b, 0x46, 1); // one section
    put_u16(&mut b, 0x54, 0x28); // optional header size
    put_u32(&mut b, 0x68, 0x1000); // entry point offset
    put_u64(&mut b, 0x70, 0x1_4000_0000); // image base
    // Section table at 0x40 + 0x18 + 0x28 = 0x80.
    put_u32(&mut b, 0x88, 0x100); // virtual size
    put_u32(&mut b, 0x8c, 0x1000); // virtual address
    put_u32(&mut b, 0x90, 0x80); // raw size
    put_u32(&mut b, 0x94, 0x200); // raw offset
    b
}

#[test]
fn pe_parse_reads_the_headers() {
    let image = sample_pe();
    let parser = PeParser::parse(&image).unwrap();
    let sections = parser.sections().unwrap();
    assert_eq!(sections.len(), 1);
    assert_eq!(
        sections[0],
        PeSection {
            address: 0x1_4000_1000,
            virtual_size: 0x100,
            raw_offset: 0x200,
            raw_size: 0x80,
        },
    );
}

#[test]
fn pe_parse_takes_the_smaller_raw_size() {
    let mut image = sample_pe();
    // More raw bytes on disk than the section occupies in memory: only the
    // in-memory size is loaded.
    put_u32(&mut image, 0x90, 0x180);
    let parser = PeParser::parse(&image).unwrap();
    let sections = parser.sections().unwrap();
    assert_eq!(sections[0].raw_size, 0x100);
}

#[test]
fn pe_parse_rejects_bad_signatures() {
    let mut image = sample_pe();
    image[1] = b'X';
    assert!(PeParser::parse(&image).is_none());

    let mut image = sample_pe();
    image[0x41] = b'Q';
    assert!(PeParser::parse(&image).is_none());

    assert!(PeParser::parse(&[0u8; 16]).is_none());
}

#[test]
fn pe_sections_reject_raw_data_past_the_buffer() {
    let mut image = sample_pe();
    put_u32(&mut image, 0x94, 0x2f0); // 0x2f0 + 0x80 > 0x300
    let parser = PeParser::parse(&image).unwrap();
    assert!(parser.sections().is_none());
}

#[test]
fn partition_entry_fields() {
    let mut b = vec![0u8; 16];
    b[0] = 0x80;
    b[1] = 1;
    b[2] = 2;
    b[3] = 3;
    b[4] = 0x0b;
    b[5] = 4;
    b[6] = 5;
    b[7] = 6;
    put_u32(&mut b, 8, 0x800);
    put_u32(&mut b, 12, 0x10000);
    let e = parse_partition_entry(&b).unwrap();
    assert_eq!(e.status, 0x80);
    assert_eq!(e.chs_address_first, [1, 2, 3]);
    assert_eq!(e.partition_type, 0x0b);
    assert_eq!(e.chs_address_last, [4, 5, 6]);
    assert_eq!(e.lba_address, 0x800);
    assert_eq!(e.number_of_sectors, 0x10000);

    assert!(parse_partition_entry(&b[0..15]).is_none());
}

#[test]
fn partition_entry_default_is_zeroed() {
    let e = PartitionEntry::default();
    assert_eq!(e.status, 0);
    assert_eq!(e.chs_address_first, [0, 0, 0]);
    assert_eq!(e.partition_type, 0);
    assert_eq!(e.chs_address_last, [0, 0, 0]);
    assert_eq!(e.lba_address, 0);
    assert_eq!(e.number_of_sectors, 0);
}

#[test]
fn bpb_fields() {
    let mut b = vec![0u8; 512];
    b[0] = 0xeb;
    b[1] = 0x58;
    b[2] = 0x90;
    for (i, c) in b"MSWIN4.1".iter().enumerate() {
        b[3 + i] = *c;
    }
    put_u16(&mut b, 11, 512);
    b[13] = 8; // sectors per cluster
    put_u16(&mut b, 14, 32); // reserved sectors
    b[16] = 2; // fats
    put_u16(&mut b, 17, 0);
    put_u16(&mut b, 19, 0);
    b[21] = 0xf8;
    put_u16(&mut b, 22, 0);
    put_u16(&mut b, 24, 63);
    put_u16(&mut b, 26, 255);
    put_u32(&mut b, 28, 0x800);
    put_u32(&mut b, 32, 0x100000);
    // FAT32 extension at 36.
    put_u32(&mut b, 36, 0x3f8); // fat size
    put_u32(&mut b, 36 + 8, 2); // root cluster
    put_u16(&mut b, 36 + 12, 1); // fs info
    put_u16(&mut b, 36 + 14, 6); // backup boot sector
    b[36 + 28] = 0x80; // drive number
    b[36 + 30] = 0x29; // boot signature
    put_u32(&mut b, 36 + 31, 0xdeadbeef);

    let (bpb, ext) = parse_bpb(&b).unwrap();
    assert_eq!(bpb.jmp, [0xeb, 0x58, 0x90]);
    assert_eq!(&bpb.oem_name, b"MSWIN4.1");
    assert_eq!(bpb.bytes_per_sector, 512);
    assert_eq!(bpb.sectors_per_cluster, 8);
    assert_eq!(bpb.reserved_sector_count, 32);
    assert_eq!(bpb.num_fats, 2);
    assert_eq!(bpb.media, 0xf8);
    assert_eq!(bpb.sectors_per_track, 63);
    assert_eq!(bpb.number_of_heads, 255);
    assert_eq!(bpb.hidden_sectors, 0x800);
    assert_eq!(bpb.total_sectors_32, 0x100000);
    assert_eq!(ext.fat_size, 0x3f8);
    assert_eq!(ext.root_cluster, 2);
    assert_eq!(ext.fs_info, 1);
    assert_eq!(ext.backup_boot_sector, 6);
    assert_eq!(ext.drive_number, 0x80);
    assert_eq!(ext.boot_signature, 0x29);
    assert_eq!(ext.volume_id, 0xdeadbeef);

    let long = vec![0u8; 513];
    assert!(parse_bpb(&long).is_none());
}

#[test]
fn directory_entry_fields() {
    let mut b = vec![0u8; 32];
    for (i, c) in b"README  ".iter().enumerate() {
        b[i] = *c;
    }
    for (i, c) in b"TXT".iter().enumerate() {
        b[8 + i] = *c;
    }
    b[11] = 0x20; // attributes
    b[13] = 7; // undelete
    put_u16(&mut b, 14, 0x1234); // creation time
    put_u16(&mut b, 16, 0x2345); // creation date
    put_u16(&mut b, 18, 0x3456); // last accessed
    put_u16(&mut b, 20, 0x0002); // cluster high
    put_u16(&mut b, 22, 0x4567); // last modification time
    put_u16(&mut b, 24, 0x5678); // last modification date
    put_u16(&mut b, 26, 0x0005); // cluster low
    put_u32(&mut b, 28, 1234); // file size
    let e = parse_directory_entry(&b).unwrap();
    assert_eq!(&e.name, b"README  ");
    assert_eq!(&e.ext, b"TXT");
    assert_eq!(e.attributes, 0x20);
    assert_eq!(e.undelete, 7);
    assert_eq!(e.creation_time, 0x1234);
    assert_eq!(e.creation_date, 0x2345);
    assert_eq!(e.last_accessed_date, 0x3456);
    assert_eq!(e.last_modification_time, 0x4567);
    assert_eq!(e.last_modification_date, 0x5678);
    assert_eq!(e.cluster, 0x2_0005);
    assert_eq!(e.file_size, 1234);
}

#[test]
fn lfn_entry_name_units() {
    let mut b = vec![0u8; 32];
    b[0] = 0x41; // order 1, first entry of the name
    b[11] = 0x0f;
    b[12] = 0;
    b[13] = 0x99; // checksum
    put_u16(&mut b, 1, b'h' as u16);
    put_u16(&mut b, 3, b'i' as u16);
    put_u16(&mut b, 5, 0x5678);
    put_u16(&mut b, 14, 0x1122); // unit 5
    put_u16(&mut b, 28, 0x3344); // unit 11
    put_u16(&mut b, 30, 0x5566); // unit 12
    let e = parse_lfn_entry(&b).unwrap();
    assert_eq!(e.entry_order, 0x41);
    assert_eq!(e.attribute, 0x0f);
    assert_eq!(e.long_entry_type, 0);
    assert_eq!(e.checksum, 0x99);
    assert_eq!(e.name[0], b'h' as u16);
    assert_eq!(e.name[1], b'i' as u16);
    assert_eq!(e.name[2], 0x5678);
    assert_eq!(e.name[5], 0x1122);
    assert_eq!(e.name[11], 0x3344);
    assert_eq!(e.name[12], 0x5566);
}

#[test]
fn fat_geometry() {
    let mut b = vec![0u8; 512];
    put_u16(&mut b, 11, 512); // bytes per sector
    b[13] = 8; // sectors per cluster
    put_u16(&mut b, 14, 32); // reserved sectors
    b[16] = 2; // fats
    put_u32(&mut b, 36, 0x3f8); // fat size
    let (bpb, ext) = parse_bpb(&b).unwrap();

    // FAT32 has no legacy root directory: zero sectors.
    assert_eq!(root_dir_sectors(&bpb), 0);
    let fds = first_data_sector(&bpb, &ext);
    assert_eq!(fds, 32 + 2 * 0x3f8);
    assert_eq!(first_sector_of_cluster(2, bpb.sectors_per_cluster, fds), fds);
    assert_eq!(first_sector_of_cluster(3, bpb.sectors_per_cluster, fds), fds + 8);
    assert_eq!(fat_entry_position(6, bpb.reserved_sector_count), (32, 24));

    // A FAT16-style root directory of 512 entries over 512-byte sectors.
    put_u16(&mut b, 17, 512);
    let (bpb16, _) = parse_bpb(&b).unwrap();
    assert_eq!(root_dir_sectors(&bpb16), 32);
}

#[test]
fn directory_listing_assembles_names() {
    let mut b = vec![0u8; 512];
    // Entry 0: long-name entry, order 1 with the leading bit: its thirteen
    // low bytes land at name positions 13 to 25; 0xff fill bytes are
    // skipped.
    b[0] = 0x41;
    b[11] = 0x0f;
    put_u16(&mut b, 1, b'h' as u16);
    put_u16(&mut b, 3, b'i' as u16);
    put_u16(&mut b, 5, 0xffff); // fill: skipped
    // Entry 1: deleted: skipped entirely.
    b[32] = 0xe5;
    // Entry 2: the short-name entry the long name belongs to.
    for (i, c) in b"HI      ".iter().enumerate() {
        b[64 + i] = *c;
    }
    b[64 + 11] = 0x20;
    put_u16(&mut b, 64 + 26, 9); // cluster low
    put_u32(&mut b, 64 + 28, 42); // file size
    // Entry 3: first byte zero ends the directory.
    let listing = parse_directory(&b).unwrap();
    assert_eq!(listing.len(), 1);
    let (name, entry) = &listing[0];
    assert_eq!(name.len(), 255);
    assert_eq!(name[13], b'h');
    assert_eq!(name[14], b'i');
    assert_eq!(name[15], 0); // the 0xff unit left the buffer byte alone
    assert_eq!(name[0], 0);
    assert_eq!(&entry.name, b"HI      ");
    assert_eq!(entry.cluster, 9);
    assert_eq!(entry.file_size, 42);
}
