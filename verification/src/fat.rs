//! Readers for FAT32 on-disk structures: partition table entries, the
//! BIOS parameter block and its FAT32 extension, and directory entries,
//! short and long-name.
//!
//! All multi-byte fields are little-endian. Each reader takes the raw
//! bytes of one structure; the callers hand it slices of the right
//! sector.

use vstd::prelude::*;

verus! {

use vstd::slice::slice_subrange;
use crate::bytes::le_u16;
use crate::bytes::le_u32;
use crate::bytes::read_u16;
use crate::bytes::read_u32;

/// One entry of the master boot record's partition table.
#[derive(Debug, Copy, Clone)]
pub struct PartitionEntry {
    pub status: u8,
    pub chs_address_first: [u8; 3],
    pub partition_type: u8,
    pub chs_address_last: [u8; 3],
    pub lba_address: u32,
    pub number_of_sectors: u32,
}

impl Default for PartitionEntry {
    /// An all-zero entry: the unused-slot value.
    fn default() -> (r: PartitionEntry)
        ensures
            r.status == 0 && r.partition_type == 0 && r.lba_address == 0 && r.number_of_sectors
                == 0,
            forall|i: int| 0 <= i < 3 ==> r.chs_address_first@[i] == 0,
            forall|i: int| 0 <= i < 3 ==> r.chs_address_last@[i] == 0,
    {
        PartitionEntry {
            status: 0,
            chs_address_first: [0, 0, 0],
            partition_type: 0,
            chs_address_last: [0, 0, 0],
            lba_address: 0,
            number_of_sectors: 0,
        }
    }
}

/// The fields of a partition entry parsed out of its 16 bytes.
pub open spec fn partition_entry_matches(b: Seq<u8>, e: PartitionEntry) -> bool {
    &&& e.status == b[0]
    &&& e.chs_address_first@ == b.subrange(1, 4)
    &&& e.partition_type == b[4]
    &&& e.chs_address_last@ == b.subrange(5, 8)
    &&& e.lba_address == le_u32(b, 8)
    &&& e.number_of_sectors == le_u32(b, 12)
}

/// Reads one 16-byte partition entry. Returns nothing exactly when the
/// slice is too short.
pub fn parse_partition_entry(bytes: &[u8]) -> (r: Option<PartitionEntry>)
    ensures
        (r is Some) <==> bytes@.len() >= 16,
        (r matches Some(e) ==> partition_entry_matches(bytes@, e)),
{
    if bytes.len() < 16 {
        return None;
    }
    let status = bytes[0];
    let chs_address_first = [bytes[1], bytes[2], bytes[3]];
    let partition_type = bytes[4];
    let chs_address_last = [bytes[5], bytes[6], bytes[7]];
    let lba_address = read_u32(bytes, 8);
    let number_of_sectors = read_u32(bytes, 12);
    let e = PartitionEntry {
        status,
        chs_address_first,
        partition_type,
        chs_address_last,
        lba_address,
        number_of_sectors,
    };
    proof {
        assert(e.chs_address_first@ =~= bytes@.subrange(1, 4));
        assert(e.chs_address_last@ =~= bytes@.subrange(5, 8));
    }
    Some(e)
}

/// The FAT32 extension of the BIOS parameter block.
#[derive(Debug, Copy, Clone)]
pub struct ExtendedBPB32 {
    pub fat_size: u32,
    pub flags: u16,
    pub fs_version: u16,
    pub root_cluster: u32,
    pub fs_info: u16,
    pub backup_boot_sector: u16,
    pub drive_number: u8,
    pub boot_signature: u8,
    pub volume_id: u32,
    pub volume_label: [u8; 11],
    pub fs_type: [u8; 8],
}

/// The fields of the FAT32 extension parsed out of its bytes.
pub open spec fn extended_bpb_32_matches(b: Seq<u8>, e: ExtendedBPB32) -> bool {
    &&& e.fat_size == le_u32(b, 0)
    &&& e.flags == le_u16(b, 4)
    &&& e.fs_version == le_u16(b, 6)
    &&& e.root_cluster == le_u32(b, 8)
    &&& e.fs_info == le_u16(b, 12)
    &&& e.backup_boot_sector == le_u16(b, 14)
    &&& e.drive_number == b[28]
    &&& e.boot_signature == b[30]
    &&& e.volume_id == le_u32(b, 31)
    &&& e.volume_label@ == b.subrange(35, 46)
    &&& e.fs_type@ == b.subrange(46, 54)
}

/// Reads the FAT32 extension out of the bytes that follow the common
/// parameter block. Returns nothing exactly when the slice runs past the
/// boot code area.
pub fn parse_extended_bpb_32(bytes: &[u8]) -> (r: Option<ExtendedBPB32>)
    requires
        bytes@.len() >= 54,
    ensures
        (r is Some) <==> bytes@.len() <= 447,
        (r matches Some(e) ==> extended_bpb_32_matches(bytes@, e)),
{
    if bytes.len() > 447 {
        return None;
    }
    let fat_size = read_u32(bytes, 0);
    let flags = read_u16(bytes, 4);
    let fs_version = read_u16(bytes, 6);
    let root_cluster = read_u32(bytes, 8);
    let fs_info = read_u16(bytes, 12);
    let backup_boot_sector = read_u16(bytes, 14);
    let drive_number = bytes[28];
    let boot_signature = bytes[30];
    let volume_id = read_u32(bytes, 31);
    let volume_label = [bytes[35], bytes[36], bytes[37], bytes[38], bytes[39], bytes[40],
        bytes[41], bytes[42], bytes[43], bytes[44], bytes[45]];
    let fs_type = [bytes[46], bytes[47], bytes[48], bytes[49], bytes[50], bytes[51], bytes[52],
        bytes[53]];
    let e = ExtendedBPB32 {
        fat_size,
        flags,
        fs_version,
        root_cluster,
        fs_info,
        backup_boot_sector,
        drive_number,
        boot_signature,
        volume_id,
        volume_label,
        fs_type,
    };
    proof {
        assert(e.volume_label@ =~= bytes@.subrange(35, 46));
        assert(e.fs_type@ =~= bytes@.subrange(46, 54));
    }
    Some(e)
}

/// The common BIOS parameter block of a FAT volume's boot sector.
#[derive(Debug, Copy, Clone)]
pub struct BPB {
    pub jmp: [u8; 3],
    pub oem_name: [u8; 8],
    pub bytes_per_sector: u16,
    pub sectors_per_cluster: u8,
    pub reserved_sector_count: u16,
    pub num_fats: u8,
    pub root_entry_count: u16,
    pub total_sectors_16: u16,
    pub media: u8,
    pub fat_size_16: u16,
    pub sectors_per_track: u16,
    pub number_of_heads: u16,
    pub hidden_sectors: u32,
    pub total_sectors_32: u32,
}

/// The fields of the common parameter block parsed out of a boot sector.
pub open spec fn bpb_matches(b: Seq<u8>, e: BPB) -> bool {
    &&& e.jmp@ == b.subrange(0, 3)
    &&& e.oem_name@ == b.subrange(3, 11)
    &&& e.bytes_per_sector == le_u16(b, 11)
    &&& e.sectors_per_cluster == b[13]
    &&& e.reserved_sector_count == le_u16(b, 14)
    &&& e.num_fats == b[16]
    &&& e.root_entry_count == le_u16(b, 17)
    &&& e.total_sectors_16 == le_u16(b, 19)
    &&& e.media == b[21]
    &&& e.fat_size_16 == le_u16(b, 22)
    &&& e.sectors_per_track == le_u16(b, 24)
    &&& e.number_of_heads == le_u16(b, 26)
    &&& e.hidden_sectors == le_u32(b, 28)
    &&& e.total_sectors_32 == le_u32(b, 32)
}

/// Reads a boot sector's parameter block and its FAT32 extension, which
/// sits at byte 36. Returns nothing exactly when the slice is longer than
/// one sector.
pub fn parse_bpb(bytes: &[u8]) -> (r: Option<(BPB, ExtendedBPB32)>)
    requires
        bytes@.len() >= 448,
    ensures
        (r is Some) <==> bytes@.len() <= 512,
        (r matches Some(p) ==> bpb_matches(bytes@, p.0) && extended_bpb_32_matches(
            bytes@.subrange(36, 448),
            p.1,
        )),
{
    if bytes.len() > 512 {
        return None;
    }
    let jmp = [bytes[0], bytes[1], bytes[2]];
    let oem_name = [bytes[3], bytes[4], bytes[5], bytes[6], bytes[7], bytes[8], bytes[9],
        bytes[10]];
    let bytes_per_sector = read_u16(bytes, 11);
    let sectors_per_cluster = bytes[13];
    let reserved_sector_count = read_u16(bytes, 14);
    let num_fats = bytes[16];
    let root_entry_count = read_u16(bytes, 17);
    let total_sectors_16 = read_u16(bytes, 19);
    let media = bytes[21];
    let fat_size_16 = read_u16(bytes, 22);
    let sectors_per_track = read_u16(bytes, 24);
    let number_of_heads = read_u16(bytes, 26);
    let hidden_sectors = read_u32(bytes, 28);
    let total_sectors_32 = read_u32(bytes, 32);
    let extension_bytes = slice_subrange(bytes, 36, 448);
    let extended_bpb_32 = match parse_extended_bpb_32(extension_bytes) {
        Some(extended_bpb_32) => extended_bpb_32,
        None => {
            return None;
        },
    };
    let bpb = BPB {
        jmp,
        oem_name,
        bytes_per_sector,
        sectors_per_cluster,
        reserved_sector_count,
        num_fats,
        root_entry_count,
        total_sectors_16,
        media,
        fat_size_16,
        sectors_per_track,
        number_of_heads,
        hidden_sectors,
        total_sectors_32,
    };
    proof {
        assert(bpb.jmp@ =~= bytes@.subrange(0, 3));
        assert(bpb.oem_name@ =~= bytes@.subrange(3, 11));
    }
    Some((bpb, extended_bpb_32))
}

/// One short-name directory entry.
#[derive(Debug, Copy, Clone)]
pub struct DirectoryEntry {
    pub name: [u8; 8],
    pub ext: [u8; 3],
    pub attributes: u8,
    pub undelete: u8,
    pub creation_time: u16,
    pub creation_date: u16,
    pub last_accessed_date: u16,
    pub last_modification_time: u16,
    pub last_modification_date: u16,
    pub cluster: u32,
    pub file_size: u32,
}

/// The fields of a short-name entry parsed out of 32 bytes at `off`; the
/// cluster number joins its high and low halves.
pub open spec fn directory_entry_matches(b: Seq<u8>, off: int, e: DirectoryEntry) -> bool {
    &&& e.name@ == b.subrange(off, off + 8)
    &&& e.ext@ == b.subrange(off + 8, off + 11)
    &&& e.attributes == b[off + 11]
    &&& e.undelete == b[off + 13]
    &&& e.creation_time == le_u16(b, off + 14)
    &&& e.creation_date == le_u16(b, off + 16)
    &&& e.last_accessed_date == le_u16(b, off + 18)
    &&& e.last_modification_time == le_u16(b, off + 22)
    &&& e.last_modification_date == le_u16(b, off + 24)
    &&& e.cluster == le_u16(b, off + 26) + 0x1_0000 * le_u16(b, off + 20)
    &&& e.file_size == le_u32(b, off + 28)
}

/// Reads one 32-byte short-name directory entry.
pub fn parse_directory_entry(bytes: &[u8]) -> (r: Option<DirectoryEntry>)
    requires
        bytes@.len() >= 32,
    ensures
        r is Some,
        (r matches Some(e) ==> directory_entry_matches(bytes@, 0, e)),
{
    let name = [bytes[0], bytes[1], bytes[2], bytes[3], bytes[4], bytes[5], bytes[6], bytes[7]];
    let ext = [bytes[8], bytes[9], bytes[10]];
    let attributes = bytes[11];
    let undelete = bytes[13];
    let creation_time = read_u16(bytes, 14);
    let creation_date = read_u16(bytes, 16);
    let last_accessed_date = read_u16(bytes, 18);
    let cluster_high = read_u16(bytes, 20);
    let last_modification_time = read_u16(bytes, 22);
    let last_modification_date = read_u16(bytes, 24);
    let cluster_low = read_u16(bytes, 26);
    let cluster = (cluster_low as u32) + 0x1_0000 * (cluster_high as u32);
    let file_size = read_u32(bytes, 28);
    let e = DirectoryEntry {
        name,
        ext,
        attributes,
        undelete,
        creation_time,
        creation_date,
        last_accessed_date,
        last_modification_time,
        last_modification_date,
        cluster,
        file_size,
    };
    proof {
        assert(e.name@ =~= bytes@.subrange(0, 8));
        assert(e.ext@ =~= bytes@.subrange(8, 11));
    }
    Some(e)
}

/// One long-file-name directory entry: thirteen 16-bit name units spread
/// over three byte runs.
#[derive(Debug, Copy, Clone)]
pub struct LFNEntry {
    pub entry_order: u8,
    pub name: [u16; 13],
    pub attribute: u8,
    pub long_entry_type: u8,
    pub checksum: u8,
}

/// Byte offset, within a long-name entry, of name unit `i`'s low byte.
pub open spec fn lfn_unit_offset(i: int) -> int {
    if i < 5 {
        1 + 2 * i
    } else if i < 11 {
        14 + 2 * (i - 5)
    } else {
        28 + 2 * (i - 11)
    }
}

/// Name unit `i` of the long-name entry at `off`.
pub open spec fn lfn_unit(b: Seq<u8>, off: int, i: int) -> int {
    le_u16(b, off + lfn_unit_offset(i))
}

/// The fields of a long-name entry parsed out of 32 bytes at `off`.
pub open spec fn lfn_entry_matches(b: Seq<u8>, off: int, e: LFNEntry) -> bool {
    &&& e.entry_order == b[off]
    &&& e.attribute == b[off + 11]
    &&& e.long_entry_type == b[off + 12]
    &&& e.checksum == b[off + 13]
    &&& forall|i: int| 0 <= i < 13 ==> e.name@[i] == lfn_unit(b, off, i)
}

/// Reads one 32-byte long-file-name directory entry.
pub fn parse_lfn_entry(bytes: &[u8]) -> (r: Option<LFNEntry>)
    requires
        bytes@.len() >= 32,
    ensures
        r is Some,
        (r matches Some(e) ==> lfn_entry_matches(bytes@, 0, e)),
{
    let entry_order = bytes[0];
    let attribute = bytes[11];
    let long_entry_type = bytes[12];
    let checksum = bytes[13];
    let name = [read_u16(bytes, 1), read_u16(bytes, 3), read_u16(bytes, 5), read_u16(bytes, 7),
        read_u16(bytes, 9), read_u16(bytes, 14), read_u16(bytes, 16), read_u16(bytes, 18),
        read_u16(bytes, 20), read_u16(bytes, 22), read_u16(bytes, 24), read_u16(bytes, 28),
        read_u16(bytes, 30)];
    let e = LFNEntry { entry_order, name, attribute, long_entry_type, checksum };
    proof {
        assert forall|i: int| 0 <= i < 13 implies e.name@[i] == lfn_unit(bytes@, 0, i) by {
            if i < 5 {
                assert(lfn_unit_offset(i) == 1 + 2 * i);
            } else if i < 11 {
                assert(lfn_unit_offset(i) == 14 + 2 * (i - 5));
            } else {
                assert(lfn_unit_offset(i) == 28 + 2 * (i - 11));
            }
        }
    }
    Some(e)
}

/// A fresh long-file-name buffer: 255 zero bytes.
pub open spec fn blank_name() -> Seq<u8> {
    Seq::new(255nat, |i: int| 0u8)
}

/// What folding the long-name entry at `off` into the name buffer leaves:
/// thirteen low name bytes land at the slot that the entry's order digit
/// selects. In the run that starts a name (bit 6 of the order byte set),
/// fill bytes of `0xff` leave the buffer alone.
pub open spec fn apply_lfn_spec(b: Seq<u8>, off: int, name: Seq<u8>) -> Seq<u8> {
    let order = (b[off] & 0x0f) as int;
    Seq::new(
        name.len(),
        |k: int|
            if order * 13 <= k < order * 13 + 13 && ((b[off] & 0x40) == 0 || b[off
                + lfn_unit_offset(k - order * 13)] != 0xff) {
                b[off + lfn_unit_offset(k - order * 13)]
            } else {
                name[k]
            },
    )
}

/// The listing of one 16-entry directory sector from entry `i` on, with
/// `name` the long-name bytes gathered so far: each short-name entry comes
/// out with the name assembled for it, named by its byte offset. An entry
/// starting with zero ends the directory; a deleted entry (first byte
/// `0xe5`) is skipped; a long-name entry (attribute byte `0x0f`) only
/// feeds the name buffer.
pub open spec fn directory_listing(b: Seq<u8>, i: int, name: Seq<u8>) -> Seq<(Seq<u8>, int)>
    decreases 16 - i,
{
    if i < 0 || i >= 16 {
        Seq::empty()
    } else {
        let off = i * 32;
        if b[off] == 0 {
            Seq::empty()
        } else if b[off] == 0xe5 {
            directory_listing(b, i + 1, name)
        } else if b[off + 11] == 0x0f {
            directory_listing(b, i + 1, apply_lfn_spec(b, off, name))
        } else {
            seq![(name, off)] + directory_listing(b, i + 1, blank_name())
        }
    }
}

/// The low byte of a little-endian 16-bit value is its first byte.
proof fn lemma_le_low_byte(v: u16, lo: u8, hi: u8)
    requires
        v == lo + 0x100 * hi,
    ensures
        (v & 0xff) as u8 == lo,
        v & 0xff == lo,
{
    assert((v & 0xff) as u8 == lo && v & 0xff == lo) by (bit_vector)
        requires
            v == (lo as u16) + 0x100 * (hi as u16),
    ;
}

/// Reads one 16-entry directory sector: every file in it, each with the
/// long name assembled from the preceding long-name entries. With a full
/// sector to read from, nothing can fail.
pub fn parse_directory(bytes: &[u8]) -> (r: Option<Vec<(Vec<u8>, DirectoryEntry)>>)
    requires
        bytes@.len() >= 512,
    ensures
        r is Some,
        (r matches Some(v) ==> {
            let listing = directory_listing(bytes@, 0, blank_name());
            &&& v@.len() == listing.len()
            &&& forall|k: int|
                0 <= k < v@.len() ==> (#[trigger] v@[k]).0@ == listing[k].0
                    && directory_entry_matches(bytes@, listing[k].1, v@[k].1)
        }),
{
    let mut out: Vec<(Vec<u8>, DirectoryEntry)> = Vec::new();
    let ghost mut done: Seq<(Seq<u8>, int)> = Seq::empty();
    let mut file_name: Vec<u8> = blank_name_vec();
    let mut i: usize = 0;
    while i < 16
        invariant
            i <= 16,
            bytes@.len() >= 512,
            file_name@.len() == 255,
            directory_listing(bytes@, 0, blank_name()) == done + directory_listing(
                bytes@,
                i as int,
                file_name@,
            ),
            out@.len() == done.len(),
            forall|k: int|
                0 <= k < done.len() ==> (#[trigger] out@[k]).0@ == done[k].0
                    && directory_entry_matches(bytes@, done[k].1, out@[k].1),
        decreases 16 - i,
    {
        let offset = i * 32;
        let first = bytes[offset];
        if first == 0 {
            proof {
                assert(directory_listing(bytes@, i as int, file_name@) =~= Seq::<(
                    Seq<u8>,
                    int,
                )>::empty());
                assert(done + directory_listing(bytes@, i as int, file_name@) =~= done);
            }
            return Some(out);
        }
        if first != 0xe5 {
            let entry_bytes = slice_subrange(bytes, offset, offset + 32);
            if bytes[offset + 11] == 0x0f {
                let lfn_entry = match parse_lfn_entry(entry_bytes) {
                    Some(lfn_entry) => lfn_entry,
                    None => {
                        return None;
                    },
                };
                let ghost name_before = file_name@;
                let order = lfn_entry.entry_order & 0x0f;
                let with_lead = (lfn_entry.entry_order & 0x40) != 0;
                let base = (order as usize) * 13;
                proof {
                    let eo = lfn_entry.entry_order;
                    assert(order < 16 && (order as usize) * 13 + 13 <= 255) by (bit_vector)
                        requires
                            order == eo & 0x0f,
                    ;
                }
                let mut idx: usize = 0;
                while idx < 13
                    invariant
                        idx <= 13,
                        base == (order as int) * 13,
                        base + 13 <= 255,
                        file_name@.len() == 255,
                        name_before.len() == 255,
                        bytes@.len() >= 512,
                        offset == i * 32,
                        i < 16,
                        entry_bytes@ == bytes@.subrange(offset as int, offset + 32),
                        lfn_entry_matches(entry_bytes@, 0, lfn_entry),
                        order == lfn_entry.entry_order & 0x0f,
                        with_lead == ((lfn_entry.entry_order & 0x40) != 0),
                        forall|k: int|
                            0 <= k < 255 ==> #[trigger] file_name@[k] == if base <= k < base + idx
                                && (!with_lead || bytes@[offset + lfn_unit_offset(k - base)]
                                != 0xff) {
                                bytes@[offset + lfn_unit_offset(k - base)]
                            } else {
                                name_before[k]
                            },
                    decreases 13 - idx,
                {
                    let unit = lfn_entry.name[idx];
                    let character = unit & 0xff;
                    proof {
                        let o = lfn_unit_offset(idx as int);
                        assert(0 <= o && o + 1 < 32);
                        assert(unit == lfn_unit(entry_bytes@, 0, idx as int));
                        assert(unit == entry_bytes@[o] + 0x100 * entry_bytes@[o + 1]);
                        assert(entry_bytes@[o] == bytes@[offset + o]);
                        assert(entry_bytes@[o + 1] == bytes@[offset + o + 1]);
                        lemma_le_low_byte(unit, entry_bytes@[o], entry_bytes@[o + 1]);
                    }
                    if !with_lead || character != 0xff {
                        file_name[base + idx] = character as u8;
                    }
                    idx += 1;
                }
                proof {
                    assert(file_name@ =~= apply_lfn_spec(bytes@, offset as int, name_before));
                    assert(done + directory_listing(bytes@, i as int, name_before) == done
                        + directory_listing(bytes@, i + 1 as int, file_name@));
                }
            } else {
                let entry = match parse_directory_entry(entry_bytes) {
                    Some(entry) => entry,
                    None => {
                        return None;
                    },
                };
                proof {
                    assert(directory_entry_matches(bytes@, offset as int, entry)) by {
                        assert(entry.name@ =~= bytes@.subrange(offset as int, offset + 8));
                        assert(entry.ext@ =~= bytes@.subrange(offset + 8, offset + 11));
                    }
                }
                let ghost emitted = (file_name@, offset as int);
                out.push((file_name, entry));
                file_name = blank_name_vec();
                proof {
                    assert(directory_listing(bytes@, i as int, emitted.0) == seq![emitted]
                        + directory_listing(bytes@, i + 1 as int, blank_name()));
                    done = done.push(emitted);
                    assert(done + directory_listing(bytes@, i + 1 as int, file_name@)
                        =~= directory_listing(bytes@, 0, blank_name()));
                }
            }
        }
        i += 1;
    }
    proof {
        assert(directory_listing(bytes@, 16, file_name@) =~= Seq::<(Seq<u8>, int)>::empty());
        assert(done + directory_listing(bytes@, 16, file_name@) =~= done);
    }
    Some(out)
}

/// Sectors the root directory of the legacy FAT layouts occupies, rounded
/// up to whole sectors; zero on FAT32, whose root directory lives in
/// ordinary clusters.
pub open spec fn spec_root_dir_sectors(bpb: BPB) -> int {
    (bpb.root_entry_count * 32 + bpb.bytes_per_sector - 1) / bpb.bytes_per_sector as int
}

/// The first sector of the data region: past the reserved sectors, the
/// file allocation tables, and the legacy root directory.
pub open spec fn spec_first_data_sector(bpb: BPB, ext: ExtendedBPB32) -> int {
    bpb.reserved_sector_count + bpb.num_fats * ext.fat_size + spec_root_dir_sectors(bpb)
}

/// How many sectors the legacy root directory takes.
pub fn root_dir_sectors(bpb: &BPB) -> (r: u16)
    requires
        bpb.bytes_per_sector >= 1,
        bpb.root_entry_count * 32 + bpb.bytes_per_sector - 1 <= u16::MAX,
    ensures
        r == spec_root_dir_sectors(*bpb),
{
    ((bpb.root_entry_count * 32) + (bpb.bytes_per_sector - 1)) / bpb.bytes_per_sector
}

/// The first sector of the data region.
pub fn first_data_sector(bpb: &BPB, ext: &ExtendedBPB32) -> (r: u32)
    requires
        bpb.bytes_per_sector >= 1,
        bpb.root_entry_count * 32 + bpb.bytes_per_sector - 1 <= u16::MAX,
        spec_first_data_sector(*bpb, *ext) <= u32::MAX,
    ensures
        r == spec_first_data_sector(*bpb, *ext),
{
    let root_dir = root_dir_sectors(bpb) as u32;
    let reserved = bpb.reserved_sector_count as u32;
    let fats = (bpb.num_fats as u32) * ext.fat_size;
    reserved + fats + root_dir
}

/// The first sector of a data cluster: clusters are numbered from two.
pub fn first_sector_of_cluster(cluster: u32, sectors_per_cluster: u8, first_data: u32) -> (r: u32)
    requires
        cluster >= 2,
        (cluster - 2) * sectors_per_cluster + first_data <= u32::MAX,
    ensures
        r == (cluster - 2) * sectors_per_cluster + first_data,
{
    (cluster - 2) * (sectors_per_cluster as u32) + first_data
}

/// Where a cluster's FAT32 entry lives: the sector, counted from the
/// volume start, and the byte offset inside it, for 512-byte sectors and
/// four-byte entries.
pub fn fat_entry_position(cluster: u32, reserved_sector_count: u16) -> (r: (u32, u32))
    requires
        reserved_sector_count + cluster * 4 / 512 <= u32::MAX,
    ensures
        r.0 == reserved_sector_count + cluster * 4 / 512,
        r.1 == cluster * 4 % 512,
{
    let fat_offset = (cluster as u64) * 4;
    let fat_sector = (reserved_sector_count as u64) + fat_offset / 512;
    let entry_offset = fat_offset % 512;
    (fat_sector as u32, entry_offset as u32)
}

/// A fresh 255-byte name buffer of zeros.
fn blank_name_vec() -> (r: Vec<u8>)
    ensures
        r@ == blank_name(),
{
    let mut r: Vec<u8> = Vec::new();
    let mut i: usize = 0;
    while i < 255
        invariant
            i <= 255,
            r@.len() == i,
            forall|k: int| 0 <= k < i ==> r@[k] == 0,
        decreases 255 - i,
    {
        r.push(0);
        i += 1;
    }
    proof {
        assert(r@ =~= blank_name());
    }
    r
}

} // verus!
