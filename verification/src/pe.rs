//! Reader for PE images: the header fields the bootloader needs, and the
//! section table.
//!
//! All multi-byte fields are little-endian. The reader checks the DOS and
//! PE signatures, takes the machine kind, image base, entry point and
//! section count from the headers, and hands out one descriptor per
//! section; it never reads past the buffer.

use vstd::prelude::*;

verus! {

use crate::bytes::le_u16;
use crate::bytes::le_u32;
use crate::bytes::le_u64;
use crate::bytes::read_u16;
use crate::bytes::read_u32;
use crate::bytes::read_u64;

pub const IMAGE_FILE_MACHINE_I386: u16 = 0x14c;
pub const IMAGE_FILE_MACHINE_AMD64: u16 = 0x8664;

/// A machine kind this reader understands.
#[derive(Copy, Clone, Debug, PartialEq, Eq, Structural)]
pub enum PeMachine {
    Unknown,
    AMD64,
    I386,
}

/// Offset of the PE header, read from the DOS header.
pub open spec fn spec_pe_offset(b: Seq<u8>) -> int {
    le_u32(b, 0x3c)
}

/// The DOS and PE signatures are present and the fixed PE header fits.
pub open spec fn pe_signatures_ok(b: Seq<u8>) -> bool {
    &&& b.len() >= 0x40
    &&& b[0] == 0x4d && b[1] == 0x5a
    &&& spec_pe_offset(b) + 4 <= b.len()
    &&& b[spec_pe_offset(b)] == 0x50 && b[spec_pe_offset(b) + 1] == 0x45 && b[spec_pe_offset(b)
        + 2] == 0 && b[spec_pe_offset(b) + 3] == 0
    &&& spec_pe_offset(b) + 24 <= b.len()
}

/// The machine identifier word of the PE header.
pub open spec fn spec_machine_word(b: Seq<u8>) -> int {
    le_u16(b, spec_pe_offset(b) + 4)
}

/// How many sections the header declares.
pub open spec fn spec_num_sections(b: Seq<u8>) -> int {
    le_u16(b, spec_pe_offset(b) + 6)
}

/// Size of the optional header.
pub open spec fn spec_opt_header_size(b: Seq<u8>) -> int {
    le_u16(b, spec_pe_offset(b) + 20)
}

/// The image base: a 32-bit field on i386, a 64-bit field on amd64.
pub open spec fn spec_image_base(b: Seq<u8>) -> int {
    if spec_machine_word(b) == IMAGE_FILE_MACHINE_I386 {
        le_u32(b, spec_pe_offset(b) + 52)
    } else {
        le_u64(b, spec_pe_offset(b) + 48)
    }
}

/// The entry point: its header field is an offset from the image base.
pub open spec fn spec_entry_point(b: Seq<u8>) -> int {
    spec_image_base(b) + le_u32(b, spec_pe_offset(b) + 0x28)
}

/// Where the section table starts.
pub open spec fn spec_section_offset(b: Seq<u8>) -> int {
    spec_pe_offset(b) + 0x18 + spec_opt_header_size(b)
}

/// Everything `parse` checks: signatures, room for the fields it reads, an
/// entry point that fits a machine word, and a section table inside the
/// buffer.
pub open spec fn pe_parse_ok(b: Seq<u8>) -> bool {
    &&& pe_signatures_ok(b)
    &&& spec_pe_offset(b) + 56 <= b.len()
    &&& spec_entry_point(b) <= u64::MAX
    &&& spec_section_offset(b) + spec_num_sections(b) * 0x28 <= b.len()
}

/// The header fields of a parsed image, with the bytes they came from.
pub struct PeView {
    pub bytes: Seq<u8>,
    pub machine: PeMachine,
    pub image_base: u64,
    pub entry_point: u64,
    pub num_sections: int,
    pub section_offset: int,
}

/// A parsed PE image: the header fields needed to walk the section table.
#[derive(Debug)]
pub struct PeParser<'a> {
    bytes: &'a [u8],
    machine: PeMachine,
    image_base: u64,
    entry_point: u64,
    num_sections: usize,
    section_offset: usize,
}

impl<'a> View for PeParser<'a> {
    type V = PeView;

    closed spec fn view(&self) -> PeView {
        PeView {
            bytes: self.bytes@,
            machine: self.machine,
            image_base: self.image_base,
            entry_point: self.entry_point,
            num_sections: self.num_sections as int,
            section_offset: self.section_offset as int,
        }
    }
}

/// One section of the image: where it loads, how large it is in memory,
/// and which bytes of the file hold its raw data (never more than the
/// buffer holds).
#[derive(Copy, Clone, Debug, PartialEq, Eq, Structural)]
pub struct PeSection {
    pub address: u64,
    pub virtual_size: u32,
    pub raw_offset: usize,
    pub raw_size: usize,
}

/// How many raw bytes of section `k` are loaded: the smaller of the raw
/// and in-memory sizes.
pub open spec fn spec_section_take(b: Seq<u8>, off: int) -> int {
    if le_u32(b, off + 16) < le_u32(b, off + 8) {
        le_u32(b, off + 16)
    } else {
        le_u32(b, off + 8)
    }
}

/// Section `k` can be handed out: its table entry is in the buffer, its
/// load address fits a machine word, and its raw bytes are in the buffer.
pub open spec fn section_ok(p: PeView, k: int) -> bool {
    let off = p.section_offset + k * 0x28;
    &&& off + 24 <= p.bytes.len()
    &&& p.image_base + le_u32(p.bytes, off + 12) <= u64::MAX
    &&& le_u32(p.bytes, off + 20) + spec_section_take(p.bytes, off) <= p.bytes.len()
}

/// The descriptor `s` holds exactly section `k`'s table fields.
pub open spec fn section_matches(p: PeView, k: int, s: PeSection) -> bool {
    let off = p.section_offset + k * 0x28;
    &&& s.address == p.image_base + le_u32(p.bytes, off + 12)
    &&& s.virtual_size == le_u32(p.bytes, off + 8)
    &&& s.raw_offset == le_u32(p.bytes, off + 20)
    &&& s.raw_size == spec_section_take(p.bytes, off)
}

impl<'a> PeParser<'a> {
    /// Reads the headers of a PE image. Returns a parser exactly when the
    /// signatures are in place, the headers and the section table fit in
    /// the buffer, and the entry point fits a machine word. Images whose
    /// headers are intact but whose machine kind is unknown are a caller
    /// error: this loader has nowhere to send them.
    pub fn parse(bytes: &'a [u8]) -> (r: Option<Self>)
        requires
            pe_signatures_ok(bytes@) ==> spec_machine_word(bytes@) == IMAGE_FILE_MACHINE_I386
                || spec_machine_word(bytes@) == IMAGE_FILE_MACHINE_AMD64,
        ensures
            (r is Some) <==> pe_parse_ok(bytes@),
            (r matches Some(p) ==> {
                &&& p@.bytes == bytes@
                &&& (p@.machine is I386) == (spec_machine_word(bytes@)
                    == IMAGE_FILE_MACHINE_I386)
                &&& (p@.machine is AMD64) == (spec_machine_word(bytes@)
                    == IMAGE_FILE_MACHINE_AMD64)
                &&& p@.image_base == spec_image_base(bytes@)
                &&& p@.entry_point == spec_entry_point(bytes@)
                &&& p@.num_sections == spec_num_sections(bytes@)
                &&& p@.section_offset == spec_section_offset(bytes@)
            }),
    {
        let n: usize = bytes.len();
        if n < 0x40 {
            return None;
        }
        if !(bytes[0] == 0x4d && bytes[1] == 0x5a) {
            return None;
        }
        let pe_offset = read_u32(bytes, 0x3c) as usize;
        if pe_offset > n - 4 {
            return None;
        }
        if !(bytes[pe_offset] == 0x50 && bytes[pe_offset + 1] == 0x45 && bytes[pe_offset + 2] == 0
            && bytes[pe_offset + 3] == 0) {
            return None;
        }
        if pe_offset > n - 24 {
            return None;
        }
        let machine_word = read_u16(bytes, pe_offset + 4);
        if machine_word != IMAGE_FILE_MACHINE_I386 && machine_word != IMAGE_FILE_MACHINE_AMD64 {
            proof {
                // Excluded by precondition: the signatures are in place
                // here, so the machine kind is known.
                assert(pe_signatures_ok(bytes@));
                assert(false);
            }
            return None;
        }
        let machine = if machine_word == IMAGE_FILE_MACHINE_I386 {
            PeMachine::I386
        } else {
            PeMachine::AMD64
        };
        let num_sections = read_u16(bytes, pe_offset + 6) as usize;
        let optional_header_size = read_u16(bytes, pe_offset + 20) as usize;
        if pe_offset > n - 56 {
            return None;
        }
        let image_base: u64 = if machine_word == IMAGE_FILE_MACHINE_I386 {
            read_u32(bytes, pe_offset + 52) as u64
        } else {
            read_u64(bytes, pe_offset + 48)
        };
        let entry_offset = read_u32(bytes, pe_offset + 0x28);
        let entry_point = match image_base.checked_add(entry_offset as u64) {
            Some(entry_point) => entry_point,
            None => {
                return None;
            },
        };
        let sections_size = match num_sections.checked_mul(0x28) {
            Some(sections_size) => sections_size,
            None => {
                return None;
            },
        };
        let after_fixed = match pe_offset.checked_add(0x18) {
            Some(after_fixed) => after_fixed,
            None => {
                return None;
            },
        };
        let section_offset = match after_fixed.checked_add(optional_header_size) {
            Some(section_offset) => section_offset,
            None => {
                return None;
            },
        };
        let header_size = match section_offset.checked_add(sections_size) {
            Some(header_size) => header_size,
            None => {
                return None;
            },
        };
        if header_size > n {
            return None;
        }
        Some(PeParser { bytes, machine, image_base, entry_point, num_sections, section_offset })
    }

    /// The descriptors of all sections, in table order. Returns them
    /// exactly when every section's table entry and raw bytes lie in the
    /// buffer and its load address fits a machine word.
    pub fn sections(&self) -> (r: Option<Vec<PeSection>>)
        ensures
            (r is Some) <==> (forall|k: int|
                0 <= k < self@.num_sections ==> #[trigger] section_ok(self@, k)),
            (r matches Some(v) ==> {
                &&& v@.len() == self@.num_sections
                &&& forall|k: int|
                    0 <= k < v@.len() ==> #[trigger] section_matches(self@, k, v@[k])
            }),
    {
        let bytes = self.bytes;
        let n: usize = bytes.len();
        let mut result: Vec<PeSection> = Vec::new();
        let mut k: usize = 0;
        while k < self.num_sections
            invariant
                k <= self.num_sections,
                n == bytes@.len(),
                bytes@ == self@.bytes,
                self@.num_sections == self.num_sections as int,
                self@.section_offset == self.section_offset as int,
                self@.image_base == self.image_base,
                result@.len() == k,
                forall|i: int| 0 <= i < k ==> #[trigger] section_ok(self@, i),
                forall|i: int| 0 <= i < k ==> #[trigger] section_matches(self@, i, result@[i]),
            decreases self.num_sections - k,
        {
            let stride = match k.checked_mul(0x28) {
                Some(stride) => stride,
                None => {
                    proof {
                        assert(!section_ok(self@, k as int));
                    }
                    return None;
                },
            };
            let off = match self.section_offset.checked_add(stride) {
                Some(off) => off,
                None => {
                    proof {
                        assert(!section_ok(self@, k as int));
                    }
                    return None;
                },
            };
            let end = match off.checked_add(24) {
                Some(end) => end,
                None => {
                    proof {
                        assert(!section_ok(self@, k as int));
                    }
                    return None;
                },
            };
            if end > n {
                proof {
                    assert(!section_ok(self@, k as int));
                }
                return None;
            }
            let virtual_size = read_u32(bytes, off + 8);
            let virtual_address = read_u32(bytes, off + 12);
            let raw_size_field = read_u32(bytes, off + 16);
            let raw_offset_32 = read_u32(bytes, off + 20);
            let address = match self.image_base.checked_add(virtual_address as u64) {
                Some(address) => address,
                None => {
                    proof {
                        assert(!section_ok(self@, k as int));
                    }
                    return None;
                },
            };
            let taken = if raw_size_field < virtual_size {
                raw_size_field
            } else {
                virtual_size
            };
            if (raw_offset_32 as u64) + (taken as u64) > (n as u64) {
                proof {
                    assert(!section_ok(self@, k as int));
                }
                return None;
            }
            result.push(
                PeSection {
                    address,
                    virtual_size,
                    raw_offset: raw_offset_32 as usize,
                    raw_size: taken as usize,
                },
            );
            proof {
                assert(section_ok(self@, k as int));
                assert(section_matches(self@, k as int, result@[k as int]));
            }
            k += 1;
        }
        Some(result)
    }
}

} // verus!
