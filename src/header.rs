use vstd::prelude::*;
use vstd::slice::slice_subrange;
use crate::error::{typed, Error, ErrorType, Result};
use crate::tags::{be_u32, stream, Tags};

verus! {

pub const DEVICE_TREE_MAGIC: u32 = 0xD00DFEED;

/// The only last-compatible version this decoder understands.
pub const SUPPORTED_VERSION: u32 = 17;

/// The length of the fixed header: ten 32-bit words.
pub const HEADER_LEN: u32 = 40;

/// The fixed header of a blob, with every field in native byte order.
#[derive(Debug, Clone, Copy)]
pub struct Header {
    pub magic: u32,
    pub total_size: u32,
    pub off_dt_struct: u32,
    pub off_dt_strings: u32,
    pub off_mem_rsvmap: u32,
    pub version: u32,
    pub last_comp_version: u32,
    pub boot_cpuid_phys: u32,
    pub size_dt_strings: u32,
    pub size_dt_struct: u32,
}

/// The header stored at the start of `b`.
pub open spec fn header_of(b: Seq<u8>) -> Header {
    Header {
        magic: be_u32(b, 0),
        total_size: be_u32(b, 4),
        off_dt_struct: be_u32(b, 8),
        off_dt_strings: be_u32(b, 12),
        off_mem_rsvmap: be_u32(b, 16),
        version: be_u32(b, 20),
        last_comp_version: be_u32(b, 24),
        boot_cpuid_phys: be_u32(b, 28),
        size_dt_strings: be_u32(b, 32),
        size_dt_struct: be_u32(b, 36),
    }
}

/// `a + b`, or `u32::MAX` where the sum does not fit.
pub open spec fn sum_or_max(a: u32, b: u32) -> u32 {
    if a + b > u32::MAX {
        u32::MAX
    } else {
        (a + b) as u32
    }
}

/// The first invariant that `h` breaks, as the error that reports it, tagged with the
/// offset of the field that failed.
pub open spec fn header_fault(h: Header) -> Option<Error> {
    if h.magic != DEVICE_TREE_MAGIC {
        Some(typed(ErrorType::InvalidMagic { wrong_magic: h.magic }, 0))
    } else if h.last_comp_version > SUPPORTED_VERSION {
        Some(
            typed(
                ErrorType::IncompatibleVersion {
                    last_comp_version: h.last_comp_version,
                    library_supported_version: SUPPORTED_VERSION,
                },
                24,
            ),
        )
    } else if h.total_size < HEADER_LEN {
        Some(
            typed(
                ErrorType::HeaderTooShort {
                    header_length: h.total_size,
                    at_least_length: HEADER_LEN,
                },
                4,
            ),
        )
    } else if h.off_dt_struct < HEADER_LEN {
        Some(
            typed(
                ErrorType::StructureIndex {
                    current_index: h.off_dt_struct,
                    bound_index: HEADER_LEN,
                    structure_or_string: true,
                    overflow_or_underflow: false,
                },
                8,
            ),
        )
    } else if h.off_dt_struct + h.size_dt_struct > h.total_size {
        Some(
            typed(
                ErrorType::StructureIndex {
                    current_index: sum_or_max(h.off_dt_struct, h.size_dt_struct),
                    bound_index: h.total_size,
                    structure_or_string: true,
                    overflow_or_underflow: true,
                },
                36,
            ),
        )
    } else if h.off_dt_strings < HEADER_LEN {
        Some(
            typed(
                ErrorType::StructureIndex {
                    current_index: h.off_dt_strings,
                    bound_index: HEADER_LEN,
                    structure_or_string: false,
                    overflow_or_underflow: false,
                },
                12,
            ),
        )
    } else if h.off_dt_strings + h.size_dt_strings > h.total_size {
        Some(
            typed(
                ErrorType::StructureIndex {
                    current_index: sum_or_max(h.off_dt_strings, h.size_dt_strings),
                    bound_index: h.total_size,
                    structure_or_string: false,
                    overflow_or_underflow: true,
                },
                32,
            ),
        )
    } else {
        None
    }
}

/// Each header invariant, checked in order, is reported with its own error kind and with
/// the offset of the field that breaks it: `magic` at 0, `last_comp_version` at 24,
/// `total_size` at 4, `off_dt_struct` at 8, `size_dt_struct` at 36, `off_dt_strings` at 12,
/// `size_dt_strings` at 32. A header that keeps them all has no fault.
pub proof fn lemma_header_faults(h: Header)
    ensures
        h.magic != DEVICE_TREE_MAGIC ==> header_fault(h) == Some(
            typed(ErrorType::InvalidMagic { wrong_magic: h.magic }, 0),
        ),
        h.magic == DEVICE_TREE_MAGIC && h.last_comp_version > SUPPORTED_VERSION ==> (header_fault(h)
            matches Some(Error::Typed { error_type: ErrorType::IncompatibleVersion { .. }, file_index })
            && file_index == 24),
        h.magic == DEVICE_TREE_MAGIC && h.last_comp_version <= SUPPORTED_VERSION && h.total_size
            < HEADER_LEN ==> (header_fault(h) matches Some(
            Error::Typed { error_type: ErrorType::HeaderTooShort { .. }, file_index },
        ) && file_index == 4),
        h.magic == DEVICE_TREE_MAGIC && h.last_comp_version <= SUPPORTED_VERSION && h.total_size
            >= HEADER_LEN && h.off_dt_struct < HEADER_LEN ==> (header_fault(h) matches Some(
            Error::Typed {
                error_type: ErrorType::StructureIndex {
                    structure_or_string: true,
                    overflow_or_underflow: false,
                    ..
                },
                file_index,
            },
        ) && file_index == 8),
        h.magic == DEVICE_TREE_MAGIC && h.last_comp_version <= SUPPORTED_VERSION && h.total_size
            >= HEADER_LEN && h.off_dt_struct >= HEADER_LEN && h.off_dt_struct + h.size_dt_struct
            > h.total_size ==> (header_fault(h) matches Some(
            Error::Typed {
                error_type: ErrorType::StructureIndex {
                    structure_or_string: true,
                    overflow_or_underflow: true,
                    ..
                },
                file_index,
            },
        ) && file_index == 36),
        h.magic == DEVICE_TREE_MAGIC && h.last_comp_version <= SUPPORTED_VERSION && h.total_size
            >= HEADER_LEN && h.off_dt_struct >= HEADER_LEN && h.off_dt_struct + h.size_dt_struct
            <= h.total_size && h.off_dt_strings < HEADER_LEN ==> (header_fault(h) matches Some(
            Error::Typed {
                error_type: ErrorType::StructureIndex {
                    structure_or_string: false,
                    overflow_or_underflow: false,
                    ..
                },
                file_index,
            },
        ) && file_index == 12),
        h.magic == DEVICE_TREE_MAGIC && h.last_comp_version <= SUPPORTED_VERSION && h.total_size
            >= HEADER_LEN && h.off_dt_struct >= HEADER_LEN && h.off_dt_struct + h.size_dt_struct
            <= h.total_size && h.off_dt_strings >= HEADER_LEN && h.off_dt_strings
            + h.size_dt_strings > h.total_size ==> (header_fault(h) matches Some(
            Error::Typed {
                error_type: ErrorType::StructureIndex {
                    structure_or_string: false,
                    overflow_or_underflow: true,
                    ..
                },
                file_index,
            },
        ) && file_index == 32),
        header_fault(h) is None <==> {
            &&& h.magic == DEVICE_TREE_MAGIC
            &&& h.last_comp_version <= SUPPORTED_VERSION
            &&& h.total_size >= HEADER_LEN
            &&& h.off_dt_struct >= HEADER_LEN
            &&& h.off_dt_struct + h.size_dt_struct <= h.total_size
            &&& h.off_dt_strings >= HEADER_LEN
            &&& h.off_dt_strings + h.size_dt_strings <= h.total_size
        },
{
}

/// The big-endian word at `b[i..i + 4]`.
fn read_be_u32(b: &[u8], i: usize) -> (r: u32)
    requires
        i + 4 <= b@.len(),
    ensures
        r == be_u32(b@, i as int),
{
    let a = b[i] as u32;
    let c = b[i + 1] as u32;
    let d = b[i + 2] as u32;
    let e = b[i + 3] as u32;
    a * 0x1000000 + c * 0x10000 + d * 0x100 + e
}

fn sum_saturating(a: u32, b: u32) -> (r: u32)
    ensures
        r == sum_or_max(a, b),
{
    if a > u32::MAX - b {
        u32::MAX
    } else {
        a + b
    }
}

impl Header {
    /// Reads the header at the start of `buf`.
    pub fn parse(buf: &[u8]) -> (r: Header)
        requires
            buf@.len() >= HEADER_LEN,
        ensures
            r == header_of(buf@),
    {
        Header {
            magic: read_be_u32(buf, 0),
            total_size: read_be_u32(buf, 4),
            off_dt_struct: read_be_u32(buf, 8),
            off_dt_strings: read_be_u32(buf, 12),
            off_mem_rsvmap: read_be_u32(buf, 16),
            version: read_be_u32(buf, 20),
            last_comp_version: read_be_u32(buf, 24),
            boot_cpuid_phys: read_be_u32(buf, 28),
            size_dt_strings: read_be_u32(buf, 32),
            size_dt_struct: read_be_u32(buf, 36),
        }
    }

    /// Checks the header's invariants in order and reports the first that fails.
    pub fn validate(&self) -> (r: Result<()>)
        ensures
            match header_fault(*self) {
                Some(e) => r == Err::<(), Error>(e),
                None => r is Ok,
            },
    {
        if self.magic != DEVICE_TREE_MAGIC {
            return Err(Error::invalid_magic(self.magic, 0));
        }
        if self.last_comp_version > SUPPORTED_VERSION {
            return Err(Error::incompatible_version(self.last_comp_version, SUPPORTED_VERSION, 24));
        }
        if self.total_size < HEADER_LEN {
            return Err(Error::header_too_short(self.total_size, HEADER_LEN, 4));
        }
        if self.off_dt_struct < HEADER_LEN {
            return Err(Error::structure_index_underflow(self.off_dt_struct, HEADER_LEN, 8));
        }
        if self.off_dt_struct > self.total_size || self.size_dt_struct > self.total_size
            - self.off_dt_struct {
            let end = sum_saturating(self.off_dt_struct, self.size_dt_struct);
            return Err(Error::structure_index_overflow(end, self.total_size, 36));
        }
        if self.off_dt_strings < HEADER_LEN {
            return Err(Error::string_index_underflow(self.off_dt_strings, HEADER_LEN, 12));
        }
        if self.off_dt_strings > self.total_size || self.size_dt_strings > self.total_size
            - self.off_dt_strings {
            let end = sum_saturating(self.off_dt_strings, self.size_dt_strings);
            return Err(Error::string_index_overflow(end, self.total_size, 32));
        }
        Ok(())
    }
}

/// A validated blob: its header and the bytes that follow it, up to `total_size`.
#[derive(Debug, Clone, Copy)]
pub struct DeviceTree<'a> {
    header: Header,
    data: &'a [u8],
}

impl<'a> DeviceTree<'a> {
    pub closed spec fn header(&self) -> Header {
        self.header
    }

    /// The bytes after the header.
    pub closed spec fn data(&self) -> Seq<u8> {
        self.data@
    }

    pub open spec fn wf(&self) -> bool {
        &&& header_fault(self.header()) is None
        &&& self.data().len() + HEADER_LEN == self.header().total_size
        &&& self.data().len() + HEADER_LEN + 3 <= usize::MAX
    }

    /// The structure block.
    pub open spec fn structure_block(&self) -> Seq<u8> {
        let start = self.header().off_dt_struct - HEADER_LEN;
        self.data().subrange(start, start + self.header().size_dt_struct)
    }

    /// The string table.
    pub open spec fn string_block(&self) -> Seq<u8> {
        let start = self.header().off_dt_strings - HEADER_LEN;
        self.data().subrange(start, start + self.header().size_dt_strings)
    }

    /// Validates the header at the start of `buf` and views the blob that it describes.
    ///
    /// A buffer shorter than the header's `total_size` is refused with
    /// `SliceEofUnexpected`, tagged with the offset of `total_size`.
    pub fn from_bytes(buf: &'a [u8]) -> (r: Result<DeviceTree<'a>>)
        requires
            buf@.len() >= HEADER_LEN,
            buf@.len() + 3 <= usize::MAX,
        ensures
            ({
                let h = header_of(buf@);
                match header_fault(h) {
                    Some(e) => r == Err::<DeviceTree<'a>, Error>(e),
                    None => if h.total_size > buf@.len() {
                        r == Err::<DeviceTree<'a>, Error>(
                            typed(
                                ErrorType::SliceEofUnexpected {
                                    expected_length: h.total_size,
                                    remaining_length: buf@.len() as u32,
                                },
                                4,
                            ),
                        )
                    } else {
                        &&& r is Ok
                        &&& r->Ok_0.wf()
                        &&& r->Ok_0.header() == h
                        &&& r->Ok_0.data() == buf@.subrange(HEADER_LEN as int, h.total_size as int)
                    },
                }
            }),
    {
        let header = Header::parse(buf);
        match header.validate() {
            Ok(()) => {},
            Err(e) => return Err(e),
        }
        let total = header.total_size as usize;
        if total > buf.len() {
            return Err(Error::slice_eof_unpexpected(header.total_size, buf.len() as u32, 4));
        }
        Ok(DeviceTree { header, data: slice_subrange(buf, HEADER_LEN as usize, total) })
    }

    /// A reader over the structure block, resolving names in the string table; it reports
    /// absolute offsets.
    pub fn tags(&self) -> (r: Tags<'a>)
        requires
            self.wf(),
        ensures
            r.wf(),
            r.structure_view() == self.structure_block(),
            r.table_view() == self.string_block(),
            r.cursor() == 0,
            r.offset() == self.header().off_dt_struct,
            !r.is_finished(),
            r.rest() == stream(
                self.structure_block(),
                self.string_block(),
                0,
                self.header().off_dt_struct as int,
            ),
    {
        let structure_addr = (self.header.off_dt_struct - HEADER_LEN) as usize;
        let structure_len = self.header.size_dt_struct as usize;
        let strings_addr = (self.header.off_dt_strings - HEADER_LEN) as usize;
        let strings_len = self.header.size_dt_strings as usize;
        Tags::new(
            slice_subrange(self.data, structure_addr, structure_addr + structure_len),
            slice_subrange(self.data, strings_addr, strings_addr + strings_len),
            self.header.off_dt_struct as usize,
        )
    }
}

} // verus!
