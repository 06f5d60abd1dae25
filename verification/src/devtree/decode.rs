use vstd::prelude::*;

verus! {

/// The header at the start of a flattened device tree blob.
pub struct Header {
    pub magic: u32,
    pub totalsize: u32,
    pub off_dt_struct: u32,
    pub off_dt_string: u32,
    pub off_mem_rsvmap: u32,
    pub version: u32,
    pub last_comp_version: u32,
    pub boot_cpuid_phys: u32,
    pub size_dt_strings: u32,
    pub size_dt_struct: u32,
}

/// An entry of the memory reservation block.
pub struct FdtReserveEntry {
    pub addr: u64,
    pub size: u64,
}

/// A property of a node: its name and its value.
pub struct FdtNodeProperty<'a> {
    name: &'a str,
    data: &'a [u8],
}

} // verus!
