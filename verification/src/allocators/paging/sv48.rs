use vstd::prelude::*;

verus! {

use super::table::{PTEFlagSet, PTEFlags};

/// An Sv48 page-table entry: flags in bits 0..8, two bits for software in bits 8..10, and the
/// physical page number from bit 10 on.
pub struct PTEntry(pub u64);

/// A virtual address.
pub struct VAddr(pub u64);

/// A physical address.
pub struct PAddr(pub u64);

/// The physical page number that `set_ppn` writes into entry bits `x`.
pub open spec fn ppn_written(x: u64, ppn: Seq<u64>) -> u64 {
    (x & !(0xfff_ffff_ffffu64 << 10u64)) | (ppn[0] & 0x1ff) << 10u64 | (ppn[1] & 0x1ff) << 19u64
        | (ppn[2] & 0x1ff) << 28u64 | (ppn[3] & 0x1_ffff) << 27u64
}

/// The page-number fields of entry bits `x`.
pub open spec fn entry_ppn(x: u64) -> Seq<u64> {
    seq![(x >> 10u64) & 0x1ff, (x >> 19u64) & 0x1ff, (x >> 28u64) & 0x1ff, (x >> 37u64) & 0x1_ffff]
}

/// The page-number fields of address `x`.
pub open spec fn addr_ppn(x: u64) -> Seq<u64> {
    seq![(x >> 12u64) & 0x1ff, (x >> 21u64) & 0x1ff, (x >> 30u64) & 0x1ff, (x >> 39u64) & 0x1_ffff]
}

/// The address whose page-number fields are `ppn`, each cut to its width.
pub open spec fn ppn_addr(ppn: Seq<u64>) -> u64 {
    ((ppn[0] & 0x1ff) << 12u64) | ((ppn[1] & 0x1ff) << 21u64) | ((ppn[2] & 0x1ff) << 30u64) | ((
    ppn[3] & 0x1_ffff) << 39u64)
}

/// Page-number fields cut to their widths.
pub open spec fn ppn_masked(ppn: Seq<u64>) -> Seq<u64> {
    seq![ppn[0] & 0x1ff, ppn[1] & 0x1ff, ppn[2] & 0x1ff, ppn[3] & 0x1_ffff]
}

impl PTEntry {
    /// The flags in bits 0..8.
    pub fn get_flags(&self) -> (r: PTEFlagSet)
        ensures
            r.value() == self.0 & 0xff,
    {
        PTEFlagSet::from_bits_truncate(self.0)
    }

    /// Writes the flags into bits 0..8.
    pub fn set_flags(&mut self, flags: PTEFlagSet)
        ensures
            final(self).0 == (old(self).0 & !0xffu64) | flags.value(),
            final(self).0 & 0xff == flags.value(),
            final(self).0 & !0xffu64 == old(self).0 & !0xffu64,
    {
        let b = flags.bits();
        let x = self.0;
        assert(((x & !0xffu64) | b) & 0xff == b && ((x & !0xffu64) | b) & !0xffu64 == x & !0xffu64)
            by (bit_vector)
            requires
                b < 256,
        ;
        self.0 = (self.0 & !0xff) | b;
    }

    /// The two bits for software, bits 8..10.
    pub fn get_rsw(&self) -> (r: u64)
        ensures
            r == (self.0 >> 8u64) & 0b11,
    {
        (self.0 >> 8) & 0b11
    }

    /// Writes the low two bits of `rsw` into bits 8..10.
    pub fn set_rsw(&mut self, rsw: u64)
        ensures
            (final(self).0 >> 8u64) & 0b11 == rsw & 0b11,
            final(self).0 & !0x300u64 == old(self).0 & !0x300u64,
    {
        let x = self.0;
        let n = (x & !(0b11 << 8)) | ((rsw & 0b11) << 8);
        assert((n >> 8u64) & 0b11 == rsw & 0b11 && n & !0x300u64 == x & !0x300u64) by (bit_vector)
            requires
                n == (x & !(0b11u64 << 8u64)) | ((rsw & 0b11) << 8u64),
        ;
        self.0 = n;
    }

    /// The four physical page-number fields, lowest first.
    pub fn get_ppn(&self) -> (r: [u64; 4])
        ensures
            r@ == entry_ppn(self.0),
    {
        let r = [
            (self.0 >> 10) & 0x1ff,
            (self.0 >> 19) & 0x1ff,
            (self.0 >> 28) & 0x1ff,
            (self.0 >> 37) & 0x1_ffff,
        ];
        assert(r@ =~= entry_ppn(self.0));
        r
    }

    /// Writes the page-number fields `ppn` into bits 10..54; the last field is shifted by 27
    /// bits, as the other fields' widths sum to.
    pub fn set_ppn(&mut self, ppn: [u64; 4])
        ensures
            final(self).0 == ppn_written(old(self).0, ppn@),
    {
        self.0 = (self.0 & !(0xfff_ffff_ffff << 10)) | (ppn[0] & 0x1ff) << 10 | (ppn[1] & 0x1ff)
            << 19 | (ppn[2] & 0x1ff) << 28 | (ppn[3] & 0x1_ffff) << 27;
    }

    /// The entry has its valid flag.
    pub fn is_valid(&self) -> (r: bool)
        ensures
            r == (self.0 & 1 == 1),
    {
        let x = self.0;
        assert((x & 0xff) & 1 == x & 1) by (bit_vector);
        self.get_flags().contains(PTEFlags::Valid)
    }

    /// The entry maps a page (it allows reading, writing or executing) rather than naming a
    /// table below.
    pub fn is_leaf(&self) -> (r: bool)
        ensures
            r == (self.0 & 0b1110 != 0),
    {
        let x = self.0;
        assert((x & 0xff) & 14 == x & 14) by (bit_vector);
        let rwx = PTEFlagSet::from_flag(PTEFlags::Read).with(PTEFlags::Write).with(PTEFlags::Exec);
        assert(((2u64 | 4u64) | 8u64) == 14u64) by (bit_vector);
        self.get_flags().intersects(rwx)
    }

    /// The entry with the flags added.
    pub fn bitor(self, rhs: PTEFlagSet) -> (r: PTEntry)
        ensures
            r.0 == self.0 | rhs.value(),
    {
        PTEntry(self.0 | rhs.bits())
    }

    /// The entry with only the flags of `rhs` kept.
    pub fn bitand(self, rhs: PTEFlagSet) -> (r: PTEntry)
        ensures
            r.0 == self.0 & (!0xffu64 | rhs.value()),
    {
        PTEntry(self.0 & (!0xff | rhs.bits()))
    }
}

impl VAddr {
    /// The four virtual page numbers, lowest level first.
    pub fn get_vpn(&self) -> (r: [u64; 4])
        ensures
            r@ == seq![
                (self.0 >> 12u64) & 0x1ff,
                (self.0 >> 21u64) & 0x1ff,
                (self.0 >> 30u64) & 0x1ff,
                (self.0 >> 39u64) & 0x1ff,
            ],
    {
        let r = [(self.0 >> 12) & 0x1ff, (self.0 >> 21) & 0x1ff, (self.0 >> 30) & 0x1ff, (self.0
            >> 39) & 0x1ff];
        assert(r@ =~= seq![
            (self.0 >> 12u64) & 0x1ff,
            (self.0 >> 21u64) & 0x1ff,
            (self.0 >> 30u64) & 0x1ff,
            (self.0 >> 39u64) & 0x1ff,
        ]);
        r
    }

    /// The virtual address of `value`'s low 47 bits.
    pub fn from_u64(value: u64) -> (r: Self)
        ensures
            r.0 == value & 0x7fff_ffff_ffff,
    {
        Self(value & 0x7fff_ffff_ffff)
    }
}

impl PAddr {
    /// The four physical page-number fields, lowest first.
    pub fn get_ppn(&self) -> (r: [u64; 4])
        ensures
            r@ == addr_ppn(self.0),
    {
        let r = [(self.0 >> 12) & 0x1ff, (self.0 >> 21) & 0x1ff, (self.0 >> 30) & 0x1ff, (self.0
            >> 39) & 0x1_ffff];
        assert(r@ =~= addr_ppn(self.0));
        r
    }

    /// The address whose page-number fields are `ppn`.
    pub fn from_ppn(ppn: [u64; 4]) -> (r: Self)
        ensures
            r.0 == ppn_addr(ppn@),
    {
        Self(
            ((ppn[0] & 0x1ff) << 12) | ((ppn[1] & 0x1ff) << 21) | ((ppn[2] & 0x1ff) << 30) | ((
            ppn[3] & 0x1_ffff) << 39),
        )
    }

    /// The physical address of `value`'s low 55 bits.
    pub fn from_u64(value: u64) -> (r: Self)
        ensures
            r.0 == value & 0x7f_ffff_ffff_ffff,
    {
        Self(value & 0x7f_ffff_ffff_ffff)
    }
}

/// An address's page-number fields give back the address without its page offset and its
/// bits from 56 on.
pub proof fn lemma_addr_ppn_roundtrip(a: u64)
    ensures
        ppn_addr(addr_ppn(a)) == a & 0x00ff_ffff_ffff_f000,
{
    let p = addr_ppn(a);
    assert(((((a >> 12u64) & 0x1ff) & 0x1ff) << 12u64) | ((((a >> 21u64) & 0x1ff) & 0x1ff)
        << 21u64) | ((((a >> 30u64) & 0x1ff) & 0x1ff) << 30u64) | ((((a >> 39u64) & 0x1_ffff)
        & 0x1_ffff) << 39u64) == a & 0x00ff_ffff_ffff_f000) by (bit_vector);
}

/// Page-number fields give back the same fields, each cut to its width, from their address.
pub proof fn lemma_ppn_addr_roundtrip(ppn: Seq<u64>)
    requires
        ppn.len() == 4,
    ensures
        addr_ppn(ppn_addr(ppn)) == ppn_masked(ppn),
{
    let (p0, p1, p2, p3) = (ppn[0], ppn[1], ppn[2], ppn[3]);
    let a = ppn_addr(ppn);
    assert(a == ((p0 & 0x1ff) << 12u64) | ((p1 & 0x1ff) << 21u64) | ((p2 & 0x1ff) << 30u64) | ((
    p3 & 0x1_ffff) << 39u64));
    assert((a >> 12u64) & 0x1ff == p0 & 0x1ff && (a >> 21u64) & 0x1ff == p1 & 0x1ff && (a
        >> 30u64) & 0x1ff == p2 & 0x1ff && (a >> 39u64) & 0x1_ffff == p3 & 0x1_ffff) by (bit_vector)
        requires
            a == ((p0 & 0x1ff) << 12u64) | ((p1 & 0x1ff) << 21u64) | ((p2 & 0x1ff) << 30u64) | ((
            p3 & 0x1_ffff) << 39u64),
    ;
    assert(addr_ppn(a) =~= ppn_masked(ppn));
}

/// Writing page-number fields into an entry keeps its flags and software bits, and, where the
/// last field is zero, reading them back gives the fields cut to their widths.
pub proof fn lemma_entry_ppn_roundtrip(x: u64, ppn: Seq<u64>)
    requires
        ppn.len() == 4,
    ensures
        ppn_written(x, ppn) & 0x3ff == x & 0x3ff,
        ppn[3] & 0x1_ffff == 0 ==> entry_ppn(ppn_written(x, ppn)) == ppn_masked(ppn),
{
    let (p0, p1, p2, p3) = (ppn[0], ppn[1], ppn[2], ppn[3]);
    let n = ppn_written(x, ppn);
    assert(n == (x & !(0xfff_ffff_ffffu64 << 10u64)) | (p0 & 0x1ff) << 10u64 | (p1 & 0x1ff)
        << 19u64 | (p2 & 0x1ff) << 28u64 | (p3 & 0x1_ffff) << 27u64);
    assert(n & 0x3ff == x & 0x3ff) by (bit_vector)
        requires
            n == (x & !(0xfff_ffff_ffffu64 << 10u64)) | (p0 & 0x1ff) << 10u64 | (p1 & 0x1ff)
                << 19u64 | (p2 & 0x1ff) << 28u64 | (p3 & 0x1_ffff) << 27u64,
    ;
    if p3 & 0x1_ffff == 0 {
        assert((n >> 10u64) & 0x1ff == p0 & 0x1ff && (n >> 19u64) & 0x1ff == p1 & 0x1ff && (n
            >> 28u64) & 0x1ff == p2 & 0x1ff && (n >> 37u64) & 0x1_ffff == 0) by (bit_vector)
            requires
                n == (x & !(0xfff_ffff_ffffu64 << 10u64)) | (p0 & 0x1ff) << 10u64 | (p1 & 0x1ff)
                    << 19u64 | (p2 & 0x1ff) << 28u64 | (p3 & 0x1_ffff) << 27u64,
                p3 & 0x1_ffff == 0,
        ;
        assert(entry_ppn(n) =~= ppn_masked(ppn));
    }
}

/// An entry given the page number of an address below 2^39 names that address's page again.
pub proof fn lemma_entry_names_page(x: u64, a: u64)
    requires
        a < 0x80_0000_0000,
    ensures
        ppn_addr(entry_ppn(ppn_written(x, addr_ppn(a)))) == a & 0x7f_ffff_f000,
{
    let p = addr_ppn(a);
    assert((a >> 39u64) & 0x1_ffff == 0) by (bit_vector)
        requires
            a < 0x80_0000_0000u64,
    ;
    lemma_entry_ppn_roundtrip(x, p);
    lemma_addr_ppn_roundtrip(a);
    assert(ppn_masked(p) =~= p) by {
        let (p0, p1, p2, p3) = (p[0], p[1], p[2], p[3]);
        assert(p0 & 0x1ff == p0 && p1 & 0x1ff == p1 && p2 & 0x1ff == p2 && p3 & 0x1_ffff == p3)
            by (bit_vector)
            requires
                p0 == (a >> 12u64) & 0x1ff,
                p1 == (a >> 21u64) & 0x1ff,
                p2 == (a >> 30u64) & 0x1ff,
                p3 == (a >> 39u64) & 0x1_ffff,
        ;
    }
    assert(a & 0x00ff_ffff_ffff_f000 == a & 0x7f_ffff_f000) by (bit_vector)
        requires
            a < 0x80_0000_0000u64,
    ;
}

} // verus!
