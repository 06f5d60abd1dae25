use vstd::prelude::*;

verus! {

use vstd::multiset::Multiset;

use super::sv48::{addr_ppn, entry_ppn, ppn_addr, ppn_written, lemma_entry_names_page, PAddr, PTEntry, VAddr};
use super::{get_zpage, FreePages};

/// The flags of a page-table entry.
#[derive(PartialEq, Eq, Structural, Clone, Copy, Debug)]
pub enum PTEFlags {
    Valid,
    Read,
    Write,
    Exec,
    User,
    Global,
    Accessed,
    Dirty,
}

impl PTEFlags {
    /// The flag's bit in an entry.
    pub open spec fn mask(self) -> u64 {
        match self {
            PTEFlags::Valid => 1,
            PTEFlags::Read => 2,
            PTEFlags::Write => 4,
            PTEFlags::Exec => 8,
            PTEFlags::User => 16,
            PTEFlags::Global => 32,
            PTEFlags::Accessed => 64,
            PTEFlags::Dirty => 128,
        }
    }

    /// The flag's bit in an entry.
    pub fn bit(self) -> (r: u64)
        ensures
            r == self.mask(),
    {
        match self {
            PTEFlags::Valid => 1,
            PTEFlags::Read => 2,
            PTEFlags::Write => 4,
            PTEFlags::Exec => 8,
            PTEFlags::User => 16,
            PTEFlags::Global => 32,
            PTEFlags::Accessed => 64,
            PTEFlags::Dirty => 128,
        }
    }
}

/// A set of page-table entry flags, as the low eight bits of an entry.
#[derive(PartialEq, Eq, Structural, Clone, Copy, Debug)]
pub struct PTEFlagSet {
    bits: u64,
}

impl PTEFlagSet {
    /// The bits of the flags in the set.
    pub closed spec fn value(self) -> u64 {
        self.bits
    }

    #[verifier::type_invariant]
    closed spec fn inv(self) -> bool {
        self.bits < 256
    }

    /// The set with no flag.
    pub fn empty() -> (r: Self)
        ensures
            r.value() == 0,
    {
        PTEFlagSet { bits: 0 }
    }

    /// The set that holds `flag` only.
    pub fn from_flag(flag: PTEFlags) -> (r: Self)
        ensures
            r.value() == flag.mask(),
    {
        PTEFlagSet { bits: flag.bit() }
    }

    /// The flags whose bits `bits` has; other bits are dropped.
    pub fn from_bits_truncate(bits: u64) -> (r: Self)
        ensures
            r.value() == bits & 0xff,
    {
        assert(bits & 0xff < 256) by (bit_vector);
        PTEFlagSet { bits: bits & 0xff }
    }

    /// The bits of the flags in the set.
    pub fn bits(&self) -> (r: u64)
        ensures
            r == self.value(),
            r < 256,
    {
        proof {
            use_type_invariant(self);
        }
        self.bits
    }

    /// The set with `flag` added.
    pub fn with(self, flag: PTEFlags) -> (r: Self)
        ensures
            r.value() == self.value() | flag.mask(),
    {
        proof {
            use_type_invariant(&self);
        }
        let b = self.bits;
        let f = flag.bit();
        assert(b | f < 256) by (bit_vector)
            requires
                b < 256,
                f < 256,
        ;
        PTEFlagSet { bits: b | f }
    }

    /// The set holds `flag`.
    pub fn contains(&self, flag: PTEFlags) -> (r: bool)
        ensures
            r == (self.value() & flag.mask() == flag.mask()),
    {
        self.bits & flag.bit() == flag.bit()
    }

    /// The set holds a flag of `other`.
    pub fn intersects(&self, other: PTEFlagSet) -> (r: bool)
        ensures
            r == (self.value() & other.value() != 0),
    {
        self.bits & other.bits != 0
    }
}

/// The levels of a page table walk, as the number of levels below the root's.
pub enum PTLevel {
    Page,
    MegaPage,
    GigaPage,
    TerraPage,
}

impl PTLevel {
    /// The number of tables below the root at which a mapping of this level is made.
    pub open spec fn depth(self) -> u64 {
        match self {
            PTLevel::Page => 3,
            PTLevel::MegaPage => 2,
            PTLevel::GigaPage => 1,
            PTLevel::TerraPage => 0,
        }
    }

    /// The number of levels below the root at which the mapping is made.
    pub fn value(self) -> (r: u64)
        ensures
            r == self.depth(),
    {
        match self {
            PTLevel::Page => 3,
            PTLevel::MegaPage => 2,
            PTLevel::GigaPage => 1,
            PTLevel::TerraPage => 0,
        }
    }
}

/// Flags that give write access give read access too.
pub fn valid_rwx(flags: PTEFlagSet) -> (r: bool)
    ensures
        r == (flags.value() & 4 == 4 ==> flags.value() & 2 == 2),
{
    if flags.contains(PTEFlags::Write) {
        flags.contains(PTEFlags::Read)
    } else {
        true
    }
}

/// A page table of 512 entries, kept in the physical page `page`. An entry that names a table
/// below has that table in its slot of `tables`.
pub struct PageTable {
    entries: Vec<PTEntry>,
    tables: Vec<Option<Box<PageTable>>>,
    page: usize,
}

/// The bits of the page-number fields of an entry, bits 10..54.
pub open spec fn ppn_bits() -> u64 {
    0x3f_ffff_ffff_fc00u64
}

/// Entry bits `e` name the table in physical page `page`: their page-number fields are those
/// that `set_ppn` writes for that page.
pub open spec fn names_page(e: u64, page: usize) -> bool {
    e & ppn_bits() == ppn_written(0, addr_ppn(page as u64)) & ppn_bits()
}

/// The last `n` pages of the free list `f`, in the order they are taken off it.
pub open spec fn taken(f: Seq<usize>, n: nat) -> Seq<usize> {
    Seq::new(n, |k: int| f[f.len() - 1 - k])
}

/// The pages of the table in slot `o` and of the tables below it, down to `depth` levels below
/// the table that holds the slot.
spec fn slot_pages(o: Option<Box<PageTable>>, depth: nat) -> Multiset<usize> {
    match o {
        Some(t) => t.pages_from(0, (depth - 1) as nat).insert(t.page_of()),
        None => Multiset::empty(),
    }
}

/// Where only the table below entry `i` changes, and its pages grow by those of `added`, the
/// pages below the whole table grow by just those.
proof fn lemma_slot_pages_grow(before: PageTable, after: PageTable, i: int, d: nat, added: Seq<usize>)
    requires
        before.sized(),
        after.sized(),
        0 <= i < 512,
        d > 0,
        forall|k: int| 0 <= k < 512 && k != i ==> after.tables@[k] == before.tables@[k],
        slot_pages(after.tables@[i], d) == slot_pages(before.tables@[i], d).add(added.to_multiset()),
    ensures
        after.pages_from(0, d) == before.pages_from(0, d).add(added.to_multiset()),
{
    before.lemma_pages_update(&after, i, 0, d);
    let (cs, co) = (slot_pages(before.tables@[i], d), slot_pages(after.tables@[i], d));
    assert forall|v: usize| #[trigger] after.pages_from(0, d).count(v) + cs.count(v)
        == before.pages_from(0, d).count(v) + co.count(v) by {
        assert(after.pages_from(0, d).add(cs).count(v) == before.pages_from(0, d).add(co).count(v));
    }
    assert(after.pages_from(0, d) =~= before.pages_from(0, d).add(added.to_multiset()));
}

/// The entries and tables that a mapping adds along its walk: `n` tables, in pages taken off
/// the free list `f`, each named by the entry above it; the first of those entries held `e`
/// before, the others are in fresh tables.
pub open spec fn added_tables(e: u64, f: Seq<usize>, n: nat) -> Seq<(u64, usize)> {
    Seq::new(
        n,
        |k: int|
            (
                mapped_entry(
                    if k == 0 {
                        e
                    } else {
                        0
                    },
                    taken(f, n)[k] as u64,
                    0,
                ),
                taken(f, n)[k],
            ),
    )
}

/// The entry bits that mapping physical address `pa` with `flags` leaves in an entry that held
/// `old`.
pub open spec fn mapped_entry(old: u64, pa: u64, flags: u64) -> u64 {
    (ppn_written(old, addr_ppn(pa)) & !0xffu64) | (flags | 1)
}

/// The virtual page numbers of `vaddr`, lowest level first.
pub open spec fn vpn_of(vaddr: u64) -> Seq<u64> {
    let v = vaddr & 0x7fff_ffff_ffff;
    seq![(v >> 12u64) & 0x1ff, (v >> 21u64) & 0x1ff, (v >> 30u64) & 0x1ff, (v >> 39u64) & 0x1ff]
}

/// The page numbers of an address are below 512.
pub proof fn lemma_vpn_bounds(vaddr: u64)
    ensures
        forall|k: int| 0 <= k < 4 ==> vpn_of(vaddr)[k] < 512,
{
    let v = vaddr & 0x7fff_ffff_ffff;
    assert((v >> 12u64) & 0x1ff < 512 && (v >> 21u64) & 0x1ff < 512 && (v >> 30u64) & 0x1ff < 512
        && (v >> 39u64) & 0x1ff < 512) by (bit_vector);
}

/// The smaller of two numbers.
pub open spec fn min_nat(a: nat, b: nat) -> nat {
    if a < b {
        a
    } else {
        b
    }
}

/// The walks for `v1` and `v2` from page-number index `nr` part within `k` levels below: they
/// take different entries at one of the indices `nr` down to `nr - k`.
pub open spec fn diverge(v1: Seq<u64>, v2: Seq<u64>, nr: int, k: nat) -> bool
    decreases k,
{
    v1[nr] != v2[nr] || (k > 0 && diverge(v1, v2, nr - 1, (k - 1) as nat))
}

impl PageTable {
    /// The bits of entry `i`.
    pub closed spec fn entry_bits(&self, i: int) -> u64 {
        self.entries@[i].0
    }

    /// The table below entry `i`, if there is one.
    pub closed spec fn table_at(&self, i: int) -> Option<Box<PageTable>> {
        self.tables@[i]
    }

    /// The table has 512 entries and 512 slots for tables below.
    pub closed spec fn sized(&self) -> bool {
        self.entries@.len() == 512 && self.tables@.len() == 512
    }

    /// The physical page that holds the table.
    pub closed spec fn page_of(&self) -> usize {
        self.page
    }

    /// The tables below this one, down to `depth` levels, are named by the entries above them:
    /// each such entry is valid and holds the page number of the table's page. There is no
    /// table below `depth` levels.
    pub closed spec fn tables_named(&self, depth: nat) -> bool
        decreases depth,
    {
        &&& self.sized()
        &&& forall|i: int|
            0 <= i < 512 && #[trigger] self.tables@[i] is Some ==> depth > 0 && self.entries@[i].0
                & 1 == 1 && names_page(self.entries@[i].0, self.tables@[i].unwrap().page)
                && self.tables@[i].unwrap().tables_named((depth - 1) as nat)
    }

    /// The entries that the walk for `vpn` from index `nr` goes through to reach the tables
    /// below, down to `level` tables, each with the page of the table it names.
    pub closed spec fn path_tables(&self, vpn: Seq<u64>, nr: int, level: nat) -> Seq<(u64, usize)>
        decreases level,
    {
        let i = vpn[nr] as int;
        if level == 0 || !self.sized() || !(0 <= i < 512) || self.entries@[i].0 & 1 != 1 {
            Seq::empty()
        } else {
            match self.tables@[i] {
                Some(t) => seq![(self.entries@[i].0, t.page)] + t.path_tables(
                    vpn,
                    nr - 1,
                    (level - 1) as nat,
                ),
                None => Seq::empty(),
            }
        }
    }

    /// A walk from this table, at page-number index `nr`, through `level` tables below: the
    /// bits of the entry it ends at, or `None` where an entry on the way is not valid or names
    /// no table.
    pub closed spec fn walk(&self, vpn: Seq<u64>, nr: int, level: nat) -> Option<u64>
        decreases level,
    {
        let i = vpn[nr] as int;
        if !self.sized() || !(0 <= i < 512) {
            None
        } else if level == 0 {
            Some(self.entries@[i].0)
        } else if self.entries@[i].0 & 1 != 1 {
            None
        } else {
            match self.tables@[i] {
                Some(t) => t.walk(vpn, nr - 1, (level - 1) as nat),
                None => None,
            }
        }
    }

    /// The tables on the walk are sized, and each valid entry on it names a table below.
    pub closed spec fn path_ok(&self, vpn: Seq<u64>, nr: int, level: nat) -> bool
        decreases level,
    {
        let i = vpn[nr] as int;
        &&& self.sized()
        &&& 0 <= i < 512
        &&& level > 0 && self.entries@[i].0 & 1 == 1 ==> match self.tables@[i] {
            Some(t) => t.path_ok(vpn, nr - 1, (level - 1) as nat),
            None => false,
        }
    }

    /// The number of tables a mapping along the walk adds: those below its first entry that is
    /// not valid.
    pub closed spec fn pages_needed(&self, vpn: Seq<u64>, nr: int, level: nat) -> nat
        decreases level,
    {
        let i = vpn[nr] as int;
        if level == 0 {
            0
        } else if self.entries@[i].0 & 1 != 1 {
            level
        } else {
            match self.tables@[i] {
                Some(t) => t.pages_needed(vpn, nr - 1, (level - 1) as nat),
                None => 0,
            }
        }
    }

    /// The pages of the tables below this one, counted with their multiplicity: those of the
    /// tables below entries `i` and on, each with the pages of the tables below it, down to
    /// `depth` levels below this one.
    pub closed spec fn pages_from(&self, i: int, depth: nat) -> Multiset<usize>
        decreases depth, 512 - i,
    {
        if i < 0 || i >= 512 || !self.sized() || depth == 0 {
            Multiset::empty()
        } else {
            let here = match self.tables@[i] {
                Some(t) => t.pages_from(0, (depth - 1) as nat).insert(t.page),
                None => Multiset::empty(),
            };
            here.add(self.pages_from(i + 1, depth))
        }
    }

    /// A table with no tables below it has no pages below it.
    proof fn lemma_no_pages(&self, i: int, depth: nat)
        requires
            self.sized(),
            0 <= i <= 512,
            forall|j: int| 0 <= j < 512 ==> self.tables@[j] is None,
        ensures
            self.pages_from(i, depth) == Multiset::<usize>::empty(),
        decreases 512 - i,
    {
        if i < 512 && depth > 0 {
            self.lemma_no_pages(i + 1, depth);
            assert(self.pages_from(i, depth) =~= Multiset::<usize>::empty());
        }
    }

    /// Replacing the table below entry `i` changes the pages below by what the table that was
    /// there and the one that is there now hold.
    proof fn lemma_pages_update(&self, other: &PageTable, i: int, j: int, depth: nat)
        requires
            self.sized(),
            other.sized(),
            0 <= i < 512,
            0 <= j <= 512,
            depth > 0,
            forall|k: int| 0 <= k < 512 && k != i ==> other.tables@[k] == self.tables@[k],
        ensures
            j <= i ==> other.pages_from(j, depth).add(slot_pages(self.tables@[i], depth))
                == self.pages_from(j, depth).add(slot_pages(other.tables@[i], depth)),
            j > i ==> other.pages_from(j, depth) == self.pages_from(j, depth),
        decreases 512 - j,
    {
        if j < 512 {
            self.lemma_pages_update(other, i, j + 1, depth);
            if j > i {
                assert(other.tables@[j] == self.tables@[j]);
                assert(other.pages_from(j, depth) =~= self.pages_from(j, depth));
            } else {
                assert(self.pages_from(j, depth) == slot_pages(self.tables@[j], depth).add(
                    self.pages_from(j + 1, depth),
                ));
                assert(other.pages_from(j, depth) == slot_pages(other.tables@[j], depth).add(
                    other.pages_from(j + 1, depth),
                ));
                let (cs, co) = (slot_pages(self.tables@[i], depth), slot_pages(other.tables@[i], depth));
                let (s1, o1) = (self.pages_from(j + 1, depth), other.pages_from(j + 1, depth));
                if j < i {
                    assert forall|v: usize| #[trigger] o1.count(v) + cs.count(v) == s1.count(v)
                        + co.count(v) by {
                        assert(o1.add(cs).count(v) == s1.add(co).count(v));
                    }
                }
                assert(other.pages_from(j, depth).add(cs) =~= self.pages_from(j, depth).add(co));
            }
        }
    }

    /// A table in page `page` whose entries are all zero: every address can be mapped in it,
    /// with one table added for each level below the root.
    pub fn zeroed(page: usize) -> (r: Self)
        ensures
            r.sized(),
            r.page_of() == page,
            forall|d: nat| #[trigger] r.tables_named(d),
            forall|d: nat| #[trigger] r.pages_from(0, d) == Multiset::<usize>::empty(),
            forall|i: int| 0 <= i < 512 ==> r.entry_bits(i) == 0 && r.table_at(i) is None,
            forall|v: u64, lv: nat|
                #![trigger r.path_ok(vpn_of(v), 3, lv)]
                #![trigger r.pages_needed(vpn_of(v), 3, lv)]
                r.path_ok(vpn_of(v), 3, lv) && r.pages_needed(vpn_of(v), 3, lv) == lv,
    {
        let mut entries: Vec<PTEntry> = Vec::new();
        let mut tables: Vec<Option<Box<PageTable>>> = Vec::new();
        let mut i: usize = 0;
        while i < 512
            invariant
                i <= 512,
                entries@.len() == i,
                tables@.len() == i,
                forall|k: int| 0 <= k < i ==> entries@[k].0 == 0 && tables@[k] is None,
            decreases 512 - i,
        {
            entries.push(PTEntry(0));
            tables.push(None);
            i = i + 1;
        }
        let r = PageTable { entries, tables, page };
        assert forall|d: nat| #[trigger] r.tables_named(d) by {
            r.lemma_zeroed(seq![0u64], 0, 0);
        }
        assert forall|d: nat| #[trigger] r.pages_from(0, d) == Multiset::<usize>::empty() by {
            r.lemma_no_pages(0, d);
        }
        assert forall|v: u64, lv: nat|
            #![trigger r.path_ok(vpn_of(v), 3, lv)]
            #![trigger r.pages_needed(vpn_of(v), 3, lv)]
            r.path_ok(vpn_of(v), 3, lv) && r.pages_needed(vpn_of(v), 3, lv) == lv by {
            lemma_vpn_bounds(v);
            r.lemma_zeroed(vpn_of(v), 3, lv);
        }
        r
    }

    /// The number of tables that mapping `vaddr` `level` tables below this one, from page-number
    /// index `vpn_nr`, adds; `None` where a valid entry on the way names no table.
    fn tables_needed_rec(&self, vaddr: u64, level: u64, vpn_nr: usize) -> (r: Option<u64>)
        requires
            level <= vpn_nr <= 3,
        ensures
            r is Some <==> self.path_ok(vpn_of(vaddr), vpn_nr as int, level as nat),
            r matches Some(n) ==> n == self.pages_needed(vpn_of(vaddr), vpn_nr as int, level as nat),
        decreases level,
    {
        if self.entries.len() != 512 || self.tables.len() != 512 {
            return None;
        }
        let vpn = VAddr::from_u64(vaddr).get_vpn();
        assert(vpn@ =~= vpn_of(vaddr));
        proof {
            lemma_vpn_bounds(vaddr);
        }
        let i = vpn[vpn_nr] as usize;
        if level == 0 {
            return Some(0);
        }
        if !self.entries[i].is_valid() {
            return Some(level);
        }
        match &self.tables[i] {
            Some(t) => t.tables_needed_rec(vaddr, level - 1, vpn_nr - 1),
            None => None,
        }
    }

    /// The number of tables that mapping `vaddr` `level` tables below the root adds (see
    /// `pages_needed`); `None` where a valid entry on the way names no table, such as an entry
    /// that maps a larger page.
    pub fn tables_needed(&self, vaddr: u64, level: u64) -> (r: Option<u64>)
        requires
            level <= 3,
        ensures
            r is Some <==> self.path_ok(vpn_of(vaddr), 3, level as nat),
            r matches Some(n) ==> n == self.pages_needed(vpn_of(vaddr), 3, level as nat),
    {
        self.tables_needed_rec(vaddr, level, 3)
    }

    /// The valid entries from entry `i` on, each with its depth (`indent` here, one more in each
    /// table below), in order; right after a valid entry that maps no page come the entries of
    /// the table below it, down to `levels` tables below this one.
    pub closed spec fn listing_from(&self, i: int, indent: usize, levels: nat) -> Seq<(usize, u64)>
        decreases levels, 512 - i,
    {
        if i < 0 || i >= 512 || !self.sized() {
            Seq::empty()
        } else {
            let e = self.entries@[i].0;
            let below = if e & 0b1110 == 0 && levels > 0 {
                match self.tables@[i] {
                    Some(t) => t.listing_from(0, (indent + 1) as usize, (levels - 1) as nat),
                    None => Seq::empty(),
                }
            } else {
                Seq::empty()
            };
            let here = if e & 1 == 1 {
                seq![(indent, e)] + below
            } else {
                Seq::empty()
            };
            here + self.listing_from(i + 1, indent, levels)
        }
    }

    fn listing_into(&self, indent: usize, levels: usize, out: &mut Vec<(usize, u64)>)
        requires
            indent + levels <= usize::MAX,
        ensures
            final(out)@ == old(out)@ + self.listing_from(0, indent, levels as nat),
        decreases levels,
    {
        if !self.is_sized() {
            assert(out@ =~= old(out)@ + self.listing_from(0, indent, levels as nat));
            return;
        }
        let mut i: usize = 0;
        assert(old(out)@ + self.listing_from(0, indent, levels as nat) =~= out@ + self.listing_from(
            0,
            indent,
            levels as nat,
        ));
        while i < 512
            invariant
                self.sized(),
                indent + levels <= usize::MAX,
                i <= 512,
                old(out)@ + self.listing_from(0, indent, levels as nat) == out@ + self.listing_from(
                    i as int,
                    indent,
                    levels as nat,
                ),
            decreases 512 - i,
        {
            let ghost rest = self.listing_from(i + 1, indent, levels as nat);
            let ghost before = out@;
            let e = self.entries[i].0;
            let ghost below = if e & 0b1110 == 0 && levels > 0 {
                match self.tables@[i as int] {
                    Some(t) => t.listing_from(0, (indent + 1) as usize, (levels - 1) as nat),
                    None => Seq::empty(),
                }
            } else {
                Seq::empty()
            };
            let entry = &self.entries[i];
            if entry.is_valid() {
                out.push((indent, e));
                if !entry.is_leaf() && levels > 0 {
                    match &self.tables[i] {
                        Some(t) => {
                            t.listing_into(indent + 1, levels - 1, out);
                        },
                        None => {},
                    }
                }
                assert(out@ =~= before + (seq![(indent, e)] + below));
                assert(self.listing_from(i as int, indent, levels as nat) == (seq![(indent, e)]
                    + below) + rest);
                assert(out@ + rest =~= before + self.listing_from(i as int, indent, levels as nat));
            } else {
                assert(self.listing_from(i as int, indent, levels as nat) =~= rest);
            }
            i = i + 1;
        }
        assert(self.listing_from(512, indent, levels as nat) =~= Seq::<(usize, u64)>::empty());
        assert(out@ =~= old(out)@ + self.listing_from(0, indent, levels as nat));
    }

    /// The valid entries of the table and of the tables below it (see `listing_from`), with
    /// their depths: the root's at 0, down to three tables below.
    pub fn listing(&self) -> (r: Vec<(usize, u64)>)
        ensures
            r@ == self.listing_from(0, 0, 3),
    {
        let mut out: Vec<(usize, u64)> = Vec::new();
        self.listing_into(0, 3, &mut out);
        assert(out@ =~= self.listing_from(0, 0, 3));
        out
    }

    /// The physical page that holds the table.
    pub fn page(&self) -> (r: usize)
        ensures
            r == self.page_of(),
    {
        self.page
    }

    /// Whether the table has 512 entries and 512 slots for tables below.
    pub fn is_sized(&self) -> (r: bool)
        ensures
            r == self.sized(),
    {
        self.entries.len() == 512 && self.tables.len() == 512
    }

    /// Entry `i`.
    pub fn index(&self, i: usize) -> (r: &PTEntry)
        requires
            self.sized(),
            i < 512,
        ensures
            r.0 == self.entry_bits(i as int),
    {
        &self.entries[i]
    }

    /// The table below entry `i`, if there is one.
    pub fn child(&self, i: usize) -> (r: Option<&PageTable>)
        requires
            self.sized(),
            i < 512,
        ensures
            r matches Some(t) ==> self.table_at(i as int) == Some(Box::new(*t)),
            r is None ==> self.table_at(i as int) is None,
    {
        match &self.tables[i] {
            Some(t) => Some(&**t),
            None => None,
        }
    }

    proof fn lemma_zeroed(&self, vpn: Seq<u64>, nr: int, level: nat)
        requires
            self.sized(),
            forall|i: int| 0 <= i < 512 ==> self.entry_bits(i) == 0 && self.table_at(i) is None,
            0 <= vpn[nr] < 512,
        ensures
            self.path_ok(vpn, nr, level),
            self.pages_needed(vpn, nr, level) == level,
            match self.walk(vpn, nr, level) {
                Some(e) => e == 0,
                None => true,
            },
            self.path_tables(vpn, nr, level) == Seq::<(u64, usize)>::empty(),
            forall|d: nat| #[trigger] self.tables_named(d),
    {
        let i = vpn[nr] as int;
        assert(self.entry_bits(i) == 0);
        assert(0u64 & 1 != 1) by (bit_vector);
        assert forall|j: int| 0 <= j < 512 implies #[trigger] self.tables@[j] is None by {
            assert(self.entry_bits(j) == 0);
            assert(self.table_at(j) is None);
        }
        assert forall|d: nat| #[trigger] self.tables_named(d) by {}
    }

    /// Mapping never asks for more tables than levels.
    proof fn lemma_pages_needed_le(&self, vpn: Seq<u64>, nr: int, level: nat)
        ensures
            self.pages_needed(vpn, nr, level) <= level,
        decreases level,
    {
        let i = vpn[nr] as int;
        if level > 0 && self.entries@[i].0 & 1 == 1 {
            if let Some(t) = self.tables@[i] {
                t.lemma_pages_needed_le(vpn, nr - 1, (level - 1) as nat);
            }
        }
    }

    /// Maps `vaddr` to `paddr` with `flags` (and valid), `level` tables below this one, starting
    /// at page-number index `vpn_nr`; tables missing on the way are taken from `free`, zeroed, and
    /// named by the entries above them.
    #[verifier::rlimit(60)]
    pub fn map_rec(
        &mut self,
        free: &mut FreePages,
        vaddr: u64,
        paddr: u64,
        flags: PTEFlagSet,
        level: u64,
        vpn_nr: usize,
    )
        requires
            flags.value() & 4 == 4 ==> flags.value() & 2 == 2,
            level <= vpn_nr <= 3,
            old(self).path_ok(vpn_of(vaddr), vpn_nr as int, level as nat),
            old(self).tables_named(vpn_nr as nat),
            old(free)@.len() >= old(self).pages_needed(vpn_of(vaddr), vpn_nr as int, level as nat),
        ensures
            final(self).tables_named(vpn_nr as nat),
            final(self).page_of() == old(self).page_of(),
            level > 0 && old(self).entry_bits(vpn_of(vaddr)[vpn_nr as int] as int) & 1 != 1
                ==> final(self).entry_bits(vpn_of(vaddr)[vpn_nr as int] as int) == mapped_entry(
                old(self).entry_bits(vpn_of(vaddr)[vpn_nr as int] as int),
                old(free)@.last() as u64,
                0,
            ),
            level > 0 && old(self).entry_bits(vpn_of(vaddr)[vpn_nr as int] as int) & 1 == 1
                ==> final(self).entry_bits(vpn_of(vaddr)[vpn_nr as int] as int) == old(
                self,
            ).entry_bits(vpn_of(vaddr)[vpn_nr as int] as int),
            final(self).path_tables(vpn_of(vaddr), vpn_nr as int, level as nat) == old(
                self,
            ).path_tables(vpn_of(vaddr), vpn_nr as int, level as nat) + added_tables(
                match old(self).walk(
                    vpn_of(vaddr),
                    vpn_nr as int,
                    (level - old(self).pages_needed(vpn_of(vaddr), vpn_nr as int, level as nat)) as nat,
                ) {
                    Some(e) => e,
                    None => 0,
                },
                old(free)@,
                old(self).pages_needed(vpn_of(vaddr), vpn_nr as int, level as nat),
            ),
            final(self).walk(vpn_of(vaddr), vpn_nr as int, level as nat) == Some(
                mapped_entry(
                    match old(self).walk(vpn_of(vaddr), vpn_nr as int, level as nat) {
                        Some(e) => e,
                        None => 0,
                    },
                    paddr & 0x7f_ffff_ffff_ffff,
                    flags.value(),
                ),
            ),
            final(self).path_ok(vpn_of(vaddr), vpn_nr as int, level as nat),
            final(free)@ == old(free)@.subrange(
                0,
                old(free)@.len() - old(self).pages_needed(vpn_of(vaddr), vpn_nr as int, level as nat),
            ),
            level == vpn_nr ==> final(self).pages_from(0, vpn_nr as nat) == old(self).pages_from(
                0,
                vpn_nr as nat,
            ).add(old(free)@.subrange(final(free)@.len() as int, old(free)@.len() as int).to_multiset()),
            final(self).sized(),
            forall|j: int|
                0 <= j < 512 && j != vpn_of(vaddr)[vpn_nr as int] ==> final(self).entry_bits(j)
                    == old(self).entry_bits(j) && final(self).table_at(j) == old(self).table_at(j),
            forall|v2: u64, lv: nat|
                #![trigger final(self).walk(vpn_of(v2), vpn_nr as int, lv)]
                lv <= vpn_nr && old(self).walk(vpn_of(v2), vpn_nr as int, lv) is Some && diverge(
                    vpn_of(vaddr),
                    vpn_of(v2),
                    vpn_nr as int,
                    min_nat(lv, level as nat),
                ) ==> final(self).walk(vpn_of(v2), vpn_nr as int, lv) == old(self).walk(
                    vpn_of(v2),
                    vpn_nr as int,
                    lv,
                ),
            forall|v2: u64, lv: nat|
                #![trigger final(self).path_ok(vpn_of(v2), vpn_nr as int, lv)]
                lv <= vpn_nr && old(self).path_ok(vpn_of(v2), vpn_nr as int, lv) && (lv <= level
                    || diverge(vpn_of(vaddr), vpn_of(v2), vpn_nr as int, level as nat))
                    ==> final(self).path_ok(vpn_of(v2), vpn_nr as int, lv),
        decreases level,
    {
        let rwx_ok = valid_rwx(flags);
        assert(rwx_ok);
        let va = VAddr::from_u64(vaddr);
        let vpn = va.get_vpn();
        assert(vpn@ =~= vpn_of(vaddr));
        let i = vpn[vpn_nr] as usize;
        let ghost vs = vpn_of(vaddr);
        let ghost before = *self;
        proof {
            lemma_vpn_bounds(vaddr);
        }
        if level > 0 {
            let ghost created = before.entries@[i as int].0 & 1 != 1;
            if !self.entries[i].is_valid() {
                let page = match get_zpage(free) {
                    Some(p) => p,
                    None => vstd::pervasive::unreached(),
                };
                let mut entry = PTEntry(self.entries[i].0);
                entry.set_ppn(PAddr(page as u64).get_ppn());
                entry.set_flags(PTEFlagSet::from_flag(PTEFlags::Valid));
                self.entries.set(i, entry);
                let fresh = PageTable::zeroed(page);
                proof {
                    fresh.lemma_zeroed(vs, vpn_nr - 1, (level - 1) as nat);
                    let x = entry.0;
                    assert(((x & !0xffu64) | 1u64) & 1 == 1) by (bit_vector);
                    assert((0u64 | 1u64) == 1u64) by (bit_vector);
                    assert(entry.0 == mapped_entry(before.entries@[i as int].0, page as u64, 0));
                    lemma_mapped_entry_names(before.entries@[i as int].0, page as u64, 0);
                }
                self.tables.set(i, Some(Box::new(fresh)));
            }
            let ghost mid = *self;
            let ghost free_mid = free@;
            let mut child = match self.tables.remove(i) {
                Some(c) => c,
                None => vstd::pervasive::unreached(),
            };
            let ghost child_before = *child;
            let ghost child_before_box = child;
            child.map_rec(free, vaddr, paddr, flags, level - 1, vpn_nr - 1);
            self.tables.insert(i, Some(child));
            proof {
                assert(self.tables@ =~= mid.tables@.update(i as int, Some(child)));
                assert(self.entries@ == mid.entries@);
                assert(child.page_of() == child_before.page_of());
                assert forall|j: int|
                    0 <= j < 512 && #[trigger] self.tables@[j] is Some implies vpn_nr > 0
                        && self.entries@[j].0 & 1 == 1 && names_page(
                        self.entries@[j].0,
                        self.tables@[j].unwrap().page,
                    ) && self.tables@[j].unwrap().tables_named((vpn_nr - 1) as nat) by {
                    if j != i {
                        assert(before.tables@[j] is Some);
                    }
                }
                assert(self.tables_named(vpn_nr as nat));
                if level == vpn_nr {
                    let d = vpn_nr as nat;
                    let all = old(free)@.subrange(free@.len() as int, old(free)@.len() as int);
                    let tc = free_mid.subrange(free@.len() as int, free_mid.len() as int);
                    let (cs, co) = (slot_pages(before.tables@[i as int], d), slot_pages(
                        self.tables@[i as int],
                        d,
                    ));
                    assert(co == child.pages_from(0, (d - 1) as nat).insert(child.page_of()));
                    if created {
                        assert(before.tables@[i as int] is None);
                        assert(child_before.pages_from(0, (d - 1) as nat) == Multiset::<usize>::empty());
                        assert(all =~= tc.push(child.page_of()));
                        tc.to_multiset_ensures();
                        assert(co =~= cs.add(all.to_multiset()));
                    } else {
                        assert(tc =~= all);
                        assert(before.tables@[i as int] == Some(child_before_box));
                        assert(co =~= cs.add(all.to_multiset()));
                    }
                    lemma_slot_pages_grow(before, *self, i as int, d, all);
                }
                before.lemma_pages_needed_le(vs, vpn_nr as int, level as nat);
                let pn = before.pages_needed(vs, vpn_nr as int, level as nat);
                let e0 = match before.walk(vs, vpn_nr as int, (level - pn) as nat) {
                    Some(e) => e,
                    None => 0,
                };
                if created {
                    assert(pn == level);
                    assert(before.path_tables(vs, vpn_nr as int, level as nat) =~= Seq::empty());
                    assert(e0 == before.entries@[i as int].0);
                    let cpn = child_before.pages_needed(vs, vpn_nr - 1, (level - 1) as nat);
                    assert(cpn == level - 1);
                    assert(child_before.walk(vs, vpn_nr - 1, 0) == Some(0u64));
                    assert(self.path_tables(vs, vpn_nr as int, level as nat) =~= added_tables(
                        e0,
                        old(free)@,
                        pn,
                    ));
                } else {
                    child_before.lemma_pages_needed_le(vs, vpn_nr - 1, (level - 1) as nat);
                    assert(pn < level);
                    assert(self.path_tables(vs, vpn_nr as int, level as nat) =~= before.path_tables(
                        vs,
                        vpn_nr as int,
                        level as nat,
                    ) + added_tables(e0, old(free)@, pn));
                }
                assert forall|v2: u64, lv: nat|
                    lv <= vpn_nr && before.walk(vpn_of(v2), vpn_nr as int, lv) is Some && diverge(
                        vs,
                        vpn_of(v2),
                        vpn_nr as int,
                        min_nat(lv, level as nat),
                    ) implies #[trigger] self.walk(vpn_of(v2), vpn_nr as int, lv) == before.walk(
                    vpn_of(v2),
                    vpn_nr as int,
                    lv,
                ) by {
                    let w = vpn_of(v2);
                    lemma_vpn_bounds(v2);
                    if w[vpn_nr as int] == vs[vpn_nr as int] && lv > 0 {
                        assert(child.walk(w, vpn_nr - 1, (lv - 1) as nat) == child_before.walk(
                            w,
                            vpn_nr - 1,
                            (lv - 1) as nat,
                        ));
                    }
                }
                assert forall|v2: u64, lv: nat|
                    lv <= vpn_nr && before.path_ok(vpn_of(v2), vpn_nr as int, lv) && (lv <= level
                        || diverge(vs, vpn_of(v2), vpn_nr as int, level as nat)) implies
                    #[trigger] self.path_ok(vpn_of(v2), vpn_nr as int, lv) by {
                    let w = vpn_of(v2);
                    lemma_vpn_bounds(v2);
                    if w[vpn_nr as int] == vs[vpn_nr as int] && lv > 0 {
                        if created {
                            child_before.lemma_zeroed(w, vpn_nr - 1, (lv - 1) as nat);
                        }
                        assert(child.path_ok(w, vpn_nr - 1, (lv - 1) as nat));
                    }
                }
            }
        } else {
            let mut entry = PTEntry(self.entries[i].0);
            entry.set_ppn(PAddr::from_u64(paddr).get_ppn());
            entry.set_flags(flags.with(PTEFlags::Valid));
            self.entries.set(i, entry);
            self.tables.set(i, None);
            proof {
                let all = old(free)@.subrange(free@.len() as int, old(free)@.len() as int);
                assert(all.len() == 0);
                all.to_multiset_ensures();
                vstd::multiset::lemma_multiset_empty_len(all.to_multiset());
                if vpn_nr == 0 {
                    assert(self.pages_from(0, 0) =~= before.pages_from(0, 0).add(all.to_multiset()));
                }
                assert forall|j: int|
                    0 <= j < 512 && #[trigger] self.tables@[j] is Some implies vpn_nr > 0
                        && self.entries@[j].0 & 1 == 1 && names_page(
                        self.entries@[j].0,
                        self.tables@[j].unwrap().page,
                    ) && self.tables@[j].unwrap().tables_named((vpn_nr - 1) as nat) by {
                    assert(before.tables@[j] is Some);
                }
                assert(self.tables_named(vpn_nr as nat));
                assert(self.path_tables(vs, vpn_nr as int, 0) =~= before.path_tables(
                    vs,
                    vpn_nr as int,
                    0,
                ) + added_tables(0, old(free)@, 0));
                assert forall|v2: u64, lv: nat|
                    lv <= vpn_nr && before.walk(vpn_of(v2), vpn_nr as int, lv) is Some && diverge(
                        vs,
                        vpn_of(v2),
                        vpn_nr as int,
                        min_nat(lv, level as nat),
                    ) implies #[trigger] self.walk(vpn_of(v2), vpn_nr as int, lv) == before.walk(
                    vpn_of(v2),
                    vpn_nr as int,
                    lv,
                ) by {
                    lemma_vpn_bounds(v2);
                }
                assert forall|v2: u64, lv: nat|
                    lv <= vpn_nr && before.path_ok(vpn_of(v2), vpn_nr as int, lv) && (lv <= level
                        || diverge(vs, vpn_of(v2), vpn_nr as int, level as nat)) implies
                    #[trigger] self.path_ok(vpn_of(v2), vpn_nr as int, lv) by {
                    lemma_vpn_bounds(v2);
                }
            }
        }
    }

    /// Maps `vaddr` to `paddr` with `flags`, `level` tables below the root (see `map_rec`): the
    /// tables it adds on the walk for `vaddr` are in the pages taken off `free`, in the order they
    /// are taken, each named by the entry above it (see `added_tables`); mapping a page at the
    /// lowest level drops no table, so the pages of the tables below the root grow by just
    /// those taken off `free`; the walk for `vaddr`
    /// then ends at the mapped entry, every walk that parts from it on the way
    /// gives what it gave before, and every address that could be mapped before still can be,
    /// unless its walk goes through the new entry.
    pub fn map(&mut self, free: &mut FreePages, vaddr: u64, paddr: u64, flags: PTEFlagSet, level: u64)
        requires
            flags.value() & 4 == 4 ==> flags.value() & 2 == 2,
            level <= 3,
            old(self).path_ok(vpn_of(vaddr), 3, level as nat),
            old(self).tables_named(3),
            old(free)@.len() >= old(self).pages_needed(vpn_of(vaddr), 3, level as nat),
        ensures
            final(self).tables_named(3),
            final(self).page_of() == old(self).page_of(),
            final(self).path_tables(vpn_of(vaddr), 3, level as nat) == old(self).path_tables(
                vpn_of(vaddr),
                3,
                level as nat,
            ) + added_tables(
                match old(self).walk(
                    vpn_of(vaddr),
                    3,
                    (level - old(self).pages_needed(vpn_of(vaddr), 3, level as nat)) as nat,
                ) {
                    Some(e) => e,
                    None => 0,
                },
                old(free)@,
                old(self).pages_needed(vpn_of(vaddr), 3, level as nat),
            ),
            final(self).walk(vpn_of(vaddr), 3, level as nat) == Some(
                mapped_entry(
                    match old(self).walk(vpn_of(vaddr), 3, level as nat) {
                        Some(e) => e,
                        None => 0,
                    },
                    paddr & 0x7f_ffff_ffff_ffff,
                    flags.value(),
                ),
            ),
            final(self).path_ok(vpn_of(vaddr), 3, level as nat),
            final(free)@ == old(free)@.subrange(
                0,
                old(free)@.len() - old(self).pages_needed(vpn_of(vaddr), 3, level as nat),
            ),
            level == 3 ==> final(self).pages_from(0, 3) == old(self).pages_from(0, 3).add(
                old(free)@.subrange(final(free)@.len() as int, old(free)@.len() as int).to_multiset(),
            ),
            forall|v2: u64, lv: nat|
                #![trigger final(self).walk(vpn_of(v2), 3, lv)]
                lv <= 3 && old(self).walk(vpn_of(v2), 3, lv) is Some && diverge(
                    vpn_of(vaddr),
                    vpn_of(v2),
                    3,
                    min_nat(lv, level as nat),
                ) ==> final(self).walk(vpn_of(v2), 3, lv) == old(self).walk(vpn_of(v2), 3, lv),
            forall|v2: u64, lv: nat|
                #![trigger final(self).path_ok(vpn_of(v2), 3, lv)]
                lv <= 3 && old(self).path_ok(vpn_of(v2), 3, lv) && (lv <= level || diverge(
                    vpn_of(vaddr),
                    vpn_of(v2),
                    3,
                    level as nat,
                )) ==> final(self).path_ok(vpn_of(v2), 3, lv),
    {
        self.map_rec(free, vaddr, paddr, flags, level, 3);
    }
}

/// The entry that a mapping writes names the page of the physical address, when it lies below
/// 2^39, and holds the mapping's flags with the valid bit.
pub proof fn lemma_mapped_entry_reads_back(old: u64, pa: u64, flags: u64)
    requires
        pa < 0x80_0000_0000,
        flags < 256,
    ensures
        ppn_addr(entry_ppn(mapped_entry(old, pa, flags))) == pa & 0x7f_ffff_f000,
        mapped_entry(old, pa, flags) & 0xff == flags | 1,
        mapped_entry(old, pa, flags) & 1 == 1,
{
    let x = ppn_written(old, addr_ppn(pa));
    lemma_entry_names_page(old, pa);
    let m = mapped_entry(old, pa, flags);
    assert(m == (x & !0xffu64) | (flags | 1));
    assert(((x & !0xffu64) | (flags | 1)) >> 10u64 == x >> 10u64 && ((x & !0xffu64) | (flags
        | 1)) >> 19u64 == x >> 19u64 && ((x & !0xffu64) | (flags | 1)) >> 28u64 == x >> 28u64 && ((x
        & !0xffu64) | (flags | 1)) >> 37u64 == x >> 37u64 && ((x & !0xffu64) | (flags | 1)) & 0xff
        == flags | 1 && ((x & !0xffu64) | (flags | 1)) & 1 == 1) by (bit_vector)
        requires
            flags < 256,
    ;
    assert(entry_ppn(m) =~= entry_ppn(x));
}

/// The entry that a mapping of physical address `pa` writes names `pa`'s page.
pub proof fn lemma_mapped_entry_names(old: u64, pa: u64, flags: u64)
    requires
        flags < 256,
    ensures
        mapped_entry(old, pa, flags) & ppn_bits() == ppn_written(0, addr_ppn(pa)) & ppn_bits(),
        pa <= usize::MAX ==> names_page(mapped_entry(old, pa, flags), pa as usize),
{
    let p = addr_ppn(pa);
    let (p0, p1, p2, p3) = (p[0], p[1], p[2], p[3]);
    let w = ppn_written(old, p);
    let z = ppn_written(0, p);
    assert(w == (old & !(0xfff_ffff_ffffu64 << 10u64)) | (p0 & 0x1ff) << 10u64 | (p1 & 0x1ff)
        << 19u64 | (p2 & 0x1ff) << 28u64 | (p3 & 0x1_ffff) << 27u64);
    assert(z == (0u64 & !(0xfff_ffff_ffffu64 << 10u64)) | (p0 & 0x1ff) << 10u64 | (p1 & 0x1ff)
        << 19u64 | (p2 & 0x1ff) << 28u64 | (p3 & 0x1_ffff) << 27u64);
    assert(((w & !0xffu64) | (flags | 1)) & 0x3f_ffff_ffff_fc00u64 == z & 0x3f_ffff_ffff_fc00u64)
        by (bit_vector)
        requires
            flags < 256,
            w == (old & !(0xfff_ffff_ffffu64 << 10u64)) | (p0 & 0x1ff) << 10u64 | (p1 & 0x1ff)
                << 19u64 | (p2 & 0x1ff) << 28u64 | (p3 & 0x1_ffff) << 27u64,
            z == (0u64 & !(0xfff_ffff_ffffu64 << 10u64)) | (p0 & 0x1ff) << 10u64 | (p1 & 0x1ff)
                << 19u64 | (p2 & 0x1ff) << 28u64 | (p3 & 0x1_ffff) << 27u64,
    ;
}

/// An entry that names a page below 2^39 gives back that page's address.
pub proof fn lemma_names_page_reads_back(e: u64, page: usize)
    requires
        names_page(e, page),
        page < 0x80_0000_0000,
    ensures
        ppn_addr(entry_ppn(e)) == (page as u64) & 0x7f_ffff_f000,
{
    let a = page as u64;
    let x = ppn_written(0, addr_ppn(a));
    lemma_entry_names_page(0, a);
    assert(e & 0x3f_ffff_ffff_fc00u64 == x & 0x3f_ffff_ffff_fc00u64);
    assert((e >> 10u64) & 0x1ff == (x >> 10u64) & 0x1ff && (e >> 19u64) & 0x1ff == (x >> 19u64)
        & 0x1ff && (e >> 28u64) & 0x1ff == (x >> 28u64) & 0x1ff && (e >> 37u64) & 0x1_ffff == (x
        >> 37u64) & 0x1_ffff) by (bit_vector)
        requires
            e & 0x3f_ffff_ffff_fc00u64 == x & 0x3f_ffff_ffff_fc00u64,
    ;
    assert(entry_ppn(e) =~= entry_ppn(x));
}

} // verus!
