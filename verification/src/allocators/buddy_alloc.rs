use vstd::prelude::*;

verus! {

use vstd::multiset::Multiset;
use vstd::set_lib::{lemma_int_range, lemma_len_subset, set_int_range};
use super::paging::{get_zpage, FreePages, PAGE_SIZE};
use super::is_pow2;

/// The powers of two up to 4096.
proof fn lemma_small_pow2(n: int)
    requires
        is_pow2(n),
        n < 8192,
    ensures
        n == 1 || n == 2 || n == 4 || n == 8 || n == 16 || n == 32 || n == 64 || n == 128 || n
            == 256 || n == 512 || n == 1024 || n == 2048 || n == 4096,
    decreases n,
{
    if n > 1 {
        lemma_small_pow2(n / 2);
    }
}

/// The sizes of the blocks that the buddy allocator hands out, from 1 MiB down to 4 bytes.
#[derive(PartialEq, Eq, Structural, Clone, Copy, Debug)]
pub enum BlockSize {
    Bs1M,
    Bs512K,
    Bs256K,
    Bs128K,
    Bs64K,
    Bs32K,
    Bs16K,
    Bs8K,
    Bs4K,
    Bs2K,
    Bs1K,
    Bs512,
    Bs256,
    Bs128,
    Bs64,
    Bs32,
    Bs16,
    Bs8,
    Bs4,
}

impl BlockSize {
    /// The size in bytes.
    pub open spec fn size(self) -> nat {
        match self {
            BlockSize::Bs1M => 0x100000,
            BlockSize::Bs512K => 0x80000,
            BlockSize::Bs256K => 0x40000,
            BlockSize::Bs128K => 0x20000,
            BlockSize::Bs64K => 0x10000,
            BlockSize::Bs32K => 0x8000,
            BlockSize::Bs16K => 0x4000,
            BlockSize::Bs8K => 0x2000,
            BlockSize::Bs4K => 0x1000,
            BlockSize::Bs2K => 0x800,
            BlockSize::Bs1K => 0x400,
            BlockSize::Bs512 => 0x200,
            BlockSize::Bs256 => 0x100,
            BlockSize::Bs128 => 0x80,
            BlockSize::Bs64 => 0x40,
            BlockSize::Bs32 => 0x20,
            BlockSize::Bs16 => 0x10,
            BlockSize::Bs8 => 0x8,
            BlockSize::Bs4 => 0x4,
        }
    }

    /// How many halvings the size is above 4 bytes.
    pub open spec fn rank(self) -> nat {
        match self {
            BlockSize::Bs1M => 18,
            BlockSize::Bs512K => 17,
            BlockSize::Bs256K => 16,
            BlockSize::Bs128K => 15,
            BlockSize::Bs64K => 14,
            BlockSize::Bs32K => 13,
            BlockSize::Bs16K => 12,
            BlockSize::Bs8K => 11,
            BlockSize::Bs4K => 10,
            BlockSize::Bs2K => 9,
            BlockSize::Bs1K => 8,
            BlockSize::Bs512 => 7,
            BlockSize::Bs256 => 6,
            BlockSize::Bs128 => 5,
            BlockSize::Bs64 => 4,
            BlockSize::Bs32 => 3,
            BlockSize::Bs16 => 2,
            BlockSize::Bs8 => 1,
            BlockSize::Bs4 => 0,
        }
    }

    /// The size in bytes.
    pub fn bytes(self) -> (r: usize)
        ensures
            r == self.size(),
    {
        match self {
            BlockSize::Bs1M => 0x100000,
            BlockSize::Bs512K => 0x80000,
            BlockSize::Bs256K => 0x40000,
            BlockSize::Bs128K => 0x20000,
            BlockSize::Bs64K => 0x10000,
            BlockSize::Bs32K => 0x8000,
            BlockSize::Bs16K => 0x4000,
            BlockSize::Bs8K => 0x2000,
            BlockSize::Bs4K => 0x1000,
            BlockSize::Bs2K => 0x800,
            BlockSize::Bs1K => 0x400,
            BlockSize::Bs512 => 0x200,
            BlockSize::Bs256 => 0x100,
            BlockSize::Bs128 => 0x80,
            BlockSize::Bs64 => 0x40,
            BlockSize::Bs32 => 0x20,
            BlockSize::Bs16 => 0x10,
            BlockSize::Bs8 => 0x8,
            BlockSize::Bs4 => 0x4,
        }
    }

    /// The size of the two halves of a block of this size: `None` for the smallest size.
    pub open spec fn half(self) -> Option<BlockSize> {
        match self {
            BlockSize::Bs1M => Some(BlockSize::Bs512K),
            BlockSize::Bs512K => Some(BlockSize::Bs256K),
            BlockSize::Bs256K => Some(BlockSize::Bs128K),
            BlockSize::Bs128K => Some(BlockSize::Bs64K),
            BlockSize::Bs64K => Some(BlockSize::Bs32K),
            BlockSize::Bs32K => Some(BlockSize::Bs16K),
            BlockSize::Bs16K => Some(BlockSize::Bs8K),
            BlockSize::Bs8K => Some(BlockSize::Bs4K),
            BlockSize::Bs4K => Some(BlockSize::Bs2K),
            BlockSize::Bs2K => Some(BlockSize::Bs1K),
            BlockSize::Bs1K => Some(BlockSize::Bs512),
            BlockSize::Bs512 => Some(BlockSize::Bs256),
            BlockSize::Bs256 => Some(BlockSize::Bs128),
            BlockSize::Bs128 => Some(BlockSize::Bs64),
            BlockSize::Bs64 => Some(BlockSize::Bs32),
            BlockSize::Bs32 => Some(BlockSize::Bs16),
            BlockSize::Bs16 => Some(BlockSize::Bs8),
            BlockSize::Bs8 => Some(BlockSize::Bs4),
            BlockSize::Bs4 => None,
        }
    }

    /// The size of the two halves of a block of this size: `None` for the smallest size.
    pub fn split(self) -> (r: Option<Self>)
        ensures
            r == self.half(),
    {
        match self {
            BlockSize::Bs1M => Some(BlockSize::Bs512K),
            BlockSize::Bs512K => Some(BlockSize::Bs256K),
            BlockSize::Bs256K => Some(BlockSize::Bs128K),
            BlockSize::Bs128K => Some(BlockSize::Bs64K),
            BlockSize::Bs64K => Some(BlockSize::Bs32K),
            BlockSize::Bs32K => Some(BlockSize::Bs16K),
            BlockSize::Bs16K => Some(BlockSize::Bs8K),
            BlockSize::Bs8K => Some(BlockSize::Bs4K),
            BlockSize::Bs4K => Some(BlockSize::Bs2K),
            BlockSize::Bs2K => Some(BlockSize::Bs1K),
            BlockSize::Bs1K => Some(BlockSize::Bs512),
            BlockSize::Bs512 => Some(BlockSize::Bs256),
            BlockSize::Bs256 => Some(BlockSize::Bs128),
            BlockSize::Bs128 => Some(BlockSize::Bs64),
            BlockSize::Bs64 => Some(BlockSize::Bs32),
            BlockSize::Bs32 => Some(BlockSize::Bs16),
            BlockSize::Bs16 => Some(BlockSize::Bs8),
            BlockSize::Bs8 => Some(BlockSize::Bs4),
            BlockSize::Bs4 => None,
        }
    }

    /// The size class for a request of `value` bytes: the smallest size of at least `value`
    /// bytes, up to 4 KiB.
    pub open spec fn class_of(value: int) -> Option<BlockSize> {
        if value <= 4 {
            Some(BlockSize::Bs4)
        } else if value <= 8 {
            Some(BlockSize::Bs8)
        } else if value <= 16 {
            Some(BlockSize::Bs16)
        } else if value <= 32 {
            Some(BlockSize::Bs32)
        } else if value <= 64 {
            Some(BlockSize::Bs64)
        } else if value <= 128 {
            Some(BlockSize::Bs128)
        } else if value <= 256 {
            Some(BlockSize::Bs256)
        } else if value <= 512 {
            Some(BlockSize::Bs512)
        } else if value <= 1024 {
            Some(BlockSize::Bs1K)
        } else if value <= 2048 {
            Some(BlockSize::Bs2K)
        } else if value <= 4096 {
            Some(BlockSize::Bs4K)
        } else {
            None
        }
    }

    /// The size class of a request of at most 4 KiB holds the request, and is less than twice
    /// it: the smallest block size that holds it.
    pub proof fn lemma_class_of_fits(value: int)
        ensures
            value <= 4096 ==> (Self::class_of(value) matches Some(s) && value <= s.size() && (value
                > 4 ==> s.size() < 2 * value)),
            value > 4096 ==> Self::class_of(value) is None,
    {
    }

    /// The size class for a request of `value` bytes; for a request of more than 4 KiB, the
    /// error holds the smallest power of two of at least `value`.
    pub fn try_from(value: usize) -> (r: Result<Self, usize>)
        requires
            value <= usize::MAX / 2 + 1,
        ensures
            match Self::class_of(value as int) {
                Some(s) => r == Ok::<BlockSize, usize>(s),
                None => r matches Err(n) && is_pow2(n as int) && value <= n
                    < 2 * value,
            },
            r matches Ok(s) ==> value <= s.size() && (value > 4 ==> s.size() < 2 * value),
    {
        proof {
            Self::lemma_class_of_fits(value as int);
        }
        let mut n: usize = 1;
        while n < value
            invariant
                is_pow2(n as int),
                value <= usize::MAX / 2 + 1,
                n == 1 || n < 2 * value,
            decreases usize::MAX - n,
        {
            n = n * 2;
        }
        proof {
            if n < 8192 {
                lemma_small_pow2(n as int);
            }
        }
        if n <= 4 {
            Ok(BlockSize::Bs4)
        } else if n == 8 {
            Ok(BlockSize::Bs8)
        } else if n == 16 {
            Ok(BlockSize::Bs16)
        } else if n == 32 {
            Ok(BlockSize::Bs32)
        } else if n == 64 {
            Ok(BlockSize::Bs64)
        } else if n == 128 {
            Ok(BlockSize::Bs128)
        } else if n == 256 {
            Ok(BlockSize::Bs256)
        } else if n == 512 {
            Ok(BlockSize::Bs512)
        } else if n == 1024 {
            Ok(BlockSize::Bs1K)
        } else if n == 2048 {
            Ok(BlockSize::Bs2K)
        } else if n == 4096 {
            Ok(BlockSize::Bs4K)
        } else {
            Err(n)
        }
    }
}

/// The number of blocks that a page holds: a page divided by the 24 bytes of a block.
pub const BLOCKS_PER_PAGE: usize = 170;

/// Bit `i` of `x` is set.
pub open spec fn bit(x: u128, i: int) -> bool {
    (x >> (i as u128)) & 1 == 1
}

proof fn lemma_bit_set(x: u128, i: u128, j: u128)
    requires
        i < 128,
        j < 128,
    ensures
        bit(x | (1u128 << i), j as int) == (j == i || bit(x, j as int)),
{
    assert(((x | (1u128 << i)) >> j) & 1 == 1 <==> (j == i || (x >> j) & 1 == 1)) by (bit_vector)
        requires
            i < 128,
            j < 128,
    ;
}

proof fn lemma_bit_clear(x: u128, i: u128, j: u128)
    requires
        i < 128,
        j < 128,
    ensures
        bit(x & !(1u128 << i), j as int) == (j != i && bit(x, j as int)),
{
    assert(((x & !(1u128 << i)) >> j) & 1 == 1 <==> (j != i && (x >> j) & 1 == 1)) by (bit_vector)
        requires
            i < 128,
            j < 128,
    ;
}

proof fn lemma_bit_consts(j: u128)
    requires
        j < 128,
    ensures
        bit(1u128, j as int) == (j == 0),
        !bit(0u128, j as int),
        bit(u128::MAX, j as int),
{
    assert((1u128 >> j) & 1 == 1 <==> j == 0) by (bit_vector)
        requires
            j < 128,
    ;
    assert((0u128 >> j) & 1 != 1) by (bit_vector);
    assert((u128::MAX >> j) & 1 == 1) by (bit_vector)
        requires
            j < 128,
    ;
}

/// Bits below `i` all set, and bit `i` set, give bits below `i + 1` all set; all 128 set is
/// `u128::MAX`.
proof fn lemma_low_ones(x: u128, i: u128)
    requires
        i < 128,
        x & ((1u128 << i) - 1) as u128 == ((1u128 << i) - 1) as u128,
        (x >> i) & 1 == 1,
    ensures
        i < 127 ==> x & ((1u128 << (i + 1) as u128) - 1) as u128 == ((1u128 << (i + 1) as u128)
            - 1) as u128,
        i == 127 ==> x == u128::MAX,
{
    assert(i < 127 ==> x & ((1u128 << (i + 1) as u128) - 1) as u128 == ((1u128 << (i + 1) as u128)
        - 1) as u128) by (bit_vector)
        requires
            i < 128,
            x & ((1u128 << i) - 1) as u128 == ((1u128 << i) - 1) as u128,
            (x >> i) & 1 == 1,
    ;
    assert(i == 127 ==> x == u128::MAX) by (bit_vector)
        requires
            i < 128,
            x & ((1u128 << i) - 1) as u128 == ((1u128 << i) - 1) as u128,
            (x >> i) & 1 == 1,
    ;
}

/// The pages of block slots, 128 to a page, in the order they were taken; a slot is named by
/// its page's index times 128 plus its place in the page.
pub struct BuddyBlockPages {
    used: Vec<u128>,
    pages: Vec<usize>,
}

impl BuddyBlockPages {
    /// The number of slots.
    pub closed spec fn capacity(&self) -> int {
        128 * self.used@.len() as int
    }

    /// Slot `h` is handed out.
    pub closed spec fn is_used(&self, h: int) -> bool {
        0 <= h < self.capacity() && bit(self.used@[h / 128], h % 128)
    }

    /// The slots that are handed out.
    pub open spec fn used_set(&self) -> Set<int> {
        Set::new(|h: int| self.is_used(h))
    }

    /// The slots that are not handed out.
    pub open spec fn free_set(&self) -> Set<int> {
        Set::new(|h: int| 0 <= h < self.capacity() && !self.is_used(h))
    }

    /// The addresses of the pages taken for slots after the first page.
    pub closed spec fn page_addrs(&self) -> Seq<usize> {
        self.pages@
    }

    /// There is a word of used-slot bits for the first page and for each page taken since.
    pub closed spec fn wf(&self) -> bool {
        self.used@.len() == self.pages@.len() + 1
    }

    /// The free slots are finitely many, at most the capacity.
    pub proof fn lemma_free_set_finite(&self)
        requires
            self.wf(),
        ensures
            self.free_set().finite(),
            self.free_set().len() <= self.capacity(),
            self.capacity() >= 0,
    {
        lemma_int_range(0, self.capacity());
        lemma_len_subset(self.free_set(), set_int_range(0, self.capacity()));
    }

    /// One page of slots, none of them handed out.
    pub fn new() -> (r: Self)
        ensures
            r.wf(),
            r.capacity() == 128,
            r.used_set() == Set::<int>::empty(),
            r.free_set().len() == 128,
            r.page_addrs() == Seq::<usize>::empty(),
    {
        let mut used = Vec::new();
        used.push(0u128);
        let pages = Vec::new();
        let r = BuddyBlockPages { used, pages };
        assert forall|h: int| !r.is_used(h) by {
            if 0 <= h < 128 {
                lemma_bit_consts(h as u128);
            }
        }
        assert(r.used_set() =~= Set::<int>::empty());
        proof {
            assert(r.free_set() =~= set_int_range(0, 128));
            lemma_int_range(0, 128);
        }
        r
    }

    /// The slot handed out next: the first slot that is not handed out, or, where every slot
    /// is, the first slot of a new page taken from `pages`.
    pub fn get_block(&mut self, pages: &mut FreePages) -> (h: usize)
        requires
            old(self).wf(),
            old(self).free_set().len() > 0 || old(pages)@.len() > 0,
            old(self).capacity() + 128 <= usize::MAX,
        ensures
            final(self).wf(),
            !old(self).is_used(h as int),
            final(self).used_set() == old(self).used_set().insert(h as int),
            old(self).free_set().len() > 0 ==> {
                &&& old(self).free_set().contains(h as int)
                &&& final(self).free_set().len() == old(self).free_set().len() - 1
                &&& forall|k: int| 0 <= k < h ==> old(self).is_used(k)
                &&& final(self).capacity() == old(self).capacity()
                &&& final(self).page_addrs() == old(self).page_addrs()
                &&& final(pages)@ == old(pages)@
            },
            old(self).free_set().len() == 0 ==> {
                &&& h == old(self).capacity()
                &&& final(self).capacity() == old(self).capacity() + 128
                &&& final(self).page_addrs() == old(self).page_addrs().push(old(pages)@.last())
                &&& final(pages)@ == old(pages)@.drop_last()
            },
    {
        proof {
            self.lemma_free_set_finite();
        }
        let ghost before = *self;
        let n = self.used.len();
        let mut p: usize = 0;
        while p < n
            invariant
                *self == before,
                *old(self) == before,
                n == self.used@.len(),
                self.wf(),
                self.capacity() + 128 <= usize::MAX,
                p <= n,
                forall|k: int| 0 <= k < 128 * p ==> self.is_used(k),
            decreases n - p,
        {
            let x = self.used[p];
            if x != u128::MAX {
                let mut i: u128 = 0;
                assert(x & ((1u128 << 0u128) - 1) as u128 == ((1u128 << 0u128) - 1) as u128)
                    by (bit_vector);
                while i < 128
                    invariant
                        *self == before,
                        *old(self) == before,
                        n == self.used@.len(),
                        self.wf(),
                        self.capacity() + 128 <= usize::MAX,
                        p < n,
                        x == self.used@[p as int],
                        x != u128::MAX,
                        i <= 127,
                        x & ((1u128 << i) - 1) as u128 == ((1u128 << i) - 1) as u128,
                        forall|k: int| 0 <= k < 128 * p ==> self.is_used(k),
                        forall|k: int| 128 * p <= k < 128 * p + i ==> self.is_used(k),
                    decreases 128 - i,
                {
                    if (x >> i) & 1 == 0 {
                        let h = 128 * p + i as usize;
                        assert(h as int / 128 == p && h as int % 128 == i);
                        assert(!before.is_used(h as int));
                        self.used.set(p, x | (1u128 << i));
                        proof {
                            assert forall|k: int| #[trigger]
                                self.used_set().contains(k) == before.used_set().insert(
                                    h as int,
                                ).contains(k) by {
                                if 128 * p <= k < 128 * p + 128 {
                                    lemma_bit_set(x, i, (k - 128 * p) as u128);
                                }
                            }
                            assert(self.used_set() =~= before.used_set().insert(h as int));
                            assert(before.free_set().contains(h as int));
                            assert forall|k: int| #[trigger]
                                self.free_set().contains(k) == before.free_set().remove(
                                    h as int,
                                ).contains(k) by {
                                if 128 * p <= k < 128 * p + 128 {
                                    lemma_bit_set(x, i, (k - 128 * p) as u128);
                                }
                            }
                            assert(self.free_set() =~= before.free_set().remove(h as int));
                            before.lemma_free_set_finite();
                            assert(before.free_set().len() == before.free_set().remove(
                                h as int,
                            ).len() + 1);
                        }
                        return h;
                    }
                    proof {
                        assert((x >> i) & 1 == 1) by (bit_vector)
                            requires
                                (x >> i) & 1 != 0,
                        ;
                        lemma_low_ones(x, i);
                    }
                    i = i + 1;
                }
                assert(false);
            }
            proof {
                assert forall|k: int| 128 * p <= k < 128 * p + 128 implies self.is_used(k) by {
                    lemma_bit_consts((k - 128 * p) as u128);
                }
            }
            p = p + 1;
        }
        proof {
            assert(self.free_set() =~= Set::<int>::empty());
        }
        let page = match get_zpage(pages) {
            Some(page) => page,
            None => {
                assert(false);
                0
            },
        };
        self.used.push(1u128);
        self.pages.push(page);
        let h = 128 * n;
        proof {
            assert forall|k: int| #[trigger]
                self.used_set().contains(k) == before.used_set().insert(h as int).contains(k) by {
                if 128 * n <= k < 128 * n + 128 {
                    lemma_bit_consts((k - 128 * n) as u128);
                }
            }
            assert(self.used_set() =~= before.used_set().insert(h as int));
        }
        h
    }

    /// The number of slots not handed out.
    pub fn free_count(&self) -> (r: usize)
        requires
            self.wf(),
            self.capacity() <= usize::MAX,
        ensures
            r == self.free_set().len(),
    {
        let n = self.used.len();
        let cap = 128 * n;
        let mut cnt: usize = 0;
        let mut h: usize = 0;
        let ghost below = Set::<int>::empty();
        proof {
            lemma_int_range(0, 0);
        }
        while h < cap
            invariant
                n == self.used@.len(),
                cap == self.capacity(),
                h <= cap,
                below == Set::new(|k: int| 0 <= k < h && !self.is_used(k)),
                below.finite(),
                cnt == below.len(),
                cnt <= h,
            decreases cap - h,
        {
            let p = h / 128;
            let i = (h % 128) as u128;
            let x = self.used[p];
            assert(h as int / 128 == p && h as int % 128 == i);
            let ghost next = Set::new(|k: int| 0 <= k < h + 1 && !self.is_used(k));
            if (x >> i) & 1 == 0 {
                assert((x >> i) & 1 != 1);
                assert(next =~= below.insert(h as int));
                cnt = cnt + 1;
            } else {
                assert((x >> i) & 1 == 1) by (bit_vector)
                    requires
                        (x >> i) & 1 != 0,
                ;
                assert(next =~= below);
            }
            proof {
                below = next;
            }
            h = h + 1;
        }
        assert(below =~= self.free_set());
        cnt
    }

    /// Hands slot `h` back.
    pub fn return_block(&mut self, h: usize)
        requires
            old(self).wf(),
            h < old(self).capacity(),
        ensures
            final(self).wf(),
            final(self).used_set() == old(self).used_set().remove(h as int),
            final(self).capacity() == old(self).capacity(),
            final(self).page_addrs() == old(self).page_addrs(),
    {
        let ghost before = *self;
        let p = h / 128;
        let i = (h % 128) as u128;
        let x = self.used[p];
        self.used.set(p, x & !(1u128 << i));
        proof {
            assert forall|k: int| #[trigger]
                self.used_set().contains(k) == before.used_set().remove(h as int).contains(k) by {
                if 128 * p <= k < 128 * p + 128 {
                    lemma_bit_clear(x, i, (k - 128 * p) as u128);
                }
            }
            assert(self.used_set() =~= before.used_set().remove(h as int));
        }
    }
}

/// A slot handed out and then handed back leaves the handed-out slots as they were.
pub proof fn lemma_get_then_return(before: Set<int>, h: int)
    requires
        !before.contains(h),
    ensures
        before.insert(h).remove(h) == before,
{
    assert(before.insert(h).remove(h) =~= before);
}

/// A node of the buddy tree as plain values: a block not handed to the allocator, a free
/// block, a block in use, or a block split into two halves.
pub enum BlockTree {
    Unallocated(BlockSize),
    Free(usize, BlockSize),
    Used(usize, BlockSize),
    Split(Box<BlockTree>, Box<BlockTree>, BlockSize),
}

/// A node of the buddy tree. A split block names the slots of the block pages that its halves
/// take up.
pub enum BuddyBlock {
    Unallocated(BlockSize),
    Free(usize, BlockSize),
    Used(usize, BlockSize),
    Split(usize, Box<BuddyBlock>, usize, Box<BuddyBlock>, BlockSize),
}

/// The height of a tree.
pub open spec fn height(t: BlockTree) -> nat
    decreases t,
{
    match t {
        BlockTree::Split(l, r, _) => {
            let hl = height(*l);
            let hr = height(*r);
            1 + if hl > hr {
                hl
            } else {
                hr
            }
        },
        _ => 0,
    }
}

/// No block of the tree is outside the allocator.
pub open spec fn no_unalloc(t: BlockTree) -> bool
    decreases t,
{
    match t {
        BlockTree::Unallocated(_) => false,
        BlockTree::Split(l, r, _) => no_unalloc(*l) && no_unalloc(*r),
        _ => true,
    }
}

/// Every free or used block ends within the address space.
pub open spec fn addrs_fit(t: BlockTree) -> bool
    decreases t,
{
    match t {
        BlockTree::Free(p, bs) => p + bs.size() <= usize::MAX,
        BlockTree::Used(p, bs) => p + bs.size() <= usize::MAX,
        BlockTree::Split(l, r, _) => addrs_fit(*l) && addrs_fit(*r),
        _ => true,
    }
}

/// The blocks in use (address and size), each as often as it occurs.
pub open spec fn used_blocks(t: BlockTree) -> Multiset<(usize, BlockSize)>
    decreases t,
{
    match t {
        BlockTree::Used(p, bs) => Multiset::singleton((p, bs)),
        BlockTree::Split(l, r, _) => used_blocks(*l).add(used_blocks(*r)),
        _ => Multiset::empty(),
    }
}

/// The first free block (left half first) of exactly `size`, at least `align` bytes, marked as
/// in use, with its address: a split block of more than `align` bytes is searched in both
/// halves, one of exactly `align` bytes in its left half only.
pub open spec fn fit_use(t: BlockTree, size: BlockSize, align: int) -> Option<(BlockTree, usize)>
    decreases t,
{
    match t {
        BlockTree::Free(p, bs) => if size == bs && bs.size() >= align {
            Some((BlockTree::Used(p, bs), p))
        } else {
            None
        },
        BlockTree::Split(l, r, bs) => if bs.size() > align {
            match fit_use(*l, size, align) {
                Some((nl, a)) => Some((BlockTree::Split(Box::new(nl), r, bs), a)),
                None => match fit_use(*r, size, align) {
                    Some((nr, a)) => Some((BlockTree::Split(l, Box::new(nr), bs), a)),
                    None => None,
                },
            }
        } else if bs.size() == align {
            match fit_use(*l, size, align) {
                Some((nl, a)) => Some((BlockTree::Split(Box::new(nl), r, bs), a)),
                None => None,
            }
        } else {
            None
        },
        _ => None,
    }
}

/// The size that the root of a tree has.
pub open spec fn node_size(t: BlockTree) -> BlockSize {
    match t {
        BlockTree::Unallocated(bs) => bs,
        BlockTree::Free(_, bs) => bs,
        BlockTree::Used(_, bs) => bs,
        BlockTree::Split(_, _, bs) => bs,
    }
}

/// Finding a block for `size` and `align` in the tree, splitting free blocks that are larger,
/// and taking it into use: the new tree, with the chosen block marked as in use, the chosen
/// block's address, and the number of blocks split (the block that `carve` leaves free, then
/// marked, see `lemma_carve_fit`). The search goes as in `fit_use`, but a free block larger than `size`
/// and at least `align` bytes is split in halves and its left half searched.
pub open spec fn create(t: BlockTree, size: BlockSize, align: int) -> (BlockTree, Option<usize>, nat)
    decreases 19 * height(t) + node_size(t).rank(),
{
    match t {
        BlockTree::Free(p, bs) => if size == bs && bs.size() >= align {
            (BlockTree::Used(p, bs), Some(p), 0)
        } else if size.size() < bs.size() && bs.size() >= align {
            match bs.half() {
                None => (BlockTree::Used(p, bs), Some(p), 0),
                Some(h) => {
                    let (nl, a, k) = create(BlockTree::Free(p, h), size, align);
                    (
                        BlockTree::Split(
                            Box::new(nl),
                            Box::new(BlockTree::Free((p + h.size()) as usize, h)),
                            bs,
                        ),
                        a,
                        k + 1,
                    )
                },
            }
        } else {
            (t, None, 0)
        },
        BlockTree::Split(l, r, bs) => if bs.size() > align {
            let (nl, a, k) = create(*l, size, align);
            if a is Some {
                (BlockTree::Split(Box::new(nl), r, bs), a, k)
            } else {
                let (nr, b, k2) = create(*r, size, align);
                (BlockTree::Split(Box::new(nl), Box::new(nr), bs), b, k + k2)
            }
        } else if bs.size() == align {
            let (nl, a, k) = create(*l, size, align);
            (BlockTree::Split(Box::new(nl), r, bs), a, k)
        } else {
            (t, None, 0)
        },
        _ => (t, None, 0),
    }
}

/// The number of split blocks in the tree.
pub open spec fn splits(t: BlockTree) -> nat
    decreases t,
{
    match t {
        BlockTree::Split(l, r, _) => 1 + splits(*l) + splits(*r),
        _ => 0,
    }
}

/// The address of the block that `fit_use` finds, if any.
pub open spec fn fit_addr(t: BlockTree, size: BlockSize, align: int) -> Option<usize> {
    match fit_use(t, size, align) {
        Some((_, a)) => Some(a),
        None => None,
    }
}

/// The tree with the block at `ptr` marked as in use: the first free block at `ptr` of exactly
/// `size`, at least `align` bytes, that the search of `fit_use` reaches; `None` where it reaches
/// none.
pub open spec fn mark_fit(t: BlockTree, ptr: usize, size: BlockSize, align: int) -> Option<BlockTree>
    decreases t,
{
    match t {
        BlockTree::Free(p, bs) => if p == ptr && size == bs && bs.size() >= align {
            Some(BlockTree::Used(p, bs))
        } else {
            None
        },
        BlockTree::Split(l, r, bs) => if bs.size() > align {
            match mark_fit(*l, ptr, size, align) {
                Some(nl) => Some(BlockTree::Split(Box::new(nl), r, bs)),
                None => match mark_fit(*r, ptr, size, align) {
                    Some(nr) => Some(BlockTree::Split(l, Box::new(nr), bs)),
                    None => None,
                },
            }
        } else if bs.size() == align {
            match mark_fit(*l, ptr, size, align) {
                Some(nl) => Some(BlockTree::Split(Box::new(nl), r, bs)),
                None => None,
            }
        } else {
            None
        },
        _ => None,
    }
}

/// Making a block for `size` and `align` in the tree as `create` does, but leaving the chosen
/// block free: the new tree, the chosen block's address, and the number of blocks split.
pub open spec fn carve(t: BlockTree, size: BlockSize, align: int) -> (BlockTree, Option<usize>, nat)
    decreases 19 * height(t) + node_size(t).rank(),
{
    match t {
        BlockTree::Free(p, bs) => if size == bs && bs.size() >= align {
            (t, Some(p), 0)
        } else if size.size() < bs.size() && bs.size() >= align {
            match bs.half() {
                None => (t, Some(p), 0),
                Some(h) => {
                    let (nl, a, k) = carve(BlockTree::Free(p, h), size, align);
                    (
                        BlockTree::Split(
                            Box::new(nl),
                            Box::new(BlockTree::Free((p + h.size()) as usize, h)),
                            bs,
                        ),
                        a,
                        k + 1,
                    )
                },
            }
        } else {
            (t, None, 0)
        },
        BlockTree::Split(l, r, bs) => if bs.size() > align {
            let (nl, a, k) = carve(*l, size, align);
            if a is Some {
                (BlockTree::Split(Box::new(nl), r, bs), a, k)
            } else {
                let (nr, b, k2) = carve(*r, size, align);
                (BlockTree::Split(Box::new(nl), Box::new(nr), bs), b, k + k2)
            }
        } else if bs.size() == align {
            let (nl, a, k) = carve(*l, size, align);
            (BlockTree::Split(Box::new(nl), r, bs), a, k)
        } else {
            (t, None, 0)
        },
        _ => (t, None, 0),
    }
}

/// The block that `fit_use` finds is the one that marking at its address marks; where it
/// finds none, marking at any address marks none.
proof fn lemma_fit_mark(t: BlockTree, size: BlockSize, align: int)
    ensures
        match fit_use(t, size, align) {
            Some((nt, a)) => mark_fit(t, a, size, align) == Some(nt),
            None => forall|a: usize| #[trigger] mark_fit(t, a, size, align) is None,
        },
    decreases t,
{
    if let BlockTree::Split(l, r, bs) = t {
        lemma_fit_mark(*l, size, align);
        lemma_fit_mark(*r, size, align);
        match fit_use(t, size, align) {
            Some((nt, a)) => {
                if bs.size() > align && fit_use(*l, size, align) is None {
                    assert(mark_fit(*l, a, size, align) is None);
                }
            },
            None => {
                assert forall|a: usize| #[trigger] mark_fit(t, a, size, align) is None by {
                    if bs.size() >= align {
                        assert(fit_use(*l, size, align) is None);
                        assert(mark_fit(*l, a, size, align) is None);
                        if bs.size() > align {
                            assert(fit_use(*r, size, align) is None);
                            assert(mark_fit(*r, a, size, align) is None);
                        }
                    }
                }
            },
        }
    }
}

/// `carve` makes the block that `create` makes, in the same number of splits, and leaves it
/// where `fit_use` then finds it; marking it gives what `create` gives.
proof fn lemma_carve_fit(t: BlockTree, size: BlockSize, align: int)
    ensures
        carve(t, size, align).1 == create(t, size, align).1,
        carve(t, size, align).2 == create(t, size, align).2,
        match create(t, size, align).1 {
            Some(a) => fit_use(carve(t, size, align).0, size, align) == Some(
                (create(t, size, align).0, a),
            ),
            None => carve(t, size, align).0 == create(t, size, align).0 && fit_use(
                carve(t, size, align).0,
                size,
                align,
            ) is None,
        },
    decreases 19 * height(t) + node_size(t).rank(),
{
    lemma_size_positive(size);
    match t {
        BlockTree::Free(p, bs) => {
            lemma_size_positive(bs);
            if size == bs && bs.size() >= align {
            } else if size.size() < bs.size() && bs.size() >= align {
                if let Some(h) = bs.half() {
                    let f = BlockTree::Free(p, h);
                    lemma_carve_fit(f, size, align);
                    let rt = BlockTree::Free((p + h.size()) as usize, h);
                    let (nc, a, k) = carve(f, size, align);
                    let (nu, b, k2) = create(f, size, align);
                    assert(carve(t, size, align) == (
                        BlockTree::Split(Box::new(nc), Box::new(rt), bs),
                        a,
                        k + 1,
                    ));
                    assert(create(t, size, align) == (
                        BlockTree::Split(Box::new(nu), Box::new(rt), bs),
                        b,
                        k2 + 1,
                    ));
                    if a is None {
                        assert(!(size == h && h.size() >= align));
                        assert(fit_use(rt, size, align) is None);
                    }
                } else {
                    assert(false);
                }
            }
        },
        BlockTree::Split(l, r, bs) => {
            lemma_carve_fit(*l, size, align);
            lemma_carve_fit(*r, size, align);
        },
        _ => {},
    }
}

/// Freeing the block in use at `ptr`, right half first: the new tree and whether such a block
/// was found; `None` where a free block at `ptr` comes first.
pub open spec fn free_spec(t: BlockTree, ptr: usize) -> Option<(BlockTree, bool)>
    decreases t,
{
    match t {
        BlockTree::Free(p, _) => if p == ptr {
            None
        } else {
            Some((t, false))
        },
        BlockTree::Used(p, bs) => if p == ptr {
            Some((BlockTree::Free(p, bs), true))
        } else {
            Some((t, false))
        },
        BlockTree::Split(l, r, bs) => match free_spec(*r, ptr) {
            None => None,
            Some((nr, true)) => Some((BlockTree::Split(l, Box::new(nr), bs), true)),
            Some((nr, false)) => match free_spec(*l, ptr) {
                None => None,
                Some((nl, f)) => Some((BlockTree::Split(Box::new(nl), Box::new(nr), bs), f)),
            },
        },
        _ => Some((t, false)),
    }
}

/// Merging, bottom up: a split block of at most 4 KiB whose halves are both free becomes one
/// free block (at the left half's address); a larger one whose halves are both outside the
/// allocator becomes one such block.
pub open spec fn merge_spec(t: BlockTree) -> BlockTree
    decreases t,
{
    match t {
        BlockTree::Split(l, r, bs) => {
            let ml = merge_spec(*l);
            let mr = merge_spec(*r);
            if bs.size() <= 0x1000 {
                match (ml, mr) {
                    (BlockTree::Free(p, _), BlockTree::Free(_, _)) => BlockTree::Free(p, bs),
                    _ => BlockTree::Split(Box::new(ml), Box::new(mr), bs),
                }
            } else {
                match (ml, mr) {
                    (BlockTree::Unallocated(_), BlockTree::Unallocated(_)) => BlockTree::Unallocated(
                        bs,
                    ),
                    _ => BlockTree::Split(Box::new(ml), Box::new(mr), bs),
                }
            }
        },
        _ => t,
    }
}

/// No split block is left that merging would join: none of at most 4 KiB has two free halves,
/// and none larger has two halves outside the allocator.
pub open spec fn fully_merged(t: BlockTree) -> bool
    decreases t,
{
    match t {
        BlockTree::Split(l, r, bs) => {
            &&& fully_merged(*l)
            &&& fully_merged(*r)
            &&& bs.size() <= 0x1000 ==> !(*l is Free && *r is Free)
            &&& bs.size() > 0x1000 ==> !(*l is Unallocated && *r is Unallocated)
        },
        _ => true,
    }
}

/// Merging leaves nothing to merge: every pair of free halves of at most 4 KiB, and every pair
/// of larger halves outside the allocator, is joined.
pub proof fn lemma_merge_complete(t: BlockTree)
    ensures
        fully_merged(merge_spec(t)),
    decreases t,
{
    if let BlockTree::Split(l, r, _) = t {
        lemma_merge_complete(*l);
        lemma_merge_complete(*r);
    }
}

/// Merging takes no block in use and no split block whose halves are not both free (or, above
/// 4 KiB, both outside the allocator): a tree with nothing to merge stays as it is.
pub proof fn lemma_merge_keeps_merged(t: BlockTree)
    requires
        fully_merged(t),
    ensures
        merge_spec(t) == t,
    decreases t,
{
    if let BlockTree::Split(l, r, _) = t {
        lemma_merge_keeps_merged(*l);
        lemma_merge_keeps_merged(*r);
    }
}

/// The slots that making a block for `size` and `align` out of a free block of `bs` takes (two
/// for each split, see `create`), wherever the block lies, and whether a block is found; `None`
/// where they are more than `budget`.
fn free_plan(bs: BlockSize, size: BlockSize, align: usize, budget: usize) -> (r: Option<
    (bool, usize),
>)
    ensures
        forall|p: usize|
            #![trigger create(BlockTree::Free(p, bs), size, align as int)]
            ({
                let (_, a, k) = create(BlockTree::Free(p, bs), size, align as int);
                match r {
                    None => 2 * k > budget,
                    Some((f, c)) => c == 2 * k && c <= budget && f == a is Some,
                }
            }),
    decreases bs.rank(),
{
    if size == bs && bs.bytes() >= align {
        return Some((true, 0));
    }
    if size.bytes() < bs.bytes() && bs.bytes() >= align {
        match bs.split() {
            None => Some((true, 0)),
            Some(h) => {
                proof {
                    lemma_size_positive(bs);
                }
                let below = free_plan(h, size, align, budget);
                assert forall|p: usize|
                    #![trigger create(BlockTree::Free(p, bs), size, align as int)]
                    create(BlockTree::Free(p, bs), size, align as int).2 == create(
                        BlockTree::Free(p, h),
                        size,
                        align as int,
                    ).2 + 1 && create(BlockTree::Free(p, bs), size, align as int).1 == create(
                        BlockTree::Free(p, h),
                        size,
                        align as int,
                    ).1 by {}
                match below {
                    None => None,
                    Some((f, c)) => {
                        // The cost does not depend on where the block lies.
                        assert(c <= budget) by {
                            assert(create(BlockTree::Free(0usize, h), size, align as int).2 >= 0);
                        }
                        if budget - c >= 2 {
                            Some((f, c + 2))
                        } else {
                            None
                        }
                    },
                }
            },
        }
    } else {
        Some((false, 0))
    }
}

impl BuddyBlock {
    /// The node as plain values.
    pub closed spec fn view_tree(&self) -> BlockTree
        decreases self,
    {
        match self {
            BuddyBlock::Unallocated(bs) => BlockTree::Unallocated(*bs),
            BuddyBlock::Free(p, bs) => BlockTree::Free(*p, *bs),
            BuddyBlock::Used(p, bs) => BlockTree::Used(*p, *bs),
            BuddyBlock::Split(_, l, _, r, bs) => BlockTree::Split(
                Box::new(l.view_tree()),
                Box::new(r.view_tree()),
                *bs,
            ),
        }
    }

    /// The slots of the block pages that the tree names.
    pub closed spec fn slots(&self) -> Set<int>
        decreases self,
    {
        match self {
            BuddyBlock::Split(ls, l, rs, r, _) => l.slots().union(r.slots()).insert(
                *ls as int,
            ).insert(*rs as int),
            _ => Set::empty(),
        }
    }

    /// No slot is named twice in the tree.
    pub closed spec fn slots_distinct(&self) -> bool
        decreases self,
    {
        match self {
            BuddyBlock::Split(ls, l, rs, r, _) => {
                &&& *ls != *rs
                &&& !l.slots().contains(*ls as int) && !l.slots().contains(*rs as int)
                &&& !r.slots().contains(*ls as int) && !r.slots().contains(*rs as int)
                &&& l.slots().disjoint(r.slots())
                &&& l.slots_distinct() && r.slots_distinct()
            },
            _ => true,
        }
    }

    /// A tree that names no slot twice names two for each split block.
    proof fn lemma_slots_len(&self)
        requires
            self.slots_distinct(),
        ensures
            self.slots().finite(),
            self.slots().len() == 2 * splits(self.view_tree()),
        decreases self,
    {
        match self {
            BuddyBlock::Split(ls, l, rs, r, _) => {
                l.lemma_slots_len();
                r.lemma_slots_len();
                vstd::set_lib::lemma_set_disjoint_lens(l.slots(), r.slots());
                let u = l.slots().union(r.slots());
                assert(l.slots() + r.slots() == u);
                assert(!u.contains(*ls as int));
                assert(!u.insert(*ls as int).contains(*rs as int));
            },
            _ => {
                assert(self.slots() =~= Set::<int>::empty());
            },
        }
    }

    /// The address of the first free block of exactly `size`, at least `align` bytes (see
    /// `fit_use`); the tree is left as it is.
    fn find_size_align(&self, size: BlockSize, align: usize) -> (r: Option<usize>)
        ensures
            r == fit_addr(self.view_tree(), size, align as int),
        decreases self,
    {
        match self {
            BuddyBlock::Free(p, block_size) => {
                if size == *block_size && block_size.bytes() >= align {
                    Some(*p)
                } else {
                    None
                }
            },
            BuddyBlock::Split(_, l, _, r, block_size) => {
                let bs = block_size.bytes();
                if bs > align {
                    match l.find_size_align(size, align) {
                        Some(b) => Some(b),
                        None => r.find_size_align(size, align),
                    }
                } else if bs == align {
                    l.find_size_align(size, align)
                } else {
                    None
                }
            },
            _ => None,
        }
    }

    /// Marks as in use the free block at `ptr` that the search for a block of exactly `size`,
    /// at least `align` bytes, reaches first (see `mark_fit`); whether there was one.
    fn mark_used(&mut self, ptr: usize, size: BlockSize, align: usize) -> (r: bool)
        ensures
            match mark_fit(old(self).view_tree(), ptr, size, align as int) {
                None => !r && final(self).view_tree() == old(self).view_tree(),
                Some(t) => r && final(self).view_tree() == t,
            },
            final(self).slots() == old(self).slots(),
            old(self).slots_distinct() ==> final(self).slots_distinct(),
        decreases *old(self),
    {
        match self {
            BuddyBlock::Free(p, block_size) => {
                if *p == ptr && size == *block_size && block_size.bytes() >= align {
                    let bs = *block_size;
                    *self = BuddyBlock::Used(ptr, bs);
                    true
                } else {
                    false
                }
            },
            BuddyBlock::Split(_, l, _, r, block_size) => {
                let bs = block_size.bytes();
                if bs > align {
                    if l.mark_used(ptr, size, align) {
                        true
                    } else {
                        r.mark_used(ptr, size, align)
                    }
                } else if bs == align {
                    l.mark_used(ptr, size, align)
                } else {
                    false
                }
            },
            _ => false,
        }
    }

    /// Splits a free block, or one outside the allocator, into two halves of the same kind,
    /// in two slots taken from `pool`; gives the block back unchanged where it has the
    /// smallest size.
    fn split(self, pool: &mut BuddyBlockPages, pages: &mut FreePages) -> (r: Result<Self, Self>)
        requires
            self.view_tree() is Free || self.view_tree() is Unallocated,
            self.view_tree() matches BlockTree::Free(p, bs) ==> p + bs.size() <= usize::MAX,
            old(pool).wf(),
            old(pool).free_set().len() >= 2,
            old(pool).capacity() + 128 <= usize::MAX,
        ensures
            final(pool).wf(),
            final(pool).capacity() == old(pool).capacity(),
            final(pages)@ == old(pages)@,
            match self.view_tree() {
                BlockTree::Free(p, bs) => match bs.half() {
                    None => r == Err::<Self, Self>(self) && *final(pool) == *old(pool),
                    Some(h) => r matches Ok(n) && n.view_tree() == BlockTree::Split(
                        Box::new(BlockTree::Free(p, h)),
                        Box::new(BlockTree::Free((p + h.size()) as usize, h)),
                        bs,
                    ) && slots_below(n.slots(), final(pool).capacity())
                        && final(pool).free_set().len() == old(pool).free_set().len() - 2,
                },
                BlockTree::Unallocated(bs) => match bs.half() {
                    None => r == Err::<Self, Self>(self) && *final(pool) == *old(pool),
                    Some(h) => r matches Ok(n) && n.view_tree() == BlockTree::Split(
                        Box::new(BlockTree::Unallocated(h)),
                        Box::new(BlockTree::Unallocated(h)),
                        bs,
                    ) && slots_below(n.slots(), final(pool).capacity())
                        && final(pool).free_set().len() == old(pool).free_set().len() - 2,
                },
                _ => false,
            },
            r matches Ok(n) ==> n.slots_distinct() && final(pool).used_set() == old(
                pool,
            ).used_set().union(n.slots()) && n.slots().disjoint(old(pool).used_set()),
    {
        match self {
            BuddyBlock::Free(ptr, block_size) => {
                let new_size = match block_size.split() {
                    Some(n) => n,
                    None => return Err(self),
                };
                let l = BuddyBlock::Free(ptr, new_size);
                let r = BuddyBlock::Free(ptr + new_size.bytes(), new_size);
                assert(l.slots() =~= Set::<int>::empty() && r.slots() =~= Set::<int>::empty());
                assert(l.view_tree() == BlockTree::Free(ptr, new_size));
                assert(r.view_tree() == BlockTree::Free((ptr + new_size.size()) as usize, new_size));
                let l_slot = pool.get_block(pages);
                let ghost mid = *pool;
                let r_slot = pool.get_block(pages);
                proof {
                    assert(!old(pool).used_set().contains(l_slot as int));
                    assert(mid.used_set().contains(l_slot as int));
                    assert(!mid.used_set().contains(r_slot as int));
                }
                let n = BuddyBlock::Split(l_slot, Box::new(l), r_slot, Box::new(r), block_size);
                assert(n.slots() =~= Set::<int>::empty().insert(l_slot as int).insert(
                    r_slot as int,
                ));
                assert(pool.used_set() =~= old(pool).used_set().union(n.slots()));
                assert(n.slots().disjoint(old(pool).used_set()));
                proof {
                    if let BuddyBlock::Split(a, bl, b, br, _) = &n {
                        assert(a != b);
                        assert(bl.slots() =~= Set::<int>::empty());
                        assert(br.slots() =~= Set::<int>::empty());
                        assert(bl.slots().disjoint(br.slots()));
                        assert(bl.slots_distinct());
                        assert(br.slots_distinct());
                    }
                }
                assert(n.slots_distinct());
                Ok(n)
            },
            BuddyBlock::Unallocated(block_size) => {
                let new_size = match block_size.split() {
                    Some(n) => n,
                    None => return Err(self),
                };
                let l = BuddyBlock::Unallocated(new_size);
                let r = BuddyBlock::Unallocated(new_size);
                assert(l.slots() =~= Set::<int>::empty() && r.slots() =~= Set::<int>::empty());
                assert(l.view_tree() == BlockTree::Unallocated(new_size));
                let l_slot = pool.get_block(pages);
                let ghost mid = *pool;
                let r_slot = pool.get_block(pages);
                proof {
                    assert(!old(pool).used_set().contains(l_slot as int));
                    assert(mid.used_set().contains(l_slot as int));
                    assert(!mid.used_set().contains(r_slot as int));
                }
                let n = BuddyBlock::Split(l_slot, Box::new(l), r_slot, Box::new(r), block_size);
                assert(n.slots() =~= Set::<int>::empty().insert(l_slot as int).insert(
                    r_slot as int,
                ));
                assert(pool.used_set() =~= old(pool).used_set().union(n.slots()));
                assert(n.slots().disjoint(old(pool).used_set()));
                proof {
                    if let BuddyBlock::Split(a, bl, b, br, _) = &n {
                        assert(a != b);
                        assert(bl.slots() =~= Set::<int>::empty());
                        assert(br.slots() =~= Set::<int>::empty());
                        assert(bl.slots().disjoint(br.slots()));
                        assert(bl.slots_distinct());
                        assert(br.slots_distinct());
                    }
                }
                assert(n.slots_distinct());
                Ok(n)
            },
            _ => vstd::pervasive::unreached(),
        }
    }

    /// Finds a block for `size` and `align`, splitting free blocks that are larger (see
    /// `carve`), with the slots for the halves taken from `pool`; gives the block's address and
    /// leaves it free.
    fn find_or_create_size_align(
        &mut self,
        size: BlockSize,
        align: usize,
        pool: &mut BuddyBlockPages,
        pages: &mut FreePages,
    ) -> (r: Option<usize>)
        requires
            no_unalloc(old(self).view_tree()),
            addrs_fit(old(self).view_tree()),
            old(pool).wf(),
            2 * carve(old(self).view_tree(), size, align as int).2 <= old(pool).free_set().len(),
            old(pool).capacity() + 128 <= usize::MAX,
            old(self).slots_distinct(),
            old(self).slots().subset_of(old(pool).used_set()),
        ensures
            final(self).slots_distinct(),
            old(self).slots().subset_of(final(self).slots()),
            final(pool).used_set() == old(pool).used_set().union(final(self).slots()),
            forall|h: int|
                #[trigger] final(self).slots().contains(h) && !old(self).slots().contains(h)
                    ==> !old(pool).used_set().contains(h),
            final(self).view_tree() == carve(old(self).view_tree(), size, align as int).0,
            r == carve(old(self).view_tree(), size, align as int).1,
            final(pool).wf(),
            final(pool).capacity() == old(pool).capacity(),
            final(pool).free_set().len() == old(pool).free_set().len() - 2 * carve(
                old(self).view_tree(),
                size,
                align as int,
            ).2,
            final(pages)@ == old(pages)@,
            slots_below(old(self).slots(), old(pool).capacity()) ==> slots_below(
                final(self).slots(),
                final(pool).capacity(),
            ),
        decreases 19 * height(old(self).view_tree()) + node_size(old(self).view_tree()).rank(),
    {
        match self {
            BuddyBlock::Unallocated(_) => vstd::pervasive::unreached(),
            BuddyBlock::Free(p, block_size) => {
                let p = *p;
                let bs = *block_size;
                if size == bs && bs.bytes() >= align {
                    Some(p)
                } else if size.bytes() < bs.bytes() && bs.bytes() >= align {
                    let mut old = BuddyBlock::Unallocated(bs);
                    core::mem::swap(self, &mut old);
                    match old.split(pool, pages) {
                        Ok(n) => {
                            *self = n;
                        },
                        Err(back) => {
                            *self = back;
                            return Some(p);
                        },
                    }
                    let ghost snap = *self;
                    match self {
                        BuddyBlock::Split(ls, l, rs, r, _) => {
                            proof {
                                assert(height(l.view_tree()) == 0);
                                assert(snap.slots() == l.slots().union(r.slots()).insert(
                                    *ls as int,
                                ).insert(*rs as int));
                                assert(snap.slots().contains(*ls as int));
                                assert(snap.slots().contains(*rs as int));
                                assert forall|h: int| r.slots().contains(h) implies 0 <= h
                                    < pool.capacity() by {
                                    assert(snap.slots().contains(h));
                                }
                                assert forall|h: int| l.slots().contains(h) implies 0 <= h
                                    < pool.capacity() by {
                                    assert(snap.slots().contains(h));
                                }
                            }
                            l.find_or_create_size_align(size, align, pool, pages)
                        },
                        _ => vstd::pervasive::unreached(),
                    }
                } else {
                    None
                }
            },
            BuddyBlock::Used(_, _) => None,
            BuddyBlock::Split(ls, l, rs, r, block_size) => {
                let bs = block_size.bytes();
                proof {
                    assert(old(self).slots() == l.slots().union(r.slots()).insert(
                        *ls as int,
                    ).insert(*rs as int));
                    if slots_below(old(self).slots(), old(pool).capacity()) {
                        assert(old(self).slots().contains(*ls as int));
                        assert(old(self).slots().contains(*rs as int));
                        assert forall|h: int| l.slots().contains(h) implies 0 <= h
                            < old(pool).capacity() by {
                            assert(old(self).slots().contains(h));
                        }
                        assert forall|h: int| r.slots().contains(h) implies 0 <= h
                            < old(pool).capacity() by {
                            assert(old(self).slots().contains(h));
                        }
                    }
                }
                if bs > align {
                    match l.find_or_create_size_align(size, align, pool, pages) {
                        Some(b) => Some(b),
                        None => r.find_or_create_size_align(size, align, pool, pages),
                    }
                } else if bs == align {
                    l.find_or_create_size_align(size, align, pool, pages)
                } else {
                    None
                }
            },
        }
    }

    /// Frees the block in use at `ptr`, searching the right half of a split block first;
    /// whether there was one.
    fn free(&mut self, ptr: usize) -> (r: bool)
        requires
            free_spec(old(self).view_tree(), ptr) is Some,
        ensures
            (final(self).view_tree(), r) == free_spec(old(self).view_tree(), ptr).unwrap(),
            final(self).slots() == old(self).slots(),
            old(self).slots_distinct() ==> final(self).slots_distinct(),
        decreases *old(self),
    {
        match self {
            BuddyBlock::Unallocated(_) => false,
            BuddyBlock::Free(_, _) => false,
            BuddyBlock::Used(ptr_u, block_size) => {
                if *ptr_u == ptr {
                    let bs = *block_size;
                    *self = BuddyBlock::Free(ptr, bs);
                    true
                } else {
                    false
                }
            },
            BuddyBlock::Split(_, l, _, r, _) => {
                let freed = r.free(ptr);
                if freed {
                    true
                } else {
                    l.free(ptr)
                }
            },
        }
    }

    /// What freeing at `ptr` reports (see `free_spec`), without freeing: `None` where a free
    /// block at `ptr` comes first.
    fn free_check(&self, ptr: usize) -> (r: Option<bool>)
        ensures
            match free_spec(self.view_tree(), ptr) {
                None => r is None,
                Some((_, f)) => r == Some(f),
            },
        decreases self,
    {
        match self {
            BuddyBlock::Unallocated(_) => Some(false),
            BuddyBlock::Free(p, _) => if *p == ptr {
                None
            } else {
                Some(false)
            },
            BuddyBlock::Used(p, _) => Some(*p == ptr),
            BuddyBlock::Split(_, l, _, r, _) => match r.free_check(ptr) {
                None => None,
                Some(true) => Some(true),
                Some(false) => l.free_check(ptr),
            },
        }
    }

    /// Whether a free block of exactly `size`, at least `align` bytes, is found (see `fit_use`).
    fn fit_check(&self, size: BlockSize, align: usize) -> (r: bool)
        ensures
            r == fit_use(self.view_tree(), size, align as int) is Some,
        decreases self,
    {
        match self {
            BuddyBlock::Free(_, bs) => size == *bs && bs.bytes() >= align,
            BuddyBlock::Split(_, l, _, r, bs) => {
                let b = bs.bytes();
                if b > align {
                    l.fit_check(size, align) || r.fit_check(size, align)
                } else if b == align {
                    l.fit_check(size, align)
                } else {
                    false
                }
            },
            _ => false,
        }
    }

    /// The slots that making a block for `size` and `align` takes (two for each split, see
    /// `create`), and whether a block is found; `None` where they are more than `budget`.
    fn plan(&self, size: BlockSize, align: usize, budget: usize) -> (r: Option<(bool, usize)>)
        ensures
            ({
                let (_, a, k) = create(self.view_tree(), size, align as int);
                match r {
                    None => 2 * k > budget,
                    Some((f, c)) => c == 2 * k && c <= budget && f == a is Some,
                }
            }),
        decreases self,
    {
        match self {
            BuddyBlock::Free(p, bs) => free_plan(*bs, size, align, budget),
            BuddyBlock::Split(_, l, _, r, bs) => {
                let b = bs.bytes();
                if b > align {
                    match l.plan(size, align, budget) {
                        None => None,
                        Some((true, c)) => Some((true, c)),
                        Some((false, c)) => match r.plan(size, align, budget - c) {
                            None => None,
                            Some((f, c2)) => Some((f, c + c2)),
                        },
                    }
                } else if b == align {
                    l.plan(size, align, budget)
                } else {
                    Some((false, 0))
                }
            },
            _ => Some((false, 0)),
        }
    }

    /// Merges split blocks bottom up (see `merge_spec`), handing the slots of merged halves back
    /// to `pool`.
    fn merge(&mut self, pool: &mut BuddyBlockPages)
        requires
            old(pool).wf(),
            slots_below(old(self).slots(), old(pool).capacity()),
            old(self).slots_distinct(),
            old(self).slots().subset_of(old(pool).used_set()),
        ensures
            final(self).view_tree() == merge_spec(old(self).view_tree()),
            final(pool).wf(),
            final(pool).capacity() == old(pool).capacity(),
            final(self).slots().subset_of(old(self).slots()),
            final(self).slots_distinct(),
            final(pool).used_set() == old(pool).used_set().difference(
                old(self).slots().difference(final(self).slots()),
            ),
        decreases *old(self),
    {
        let ghost snap = *self;
        let merged = match self {
            BuddyBlock::Split(ls, l, rs, r, block_size) => {
                proof {
                    assert(snap.slots() == l.slots().union(r.slots()).insert(*ls as int).insert(
                        *rs as int,
                    ));
                    assert forall|h: int| l.slots().contains(h) implies 0 <= h
                        < pool.capacity() by {
                        assert(snap.slots().contains(h));
                    }
                    assert forall|h: int| r.slots().contains(h) implies 0 <= h
                        < pool.capacity() by {
                        assert(snap.slots().contains(h));
                    }
                    assert(snap.slots().contains(*ls as int));
                    assert(snap.slots().contains(*rs as int));
                }
                l.merge(pool);
                r.merge(pool);
                let bs = *block_size;
                let (ls, rs) = (*ls, *rs);
                if bs.bytes() <= 0x1000 {
                    match (&**l, &**r) {
                        (BuddyBlock::Free(ptr, _), BuddyBlock::Free(_, _)) => Some(
                            (BuddyBlock::Free(*ptr, bs), ls, rs),
                        ),
                        _ => None,
                    }
                } else {
                    match (&**l, &**r) {
                        (BuddyBlock::Unallocated(_), BuddyBlock::Unallocated(_)) => Some(
                            (BuddyBlock::Unallocated(bs), ls, rs),
                        ),
                        _ => None,
                    }
                }
            },
            _ => None,
        };
        if let Some((block, ls, rs)) = merged {
            pool.return_block(ls);
            pool.return_block(rs);
            *self = block;
        }
    }
}

/// Every slot of `s` is below `cap`.
pub open spec fn slots_below(s: Set<int>, cap: int) -> bool {
    forall|h: int| s.contains(h) ==> 0 <= h < cap
}

/// A tree of halves laid out from `base`: each block starts at `base` and ends within the
/// address space, and a split block's halves have half its size, the left one at `base` and the
/// right one just after it.
pub open spec fn buddy_ok(t: BlockTree, base: int) -> bool
    decreases t,
{
    match t {
        BlockTree::Free(p, bs) => p == base && base + bs.size() <= usize::MAX,
        BlockTree::Used(p, bs) => p == base && base + bs.size() <= usize::MAX,
        BlockTree::Split(l, r, bs) => match bs.half() {
            Some(h) => node_size(*l) == h && node_size(*r) == h && buddy_ok(*l, base) && buddy_ok(
                *r,
                base + h.size(),
            ),
            None => false,
        },
        BlockTree::Unallocated(_) => false,
    }
}

/// The address where a tree's first block starts.
pub open spec fn base_of(t: BlockTree) -> int
    decreases t,
{
    match t {
        BlockTree::Free(p, _) => p as int,
        BlockTree::Used(p, _) => p as int,
        BlockTree::Split(l, _, _) => base_of(*l),
        BlockTree::Unallocated(_) => 0,
    }
}

/// The allocator's tree: above 4 KiB, split blocks whose halves have half their size and are
/// well formed each; from 4 KiB down, trees of halves laid out from their first address.
pub open spec fn tree_ok(t: BlockTree) -> bool
    decreases t,
{
    match t {
        BlockTree::Split(l, r, bs) => if bs.size() > 0x1000 {
            match bs.half() {
                Some(h) => node_size(*l) == h && node_size(*r) == h && tree_ok(*l) && tree_ok(*r),
                None => false,
            }
        } else {
            buddy_ok(t, base_of(t))
        },
        BlockTree::Free(p, _) => buddy_ok(t, p as int),
        BlockTree::Used(p, _) => buddy_ok(t, p as int),
        BlockTree::Unallocated(_) => false,
    }
}

proof fn lemma_buddy_base(t: BlockTree, base: int)
    requires
        buddy_ok(t, base),
    ensures
        base_of(t) == base,
        base >= 0,
    decreases t,
{
    if let BlockTree::Split(l, _, _) = t {
        lemma_buddy_base(*l, base);
    }
}

/// Every block size is at least four bytes, and splitting a block gives two halves of half
/// its size; only the smallest size does not split.
pub proof fn lemma_size_positive(bs: BlockSize)
    ensures
        bs.size() >= 4,
        bs.half() matches Some(h) ==> h.size() * 2 == bs.size() && h.size() < bs.size() && h.rank()
            + 1 == bs.rank(),
        bs.half() is None <==> bs == BlockSize::Bs4,
{
}

/// Finding or making a block keeps a tree of halves laid out from `base`, and claims exactly
/// the chosen block, of the requested size.
proof fn lemma_create_buddy(t: BlockTree, size: BlockSize, align: int, base: int)
    requires
        buddy_ok(t, base),
    ensures
        buddy_ok(create(t, size, align).0, base),
        node_size(create(t, size, align).0) == node_size(t),
        match create(t, size, align).1 {
            Some(a) => used_blocks(create(t, size, align).0) == used_blocks(t).insert((a, size)),
            None => used_blocks(create(t, size, align).0) == used_blocks(t),
        },
    decreases 19 * height(t) + node_size(t).rank(),
{
    lemma_size_positive(size);
    match t {
        BlockTree::Free(p, bs) => {
            lemma_size_positive(bs);
            if size == bs && bs.size() >= align {
                assert(used_blocks(BlockTree::Used(p, bs)) =~= Multiset::empty().insert((p, bs)));
            } else if size.size() < bs.size() && bs.size() >= align {
                if let Some(h) = bs.half() {
                    lemma_create_buddy(BlockTree::Free(p, h), size, align, base);
                    let (nl, a, k) = create(BlockTree::Free(p, h), size, align);
                    let nr = BlockTree::Free((p + h.size()) as usize, h);
                    assert(create(t, size, align).0 == BlockTree::Split(
                        Box::new(nl),
                        Box::new(nr),
                        bs,
                    ));
                    assert(buddy_ok(nr, base + h.size()));
                    assert(buddy_ok(nl, base));
                    assert(buddy_ok(create(t, size, align).0, base));
                    assert(used_blocks(nr) =~= Multiset::empty());
                    assert(used_blocks(t) =~= Multiset::empty());
                    if let Some(a) = a {
                        assert(used_blocks(BlockTree::Split(Box::new(nl), Box::new(nr), bs))
                            =~= used_blocks(t).insert((a, size)));
                    } else {
                        assert(used_blocks(BlockTree::Split(Box::new(nl), Box::new(nr), bs))
                            =~= used_blocks(t));
                    }
                }
            }
        },
        BlockTree::Split(l, r, bs) => {
            let h = bs.half().unwrap();
            lemma_create_buddy(*l, size, align, base);
            lemma_create_buddy(*r, size, align, base + h.size());
            let (nl, a, k) = create(*l, size, align);
            let (nr, b, k2) = create(*r, size, align);
            if bs.size() > align {
                if let Some(a) = a {
                    assert(used_blocks(BlockTree::Split(Box::new(nl), r, bs)) =~= used_blocks(
                        t,
                    ).insert((a, size)));
                } else if let Some(b) = b {
                    assert(used_blocks(BlockTree::Split(Box::new(nl), Box::new(nr), bs))
                        =~= used_blocks(t).insert((b, size)));
                } else {
                    assert(used_blocks(BlockTree::Split(Box::new(nl), Box::new(nr), bs))
                        =~= used_blocks(t));
                }
            } else if bs.size() == align {
                if let Some(a) = a {
                    assert(used_blocks(BlockTree::Split(Box::new(nl), r, bs)) =~= used_blocks(
                        t,
                    ).insert((a, size)));
                } else {
                    assert(used_blocks(BlockTree::Split(Box::new(nl), r, bs)) =~= used_blocks(t));
                }
            }
        },
        _ => {},
    }
}

/// Every split block of the tree has halves of half its size.
pub open spec fn halves_ok(t: BlockTree) -> bool
    decreases t,
{
    match t {
        BlockTree::Split(l, r, bs) => match bs.half() {
            Some(h) => node_size(*l) == h && node_size(*r) == h && halves_ok(*l) && halves_ok(*r),
            None => false,
        },
        _ => true,
    }
}

/// The tree holds a free block of at least `size`.
pub open spec fn has_free_block(t: BlockTree, size: BlockSize) -> bool
    decreases t,
{
    match t {
        BlockTree::Free(_, bs) => bs.size() >= size.size(),
        BlockTree::Split(l, r, _) => has_free_block(*l, size) || has_free_block(*r, size),
        _ => false,
    }
}

proof fn lemma_buddy_halves(t: BlockTree, base: int)
    requires
        buddy_ok(t, base),
    ensures
        halves_ok(t),
    decreases t,
{
    if let BlockTree::Split(l, r, bs) = t {
        let h = bs.half().unwrap();
        lemma_buddy_halves(*l, base);
        lemma_buddy_halves(*r, base + h.size());
    }
}

proof fn lemma_tree_halves(t: BlockTree)
    requires
        tree_ok(t),
    ensures
        halves_ok(t),
    decreases t,
{
    match t {
        BlockTree::Split(l, r, bs) => {
            if bs.size() > 0x1000 {
                lemma_tree_halves(*l);
                lemma_tree_halves(*r);
            } else {
                lemma_buddy_halves(t, base_of(t));
            }
        },
        _ => {},
    }
}

/// A block of a tree of halves is no larger than the tree's root.
proof fn lemma_free_block_within(t: BlockTree, size: BlockSize)
    requires
        halves_ok(t),
        has_free_block(t, size),
    ensures
        size.size() <= node_size(t).size(),
    decreases t,
{
    if let BlockTree::Split(l, r, bs) = t {
        lemma_size_positive(bs);
        if has_free_block(*l, size) {
            lemma_free_block_within(*l, size);
        } else {
            lemma_free_block_within(*r, size);
        }
    }
}

/// A size smaller than a block's fits in its half.
proof fn lemma_smaller_fits_half(size: BlockSize, bs: BlockSize)
    requires
        size.size() < bs.size(),
    ensures
        bs.half() matches Some(h) && size.size() <= h.size(),
{
}

/// Making a block for `size` in a tree of halves that holds a free block of at least `size`
/// succeeds, where `align` is no more than `size`.
proof fn lemma_create_succeeds(t: BlockTree, size: BlockSize, align: int)
    requires
        halves_ok(t),
        has_free_block(t, size),
        align <= size.size(),
    ensures
        create(t, size, align).1 is Some,
    decreases 19 * height(t) + node_size(t).rank(),
{
    lemma_size_positive(size);
    match t {
        BlockTree::Free(p, bs) => {
            lemma_size_positive(bs);
            if bs.size() > size.size() {
                lemma_smaller_fits_half(size, bs);
                let h = bs.half().unwrap();
                lemma_create_succeeds(BlockTree::Free(p, h), size, align);
            }
        },
        BlockTree::Split(l, r, bs) => {
            lemma_size_positive(bs);
            if has_free_block(*l, size) {
                lemma_free_block_within(*l, size);
                lemma_create_succeeds(*l, size, align);
            } else {
                lemma_free_block_within(*r, size);
                lemma_create_succeeds(*r, size, align);
            }
        },
        _ => {},
    }
}

/// An allocation of `size`, with an alignment of no more than `size`, succeeds wherever the
/// allocator's tree holds a free block of at least `size`: either a free block of that size is
/// found, or one is made by splitting.
pub proof fn lemma_alloc_succeeds(t: BlockTree, size: BlockSize, align: int)
    requires
        tree_ok(t),
        has_free_block(t, size),
        align <= size.size(),
    ensures
        fit_use(t, size, align) is Some || create(t, size, align).1 is Some,
{
    lemma_tree_halves(t);
    lemma_create_succeeds(t, size, align);
}

/// The leaves of the tree (the blocks that are not split), left to right.
pub open spec fn leaf_seq(t: BlockTree) -> Seq<BlockTree>
    decreases t,
{
    match t {
        BlockTree::Split(l, r, _) => leaf_seq(*l) + leaf_seq(*r),
        _ => seq![t],
    }
}

/// `b` is a free block of exactly `size`.
pub open spec fn free_of(b: BlockTree, size: BlockSize) -> bool {
    b matches BlockTree::Free(_, s) && s == size
}

/// `b` is a free block of at least `size`.
pub open spec fn free_at_least(b: BlockTree, size: BlockSize) -> bool {
    b matches BlockTree::Free(_, s) && s.size() >= size.size()
}

/// The address of a free block or a block in use.
pub open spec fn leaf_addr(b: BlockTree) -> usize {
    match b {
        BlockTree::Free(p, _) => p,
        BlockTree::Used(p, _) => p,
        _ => 0,
    }
}

/// No leaf of a tree of halves is larger than the tree's root.
proof fn lemma_leaf_within(t: BlockTree, k: int)
    requires
        halves_ok(t),
        0 <= k < leaf_seq(t).len(),
    ensures
        node_size(leaf_seq(t)[k]).size() <= node_size(t).size(),
    decreases t,
{
    if let BlockTree::Split(l, r, bs) = t {
        lemma_size_positive(bs);
        let nl = leaf_seq(*l).len() as int;
        if k < nl {
            lemma_leaf_within(*l, k);
        } else {
            lemma_leaf_within(*r, k - nl);
        }
    }
}

/// Making a block out of a free block keeps its address: the chosen block is its left end.
proof fn lemma_create_free_addr(p: usize, bs: BlockSize, size: BlockSize, align: int)
    ensures
        create(BlockTree::Free(p, bs), size, align).1 matches Some(a) ==> a == p,
    decreases bs.rank(),
{
    lemma_size_positive(bs);
    if let Some(h) = bs.half() {
        lemma_create_free_addr(p, h, size, align);
    }
}

/// The block that a search for a free block of exactly `size` finds, with an alignment of no
/// more than `size`, is the leftmost free leaf of that size; where there is none it finds none.
pub proof fn lemma_fit_first(t: BlockTree, size: BlockSize, align: int)
    requires
        halves_ok(t),
        align <= size.size(),
    ensures
        forall|k: int|
            0 <= k < leaf_seq(t).len() && free_of(#[trigger] leaf_seq(t)[k], size) && (forall|j: int|
                0 <= j < k ==> !free_of(leaf_seq(t)[j], size)) ==> fit_addr(t, size, align) == Some(
                leaf_addr(leaf_seq(t)[k]),
            ),
        (forall|k: int| 0 <= k < leaf_seq(t).len() ==> !free_of(#[trigger] leaf_seq(t)[k], size))
            ==> fit_addr(t, size, align) is None,
    decreases t,
{
    if let BlockTree::Split(l, r, bs) = t {
        lemma_size_positive(bs);
        lemma_fit_first(*l, size, align);
        lemma_fit_first(*r, size, align);
        let (ll, rl) = (leaf_seq(*l), leaf_seq(*r));
        let ls = leaf_seq(t);
        assert(ls == ll + rl);
        let nl = ll.len() as int;
        assert forall|k: int| 0 <= k < rl.len() && free_of(#[trigger] rl[k], size) implies bs.size()
            > align by {
            lemma_leaf_within(*r, k);
        }
        assert forall|k: int|
            0 <= k < ls.len() && free_of(#[trigger] ls[k], size) && (forall|j: int|
                0 <= j < k ==> !free_of(ls[j], size)) implies fit_addr(t, size, align) == Some(
            leaf_addr(ls[k]),
        ) by {
            if k < nl {
                assert(ll[k] == ls[k]);
                lemma_leaf_within(*l, k);
                assert forall|j: int| 0 <= j < k implies !free_of(ll[j], size) by {
                    assert(ll[j] == ls[j]);
                }
            } else {
                assert(rl[k - nl] == ls[k]);
                assert forall|j: int| 0 <= j < nl implies !free_of(#[trigger] ll[j], size) by {
                    assert(ll[j] == ls[j]);
                }
                assert forall|j: int| 0 <= j < k - nl implies !free_of(rl[j], size) by {
                    assert(rl[j] == ls[j + nl]);
                }
            }
        }
        if forall|k: int| 0 <= k < ls.len() ==> !free_of(#[trigger] ls[k], size) {
            assert forall|j: int| 0 <= j < nl implies !free_of(#[trigger] ll[j], size) by {
                assert(ll[j] == ls[j]);
            }
            assert forall|j: int| 0 <= j < rl.len() implies !free_of(#[trigger] rl[j], size) by {
                assert(rl[j] == ls[j + nl]);
            }
        }
    } else {
        assert(leaf_seq(t)[0] == t);
    }
}

/// The block that making a block of `size` finds or splits, with an alignment of no more than
/// `size`, lies at the address of the leftmost free leaf of at least `size`; where there is
/// none it makes none.
pub proof fn lemma_create_first(t: BlockTree, size: BlockSize, align: int)
    requires
        halves_ok(t),
        align <= size.size(),
    ensures
        forall|k: int|
            0 <= k < leaf_seq(t).len() && free_at_least(#[trigger] leaf_seq(t)[k], size) && (
            forall|j: int| 0 <= j < k ==> !free_at_least(leaf_seq(t)[j], size)) ==> create(
                t,
                size,
                align,
            ).1 == Some(leaf_addr(leaf_seq(t)[k])),
        (forall|k: int|
            0 <= k < leaf_seq(t).len() ==> !free_at_least(#[trigger] leaf_seq(t)[k], size))
            ==> create(t, size, align).1 is None,
    decreases t,
{
    lemma_size_positive(size);
    match t {
        BlockTree::Free(p, bs) => {
            lemma_size_positive(bs);
            lemma_create_free_addr(p, bs, size, align);
            assert(leaf_seq(t)[0] == t);
            if bs.size() >= size.size() {
                lemma_create_succeeds(t, size, align);
            }
        },
        BlockTree::Split(l, r, bs) => {
            lemma_size_positive(bs);
            lemma_create_first(*l, size, align);
            lemma_create_first(*r, size, align);
            let (ll, rl) = (leaf_seq(*l), leaf_seq(*r));
            let ls = leaf_seq(t);
            assert(ls == ll + rl);
            let nl = ll.len() as int;
            assert forall|k: int| 0 <= k < rl.len() && free_at_least(#[trigger] rl[k], size)
                implies bs.size() > align by {
                lemma_leaf_within(*r, k);
            }
            assert forall|k: int|
                0 <= k < ls.len() && free_at_least(#[trigger] ls[k], size) && (forall|j: int|
                    0 <= j < k ==> !free_at_least(ls[j], size)) implies create(t, size, align).1
                == Some(leaf_addr(ls[k])) by {
                if k < nl {
                    assert(ll[k] == ls[k]);
                    lemma_leaf_within(*l, k);
                    assert forall|j: int| 0 <= j < k implies !free_at_least(ll[j], size) by {
                        assert(ll[j] == ls[j]);
                    }
                } else {
                    assert(rl[k - nl] == ls[k]);
                    assert forall|j: int| 0 <= j < nl implies !free_at_least(#[trigger] ll[j], size) by {
                        assert(ll[j] == ls[j]);
                    }
                    assert forall|j: int| 0 <= j < k - nl implies !free_at_least(rl[j], size) by {
                        assert(rl[j] == ls[j + nl]);
                    }
                }
            }
            if forall|k: int| 0 <= k < ls.len() ==> !free_at_least(#[trigger] ls[k], size) {
                assert forall|j: int| 0 <= j < nl implies !free_at_least(#[trigger] ll[j], size) by {
                    assert(ll[j] == ls[j]);
                }
                assert forall|j: int| 0 <= j < rl.len() implies !free_at_least(#[trigger] rl[j], size) by {
                    assert(rl[j] == ls[j + nl]);
                }
            }
        },
        _ => {
            assert(leaf_seq(t)[0] == t);
        },
    }
}

/// A tree of halves laid out from some base is a well-formed allocator tree.
proof fn lemma_buddy_tree_ok(t: BlockTree, base: int)
    requires
        buddy_ok(t, base),
    ensures
        tree_ok(t),
        no_unalloc(t),
        addrs_fit(t),
    decreases t,
{
    lemma_buddy_base(t, base);
    if let BlockTree::Split(l, r, bs) = t {
        let h = bs.half().unwrap();
        lemma_buddy_tree_ok(*l, base);
        lemma_buddy_tree_ok(*r, base + h.size());
    }
}

/// A well-formed allocator tree has every block inside the allocator and inside the address
/// space.
proof fn lemma_tree_ok_fits(t: BlockTree)
    requires
        tree_ok(t),
    ensures
        no_unalloc(t),
        addrs_fit(t),
    decreases t,
{
    match t {
        BlockTree::Split(l, r, bs) => {
            if bs.size() > 0x1000 {
                lemma_tree_ok_fits(*l);
                lemma_tree_ok_fits(*r);
            } else {
                lemma_buddy_tree_ok(t, base_of(t));
            }
        },
        _ => {
            lemma_buddy_tree_ok(t, base_of(t));
        },
    }
}

/// Claiming a free block keeps a tree of halves laid out from `base`, and claims exactly that
/// block.
proof fn lemma_fit_buddy(t: BlockTree, size: BlockSize, align: int, base: int)
    requires
        buddy_ok(t, base),
    ensures
        fit_use(t, size, align) matches Some((nt, a)) ==> buddy_ok(nt, base) && node_size(nt)
            == node_size(t) && used_blocks(nt) == used_blocks(t).insert((a, size)),
    decreases t,
{
    match t {
        BlockTree::Free(p, bs) => {
            assert(used_blocks(BlockTree::Used(p, bs)) =~= Multiset::empty().insert((p, bs)));
        },
        BlockTree::Split(l, r, bs) => {
            let h = bs.half().unwrap();
            lemma_fit_buddy(*l, size, align, base);
            lemma_fit_buddy(*r, size, align, base + h.size());
            if let Some((nl, a)) = fit_use(*l, size, align) {
                assert(used_blocks(BlockTree::Split(Box::new(nl), r, bs)) =~= used_blocks(
                    t,
                ).insert((a, size)));
            } else if let Some((nr, a)) = fit_use(*r, size, align) {
                assert(used_blocks(BlockTree::Split(l, Box::new(nr), bs)) =~= used_blocks(
                    t,
                ).insert((a, size)));
            }
        },
        _ => {},
    }
}

/// Freeing keeps a tree of halves laid out from `base`; where a block was freed, exactly one
/// block in use at `ptr` (of the size given back) is no longer in use.
proof fn lemma_free_buddy(t: BlockTree, ptr: usize, base: int) -> (s: BlockSize)
    requires
        buddy_ok(t, base),
        free_spec(t, ptr) is Some,
    ensures
        ({
            let (nt, f) = free_spec(t, ptr).unwrap();
            &&& buddy_ok(nt, base)
            &&& node_size(nt) == node_size(t)
            &&& f ==> used_blocks(t).count((ptr, s)) > 0 && used_blocks(nt) == used_blocks(
                t,
            ).remove((ptr, s))
            &&& !f ==> used_blocks(nt) == used_blocks(t)
        }),
    decreases t,
{
    match t {
        BlockTree::Used(p, bs) => {
            if p == ptr {
                assert(used_blocks(BlockTree::Free(p, bs)) =~= used_blocks(t).remove((ptr, bs)));
            }
            bs
        },
        BlockTree::Split(l, r, bs) => {
            let h = bs.half().unwrap();
            let sr = lemma_free_buddy(*r, ptr, base + h.size());
            let (nr, fr) = free_spec(*r, ptr).unwrap();
            if fr {
                assert(used_blocks(BlockTree::Split(l, Box::new(nr), bs)) =~= used_blocks(
                    t,
                ).remove((ptr, sr)));
                sr
            } else {
                let sl = lemma_free_buddy(*l, ptr, base);
                let (nl, fl) = free_spec(*l, ptr).unwrap();
                if fl {
                    assert(used_blocks(BlockTree::Split(Box::new(nl), Box::new(nr), bs))
                        =~= used_blocks(t).remove((ptr, sl)));
                } else {
                    assert(used_blocks(BlockTree::Split(Box::new(nl), Box::new(nr), bs))
                        =~= used_blocks(t));
                }
                sl
            }
        },
        BlockTree::Free(_, bs) => bs,
        BlockTree::Unallocated(bs) => bs,
    }
}

/// Merging keeps a tree of halves laid out from `base`, and the blocks in use.
proof fn lemma_merge_buddy(t: BlockTree, base: int)
    requires
        buddy_ok(t, base),
    ensures
        buddy_ok(merge_spec(t), base),
        node_size(merge_spec(t)) == node_size(t),
        used_blocks(merge_spec(t)) == used_blocks(t),
    decreases t,
{
    if let BlockTree::Split(l, r, bs) = t {
        let h = bs.half().unwrap();
        lemma_merge_buddy(*l, base);
        lemma_merge_buddy(*r, base + h.size());
        let ml = merge_spec(*l);
        let mr = merge_spec(*r);
        lemma_size_positive(bs);
        if let (BlockTree::Free(p, _), BlockTree::Free(_, _)) = (ml, mr) {
            if bs.size() <= 0x1000 {
                assert(used_blocks(merge_spec(t)) =~= used_blocks(t));
            }
        }
    }
}

/// `t` is a split block of more than 4 KiB.
pub open spec fn is_big_split(t: BlockTree) -> bool {
    t matches BlockTree::Split(_, _, bs) && bs.size() > 0x1000
}

proof fn lemma_small_buddy(t: BlockTree)
    requires
        tree_ok(t),
        !is_big_split(t),
    ensures
        buddy_ok(t, base_of(t)),
{
}

proof fn lemma_create_ok(t: BlockTree, size: BlockSize, align: int)
    requires
        tree_ok(t),
    ensures
        tree_ok(create(t, size, align).0),
        node_size(create(t, size, align).0) == node_size(t),
        match create(t, size, align).1 {
            Some(a) => used_blocks(create(t, size, align).0) == used_blocks(t).insert((a, size)),
            None => used_blocks(create(t, size, align).0) == used_blocks(t),
        },
    decreases t,
{
    match t {
        BlockTree::Split(l, r, bs) if bs.size() > 0x1000 => {
        lemma_create_ok(*l, size, align);
        lemma_create_ok(*r, size, align);
        let (nl, a, k) = create(*l, size, align);
        let (nr, b, k2) = create(*r, size, align);
        if bs.size() > align {
            if let Some(a) = a {
                assert(used_blocks(BlockTree::Split(Box::new(nl), r, bs)) =~= used_blocks(
                    t,
                ).insert((a, size)));
            } else if let Some(b) = b {
                assert(used_blocks(BlockTree::Split(Box::new(nl), Box::new(nr), bs))
                    =~= used_blocks(t).insert((b, size)));
            } else {
                assert(used_blocks(BlockTree::Split(Box::new(nl), Box::new(nr), bs))
                    =~= used_blocks(t));
            }
        } else if bs.size() == align {
            if let Some(a) = a {
                assert(used_blocks(BlockTree::Split(Box::new(nl), r, bs)) =~= used_blocks(
                    t,
                ).insert((a, size)));
            } else {
                assert(used_blocks(BlockTree::Split(Box::new(nl), r, bs)) =~= used_blocks(t));
            }
        }
    },
        _ => {
        lemma_small_buddy(t);
        lemma_create_buddy(t, size, align, base_of(t));
        lemma_buddy_tree_ok(create(t, size, align).0, base_of(t));
        },
    }
}

proof fn lemma_fit_ok(t: BlockTree, size: BlockSize, align: int)
    requires
        tree_ok(t),
    ensures
        fit_use(t, size, align) matches Some((nt, a)) ==> tree_ok(nt) && node_size(nt)
            == node_size(t) && used_blocks(nt) == used_blocks(t).insert((a, size)),
    decreases t,
{
    match t {
        BlockTree::Split(l, r, bs) if bs.size() > 0x1000 => {
        lemma_fit_ok(*l, size, align);
        lemma_fit_ok(*r, size, align);
        if let Some((nl, a)) = fit_use(*l, size, align) {
            assert(used_blocks(BlockTree::Split(Box::new(nl), r, bs)) =~= used_blocks(t).insert(
                (a, size),
            ));
        } else if let Some((nr, a)) = fit_use(*r, size, align) {
            assert(used_blocks(BlockTree::Split(l, Box::new(nr), bs)) =~= used_blocks(t).insert(
                (a, size),
            ));
        }
    },
        _ => {
        lemma_small_buddy(t);
        lemma_fit_buddy(t, size, align, base_of(t));
        if let Some((nt, a)) = fit_use(t, size, align) {
            lemma_buddy_tree_ok(nt, base_of(t));
        }
        },
    }
}

proof fn lemma_free_ok(t: BlockTree, ptr: usize) -> (s: BlockSize)
    requires
        tree_ok(t),
        free_spec(t, ptr) is Some,
    ensures
        ({
            let (nt, f) = free_spec(t, ptr).unwrap();
            &&& tree_ok(nt)
            &&& node_size(nt) == node_size(t)
            &&& f ==> used_blocks(t).count((ptr, s)) > 0 && used_blocks(nt) == used_blocks(
                t,
            ).remove((ptr, s))
            &&& !f ==> used_blocks(nt) == used_blocks(t)
        }),
    decreases t,
{
    match t {
        BlockTree::Split(l, r, bs) if bs.size() > 0x1000 => {
        let sr = lemma_free_ok(*r, ptr);
        let (nr, fr) = free_spec(*r, ptr).unwrap();
        if fr {
            assert(used_blocks(BlockTree::Split(l, Box::new(nr), bs)) =~= used_blocks(t).remove(
                (ptr, sr),
            ));
            sr
        } else {
            let sl = lemma_free_ok(*l, ptr);
            let (nl, fl) = free_spec(*l, ptr).unwrap();
            if fl {
                assert(used_blocks(BlockTree::Split(Box::new(nl), Box::new(nr), bs))
                    =~= used_blocks(t).remove((ptr, sl)));
            } else {
                assert(used_blocks(BlockTree::Split(Box::new(nl), Box::new(nr), bs))
                    =~= used_blocks(t));
            }
            sl
        }
    },
        _ => {
        lemma_small_buddy(t);
        let s = lemma_free_buddy(t, ptr, base_of(t));
        lemma_buddy_tree_ok(free_spec(t, ptr).unwrap().0, base_of(t));
        s
        },
    }
}

proof fn lemma_merge_ok(t: BlockTree)
    requires
        tree_ok(t),
    ensures
        tree_ok(merge_spec(t)),
        node_size(merge_spec(t)) == node_size(t),
        used_blocks(merge_spec(t)) == used_blocks(t),
    decreases t,
{
    match t {
        BlockTree::Split(l, r, bs) if bs.size() > 0x1000 => {
        lemma_merge_ok(*l);
        lemma_merge_ok(*r);
    },
        _ => {
        lemma_small_buddy(t);
        lemma_merge_buddy(t, base_of(t));
        lemma_buddy_tree_ok(merge_spec(t), base_of(t));
        },
    }
}

/// Every free or used block lies at a multiple of its size, and so does every split block of at
/// most 4 KiB.
pub open spec fn blocks_aligned(t: BlockTree) -> bool
    decreases t,
{
    match t {
        BlockTree::Free(p, bs) => (p as int) % (bs.size() as int) == 0,
        BlockTree::Used(p, bs) => (p as int) % (bs.size() as int) == 0,
        BlockTree::Split(l, r, bs) => blocks_aligned(*l) && blocks_aligned(*r) && (bs.size()
            <= 0x1000 ==> base_of(t) % (bs.size() as int) == 0),
        BlockTree::Unallocated(_) => true,
    }
}

/// Each half of a block at a multiple of its size lies at a multiple of the half's size.
proof fn lemma_half_aligned(p: int, h: int)
    requires
        h > 0,
        p % (2 * h) == 0,
    ensures
        p % h == 0,
        (p + h) % h == 0,
{
    assert(p % h == 0 && (p + h) % h == 0) by (nonlinear_arith)
        requires
            h > 0,
            p % (2 * h) == 0,
    {
        let q = p / (2 * h);
        assert(p == (2 * q) * h);
        assert((p + h) == (2 * q + 1) * h);
    }
}

/// A block size is a power of two.
proof fn lemma_size_pow2(bs: BlockSize)
    ensures
        is_pow2(bs.size() as int),
{
    reveal_with_fuel(is_pow2, 22);
}

/// A multiple of a power of two is a multiple of every smaller power of two.
proof fn lemma_pow2_divides(x: int, s: int, a: int)
    requires
        is_pow2(s),
        is_pow2(a),
        a <= s,
        x % s == 0,
    ensures
        x % a == 0,
    decreases s,
{
    if a < s {
        assert(s % 2 == 0 && is_pow2(s / 2));
        lemma_pow2_at_most_half(a, s);
        assert(x % (s / 2) == 0) by (nonlinear_arith)
            requires
                x % s == 0,
                s % 2 == 0,
                s >= 2,
        {
            let q = x / s;
            assert(x == (2 * q) * (s / 2));
        }
        lemma_pow2_divides(x, s / 2, a);
    }
}

/// A power of two below another is at most its half.
proof fn lemma_pow2_at_most_half(a: int, s: int)
    requires
        is_pow2(s),
        is_pow2(a),
        a < s,
    ensures
        s >= 2,
        a <= s / 2,
    decreases s,
{
    if s > 1 && a > 1 {
        lemma_pow2_at_most_half(a / 2, s / 2);
    }
}

/// Claiming a free block keeps the blocks aligned, and the block claimed lies at a multiple of
/// its size, which is at least `align`.
proof fn lemma_fit_aligned(t: BlockTree, size: BlockSize, align: int)
    requires
        blocks_aligned(t),
    ensures
        fit_use(t, size, align) matches Some((nt, a)) ==> blocks_aligned(nt) && (a as int) % (size.size()
            as int) == 0 && size.size() >= align,
    decreases t,
{
    if let BlockTree::Split(l, r, bs) = t {
        lemma_fit_aligned(*l, size, align);
        lemma_fit_aligned(*r, size, align);
        if let Some((nl, a)) = fit_use(*l, size, align) {
            if bs.size() <= 0x1000 {
                lemma_fit_base(*l, size, align);
            }
        }
    }
}

/// Claiming a free block keeps where a tree starts.
proof fn lemma_fit_base(t: BlockTree, size: BlockSize, align: int)
    ensures
        fit_use(t, size, align) matches Some((nt, _)) ==> base_of(nt) == base_of(t),
    decreases t,
{
    if let BlockTree::Split(l, r, bs) = t {
        lemma_fit_base(*l, size, align);
    }
}

/// Making a block keeps a tree of halves laid out from `base` aligned, and the block it
/// claims lies at a multiple of its size, which is at least `align`.
proof fn lemma_create_aligned_buddy(t: BlockTree, size: BlockSize, align: int, base: int)
    requires
        buddy_ok(t, base),
        blocks_aligned(t),
    ensures
        blocks_aligned(create(t, size, align).0),
        create(t, size, align).1 matches Some(a) ==> (a as int) % (size.size() as int) == 0 && size.size()
            >= align,
    decreases 19 * height(t) + node_size(t).rank(),
{
    lemma_size_positive(size);
    lemma_create_buddy(t, size, align, base);
    match t {
        BlockTree::Free(p, bs) => {
            lemma_size_positive(bs);
            if size == bs && bs.size() >= align {
            } else if size.size() < bs.size() && bs.size() >= align {
                if let Some(h) = bs.half() {
                    let l0 = BlockTree::Free(p, h);
                    lemma_half_aligned(p as int, h.size() as int);
                    assert(buddy_ok(l0, base));
                    lemma_create_aligned_buddy(l0, size, align, base);
                    lemma_create_buddy(l0, size, align, base);
                    let nl = create(l0, size, align).0;
                    lemma_buddy_base(nl, base);
                    let q = (p + h.size()) as usize;
                    assert(q == p + h.size());
                    assert(blocks_aligned(BlockTree::Free(q, h)));
                    assert(base_of(create(t, size, align).0) == base_of(nl));
                }
            }
        },
        BlockTree::Split(l, r, bs) => {
            let h = bs.half().unwrap();
            lemma_create_aligned_buddy(*l, size, align, base);
            lemma_create_aligned_buddy(*r, size, align, base + h.size());
            lemma_create_buddy(*l, size, align, base);
            lemma_buddy_base(*l, base);
            lemma_buddy_base(create(*l, size, align).0, base);
        },
        _ => {},
    }
}

/// Making a block keeps the allocator's tree aligned, and the block it claims lies at a
/// multiple of its size, which is at least `align`.
proof fn lemma_create_aligned(t: BlockTree, size: BlockSize, align: int)
    requires
        tree_ok(t),
        blocks_aligned(t),
    ensures
        blocks_aligned(create(t, size, align).0),
        create(t, size, align).1 matches Some(a) ==> (a as int) % (size.size() as int) == 0 && size.size()
            >= align,
    decreases t,
{
    match t {
        BlockTree::Split(l, r, bs) if bs.size() > 0x1000 => {
        lemma_create_aligned(*l, size, align);
        lemma_create_aligned(*r, size, align);
    },
        _ => {
        lemma_small_buddy(t);
        lemma_create_aligned_buddy(t, size, align, base_of(t));
        },
    }
}

/// Freeing keeps the blocks aligned and where a tree starts.
proof fn lemma_free_aligned(t: BlockTree, ptr: usize)
    requires
        blocks_aligned(t),
        free_spec(t, ptr) is Some,
    ensures
        blocks_aligned(free_spec(t, ptr).unwrap().0),
        base_of(free_spec(t, ptr).unwrap().0) == base_of(t),
    decreases t,
{
    if let BlockTree::Split(l, r, bs) = t {
        lemma_free_aligned(*r, ptr);
        if let Some((_, false)) = free_spec(*r, ptr) {
            lemma_free_aligned(*l, ptr);
        }
    }
}

/// Merging keeps the blocks aligned and where a tree starts.
proof fn lemma_merge_aligned(t: BlockTree)
    requires
        blocks_aligned(t),
    ensures
        blocks_aligned(merge_spec(t)),
        base_of(merge_spec(t)) == base_of(t),
    decreases t,
{
    if let BlockTree::Split(l, r, bs) = t {
        lemma_merge_aligned(*l);
        lemma_merge_aligned(*r);
    }
}

/// The tree built from pages that lie at multiples of a page is aligned.
proof fn lemma_full_tree_aligned(pops: Seq<usize>, size: BlockSize)
    requires
        size.size() >= 0x1000,
        pops.len() >= leaves(size),
        forall|i: int| 0 <= i < leaves(size) ==> #[trigger] pops[i] % 0x1000 == 0,
    ensures
        blocks_aligned(full_tree(pops, size)),
    decreases size.rank(),
{
    lemma_size_positive(size);
    if size.size() > 0x1000 {
        let h = size.half().unwrap();
        lemma_size_positive(h);
        let n = leaves(h) as int;
        assert(leaves(size) == 2 * n) by {
            assert(h.size() * 2 == size.size());
        }
        let rest = pops.subrange(n, pops.len() as int);
        lemma_full_tree_aligned(pops, h);
        assert forall|i: int| 0 <= i < leaves(h) implies #[trigger] rest[i] % 0x1000 == 0 by {
            assert(rest[i] == pops[i + n]);
        }
        lemma_full_tree_aligned(rest, h);
    } else {
        assert(pops[0] % 0x1000 == 0);
    }
}

/// The addresses that the free and used blocks of a tree cover.
pub open spec fn region(t: BlockTree) -> Set<int>
    decreases t,
{
    match t {
        BlockTree::Free(p, bs) => Set::new(|x: int| p <= x < p + bs.size()),
        BlockTree::Used(p, bs) => Set::new(|x: int| p <= x < p + bs.size()),
        BlockTree::Split(l, r, _) => region(*l).union(region(*r)),
        BlockTree::Unallocated(_) => Set::empty(),
    }
}

/// No two free or used blocks of a tree overlap.
pub open spec fn leaves_disjoint(t: BlockTree) -> bool
    decreases t,
{
    match t {
        BlockTree::Split(l, r, _) => leaves_disjoint(*l) && leaves_disjoint(*r) && region(
            *l,
        ).disjoint(region(*r)),
        _ => true,
    }
}

/// Claiming a free block covers the same addresses, and keeps the blocks apart.
proof fn lemma_fit_region(t: BlockTree, size: BlockSize, align: int)
    ensures
        fit_use(t, size, align) matches Some((nt, _)) ==> region(nt) == region(t) && (
        leaves_disjoint(t) ==> leaves_disjoint(nt)),
    decreases t,
{
    match t {
        BlockTree::Free(p, bs) => {
            if let Some((nt, _)) = fit_use(t, size, align) {
                assert(region(nt) =~= region(t));
            }
        },
        BlockTree::Split(l, r, bs) => {
            lemma_fit_region(*l, size, align);
            lemma_fit_region(*r, size, align);
        },
        _ => {},
    }
}

/// Splitting free blocks to make one covers the same addresses, and keeps the blocks apart.
proof fn lemma_create_region(t: BlockTree, size: BlockSize, align: int)
    requires
        addrs_fit(t),
    ensures
        region(create(t, size, align).0) == region(t),
        leaves_disjoint(t) ==> leaves_disjoint(create(t, size, align).0),
    decreases 19 * height(t) + node_size(t).rank(),
{
    lemma_size_positive(size);
    match t {
        BlockTree::Free(p, bs) => {
            lemma_size_positive(bs);
            if size == bs && bs.size() >= align {
                assert(region(BlockTree::Used(p, bs)) =~= region(t));
            } else if size.size() < bs.size() && bs.size() >= align {
                if let Some(h) = bs.half() {
                    let l0 = BlockTree::Free(p, h);
                    lemma_create_region(l0, size, align);
                    let nl = create(l0, size, align).0;
                    let q = (p + h.size()) as usize;
                    assert(q == p + h.size());
                    let nr = BlockTree::Free(q, h);
                    assert(region(nl) =~= Set::new(|x: int| p <= x < p + h.size()));
                    assert(region(nr) =~= Set::new(|x: int| p + h.size() <= x < p + bs.size()));
                    assert(region(nl).union(region(nr)) =~= region(t));
                    assert(region(nl).disjoint(region(nr)));
                    assert(leaves_disjoint(nr));
                    assert(leaves_disjoint(l0));
                } else {
                    assert(region(BlockTree::Used(p, bs)) =~= region(t));
                }
            }
        },
        BlockTree::Split(l, r, bs) => {
            lemma_create_region(*l, size, align);
            lemma_create_region(*r, size, align);
        },
        _ => {},
    }
}

/// Freeing covers the same addresses, and keeps the blocks apart.
proof fn lemma_free_region(t: BlockTree, ptr: usize)
    requires
        free_spec(t, ptr) is Some,
    ensures
        region(free_spec(t, ptr).unwrap().0) == region(t),
        leaves_disjoint(t) ==> leaves_disjoint(free_spec(t, ptr).unwrap().0),
    decreases t,
{
    match t {
        BlockTree::Used(p, bs) => {
            assert(region(BlockTree::Free(p, bs)) =~= region(t));
        },
        BlockTree::Split(l, r, bs) => {
            lemma_free_region(*r, ptr);
            if let Some((_, false)) = free_spec(*r, ptr) {
                lemma_free_region(*l, ptr);
            }
        },
        _ => {},
    }
}

/// Merging a tree of halves laid out from `base` covers the same addresses, and keeps the
/// blocks apart.
proof fn lemma_merge_region_buddy(t: BlockTree, base: int)
    requires
        buddy_ok(t, base),
    ensures
        region(merge_spec(t)) == region(t),
        leaves_disjoint(t) ==> leaves_disjoint(merge_spec(t)),
    decreases t,
{
    if let BlockTree::Split(l, r, bs) = t {
        let h = bs.half().unwrap();
        lemma_size_positive(bs);
        lemma_merge_region_buddy(*l, base);
        lemma_merge_region_buddy(*r, base + h.size());
        lemma_merge_buddy(*l, base);
        lemma_merge_buddy(*r, base + h.size());
        let ml = merge_spec(*l);
        let mr = merge_spec(*r);
        if bs.size() <= 0x1000 {
            if let (BlockTree::Free(p, hl), BlockTree::Free(q, hr)) = (ml, mr) {
                assert(p == base && hl == h && q == base + h.size() && hr == h);
                assert(region(BlockTree::Free(p, bs)) =~= region(ml).union(region(mr)));
            }
        }
    }
}

/// Merging covers the same addresses, and keeps the blocks apart.
proof fn lemma_merge_region(t: BlockTree)
    requires
        tree_ok(t),
    ensures
        region(merge_spec(t)) == region(t),
        leaves_disjoint(t) ==> leaves_disjoint(merge_spec(t)),
    decreases t,
{
    match t {
        BlockTree::Split(l, r, bs) if bs.size() > 0x1000 => {
        lemma_merge_region(*l);
        lemma_merge_region(*r);
        lemma_merge_ok(*l);
        lemma_merge_ok(*r);
    },
        _ => {
        lemma_small_buddy(t);
        lemma_merge_region_buddy(t, base_of(t));
        },
    }
}

/// A block in use lies in the addresses that the tree covers.
proof fn lemma_used_in_region(t: BlockTree, a: usize, s: BlockSize)
    requires
        used_blocks(t).count((a, s)) > 0,
    ensures
        region(t).contains(a as int),
    decreases t,
{
    match t {
        BlockTree::Used(p, bs) => {
            lemma_size_positive(bs);
            assert((p, bs) == (a, s));
        },
        BlockTree::Split(l, r, _) => {
            if used_blocks(*l).count((a, s)) > 0 {
                lemma_used_in_region(*l, a, s);
            } else {
                lemma_used_in_region(*r, a, s);
            }
        },
        _ => {},
    }
}

/// Freeing at an address that the tree does not cover changes nothing.
proof fn lemma_free_outside(t: BlockTree, a: usize)
    requires
        !region(t).contains(a as int),
    ensures
        free_spec(t, a) == Some((t, false)),
    decreases t,
{
    match t {
        BlockTree::Free(p, bs) => {
            lemma_size_positive(bs);
        },
        BlockTree::Used(p, bs) => {
            lemma_size_positive(bs);
        },
        BlockTree::Split(l, r, bs) => {
            lemma_free_outside(*r, a);
            lemma_free_outside(*l, a);
        },
        _ => {},
    }
}

/// In a tree whose blocks do not overlap, freeing at the address of a block in use frees that
/// block.
proof fn lemma_free_used(t: BlockTree, a: usize, s: BlockSize)
    requires
        leaves_disjoint(t),
        used_blocks(t).count((a, s)) > 0,
    ensures
        free_spec(t, a) matches Some((nt, true)) && used_blocks(nt) == used_blocks(t).remove(
            (a, s),
        ),
    decreases t,
{
    match t {
        BlockTree::Used(p, bs) => {
            assert((p, bs) == (a, s));
            assert(used_blocks(BlockTree::Free(p, bs)) =~= used_blocks(t).remove((a, s)));
        },
        BlockTree::Split(l, r, bs) => {
            if used_blocks(*r).count((a, s)) > 0 {
                lemma_free_used(*r, a, s);
                let nr = free_spec(*r, a).unwrap().0;
                assert(used_blocks(BlockTree::Split(l, Box::new(nr), bs)) =~= used_blocks(
                    t,
                ).remove((a, s)));
            } else {
                lemma_free_used(*l, a, s);
                lemma_used_in_region(*l, a, s);
                lemma_free_outside(*r, a);
                let nl = free_spec(*l, a).unwrap().0;
                assert(used_blocks(BlockTree::Split(Box::new(nl), r, bs)) =~= used_blocks(
                    t,
                ).remove((a, s)));
            }
        },
        _ => {},
    }
}

/// A block just handed out can be handed back: where the blocks of the tree do not overlap and
/// its blocks in use are those of `before_used` with `(a, c)` added, freeing at `a` is allowed
/// (see `BuddyAllocator::dealloc`), and with the merging that follows it leaves the blocks in
/// use of `before_used`.
pub proof fn lemma_alloc_then_dealloc(
    before_used: Multiset<(usize, BlockSize)>,
    mid: BlockTree,
    a: usize,
    c: BlockSize,
)
    requires
        tree_ok(mid),
        leaves_disjoint(mid),
        used_blocks(mid) == before_used.insert((a, c)),
    ensures
        free_spec(mid, a) matches Some((_, true)),
        used_blocks(merge_spec(free_spec(mid, a).unwrap().0)) == before_used,
        tree_ok(merge_spec(free_spec(mid, a).unwrap().0)),
        leaves_disjoint(merge_spec(free_spec(mid, a).unwrap().0)),
{
    lemma_free_used(mid, a, c);
    lemma_free_ok(mid, a);
    lemma_free_region(mid, a);
    let nt = free_spec(mid, a).unwrap().0;
    lemma_merge_ok(nt);
    lemma_merge_region(nt);
    assert(before_used.insert((a, c)).remove((a, c)) =~= before_used);
}

/// The pages of a free list in the order they are handed out.
pub open spec fn pop_order(s: Seq<usize>) -> Seq<usize> {
    Seq::new(s.len(), |i: int| s[s.len() - 1 - i])
}

/// The number of pages a block of `size` (of at least a page) takes up.
pub open spec fn leaves(size: BlockSize) -> nat {
    size.size() / 0x1000
}

/// The tree that the allocator builds for a block of `size`: split down to pages, which are
/// free and taken from `pops` in order, the left half's first.
pub open spec fn full_tree(pops: Seq<usize>, size: BlockSize) -> BlockTree
    decreases size.rank(),
{
    if size.size() <= 0x1000 {
        BlockTree::Free(pops[0], BlockSize::Bs4K)
    } else {
        match size.half() {
            Some(h) => BlockTree::Split(
                Box::new(full_tree(pops, h)),
                Box::new(full_tree(pops.subrange(leaves(h) as int, pops.len() as int), h)),
                size,
            ),
            None => BlockTree::Free(pops[0], BlockSize::Bs4K),
        }
    }
}

/// Every page of `pops` ends within the address space.
pub open spec fn pages_fit(pops: Seq<usize>) -> bool {
    forall|i: int| 0 <= i < pops.len() ==> pops[i] + 0x1000 <= usize::MAX
}

proof fn lemma_full_tree_ok(pops: Seq<usize>, size: BlockSize)
    requires
        size.size() >= 0x1000,
        pops.len() >= leaves(size),
        pages_fit(pops),
    ensures
        tree_ok(full_tree(pops, size)),
        node_size(full_tree(pops, size)) == if size.size() <= 0x1000 {
            BlockSize::Bs4K
        } else {
            size
        },
        used_blocks(full_tree(pops, size)) == Multiset::<(usize, BlockSize)>::empty(),
    decreases size.rank(),
{
    lemma_size_positive(size);
    if size.size() > 0x1000 {
        let h = size.half().unwrap();
        lemma_size_positive(h);
        assert(leaves(size) == 2 * leaves(h)) by {
            assert(h.size() * 2 == size.size());
        }
        let rest = pops.subrange(leaves(h) as int, pops.len() as int);
        lemma_full_tree_ok(pops, h);
        lemma_full_tree_ok(rest, h);
        assert(used_blocks(full_tree(pops, size)) =~= Multiset::empty());
    }
}

/// The first `n` pages of `pops` do not overlap.
pub open spec fn pages_apart(pops: Seq<usize>, n: int) -> bool {
    forall|i: int, j: int|
        0 <= i < j < n ==> pops[i] + 0x1000 <= pops[j] || pops[j] + 0x1000 <= pops[i]
}

/// The addresses that pages `lo` up to `hi` of `pops` cover.
pub open spec fn pages_region(pops: Seq<usize>, lo: int, hi: int) -> Set<int> {
    Set::new(|x: int| exists|i: int| lo <= i < hi && #[trigger] pops[i] <= x < pops[i] + 0x1000)
}

/// The tree built from `pops` covers its pages, and where they do not overlap, neither do its
/// blocks.
proof fn lemma_full_tree_region(pops: Seq<usize>, size: BlockSize)
    requires
        size.size() >= 0x1000,
        pops.len() >= leaves(size),
    ensures
        region(full_tree(pops, size)) == pages_region(pops, 0, leaves(size) as int),
        pages_apart(pops, leaves(size) as int) ==> leaves_disjoint(full_tree(pops, size)),
    decreases size.rank(),
{
    lemma_size_positive(size);
    if size.size() <= 0x1000 {
        let t = full_tree(pops, size);
        assert(region(t) =~= pages_region(pops, 0, 1)) by {
            assert forall|x: int| pages_region(pops, 0, 1).contains(x) implies region(t).contains(
                x,
            ) by {
                let i = choose|i: int| 0 <= i < 1 && #[trigger] pops[i] <= x < pops[i] + 0x1000;
                assert(i == 0);
            }
        }
    } else {
        let h = size.half().unwrap();
        lemma_size_positive(h);
        let n = leaves(h) as int;
        assert(leaves(size) == 2 * n) by {
            assert(h.size() * 2 == size.size());
        }
        let rest = pops.subrange(n, pops.len() as int);
        lemma_full_tree_region(pops, h);
        lemma_full_tree_region(rest, h);
        let rl = region(full_tree(pops, h));
        let rr = region(full_tree(rest, h));
        assert(rr =~= pages_region(pops, n, 2 * n)) by {
            assert forall|x: int| pages_region(pops, n, 2 * n).contains(x) implies rr.contains(
                x,
            ) by {
                let i = choose|i: int| n <= i < 2 * n && #[trigger] pops[i] <= x < pops[i] + 0x1000;
                assert(rest[i - n] == pops[i]);
            }
            assert forall|x: int| rr.contains(x) implies pages_region(pops, n, 2 * n).contains(
                x,
            ) by {
                let i = choose|i: int| 0 <= i < n && #[trigger] rest[i] <= x < rest[i] + 0x1000;
                assert(rest[i] == pops[i + n]);
            }
        }
        assert(rl.union(rr) =~= pages_region(pops, 0, 2 * n)) by {
            assert forall|x: int| pages_region(pops, 0, 2 * n).contains(x) implies rl.union(
                rr,
            ).contains(x) by {
                let i = choose|i: int| 0 <= i < 2 * n && #[trigger] pops[i] <= x < pops[i] + 0x1000;
                if i < n {
                    assert(pages_region(pops, 0, n).contains(x));
                } else {
                    assert(pages_region(pops, n, 2 * n).contains(x));
                }
            }
            assert forall|x: int| rl.union(rr).contains(x) implies pages_region(
                pops,
                0,
                2 * n,
            ).contains(x) by {
                if rl.contains(x) {
                    let i = choose|i: int| 0 <= i < n && #[trigger] pops[i] <= x < pops[i] + 0x1000;
                    assert(0 <= i < 2 * n);
                } else {
                    let i = choose|i: int| n <= i < 2 * n && #[trigger] pops[i] <= x < pops[i] + 0x1000;
                    assert(0 <= i < 2 * n);
                }
            }
        }
        if pages_apart(pops, 2 * n) {
            assert(pages_apart(pops, n));
            assert(pages_apart(rest, n)) by {
                assert forall|i: int, j: int| 0 <= i < j < n implies rest[i] + 0x1000 <= rest[j]
                    || rest[j] + 0x1000 <= rest[i] by {
                    assert(rest[i] == pops[i + n] && rest[j] == pops[j + n]);
                }
            }
            assert(rl.disjoint(rr)) by {
                assert forall|x: int| rl.contains(x) implies !rr.contains(x) by {
                    let i = choose|i: int| 0 <= i < n && #[trigger] pops[i] <= x < pops[i] + 0x1000;
                    if rr.contains(x) {
                        let j = choose|j: int| n <= j < 2 * n && #[trigger] pops[j] <= x < pops[j] + 0x1000;
                        assert(pops[i] + 0x1000 <= pops[j] || pops[j] + 0x1000 <= pops[i]);
                    }
                }
            }
        }
    }
}

/// The number of nodes of the tree of a block of `size`.
pub open spec fn nodes(size: BlockSize) -> nat {
    (2 * leaves(size) - 1) as nat
}

/// Builds the tree for a block of `size` (see `full_tree`), with its nodes in slots of `blocks`;
/// gives the slot of its root and the root.
fn build_buddyblock(size: BlockSize, blocks: &mut BuddyBlockPages, free: &mut FreePages) -> (r: (
    usize,
    BuddyBlock,
))
    requires
        size.size() >= 0x1000,
        size.rank() <= 14,
        old(free)@.len() >= leaves(size),
        old(blocks).wf(),
        old(blocks).free_set().len() >= nodes(size),
        old(blocks).capacity() + 128 <= usize::MAX,
    ensures
        r.1.view_tree() == full_tree(pop_order(old(free)@), size),
        final(free)@ == old(free)@.subrange(0, old(free)@.len() - leaves(size)),
        final(blocks).wf(),
        final(blocks).capacity() == old(blocks).capacity(),
        final(blocks).free_set().len() == old(blocks).free_set().len() - nodes(size),
        r.0 < final(blocks).capacity(),
        slots_below(r.1.slots(), final(blocks).capacity()),
        r.1.slots_distinct(),
        !r.1.slots().contains(r.0 as int),
        final(blocks).used_set() == old(blocks).used_set().union(r.1.slots()).insert(r.0 as int),
        forall|h: int|
            #![trigger r.1.slots().contains(h)]
            #![trigger old(blocks).used_set().contains(h)]
            (r.1.slots().contains(h) || h == r.0) ==> !old(blocks).used_set().contains(h),
    decreases size.rank(),
{
    proof {
        lemma_size_positive(size);
    }
    let ghost pops = pop_order(free@);
    if size.bytes() > 0x1000 {
        let child_size = match size.split() {
            Some(c) => c,
            None => vstd::pervasive::unreached(),
        };
        proof {
            lemma_size_positive(child_size);
            assert(leaves(size) == 2 * leaves(child_size)) by {
                assert(child_size.size() * 2 == size.size());
            }
        }
        let ghost mid = free@;
        let (ls, left) = build_buddyblock(child_size, blocks, free);
        proof {
            assert(pop_order(free@) =~= pops.subrange(
                leaves(child_size) as int,
                pops.len() as int,
            ));
        }
        let ghost u1 = blocks.used_set();
        let (rs, right) = build_buddyblock(child_size, blocks, free);
        let ghost u2 = blocks.used_set();
        let block = BuddyBlock::Split(ls, Box::new(left), rs, Box::new(right), size);
        let res = blocks.get_block(free);
        proof {
            let u0 = old(blocks).used_set();
            assert(u1.contains(ls as int));
            assert(!u1.contains(rs as int));
            assert(left.slots().subset_of(u1));
            assert(left.slots().disjoint(right.slots()));
            assert(!u2.contains(res as int));
            assert(u2.contains(ls as int) && u2.contains(rs as int));
            assert(left.slots().subset_of(u2) && right.slots().subset_of(u2));
            assert(block.slots_distinct());
            assert(blocks.used_set() =~= u0.union(block.slots()).insert(res as int));
            assert forall|h: int|
                (block.slots().contains(h) || h == res) implies !u0.contains(h) by {
                if left.slots().contains(h) || h == ls {
                } else if right.slots().contains(h) || h == rs {
                    assert(!u1.contains(h));
                } else {
                    assert(!u2.contains(h));
                }
            }
            assert(free@ =~= mid.subrange(0, mid.len() - leaves(size)));
            assert(block.slots() == left.slots().union(right.slots()).insert(ls as int).insert(
                rs as int,
            ));
        }
        (res, block)
    } else {
        let page = match get_zpage(free) {
            Some(p) => p,
            None => vstd::pervasive::unreached(),
        };
        let block = BuddyBlock::Free(page, BlockSize::Bs4K);
        let res = blocks.get_block(free);
        proof {
            assert(block.slots() =~= Set::<int>::empty());
            assert(blocks.used_set() =~= old(blocks).used_set().union(block.slots()).insert(
                res as int,
            ));
            assert(free@ =~= old(free)@.subrange(0, old(free)@.len() - leaves(size)));
        }
        (res, block)
    }
}

/// The error of an allocation that found no block.
#[derive(PartialEq, Eq, Structural, Clone, Copy, Debug)]
pub struct AllocError;

/// A buddy allocator over the blocks of its tree, which starts as 64 KiB in 16 pages.
pub struct BuddyAllocator {
    pages: BuddyBlock,
    pages_slot: usize,
    blocks: BuddyBlockPages,
    blocks_page: usize,
}

impl BuddyAllocator {
    /// The allocator's tree as plain values.
    pub closed spec fn tree(&self) -> BlockTree {
        self.pages.view_tree()
    }

    /// The number of block slots not handed out.
    pub closed spec fn free_slots(&self) -> nat {
        self.blocks.free_set().len()
    }

    /// The page that holds the first page of block slots.
    pub closed spec fn first_blocks_page(&self) -> usize {
        self.blocks_page
    }

    /// The tree is well formed, and the slots of the block pages handed out are those that its
    /// split blocks name, each once, and the slot of its root.
    pub closed spec fn wf(&self) -> bool {
        &&& tree_ok(self.pages.view_tree())
        &&& self.blocks.wf()
        &&& self.blocks.capacity() + 128 <= usize::MAX
        &&& slots_below(self.pages.slots(), self.blocks.capacity())
        &&& self.pages_slot < self.blocks.capacity()
        &&& self.pages.slots_distinct()
        &&& !self.pages.slots().contains(self.pages_slot as int)
        &&& self.blocks.used_set() == self.pages.slots().insert(self.pages_slot as int)
    }

    /// The slots not handed out, with two for each split block and one for the root, make up
    /// the block pages.
    proof fn lemma_free_slots(&self)
        requires
            self.wf(),
        ensures
            self.free_slots() + 1 + 2 * splits(self.tree()) == self.blocks.capacity(),
    {
        let u = self.blocks.used_set();
        let f = self.blocks.free_set();
        let all = set_int_range(0, self.blocks.capacity());
        self.pages.lemma_slots_len();
        lemma_int_range(0, self.blocks.capacity());
        assert(u.subset_of(all));
        lemma_len_subset(u, all);
        lemma_len_subset(f, all);
        assert(f + u =~= all);
        vstd::set_lib::lemma_set_disjoint_lens(f, u);
    }

    /// Builds the allocator from 17 pages of `free`: the 16 taken first hold the 64 KiB, the
    /// next one the block slots.
    pub fn new(free: &mut FreePages) -> (r: Self)
        requires
            old(free)@.len() >= 17,
            pages_fit(pop_order(old(free)@)),
        ensures
            r.wf(),
            r.tree() == full_tree(pop_order(old(free)@), BlockSize::Bs64K),
            r.first_blocks_page() == old(free)@[old(free)@.len() - 17],
            final(free)@ == old(free)@.subrange(0, old(free)@.len() - 17),
            r.free_slots() == 128 - 31,
            used_blocks(r.tree()) == Multiset::<(usize, BlockSize)>::empty(),
            pages_apart(pop_order(old(free)@), 16) ==> leaves_disjoint(r.tree()),
            region(r.tree()) == pages_region(pop_order(old(free)@), 0, 16),
            (forall|i: int| 0 <= i < 16 ==> #[trigger] pop_order(old(free)@)[i] % 0x1000 == 0)
                ==> blocks_aligned(r.tree()),
    {
        let ghost pops = pop_order(free@);
        let mut blocks = BuddyBlockPages::new();
        let (pages_slot, pages) = build_buddyblock(BlockSize::Bs64K, &mut blocks, free);
        let blocks_page = match get_zpage(free) {
            Some(p) => p,
            None => vstd::pervasive::unreached(),
        };
        proof {
            lemma_full_tree_ok(pops, BlockSize::Bs64K);
            lemma_full_tree_region(pops, BlockSize::Bs64K);
            if forall|i: int| 0 <= i < 16 ==> #[trigger] pops[i] % 0x1000 == 0 {
                lemma_full_tree_aligned(pops, BlockSize::Bs64K);
            }
            assert(free@ =~= old(free)@.subrange(0, old(free)@.len() - 17));
            assert(blocks.used_set() =~= pages.slots().insert(pages_slot as int));
        }
        BuddyAllocator { pages, pages_slot, blocks, blocks_page }
    }

    /// Hands out a block for `size` bytes aligned to `align`: the first free block of the size
    /// class (see `fit_use`), or else one made by splitting a larger free block (see `create`).
    pub fn alloc_block(&mut self, size: usize, align: usize) -> (r: Result<usize, AllocError>)
        requires
            old(self).wf(),
            size <= 4096,
            fit_use(old(self).tree(), BlockSize::class_of(size as int).unwrap(), align as int)
                is None ==> 2 * create(
                old(self).tree(),
                BlockSize::class_of(size as int).unwrap(),
                align as int,
            ).2 <= old(self).free_slots(),
        ensures
            final(self).wf(),
            ({
                let c = BlockSize::class_of(size as int).unwrap();
                match fit_use(old(self).tree(), c, align as int) {
                    Some((t, a)) => r == Ok::<usize, AllocError>(a) && final(self).tree() == t,
                    None => {
                        let (t, a, _) = create(old(self).tree(), c, align as int);
                        &&& final(self).tree() == t
                        &&& match a {
                            Some(a) => r == Ok::<usize, AllocError>(a),
                            None => r == Err::<usize, AllocError>(AllocError),
                        }
                    },
                }
            }),
            r matches Ok(a) ==> used_blocks(final(self).tree()) == used_blocks(
                old(self).tree(),
            ).insert((a, BlockSize::class_of(size as int).unwrap())),
            r is Err ==> used_blocks(final(self).tree()) == used_blocks(old(self).tree()),
            leaves_disjoint(old(self).tree()) ==> leaves_disjoint(final(self).tree()),
            region(final(self).tree()) == region(old(self).tree()),
            r matches Ok(a) ==> region(old(self).tree()).contains(a as int),
            blocks_aligned(old(self).tree()) ==> blocks_aligned(final(self).tree()),
            blocks_aligned(old(self).tree()) && is_pow2(align as int) ==> (r matches Ok(a) ==> (a
                as int) % (align as int) == 0),
            align <= BlockSize::class_of(size as int).unwrap().size() && has_free_block(
                old(self).tree(),
                BlockSize::class_of(size as int).unwrap(),
            ) ==> r is Ok,
            final(self).free_slots() + 2 * splits(final(self).tree()) == old(self).free_slots() + 2
                * splits(old(self).tree()),
    {
        proof {
            old(self).lemma_free_slots();
        }
        let size = match BlockSize::try_from(size) {
            Ok(s) => s,
            Err(_) => vstd::pervasive::unreached(),
        };
        proof {
            lemma_fit_ok(self.pages.view_tree(), size, align as int);
            lemma_create_ok(self.pages.view_tree(), size, align as int);
            lemma_tree_ok_fits(self.pages.view_tree());
            lemma_fit_region(self.pages.view_tree(), size, align as int);
            lemma_create_region(self.pages.view_tree(), size, align as int);
            lemma_size_pow2(size);
            if blocks_aligned(self.pages.view_tree()) {
                lemma_fit_aligned(self.pages.view_tree(), size, align as int);
                lemma_create_aligned(self.pages.view_tree(), size, align as int);
                if is_pow2(align as int) {
                    if let Some((_, a)) = fit_use(self.pages.view_tree(), size, align as int) {
                        lemma_pow2_divides(a as int, size.size() as int, align as int);
                    }
                    if let Some(a) = create(self.pages.view_tree(), size, align as int).1 {
                        lemma_pow2_divides(a as int, size.size() as int, align as int);
                    }
                }
            }
        }
        let ghost t0 = self.pages.view_tree();
        proof {
            if align <= size.size() && has_free_block(t0, size) {
                lemma_alloc_succeeds(t0, size, align as int);
            }
            lemma_fit_mark(t0, size, align as int);
            lemma_carve_fit(t0, size, align as int);
            lemma_fit_mark(carve(t0, size, align as int).0, size, align as int);
        }
        if let Some(ptr) = self.pages.find_size_align(size, align) {
            self.pages.mark_used(ptr, size, align);
            proof {
                lemma_used_in_region(self.pages.view_tree(), ptr, size);
                self.lemma_free_slots();
            }
            return Ok(ptr);
        }
        let mut no_pages = FreePages::new();
        let ghost s0 = self.pages.slots();
        let ghost u0 = self.blocks.used_set();
        let found = self.pages.find_or_create_size_align(size, align, &mut self.blocks, &mut no_pages);
        proof {
            let s1 = self.pages.slots();
            assert(!s1.contains(self.pages_slot as int)) by {
                if s1.contains(self.pages_slot as int) {
                    assert(u0.contains(self.pages_slot as int));
                }
            }
            assert(self.blocks.used_set() =~= s1.insert(self.pages_slot as int));
        }
        match found {
            Some(ptr) => {
                self.pages.mark_used(ptr, size, align);
                proof {
                    lemma_used_in_region(self.pages.view_tree(), ptr, size);
                    self.lemma_free_slots();
                }
                Ok(ptr)
            },
            None => {
                proof {
                    self.lemma_free_slots();
                }
                Err(AllocError)
            },
        }
    }

    /// The number of block slots not handed out.
    pub fn free_slot_count(&self) -> (r: usize)
        requires
            self.wf(),
        ensures
            r == self.free_slots(),
    {
        self.blocks.free_count()
    }

    /// Whether `alloc_block` may be called for `size` and `align`: a free block of the size
    /// class is found, or there are slots enough for the halves of the blocks split on the way
    /// to one.
    pub fn can_alloc(&self, size: usize, align: usize) -> (r: bool)
        requires
            self.wf(),
            size <= 4096,
        ensures
            r == (fit_use(self.tree(), BlockSize::class_of(size as int).unwrap(), align as int)
                is None ==> 2 * create(
                self.tree(),
                BlockSize::class_of(size as int).unwrap(),
                align as int,
            ).2 <= self.free_slots()),
    {
        let c = match BlockSize::try_from(size) {
            Ok(c) => c,
            Err(_) => vstd::pervasive::unreached(),
        };
        if self.pages.fit_check(c, align) {
            return true;
        }
        let slots = self.blocks.free_count();
        match self.pages.plan(c, align, slots) {
            Some(_) => true,
            None => false,
        }
    }

    /// Whether `dealloc` may be called for `ptr`: a block in use at `ptr` is found, and no free
    /// block at `ptr` comes first (see `free_spec`).
    pub fn can_dealloc(&self, ptr: usize) -> (r: bool)
        requires
            self.wf(),
        ensures
            r == (free_spec(self.tree(), ptr) matches Some((_, true))),
    {
        match self.pages.free_check(ptr) {
            Some(f) => f,
            None => false,
        }
    }

    /// Frees the block in use at `ptr` and merges what can be merged (see `free_spec` and
    /// `merge_spec`).
    pub fn dealloc(&mut self, ptr: usize)
        requires
            old(self).wf(),
            free_spec(old(self).tree(), ptr) matches Some((_, true)),
        ensures
            final(self).wf(),
            final(self).tree() == merge_spec(free_spec(old(self).tree(), ptr).unwrap().0),
            exists|s: BlockSize|
                used_blocks(old(self).tree()).count((ptr, s)) > 0 && used_blocks(final(self).tree())
                    == #[trigger] used_blocks(old(self).tree()).remove((ptr, s)),
            leaves_disjoint(old(self).tree()) ==> leaves_disjoint(final(self).tree()),
            region(final(self).tree()) == region(old(self).tree()),
            blocks_aligned(old(self).tree()) ==> blocks_aligned(final(self).tree()),
            final(self).free_slots() + 2 * splits(final(self).tree()) == old(self).free_slots() + 2
                * splits(old(self).tree()),
            fully_merged(final(self).tree()),
    {
        proof {
            old(self).lemma_free_slots();
            lemma_merge_complete(free_spec(old(self).tree(), ptr).unwrap().0);
        }
        let ghost t = self.pages.view_tree();
        let freed = self.pages.free(ptr);
        let ghost s0 = self.pages.slots();
        proof {
            if blocks_aligned(t) {
                lemma_free_aligned(t, ptr);
                lemma_merge_aligned(free_spec(t, ptr).unwrap().0);
            }
            let s = lemma_free_ok(t, ptr);
            lemma_merge_ok(free_spec(t, ptr).unwrap().0);
            lemma_free_region(t, ptr);
            lemma_merge_region(free_spec(t, ptr).unwrap().0);
            assert(used_blocks(t).count((ptr, s)) > 0);
        }
        self.pages.merge(&mut self.blocks);
        proof {
            assert(self.blocks.used_set() =~= self.pages.slots().insert(self.pages_slot as int));
            self.lemma_free_slots();
        }
    }

    /// A block slot: the last slot of `reuse_blocks`, or else the next slot of the first page
    /// of `new_blocks` (given as the number of its slots taken and its next slot) that has room.
    pub fn get_block(new_blocks: &mut Vec<(usize, usize)>, reuse_blocks: &mut Vec<usize>) -> (r:
        usize)
        requires
            forall|i: int| 0 <= i < old(new_blocks)@.len() ==> old(new_blocks)@[i].0 < usize::MAX,
            old(reuse_blocks)@.len() > 0 || exists|i: int|
                0 <= i < old(new_blocks)@.len() && old(new_blocks)@[i].0 + 1 < BLOCKS_PER_PAGE,
        ensures
            old(reuse_blocks)@.len() > 0 ==> r == old(reuse_blocks)@.last()
                && final(reuse_blocks)@ == old(reuse_blocks)@.drop_last()
                && final(new_blocks)@ == old(new_blocks)@,
            old(reuse_blocks)@.len() == 0 ==> exists|i: int|
                0 <= i < old(new_blocks)@.len() && old(new_blocks)@[i].0 + 1 < BLOCKS_PER_PAGE
                    && (forall|j: int| 0 <= j < i ==> old(new_blocks)@[j].0 + 1 >= BLOCKS_PER_PAGE)
                    && r == old(new_blocks)@[i].1 && final(new_blocks)@ == old(new_blocks)@.update(
                    i,
                    ((old(new_blocks)@[i].0 + 1) as usize, old(new_blocks)@[i].1.wrapping_add(1)),
                ) && final(reuse_blocks)@ == old(reuse_blocks)@,
    {
        if let Some(b) = reuse_blocks.pop() {
            return b;
        }
        let n = new_blocks.len();
        let mut i: usize = 0;
        while i < n
            invariant
                n == new_blocks@.len(),
                *new_blocks == *old(new_blocks),
                reuse_blocks@ == old(reuse_blocks)@,
                old(reuse_blocks)@.len() == 0,
                i <= n,
                forall|j: int| 0 <= j < i ==> new_blocks@[j].0 + 1 >= BLOCKS_PER_PAGE,
                forall|j: int| 0 <= j < n ==> new_blocks@[j].0 < usize::MAX,
                exists|k: int| 0 <= k < n && new_blocks@[k].0 + 1 < BLOCKS_PER_PAGE,
            decreases n - i,
        {
            let (count, next) = new_blocks[i];
            if count + 1 < BLOCKS_PER_PAGE {
                new_blocks.set(i, (count + 1, next.wrapping_add(1)));
                assert(old(new_blocks)@[i as int].0 + 1 < BLOCKS_PER_PAGE);
                return next;
            }
            i = i + 1;
        }
        vstd::pervasive::unreached()
    }
}

/// Builds the allocator (see `BuddyAllocator::new`) into `global`.
pub fn init_global_alloc(global: &mut Option<BuddyAllocator>, free: &mut FreePages)
    requires
        old(free)@.len() >= 17,
        pages_fit(pop_order(old(free)@)),
    ensures
        *final(global) matches Some(a) && a.wf() && a.tree() == full_tree(
            pop_order(old(free)@),
            BlockSize::Bs64K,
        ) && (pages_apart(pop_order(old(free)@), 16) ==> leaves_disjoint(a.tree())) && ((forall|
            i: int,
        | 0 <= i < 16 ==> #[trigger] pop_order(old(free)@)[i] % 0x1000 == 0) ==> blocks_aligned(
            a.tree(),
        )),
        final(free)@ == old(free)@.subrange(0, old(free)@.len() - 17),
{
    let allocator = BuddyAllocator::new(free);
    *global = Some(allocator);
}

} // verus!
