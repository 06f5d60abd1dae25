use vstd::prelude::*;

pub mod sv48;
pub mod table;

verus! {

use core::ops::Range;
use crate::allocators::{align_up, align_up_spec, lemma_page_size_pow2};

pub const PAGE_SIZE: usize = 4096;

/// The list of free physical pages, by address; the page handed out next is the last one.
pub struct FreePages {
    pages: Vec<usize>,
}

impl View for FreePages {
    type V = Seq<usize>;

    closed spec fn view(&self) -> Seq<usize> {
        self.pages@
    }
}

/// The page addresses `start`, `start + 0x1000`, ... below `end`.
pub open spec fn pages_in(start: int, end: int) -> Seq<usize> {
    Seq::new(
        if start < end {
            ((end - start + 0xfff) / 0x1000) as nat
        } else {
            0
        },
        |i: int| (start + 0x1000 * i) as usize,
    )
}

impl FreePages {
    /// A list with no free page.
    pub fn new() -> (r: Self)
        ensures
            r@ == Seq::<usize>::empty(),
    {
        FreePages { pages: Vec::new() }
    }

    /// The number of free pages.
    pub fn len(&self) -> (r: usize)
        ensures
            r == self@.len(),
    {
        self.pages.len()
    }
}

/// Adds the pages of `start..end`, from `start` aligned up to a page boundary on, to the free
/// list.
pub fn add_pages_from_range(free: &mut FreePages, range: Range<usize>)
    requires
        range.start + 0xfff <= usize::MAX,
    ensures
        final(free)@ == old(free)@ + pages_in(
            align_up_spec(range.start as int, 0x1000),
            range.end as int,
        ),
{
    let Range { start, end } = range;
    proof {
        lemma_page_size_pow2();
    }
    let start = align_up(start, 0x1000);
    let ghost base = free@;
    let ghost want = pages_in(start as int, end as int);
    if start >= end {
        assert(want =~= Seq::<usize>::empty());
        assert(free@ =~= base + want);
        return;
    }
    let count = (end - start) / 0x1000 + if (end - start) % 0x1000 != 0 {
        1
    } else {
        0
    };
    assert(count == want.len());
    let mut i: usize = 0;
    assert(free@ =~= base + want.take(0));
    while i < count
        invariant
            start < end,
            want == pages_in(start as int, end as int),
            count == want.len(),
            i <= count,
            free@ == base + want.take(i as int),
        decreases count - i,
    {
        assert(0x1000 * i < end - start) by (nonlinear_arith)
            requires
                i < count,
                count == (end - start + 0xfff) / 0x1000,
        ;
        let page = start + 0x1000 * i;
        free.pages.push(page);
        assert(want.take(i + 1) =~= want.take(i as int).push(page));
        i = i + 1;
    }
    assert(want.take(count as int) =~= want);
}

/// Takes the next free page off the list.
pub fn get_page(free: &mut FreePages) -> (r: Option<usize>)
    ensures
        old(free)@.len() == 0 ==> r is None && final(free)@ == old(free)@,
        old(free)@.len() > 0 ==> r == Some(old(free)@.last()) && final(free)@
            == old(free)@.drop_last(),
{
    free.pages.pop()
}

/// Takes the next free page off the list; the page is handed out zeroed.
pub fn get_zpage(free: &mut FreePages) -> (r: Option<usize>)
    ensures
        old(free)@.len() == 0 ==> r is None && final(free)@ == old(free)@,
        old(free)@.len() > 0 ==> r == Some(old(free)@.last()) && final(free)@
            == old(free)@.drop_last(),
{
    get_page(free)
}

/// Puts `page` back on the free list; it is the next page handed out.
pub fn return_page(free: &mut FreePages, page: usize)
    ensures
        final(free)@ == old(free)@.push(page),
{
    free.pages.push(page);
}

/// A page handed back is the next page handed out, and the list is as it was.
pub proof fn lemma_return_then_get(before: Seq<usize>, page: usize)
    ensures
        before.push(page).last() == page,
        before.push(page).drop_last() == before,
{
    assert(before.push(page).drop_last() =~= before);
}

} // verus!
