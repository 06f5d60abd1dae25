use vstd::prelude::*;

verus! {

use core::ops::Range;
use crate::allocators::{align_up, align_up_spec, lemma_page_size_pow2};
use crate::allocators::paging::{pages_in, FreePages};
use crate::allocators::paging::table::{diverge, mapped_entry, vpn_of, PTEFlagSet, PageTable};

/// The pieces of `lhs` that `sub_range` gives for `rhs`.
pub open spec fn sub_range_spec(lhs: Range<usize>, rhs: Range<usize>) -> (
    Option<Range<usize>>,
    Option<Range<usize>>,
) {
    if rhs.start <= lhs.start && rhs.end >= lhs.end {
        (None, None)
    } else if rhs.start <= lhs.start && rhs.end < lhs.end {
        (Some(Range { start: rhs.end, end: lhs.end }), None)
    } else if rhs.start > lhs.start && rhs.end >= lhs.end {
        (Some(Range { start: rhs.start, end: lhs.end }), None)
    } else {
        (Some(Range { start: lhs.start, end: rhs.start }), Some(Range { start: rhs.end, end: lhs.end }))
    }
}

/// `lhs` with `rhs` taken out, as up to two ranges.
pub fn sub_range(lhs: Range<usize>, rhs: Range<usize>) -> (r: (
    Option<Range<usize>>,
    Option<Range<usize>>,
))
    ensures
        r == sub_range_spec(lhs, rhs),
{
    if rhs.start <= lhs.start && rhs.end >= lhs.end {
        (None, None)
    } else if rhs.start <= lhs.start && rhs.end < lhs.end {
        (Some(Range { start: rhs.end, end: lhs.end }), None)
    } else if rhs.start > lhs.start && rhs.end >= lhs.end {
        (Some(Range { start: rhs.start, end: lhs.end }), None)
    } else {
        (Some(Range { start: lhs.start, end: rhs.start }), Some(Range { start: rhs.end, end: lhs.end }))
    }
}

/// `x` lies in `r`.
pub open spec fn in_range(r: Range<usize>, x: int) -> bool {
    r.start <= x < r.end
}

/// `x` lies in one of the pieces.
pub open spec fn in_pieces(p: (Option<Range<usize>>, Option<Range<usize>>), x: int) -> bool {
    (p.0 matches Some(a) && in_range(a, x)) || (p.1 matches Some(b) && in_range(b, x))
}

/// Where `rhs` starts no later than `lhs` and does not end before `lhs` starts, or lies strictly
/// inside `lhs`, the pieces hold exactly the points of `lhs` that are not in `rhs`.
pub proof fn lemma_sub_range_pieces(lhs: Range<usize>, rhs: Range<usize>, x: int)
    requires
        rhs.start <= lhs.start <= rhs.end || lhs.start < rhs.start <= rhs.end < lhs.end,
    ensures
        in_pieces(sub_range_spec(lhs, rhs), x) <==> (in_range(lhs, x) && !in_range(rhs, x)),
{
}

/// The free memory regions, given as (address, size), with the memory below `heap_end` taken
/// out of the region that holds `heap_end`.
pub open spec fn free_ranges_spec(regions: Seq<(usize, usize)>, heap_end: usize) -> Seq<Range<usize>>
    decreases regions.len(),
{
    if regions.len() == 0 {
        Seq::empty()
    } else {
        let rest = free_ranges_spec(regions.drop_last(), heap_end);
        let (a, s) = regions.last();
        let range = Range { start: a, end: (a + s) as usize };
        if in_range(range, heap_end as int) {
            let (l, r) = sub_range_spec(range, Range { start: a, end: heap_end });
            let with_l = match l {
                Some(x) => rest.push(x),
                None => rest,
            };
            match r {
                Some(y) => with_l.push(y),
                None => with_l,
            }
        } else {
            rest.push(range)
        }
    }
}

/// The free memory regions (see `free_ranges_spec`).
pub fn free_ranges(regions: &Vec<(usize, usize)>, heap_end: usize) -> (r: Vec<Range<usize>>)
    requires
        forall|i: int| 0 <= i < regions@.len() ==> regions@[i].0 + regions@[i].1 <= usize::MAX,
    ensures
        r@ == free_ranges_spec(regions@, heap_end),
{
    let mut out: Vec<Range<usize>> = Vec::new();
    let n = regions.len();
    let mut i: usize = 0;
    while i < n
        invariant
            n == regions@.len(),
            i <= n,
            forall|k: int| 0 <= k < regions@.len() ==> regions@[k].0 + regions@[k].1 <= usize::MAX,
            out@ == free_ranges_spec(regions@.take(i as int), heap_end),
        decreases n - i,
    {
        let (a, s) = regions[i];
        assert(regions@.take(i + 1).drop_last() =~= regions@.take(i as int));
        let range = Range { start: a, end: a + s };
        if a <= heap_end && heap_end < a + s {
            match sub_range(range, Range { start: a, end: heap_end }) {
                (None, None) => {},
                (None, Some(r)) => {
                    out.push(r);
                },
                (Some(r), None) => {
                    out.push(r);
                },
                (Some(rl), Some(rr)) => {
                    out.push(rl);
                    out.push(rr);
                },
            }
        } else {
            out.push(range);
        }
        i = i + 1;
    }
    assert(regions@.take(n as int) =~= regions@);
    out
}

/// The `satp` value that turns on Sv48 paging with the root table at `root`: mode 9, address
/// space 0xffff, and the root's page number.
pub fn satp_value(root: u64) -> (r: u64)
    ensures
        r == (9u64 << 60u64) | (0xffffu64 << 44u64) | ((root >> 12u64) & 0xfff_ffff_ffff),
{
    (9 << 60) | (0xffff << 44) | ((root >> 12) & 0xfff_ffff_ffff)
}

/// The walk for virtual address `v` in `t` ends at an entry that maps physical address `pa`
/// with `flags`.
pub open spec fn maps(t: PageTable, v: u64, pa: u64, flags: u64) -> bool {
    exists|old: u64| t.walk(vpn_of(v), 3, 3) == Some(mapped_entry(old, pa, flags))
}

/// The walks for two addresses a whole number of pages, and less than 2^47 bytes, apart part
/// on the way.
proof fn lemma_pages_diverge(a: u64, b: u64)
    requires
        a + 0x1000 <= b,
        b - a < 0x8000_0000_0000,
        (b - a) % 0x1000 == 0,
    ensures
        diverge(vpn_of(a), vpn_of(b), 3, 3),
        diverge(vpn_of(b), vpn_of(a), 3, 3),
{
    let m = 0x7fff_ffff_ffffu64;
    assert(!(((a & m) >> 12u64) & 0x1ff == ((b & m) >> 12u64) & 0x1ff && ((a & m) >> 21u64) & 0x1ff
        == ((b & m) >> 21u64) & 0x1ff && ((a & m) >> 30u64) & 0x1ff == ((b & m) >> 30u64) & 0x1ff
        && ((a & m) >> 39u64) & 0x1ff == ((b & m) >> 39u64) & 0x1ff)) by (bit_vector)
        requires
            m == 0x7fff_ffff_ffffu64,
            b >= 0x1000u64,
            a <= b - 0x1000u64,
            b - a < 0x8000_0000_0000u64,
            ((b - a) as u64) % 0x1000u64 == 0,
    ;
    reveal_with_fuel(diverge, 4);
}

/// Maps the pages from `start` up to `end` rounded up to a page each to itself with `flags`, a
/// page at a time, taking the tables that are missing on the way from `free`. Where the tables
/// that a page needs are more than `free` holds, it stops there and gives that page's address.
/// Where the range holds at most 2^35 pages (so that no two of its pages share a walk), every
/// page before the one it stops at (or every page) is mapped; the pages already mapped elsewhere stay as they were. The pages it takes off `free`
/// are those of the tables it adds, each named by the entry above it.
pub fn identity_map(
    table: &mut PageTable,
    free: &mut FreePages,
    start: usize,
    end: usize,
    flags: PTEFlagSet,
) -> (r: Result<(), usize>)
    requires
        flags.value() & 4 == 4 ==> flags.value() & 2 == 2,
        end + 0xfff <= usize::MAX,
        forall|v: u64| #[trigger] old(table).path_ok(vpn_of(v), 3, 3),
        old(table).tables_named(3),
    ensures
        forall|v: u64| #[trigger] final(table).path_ok(vpn_of(v), 3, 3),
        final(table).tables_named(3),
        final(table).page_of() == old(table).page_of(),
        final(free)@ == old(free)@.subrange(0, final(free)@.len() as int),
        final(table).pages_from(0, 3) == old(table).pages_from(0, 3).add(
            old(free)@.subrange(final(free)@.len() as int, old(free)@.len() as int).to_multiset(),
        ),
        ({
            let ps = pages_in(start as int, align_up_spec(end as int, 0x1000));
            let n = match r {
                Ok(()) => ps.len() as int,
                Err(a) => (a - start) / 0x1000,
            };
            &&& 0 <= n <= ps.len()
            &&& r matches Err(a) ==> n < ps.len() && a == ps[n] && final(table).pages_needed(
                vpn_of(a as u64),
                3,
                3,
            ) > final(free)@.len()
            &&& ps.len() <= 0x8_0000_0000 ==> forall|k: int|
                0 <= k < n ==> maps(
                    *final(table),
                    ps[k] as u64,
                    (ps[k] as u64) & 0x7f_ffff_ffff_ffff,
                    flags.value(),
                )
        }),
{
    proof {
        lemma_page_size_pow2();
    }
    let stop = align_up(end, 0x1000);
    let ghost ps = pages_in(start as int, stop as int);
    proof {
        let none = old(free)@.subrange(free@.len() as int, old(free)@.len() as int);
        none.to_multiset_ensures();
        vstd::multiset::lemma_multiset_empty_len(none.to_multiset());
        assert(table.pages_from(0, 3) =~= old(table).pages_from(0, 3).add(none.to_multiset()));
    }
    if start >= stop {
        assert(ps.len() == 0);
        assert(free@ =~= old(free)@.subrange(0, free@.len() as int));
        return Ok(());
    }
    let count = (stop - start) / 0x1000 + if (stop - start) % 0x1000 != 0 {
        1
    } else {
        0
    };
    assert(count == ps.len());
    let mut i: usize = 0;
    while i < count
        invariant
            start < stop,
            stop == align_up_spec(end as int, 0x1000),
            stop <= end + 0xfff,
            end + 0xfff <= usize::MAX,
            ps == pages_in(start as int, stop as int),
            count == ps.len(),
            i <= count,
            flags.value() & 4 == 4 ==> flags.value() & 2 == 2,
            forall|v: u64| #[trigger] table.path_ok(vpn_of(v), 3, 3),
            table.tables_named(3),
            table.page_of() == old(table).page_of(),
            free@.len() <= old(free)@.len(),
            free@ == old(free)@.subrange(0, free@.len() as int),
            table.pages_from(0, 3) == old(table).pages_from(0, 3).add(
                old(free)@.subrange(free@.len() as int, old(free)@.len() as int).to_multiset(),
            ),
            ps.len() <= 0x8_0000_0000 ==> forall|k: int|
                0 <= k < i ==> maps(
                    *table,
                    ps[k] as u64,
                    (ps[k] as u64) & 0x7f_ffff_ffff_ffff,
                    flags.value(),
                ),
        decreases count - i,
    {
        assert(0x1000 * i < stop - start) by (nonlinear_arith)
            requires
                i < count,
                count == (stop - start + 0xfff) / 0x1000,
        ;
        let addr = start + 0x1000 * i;
        assert(addr == ps[i as int]);
        let needed = match table.tables_needed(addr as u64, 3) {
            Some(n) => n,
            None => {
                assert(table.path_ok(vpn_of(addr as u64), 3, 3));
                vstd::pervasive::unreached()
            },
        };
        if needed > free.len() as u64 {
            assert((addr - start) / 0x1000 == i) by (nonlinear_arith)
                requires
                    addr == start + 0x1000 * i,
            ;
            return Err(addr);
        }
        let ghost before = *table;
        let ghost free_before = free@;
        table.map(free, addr as u64, addr as u64, flags, 3);
        proof {
            assert forall|v: u64| #[trigger] table.path_ok(vpn_of(v), 3, 3) by {
                assert(before.path_ok(vpn_of(v), 3, 3));
            }
            assert(free@ == free_before.subrange(0, free_before.len() - needed as int));
            assert(free@ =~= old(free)@.subrange(0, free@.len() as int));
            let (f1, f2, n) = (free_before.len() as int, free@.len() as int, old(free)@.len() as int);
            let (now, earlier) = (old(free)@.subrange(f2, f1), old(free)@.subrange(f1, n));
            assert(free_before.subrange(f2, f1) =~= now);
            assert(old(free)@.subrange(f2, n) =~= now + earlier);
            vstd::seq_lib::lemma_multiset_commutative(now, earlier);
            assert(table.pages_from(0, 3) =~= old(table).pages_from(0, 3).add(
                old(free)@.subrange(f2, n).to_multiset(),
            ));
            if ps.len() <= 0x8_0000_0000 {
                assert forall|k: int| 0 <= k < i + 1 implies maps(
                    *table,
                    ps[k] as u64,
                    (ps[k] as u64) & 0x7f_ffff_ffff_ffff,
                    flags.value(),
                ) by {
                    if k < i {
                        let p = ps[k] as u64;
                        assert(p + 0x1000 <= addr as u64);
                        assert(addr - ps[k] < 0x8000_0000_0000) by (nonlinear_arith)
                            requires
                                addr == start + 0x1000 * i,
                                ps[k] == start + 0x1000 * k,
                                0 <= k < i,
                                i < ps.len() <= 0x8_0000_0000,
                        ;
                        assert((addr - ps[k]) % 0x1000 == 0) by (nonlinear_arith)
                            requires
                                addr == start + 0x1000 * i,
                                ps[k] == start + 0x1000 * k,
                                0 <= k < i,
                        ;
                        lemma_pages_diverge(p, addr as u64);
                        let old_e = choose|old_e: u64|
                            before.walk(vpn_of(p), 3, 3) == Some(
                                mapped_entry(old_e, p & 0x7f_ffff_ffff_ffff, flags.value()),
                            );
                        assert(table.walk(vpn_of(p), 3, 3) == before.walk(vpn_of(p), 3, 3));
                    } else {
                        let old_e = match before.walk(vpn_of(addr as u64), 3, 3) {
                            Some(e) => e,
                            None => 0,
                        };
                        assert(table.walk(vpn_of(addr as u64), 3, 3) == Some(
                            mapped_entry(
                                old_e,
                                (addr as u64) & 0x7f_ffff_ffff_ffff,
                                flags.value(),
                            ),
                        ));
                    }
                }
            }
        }
        i = i + 1;
    }
    Ok(())
}

} // verus!
