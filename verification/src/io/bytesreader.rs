use vstd::prelude::*;

verus! {

use vstd::utf8::valid_utf8;
use vstd::string::StringSliceAdditionalSpecFns;

/// The big-endian value of four bytes.
pub open spec fn be_u32(b: Seq<u8>) -> int {
    b[0] * 0x100_0000 + b[1] * 0x1_0000 + b[2] * 0x100 + b[3]
}

/// The big-endian value of eight bytes.
pub open spec fn be_u64(b: Seq<u8>) -> int {
    be_u32(b.subrange(0, 4)) * 0x1_0000_0000 + be_u32(b.subrange(4, 8))
}

/// The index of the first zero byte of `b` at or after `pos`, or `b.len()` when there is none.
pub open spec fn first_nul(b: Seq<u8>, pos: int) -> int
    decreases b.len() - pos,
{
    if pos >= b.len() {
        b.len() as int
    } else if pos < 0 {
        first_nul(b, 0)
    } else if b[pos] == 0 {
        pos
    } else {
        first_nul(b, pos + 1)
    }
}

/// `first_nul` is the first zero byte at or after `pos`.
pub proof fn lemma_first_nul(b: Seq<u8>, pos: int)
    requires
        0 <= pos <= b.len(),
    ensures
        pos <= first_nul(b, pos) <= b.len(),
        first_nul(b, pos) < b.len() ==> b[first_nul(b, pos)] == 0,
        forall|k: int| pos <= k < first_nul(b, pos) ==> b[k] != 0,
    decreases b.len() - pos,
{
    if pos < b.len() && b[pos] != 0 {
        lemma_first_nul(b, pos + 1);
    }
}

/// A zero-terminated string at `pos` of `b`: there is a zero byte at or after `pos`, and the
/// bytes before it are valid UTF-8.
pub open spec fn has_str_at(b: Seq<u8>, pos: int) -> bool {
    &&& 0 <= pos <= b.len()
    &&& first_nul(b, pos) < b.len()
    &&& valid_utf8(b.subrange(pos, first_nul(b, pos)))
}

/// Calls `core::str::from_utf8`, which gives back a string slice of the same bytes exactly when
/// the bytes are valid UTF-8.
#[verifier::external_body]
fn utf8_str<'a>(bytes: &'a [u8]) -> (r: Option<&'a str>)
    ensures
        r is Some <==> valid_utf8(bytes@),
        r matches Some(s) ==> s.spec_bytes() == bytes@,
{
    core::str::from_utf8(bytes).ok()
}

/// A slice holds at most `usize::MAX` elements.
pub proof fn lemma_slice_len<T>(b: &[T])
    ensures
        b@.len() <= usize::MAX,
{
    assert(b.len() == b@.len());
}

/// Reads big-endian words, byte strings and zero-terminated strings from a byte slice, from a
/// position that moves on as it reads.
pub struct BytesReader<'a> {
    bytes: &'a [u8],
    pos: usize,
}

impl<'a> BytesReader<'a> {
    /// The bytes that the reader reads.
    pub closed spec fn data(&self) -> Seq<u8> {
        self.bytes@
    }

    /// The reader's position in `data()`.
    pub closed spec fn at(&self) -> int {
        self.pos as int
    }

    /// The position and the length of the data fit in a `usize`.
    pub proof fn lemma_bounds(&self)
        ensures
            0 <= self.at() <= usize::MAX,
            self.data().len() <= usize::MAX,
    {
        lemma_slice_len(self.bytes);
    }

    /// A reader at the start of `bytes`.
    pub fn new(bytes: &'a [u8]) -> (r: Self)
        ensures
            r.data() == bytes@,
            r.at() == 0,
    {
        Self { bytes, pos: 0 }
    }

    fn get4(&self) -> (r: u32)
        requires
            self.pos + 4 <= self.bytes@.len(),
        ensures
            r == be_u32(self.bytes@.subrange(self.pos as int, self.pos + 4)),
    {
        let p = self.pos;
        let b0 = self.bytes[p] as u32;
        let b1 = self.bytes[p + 1] as u32;
        let b2 = self.bytes[p + 2] as u32;
        let b3 = self.bytes[p + 3] as u32;
        b0 * 0x100_0000 + b1 * 0x1_0000 + b2 * 0x100 + b3
    }

    /// Reads a big-endian `u32` and moves past it.
    pub fn read_u32_be(&mut self) -> (r: u32)
        requires
            old(self).at() + 4 <= old(self).data().len(),
        ensures
            r == be_u32(old(self).data().subrange(old(self).at(), old(self).at() + 4)),
            final(self).data() == old(self).data(),
            final(self).at() == old(self).at() + 4,
    {
        proof {
            lemma_slice_len(self.bytes);
        }
        let r = self.get4();
        self.pos = self.pos + 4;
        r
    }

    /// Reads a big-endian `u32` without moving.
    pub fn peek_u32_be(&mut self) -> (r: u32)
        requires
            old(self).at() + 4 <= old(self).data().len(),
        ensures
            r == be_u32(old(self).data().subrange(old(self).at(), old(self).at() + 4)),
            *final(self) == *old(self),
    {
        self.get4()
    }

    /// Reads a big-endian `u64` and moves past it.
    pub fn read_u64_be(&mut self) -> (r: u64)
        requires
            old(self).at() + 8 <= old(self).data().len(),
        ensures
            r == be_u64(old(self).data().subrange(old(self).at(), old(self).at() + 8)),
            final(self).data() == old(self).data(),
            final(self).at() == old(self).at() + 8,
    {
        proof {
            lemma_slice_len(self.bytes);
        }
        let ghost b = self.bytes@.subrange(self.pos as int, self.pos + 8);
        let hi = self.get4();
        self.pos = self.pos + 4;
        let lo = self.get4();
        self.pos = self.pos + 4;
        assert(b.subrange(0, 4) =~= self.bytes@.subrange(self.pos - 8, self.pos - 4));
        assert(b.subrange(4, 8) =~= self.bytes@.subrange(self.pos - 4, self.pos as int));
        (hi as u64) * 0x1_0000_0000 + (lo as u64)
    }

    /// Reads `count` bytes and moves past them.
    pub fn read_bytes(&mut self, count: usize) -> (r: &'a [u8])
        requires
            old(self).at() + count <= old(self).data().len(),
        ensures
            r@ == old(self).data().subrange(old(self).at(), old(self).at() + count),
            final(self).data() == old(self).data(),
            final(self).at() == old(self).at() + count,
    {
        proof {
            lemma_slice_len(self.bytes);
        }
        let bytes = &self.bytes[self.pos..(self.pos + count)];
        self.pos = self.pos + count;
        bytes
    }

    /// Moves `count` bytes on.
    pub fn skip(&mut self, count: usize)
        requires
            old(self).at() + count <= usize::MAX,
        ensures
            final(self).data() == old(self).data(),
            final(self).at() == old(self).at() + count,
    {
        self.pos = self.pos + count;
    }

    /// Moves on to the next multiple of `align`, unless the position is one already.
    pub fn align_to(&mut self, align: usize)
        requires
            align > 0,
            old(self).at() % (align as int) == 0 || old(self).at() - old(self).at() % (align as int)
                + align <= usize::MAX,
        ensures
            final(self).data() == old(self).data(),
            final(self).at() == (if old(self).at() % (align as int) == 0 {
                old(self).at()
            } else {
                old(self).at() - old(self).at() % (align as int) + align
            }),
    {
        proof {
            lemma_slice_len(self.bytes);
        }
        let dif = self.pos % align;
        if dif != 0 {
            assert(dif <= self.pos) by (nonlinear_arith)
                requires
                    dif == self.pos % align,
                    align > 0,
            ;
            self.pos = (self.pos - dif) + align;
        }
    }

    /// Reads the zero-terminated string at the position and moves past its zero byte; `None`,
    /// without moving, where there is no such string.
    pub fn try_null_term_str(&mut self) -> (r: Option<&'a str>)
        ensures
            final(self).data() == old(self).data(),
            r is Some <==> has_str_at(old(self).data(), old(self).at()),
            r matches Some(s) ==> s.spec_bytes() == old(self).data().subrange(
                old(self).at(),
                first_nul(old(self).data(), old(self).at()),
            ) && final(self).at() == first_nul(old(self).data(), old(self).at()) + 1,
            r is None ==> final(self).at() == old(self).at(),
    {
        let mut pos = self.pos;
        let r = try_read_null_term_str(self.bytes, &mut pos);
        self.pos = pos;
        r
    }

    /// Reads the zero-terminated string at the position and moves past its zero byte.
    pub fn null_term_str(&mut self) -> (r: &'a str)
        requires
            has_str_at(old(self).data(), old(self).at()),
        ensures
            r.spec_bytes() == old(self).data().subrange(
                old(self).at(),
                first_nul(old(self).data(), old(self).at()),
            ),
            final(self).data() == old(self).data(),
            final(self).at() == first_nul(old(self).data(), old(self).at()) + 1,
    {
        let mut pos = self.pos;
        let r = read_null_term_str(self.bytes, &mut pos);
        self.pos = pos;
        r
    }

    /// The number of bytes that the reader reads from.
    pub fn len(&self) -> (r: usize)
        ensures
            r == self.data().len(),
    {
        self.bytes.len()
    }

    /// The reader's position.
    pub fn pos(&self) -> (r: usize)
        ensures
            r == self.at(),
    {
        self.pos
    }
}

/// Reads the zero-terminated string that starts at `*pos` of `bytes`, and moves `*pos` past its
/// zero byte; `None`, with `*pos` unchanged, where there is no such string.
pub fn try_read_null_term_str<'a>(bytes: &'a [u8], pos: &mut usize) -> (r: Option<&'a str>)
    ensures
        r is Some <==> has_str_at(bytes@, *old(pos) as int),
        r matches Some(s) ==> s.spec_bytes() == bytes@.subrange(
            *old(pos) as int,
            first_nul(bytes@, *old(pos) as int),
        ) && *final(pos) == first_nul(bytes@, *old(pos) as int) + 1,
        r is None ==> *final(pos) == *old(pos),
{
    proof {
        lemma_slice_len(bytes);
    }
    let n = bytes.len();
    if *pos > n {
        return None;
    }
    proof {
        lemma_first_nul(bytes@, *pos as int);
    }
    let ghost e = first_nul(bytes@, *pos as int);
    let mut len: usize = 0;
    while *pos + len < n && bytes[*pos + len] != 0
        invariant
            *pos + len <= e,
            e <= bytes@.len(),
            n == bytes@.len(),
            e < bytes@.len() ==> bytes@[e] == 0,
            forall|k: int| *pos <= k < e ==> bytes@[k] != 0,
        decreases e - (*pos + len),
    {
        len = len + 1;
    }
    if *pos + len == n {
        return None;
    }
    let slice = &bytes[*pos..(*pos + len)];
    match utf8_str(slice) {
        Some(s) => {
            *pos = *pos + len + 1;
            Some(s)
        },
        None => None,
    }
}

/// Reads the zero-terminated string that starts at `*pos` of `bytes`, and moves `*pos` past its
/// zero byte.
pub fn read_null_term_str<'a>(bytes: &'a [u8], pos: &mut usize) -> (r: &'a str)
    requires
        has_str_at(bytes@, *old(pos) as int),
    ensures
        r.spec_bytes() == bytes@.subrange(*old(pos) as int, first_nul(bytes@, *old(pos) as int)),
        *final(pos) == first_nul(bytes@, *old(pos) as int) + 1,
{
    match try_read_null_term_str(bytes, pos) {
        Some(s) => s,
        None => {
            assert(false);
            ""
        },
    }
}

} // verus!
