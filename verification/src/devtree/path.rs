use vstd::prelude::*;

verus! {

use vstd::string::StringSliceAdditionalSpecFns;
use vstd::utf8::*;

/// The index of the first byte `c` of `b` at or after `i`, if any.
pub open spec fn find_byte(b: Seq<u8>, c: u8, i: int) -> Option<int>
    decreases b.len() - i,
{
    if i < 0 || i >= b.len() {
        None
    } else if b[i] == c {
        Some(i)
    } else {
        find_byte(b, c, i + 1)
    }
}

/// `find_byte` gives the first such byte.
pub proof fn lemma_find_byte(b: Seq<u8>, c: u8, i: int)
    requires
        0 <= i,
    ensures
        find_byte(b, c, i) matches Some(k) ==> i <= k < b.len() && b[k] == c && forall|j: int|
            i <= j < k ==> b[j] != c,
        find_byte(b, c, i) is None ==> forall|j: int| i <= j < b.len() ==> b[j] != c,
    decreases b.len() - i,
{
    if i < b.len() && b[i] != c {
        lemma_find_byte(b, c, i + 1);
    }
}

/// `b` split around its first byte `c`: the bytes before it and the bytes after it.
pub open spec fn split_once(b: Seq<u8>, c: u8) -> Option<(Seq<u8>, Seq<u8>)> {
    match find_byte(b, c, 0) {
        None => None,
        Some(k) => Some((b.subrange(0, k), b.subrange(k + 1, b.len() as int))),
    }
}

/// Splits `b` around its first byte `c`.
pub fn split_once_bytes<'a>(b: &'a [u8], c: u8) -> (r: Option<(&'a [u8], &'a [u8])>)
    ensures
        match split_once(b@, c) {
            None => r is None,
            Some((x, y)) => r matches Some((u, v)) && u@ == x && v@ == y,
        },
{
    proof {
        lemma_find_byte(b@, c, 0);
    }
    let n = b.len();
    let mut i: usize = 0;
    while i < n
        invariant
            n == b@.len(),
            0 <= i <= n,
            find_byte(b@, c, 0) == find_byte(b@, c, i as int),
        decreases n - i,
    {
        if b[i] == c {
            return Some((&b[0..i], &b[(i + 1)..n]));
        }
        i = i + 1;
    }
    None
}

/// Whether two byte slices hold the same bytes.
pub fn bytes_eq(a: &[u8], b: &[u8]) -> (r: bool)
    ensures
        r <==> a@ == b@,
{
    if a.len() != b.len() {
        return false;
    }
    let n = a.len();
    let mut i: usize = 0;
    while i < n
        invariant
            n == a@.len(),
            n == b@.len(),
            0 <= i <= n,
            forall|j: int| 0 <= j < i ==> a@[j] == b@[j],
        decreases n - i,
    {
        if a[i] != b[i] {
            return false;
        }
        i = i + 1;
    }
    assert(a@ =~= b@);
    true
}

/// Splitting around the first `c` loses nothing: the part before, `c` and the part after give
/// the bytes back, and the part before holds no `c`.
pub proof fn lemma_split_once_rejoin(b: Seq<u8>, c: u8)
    ensures
        split_once(b, c) matches Some((x, y)) ==> x + seq![c] + y == b && !x.contains(c),
        split_once(b, c) is None ==> !b.contains(c),
{
    lemma_find_byte(b, c, 0);
    if let Some((x, y)) = split_once(b, c) {
        let k = find_byte(b, c, 0).unwrap();
        assert(x + seq![c] + y =~= b);
        assert(!x.contains(c)) by {
            if x.contains(c) {
                let j = choose|j: int| 0 <= j < x.len() && x[j] == c;
                assert(b[j] == c);
            }
        }
    } else {
        assert(!b.contains(c)) by {
            if b.contains(c) {
                let j = choose|j: int| 0 <= j < b.len() && b[j] == c;
                assert(b[j] == c);
            }
        }
    }
}

/// Bytes `x`, `c` and `y`, where `x` holds no `c`, split around their first `c` into `x` and
/// `y`.
pub proof fn lemma_split_once_at(x: Seq<u8>, c: u8, y: Seq<u8>)
    requires
        !x.contains(c),
    ensures
        split_once(x + seq![c] + y, c) == Some((x, y)),
{
    let b = x + seq![c] + y;
    lemma_find_byte(b, c, 0);
    assert(b[x.len() as int] == c);
    match find_byte(b, c, 0) {
        Some(k) => {
            if k < x.len() {
                assert(x[k] == c);
            }
            assert(k == x.len());
            assert(b.subrange(0, k) =~= x);
            assert(b.subrange(k + 1, b.len() as int) =~= y);
        },
        None => {},
    }
}

/// Bytes without `c` do not split around it.
pub proof fn lemma_split_once_none(b: Seq<u8>, c: u8)
    requires
        !b.contains(c),
    ensures
        split_once(b, c) is None,
{
    lemma_split_once_rejoin(b, c);
    if let Some((x, y)) = split_once(b, c) {
        assert((x + seq![c] + y)[x.len() as int] == c);
    }
}

/// Splits the string `s` around its first byte `c`, an ASCII character.
pub fn split_once_str<'a>(s: &'a str, c: u8) -> (r: Option<(&'a str, &'a str)>)
    requires
        c < 0x80,
    ensures
        match split_once(s.spec_bytes(), c) {
            None => r is None,
            Some((x, y)) => r matches Some((u, v)) && u.spec_bytes() == x && v.spec_bytes() == y,
        },
{
    let b = s.as_bytes();
    proof {
        lemma_find_byte(b@, c, 0);
        encode_utf8_valid_utf8(s@);
    }
    let n = b.len();
    let mut i: usize = 0;
    while i < n
        invariant
            b@ == s.spec_bytes(),
            valid_utf8(b@),
            c < 0x80,
            n == b@.len(),
            0 <= i <= n,
            find_byte(b@, c, 0) == find_byte(b@, c, i as int),
        decreases n - i,
    {
        if b[i] == c {
            proof {
                is_char_boundary_iff_not_is_continuation_byte(b@, i as int);
            }
            let (head, rest) = s.split_at(i);
            proof {
                valid_utf8_split(b@, i as int);
                let rb = rest.spec_bytes();
                assert(rb =~= b@.subrange(i as int, n as int));
                reveal_with_fuel(is_char_boundary, 2);
                assert(is_char_boundary(rb, 1));
            }
            let (_, tail) = rest.split_at(1);
            proof {
                assert(tail.spec_bytes() =~= b@.subrange(i + 1, n as int));
            }
            return Some((head, tail));
        }
        i = i + 1;
    }
    None
}

} // verus!
