//! Byte-level text helpers: character-boundary clipping, slicing and
//! comparison.
//!
//! The engine works on the UTF-8 bytes of the text.  A byte offset may fall
//! inside a multi-byte code point; before slicing, offsets are clamped to
//! the nearest character boundary so that no code point is ever split.  In
//! UTF-8 an offset is a character boundary exactly when it is the start, the
//! end, or a byte that is not a continuation byte (`0b10xx_xxxx`).
use vstd::prelude::*;

verus! {

/// Is `i` a character boundary of the UTF-8 text `b`?
pub open spec fn is_char_boundary(b: Seq<u8>, i: int) -> bool {
    i == 0 || i == b.len() || (0 < i < b.len() && (b[i] & 0xc0) != 0x80)
}

/// `r` is the greatest character boundary at or before `off` (after
/// clamping `off` to the text's length).
pub open spec fn is_clip_left(b: Seq<u8>, off: int, r: int) -> bool {
    &&& r <= off
    &&& r <= b.len()
    &&& is_char_boundary(b, r)
    &&& forall|j: int| r < j && j <= off && j <= b.len() ==> !is_char_boundary(b, j)
}

/// `r` is the least character boundary at or after `off` (after clamping
/// `off` to the text's length).
pub open spec fn is_clip_right(b: Seq<u8>, off: int, r: int) -> bool {
    &&& (off <= b.len() ==> off <= r)
    &&& (off > b.len() ==> r == b.len())
    &&& r <= b.len()
    &&& is_char_boundary(b, r)
    &&& forall|j: int| off <= j && j < r ==> !is_char_boundary(b, j)
}

/// The greatest character boundary at or before `off` (after clamping `off`
/// to the text's length).
pub fn clip_left(b: &Vec<u8>, off: usize) -> (r: usize)
    ensures
        is_clip_left(b@, off as int, r as int),
{
    let mut o: usize = if off > b.len() {
        b.len()
    } else {
        off
    };
    while o > 0 && o < b.len() && (b[o] & 0xc0) == 0x80
        invariant
            o <= off,
            o <= b@.len(),
            forall|j: int| o < j && j <= off && j <= b@.len() ==> !is_char_boundary(b@, j),
        decreases o,
    {
        o = o - 1;
    }
    o
}

/// The least character boundary at or after `off` (after clamping `off` to
/// the text's length).
pub fn clip_right(b: &Vec<u8>, off: usize) -> (r: usize)
    ensures
        is_clip_right(b@, off as int, r as int),
{
    let mut o: usize = if off > b.len() {
        b.len()
    } else {
        off
    };
    while o > 0 && o < b.len() && (b[o] & 0xc0) == 0x80
        invariant
            off <= b@.len() ==> off <= o,
            off > b@.len() ==> o == b@.len(),
            o <= b@.len(),
            forall|j: int| off <= j && j < o ==> !is_char_boundary(b@, j),
        decreases b@.len() - o,
    {
        o = o + 1;
    }
    o
}

/// Copy the byte range `[s, e)` out of the text.
pub fn slice_bytes(b: &Vec<u8>, s: usize, e: usize) -> (r: Vec<u8>)
    requires
        s <= e,
        e <= b@.len(),
    ensures
        r@ == b@.subrange(s as int, e as int),
{
    let mut r: Vec<u8> = Vec::new();
    let mut i: usize = s;
    while i < e
        invariant
            s <= i <= e,
            e <= b@.len(),
            r@ == b@.subrange(s as int, i as int),
        decreases e - i,
    {
        r.push(b[i]);
        proof {
            assert(b@.subrange(s as int, i + 1) =~= b@.subrange(s as int, i as int).push(
                b@[i as int],
            ));
        }
        i = i + 1;
    }
    r
}

/// Are the two byte strings equal?
pub fn bytes_eq(a: &Vec<u8>, b: &Vec<u8>) -> (r: bool)
    ensures
        r == (a@ == b@),
{
    if a.len() != b.len() {
        return false;
    }
    let mut i: usize = 0;
    while i < a.len()
        invariant
            i <= a@.len(),
            a@.len() == b@.len(),
            forall|j: int| 0 <= j < i ==> a@[j] == b@[j],
        decreases a@.len() - i,
    {
        if a[i] != b[i] {
            return false;
        }
        i = i + 1;
    }
    proof {
        assert(a@ =~= b@);
    }
    true
}

} // verus!
