//! Bitmaps of the `arrow2` crate, seen as sequences of booleans.

use arrow2::bitmap::Bitmap;
use arrow2::bitmap::MutableBitmap;
use vstd::prelude::*;

verus! {

#[verifier::external_type_specification]
#[verifier::external_body]
pub struct ExBitmap(arrow2::bitmap::Bitmap);

#[verifier::external_type_specification]
#[verifier::external_body]
pub struct ExMutableBitmap(arrow2::bitmap::MutableBitmap);

/// The bits that a [`Bitmap`] holds, first bit first.
pub uninterp spec fn bits(bitmap: Bitmap) -> Seq<bool>;

/// The bits that a [`MutableBitmap`] holds, first bit first.
pub uninterp spec fn mutable_bits(bitmap: MutableBitmap) -> Seq<bool>;

/// Whether a [`MutableBitmap`] owns exactly the bytes that its bits need. Appending a bit is only
/// sound on such a bitmap: `arrow2` writes into the last byte of the buffer.
pub uninterp spec fn is_compact(bitmap: MutableBitmap) -> bool;

/// The most bits that `arrow2` can lay out in one go: it rounds the number of bits up to whole
/// bytes with a saturating addition.
pub open spec fn max_bits() -> nat {
    (usize::MAX - 7) as nat
}

/// The number of unset bits.
pub open spec fn count_unset(s: Seq<bool>) -> nat
    decreases s.len(),
{
    if s.len() == 0 {
        0
    } else {
        count_unset(s.drop_last()) + (if s.last() {
            0nat
        } else {
            1nat
        })
    }
}

/// `n` times the same bit.
pub open spec fn repeat_bit(n: nat, value: bool) -> Seq<bool> {
    Seq::new(n, |i: int| value)
}

/// `MutableBitmap::new`: a bitmap of no bits, over an empty buffer.
#[verifier::external_body]
pub(crate) fn mutable_bitmap_new() -> (r: MutableBitmap)
    ensures
        mutable_bits(r) == Seq::<bool>::empty(),
        is_compact(r),
{
    MutableBitmap::new()
}

/// `MutableBitmap::from_len_set`: `length` set bits.
#[verifier::external_body]
pub(crate) fn mutable_bitmap_from_len_set(length: usize) -> (r: MutableBitmap)
    requires
        length <= max_bits(),
    ensures
        mutable_bits(r) == repeat_bit(length as nat, true),
        is_compact(r),
{
    MutableBitmap::from_len_set(length)
}

/// `MutableBitmap::from_len_zeroed`: `length` unset bits.
#[verifier::external_body]
pub(crate) fn mutable_bitmap_from_len_zeroed(length: usize) -> (r: MutableBitmap)
    requires
        length <= max_bits(),
    ensures
        mutable_bits(r) == repeat_bit(length as nat, false),
        is_compact(r),
{
    MutableBitmap::from_len_zeroed(length)
}

/// `MutableBitmap::push`: appends one bit. The length counter must not overflow.
#[verifier::external_body]
pub(crate) fn mutable_bitmap_push(bitmap: &mut MutableBitmap, value: bool)
    requires
        is_compact(*old(bitmap)),
        mutable_bits(*old(bitmap)).len() < usize::MAX,
    ensures
        mutable_bits(*final(bitmap)) == mutable_bits(*old(bitmap)).push(value),
        is_compact(*final(bitmap)),
{
    bitmap.push(value)
}

/// `MutableBitmap::get`: the bit at `index`, which must lie within the bitmap.
#[verifier::external_body]
pub(crate) fn mutable_bitmap_get(bitmap: &MutableBitmap, index: usize) -> (r: bool)
    requires
        index < mutable_bits(*bitmap).len(),
    ensures
        r == mutable_bits(*bitmap)[index as int],
{
    bitmap.get(index)
}

/// `MutableBitmap::set`: replaces the bit at `index`, which must lie within the bitmap.
#[verifier::external_body]
pub(crate) fn mutable_bitmap_set(bitmap: &mut MutableBitmap, index: usize, value: bool)
    requires
        index < mutable_bits(*old(bitmap)).len(),
    ensures
        mutable_bits(*final(bitmap)) == mutable_bits(*old(bitmap)).update(index as int, value),
{
    bitmap.set(index, value)
}

/// `<Bitmap as From<MutableBitmap>>::from`: freezes a bitmap, keeping its bits.
#[verifier::external_body]
pub(crate) fn bitmap_from_mutable(bitmap: MutableBitmap) -> (r: Bitmap)
    ensures
        bits(r) == mutable_bits(bitmap),
{
    bitmap.into()
}

/// `Bitmap::into_mut`: the same bits, as a mutable bitmap where the buffer is not shared, and the
/// bitmap itself where it is. Nothing is stated of which of the two happens: that depends on who
/// else holds the buffer, which is no part of a bitmap's value.
#[verifier::external_body]
pub(crate) fn bitmap_into_mut(bitmap: Bitmap) -> (r: Result<MutableBitmap, Bitmap>)
    ensures
        match r {
            Ok(owned) => mutable_bits(owned) == bits(bitmap),
            Err(shared) => bits(shared) == bits(bitmap),
        },
{
    bitmap.into_mut().either(Err, Ok)
}

/// `Bitmap::len`: the number of bits.
#[verifier::external_body]
pub(crate) fn bitmap_len(bitmap: &Bitmap) -> (r: usize)
    ensures
        r == bits(*bitmap).len(),
{
    bitmap.len()
}

/// `Bitmap::get_bit`: the bit at `index`, which must lie within the bitmap.
#[verifier::external_body]
pub(crate) fn bitmap_get_bit(bitmap: &Bitmap, index: usize) -> (r: bool)
    requires
        index < bits(*bitmap).len(),
    ensures
        r == bits(*bitmap)[index as int],
{
    bitmap.get_bit(index)
}

/// `Bitmap::null_count`: the number of unset bits.
#[verifier::external_body]
pub(crate) fn bitmap_null_count(bitmap: &Bitmap) -> (r: usize)
    ensures
        r == count_unset(bits(*bitmap)),
{
    bitmap.null_count()
}

/// `Bitmap::new_zeroed`: `length` unset bits.
#[verifier::external_body]
pub(crate) fn bitmap_new_zeroed(length: usize) -> (r: Bitmap)
    requires
        length <= max_bits(),
    ensures
        bits(r) == repeat_bit(length as nat, false),
{
    Bitmap::new_zeroed(length)
}

/// `<Bitmap as Clone>::clone`: another handle on the same bits.
#[verifier::external_body]
pub(crate) fn bitmap_clone(bitmap: &Bitmap) -> (r: Bitmap)
    ensures
        bits(r) == bits(*bitmap),
{
    bitmap.clone()
}

/// `<&Bitmap as BitAnd<&Bitmap>>::bitand`: the conjunction, bit by bit, of two bitmaps of one
/// length. This speaks of little-endian machines: a bitmap that does not start at a byte is put
/// together in the byte order of the machine.
#[verifier::external_body]
pub(crate) fn bitmap_and(lhs: &Bitmap, rhs: &Bitmap) -> (r: Bitmap)
    requires
        bits(*lhs).len() == bits(*rhs).len(),
        bits(*lhs).len() <= max_bits(),
    ensures
        bits(r) == conjunction(bits(*lhs), bits(*rhs)),
{
    lhs & rhs
}

/// The conjunction, bit by bit, of two sequences of one length.
pub open spec fn conjunction(lhs: Seq<bool>, rhs: Seq<bool>) -> Seq<bool> {
    Seq::new(lhs.len(), |i: int| lhs[i] && rhs[i])
}

/// No unset bit means that every bit is set; as many unset bits as bits means that none is.
pub proof fn lemma_count_unset_extremes(s: Seq<bool>)
    ensures
        count_unset(s) <= s.len(),
        count_unset(s) == 0 <==> (forall|i: int| 0 <= i < s.len() ==> s[i]),
        count_unset(s) == s.len() <==> (forall|i: int| 0 <= i < s.len() ==> !s[i]),
    decreases s.len(),
{
    if s.len() > 0 {
        let init = s.drop_last();
        lemma_count_unset_extremes(init);
        assert(forall|i: int| 0 <= i < init.len() ==> init[i] == s[i]);
        assert(s.last() == s[s.len() - 1]);
        if count_unset(s) == 0 {
            assert forall|i: int| 0 <= i < s.len() implies s[i] by {
                if i < init.len() {
                    assert(init[i]);
                }
            }
        }
        if count_unset(s) == s.len() {
            assert forall|i: int| 0 <= i < s.len() implies !s[i] by {
                if i < init.len() {
                    assert(!init[i]);
                }
            }
        }
    }
}

/// Appends `n` times the bit `value`.
pub(crate) fn extend_constant(bitmap: &mut MutableBitmap, n: usize, value: bool)
    requires
        is_compact(*old(bitmap)),
        mutable_bits(*old(bitmap)).len() + n <= usize::MAX,
    ensures
        mutable_bits(*final(bitmap)) == mutable_bits(*old(bitmap)) + repeat_bit(n as nat, value),
        is_compact(*final(bitmap)),
{
    let mut done: usize = 0;
    while done < n
        invariant
            done <= n,
            is_compact(*bitmap),
            mutable_bits(*bitmap) == mutable_bits(*old(bitmap)) + repeat_bit(done as nat, value),
            mutable_bits(*old(bitmap)).len() + n <= usize::MAX,
        decreases n - done,
    {
        mutable_bitmap_push(bitmap, value);
        done = done + 1;
        assert(mutable_bits(*bitmap) =~= mutable_bits(*old(bitmap)) + repeat_bit(
            done as nat,
            value,
        ));
    }
}

/// The same bits in a bitmap that can be written to: the bitmap's own buffer where nobody shares
/// it, a copy of it otherwise.
pub fn unshare(bitmap: Bitmap) -> (r: MutableBitmap)
    ensures
        mutable_bits(r) == bits(bitmap),
{
    match bitmap_into_mut(bitmap) {
        Ok(owned) => owned,
        Err(shared) => {
            let len: usize = bitmap_len(&shared);
            let mut copy = mutable_bitmap_new();
            let mut i: usize = 0;
            while i < len
                invariant
                    i <= len,
                    len == bits(shared).len(),
                    is_compact(copy),
                    mutable_bits(copy) == bits(shared).take(i as int),
                decreases len - i,
            {
                mutable_bitmap_push(&mut copy, bitmap_get_bit(&shared, i));
                i = i + 1;
                assert(mutable_bits(copy) =~= bits(shared).take(i as int));
            }
            assert(bits(shared).take(len as int) =~= bits(shared));
            copy
        },
    }
}

} // verus!
