//! Keys: the identifiers by which a list item is recognised from one snapshot
//! to the next.

use vstd::prelude::*;
use vstd::utf8::encode_utf8;

verus! {

/// A value that can serve as a list key: it can be compared and hashed.
///
/// The identity of a key is its view: two keys name the same logical item
/// exactly when their views are equal.
pub trait Key: View + Sized {
    /// The hash code of the keys whose view is `v`.
    spec fn code_of(v: Self::V) -> u64;

    /// Whether `self` and `other` name the same logical item.
    fn same_key(&self, other: &Self) -> (same: bool)
        ensures
            same == (self@ == other@),
    ;

    /// The hash code of this key. Keys that name the same item have the same
    /// code.
    fn code(&self) -> (code: u64)
        ensures
            code == Self::code_of(self@),
    ;
}

/// The modulus of `text_code`: the largest prime below 2^64.
pub const CODE_MODULUS: u64 = 0xffff_ffff_ffff_ffc5;

/// The hash code of a byte string: its bytes read as the digits of a number
/// to the base 31, modulo `CODE_MODULUS`.
pub open spec fn text_code(bytes: Seq<u8>) -> u64
    decreases bytes.len(),
{
    if bytes.len() == 0 {
        0
    } else {
        ((text_code(bytes.drop_last()) * 31 + bytes.last()) % (CODE_MODULUS as int)) as u64
    }
}

impl Key for String {
    /// A text is hashed by its UTF-8 bytes.
    open spec fn code_of(v: Seq<char>) -> u64 {
        text_code(encode_utf8(v))
    }

    fn same_key(&self, other: &Self) -> (same: bool) {
        *self == *other
    }

    fn code(&self) -> (code: u64) {
        let bytes = self.as_str().as_bytes();
        let mut code: u64 = 0;
        let mut i: usize = 0;
        while i < bytes.len()
            invariant
                i <= bytes.len(),
                code == text_code(bytes@.take(i as int)),
            decreases bytes.len() - i,
        {
            proof {
                assert(bytes@.take(i + 1).drop_last() =~= bytes@.take(i as int));
            }
            let wide = (code as u128 * 31 + bytes[i] as u128) % (CODE_MODULUS as u128);
            code = wide as u64;
            i += 1;
        }
        proof {
            assert(bytes@.take(bytes@.len() as int) =~= bytes@);
        }
        code
    }
}

impl Key for usize {
    /// A number is its own hash code.
    open spec fn code_of(v: usize) -> u64 {
        v as u64
    }

    fn same_key(&self, other: &Self) -> (same: bool) {
        *self == *other
    }

    fn code(&self) -> (code: u64) {
        *self as u64
    }
}

impl Key for u64 {
    /// A number is its own hash code.
    open spec fn code_of(v: u64) -> u64 {
        v
    }

    fn same_key(&self, other: &Self) -> (same: bool) {
        *self == *other
    }

    fn code(&self) -> (code: u64) {
        *self
    }
}

} // verus!
