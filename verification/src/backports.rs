//! Small helpers that newer versions of std provide, kept for older compilers.

use vstd::prelude::*;
use crate::le::u32_le_seq;

verus! {

/// Marks the traits of this module as implemented for exactly one type.
pub trait Sealed<T: ?Sized> {

}

impl<T: ?Sized> Sealed<T> for T {

}

/// `Option::copied` for references to `Copy` values.
#[allow(non_camel_case_types)]
pub trait Option_v1_35<'a, T: Copy + 'a>: Sealed<Option<&'a T>> {
    /// The referenced value, copied, or `None`.
    fn copied(self) -> Option<T>;
}

impl<'a, T: Copy + 'a> Option_v1_35<'a, T> for Option<&'a T> {
    fn copied(self) -> (res: Option<T>)
        ensures
            res == (match self {
                Some(r) => Some(*r),
                None => None,
            }),
    {
        match self {
            Some(r) => Some(*r),
            None => None,
        }
    }
}

/// `u32::to_le_bytes`.
#[allow(non_camel_case_types)]
pub trait u32_v1_32: Sealed<u32> {
    /// The four bytes of the number, least significant first.
    fn to_le_bytes(self) -> [u8; 4];
}

impl u32_v1_32 for u32 {
    fn to_le_bytes(self) -> (res: [u8; 4])
        ensures
            res@ == u32_le_seq(self),
    {
        let res: [u8; 4] = [
            (self & 0xff) as u8,
            ((self >> 8u32) & 0xff) as u8,
            ((self >> 16u32) & 0xff) as u8,
            ((self >> 24u32) & 0xff) as u8,
        ];
        assert(res@ =~= u32_le_seq(self));
        res
    }
}

} // verus!
