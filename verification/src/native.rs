//! The native types of WinRT call slots.

use vstd::prelude::*;

verus! {

/// What a slot of a native call holds. Types that need no treatment of their own are `Other`.
#[derive(Clone, Copy, PartialEq, Eq, Structural, Debug)]
pub enum NativeType {
    Pointer,
    String,
    Bool,
    U8,
    I8,
    U16,
    I16,
    U32,
    I32,
    U64,
    I64,
    Other,
}

} // verus!
