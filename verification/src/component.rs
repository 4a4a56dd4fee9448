//! Components: the values attached to entities.

use vstd::prelude::*;
use crate::layout::TypeKey;

verus! {

/// A value that can be stored in a column. Every component reports the key
/// of its type; values with the same key share a column.
pub trait Component: Sized {
    /// The key of the type this value belongs to.
    spec fn type_key(&self) -> TypeKey;

    /// Returns the key of the type this value belongs to.
    fn type_id(&self) -> (key: TypeKey)
        ensures
            key == self.type_key(),
    ;
}

/// Unsigned integer components of the common widths. The key of a value is
/// its width in bits.
#[derive(Clone, Copy, Debug, PartialEq, Eq, Structural)]
pub enum Scalar {
    U8(u8),
    U16(u16),
    U32(u32),
    U64(u64),
    U128(u128),
}

/// Key of the 8-bit scalars.
pub const KEY_U8: TypeKey = 8;

/// Key of the 16-bit scalars.
pub const KEY_U16: TypeKey = 16;

/// Key of the 32-bit scalars.
pub const KEY_U32: TypeKey = 32;

/// Key of the 64-bit scalars.
pub const KEY_U64: TypeKey = 64;

/// Key of the 128-bit scalars.
pub const KEY_U128: TypeKey = 128;

impl Component for Scalar {
    open spec fn type_key(&self) -> TypeKey {
        match self {
            Scalar::U8(_) => KEY_U8,
            Scalar::U16(_) => KEY_U16,
            Scalar::U32(_) => KEY_U32,
            Scalar::U64(_) => KEY_U64,
            Scalar::U128(_) => KEY_U128,
        }
    }

    fn type_id(&self) -> (key: TypeKey) {
        match self {
            Scalar::U8(_) => KEY_U8,
            Scalar::U16(_) => KEY_U16,
            Scalar::U32(_) => KEY_U32,
            Scalar::U64(_) => KEY_U64,
            Scalar::U128(_) => KEY_U128,
        }
    }
}

} // verus!
